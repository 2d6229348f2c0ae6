use gbdt_core::tree::Tree;
use gbdt_core::tree::TreeError;
use gbdt_core::tree::TreeNode;

/// Maps an `f32` to a `u64` key whose integer order matches the float
/// order (for non-NaN values).
fn tree_key_of(x: f32) -> u64 {
    let b = x.to_bits();
    let k = if b & 0x8000_0000 != 0 { !b } else { b | 0x8000_0000 };
    k as u64
}

fn tree_float_of(k: u64) -> f32 {
    let b = k as u32;
    let bits = if b & 0x8000_0000 != 0 { b & 0x7fff_ffff } else { !b };
    f32::from_bits(bits)
}

fn simple_tree() -> Tree {
    let left_leaf = TreeNode::Leaf { value: tree_key_of(10.0) };
    let right_leaf = TreeNode::Leaf { value: tree_key_of(20.0) };

    let root = TreeNode::Split {
        feature_index: 0,
        threshold: tree_key_of(5.0),
        left_child: Box::new(left_leaf),
        right_child: Box::new(right_leaf),
    };

    Tree::new(Box::new(root))
}

#[test]
fn test_simple_tree_prediction() {
    let tree = simple_tree();

    assert_eq!(tree.predict(&vec![tree_key_of(3.0)]), Ok(tree_key_of(10.0)));
}

#[test]
fn threshold_itself_routes_right() {
    let tree = simple_tree();

    // strictly-less goes left; the threshold itself goes right
    let below = tree.predict(&vec![tree_key_of(3.0)]).unwrap();
    assert_eq!(tree_float_of(below), 10.0);
    let at = tree.predict(&vec![tree_key_of(5.0)]).unwrap();
    assert_eq!(tree_float_of(at), 20.0);
    let above = tree.predict(&vec![tree_key_of(8.0)]).unwrap();
    assert_eq!(tree_float_of(above), 20.0);
}

#[test]
fn prediction_is_deterministic() {
    let tree = simple_tree();
    let features = vec![tree_key_of(4.75)];

    let first = tree.predict(&features);
    let second = tree.predict(&features);
    assert_eq!(first, second);
    assert_eq!(first, Ok(tree_key_of(10.0)));
}

#[test]
fn deep_tree_routes_through_several_splits() {
    // feature 0 splits at 5.0; the left side splits again on feature 1
    // at 0.0.
    let leaf_a = TreeNode::Leaf { value: tree_key_of(-1.0) };
    let leaf_b = TreeNode::Leaf { value: tree_key_of(1.0) };
    let leaf_c = TreeNode::Leaf { value: tree_key_of(7.5) };

    let left = TreeNode::Split {
        feature_index: 1,
        threshold: tree_key_of(0.0),
        left_child: Box::new(leaf_a),
        right_child: Box::new(leaf_b),
    };
    let root = TreeNode::Split {
        feature_index: 0,
        threshold: tree_key_of(5.0),
        left_child: Box::new(left),
        right_child: Box::new(leaf_c),
    };
    let tree = Tree::new(Box::new(root));

    let p1 = tree.predict(&vec![tree_key_of(2.0), tree_key_of(-3.0)]).unwrap();
    assert_eq!(tree_float_of(p1), -1.0);
    let p2 = tree.predict(&vec![tree_key_of(2.0), tree_key_of(3.0)]).unwrap();
    assert_eq!(tree_float_of(p2), 1.0);
    let p3 = tree.predict(&vec![tree_key_of(9.0), tree_key_of(-3.0)]).unwrap();
    assert_eq!(tree_float_of(p3), 7.5);
}

#[test]
fn out_of_range_feature_index_is_reported() {
    let leaf_l = TreeNode::Leaf { value: tree_key_of(1.0) };
    let leaf_r = TreeNode::Leaf { value: tree_key_of(2.0) };
    let root = TreeNode::Split {
        feature_index: 3,
        threshold: tree_key_of(0.0),
        left_child: Box::new(leaf_l),
        right_child: Box::new(leaf_r),
    };
    let tree = Tree::new(Box::new(root));

    let outcome = tree.predict(&vec![tree_key_of(1.0)]);
    assert_eq!(outcome, Err(TreeError::FeatureIndexOutOfRange));
}
