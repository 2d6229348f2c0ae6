//! An immutable binary decision tree: split nodes compare one feature
//! against a threshold and route left or right; leaves hold the prediction.

use vstd::prelude::*;

verus! {

/// A node of a decision tree: either an internal split on one feature, or
/// a leaf carrying the prediction value for every sample routed to it.
///
/// Thresholds and leaf values are `u64` keys; see the crate documentation.
pub enum TreeNode {
    Split {
        feature_index: usize,
        threshold: u64,
        left_child: Box<TreeNode>,
        right_child: Box<TreeNode>,
    },
    Leaf { value: u64 },
}

/// The error a prediction reports when a split node names a feature index
/// that lies beyond the supplied feature vector.
#[derive(Clone, Copy, Debug, PartialEq, Eq, Structural)]
pub enum TreeError {
    FeatureIndexOutOfRange,
}

/// The value a descent from `node` reaches on `features`: at a split,
/// strictly smaller values go left and all others (the threshold included)
/// go right; `None` when the descent meets a feature index out of range.
pub open spec fn spec_predict(node: TreeNode, features: Seq<u64>) -> Option<u64>
    decreases node,
{
    match node {
        TreeNode::Leaf { value } => Some(value),
        TreeNode::Split { feature_index, threshold, left_child, right_child } => {
            if feature_index >= features.len() {
                None
            } else if features[feature_index as int] < threshold {
                spec_predict(*left_child, features)
            } else {
                spec_predict(*right_child, features)
            }
        },
    }
}

/// Prediction is deterministic: any two results that `predict` can
/// return for the same tree and the same feature vector are the same
/// result, because each is pinned to the one value of `spec_predict` on
/// those inputs.
pub proof fn lemma_predict_deterministic(
    t: Tree,
    features: Seq<u64>,
    r1: Result<u64, TreeError>,
    r2: Result<u64, TreeError>,
)
    requires
        r1 == (match spec_predict(*t.root, features) {
            Some(v) => Ok::<u64, TreeError>(v),
            None => Err::<u64, TreeError>(TreeError::FeatureIndexOutOfRange),
        }),
        r2 == (match spec_predict(*t.root, features) {
            Some(v) => Ok::<u64, TreeError>(v),
            None => Err::<u64, TreeError>(TreeError::FeatureIndexOutOfRange),
        }),
    ensures
        r1 == r2,
{
}

/// A decision tree with a single root node, immutable after construction.
pub struct Tree {
    pub root: Box<TreeNode>,
}

impl Tree {
    /// Wraps an already-built node structure; no validation is performed.
    pub fn new(root: Box<TreeNode>) -> (t: Tree)
        ensures
            t.root == root,
    {
        Tree { root }
    }

    /// Routes `features` from the root to a leaf and returns the leaf's
    /// value, or reports the out-of-range feature index the descent met.
    ///
    /// The result is a pure function of the tree and the feature vector:
    /// repeated calls with the same inputs return the same value.
    pub fn predict(&self, features: &Vec<u64>) -> (r: Result<u64, TreeError>)
        ensures
            match spec_predict(*self.root, features@) {
                Some(v) => r == Ok::<u64, TreeError>(v),
                None => r == Err::<u64, TreeError>(TreeError::FeatureIndexOutOfRange),
            },
    {
        Self::predict_node(&self.root, features)
    }

    /// One step of the descent, recursing into the chosen child.
    fn predict_node(node: &TreeNode, features: &Vec<u64>) -> (r: Result<u64, TreeError>)
        ensures
            match spec_predict(*node, features@) {
                Some(v) => r == Ok::<u64, TreeError>(v),
                None => r == Err::<u64, TreeError>(TreeError::FeatureIndexOutOfRange),
            },
        decreases *node,
    {
        match node {
            TreeNode::Leaf { value } => Ok(*value),
            TreeNode::Split { feature_index, threshold, left_child, right_child } => {
                if *feature_index < features.len() {
                    if features[*feature_index] < *threshold {
                        Self::predict_node(left_child, features)
                    } else {
                        Self::predict_node(right_child, features)
                    }
                } else {
                    Err(TreeError::FeatureIndexOutOfRange)
                }
            },
        }
    }
}

} // verus!
