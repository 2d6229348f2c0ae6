//! Building blocks for histogram-based gradient-boosted decision tree
//! training: a per-feature histogram that discretizes a feature column into
//! bins and accumulates per-bin gradient/hessian sums, and an immutable
//! binary decision tree that routes a feature vector to a leaf value.
//!
//! Feature values and split thresholds are carried as `u64` keys whose
//! integer order is the order of the underlying measurements; a caller that
//! works with floating-point features maps each value to an order-preserving
//! key before calling in, and maps leaf values and boundaries back out.
//! Gradient and hessian statistics are carried as `i64` values (for example
//! a fixed-point encoding chosen by the caller) so that per-bin sums are
//! exact.

pub mod histogram;
pub mod tree;
