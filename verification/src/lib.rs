//! Extended isolation forest: an ensemble of randomized binary trees that
//! isolates points with random oblique hyperplanes and turns the average
//! isolation depth of a query point into an anomaly score.
//!
//! All real quantities (coordinates, normal vectors, path lengths, scores) are
//! carried as fixed-point numbers: an `i64` or `u64` holding the value times
//! [`SCALE`]. A score of `SCALE` means 1.0; scores below `SCALE / 2` mean the
//! point looks like the training data, scores above it mean an anomaly.

use vstd::prelude::*;

mod cfactor;
mod codec;
mod error;
mod exp2;
mod forest;
mod rng;
mod tree;

pub use codec::forest_equiv;
pub use codec::lemma_forest_equiv_score;
pub use codec::lemma_node_equiv_path;
pub use codec::node_equiv;
pub use codec::spec_encode_forest;
pub use codec::spec_encode_node;
pub use codec::spec_encode_trees;

pub use cfactor::c_factor;
pub use exp2::exp2_neg;
pub use exp2::spec_exp2_neg;
pub use forest::built_from;
pub use forest::data_dim;
pub use forest::extension_exceeds;
pub use forest::insufficient_data;
pub use forest::lemma_axis_aligned;
pub use forest::spec_resolved_depth;
pub use forest::spec_score;
pub use forest::spec_sum_paths;
pub use forest::subsample_of;
pub use forest::Forest;
pub use forest::ForestOptions;
pub use tree::coords_bounded;
pub use tree::node_ext_ok;
pub use tree::node_height;
pub use tree::node_wf;
pub use tree::rows_ok;
pub use tree::shaped;
pub use tree::spec_goes_left;
pub use tree::spec_path_length;
pub use tree::tree_size;
pub use tree::views_of;
pub use tree::Direction;
pub use tree::Node;
pub use tree::Tree;
pub use cfactor::ceil_log2;
pub use cfactor::lemma_c_factor_increasing;
pub use cfactor::lemma_c_factor_nondecreasing;
pub use cfactor::lemma_c_factor_zero_for_small;
pub use cfactor::spec_c_factor;
pub use cfactor::spec_ceil_log2;
pub use cfactor::spec_harmonic;
pub use error::Error;

verus! {

/// Fixed-point scale: every real quantity is stored as its value times `SCALE`.
pub const SCALE: u64 = 65536;

/// [`SCALE`] as a signed number, for coordinate arithmetic.
pub const SCALE_I: i64 = 65536;

/// Largest magnitude a coordinate of a training or query point may have.
/// Keeps every hyperplane dot product exactly representable in 128 bits.
pub const COORD_BOUND: i64 = 1152921504606846976;

/// Largest magnitude a coordinate of a hyperplane normal vector can have:
/// six standard deviations in fixed point.
pub const NORMAL_BOUND: i64 = 393216;

/// Largest number of dimensions a forest accepts.
pub const DIM_CAP: u64 = 2147483647;

/// Largest number of rows a training set may have.
pub const ROW_CAP: u64 = 2147483647;

/// Largest tree depth limit a forest accepts.
pub const DEPTH_CAP: u64 = 4294967296;

} // verus!
