//! A k-dimensional spatial index: points with integer coordinates, each
//! carrying an opaque payload, supporting bounded k-nearest-neighbour and
//! radius queries under a pluggable distance metric.

use vstd::prelude::*;

mod distance;
mod select;
mod tree;
mod index;

pub use distance::Distance;
pub use distance::SquaredEuclidean;
pub use distance::sq_euclid;
pub use distance::lemma_sq_euclid_nonneg;
pub use distance::lemma_sq_euclid_bound;
pub use distance::lemma_sq_euclid_symmetric;
pub use index::KdTree;
pub use select::all_scores_ok;
pub use select::scored;
pub use select::sorted_by_score;
pub use select::sort_by_score;
pub use select::insert_by_score;
pub use select::keep_le;
pub use select::select_nearest;
pub use select::select_within;
pub use select::lemma_nearest_is_k_smallest;
pub use select::lemma_within_exact;

verus! {

/// Every failure an index operation can report.
#[derive(Clone, Copy, Debug, PartialEq, Eq, Structural)]
pub enum KdError {
    /// Construction was asked for a zero-dimensional space.
    InvalidDimensions,
    /// A point argument's length disagrees with the index's dimensionality.
    DimensionMismatch,
    /// The distance metric could not produce a representable score.
    DistanceFnError,
}

} // verus!
