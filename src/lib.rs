//! Nearest-neighbour selection and label voting over integer distance keys.
//!
//! Distances reach this crate as `u64` keys whose order is the order of the
//! distances they stand for (for non-negative IEEE doubles, their bit patterns).
use vstd::prelude::*;

pub mod nearest;
pub mod tally;
pub mod knn;

verus! {

} // verus!
