//! Optimal decision trees over continuous features: the search configuration,
//! the interval pruner that discards candidate split points, the dataset model
//! and the text reader that fills it.

pub mod algorithms;
pub mod caching;
pub mod common;
pub mod data;
pub mod reader;

use vstd::prelude::*;

verus! {

/// Sum of two sizes.
pub fn add(left: usize, right: usize) -> (sum: usize)
    requires
        left + right <= usize::MAX,
    ensures
        sum == left + right,
{
    left + right
}

} // verus!
