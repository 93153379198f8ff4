use vstd::prelude::*;

verus! {

/// The heuristic that scores no split: candidates keep their position order.
pub struct NoHeuristic;

} // verus!
