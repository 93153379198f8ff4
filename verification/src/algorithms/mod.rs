pub mod continuous_tree;
pub mod contree_lds;
pub mod interval_pruner;
pub mod coverage;
pub mod search;

pub use continuous_tree::ConTree;
pub use contree_lds::ConTreeLds;

use crate::common::{PointSelector, SearchConfig, Statistics, SEARCH_LIMIT};
use crate::data::view::DataView;
use crate::data::Dataset;
use continuous_tree::view_within;
use contree_lds::spec_discrepancy_limit;
use search::{leaf_error, solution_tree, TreeNode};
use interval_pruner::Bound;
use rand::rngs::ThreadRng;
use rand::Rng;
use vstd::prelude::*;

verus! {

#[verifier::external_type_specification]
#[verifier::external_body]
pub struct ExThreadRng(ThreadRng);

/// `rand::rng`: a handle to the thread-local random generator. Nothing is stated of it.
#[verifier::external_body]
pub(crate) fn thread_rng() -> ThreadRng {
    rand::rng()
}

/// `Rng::random_range` on `low..=high`: a value drawn from the inclusive range, which
/// must not be empty. Which value comes out is left unsaid: it depends on the generator.
#[verifier::external_body]
fn random_in(rng: &mut ThreadRng, low: usize, high: usize) -> (r: usize)
    requires
        low <= high,
    ensures
        low <= r <= high,
{
    rng.random_range(low..=high)
}

/// The point that `selector` picks in `bound`: the middle, the first, or a random one.
pub open spec fn picks_point(selector: PointSelector, bound: Bound, r: usize) -> bool {
    match selector {
        PointSelector::Mid => r == (bound.left_bound + bound.right_bound) / 2,
        PointSelector::First => r == bound.left_bound,
        PointSelector::Random => bound.left_bound <= r <= bound.right_bound,
    }
}

/// The arguments that a point selection cannot fail on.
pub open spec fn point_selectable(selector: PointSelector, bound: Bound) -> bool {
    match selector {
        PointSelector::Mid => bound.left_bound + bound.right_bound <= usize::MAX,
        PointSelector::First => true,
        PointSelector::Random => bound.left_bound <= bound.right_bound,
    }
}

pub(crate) fn pick_point(config: &SearchConfig, bound: &Bound, rng: &mut ThreadRng) -> (r: usize)
    requires
        point_selectable(config.point_selector, *bound),
    ensures
        picks_point(config.point_selector, *bound, r),
{
    match config.point_selector {
        PointSelector::Mid => (bound.left_bound + bound.right_bound) / 2,
        PointSelector::First => bound.left_bound,
        PointSelector::Random => random_in(rng, bound.left_bound, bound.right_bound),
    }
}

/// One of the two searches, chosen when it is built.
pub enum GenericConTree<const USE_CACHE: bool> {
    Normal(ConTree<USE_CACHE>),
    LDS(ConTreeLds<USE_CACHE>),
}

impl<const USE_CACHE: bool> GenericConTree<USE_CACHE> {
    pub fn new(
        min_sup: usize,
        max_depth: usize,
        max_time_ms: u64,
        max_error: usize,
        split_selection_strategy: PointSelector,
        max_gap: usize,
        use_heuristic: bool,
        fast_d2: bool,
        use_lds: bool,
    ) -> (t: Self)
        ensures
            use_lds <==> t is LDS,
            t matches GenericConTree::Normal(s) ==> s.spec_statistics() == Statistics::spec_default()
                && s.spec_time_limit() == max_time_ms,
            t matches GenericConTree::LDS(s) ==> s.spec_statistics() == Statistics::spec_default()
                && s.spec_max_discrepancy() == usize::MAX,
            t matches GenericConTree::Normal(s) ==> s.config() == SearchConfig::spec_new(
                min_sup,
                max_depth,
                max_gap,
                max_error,
                use_heuristic,
                fast_d2,
                split_selection_strategy,
            ),
            t matches GenericConTree::LDS(s) ==> s.config() == (SearchConfig {
                use_discrepancy: true,
                ..SearchConfig::spec_new(
                    min_sup,
                    max_depth,
                    max_gap,
                    max_error,
                    use_heuristic,
                    fast_d2,
                    split_selection_strategy,
                )
            }),
    {
        match use_lds {
            true => Self::LDS(
                ConTreeLds::new(
                    min_sup,
                    max_depth,
                    max_time_ms,
                    max_error,
                    split_selection_strategy,
                    max_gap,
                    use_heuristic,
                    fast_d2,
                ),
            ),
            false => Self::Normal(
                ConTree::new(
                    min_sup,
                    max_depth,
                    max_time_ms,
                    max_error,
                    split_selection_strategy,
                    max_gap,
                    use_heuristic,
                    fast_d2,
                ),
            ),
        }
    }

    /// Searches a tree for `dataset` with the chosen search.
    pub fn fit(&mut self, dataset: &Dataset)
        requires
            dataset.columns().len() > 0,
            dataset.columns()[0].points().len() <= SEARCH_LIMIT,
            match *old(self) {
                GenericConTree::Normal(s) => s.config().max_gap <= SEARCH_LIMIT,
                GenericConTree::LDS(s) => s.config().max_gap <= SEARCH_LIMIT,
            },
            forall|f: int| 0 <= f < dataset.columns().len() ==> #[trigger] dataset.columns()[f].points().len()
                == dataset.columns()[0].points().len(),
            forall|f: int, i: int|
                0 <= f < dataset.columns().len() && 0 <= i < dataset.columns()[f].points().len()
                    ==> #[trigger] dataset.columns()[f].points()[i].tid < dataset.columns()[0].points().len(),
            forall|i: int|
                0 <= i < dataset.columns()[0].points().len() ==> #[trigger] dataset.columns()[0].points()[i].label
                    < dataset.spec_num_labels(),
        ensures
            (*final(self) is Normal) == (*old(self) is Normal),
            ({
                let s = match *final(self) {
                    GenericConTree::Normal(t) => t.spec_statistics(),
                    GenericConTree::LDS(t) => t.spec_statistics(),
                };
                &&& s.num_samples == dataset.columns()[0].points().len()
                &&& s.num_features == dataset.columns().len()
                &&& s.error <= leaf_error(dataset.columns()[0].points(), dataset.spec_num_labels() as nat)
            }),
    {
        match self {
            GenericConTree::Normal(solver) => solver.fit(dataset),
            GenericConTree::LDS(solver) => solver.fit(dataset),
        }
    }

    /// One run of the search: the limited-discrepancy search runs with its next budget
    /// and tells whether the root is solved; the other search needs no further run.
    pub fn partial_fit(&mut self, dataset: &DataView) -> (solved: bool)
        requires
            view_within(dataset),
            match *old(self) {
                GenericConTree::Normal(_) => true,
                GenericConTree::LDS(s) => s.inv() && s.run_consistent() && spec_discrepancy_limit(
                    dataset.spec_num_features() as int,
                    s.config().max_depth as int,
                ) <= usize::MAX,
            },
        ensures
            (*final(self) is Normal) == (*old(self) is Normal),
            *old(self) is Normal ==> solved && *final(self) == *old(self),
            match (*old(self), *final(self)) {
                (GenericConTree::LDS(a), GenericConTree::LDS(b)) => {
                    &&& b.inv() && b.run_consistent()
                    &&& b.cache_entries().len() >= 1
                    &&& solved == (b.cache_entries()[0].is_optimal || b.config().budget
                        > b.spec_max_discrepancy())
                    &&& a.config().nb_runs == 0 ==> b.spec_statistics().error <= leaf_error(
                        dataset.points(),
                        dataset.spec_num_labels() as nat,
                    )
                    &&& USE_CACHE && a.config().nb_runs >= 1 ==> b.spec_statistics().error
                        <= a.spec_statistics().error
                },
                _ => true,
            },
    {
        match self {
            GenericConTree::Normal(_) => true,
            GenericConTree::LDS(solver) => solver.partial_fit(dataset),
        }
    }

    /// The solution tree: the one that the limited-discrepancy search's cache holds, or
    /// none for the other search (whose tree its own `tree` gives).
    pub fn tree(&mut self) -> (t: Vec<TreeNode>)
        ensures
            *final(self) == *old(self),
            *old(self) is Normal ==> t@.len() == 0,
            match *old(self) {
                GenericConTree::LDS(s) => solution_tree(t@, s.cache_entries()),
                GenericConTree::Normal(_) => true,
            },
    {
        match self {
            GenericConTree::Normal(_) => Vec::new(),
            GenericConTree::LDS(solver) => solver.get_solution_tree(),
        }
    }

    /// The counters of the search.
    pub fn stats(&self) -> (s: Statistics)
        ensures
            s == (match self {
                GenericConTree::Normal(solver) => solver.spec_statistics(),
                GenericConTree::LDS(solver) => solver.spec_statistics(),
            }),
    {
        match self {
            GenericConTree::Normal(solver) => solver.statistics(),
            GenericConTree::LDS(solver) => *solver.statistics(),
        }
    }
}

} // verus!
