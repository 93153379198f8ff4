use super::continuous_tree::{
    all_supported, feature_covered, feature_result, lemma_covered_at_zero, lemma_feature_covered_monotone,
    lemma_trace_exists, lemma_state_done, lemma_state_drop,
    lemma_state_facts, lemma_state_init, lemma_state_single, lemma_state_split, search_state, split_leaf_error,
    split_pushes, supported_split, trace_of, view_within, SplitOutcome,
};
use super::coverage::{
    in_bound, lemma_bracketed, lemma_clamped_out, lemma_discardable_is_rule, pruned_by_rule, trace_of_pruner,
    SplitTrace,
};
use super::interval_pruner::{is_sorted, Bound, IntervalsPruner};
use super::search::{
    bound_size, child_entry, describes, errors_within, leaf, leaf_error, lemma_pending_pop,
    lemma_pending_push, mark_pruned, mirrors, now, pending, root_unindexed, solution_from, solution_tree, within_time, TreeNode,
};
use super::{picks_point, pick_point, point_selectable, thread_rng};
use crate::caching::{Cache, Entry};
use crate::common::{lemma_max_count_bounds, PointSelector, SearchConfig, Statistics, SEARCH_LIMIT};
use crate::data::view::{is_split_position, label_counts, DataView};
use crate::data::Dataset;
use rand::rngs::ThreadRng;
use std::collections::VecDeque;
use std::time::Instant;
use vstd::prelude::*;

verus! {

/// The limited-discrepancy tree search: its configuration (with the run count and the
/// discrepancy budget), its counters, its cache of searched nodes, its clock and time
/// limit, its random generator for split selection and its largest discrepancy.
pub struct ConTreeLds<const USE_CACHE: bool> {
    config: SearchConfig,
    statistics: Statistics,
    cache: Cache,
    runtime: Instant,
    time_limit_ms: u64,
    rng: ThreadRng,
    max_discrepancy: usize,
}

/// Largest discrepancy worth exploring with `nb_candidates` features and
/// `remaining_depth` levels: `nb_candidates` at the first level, then one candidate
/// less at each further level (never below zero).
pub open spec fn spec_discrepancy_limit(nb_candidates: int, remaining_depth: int) -> int
    decreases remaining_depth,
{
    if remaining_depth <= 1 {
        nb_candidates
    } else {
        spec_discrepancy_limit(nb_candidates, remaining_depth - 1) + (if nb_candidates >= remaining_depth - 1 {
            nb_candidates - (remaining_depth - 1)
        } else {
            0
        })
    }
}

proof fn lemma_discrepancy_limit_grows(n: int, d: int)
    requires
        n >= 0,
    ensures
        spec_discrepancy_limit(n, d) >= n,
        forall|e: int| e <= d ==> spec_discrepancy_limit(n, e) <= spec_discrepancy_limit(n, d),
    decreases d,
{
    if d > 1 {
        lemma_discrepancy_limit_grows(n, d - 1);
    }
}

impl<const USE_CACHE: bool> ConTreeLds<USE_CACHE> {
    /// The configuration of the search.
    pub closed spec fn config(&self) -> SearchConfig {
        self.config
    }

    /// The counters of the search.
    pub closed spec fn spec_statistics(&self) -> Statistics {
        self.statistics
    }

    /// The largest discrepancy explored.
    pub closed spec fn spec_max_discrepancy(&self) -> usize {
        self.max_discrepancy
    }

    /// The time limit in milliseconds.
    pub closed spec fn spec_time_limit(&self) -> u64 {
        self.time_limit_ms
    }

    /// The entries of the cache of searched nodes.
    pub closed spec fn cache_entries(&self) -> Seq<Entry> {
        self.cache.entries()
    }

    /// Cache position of the root.
    pub closed spec fn root_position(&self) -> nat {
        self.cache.spec_root_index()
    }

    /// `self` searches with the same configuration, cache shape and dataset size as `other`.
    pub closed spec fn same_setup(&self, other: Self) -> bool {
        &&& self.config == other.config
        &&& self.max_discrepancy == other.max_discrepancy
        &&& self.cache.spec_depth() == other.cache.spec_depth()
        &&& self.cache.spec_num_samples() == other.cache.spec_num_samples()
        &&& self.statistics.num_samples == other.statistics.num_samples
        &&& self.statistics.num_features == other.statistics.num_features
        &&& self.cache.spec_root_index() == other.cache.spec_root_index()
        &&& self.cache.entries().len() >= other.cache.entries().len()
    }

    /// The cache is well formed and, when used, holds bounded errors; the gap is bounded.
    pub closed spec fn inv(&self) -> bool {
        &&& self.cache.wf()
        &&& USE_CACHE ==> errors_within(self.cache.entries(), SEARCH_LIMIT as int)
        &&& USE_CACHE ==> root_unindexed(self.cache)
        &&& self.config.max_gap <= SEARCH_LIMIT
    }

    /// After a run the cache has its root at position zero and, when it is used, the
    /// reported error is that of the root entry.
    pub closed spec fn run_consistent(&self) -> bool {
        self.config.nb_runs >= 1 ==> {
            &&& self.cache.entries().len() >= 1
            &&& self.cache.spec_root_index() == 0
            &&& USE_CACHE ==> self.statistics.error == self.cache.entries()[0].error
        }
    }

    /// `self` keeps the cache's root entry of `other` (at position zero).
    pub closed spec fn keeps_root(&self, other: Self) -> bool {
        self.cache.entries()[0] == other.cache.entries()[0]
    }

    /// The cache's root entry (at position zero) reports the same error as `e`.
    pub closed spec fn root_error_is(&self, e: Entry) -> bool {
        self.cache.entries()[0].error == e.error
    }

    pub fn new(
        min_sup: usize,
        max_depth: usize,
        max_time_ms: u64,
        max_error: usize,
        split_selection_strategy: PointSelector,
        max_gap: usize,
        use_heuristic: bool,
        fast_d2: bool,
    ) -> (t: Self)
        ensures
            t.config() == (SearchConfig {
                use_discrepancy: true,
                ..SearchConfig::spec_new(
                    min_sup,
                    max_depth,
                    max_gap,
                    max_error,
                    use_heuristic,
                    fast_d2,
                    split_selection_strategy,
                )
            }),
            t.spec_statistics() == Statistics::spec_default(),
            t.spec_max_discrepancy() == usize::MAX,
            t.spec_time_limit() == max_time_ms,
            t.cache_entries() == Seq::<Entry>::empty(),
            max_gap <= SEARCH_LIMIT ==> t.inv(),
            t.run_consistent(),
    {
        let mut config = SearchConfig::new(
            min_sup,
            max_depth,
            max_gap,
            max_error,
            use_heuristic,
            fast_d2,
            split_selection_strategy,
        );
        config.use_discrepancy = true;
        Self {
            cache: Cache::default(),
            config,
            statistics: Statistics::default(),
            runtime: now(),
            time_limit_ms: max_time_ms,
            rng: thread_rng(),
            max_discrepancy: usize::MAX,
        }
    }

    /// Whether the time limit has not been reached yet.
    fn time_remains(&self) -> bool {
        within_time(&self.runtime, self.time_limit_ms)
    }

    /// Searches a tree for `dataset` within the configured discrepancy budget; the
    /// error found is never worse than that of the single leaf.
    pub fn fit(&mut self, dataset: &Dataset)
        requires
            dataset.columns().len() > 0,
            dataset.columns()[0].points().len() <= SEARCH_LIMIT,
            old(self).config().max_gap <= SEARCH_LIMIT,
            forall|f: int| 0 <= f < dataset.columns().len() ==> #[trigger] dataset.columns()[f].points().len()
                == dataset.columns()[0].points().len(),
            forall|f: int, i: int|
                0 <= f < dataset.columns().len() && 0 <= i < dataset.columns()[f].points().len()
                    ==> #[trigger] dataset.columns()[f].points()[i].tid < dataset.columns()[0].points().len(),
            forall|i: int|
                0 <= i < dataset.columns()[0].points().len() ==> #[trigger] dataset.columns()[0].points()[i].label
                    < dataset.spec_num_labels(),
        ensures
            final(self).spec_statistics().num_samples == dataset.columns()[0].points().len(),
            final(self).spec_statistics().num_features == dataset.columns().len(),
            final(self).spec_statistics().error <= leaf_error(
                dataset.columns()[0].points(),
                dataset.spec_num_labels() as nat,
            ),
            final(self).spec_statistics().cache_size == final(self).cache_entries().len(),
            final(self).config().max_depth == old(self).config().max_depth,
            final(self).config().min_sup == old(self).config().min_sup,
            final(self).config().max_gap == old(self).config().max_gap,
            final(self).config().budget == old(self).config().budget,
            final(self).config().nb_runs == old(self).config().nb_runs,
            final(self).inv(),
            final(self).run_consistent(),
    {
        let root_view = DataView::root(dataset);
        let total = root_view.len();
        if USE_CACHE {
            self.cache = Cache::new(self.config.max_depth, total);
        } else {
            self.cache = Cache::default();
        }
        let root_index = self.cache.init();
        assert(self.cache.spec_root_index() == 0 && self.cache.entries().len() == 1);
        self.statistics.num_features = root_view.num_features();
        self.statistics.num_samples = total;
        let (error, label) = leaf(&root_view);
        let mut entry = Entry::default();
        entry.error = error;
        entry.label = label;
        if USE_CACHE {
            match self.cache.get_mut(root_index) {
                Some(e) => {
                    if error < self.config.max_error {
                        self.config.max_error = error;
                    }
                    e.error = error;
                    e.label = label;
                },
                None => {},
            }
        }
        let root_config = self.config;
        self.runtime = now();
        proof {
            assert forall|g: int| 0 <= g < root_view.spec_num_features() implies #[trigger] root_view.column(g).len()
                <= SEARCH_LIMIT by {
                assert(root_view.column(g) == dataset.columns()[g].points());
            }
        }
        let _stopped = self.expand_node_with_view(&root_view, &root_config, &mut entry, 0, true, root_config.max_error);
        self.statistics.error = entry.error;
        self.statistics.cache_size = self.cache.len();
    }

    /// One run of the search with the current discrepancy budget, from the cache's root
    /// entry; the first run sets the search up for `root_view`. A run after the first
    /// widens the budget by one; once the budget passes the largest discrepancy, the
    /// root counts as solved. Returns whether the root is solved.
    pub fn partial_fit(&mut self, root_view: &DataView) -> (solved: bool)
        requires
            old(self).inv(),
            old(self).run_consistent(),
            view_within(root_view),
            spec_discrepancy_limit(root_view.spec_num_features() as int, old(self).config().max_depth as int)
                <= usize::MAX,
        ensures
            final(self).inv(),
            final(self).run_consistent(),
            final(self).config().nb_runs == (if old(self).config().nb_runs < usize::MAX {
                old(self).config().nb_runs + 1
            } else {
                usize::MAX as int
            }),
            final(self).config().max_depth == old(self).config().max_depth,
            final(self).config().max_gap == old(self).config().max_gap,
            final(self).spec_statistics().cache_size == final(self).cache_entries().len(),
            final(self).cache_entries().len() >= 1,
            final(self).root_position() == 0,
            solved == (final(self).cache_entries()[0].is_optimal || final(self).config().budget
                > final(self).spec_max_discrepancy()),
            old(self).config().nb_runs == 0 ==> final(self).spec_statistics().error <= leaf_error(
                root_view.points(),
                root_view.spec_num_labels() as nat,
            ),
            USE_CACHE && old(self).config().nb_runs >= 1 ==> final(self).spec_statistics().error
                <= old(self).spec_statistics().error,
    {
        self.config.nb_runs = self.config.nb_runs.saturating_add(1);
        let root_index: usize = 0;
        if self.config.nb_runs <= 1 {
            let total = root_view.len();
            if USE_CACHE {
                self.cache = Cache::new(self.config.max_depth, total);
            } else {
                self.cache = Cache::default();
            }
            let limit = Self::discrepancy_limit(root_view.num_features(), self.config.max_depth);
            if limit < self.max_discrepancy {
                self.max_discrepancy = limit;
            }
            let _ = self.cache.init();
            self.statistics.num_features = root_view.num_features();
            self.statistics.num_samples = total;
            let (error, label) = leaf(root_view);
            if USE_CACHE {
                match self.cache.get_mut(root_index) {
                    Some(e) => {
                        if error < self.config.max_error {
                            self.config.max_error = error;
                        }
                        e.error = error;
                        e.label = label;
                        e.ub = self.config.max_error;
                    },
                    None => {},
                }
                proof {
                    assert(errors_within(self.cache.entries(), SEARCH_LIMIT as int));
                }
            }
            self.statistics.error = error;
            self.runtime = now();
        }
        let mut entry = match self.cache.get(root_index) {
            Some(e) => *e,
            None => Entry::default(),
        };
        if entry.is_optimal {
            self.statistics.cache_size = self.cache.len();
            return true;
        }
        if entry.error > SEARCH_LIMIT {
            let (error, label) = leaf(root_view);
            entry.error = error;
            entry.label = label;
        }
        let mut config = self.config;
        config.discrepancy = 0;
        let error = entry.error;
        let _stopped = self.expand_node_with_view(root_view, &config, &mut entry, 0, true, error);
        if self.config.nb_runs > 1 {
            self.config.budget = self.config.budget.saturating_add(1);
        }
        if self.config.budget > self.max_discrepancy {
            entry.is_optimal = true;
        }
        self.statistics.error = entry.error;
        self.statistics.cache_size = self.cache.len();
        let root_optimal = match self.cache.get(root_index) {
            Some(e) => e.is_optimal,
            None => false,
        };
        root_optimal || self.config.budget > self.max_discrepancy
    }

    /// The tree that the cache holds from its root.
    pub fn get_solution_tree(&self) -> (nodes: Vec<TreeNode>)
        ensures
            solution_tree(nodes@, self.cache_entries()),
            self.root_position() < self.cache_entries().len() ==> nodes@.len() >= 1 && describes(
                nodes@[0],
                self.cache_entries()[self.root_position() as int],
            ),
            mirrors(nodes@, self.cache_entries(), self.root_position() as int, self.config().max_depth as int),
    {
        solution_from(&self.cache, self.config.max_depth)
    }

    /// Updates the flags and bound of cache entry `index`, if there is one, and
    /// returns it.
    fn touch(&mut self, index: usize, leaf: bool, optimal: Option<bool>, ub: usize, age: Option<usize>) -> (r: Option<Entry>)
        requires
            old(self).inv(),
        ensures
            final(self).inv(),
            final(self).same_setup(*old(self)),
            r matches Some(e) ==> index < old(self).cache.entries().len() && e.error
                == old(self).cache.entries()[index as int].error && (leaf ==> e.is_leaf) && (
                optimal matches Some(o) ==> e.is_optimal == o),
            r matches Some(e) ==> final(self).cache.entries() == old(self).cache.entries().update(index as int, e),
            index < old(self).cache.entries().len() ==> r is Some,
            r is None ==> final(self).cache.entries() == old(self).cache.entries(),
            old(self).cache.entries().len() >= 1 ==> final(self).cache.entries()[0].error
                == old(self).cache.entries()[0].error,
            old(self).cache.entries().len() >= 1 && index != 0 ==> final(self).keeps_root(*old(self)),
    {
        let ghost before = self.cache.entries();
        let r = match self.cache.get_mut(index) {
            Some(e) => {
                if leaf {
                    e.is_leaf = true;
                }
                match optimal {
                    Some(o) => {
                        e.is_optimal = o;
                    },
                    None => {},
                }
                e.ub = ub;
                match age {
                    Some(a) => {
                        e.age = a;
                    },
                    None => {},
                }
                Some(*e)
            },
            None => None,
        };
        proof {
            if USE_CACHE {
                assert forall|i: int| 0 <= i < self.cache.entries().len() implies #[trigger] self.cache.entries()[i].error
                    <= SEARCH_LIMIT by {
                    assert(self.cache.entries()[i].error == before[i].error);
                }
            }
        }
        r
    }

    /// Replaces cache entry `index` with `entry`, if there is one.
    fn store(&mut self, index: usize, entry: Entry)
        requires
            old(self).inv(),
            entry.error <= SEARCH_LIMIT,
        ensures
            final(self).inv(),
            final(self).same_setup(*old(self)),
            old(self).cache.entries().len() >= 1 && index != 0 ==> final(self).keeps_root(*old(self)),
            old(self).cache.entries().len() >= 1 && index == 0 ==> final(self).root_error_is(entry),
    {
        let ghost before = self.cache.entries();
        let _ = self.cache.set(index, entry);
        proof {
            if USE_CACHE {
                assert forall|i: int| 0 <= i < self.cache.entries().len() implies #[trigger] self.cache.entries()[i].error
                    <= SEARCH_LIMIT by {
                    if i != index {
                        assert(self.cache.entries()[i] == before[i]);
                    }
                }
            }
        }
    }

    /// Searches the node with samples `view` under `config`, improving `current_best`,
    /// the node's entry, whose cache position is `parent_index`. Features are explored
    /// while the discrepancy stays within the budget. Returns whether the search of the
    /// node was cut short (by the budget or the time limit).
    fn expand_node_with_view(
        &mut self,
        view: &DataView,
        config: &SearchConfig,
        current_best: &mut Entry,
        parent_index: usize,
        is_new: bool,
        upper_bound: usize,
    ) -> (stopped: bool)
        requires
            old(self).inv(),
            old(self).cache.entries().len() >= 1,
            view_within(view),
            config.max_gap <= SEARCH_LIMIT,
            config.min_sup == old(self).config.min_sup,
            config.max_depth <= old(self).config.max_depth,
            old(current_best).error <= SEARCH_LIMIT,
        ensures
            final(self).inv(),
            final(self).same_setup(*old(self)),
            (!USE_CACHE || parent_index != 0) ==> final(self).keeps_root(*old(self)),
            USE_CACHE && parent_index == 0 && old(self).root_error_is(*old(current_best)) ==> final(self).root_error_is(
                *final(current_best),
            ),
            final(current_best).error <= SEARCH_LIMIT,
            final(current_best).error <= old(current_best).error || (USE_CACHE && parent_index
                < old(self).cache.entries().len() && final(current_best).error
                == old(self).cache.entries()[parent_index as int].error),
            !USE_CACHE && config.max_depth == 0 ==> *final(current_best) == (Entry {
                is_leaf: true,
                is_optimal: true,
                ..*old(current_best)
            }),
            config.max_depth == 0 && (USE_CACHE ==> old(current_best).error != 0
                && view.points().len() != 0 && !(!is_new && (!config.use_discrepancy || old(current_best).age == old(self).config.nb_runs || old(current_best).is_optimal))) ==> final(current_best).is_leaf
                && final(current_best).is_optimal,
            USE_CACHE && old(current_best).error != 0 && view.points().len() != 0 && (!is_new && (!config.use_discrepancy || old(current_best).age == old(self).config.nb_runs || old(current_best).is_optimal))
                ==> *final(current_best) == *old(current_best),
            config.max_depth >= 1 && old(current_best).error > config.max_gap && view.points().len() > 1
                && (USE_CACHE ==> old(current_best).error != 0 && view.points().len() != 0 && !(!is_new && (!config.use_discrepancy || old(current_best).age == old(self).config.nb_runs || old(current_best).is_optimal)))
                && view.spec_num_features() > 0 && config.discrepancy + view.spec_num_features() <= usize::MAX
                && config.discrepancy + view.spec_num_features() > config.budget + 1 ==> stopped
                || final(current_best).error == 0,
            config.max_depth >= 1 && (old(current_best).error <= config.max_gap
                || view.points().len() <= 1) && (USE_CACHE ==> old(current_best).error != 0
                && view.points().len() != 0 && !(!is_new && (!config.use_discrepancy || old(current_best).age == old(self).config.nb_runs || old(current_best).is_optimal))) ==> *final(current_best) == *old(current_best),
            !stopped && USE_CACHE && config.max_depth >= 1 && old(current_best).error > config.max_gap
                && view.points().len() > 1 && !(!is_new && (!config.use_discrepancy || old(current_best).age
                == old(self).config.nb_runs || old(current_best).is_optimal)) && config.point_selector
                != PointSelector::First && old(self).config.nb_runs > 1 && parent_index < final(self).cache.entries().len()
                && final(self).cache.entries()[parent_index as int].is_optimal ==> forall|g: int|
                #![trigger all_supported(view, g, config.min_sup)]
                0 <= g < view.spec_num_features() && all_supported(view, g, config.min_sup) ==> feature_covered(
                    view,
                    g,
                    config.max_gap as nat,
                    final(current_best).error as int,
                    upper_bound as int,
                    !USE_CACHE,
                ),
        decreases config.max_depth, 4nat,
    {
        let n = view.len();
        if USE_CACHE && (current_best.error == 0 || n == 0) {
            match self.touch(parent_index, true, Some(true), upper_bound, None) {
                Some(e) => {
                    *current_best = e;
                },
                None => {},
            }
            return false;
        }
        if USE_CACHE && !is_new {
            if config.use_discrepancy {
                if current_best.age == self.config.nb_runs || current_best.is_optimal {
                    self.statistics.cache_hits = self.statistics.cache_hits.saturating_add(1);
                    return false;
                }
            } else {
                self.statistics.cache_hits = self.statistics.cache_hits.saturating_add(1);
                return false;
            }
        }
        if config.max_depth == 0 {
            current_best.is_optimal = true;
            current_best.is_leaf = true;
            if USE_CACHE {
                let runs = self.config.nb_runs;
                match self.touch(parent_index, true, Some(true), upper_bound, Some(runs)) {
                    Some(e) => {
                        *current_best = e;
                    },
                    None => {},
                }
            }
            return false;
        }
        if current_best.error <= config.max_gap || n <= 1 {
            return false;
        }
        let num_features = view.num_features();
        let ghost start = *current_best;
        let mut stopped = false;
        let mut it: usize = 0;
        while it < num_features
            invariant
                self.inv(),
                view_within(view),
                num_features == view.spec_num_features(),
                config.max_gap <= SEARCH_LIMIT,
                config.min_sup == self.config.min_sup,
                1 <= config.max_depth <= self.config.max_depth,
                self.same_setup(*old(self)),
                (!USE_CACHE || parent_index != 0) ==> self.keeps_root(*old(self)),
                self.cache.entries().len() >= 1,
                USE_CACHE && parent_index == 0 && old(self).root_error_is(*old(current_best)) ==> self.root_error_is(*current_best),
                current_best.error <= start.error,
                start.error == old(current_best).error,
                start.error <= SEARCH_LIMIT,
                old(current_best).error > config.max_gap,
                view.points().len() > 1,
                !(USE_CACHE && old(current_best).error != 0 && view.points().len() != 0 && (!is_new && (!config.use_discrepancy || old(current_best).age == old(self).config.nb_runs || old(current_best).is_optimal))),
                it == 0 || config.discrepancy + it <= config.budget + 1 || config.budget == usize::MAX,
                it <= num_features,
                self.config.nb_runs == old(self).config.nb_runs,
                !stopped && config.point_selector != PointSelector::First && self.config.nb_runs > 1 ==> forall|g: int|
                    #![trigger all_supported(view, g, config.min_sup)]
                    0 <= g < it && all_supported(view, g, config.min_sup) ==> feature_covered(
                        view,
                        g,
                        config.max_gap as nat,
                        current_best.error as int,
                        upper_bound as int,
                        !USE_CACHE,
                    ),
            decreases num_features - it,
        {
            let feat_discrepancy = config.discrepancy.saturating_add(it);
            if feat_discrepancy > config.budget {
                return true;
            }
            let mut node_config = *config;
            node_config.discrepancy = feat_discrepancy;
            let bound = if upper_bound < current_best.error {
                upper_bound
            } else {
                current_best.error
            };
            let ghost best_before = current_best.error as int;
            let feature_stopped = self.expand_on_feature(view, it, parent_index, &node_config, current_best, bound);
            stopped = stopped || feature_stopped;
            if current_best.error == 0 {
                if USE_CACHE {
                    let _ = self.touch(parent_index, false, Some(true), upper_bound, None);
                }
                proof {
                    assert forall|g: int| #![trigger all_supported(view, g, config.min_sup)]
                        0 <= g < view.spec_num_features() && all_supported(view, g, config.min_sup) implies feature_covered(
                        view,
                        g,
                        config.max_gap as nat,
                        0,
                        upper_bound as int,
                        !USE_CACHE,
                    ) by {
                        lemma_trace_exists(view, g, config.max_gap as nat);
                        let tr = choose|tr: SplitTrace| #[trigger] trace_of(view, g, tr) && tr.4 == config.max_gap;
                        lemma_covered_at_zero(view, g, tr, upper_bound as int, !USE_CACHE);
                    }
                }
                return false;
            }
            proof {
                if !stopped && config.point_selector != PointSelector::First && self.config.nb_runs > 1 {
                    assert forall|g: int| #![trigger all_supported(view, g, config.min_sup)]
                        0 <= g < it + 1 && all_supported(view, g, config.min_sup) implies feature_covered(
                        view,
                        g,
                        config.max_gap as nat,
                        current_best.error as int,
                        upper_bound as int,
                        !USE_CACHE,
                    ) by {
                        if g < it {
                            lemma_feature_covered_monotone(
                                view,
                                g,
                                config.max_gap as nat,
                                best_before,
                                current_best.error as int,
                                upper_bound as int,
                                upper_bound as int,
                                !USE_CACHE,
                            );
                        } else {
                            lemma_feature_covered_monotone(
                                view,
                                g,
                                config.max_gap as nat,
                                current_best.error as int,
                                current_best.error as int,
                                bound as int,
                                upper_bound as int,
                                !USE_CACHE,
                            );
                        }
                    }
                }
            }
            if !self.time_remains() {
                return true;
            }
            it += 1;
        }
        if USE_CACHE {
            let touched = self.touch(parent_index, false, Some(!stopped), upper_bound, None);
            proof {
                if parent_index < self.cache.entries().len() {
                    assert(touched is Some);
                    assert(self.cache.entries()[parent_index as int].is_optimal == !stopped);
                }
            }
        }
        false
    }

    /// Searches the two sides of a split, the left first with the first child's
    /// configuration and the node's bound, then, when the bound left over allows it,
    /// the right with the second child's configuration. Also returns whether a side's
    /// search was cut short.
    fn evaluate_split(
        &mut self,
        left_view: &DataView,
        right_view: &DataView,
        config: &SearchConfig,
        best_error: usize,
        upper_bound: usize,
        int_half_distance: usize,
    ) -> (r: (SplitOutcome, bool))
        requires
            old(self).inv(),
            old(self).cache.entries().len() >= 1,
            view_within(left_view),
            view_within(right_view),
            config.max_gap <= SEARCH_LIMIT,
            config.min_sup == old(self).config.min_sup,
            1 <= config.max_depth <= old(self).config.max_depth,
        ensures
            final(self).inv(),
            final(self).same_setup(*old(self)),
            final(self).keeps_root(*old(self)),
            r.0.left.error <= SEARCH_LIMIT,
            r.0.explored ==> r.0.right.error <= SEARCH_LIMIT,
            !r.0.explored ==> r.0.right.error == usize::MAX,
            !r.0.explored ==> (if best_error <= upper_bound {
                best_error
            } else {
                upper_bound
            }) <= r.0.left.error,
            !USE_CACHE ==> r.0.left.error <= leaf_error(left_view.points(), left_view.spec_num_labels() as nat),
            !USE_CACHE && r.0.explored ==> r.0.left.error <= leaf_error(
                left_view.points(),
                left_view.spec_num_labels() as nat,
            ) && r.0.right.error <= leaf_error(right_view.points(), right_view.spec_num_labels() as nat),
        decreases config.max_depth, 0nat,
    {
        let left_config = config.derive_left();
        let left_upper_bound = if best_error < upper_bound {
            best_error
        } else {
            upper_bound
        };
        self.statistics.general_solver_call = self.statistics.general_solver_call.saturating_add(1);
        let (mut left_entry, left_index, left_new) = child_entry(
            USE_CACHE,
            &mut self.cache,
            left_view,
            left_config.max_depth,
            self.config.max_depth - left_config.max_depth,
        );
        let mut stopped = self.expand_node_with_view(
            left_view,
            &left_config,
            &mut left_entry,
            left_index,
            left_new,
            left_upper_bound,
        );
        let left_over = if left_upper_bound >= left_entry.error {
            left_upper_bound - left_entry.error
        } else {
            0
        };
        let right_upper_bound = if left_over >= int_half_distance {
            left_over
        } else {
            int_half_distance
        };
        if right_upper_bound > 0 || best_error == left_entry.error {
            self.statistics.general_solver_call = self.statistics.general_solver_call.saturating_add(1);
            let right_config = config.derive_right(left_config.max_gap);
            let (mut right_entry, right_index, right_new) = child_entry(
                USE_CACHE,
                &mut self.cache,
                right_view,
                left_config.max_depth,
                self.config.max_depth - right_config.max_depth,
            );
            let right_stopped = self.expand_node_with_view(
                right_view,
                &right_config,
                &mut right_entry,
                right_index,
                right_new,
                right_upper_bound,
            );
            stopped = stopped || right_stopped;
            (
                SplitOutcome {
                    left: left_entry,
                    left_index,
                    right: right_entry,
                    right_index,
                    explored: true,
                },
                stopped,
            )
        } else {
            (
                SplitOutcome {
                    left: left_entry,
                    left_index,
                    right: Entry::default(),
                    right_index: 0,
                    explored: false,
                },
                stopped,
            )
        }
    }

    /// Searches the splits of feature `feature_index`: in position order on the first
    /// run or with the first-point selector, otherwise by the configured selector over
    /// intervals pruned with the results. Returns whether the search was cut short.
    #[verifier::rlimit(100)]
    #[verifier::spinoff_prover]
    fn expand_on_feature(
        &mut self,
        view: &DataView,
        feature_index: usize,
        cache_index: usize,
        config: &SearchConfig,
        current_best: &mut Entry,
        upper_bound: usize,
    ) -> (stopped: bool)
        requires
            old(self).inv(),
            old(self).cache.entries().len() >= 1,
            view_within(view),
            feature_index < view.spec_num_features(),
            config.max_gap <= SEARCH_LIMIT,
            config.min_sup == old(self).config.min_sup,
            1 <= config.max_depth <= old(self).config.max_depth,
            old(current_best).error <= SEARCH_LIMIT,
        ensures
            final(self).inv(),
            final(self).same_setup(*old(self)),
            (!USE_CACHE || cache_index != 0) ==> final(self).keeps_root(*old(self)),
            USE_CACHE && cache_index == 0 && old(self).root_error_is(*old(current_best)) ==> final(self).root_error_is(
                *final(current_best),
            ),
            feature_result(
                view,
                feature_index as int,
                config.min_sup,
                *old(current_best),
                *final(current_best),
                !USE_CACHE,
            ),
            !stopped && config.point_selector != PointSelector::First && old(self).config.nb_runs > 1
                && all_supported(view, feature_index as int, config.min_sup) ==> feature_covered(
                view,
                feature_index as int,
                config.max_gap as nat,
                final(current_best).error as int,
                upper_bound as int,
                !USE_CACHE,
            ),
        decreases config.max_depth, 3nat,
    {
        if config.point_selector == PointSelector::First || self.config.nb_runs <= 1 {
            let splits = view.possible_splits(feature_index);
            let mut order: Vec<usize> = Vec::new();
            let mut k: usize = 0;
            while k < splits.len()
                invariant
                    k <= splits@.len(),
                decreases splits@.len() - k,
            {
                order.push(k);
                k += 1;
            }
            return self.expand_on_feature_gini_priority(
                view,
                feature_index,
                cache_index,
                config,
                current_best,
                upper_bound,
                &order,
            );
        }
        let mut stopped = false;
        let splits = view.possible_splits(feature_index);
        let ns = splits.len();
        let ghost f = feature_index as int;
        let ghost uc = !USE_CACHE;
        let ghost ub = upper_bound as int;
        let ghost tr0: SplitTrace = (splits@, Map::empty(), None, None, config.max_gap as nat, Map::empty());
        proof {
            assert forall|i: int| is_split_position(view.column(f), i) implies exists|j: int|
                0 <= j < tr0.0.len() && #[trigger] tr0.0[j] == i by {
                let j = choose|j: int| 0 <= j < splits@.len() && #[trigger] splits@[j] == i;
                assert(tr0.0[j] == i);
            }
            assert(trace_of(view, f, tr0));
        }
        if ns == 0 {
            return false;
        }
        let ghost col = view.column(feature_index as int);
        let ghost start = *current_best;
        assert(ns <= SEARCH_LIMIT);
        proof {
            assert(is_sorted(splits@)) by {
                assert forall|i: int, j: int| 0 <= i <= j < splits@.len() implies splits@[i] <= splits@[j] by {
                    if i < j {
                        assert(splits@[i] < splits@[j]);
                    }
                }
            }
            assert forall|i: int| 0 <= i < splits@.len() implies splits@[i] <= SEARCH_LIMIT by {
                assert(is_split_position(col, splits@[i] as int));
            }
        }
        let mut pruner = IntervalsPruner::new(splits.as_slice(), config.max_gap);
        let ghost mut found: Map<usize, int> = Map::empty();
        let mut queue: VecDeque<Bound> = VecDeque::new();
        queue.push_back(Bound::new(0, ns - 1, None, None));
        proof {
            assert(trace_of_pruner(pruner, found).0 == tr0.0);
            lemma_state_init(view, f, config.min_sup, uc, ub, current_best.error as int, pruner, queue@);
        }
        while queue.len() > 0
            invariant
                self.inv(),
                view_within(view),
                feature_index < view.spec_num_features(),
                f == feature_index,
                uc == !USE_CACHE,
                ub == upper_bound,
                col == view.column(feature_index as int),
                config.max_gap <= SEARCH_LIMIT,
                config.min_sup == self.config.min_sup,
                1 <= config.max_depth <= self.config.max_depth,
                self.same_setup(*old(self)),
                (!USE_CACHE || cache_index != 0) ==> self.keeps_root(*old(self)),
                self.cache.entries().len() >= 1,
                USE_CACHE && cache_index == 0 && old(self).root_error_is(*old(current_best)) ==> self.root_error_is(*current_best),
                start == *old(current_best),
                start.error <= SEARCH_LIMIT,
                feature_result(view, feature_index as int, config.min_sup, start, *current_best, !USE_CACHE),
                !USE_CACHE ==> current_best.error <= SEARCH_LIMIT,
                ns == splits@.len(),
                0 < ns <= SEARCH_LIMIT,
                pruner.splits() == splits@,
                pruner.gap() == config.max_gap,
                is_sorted(splits@),
                forall|i: int| 0 <= i < splits@.len() ==> splits@[i] <= SEARCH_LIMIT,
                forall|j: int| 0 <= j < splits@.len() ==> is_split_position(col, #[trigger] splits@[j] as int),
                pruner.scores_within(SEARCH_LIMIT as int),
                forall|i: int| 0 <= i < queue@.len() ==> (#[trigger] queue@[i]).left_bound
                    <= queue@[i].right_bound && queue@[i].right_bound < ns,
                search_state(view, f, config.min_sup, uc, ub, current_best.error as int, pruner, found, queue@),
            decreases pending(queue@),
        {
            proof {
                lemma_pending_pop(queue@, 0);
                assert(queue@.skip(0) =~= queue@);
            }
            let ghost before_pop = pending(queue@);
            let ghost before_queue = queue@;
            let ghost tr_before = trace_of_pruner(pruner, found);
            let ghost best_before = current_best.error as int;
            if !self.time_remains() {
                return true;
            }
            let mut current_bound = match queue.pop_front() {
                Some(b) => b,
                None => {
                    return true;
                },
            };
            let ghost popped = current_bound;
            assert(queue@ =~= before_queue.skip(1));
            proof {
                lemma_state_facts(view, f, config.min_sup, uc, ub, best_before, pruner, found, before_queue);
                assert(popped == before_queue[0]);
                assert(in_bound(before_queue[0], before_queue[0].left_bound as int));
            }
            let ghost after_pop = pending(queue@);
            assert(after_pop + bound_size(popped) == before_pop);
            if pruner.subinterval_pruning(&current_bound, current_best.error) {
                proof {
                    assert forall|k: int| 0 <= k < ns && #[trigger] in_bound(before_queue[0], k) implies pruned_by_rule(
                        tr_before,
                        k,
                        best_before,
                    ) by {
                        lemma_bracketed(pruner, found, popped, current_best.error, k);
                    }
                    lemma_state_drop(view, f, config.min_sup, uc, ub, best_before, pruner, found, before_queue);
                }
                continue;
            }
            let clamped = pruner.clamped(&current_bound);
            assert(clamped.right_bound <= popped.right_bound);
            if clamped.left_bound > clamped.right_bound || clamped.right_bound >= ns {
                proof {
                    assert forall|k: int| 0 <= k < ns && #[trigger] in_bound(before_queue[0], k) implies pruned_by_rule(
                        tr_before,
                        k,
                        best_before,
                    ) by {
                        lemma_clamped_out(pruner, found, popped, k);
                    }
                    lemma_state_drop(view, f, config.min_sup, uc, ub, best_before, pruner, found, before_queue);
                }
                continue;
            }
            proof {
                pruner.lemma_shrinking_defined(current_bound, current_best.error, SEARCH_LIMIT as int);
                pruner.lemma_shrinking_discards_only_hopeless_splits(
                    current_bound,
                    current_best.error,
                    current_bound.left_bound as int,
                );
                assert forall|k: int|
                    0 <= k < ns && in_bound(popped, k) && !in_bound(
                        pruner.shrunk(popped, current_best.error),
                        k,
                    ) implies #[trigger] pruned_by_rule(tr_before, k, best_before) by {
                    pruner.lemma_shrinking_discards_only_hopeless_splits(popped, current_best.error, k);
                    lemma_discardable_is_rule(pruner, found, popped, current_best.error, k);
                }
            }
            pruner.interval_shrinking(&mut current_bound, current_best.error);
            if !current_bound.is_valid() {
                proof {
                    assert forall|k: int| 0 <= k < ns && #[trigger] in_bound(before_queue[0], k) implies pruned_by_rule(
                        tr_before,
                        k,
                        best_before,
                    ) by {
                        assert(in_bound(popped, k));
                    }
                    lemma_state_drop(view, f, config.min_sup, uc, ub, best_before, pruner, found, before_queue);
                }
                continue;
            }
            let ghost shrunk_b = current_bound;
            assert(popped.left_bound <= current_bound.left_bound && current_bound.right_bound
                <= popped.right_bound);
            assert(current_bound.last_split_left_index == popped.last_split_left_index
                && current_bound.last_split_right_index == popped.last_split_right_index);
            let selected_point = pick_point(config, &current_bound, &mut self.rng);
            assert(current_bound.left_bound <= selected_point <= current_bound.right_bound);
            let split_point = splits[selected_point];
            let from_left = split_point - splits[current_bound.left_bound];
            let from_right = splits[current_bound.right_bound] - split_point;
            let int_half_distance = if from_left >= from_right {
                from_left
            } else {
                from_right
            };
            assert(is_split_position(col, splits@[selected_point as int] as int));
            let threshold = view.value_at(feature_index, split_point);
            let (left_view, right_view) = view.split(feature_index, split_point);
            if left_view.len() < self.config.min_sup || right_view.len() < self.config.min_sup {
                proof {
                    if all_supported(view, f, config.min_sup) {
                        assert(supported_split(view, f, split_point as int, config.min_sup));
                    }
                    lemma_state_drop(view, f, config.min_sup, uc, ub, best_before, pruner, found, before_queue);
                }
                continue;
            }
            proof {
                assert forall|g: int| 0 <= g < left_view.spec_num_features() implies #[trigger] left_view.column(g).len()
                    <= SEARCH_LIMIT by {
                    assert(left_view.column(g).len() <= view.column(g).len());
                }
                assert forall|g: int| 0 <= g < right_view.spec_num_features() implies #[trigger] right_view.column(g).len()
                    <= SEARCH_LIMIT by {
                    assert(left_view.column(g).len() <= view.column(g).len());
                    assert(right_view.column(g).len() <= view.column(g).len());
                }
            }
            let best_error = current_best.error;
            let (outcome, split_stopped) = self.evaluate_split(
                &left_view,
                &right_view,
                config,
                best_error,
                upper_bound,
                int_half_distance,
            );
            stopped = stopped || split_stopped;
            let ghost v: int = if outcome.explored {
                outcome.left.error + outcome.right.error
            } else {
                outcome.left.error as int
            };
            let right_error = if outcome.explored {
                outcome.right.error
            } else {
                usize::MAX
            };
            if outcome.explored {
                let feature_best = outcome.left.error + outcome.right.error;
                if feature_best < current_best.error {
                    current_best.age = self.config.nb_runs;
                    current_best.error = feature_best;
                    current_best.feature = feature_index;
                    current_best.split = threshold;
                    current_best.left = outcome.left_index;
                    current_best.right = outcome.right_index;
                    proof {
                        assert(supported_split(view, feature_index as int, split_point as int, config.min_sup));
                    }
                    if USE_CACHE {
                        self.store(cache_index, *current_best);
                    }
                    if feature_best == 0 {
                        proof {
                            lemma_state_facts(view, f, config.min_sup, uc, ub, best_before, pruner, found, before_queue);
                            lemma_covered_at_zero(view, f, tr_before, ub, uc);
                        }
                        return false;
                    }
                }
            }
            let left_recorded = Self::recorded_error(&outcome.left);
            let ghost old_record = pruner.record();
            let ghost old_pruner = pruner;
            pruner.add_result(selected_point, left_recorded, right_error);
            proof {
                assert forall|i: usize| #[trigger] pruner.record().contains_key(i) implies i < pruner.splits().len()
                    && pruner.record()[i].0 <= SEARCH_LIMIT && pruner.record()[i].1 <= SEARCH_LIMIT by {
                    if i != selected_point {
                        assert(old_record.contains_key(i));
                    }
                }
                if uc {
                    assert(v <= split_leaf_error(view, f, split_point as int)) by {
                        lemma_max_count_bounds(label_counts(left_view.points(), view.spec_num_labels() as nat));
                        lemma_max_count_bounds(label_counts(right_view.points(), view.spec_num_labels() as nat));
                    }
                    assert(splits@[selected_point as int] == split_point);
                }
                assert(in_bound(before_queue[0], selected_point as int));
            }
            if current_bound.left_bound == current_bound.right_bound {
                proof {
                    lemma_state_single(
                        view,
                        f,
                        config.min_sup,
                        uc,
                        ub,
                        best_before,
                        current_best.error as int,
                        old_pruner,
                        pruner,
                        found,
                        before_queue,
                        selected_point,
                        v,
                    );
                    found = found.insert(selected_point, v);
                }
                assert(bound_size(popped) >= 1);
                continue;
            }
            let score_difference = if outcome.explored {
                let sum = outcome.left.error + outcome.right.error;
                if sum >= current_best.error {
                    sum - current_best.error
                } else {
                    0
                }
            } else {
                let known = if outcome.left.error <= SEARCH_LIMIT {
                    outcome.left.error
                } else {
                    outcome.right.error
                };
                if known >= current_best.error {
                    known - current_best.error
                } else {
                    0
                }
            };
            proof {
                pruner.lemma_neighbourhood_defined(
                    score_difference,
                    current_bound.left_bound,
                    current_bound.right_bound,
                    selected_point,
                    SEARCH_LIMIT as int,
                );
            }
            let (new_left, new_right) = pruner.neighbourhood_pruning(
                score_difference,
                current_bound.left_bound,
                current_bound.right_bound,
                selected_point,
            );
            let ghost mid = queue@;
            let right_start = if new_left > selected_point {
                new_left
            } else {
                selected_point + 1
            };
            if right_start <= current_bound.right_bound {
                let b = Bound {
                    left_bound: right_start,
                    right_bound: current_bound.right_bound,
                    last_split_left_index: Some(selected_point),
                    last_split_right_index: current_bound.last_split_right_index,
                };
                queue.push_back(b);
            }
            let ghost first_push = queue@;
            if selected_point > 0 {
                let left_end = if new_right < selected_point {
                    new_right
                } else {
                    selected_point - 1
                };
                if current_bound.left_bound <= left_end {
                    let b = Bound {
                        left_bound: current_bound.left_bound,
                        right_bound: left_end,
                        last_split_left_index: current_bound.last_split_left_index,
                        last_split_right_index: Some(selected_point),
                    };
                    queue.push_back(b);
                }
            }
            proof {
                if first_push.len() > mid.len() {
                    assert(mid.push(first_push.last()) == first_push);
                    lemma_pending_push(mid, first_push.last());
                } else {
                    assert(first_push == mid);
                }
                if queue@.len() > first_push.len() {
                    assert(queue@ =~= first_push.push(queue@.last()));
                    lemma_pending_push(first_push, queue@.last());
                } else {
                    assert(queue@ == first_push);
                }
                assert(pending(queue@) < before_pop);
                assert(queue@ =~= before_queue.skip(1) + split_pushes(
                    shrunk_b,
                    selected_point,
                    new_left as int,
                    new_right as int,
                ));
                lemma_state_split(
                    view,
                    f,
                    config.min_sup,
                    uc,
                    ub,
                    best_before,
                    current_best.error,
                    old_pruner,
                    pruner,
                    found,
                    before_queue,
                    shrunk_b,
                    selected_point,
                    v,
                    score_difference,
                );
                found = found.insert(selected_point, v);
            }
        }
        proof {
            if all_supported(view, f, config.min_sup) {
                lemma_state_done(view, f, config.min_sup, uc, ub, current_best.error as int, pruner, found, queue@);
            }
        }
        stopped
    }

    /// Score recorded for a side: its error.
    fn recorded_error(e: &Entry) -> (r: usize)
        ensures
            r == e.error,
    {
        e.error
    }

    /// Searches the splits of feature `feature_index` in the given `order` of split
    /// positions, skipping those that earlier results have pruned; on the first run
    /// only the first of them. Returns whether the search was cut short.
    fn expand_on_feature_gini_priority(
        &mut self,
        view: &DataView,
        feature_index: usize,
        cache_index: usize,
        config: &SearchConfig,
        current_best: &mut Entry,
        upper_bound: usize,
        order: &Vec<usize>,
    ) -> (stopped: bool)
        requires
            old(self).inv(),
            old(self).cache.entries().len() >= 1,
            view_within(view),
            feature_index < view.spec_num_features(),
            config.max_gap <= SEARCH_LIMIT,
            config.min_sup == old(self).config.min_sup,
            1 <= config.max_depth <= old(self).config.max_depth,
            old(current_best).error <= SEARCH_LIMIT,
        ensures
            final(self).inv(),
            final(self).same_setup(*old(self)),
            (!USE_CACHE || cache_index != 0) ==> final(self).keeps_root(*old(self)),
            USE_CACHE && cache_index == 0 && old(self).root_error_is(*old(current_best)) ==> final(self).root_error_is(
                *final(current_best),
            ),
            feature_result(
                view,
                feature_index as int,
                config.min_sup,
                *old(current_best),
                *final(current_best),
                !USE_CACHE,
            ),
        decreases config.max_depth, 2nat,
    {
        let splits = view.possible_splits(feature_index);
        let ns = splits.len();
        if ns == 0 {
            return false;
        }
        let ghost col = view.column(feature_index as int);
        let ghost start = *current_best;
        assert(ns <= SEARCH_LIMIT);
        proof {
            assert(is_sorted(splits@)) by {
                assert forall|i: int, j: int| 0 <= i <= j < splits@.len() implies splits@[i] <= splits@[j] by {
                    if i < j {
                        assert(splits@[i] < splits@[j]);
                    }
                }
            }
            assert forall|i: int| 0 <= i < splits@.len() implies splits@[i] <= SEARCH_LIMIT by {
                assert(is_split_position(col, splits@[i] as int));
            }
        }
        let mut pruner = IntervalsPruner::new(splits.as_slice(), config.max_gap);
        let mut pruned: Vec<bool> = Vec::new();
        let mut q: usize = 0;
        while q < ns
            invariant
                q <= ns,
                pruned@.len() == q,
            decreases ns - q,
        {
            pruned.push(false);
            q += 1;
        }
        let mut stopped = false;
        let mut k: usize = 0;
        while k < order.len()
            invariant
                self.inv(),
                view_within(view),
                feature_index < view.spec_num_features(),
                col == view.column(feature_index as int),
                config.max_gap <= SEARCH_LIMIT,
                config.min_sup == self.config.min_sup,
                1 <= config.max_depth <= self.config.max_depth,
                self.same_setup(*old(self)),
                (!USE_CACHE || cache_index != 0) ==> self.keeps_root(*old(self)),
                self.cache.entries().len() >= 1,
                USE_CACHE && cache_index == 0 && old(self).root_error_is(*old(current_best)) ==> self.root_error_is(*current_best),
                start == *old(current_best),
                start.error <= SEARCH_LIMIT,
                feature_result(view, feature_index as int, config.min_sup, start, *current_best, !USE_CACHE),
                ns == splits@.len(),
                0 < ns <= SEARCH_LIMIT,
                pruned@.len() == ns,
                is_sorted(splits@),
                pruner.splits() == splits@,
                pruner.gap() == config.max_gap,
                forall|i: int| 0 <= i < splits@.len() ==> splits@[i] <= SEARCH_LIMIT,
                forall|j: int| 0 <= j < splits@.len() ==> is_split_position(col, #[trigger] splits@[j] as int),
                pruner.scores_within(SEARCH_LIMIT as int),
            decreases order@.len() - k,
        {
            if self.config.nb_runs <= 1 && k > 0 {
                return true;
            }
            if !self.time_remains() {
                return true;
            }
            let split_idx = order[k];
            k += 1;
            if split_idx >= ns || pruned[split_idx] {
                continue;
            }
            let split_stopped = self.evaluate_split_gini_priority(
                view,
                feature_index,
                split_idx,
                &splits,
                config,
                current_best,
                cache_index,
                upper_bound,
                &mut pruner,
                &mut pruned,
            );
            stopped = stopped || split_stopped;
            if current_best.error == 0 {
                return false;
            }
        }
        stopped
    }

    /// Evaluates the split at candidate `split_idx` and marks the candidates that its
    /// result prunes around it. Returns whether a side's search was cut short.
    #[verifier::rlimit(60)]
    fn evaluate_split_gini_priority<'a>(
        &mut self,
        view: &DataView,
        feature_index: usize,
        split_idx: usize,
        splits: &'a Vec<usize>,
        config: &SearchConfig,
        current_best: &mut Entry,
        cache_index: usize,
        upper_bound: usize,
        pruner: &mut IntervalsPruner<'a>,
        pruned: &mut Vec<bool>,
    ) -> (stopped: bool)
        requires
            old(self).inv(),
            old(self).cache.entries().len() >= 1,
            view_within(view),
            feature_index < view.spec_num_features(),
            config.max_gap <= SEARCH_LIMIT,
            config.min_sup == old(self).config.min_sup,
            1 <= config.max_depth <= old(self).config.max_depth,
            old(current_best).error <= SEARCH_LIMIT,
            0 < splits@.len() <= SEARCH_LIMIT,
            split_idx < splits@.len(),
            old(pruned)@.len() == splits@.len(),
            is_sorted(splits@),
            old(pruner).splits() == splits@,
            old(pruner).gap() == config.max_gap,
            forall|i: int| 0 <= i < splits@.len() ==> splits@[i] <= SEARCH_LIMIT,
            forall|j: int| 0 <= j < splits@.len() ==> is_split_position(view.column(feature_index as int), #[trigger] splits@[j] as int),
            old(pruner).scores_within(SEARCH_LIMIT as int),
        ensures
            final(self).inv(),
            final(self).same_setup(*old(self)),
            (!USE_CACHE || cache_index != 0) ==> final(self).keeps_root(*old(self)),
            USE_CACHE && cache_index == 0 && old(self).root_error_is(*old(current_best)) ==> final(self).root_error_is(
                *final(current_best),
            ),
            feature_result(
                view,
                feature_index as int,
                config.min_sup,
                *old(current_best),
                *final(current_best),
                !USE_CACHE,
            ),
            final(pruned)@.len() == splits@.len(),
            final(pruner).splits() == splits@,
            final(pruner).gap() == config.max_gap,
            final(pruner).scores_within(SEARCH_LIMIT as int),
            forall|i: int| 0 <= i < splits@.len() && old(pruned)@[i] ==> #[trigger] final(pruned)@[i],
            forall|i: int|
                0 <= i < splits@.len() && !old(pruned)@[i] && #[trigger] final(pruned)@[i] && i != split_idx
                    ==> final(pruner).prunes_soundly(split_idx as int, i, final(current_best).error as int),
        decreases config.max_depth, 1nat,
    {
        let ns = splits.len();
        let ghost col = view.column(feature_index as int);
        let mut current_left = split_idx;
        while current_left > 0 && pruned[current_left - 1]
            invariant
                current_left <= split_idx < ns,
                pruned@.len() == ns,
            decreases current_left,
        {
            current_left -= 1;
        }
        if current_left > 0 {
            current_left -= 1;
        }
        let mut current_right = split_idx;
        while current_right < ns - 1 && pruned[current_right + 1]
            invariant
                split_idx <= current_right < ns,
                pruned@.len() == ns,
            decreases ns - current_right,
        {
            current_right += 1;
        }
        if current_right < ns - 1 {
            current_right += 1;
        }
        let split_point = splits[split_idx];
        assert(is_split_position(col, splits@[split_idx as int] as int));
        let threshold = view.value_at(feature_index, split_point);
        let (left_view, right_view) = view.split(feature_index, split_point);
        if left_view.len() < self.config.min_sup || right_view.len() < self.config.min_sup {
            pruned.set(split_idx, true);
            return false;
        }
        proof {
            assert forall|g: int| 0 <= g < left_view.spec_num_features() implies #[trigger] left_view.column(g).len()
                <= SEARCH_LIMIT by {
                assert(left_view.column(g).len() <= view.column(g).len());
            }
            assert forall|g: int| 0 <= g < right_view.spec_num_features() implies #[trigger] right_view.column(g).len()
                <= SEARCH_LIMIT by {
                assert(left_view.column(g).len() <= view.column(g).len());
                assert(right_view.column(g).len() <= view.column(g).len());
            }
        }
        let from_first = split_point - splits[0];
        let to_last = splits[ns - 1] - split_point;
        let int_half_distance = if from_first >= to_last {
            from_first
        } else {
            to_last
        };
        let best_error = current_best.error;
        let (outcome, stopped) = self.evaluate_split(
            &left_view,
            &right_view,
            config,
            best_error,
            upper_bound,
            int_half_distance,
        );
        let right_error = if outcome.explored {
            outcome.right.error
        } else {
            usize::MAX
        };
        if outcome.explored {
            let feature_best = outcome.left.error + outcome.right.error;
            if feature_best < current_best.error {
                current_best.age = self.config.nb_runs;
                current_best.error = feature_best;
                current_best.feature = feature_index;
                current_best.split = threshold;
                current_best.left = outcome.left_index;
                current_best.right = outcome.right_index;
                proof {
                    assert(supported_split(view, feature_index as int, split_point as int, config.min_sup));
                }
                if USE_CACHE {
                    self.store(cache_index, *current_best);
                }
                if feature_best == 0 {
                    return false;
                }
            }
        }
        let left_recorded = Self::recorded_error(&outcome.left);
        let ghost old_record = pruner.record();
        pruner.add_result(split_idx, left_recorded, right_error);
        proof {
            assert forall|i: usize| #[trigger] pruner.record().contains_key(i) implies i < pruner.splits().len()
                && pruner.record()[i].0 <= SEARCH_LIMIT && pruner.record()[i].1 <= SEARCH_LIMIT by {
                if i != split_idx {
                    assert(old_record.contains_key(i));
                }
            }
        }
        let score_difference = if outcome.explored {
            let sum = outcome.left.error + outcome.right.error;
            if sum >= current_best.error {
                sum - current_best.error
            } else {
                0
            }
        } else {
            if outcome.left.error >= current_best.error {
                outcome.left.error - current_best.error
            } else {
                0
            }
        };
        proof {
            pruner.lemma_neighbourhood_defined(
                score_difference,
                current_left,
                current_right,
                split_idx,
                SEARCH_LIMIT as int,
            );
        }
        let (new_left, new_right) = pruner.neighbourhood_pruning(
            score_difference,
            current_left,
            current_right,
            split_idx,
        );
        let ghost before_marks = pruned@;
        mark_pruned(pruned, split_idx, new_left, new_right, current_left, current_right);
        proof {
            assert forall|i: int|
                0 <= i < splits@.len() && !old(pruned)@[i] && #[trigger] pruned@[i] && i != split_idx
                    implies pruner.prunes_soundly(split_idx as int, i, current_best.error as int) by {
                assert(!before_marks[i]);
                pruner.lemma_neighbourhood_discards_only_close_splits(
                    score_difference,
                    current_left,
                    current_right,
                    split_idx,
                    i,
                );
            }
        }
        stopped
    }

    /// The split position that `config` picks in `bound`.
    pub fn select_point(&mut self, config: &SearchConfig, bound: &Bound) -> (r: usize)
        requires
            point_selectable(config.point_selector, *bound),
        ensures
            picks_point(config.point_selector, *bound, r),
            final(self).config() == old(self).config(),
            final(self).spec_statistics() == old(self).spec_statistics(),
            final(self).spec_max_discrepancy() == old(self).spec_max_discrepancy(),
    {
        pick_point(config, bound, &mut self.rng)
    }

    /// Largest discrepancy worth exploring with `nb_candidates` features and
    /// `remaining_depth` levels.
    pub fn discrepancy_limit(nb_candidates: usize, remaining_depth: usize) -> (r: usize)
        requires
            spec_discrepancy_limit(nb_candidates as int, remaining_depth as int) <= usize::MAX,
        ensures
            r == spec_discrepancy_limit(nb_candidates as int, remaining_depth as int),
    {
        let mut max_discrepancy = nb_candidates;
        let mut i: usize = 1;
        let ghost n = nb_candidates as int;
        let ghost d = remaining_depth as int;
        while i < remaining_depth
            invariant
                1 <= i,
                i <= remaining_depth || (remaining_depth == 0 && i == 1),
                n == nb_candidates,
                d == remaining_depth,
                max_discrepancy == spec_discrepancy_limit(n, i as int),
                spec_discrepancy_limit(n, d) <= usize::MAX,
            decreases remaining_depth - i,
        {
            proof {
                lemma_discrepancy_limit_grows(n, d);
                assert(spec_discrepancy_limit(n, i + 1) <= spec_discrepancy_limit(n, d));
            }
            max_discrepancy += nb_candidates.saturating_sub(i);
            i += 1;
        }
        proof {
            if d == 0 {
                assert(spec_discrepancy_limit(n, 1) == n);
                assert(spec_discrepancy_limit(n, 0) == n);
            } else {
                assert(i as int == d);
            }
        }
        max_discrepancy
    }

    pub fn statistics(&self) -> (s: &Statistics)
        ensures
            *s == self.spec_statistics(),
    {
        &self.statistics
    }
}

} // verus!
