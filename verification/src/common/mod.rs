pub mod budget_iterator;

use vstd::prelude::*;

verus! {

/// How a split position is picked inside an interval of candidates.
#[derive(Default, Copy, Debug, Clone, PartialOrd, PartialEq, Eq, Structural)]
pub enum PointSelector {
    #[default]
    Mid,
    First,
    Random,
}

/// Parameters of one node of the tree search.
#[derive(Copy, Clone, Debug)]
pub struct SearchConfig {
    pub max_depth: usize,
    pub min_sup: usize,
    pub max_gap: usize,
    pub max_error: usize,
    pub is_root: bool,
    pub use_heuristic: bool,
    pub use_discrepancy: bool,
    pub fast_d2: bool,
    pub point_selector: PointSelector,
    pub nb_runs: usize,
    pub discrepancy: usize,
    pub budget: usize,
}

/// The part of a gap `g` that a node hands down to its two children.
pub open spec fn children_gap(g: int) -> int {
    g - (g + 1) / 2
}

impl SearchConfig {
    /// The configuration that `new` builds.
    pub open spec fn spec_new(
        min_sup: usize,
        max_depth: usize,
        max_gap: usize,
        max_error: usize,
        use_heuristic: bool,
        fast_d2: bool,
        split_strategy: PointSelector,
    ) -> SearchConfig {
        SearchConfig {
            max_depth,
            min_sup,
            max_gap,
            max_error,
            is_root: true,
            use_heuristic,
            use_discrepancy: false,
            fast_d2,
            point_selector: split_strategy,
            nb_runs: 0,
            discrepancy: 0,
            budget: 0,
        }
    }

    /// Configuration of the root: no discrepancy search, no runs yet.
    pub fn new(
        min_sup: usize,
        max_depth: usize,
        max_gap: usize,
        max_error: usize,
        use_heuristic: bool,
        fast_d2: bool,
        split_strategy: PointSelector,
    ) -> (c: Self)
        ensures
            c == Self::spec_new(
                min_sup,
                max_depth,
                max_gap,
                max_error,
                use_heuristic,
                fast_d2,
                split_strategy,
            ),
    {
        Self {
            max_depth,
            min_sup,
            max_gap,
            max_error,
            is_root: true,
            use_heuristic,
            use_discrepancy: false,
            fast_d2,
            point_selector: split_strategy,
            nb_runs: 0,
            discrepancy: 0,
            budget: 0,
        }
    }

    /// Configuration of the first child searched: one level shallower, not the root,
    /// with half of the gap that the node hands down.
    pub fn derive_left(&self) -> (c: Self)
        requires
            self.max_depth >= 1,
            self.max_gap < usize::MAX,
        ensures
            c == (Self {
                max_depth: (self.max_depth - 1) as usize,
                is_root: false,
                max_gap: (children_gap(self.max_gap as int) / 2) as usize,
                ..*self
            }),
    {
        let mut left_config = *self;
        left_config.max_depth -= 1;
        left_config.is_root = false;
        left_config.max_gap = (self.max_gap - (self.max_gap + 1) / 2) / 2;
        left_config
    }

    /// Configuration of the second child searched: one level shallower, not the root,
    /// with what the first child (given `left_gap`) leaves of the gap handed down.
    pub fn derive_right(&self, left_gap: usize) -> (c: Self)
        requires
            self.max_depth >= 1,
            self.max_gap < usize::MAX,
        ensures
            c == (Self {
                max_depth: (self.max_depth - 1) as usize,
                is_root: false,
                max_gap: (if children_gap(self.max_gap as int) >= left_gap {
                    children_gap(self.max_gap as int) - left_gap
                } else {
                    0
                }) as usize,
                ..*self
            }),
    {
        let mut right_config = *self;
        right_config.max_depth -= 1;
        right_config.is_root = false;
        right_config.max_gap = (self.max_gap - (self.max_gap + 1) / 2).saturating_sub(left_gap);
        right_config
    }
}

/// The two children of a node share exactly the part of its gap that it hands down,
/// which is at most half of it; each child is one level shallower.
pub proof fn lemma_children_share_gap(c: SearchConfig)
    requires
        c.max_depth >= 1,
        c.max_gap < usize::MAX,
    ensures
        ({
            let l = children_gap(c.max_gap as int) / 2;
            let r = children_gap(c.max_gap as int) - l;
            &&& 0 <= l <= r
            &&& l + r == children_gap(c.max_gap as int)
            &&& 2 * children_gap(c.max_gap as int) <= c.max_gap
        }),
{
}

/// Counters gathered by a search.
#[derive(Copy, Clone, Debug)]
pub struct Statistics {
    pub cache_size: usize,
    pub cache_hits: usize,
    pub general_solver_call: usize,
    pub specialized_solver_call: usize,
    pub num_samples: usize,
    pub num_features: usize,
    pub error: usize,
}

impl Statistics {
    /// All counters at zero.
    pub open spec fn spec_default() -> Statistics {
        Statistics {
            cache_size: 0,
            cache_hits: 0,
            general_solver_call: 0,
            specialized_solver_call: 0,
            num_samples: 0,
            num_features: 0,
            error: 0,
        }
    }
}

impl Default for Statistics {
    fn default() -> (s: Self)
        ensures
            s == Statistics::spec_default(),
    {
        Self {
            cache_size: 0,
            cache_hits: 0,
            general_solver_call: 0,
            specialized_solver_call: 0,
            num_samples: 0,
            num_features: 0,
            error: 0,
        }
    }
}

/// Sum of a sequence of counts.
pub open spec fn total(s: Seq<usize>) -> int
    decreases s.len(),
{
    if s.len() == 0 {
        0
    } else {
        total(s.drop_last()) + s.last()
    }
}

/// Largest count of a sequence (zero when empty).
pub open spec fn max_count(s: Seq<usize>) -> int
    decreases s.len(),
{
    if s.len() == 0 {
        0
    } else {
        let m = max_count(s.drop_last());
        if s.last() >= m {
            s.last() as int
        } else {
            m
        }
    }
}

/// Position of the largest count, the last one among equals (zero when empty).
pub open spec fn majority_index(s: Seq<usize>) -> int
    decreases s.len(),
{
    if s.len() == 0 {
        0
    } else if s.last() >= max_count(s.drop_last()) {
        s.len() - 1
    } else {
        majority_index(s.drop_last())
    }
}

/// Changing one count changes the sum by the difference.
pub proof fn lemma_total_update(t: Seq<usize>, k: int, v: usize)
    requires
        0 <= k < t.len(),
    ensures
        total(t.update(k, v)) == total(t) - t[k] + v,
    decreases t.len(),
{
    if k < t.len() - 1 {
        assert(t.update(k, v).drop_last() =~= t.drop_last().update(k, v));
        lemma_total_update(t.drop_last(), k, v);
    } else {
        assert(t.update(k, v).drop_last() =~= t.drop_last());
    }
}

/// The most samples that a search handles, and the largest gap it accepts: an eighth
/// of the address range, so that the sums of a few errors, gaps and split positions
/// that the search forms cannot overflow.
pub const SEARCH_LIMIT: usize = usize::MAX / 8;

pub proof fn lemma_max_count_bounds(s: Seq<usize>)
    ensures
        forall|i: int| 0 <= i < s.len() ==> s[i] <= max_count(s),
        s.len() > 0 ==> 0 <= majority_index(s) < s.len() && s[majority_index(s)] == max_count(s),
        max_count(s) <= total(s),
        0 <= max_count(s),
    decreases s.len(),
{
    if s.len() > 0 {
        lemma_max_count_bounds(s.drop_last());
        assert forall|i: int| 0 <= i < s.len() implies s[i] <= max_count(s) by {
            if i < s.len() - 1 {
                assert(s[i] == s.drop_last()[i]);
            }
        }
        if s.len() > 1 && s.last() < max_count(s.drop_last()) {
            assert(s[majority_index(s)] == s.drop_last()[majority_index(s.drop_last())]);
        }
    }
}

proof fn lemma_total_prefix(s: Seq<usize>, i: int)
    requires
        0 <= i < s.len(),
    ensures
        total(s.take(i + 1)) == total(s.take(i)) + s[i],
        max_count(s.take(i + 1)) == (if s[i] >= max_count(s.take(i)) {
            s[i] as int
        } else {
            max_count(s.take(i))
        }),
        majority_index(s.take(i + 1)) == (if s[i] >= max_count(s.take(i)) {
            i
        } else {
            majority_index(s.take(i))
        }),
{
    assert(s.take(i + 1).drop_last() =~= s.take(i));
}

proof fn lemma_total_monotone(s: Seq<usize>, i: int)
    requires
        0 <= i <= s.len(),
    ensures
        total(s.take(i)) <= total(s),
    decreases s.len() - i,
{
    if i < s.len() {
        lemma_total_prefix(s, i);
        lemma_total_monotone(s, i + 1);
    } else {
        assert(s.take(i) =~= s);
    }
}

/// Error of the best constant prediction for the given class counts, and that class:
/// the error is the number of samples outside the majority class, and the class is
/// the last one of largest count (the first class, 0, when there is none).
pub fn classification_error(classes_support: &[usize]) -> (r: (usize, usize))
    requires
        total(classes_support@) <= usize::MAX,
    ensures
        r.0 == total(classes_support@) - max_count(classes_support@),
        r.1 == majority_index(classes_support@),
        r.0 + classes_support@[r.1 as int] == total(classes_support@) || classes_support@.len() == 0,
{
    let mut max_idx: usize = 0;
    let mut max_value: usize = 0;
    let mut total_count: usize = 0;
    let n = classes_support.len();
    let mut idx: usize = 0;
    proof {
        lemma_max_count_bounds(classes_support@);
    }
    while idx < n
        invariant
            n == classes_support@.len(),
            0 <= idx <= n,
            total(classes_support@) <= usize::MAX,
            total_count == total(classes_support@.take(idx as int)),
            max_value == max_count(classes_support@.take(idx as int)),
            max_idx == majority_index(classes_support@.take(idx as int)),
        decreases n - idx,
    {
        let value = classes_support[idx];
        proof {
            lemma_total_prefix(classes_support@, idx as int);
            lemma_total_monotone(classes_support@, idx as int + 1);
        }
        total_count += value;
        if value >= max_value {
            max_value = value;
            max_idx = idx;
        }
        idx += 1;
    }
    proof {
        assert(classes_support@.take(n as int) =~= classes_support@);
        lemma_max_count_bounds(classes_support@.take(idx as int));
    }
    let error = total_count - max_value;
    (error, max_idx)
}

} // verus!
