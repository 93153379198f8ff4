use std::collections::HashMap;
use vstd::prelude::*;

verus! {

broadcast use vstd::std_specs::hash::group_hash_axioms;

/// An interval `left_bound..=right_bound` of candidate split positions, with the
/// positions of the splits evaluated just left and just right of it.
#[derive(Debug, Clone, Copy)]
pub struct Bound {
    pub left_bound: usize,
    pub right_bound: usize,
    pub last_split_left_index: Option<usize>,
    pub last_split_right_index: Option<usize>,
}

/// The bound that `invalidate` leaves behind.
pub open spec fn invalid_bound() -> Bound {
    Bound {
        left_bound: 1,
        right_bound: 0,
        last_split_left_index: None,
        last_split_right_index: None,
    }
}

impl Bound {
    pub fn new(left: usize, right: usize, last_left: Option<usize>, last_right: Option<usize>) -> (b:
        Self)
        ensures
            b.left_bound == left,
            b.right_bound == right,
            b.last_split_left_index == last_left,
            b.last_split_right_index == last_right,
    {
        Self {
            left_bound: left,
            right_bound: right,
            last_split_left_index: last_left,
            last_split_right_index: last_right,
        }
    }

    /// The interval is non-empty.
    pub open spec fn spec_is_valid(&self) -> bool {
        self.left_bound <= self.right_bound
    }

    /// Check if the interval is valid (left <= right)
    #[verifier::when_used_as_spec(spec_is_valid)]
    pub fn is_valid(&self) -> (r: bool)
        ensures
            r == self.spec_is_valid(),
    {
        self.left_bound <= self.right_bound
    }

    /// Mark interval as invalid
    pub fn invalidate(&mut self)
        ensures
            *final(self) == invalid_bound(),
    {
        self.left_bound = 1;
        self.right_bound = 0;
        self.last_split_left_index = None;
        self.last_split_right_index = None;
    }
}

/// `s` is sorted in non-decreasing order.
pub open spec fn is_sorted(s: Seq<usize>) -> bool {
    forall|i: int, j: int| 0 <= i <= j < s.len() ==> s[i] <= s[j]
}

/// `r` is the first position of `lo..=hi` whose element is at least `v`
/// (`hi + 1` when there is none).
pub open spec fn is_lower_bound(s: Seq<usize>, lo: int, hi: int, v: int, r: int) -> bool {
    &&& lo <= r <= hi + 1
    &&& forall|i: int| lo <= i < r ==> s[i] < v
    &&& forall|i: int| r <= i <= hi ==> s[i] >= v
}

/// `r` is the first position of `lo..=hi` whose element is greater than `v`
/// (`hi + 1` when there is none).
pub open spec fn is_upper_bound(s: Seq<usize>, lo: int, hi: int, v: int, r: int) -> bool {
    &&& lo <= r <= hi + 1
    &&& forall|i: int| lo <= i < r ==> s[i] <= v
    &&& forall|i: int| r <= i <= hi ==> s[i] > v
}

/// The lower-bound position of `v` in `s[lo..=hi]`.
pub open spec fn lower_bound_pos(s: Seq<usize>, lo: int, hi: int, v: int) -> int {
    choose|r: int| is_lower_bound(s, lo, hi, v, r)
}

/// The upper-bound position of `v` in `s[lo..=hi]`.
pub open spec fn upper_bound_pos(s: Seq<usize>, lo: int, hi: int, v: int) -> int {
    choose|r: int| is_upper_bound(s, lo, hi, v, r)
}

/// A lower-bound position is unique.
pub proof fn lemma_lower_bound_unique(s: Seq<usize>, lo: int, hi: int, v: int, r: int)
    requires
        is_lower_bound(s, lo, hi, v, r),
    ensures
        lower_bound_pos(s, lo, hi, v) == r,
{
    let q = lower_bound_pos(s, lo, hi, v);
    assert(is_lower_bound(s, lo, hi, v, q));
    if q < r {
        assert(s[q] >= v);
        assert(s[q] < v);
    }
    if r < q {
        assert(s[r] >= v);
        assert(s[r] < v);
    }
}

/// An upper-bound position is unique.
pub proof fn lemma_upper_bound_unique(s: Seq<usize>, lo: int, hi: int, v: int, r: int)
    requires
        is_upper_bound(s, lo, hi, v, r),
    ensures
        upper_bound_pos(s, lo, hi, v) == r,
{
    let q = upper_bound_pos(s, lo, hi, v);
    assert(is_upper_bound(s, lo, hi, v, q));
    if q < r {
        assert(s[q] > v);
        assert(s[q] <= v);
    }
    if r < q {
        assert(s[r] > v);
        assert(s[r] <= v);
    }
}


/// For a sorted sequence the lower-bound position exists.
pub proof fn lemma_lower_bound_exists(s: Seq<usize>, lo: int, hi: int, v: int)
    requires
        is_sorted(s),
        0 <= lo <= hi + 1,
        hi < s.len(),
    ensures
        is_lower_bound(s, lo, hi, v, lower_bound_pos(s, lo, hi, v)),
    decreases hi + 1 - lo,
{
    if lo > hi {
        assert(is_lower_bound(s, lo, hi, v, lo));
    } else if s[hi] < v {
        assert(is_lower_bound(s, lo, hi, v, hi + 1));
    } else {
        lemma_lower_bound_exists(s, lo, hi - 1, v);
        let r = lower_bound_pos(s, lo, hi - 1, v);
        assert(is_lower_bound(s, lo, hi, v, r));
    }
}

/// For a sorted sequence the upper-bound position exists.
pub proof fn lemma_upper_bound_exists(s: Seq<usize>, lo: int, hi: int, v: int)
    requires
        is_sorted(s),
        0 <= lo <= hi + 1,
        hi < s.len(),
    ensures
        is_upper_bound(s, lo, hi, v, upper_bound_pos(s, lo, hi, v)),
    decreases hi + 1 - lo,
{
    if lo > hi {
        assert(is_upper_bound(s, lo, hi, v, lo));
    } else if s[hi] <= v {
        assert(is_upper_bound(s, lo, hi, v, hi + 1));
    } else {
        lemma_upper_bound_exists(s, lo, hi - 1, v);
        let r = upper_bound_pos(s, lo, hi - 1, v);
        assert(is_upper_bound(s, lo, hi, v, r));
    }
}

/// The last position searched by the pruner's binary searches: an empty or
/// inverted range `left..=right` is widened to the end of the split list.
pub open spec fn search_end(len: int, left: int, right: int) -> int {
    if left >= right {
        len - 1
    } else {
        right
    }
}

/// A binary search over `left..=right` cannot fail on these arguments.
pub open spec fn search_defined(len: int, left: int, right: int) -> bool {
    &&& len > 0
    &&& left < right ==> right < len
    &&& left >= right ==> left <= len
}

/// IntervalsPruner performs branch-and-bound pruning on split intervals
/// to reduce the search space when finding optimal decision tree splits.
pub struct IntervalsPruner<'a> {
    pub possible_split_indexes: &'a [usize],
    pub possible_split_size: usize,
    pub rightmost_zero_index: Option<usize>,
    pub leftmost_zero_index: Option<usize>,
    pub max_gap: usize,
    /// Maps split index -> (left_score, right_score)
    pub evaluated_indices_record: HashMap<usize, (usize, usize)>,
}

impl<'a> IntervalsPruner<'a> {
    /// The candidate split positions.
    pub open spec fn splits(&self) -> Seq<usize> {
        self.possible_split_indexes@
    }

    /// The gap allowed for suboptimal solutions.
    pub open spec fn gap(&self) -> nat {
        self.max_gap as nat
    }

    /// The recorded `(left_score, right_score)` of each evaluated split.
    pub open spec fn record(&self) -> Map<usize, (usize, usize)> {
        self.evaluated_indices_record@
    }

    /// The left score recorded for the split at `idx`, zero when there is none.
    pub open spec fn left_score_at(&self, idx: Option<usize>) -> int {
        match idx {
            Some(i) => if self.record().contains_key(i) {
                self.record()[i].0 as int
            } else {
                0
            },
            None => 0,
        }
    }

    /// The right score recorded for the split at `idx`, zero when there is none.
    pub open spec fn right_score_at(&self, idx: Option<usize>) -> int {
        match idx {
            Some(i) => if self.record().contains_key(i) {
                self.record()[i].1 as int
            } else {
                0
            },
            None => 0,
        }
    }

    /// Creates a new IntervalsPruner
    ///
    /// # Arguments
    /// * `possible_split_indexes` - Reference to vector of possible split indices
    /// * `max_gap` - Maximum allowable gap for suboptimal solutions
    pub fn new(possible_split_indexes: &'a [usize], max_gap: usize) -> (p: Self)
        ensures
            p.possible_split_size == possible_split_indexes@.len(),
            p.splits() == possible_split_indexes@,
            p.gap() == max_gap,
            p.record() == Map::<usize, (usize, usize)>::empty(),
            p.leftmost_zero_index is None,
            p.rightmost_zero_index is None,
    {
        let possible_split_size = possible_split_indexes.len();
        let mut evaluated_indices_record = HashMap::new();
        evaluated_indices_record.reserve(possible_split_size / 8);

        Self {
            possible_split_indexes,
            possible_split_size,
            rightmost_zero_index: None,
            leftmost_zero_index: None,
            max_gap,
            evaluated_indices_record,
        }
    }

    fn recorded(&self, idx: Option<usize>) -> (r: Option<(usize, usize)>)
        ensures
            match r {
                Some(p) => idx is Some && self.record().contains_key(idx->0) && self.record()[idx->0]
                    == p,
                None => idx is None || !self.record().contains_key(idx->0),
            },
    {
        match idx {
            Some(i) => match self.evaluated_indices_record.get(&i) {
                Some(p) => Some(*p),
                None => None,
            },
            None => None,
        }
    }

    /// Performs subinterval pruning to determine if an interval can be entirely pruned
    ///
    /// # Arguments
    /// * `current_bounds` - The current bounds of the interval being evaluated
    /// * `current_best_score` - The best score obtained so far
    ///
    /// # Returns
    /// `true` if the subinterval can be pruned, `false` otherwise
    pub fn subinterval_pruning(&self, current_bounds: &Bound, current_best_score: usize) -> (r: bool)
        requires
            self.left_score_at(current_bounds.last_split_left_index) + self.right_score_at(
                current_bounds.last_split_right_index,
            ) + self.gap() <= usize::MAX,
        ensures
            r == (self.left_score_at(current_bounds.last_split_left_index) + self.right_score_at(
                current_bounds.last_split_right_index,
            ) + self.gap() >= current_best_score),
    {
        let left_bound_score_left = match self.recorded(current_bounds.last_split_left_index) {
            Some((left_score, _)) => left_score,
            None => 0,
        };
        let right_bound_score_right = match self.recorded(current_bounds.last_split_right_index) {
            Some((_, right_score)) => right_score,
            None => 0,
        };
        left_bound_score_left + right_bound_score_right + self.max_gap >= current_best_score
    }


    /// First split position that neighbourhood pruning may keep right of `split`.
    pub open spec fn neighbourhood_left_start(&self, split: usize) -> int {
        match self.leftmost_zero_index {
            Some(m) => if split >= m {
                split + 1
            } else {
                m + 1
            },
            None => split + 1,
        }
    }

    /// Last split position that neighbourhood pruning may keep left of `split`.
    pub open spec fn neighbourhood_right_start(&self, split: usize) -> int {
        let r0: int = if split >= 1 {
            split - 1
        } else {
            0
        };
        match self.rightmost_zero_index {
            Some(m) => {
                let r1: int = if m >= 1 {
                    m - 1
                } else {
                    0
                };
                if r0 <= r1 {
                    r0
                } else {
                    r1
                }
            },
            None => r0,
        }
    }

    /// The new `(left, right)` bounds that neighbourhood pruning returns.
    pub open spec fn neighbourhood(
        &self,
        score_difference: usize,
        left: usize,
        right: usize,
        split: usize,
    ) -> (int, int) {
        let sd = score_difference + self.gap();
        let s = self.splits();
        let len = s.len() as int;
        if sd == 0 {
            (split + 1, split as int)
        } else {
            let l0 = self.neighbourhood_left_start(split);
            let min_right = s[split as int] + sd + 1;
            let new_left = if min_right <= s[right as int] {
                lower_bound_pos(s, l0, search_end(len, l0, right as int), min_right)
            } else {
                right + 1
            };
            let r0 = self.neighbourhood_right_start(split);
            let min_left = if s[split as int] >= sd + 1 {
                s[split as int] - (sd + 1)
            } else {
                0
            };
            let new_right = if s[split as int] >= sd + 1 && min_left >= s[left as int] {
                upper_bound_pos(s, left as int, search_end(len, left as int, r0), min_left)
            } else if left >= 1 {
                left - 1
            } else {
                0
            };
            (new_left, new_right)
        }
    }

    /// Neighbourhood pruning cannot fail on these arguments.
    pub open spec fn neighbourhood_defined(
        &self,
        score_difference: usize,
        left: usize,
        right: usize,
        split: usize,
    ) -> bool {
        let sd = score_difference + self.gap();
        let s = self.splits();
        let len = s.len() as int;
        &&& sd <= usize::MAX
        &&& sd == 0 ==> split < usize::MAX
        &&& sd > 0 ==> {
            &&& split < len
            &&& (self.leftmost_zero_index is Some ==> self.leftmost_zero_index->0 < usize::MAX)
            &&& s[split as int] + sd + 1 <= usize::MAX
            &&& right < len
            &&& left < len
            &&& s[split as int] + sd + 1 <= s[right as int] ==> search_defined(
                len,
                self.neighbourhood_left_start(split),
                right as int,
            )
        }
    }

    /// Performs neighborhood pruning by evaluating the interval around a split index
    ///
    /// # Arguments
    /// * `score_difference` - The difference in scores used to determine pruning
    /// * `left` - The left boundary of the interval
    /// * `right` - The right boundary of the interval
    /// * `split_index` - The index at which the split is evaluated
    ///
    /// # Returns
    /// A tuple `(new_left_bound, new_right_bound)` representing the pruned interval
    pub fn neighbourhood_pruning(
        &self,
        score_difference: usize,
        left: usize,
        right: usize,
        split_index: usize,
    ) -> (r: (usize, usize))
        requires
            is_sorted(self.splits()),
            self.neighbourhood_defined(score_difference, left, right, split_index),
        ensures
            (r.0 as int, r.1 as int) == self.neighbourhood(score_difference, left, right, split_index),
    {
        let s = self.possible_split_indexes;
        let ghost len = s@.len() as int;
        let score_difference = score_difference + self.max_gap;

        if score_difference == 0 {
            return (split_index + 1, split_index);
        }
        let n = s.len();
        assert(split_index < n);
        // Calculate new left bound
        let mut new_bound_left = split_index + 1;
        if let Some(leftmost) = self.leftmost_zero_index {
            if new_bound_left < leftmost + 1 {
                new_bound_left = leftmost + 1;
            }
        }
        let minimum_right_value = s[split_index] + score_difference + 1;

        if minimum_right_value <= s[right] {
            let ghost l0 = new_bound_left;
            new_bound_left = self.lower_bound(new_bound_left, right, minimum_right_value);
            proof {
                lemma_lower_bound_unique(
                    s@,
                    l0 as int,
                    search_end(len, l0 as int, right as int),
                    minimum_right_value as int,
                    new_bound_left as int,
                );
            }
        } else {
            new_bound_left = right + 1;
        }

        // Calculate new right bound
        let mut new_bound_right = split_index.saturating_sub(1);
        if let Some(rightmost) = self.rightmost_zero_index {
            let r1 = rightmost.saturating_sub(1);
            if new_bound_right > r1 {
                new_bound_right = r1;
            }
        }
        let minimum_left_value = s[split_index].saturating_sub(score_difference + 1);

        if s[split_index] > score_difference && minimum_left_value >= s[left] {
            let ghost r0 = new_bound_right;
            new_bound_right = self.upper_bound(left, new_bound_right, minimum_left_value);
            proof {
                lemma_upper_bound_unique(
                    s@,
                    left as int,
                    search_end(len, left as int, r0 as int),
                    minimum_left_value as int,
                    new_bound_right as int,
                );
            }
        } else {
            new_bound_right = left.saturating_sub(1);
        }

        (new_bound_left, new_bound_right)
    }

    /// Neighbourhood pruning never keeps the evaluated split, and only discards split
    /// positions whose split value is within
    /// the score difference plus the gap of the evaluated split (such a split cannot
    /// beat the best by more than the gap), or beyond a zero index.
    pub proof fn lemma_neighbourhood_discards_only_close_splits(
        &self,
        score_difference: usize,
        left: usize,
        right: usize,
        split: usize,
        k: int,
    )
        requires
            is_sorted(self.splits()),
            self.splits().len() <= usize::MAX,
            self.neighbourhood_defined(score_difference, left, right, split),
            left <= split <= right,
        ensures
            ({
                let (nl, nr) = self.neighbourhood(score_difference, left, right, split);
                nl >= split + 1 && nr <= split
            }),
            ({
                let (nl, nr) = self.neighbourhood(score_difference, left, right, split);
                let s = self.splits();
                let sd = score_difference + self.gap();
                &&& (split < k < nl && k <= right) ==> ((self.leftmost_zero_index is Some && k
                    <= self.leftmost_zero_index->0) || s[k] <= s[split as int] + sd)
                &&& (nr < k < split && left <= k) ==> ((self.rightmost_zero_index is Some && k
                    >= self.rightmost_zero_index->0) || s[k] + sd >= s[split as int])
            }),
    {
        let s = self.splits();
        let len = s.len() as int;
        let sd = score_difference + self.gap();
        if sd > 0 {
            let l0 = self.neighbourhood_left_start(split);
            let min_right = s[split as int] + sd + 1;
            if min_right <= s[right as int] {
                lemma_lower_bound_exists(s, l0, search_end(len, l0, right as int), min_right);
            } else if split < k <= right {
                assert(s[k] <= s[right as int]);
            }
            let r0 = self.neighbourhood_right_start(split);
            let min_left = if s[split as int] >= sd + 1 {
                s[split as int] - (sd + 1)
            } else {
                0
            };
            if s[split as int] >= sd + 1 && min_left >= s[left as int] {
                lemma_upper_bound_exists(s, left as int, search_end(len, left as int, r0), min_left);
                let q = upper_bound_pos(s, left as int, search_end(len, left as int, r0), min_left);
                if q > split {
                    assert(s[split as int] <= min_left);
                }
            } else if left <= k < split {
                assert(s[k] >= s[left as int]);
            }
        }
    }

    /// Candidate `i` may be dropped after split `split` was evaluated against the best
    /// score `best`: it lies beyond a zero index, or its split value is within the
    /// recorded score slack plus the gap of that split, so it cannot beat the best by
    /// more than the gap.
    pub open spec fn prunes_soundly(&self, split: int, i: int, best: int) -> bool {
        let s = self.splits();
        &&& self.record().contains_key(split as usize)
        &&& ({
            let sum = self.record()[split as usize].0 + self.record()[split as usize].1;
            let sd = (if sum >= best {
                sum - best
            } else {
                0
            }) + self.gap();
            &&& i > split ==> (self.leftmost_zero_index is Some && i <= self.leftmost_zero_index->0)
                || s[i] <= s[split] + sd
            &&& i < split ==> (self.rightmost_zero_index is Some && i >= self.rightmost_zero_index->0)
                || s[i] + sd >= s[split]
        })
    }

    /// `after` is `self` once the scores `left_score` and `right_score` of the split at
    /// `index` are recorded (as `add_result` does).
    pub open spec fn result_added(&self, index: usize, left_score: usize, right_score: usize, after: Self) -> bool {
        &&& after.splits() == self.splits()
        &&& after.gap() == self.gap()
        &&& after.leftmost_zero_index == (if left_score == 0 {
            match self.leftmost_zero_index {
                Some(v) => Some(if v >= index { v } else { index }),
                None => Some(index),
            }
        } else {
            self.leftmost_zero_index
        })
        &&& after.rightmost_zero_index == (if right_score == 0 {
            match self.rightmost_zero_index {
                Some(v) => Some(if v <= index { v } else { index }),
                None => Some(index),
            }
        } else {
            self.rightmost_zero_index
        })
        &&& after.record() == self.record().insert(index, recorded_scores(left_score, right_score))
    }

    /// Records the scores of the split at `index`; a zero left (right) score moves the
    /// leftmost (rightmost) zero index, and an unevaluated score (`usize::MAX`) is
    /// recorded as zero.
    pub fn add_result(&mut self, index: usize, left_score: usize, right_score: usize)
        ensures
            old(self).result_added(index, left_score, right_score, *final(self)),
            final(self).possible_split_size == old(self).possible_split_size,
            final(self).splits() == old(self).splits(),
            final(self).gap() == old(self).gap(),
            final(self).leftmost_zero_index == (if left_score == 0 {
                match old(self).leftmost_zero_index {
                    Some(v) => Some(if v >= index { v } else { index }),
                    None => Some(index),
                }
            } else {
                old(self).leftmost_zero_index
            }),
            final(self).rightmost_zero_index == (if right_score == 0 {
                match old(self).rightmost_zero_index {
                    Some(v) => Some(if v <= index { v } else { index }),
                    None => Some(index),
                }
            } else {
                old(self).rightmost_zero_index
            }),
            final(self).record() == old(self).record().insert(
                index,
                (
                    if left_score == usize::MAX {
                        0
                    } else {
                        left_score
                    },
                    if right_score == usize::MAX {
                        0
                    } else {
                        right_score
                    },
                ),
            ),
    {
        let mut left_score = left_score;
        let mut right_score = right_score;
        if left_score == 0 {
            self.leftmost_zero_index = Some(
                match self.leftmost_zero_index {
                    Some(v) => if v >= index {
                        v
                    } else {
                        index
                    },
                    None => index,
                },
            );
        }
        if right_score == 0 {
            self.rightmost_zero_index = Some(
                match self.rightmost_zero_index {
                    Some(v) => if v <= index {
                        v
                    } else {
                        index
                    },
                    None => index,
                },
            );
        }
        if left_score == usize::MAX {
            left_score = 0;
        }
        if right_score == usize::MAX {
            right_score = 0;
        }
        self.evaluated_indices_record.insert(index, (left_score, right_score));
    }


    /// The recorded left and right scores of split `i`, plus the gap.
    pub open spec fn score_sum(&self, i: usize) -> int {
        self.record()[i].0 + self.record()[i].1 + self.gap()
    }

    /// `b` with its ends moved past the zero indices: nothing left of the leftmost
    /// zero-left-score split, nothing right of the rightmost zero-right-score split.
    pub open spec fn zero_clamped(&self, b: Bound) -> Bound {
        Bound {
            left_bound: match self.leftmost_zero_index {
                Some(m) => if b.left_bound >= m + 1 {
                    b.left_bound
                } else {
                    (m + 1) as usize
                },
                None => b.left_bound,
            },
            right_bound: match self.rightmost_zero_index {
                Some(m) => if b.right_bound + 1 <= m {
                    b.right_bound
                } else if m >= 1 {
                    (m - 1) as usize
                } else {
                    0
                },
                None => b.right_bound,
            },
            last_split_left_index: b.last_split_left_index,
            last_split_right_index: b.last_split_right_index,
        }
    }

    /// The split evaluated just left of `c` leaves no room for improvement near it.
    pub open spec fn shrinks_from_left(&self, c: Bound, best: usize) -> bool {
        &&& c.last_split_left_index is Some
        &&& self.record().contains_key(c.last_split_left_index->0)
        &&& self.score_sum(c.last_split_left_index->0) >= best
    }

    /// The split evaluated just right of `c` leaves no room for improvement near it.
    pub open spec fn shrinks_from_right(&self, c: Bound, best: usize) -> bool {
        &&& c.last_split_right_index is Some
        &&& self.record().contains_key(c.last_split_right_index->0)
        &&& self.score_sum(c.last_split_right_index->0) >= best
    }

    /// First split value that may still improve on `best`, right of split `i`.
    pub open spec fn left_extension(&self, i: usize, best: usize) -> int {
        self.splits()[i as int] + (self.score_sum(i) - best) + 1
    }

    /// Last split value that may still improve on `best`, left of split `j`.
    pub open spec fn right_extension(&self, j: usize, best: usize) -> int {
        let d = self.score_sum(j) - best + 1;
        if self.splits()[j as int] >= d {
            self.splits()[j as int] - d
        } else {
            0
        }
    }

    /// `c` after the shrinking driven by the split evaluated left of it.
    pub open spec fn after_left_shrink(&self, c: Bound, best: usize) -> Bound {
        if self.shrinks_from_left(c, best) {
            let ext = self.left_extension(c.last_split_left_index->0, best);
            if ext <= self.splits()[c.right_bound as int] {
                let p = lower_bound_pos(
                    self.splits(),
                    c.left_bound as int,
                    search_end(self.splits().len() as int, c.left_bound as int, c.right_bound as int),
                    ext,
                );
                Bound {
                    left_bound: if c.left_bound >= p {
                        c.left_bound
                    } else {
                        p as usize
                    },
                    right_bound: c.right_bound,
                    last_split_left_index: c.last_split_left_index,
                    last_split_right_index: c.last_split_right_index,
                }
            } else {
                invalid_bound()
            }
        } else {
            c
        }
    }

    /// `d` after the shrinking driven by the split evaluated right of it.
    pub open spec fn after_right_shrink(&self, d: Bound, best: usize) -> Bound {
        if self.shrinks_from_right(d, best) {
            let ext = self.right_extension(d.last_split_right_index->0, best);
            if ext >= self.splits()[d.left_bound as int] {
                let q = upper_bound_pos(
                    self.splits(),
                    d.left_bound as int,
                    search_end(self.splits().len() as int, d.left_bound as int, d.right_bound as int),
                    ext,
                );
                Bound {
                    left_bound: d.left_bound,
                    right_bound: if d.right_bound <= q {
                        d.right_bound
                    } else {
                        q as usize
                    },
                    last_split_left_index: d.last_split_left_index,
                    last_split_right_index: d.last_split_right_index,
                }
            } else {
                invalid_bound()
            }
        } else {
            d
        }
    }

    /// The bound that interval shrinking makes of `b`.
    pub open spec fn shrunk(&self, b: Bound, best: usize) -> Bound {
        self.after_right_shrink(self.after_left_shrink(self.zero_clamped(b), best), best)
    }

    /// The left shrinking step cannot fail on `c`.
    pub open spec fn left_step_defined(&self, c: Bound, best: usize) -> bool {
        let len = self.splits().len() as int;
        &&& (c.last_split_left_index is Some && self.record().contains_key(
            c.last_split_left_index->0,
        )) ==> self.score_sum(c.last_split_left_index->0) <= usize::MAX
        &&& self.shrinks_from_left(c, best) ==> {
            let i = c.last_split_left_index->0;
            &&& i < len
            &&& self.left_extension(i, best) <= usize::MAX
            &&& c.right_bound < len
            &&& self.left_extension(i, best) <= self.splits()[c.right_bound as int] ==> search_defined(
                len,
                c.left_bound as int,
                c.right_bound as int,
            )
        }
    }

    /// The right shrinking step cannot fail on `d`.
    pub open spec fn right_step_defined(&self, d: Bound, best: usize) -> bool {
        let len = self.splits().len() as int;
        &&& (d.last_split_right_index is Some && self.record().contains_key(
            d.last_split_right_index->0,
        )) ==> self.score_sum(d.last_split_right_index->0) <= usize::MAX
        &&& self.shrinks_from_right(d, best) ==> {
            let j = d.last_split_right_index->0;
            &&& j < len
            &&& self.score_sum(j) - best + 1 <= usize::MAX
            &&& d.left_bound < len
            &&& self.right_extension(j, best) >= self.splits()[d.left_bound as int]
                ==> search_defined(len, d.left_bound as int, d.right_bound as int)
        }
    }

    /// Interval shrinking cannot fail on `b`.
    pub open spec fn shrink_defined(&self, b: Bound, best: usize) -> bool {
        &&& (self.leftmost_zero_index is Some ==> self.leftmost_zero_index->0 < usize::MAX)
        &&& self.left_step_defined(self.zero_clamped(b), best)
        &&& self.right_step_defined(self.after_left_shrink(self.zero_clamped(b), best), best)
    }


    /// Split position `k` cannot improve on `best` by more than the gap: it lies
    /// beyond a zero index, or within the score slack of an evaluated split next to `b`.
    pub open spec fn discardable(&self, b: Bound, best: usize, k: int) -> bool {
        let s = self.splits();
        ||| self.leftmost_zero_index is Some && k <= self.leftmost_zero_index->0
        ||| self.rightmost_zero_index is Some && k >= self.rightmost_zero_index->0
        ||| self.shrinks_from_left(b, best) && s[k] <= s[b.last_split_left_index->0 as int]
            + self.score_sum(b.last_split_left_index->0) - best
        ||| self.shrinks_from_right(b, best) && s[k] + self.score_sum(b.last_split_right_index->0)
            - best >= s[b.last_split_right_index->0 as int]
    }

    proof fn lemma_left_step(&self, c: Bound, best: usize, k: int)
        requires
            is_sorted(self.splits()),
            self.splits().len() <= usize::MAX,
            self.left_step_defined(c, best),
        ensures
            ({
                let d = self.after_left_shrink(c, best);
                &&& d != invalid_bound() ==> (d.right_bound == c.right_bound && d.left_bound
                    >= c.left_bound && d.last_split_right_index == c.last_split_right_index)
                &&& (c.left_bound <= k <= c.right_bound && k < self.splits().len() && (d
                    == invalid_bound() || k < d.left_bound)) ==> (self.shrinks_from_left(c, best)
                    && self.splits()[k] <= self.splits()[c.last_split_left_index->0 as int]
                    + self.score_sum(c.last_split_left_index->0) - best)
            }),
    {
        let s = self.splits();
        let len = s.len() as int;
        if self.shrinks_from_left(c, best) {
            let i = c.last_split_left_index->0;
            let ext = self.left_extension(i, best);
            if ext <= s[c.right_bound as int] {
                let hi = search_end(len, c.left_bound as int, c.right_bound as int);
                lemma_lower_bound_exists(s, c.left_bound as int, hi, ext);
            } else if c.left_bound <= k <= c.right_bound && k < len {
                assert(s[k] <= s[c.right_bound as int]);
            }
        }
    }

    proof fn lemma_right_step(&self, d: Bound, best: usize, k: int)
        requires
            is_sorted(self.splits()),
            self.splits().len() <= usize::MAX,
            self.right_step_defined(d, best),
        ensures
            ({
                let e = self.after_right_shrink(d, best);
                &&& e != invalid_bound() ==> (e.left_bound == d.left_bound && e.right_bound
                    <= d.right_bound)
                &&& (d.left_bound <= k <= d.right_bound && k < self.splits().len() && (e
                    == invalid_bound() || k > e.right_bound)) ==> (self.shrinks_from_right(d, best)
                    && self.splits()[k] + self.score_sum(d.last_split_right_index->0) - best
                    >= self.splits()[d.last_split_right_index->0 as int])
            }),
    {
        let s = self.splits();
        let len = s.len() as int;
        if self.shrinks_from_right(d, best) {
            let j = d.last_split_right_index->0;
            let ext = self.right_extension(j, best);
            if ext >= s[d.left_bound as int] {
                let hi = search_end(len, d.left_bound as int, d.right_bound as int);
                lemma_upper_bound_exists(s, d.left_bound as int, hi, ext);
            } else if d.left_bound <= k <= d.right_bound && k < len {
                assert(s[k] >= s[d.left_bound as int]);
            }
        }
    }

    /// Interval shrinking never widens a bound, and every split position that it
    /// removes from `b` is discardable: no split there can beat `best` by more than
    /// the gap.
    pub proof fn lemma_shrinking_discards_only_hopeless_splits(&self, b: Bound, best: usize, k: int)
        requires
            is_sorted(self.splits()),
            self.splits().len() <= usize::MAX,
            self.shrink_defined(b, best),
            b.left_bound <= k <= b.right_bound,
            k < self.splits().len(),
        ensures
            self.shrunk(b, best).spec_is_valid() ==> (self.shrunk(b, best).left_bound >= b.left_bound
                && self.shrunk(b, best).right_bound <= b.right_bound),
            !(self.shrunk(b, best).left_bound <= k <= self.shrunk(b, best).right_bound)
                ==> self.discardable(b, best, k),
    {
        let c = self.zero_clamped(b);
        let d = self.after_left_shrink(c, best);
        let e = self.after_right_shrink(d, best);
        self.lemma_left_step(c, best, k);
        if d != invalid_bound() {
            self.lemma_right_step(d, best, k);
        }
    }

    /// Every recorded split is a candidate and its scores are at most `limit` (unrecorded
    /// scores read as zero); the zero indices are candidates.
    pub open spec fn scores_within(&self, limit: int) -> bool {
        &&& forall|i: usize| #[trigger] self.record().contains_key(i) ==> i < self.splits().len()
            && self.record()[i].0 <= limit && self.record()[i].1 <= limit
        &&& self.leftmost_zero_index is Some ==> self.leftmost_zero_index->0 < self.splits().len()
        &&& self.rightmost_zero_index is Some ==> self.rightmost_zero_index->0 < self.splits().len()
    }

    /// `b` with its ends moved past the zero indices.
    pub fn clamped(&self, b: &Bound) -> (c: Bound)
        requires
            self.leftmost_zero_index is Some ==> self.leftmost_zero_index->0 < usize::MAX,
        ensures
            c == self.zero_clamped(*b),
    {
        let mut c = *b;
        self.clamp_to_zero_indices(&mut c);
        c
    }

    /// With bounded split positions and scores, shrinking a bound whose clamped form is
    /// a non-empty interval of candidates cannot fail.
    pub proof fn lemma_shrinking_defined(&self, b: Bound, best: usize, limit: int)
        requires
            is_sorted(self.splits()),
            0 < self.splits().len() <= usize::MAX,
            0 <= limit,
            5 * limit + 2 <= usize::MAX,
            forall|i: int| 0 <= i < self.splits().len() ==> self.splits()[i] <= limit,
            self.scores_within(limit),
            self.gap() <= limit,
            self.zero_clamped(b).left_bound <= self.zero_clamped(b).right_bound < self.splits().len(),
        ensures
            self.shrink_defined(b, best),
    {
        let s = self.splits();
        let len = s.len() as int;
        let c = self.zero_clamped(b);
        if self.shrinks_from_left(c, best) {
            let i = c.last_split_left_index->0;
            let ext = self.left_extension(i, best);
            if ext <= s[c.right_bound as int] {
                let hi = search_end(len, c.left_bound as int, c.right_bound as int);
                lemma_lower_bound_exists(s, c.left_bound as int, hi, ext);
                let p = lower_bound_pos(s, c.left_bound as int, hi, ext);
                if p > c.right_bound {
                    assert(s[c.right_bound as int] < ext);
                }
            }
        }
    }

    /// With bounded split positions and scores, neighbourhood pruning around a split
    /// inside a non-empty interval of candidates cannot fail.
    pub proof fn lemma_neighbourhood_defined(
        &self,
        score_difference: usize,
        left: usize,
        right: usize,
        split: usize,
        limit: int,
    )
        requires
            0 < self.splits().len() <= usize::MAX,
            0 <= limit,
            5 * limit + 2 <= usize::MAX,
            forall|i: int| 0 <= i < self.splits().len() ==> self.splits()[i] <= limit,
            self.scores_within(limit),
            self.gap() <= limit,
            score_difference <= 2 * limit,
            left <= split <= right < self.splits().len(),
        ensures
            self.neighbourhood_defined(score_difference, left, right, split),
    {
        assert(self.splits()[split as int] <= limit);
    }

    fn clamp_to_zero_indices(&self, current_bounds: &mut Bound)
        requires
            self.leftmost_zero_index is Some ==> self.leftmost_zero_index->0 < usize::MAX,
        ensures
            *final(current_bounds) == self.zero_clamped(*old(current_bounds)),
    {
        if let Some(leftmost) = self.leftmost_zero_index {
            if current_bounds.left_bound < leftmost + 1 {
                current_bounds.left_bound = leftmost + 1;
            }
        }
        if let Some(rightmost) = self.rightmost_zero_index {
            let r = rightmost.saturating_sub(1);
            if current_bounds.right_bound > r {
                current_bounds.right_bound = r;
            }
        }
    }

    /// Returns whether the bound was invalidated.
    fn shrink_left(&self, current_bounds: &mut Bound, current_best_score: usize) -> (invalidated:
        bool)
        requires
            is_sorted(self.splits()),
            self.left_step_defined(*old(current_bounds), current_best_score),
        ensures
            *final(current_bounds) == self.after_left_shrink(*old(current_bounds), current_best_score),
            invalidated ==> *final(current_bounds) == invalid_bound(),
            !invalidated ==> final(current_bounds).last_split_right_index == old(
                current_bounds,
            ).last_split_right_index,
    {
        let ghost c = *current_bounds;
        if let Some(last_left_idx) = current_bounds.last_split_left_index {
            if let Some((left_score, right_score)) = self.recorded(Some(last_left_idx)) {
                let sum = left_score + right_score + self.max_gap;
                if sum >= current_best_score {
                    let updated_score_difference = sum - current_best_score;
                    let extended_left_bound = self.possible_split_indexes[last_left_idx]
                        + updated_score_difference + 1;
                    if extended_left_bound <= self.possible_split_indexes[current_bounds.right_bound] {
                        let new_left_bound = self.lower_bound(
                            current_bounds.left_bound,
                            current_bounds.right_bound,
                            extended_left_bound,
                        );
                        proof {
                            lemma_lower_bound_unique(
                                self.splits(),
                                c.left_bound as int,
                                search_end(
                                    self.splits().len() as int,
                                    c.left_bound as int,
                                    c.right_bound as int,
                                ),
                                extended_left_bound as int,
                                new_left_bound as int,
                            );
                        }
                        if current_bounds.left_bound < new_left_bound {
                            current_bounds.left_bound = new_left_bound;
                        }
                    } else {
                        current_bounds.invalidate();
                        return true;
                    }
                }
            }
        }
        false
    }

    /// Returns whether the bound was invalidated.
    fn shrink_right(&self, current_bounds: &mut Bound, current_best_score: usize) -> (invalidated:
        bool)
        requires
            is_sorted(self.splits()),
            self.right_step_defined(*old(current_bounds), current_best_score),
        ensures
            *final(current_bounds) == self.after_right_shrink(*old(current_bounds), current_best_score),
    {
        let ghost d = *current_bounds;
        if let Some(last_right_idx) = current_bounds.last_split_right_index {
            if let Some((left_score, right_score)) = self.recorded(Some(last_right_idx)) {
                let sum = left_score + right_score + self.max_gap;
                if sum >= current_best_score {
                    let updated_score_difference = sum - current_best_score;
                    let extended_right_bound = self.possible_split_indexes[last_right_idx].saturating_sub(
                        updated_score_difference + 1,
                    );
                    if extended_right_bound >= self.possible_split_indexes[current_bounds.left_bound] {
                        let new_right_bound = self.upper_bound(
                            current_bounds.left_bound,
                            current_bounds.right_bound,
                            extended_right_bound,
                        );
                        proof {
                            lemma_upper_bound_unique(
                                self.splits(),
                                d.left_bound as int,
                                search_end(
                                    self.splits().len() as int,
                                    d.left_bound as int,
                                    d.right_bound as int,
                                ),
                                extended_right_bound as int,
                                new_right_bound as int,
                            );
                        }
                        if current_bounds.right_bound > new_right_bound {
                            current_bounds.right_bound = new_right_bound;
                        }
                    } else {
                        current_bounds.invalidate();
                        return true;
                    }
                }
            }
        }
        false
    }

    /// Performs interval shrinking by narrowing the bounds based on current best score
    ///
    /// # Arguments
    /// * `current_bounds` - The current bounds to be updated by shrinking
    /// * `current_best_score` - The best score to compare against
    pub fn interval_shrinking(&self, current_bounds: &mut Bound, current_best_score: usize)
        requires
            is_sorted(self.splits()),
            self.shrink_defined(*old(current_bounds), current_best_score),
        ensures
            *final(current_bounds) == self.shrunk(*old(current_bounds), current_best_score),
    {
        self.clamp_to_zero_indices(current_bounds);
        let invalidated = self.shrink_left(current_bounds, current_best_score);
        if invalidated {
            return;
        }
        self.shrink_right(current_bounds, current_best_score);
    }

    /// Helper: Find first element >= value (like std::lower_bound)
    fn lower_bound(&self, left: usize, right: usize, value: usize) -> (r: usize)
        requires
            search_defined(self.splits().len() as int, left as int, right as int),
        ensures
            left <= r <= search_end(self.splits().len() as int, left as int, right as int) + 1,
            is_sorted(self.splits()) ==> is_lower_bound(
                self.splits(),
                left as int,
                search_end(self.splits().len() as int, left as int, right as int),
                value as int,
                r as int,
            ),
    {
        let s = self.possible_split_indexes;
        let n = s.len();
        let hi = if left >= right {
            n - 1
        } else {
            right
        };
        assert(hi < n);
        let mut lo = left;
        let mut end = hi + 1;
        while lo < end
            invariant
                left <= lo <= end <= hi + 1,
                hi < s@.len(),
                s@ == self.splits(),
                is_sorted(s@) ==> forall|i: int| left <= i < lo ==> s@[i] < value,
                is_sorted(s@) ==> forall|i: int| end <= i <= hi ==> s@[i] >= value,
            decreases end - lo,
        {
            let mid = lo + (end - lo) / 2;
            if s[mid] < value {
                lo = mid + 1;
            } else {
                end = mid;
            }
        }
        lo
    }

    /// Helper: Find first element > value (like std::upper_bound)
    fn upper_bound(&self, left: usize, right: usize, value: usize) -> (r: usize)
        requires
            search_defined(self.splits().len() as int, left as int, right as int),
        ensures
            left <= r <= search_end(self.splits().len() as int, left as int, right as int) + 1,
            is_sorted(self.splits()) ==> is_upper_bound(
                self.splits(),
                left as int,
                search_end(self.splits().len() as int, left as int, right as int),
                value as int,
                r as int,
            ),
    {
        let s = self.possible_split_indexes;
        let n = s.len();
        let hi = if left >= right {
            n - 1
        } else {
            right
        };
        assert(hi < n);
        let mut lo = left;
        let mut end = hi + 1;
        while lo < end
            invariant
                left <= lo <= end <= hi + 1,
                hi < s@.len(),
                s@ == self.splits(),
                is_sorted(s@) ==> forall|i: int| left <= i < lo ==> s@[i] <= value,
                is_sorted(s@) ==> forall|i: int| end <= i <= hi ==> s@[i] > value,
            decreases end - lo,
        {
            let mid = lo + (end - lo) / 2;
            if s[mid] <= value {
                lo = mid + 1;
            } else {
                end = mid;
            }
        }
        lo
    }
}

/// The scores that are recorded for a split: an unevaluated score (`usize::MAX`) counts
/// as zero.
pub open spec fn recorded_scores(left_score: usize, right_score: usize) -> (usize, usize) {
    (
        if left_score == usize::MAX {
            0
        } else {
            left_score
        },
        if right_score == usize::MAX {
            0
        } else {
            right_score
        },
    )
}

/// After a fresh pruner records the results `rs` (split, left score, right score) one
/// by one, its leftmost zero index is the largest split with a zero left score, its
/// rightmost zero index the smallest split with a zero right score (none when there is
/// no such split), and it holds, for each split recorded, the scores of its last result.
pub proof fn lemma_results_accumulate<'a>(states: Seq<IntervalsPruner<'a>>, rs: Seq<(usize, usize, usize)>)
    requires
        states.len() == rs.len() + 1,
        states[0].record() == Map::<usize, (usize, usize)>::empty(),
        states[0].leftmost_zero_index is None,
        states[0].rightmost_zero_index is None,
        forall|k: int| 0 <= k < rs.len() ==> #[trigger] states[k].result_added(rs[k].0, rs[k].1, rs[k].2, states[k + 1]),
    ensures
        ({
            let p = states.last();
            &&& p.leftmost_zero_index is None <==> forall|k: int| 0 <= k < rs.len() ==> #[trigger] rs[k].1 != 0
            &&& p.leftmost_zero_index matches Some(v) ==> (exists|k: int| 0 <= k < rs.len() && #[trigger] rs[k].1 == 0 && rs[k].0 == v)
                && forall|k: int| 0 <= k < rs.len() && #[trigger] rs[k].1 == 0 ==> rs[k].0 <= v
            &&& p.rightmost_zero_index is None <==> forall|k: int| 0 <= k < rs.len() ==> #[trigger] rs[k].2 != 0
            &&& p.rightmost_zero_index matches Some(v) ==> (exists|k: int| 0 <= k < rs.len() && #[trigger] rs[k].2 == 0 && rs[k].0 == v)
                && forall|k: int| 0 <= k < rs.len() && #[trigger] rs[k].2 == 0 ==> rs[k].0 >= v
            &&& forall|i: usize| #[trigger] p.record().contains_key(i) <==> exists|k: int| 0 <= k < rs.len() && #[trigger] rs[k].0 == i
            &&& forall|i: usize| #[trigger] p.record().contains_key(i) ==> exists|k: int| 0 <= k < rs.len() && #[trigger] rs[k].0 == i
                && p.record()[i] == recorded_scores(rs[k].1, rs[k].2)
                && forall|k2: int| k < k2 < rs.len() ==> #[trigger] rs[k2].0 != i
        }),
    decreases rs.len(),
{
    let n = rs.len() as int;
    if n == 0 {
        return;
    }
    let ps = states.drop_last();
    let qs = rs.drop_last();
    assert forall|k: int| 0 <= k < qs.len() implies #[trigger] ps[k].result_added(qs[k].0, qs[k].1, qs[k].2, ps[k + 1]) by {
        assert(states[k].result_added(rs[k].0, rs[k].1, rs[k].2, states[k + 1]));
    }
    lemma_results_accumulate(ps, qs);
    let before = ps.last();
    let after = states.last();
    let (idx, l, r) = rs[n - 1];
    assert(before == states[n - 1]);
    assert(states[n - 1].result_added(rs[n - 1].0, rs[n - 1].1, rs[n - 1].2, states[n]));
    assert(after == states[n]);
    assert forall|k: int| 0 <= k < n - 1 implies #[trigger] qs[k] == rs[k] by {}
    // leftmost
    if after.leftmost_zero_index is None {
        assert forall|k: int| 0 <= k < n implies #[trigger] rs[k].1 != 0 by {
            if k < n - 1 {
                assert(qs[k] == rs[k]);
                assert(qs[k].1 != 0);
            }
        }
    } else {
        if l != 0 {
            assert(before.leftmost_zero_index is Some);
        }
    }
    if let Some(v) = after.leftmost_zero_index {
        if l == 0 && (before.leftmost_zero_index is None || before.leftmost_zero_index->0 < idx) {
            assert(rs[n - 1].1 == 0 && rs[n - 1].0 == v);
        } else {
            let k = choose|k: int| 0 <= k < qs.len() && #[trigger] qs[k].1 == 0 && qs[k].0 == v;
            assert(rs[k] == qs[k]);
        }
        assert forall|k: int| 0 <= k < n && #[trigger] rs[k].1 == 0 implies rs[k].0 <= v by {
            if k < n - 1 {
                assert(qs[k] == rs[k]);
                assert(qs[k].1 == 0);
            }
        }
    }
    if after.leftmost_zero_index is None {
    } else if (forall|k: int| 0 <= k < n ==> #[trigger] rs[k].1 != 0) {
        if l == 0 {
            assert(rs[n - 1].1 == 0);
        } else {
            let k = choose|k: int| 0 <= k < qs.len() && #[trigger] qs[k].1 == 0 && qs[k].0 == before.leftmost_zero_index->0;
            assert(rs[k].1 == 0);
        }
    }
    // rightmost
    if after.rightmost_zero_index is None {
        assert forall|k: int| 0 <= k < n implies #[trigger] rs[k].2 != 0 by {
            if k < n - 1 {
                assert(qs[k] == rs[k]);
                assert(qs[k].2 != 0);
            }
        }
    } else {
        if r != 0 {
            assert(before.rightmost_zero_index is Some);
        }
    }
    if let Some(v) = after.rightmost_zero_index {
        if r == 0 && (before.rightmost_zero_index is None || before.rightmost_zero_index->0 > idx) {
            assert(rs[n - 1].2 == 0 && rs[n - 1].0 == v);
        } else {
            let k = choose|k: int| 0 <= k < qs.len() && #[trigger] qs[k].2 == 0 && qs[k].0 == v;
            assert(rs[k] == qs[k]);
        }
        assert forall|k: int| 0 <= k < n && #[trigger] rs[k].2 == 0 implies rs[k].0 >= v by {
            if k < n - 1 {
                assert(qs[k] == rs[k]);
                assert(qs[k].2 == 0);
            }
        }
    }
    if after.rightmost_zero_index is None {
    } else if (forall|k: int| 0 <= k < n ==> #[trigger] rs[k].2 != 0) {
        if r == 0 {
            assert(rs[n - 1].2 == 0);
        } else {
            let k = choose|k: int| 0 <= k < qs.len() && #[trigger] qs[k].2 == 0 && qs[k].0 == before.rightmost_zero_index->0;
            assert(rs[k].2 == 0);
        }
    }
    // record
    assert forall|i: usize| #[trigger] after.record().contains_key(i) <==> exists|k: int| 0 <= k < n && #[trigger] rs[k].0 == i by {
        if after.record().contains_key(i) && i != idx {
            assert(before.record().contains_key(i));
            let k = choose|k: int| 0 <= k < qs.len() && #[trigger] qs[k].0 == i;
            assert(rs[k].0 == i);
        }
        if i == idx {
            assert(rs[n - 1].0 == i);
        }
        if exists|k: int| 0 <= k < n && #[trigger] rs[k].0 == i {
            let k = choose|k: int| 0 <= k < n && #[trigger] rs[k].0 == i;
            if k < n - 1 {
                assert(qs[k].0 == i);
                assert(before.record().contains_key(i));
            }
        }
    }
    assert forall|i: usize| #[trigger] after.record().contains_key(i) implies exists|k: int| 0 <= k < n && #[trigger] rs[k].0 == i
        && after.record()[i] == recorded_scores(rs[k].1, rs[k].2)
        && forall|k2: int| k < k2 < n ==> #[trigger] rs[k2].0 != i by {
        if i == idx {
            assert(rs[n - 1].0 == i && after.record()[i] == recorded_scores(rs[n - 1].1, rs[n - 1].2));
        } else {
            assert(before.record().contains_key(i));
            let k = choose|k: int| 0 <= k < qs.len() && #[trigger] qs[k].0 == i
                && before.record()[i] == recorded_scores(qs[k].1, qs[k].2)
                && forall|k2: int| k < k2 < qs.len() ==> #[trigger] qs[k2].0 != i;
            assert(rs[k] == qs[k]);
            assert forall|k2: int| k < k2 < n implies #[trigger] rs[k2].0 != i by {
                if k2 < n - 1 {
                    assert(qs[k2] == rs[k2]);
                }
            }
        }
    }
}

} // verus!
