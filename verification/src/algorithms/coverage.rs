use super::interval_pruner::{is_sorted, Bound, IntervalsPruner};
use vstd::prelude::*;

verus! {

/// What a search of one feature has learnt: the candidate split positions, the
/// recorded `(left, right)` scores of the evaluated candidates, the leftmost
/// zero-left-score and rightmost zero-right-score candidates, the gap, and for each
/// evaluated candidate the error its two sides were found to have (the larger side's
/// alone when the smaller was not searched).
pub type SplitTrace = (
    Seq<usize>,
    Map<usize, (usize, usize)>,
    Option<usize>,
    Option<usize>,
    nat,
    Map<usize, int>,
);

/// The trace that a pruner holds, with the errors found for the evaluated candidates.
pub open spec fn trace_of_pruner<'a>(p: IntervalsPruner<'a>, found: Map<usize, int>) -> SplitTrace {
    (p.splits(), p.record(), p.leftmost_zero_index, p.rightmost_zero_index, p.gap(), found)
}

/// Recorded scores of candidate `idx`, zero when there is none.
pub open spec fn score_at(tr: SplitTrace, idx: Option<usize>) -> (int, int) {
    match idx {
        Some(i) => if tr.1.contains_key(i) {
            (tr.1[i].0 as int, tr.1[i].1 as int)
        } else {
            (0, 0)
        },
        None => (0, 0),
    }
}

/// Candidate `k` lies left of (or at) a candidate whose left side has no error, or
/// right of (or at) one whose right side has none: it cannot do better there.
pub open spec fn zero_excluded(tr: SplitTrace, k: int) -> bool {
    ||| tr.2 matches Some(m) && k <= m
    ||| tr.3 matches Some(m) && k >= m
}

/// Candidate `k` lies within the slack (plus the gap) of the evaluated candidate `j`:
/// the error found for `j` above the best `best`. Moving the split from `j` to `k`
/// moves fewer samples than that slack, so `k` cannot beat the best by more than the
/// gap.
pub open spec fn near(tr: SplitTrace, j: int, k: int, best: int) -> bool {
    &&& 0 <= j < tr.0.len()
    &&& tr.5.contains_key(j as usize)
    &&& ({
        let sd = (if tr.5[j as usize] >= best {
            tr.5[j as usize] - best
        } else {
            0
        }) + tr.4;
        &&& k > j ==> tr.0[k] <= tr.0[j] + sd
        &&& k < j ==> tr.0[k] + sd >= tr.0[j]
    })
}

/// Every recorded candidate has a found error, at least the sum of its recorded
/// scores.
pub open spec fn found_covers_record<'a>(p: IntervalsPruner<'a>, found: Map<usize, int>) -> bool {
    forall|i: usize| #[trigger] p.record().contains_key(i) ==> found.contains_key(i) && p.record()[i].0
        + p.record()[i].1 <= found[i]
}

/// Candidate `k` lies between two candidates `a` and `c` (or an end of the list)
/// whose left score of `a` plus right score of `c` plus the gap reaches the best: no
/// split between them can beat the best by more than the gap.
pub open spec fn bracketed_by(tr: SplitTrace, a: Option<usize>, c: Option<usize>, k: int, best: int) -> bool {
    &&& a matches Some(x) ==> x < k
    &&& c matches Some(y) ==> k < y
    &&& score_at(tr, a).0 + score_at(tr, c).1 + tr.4 >= best
}

/// Some bracket discards candidate `k`.
pub open spec fn bracketed(tr: SplitTrace, k: int, best: int) -> bool {
    exists|a: Option<usize>, c: Option<usize>| #[trigger] bracketed_by(tr, a, c, k, best)
}

/// Candidate `k` was evaluated: the error found for its two sides is at least the
/// node's best (or the bound above the node, when that is lower).
pub open spec fn evaluated(tr: SplitTrace, k: int, best: int, ub: int) -> bool {
    &&& tr.5.contains_key(k as usize)
    &&& (if best <= ub {
        best
    } else {
        ub
    }) <= tr.5[k as usize]
}

/// `tr2` knows all that `tr1` knew: the same candidates and gap, the same recorded
/// scores (and maybe more), and zero indices that reach at least as far.
pub open spec fn extends(tr2: SplitTrace, tr1: SplitTrace) -> bool {
    &&& tr2.0 == tr1.0
    &&& tr2.4 == tr1.4
    &&& forall|i: usize| #[trigger] tr1.1.contains_key(i) ==> tr2.1.contains_key(i) && tr2.1[i] == tr1.1[i]
    &&& forall|i: usize| #[trigger] tr1.5.contains_key(i) ==> tr2.5.contains_key(i) && tr2.5[i] == tr1.5[i]
    &&& (tr1.2 matches Some(m) ==> tr2.2 matches Some(m2) && m2 >= m)
    &&& (tr1.3 matches Some(m) ==> tr2.3 matches Some(m2) && m2 <= m)
}

/// Candidate `k` is dropped by a pruning rule: a zero index, the slack of an
/// evaluated candidate, or a bracket.
pub open spec fn pruned_by_rule(tr: SplitTrace, k: int, best: int) -> bool {
    ||| zero_excluded(tr, k)
    ||| bracketed(tr, k, best)
    ||| exists|j: int| #[trigger] near(tr, j, k, best)
}

/// Candidate `k` lies in bound `b`.
pub open spec fn in_bound(b: Bound, k: int) -> bool {
    b.left_bound <= k <= b.right_bound
}

/// Candidate `k` lies in some bound of `q`.
pub open spec fn queued(q: Seq<Bound>, k: int) -> bool {
    exists|i: int| 0 <= i < q.len() && #[trigger] in_bound(q[i], k)
}

/// What the rules say stays true as more is learnt and the best improves.
pub proof fn lemma_rule_monotone(tr1: SplitTrace, tr2: SplitTrace, k: int, b1: int, b2: int)
    requires
        extends(tr2, tr1),
        b2 <= b1,
        pruned_by_rule(tr1, k, b1),
    ensures
        pruned_by_rule(tr2, k, b2),
{
    if zero_excluded(tr1, k) {
        assert(zero_excluded(tr2, k));
    } else if bracketed(tr1, k, b1) {
        let (a, c) = choose|a: Option<usize>, c: Option<usize>| #[trigger] bracketed_by(tr1, a, c, k, b1);
        if let Some(x) = a {
            if tr1.1.contains_key(x) {
                assert(tr2.1.contains_key(x));
            }
        }
        if let Some(y) = c {
            if tr1.1.contains_key(y) {
                assert(tr2.1.contains_key(y));
            }
        }
        let a2: Option<usize> = match a {
            Some(x) => if tr1.1.contains_key(x) {
                Some(x)
            } else {
                None
            },
            None => None,
        };
        let c2: Option<usize> = match c {
            Some(y) => if tr1.1.contains_key(y) {
                Some(y)
            } else {
                None
            },
            None => None,
        };
        assert(bracketed_by(tr2, a2, c2, k, b2));
    } else {
        let j = choose|j: int| #[trigger] near(tr1, j, k, b1);
        assert(tr2.5.contains_key(j as usize));
        assert(near(tr2, j, k, b2));
    }
}

/// Evaluation results stay valid as more is learnt and the best improves.
pub proof fn lemma_evaluated_monotone(tr1: SplitTrace, tr2: SplitTrace, k: int, b1: int, b2: int, u1: int, u2: int)
    requires
        extends(tr2, tr1),
        b2 <= b1,
        (if b2 <= u2 {
            b2
        } else {
            u2
        }) <= (if b1 <= u1 {
            b1
        } else {
            u1
        }),
        evaluated(tr1, k, b1, u1),
    ensures
        evaluated(tr2, k, b2, u2),
{
    assert(tr2.5.contains_key(k as usize));
}

/// A candidate that interval shrinking removes is dropped by a rule, when the bound's
/// evaluated neighbours lie outside it.
pub proof fn lemma_discardable_is_rule<'a>(p: IntervalsPruner<'a>, found: Map<usize, int>, b: Bound, best: usize, k: int)
    requires
        p.discardable(b, best, k),
        found_covers_record(p, found),
        b.last_split_left_index matches Some(x) ==> x < k,
        b.last_split_right_index matches Some(y) ==> k < y,
        b.last_split_left_index matches Some(x) ==> x < p.splits().len(),
        b.last_split_right_index matches Some(y) ==> y < p.splits().len(),
    ensures
        pruned_by_rule(trace_of_pruner(p, found), k, best as int),
{
    let tr = trace_of_pruner(p, found);
    if zero_excluded(tr, k) {
    } else if p.shrinks_from_left(b, best) && p.splits()[k] <= p.splits()[b.last_split_left_index->0 as int]
        + p.score_sum(b.last_split_left_index->0) - best {
        let j = b.last_split_left_index->0 as int;
        assert(near(tr, j, k, best as int));
    } else {
        let j = b.last_split_right_index->0 as int;
        assert(near(tr, j, k, best as int));
    }
}

/// A candidate outside the zero-clamped form of a bound that held it lies beyond a
/// zero index.
pub proof fn lemma_clamped_out<'a>(p: IntervalsPruner<'a>, found: Map<usize, int>, b: Bound, k: int)
    requires
        in_bound(b, k),
        !in_bound(p.zero_clamped(b), k),
    ensures
        zero_excluded(trace_of_pruner(p, found), k),
{
}

/// A candidate between the evaluated neighbours of a bound whose scores, with the
/// gap, reach the best is bracketed.
pub proof fn lemma_bracketed<'a>(p: IntervalsPruner<'a>, found: Map<usize, int>, b: Bound, best: usize, k: int)
    requires
        p.left_score_at(b.last_split_left_index) + p.right_score_at(b.last_split_right_index) + p.gap()
            >= best,
        b.last_split_left_index matches Some(x) ==> x < k,
        b.last_split_right_index matches Some(y) ==> k < y,
    ensures
        pruned_by_rule(trace_of_pruner(p, found), k, best as int),
{
    assert(bracketed_by(
        trace_of_pruner(p, found),
        b.last_split_left_index,
        b.last_split_right_index,
        k,
        best as int,
    ));
}

/// A candidate that neighbourhood pruning around the evaluated `split` drops, with the
/// slack of the error found for it, is dropped by a rule.
pub proof fn lemma_neighbourhood_rule<'a>(
    p: IntervalsPruner<'a>,
    found: Map<usize, int>,
    score_difference: usize,
    left: usize,
    right: usize,
    split: usize,
    best: usize,
    k: int,
)
    requires
        is_sorted(p.splits()),
        p.splits().len() <= usize::MAX,
        p.neighbourhood_defined(score_difference, left, right, split),
        left <= split <= right,
        found.contains_key(split),
        score_difference == (if found[split] >= best {
            found[split] - best
        } else {
            0
        }),
        left <= k <= right,
        k != split,
        ({
            let (nl, nr) = p.neighbourhood(score_difference, left, right, split);
            (split < k < nl) || (nr < k < split)
        }),
    ensures
        pruned_by_rule(trace_of_pruner(p, found), k, best as int),
{
    p.lemma_neighbourhood_discards_only_close_splits(score_difference, left, right, split, k);
    let tr = trace_of_pruner(p, found);
    if !zero_excluded(tr, k) {
        assert(near(tr, split as int, k, best as int));
    }
}

/// The two bounds share no candidate.
pub open spec fn disjoint(a: Bound, b: Bound) -> bool {
    a.right_bound < b.left_bound || b.right_bound < a.left_bound
}

/// The queued bounds are non-empty intervals of the `ns` candidates, each strictly
/// between the evaluated candidates it names; no two share a candidate, and none holds
/// a candidate that `rec` records.
pub open spec fn queue_ok(q: Seq<Bound>, rec: Map<usize, (usize, usize)>, ns: int) -> bool {
    &&& forall|i: int|
        0 <= i < q.len() ==> (#[trigger] q[i]).left_bound <= q[i].right_bound && q[i].right_bound < ns && (
        q[i].last_split_left_index matches Some(x) ==> x < q[i].left_bound) && (
        q[i].last_split_right_index matches Some(y) ==> q[i].right_bound < y && y < ns)
    &&& forall|i: int, j: int|
        0 <= i < q.len() && 0 <= j < q.len() && i != j ==> disjoint(#[trigger] q[i], #[trigger] q[j])
    &&& forall|i: int, k: int| 0 <= i < q.len() && #[trigger] in_bound(q[i], k) ==> !rec.contains_key(k as usize)
}

/// Popping the first bound keeps the queue in order; the popped bound shares no
/// candidate with those left.
pub proof fn lemma_queue_pop(q: Seq<Bound>, rec: Map<usize, (usize, usize)>, ns: int)
    requires
        queue_ok(q, rec, ns),
        q.len() >= 1,
    ensures
        queue_ok(q.skip(1), rec, ns),
        forall|i: int| 0 <= i < q.len() - 1 ==> disjoint(q[0], #[trigger] q.skip(1)[i]),
{
    let r = q.skip(1);
    assert forall|i: int, j: int| 0 <= i < r.len() && 0 <= j < r.len() && i != j implies disjoint(
        #[trigger] r[i],
        #[trigger] r[j],
    ) by {
        assert(r[i] == q[i + 1] && r[j] == q[j + 1]);
    }
    assert forall|i: int, k: int| 0 <= i < r.len() && #[trigger] in_bound(r[i], k) implies !rec.contains_key(
        k as usize,
    ) by {
        assert(r[i] == q[i + 1]);
        assert(in_bound(q[i + 1], k));
    }
    assert forall|i: int| 0 <= i < q.len() - 1 implies disjoint(q[0], #[trigger] q.skip(1)[i]) by {
        assert(r[i] == q[i + 1]);
        assert(disjoint(q[0], q[i + 1]));
    }
}

/// Appending a bound that fits the rules and shares no candidate with the queue keeps
/// the queue in order.
pub proof fn lemma_queue_push(q: Seq<Bound>, rec: Map<usize, (usize, usize)>, ns: int, b: Bound)
    requires
        queue_ok(q, rec, ns),
        b.left_bound <= b.right_bound < ns,
        b.last_split_left_index matches Some(x) ==> x < b.left_bound,
        b.last_split_right_index matches Some(y) ==> b.right_bound < y && y < ns,
        forall|i: int| 0 <= i < q.len() ==> disjoint(b, #[trigger] q[i]),
        forall|k: int| #[trigger] in_bound(b, k) ==> !rec.contains_key(k as usize),
    ensures
        queue_ok(q.push(b), rec, ns),
{
    let r = q.push(b);
    assert forall|i: int| 0 <= i < r.len() implies (#[trigger] r[i]).left_bound <= r[i].right_bound
        && r[i].right_bound < ns && (r[i].last_split_left_index matches Some(x) ==> x < r[i].left_bound) && (
    r[i].last_split_right_index matches Some(y) ==> r[i].right_bound < y && y < ns) by {
        if i < q.len() {
            assert(r[i] == q[i]);
        }
    }
    assert forall|i: int, j: int| 0 <= i < r.len() && 0 <= j < r.len() && i != j implies disjoint(
        #[trigger] r[i],
        #[trigger] r[j],
    ) by {
        if i < q.len() && j < q.len() {
            assert(disjoint(q[i], q[j]));
        } else if i < q.len() {
            assert(disjoint(b, q[i]));
        } else {
            assert(disjoint(b, q[j]));
        }
    }
    assert forall|i: int, k: int| 0 <= i < r.len() && #[trigger] in_bound(r[i], k) implies !rec.contains_key(
        k as usize,
    ) by {
        if i < q.len() {
            assert(r[i] == q[i]);
            assert(in_bound(q[i], k));
        } else {
            assert(in_bound(b, k));
        }
    }
}

/// Recording a candidate that no queued bound holds keeps the queue in order.
pub proof fn lemma_queue_record(q: Seq<Bound>, rec: Map<usize, (usize, usize)>, ns: int, k0: usize, v: (usize, usize))
    requires
        queue_ok(q, rec, ns),
        forall|i: int| 0 <= i < q.len() ==> !in_bound(#[trigger] q[i], k0 as int),
    ensures
        queue_ok(q, rec.insert(k0, v), ns),
{
    assert forall|i: int, k: int| 0 <= i < q.len() && #[trigger] in_bound(q[i], k) implies !rec.insert(
        k0,
        v,
    ).contains_key(k as usize) by {
        if k as usize == k0 {
            assert(k == k0);
        }
    }
}

} // verus!
