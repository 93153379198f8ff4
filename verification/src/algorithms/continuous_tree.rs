use super::coverage::{
    bracketed_by, disjoint, evaluated, extends, found_covers_record, in_bound, lemma_bracketed, lemma_clamped_out,
    lemma_discardable_is_rule, lemma_evaluated_monotone, lemma_neighbourhood_rule, lemma_queue_pop,
    lemma_queue_push, lemma_queue_record, lemma_rule_monotone, pruned_by_rule, queue_ok, queued,
    trace_of_pruner, SplitTrace,
};
use super::interval_pruner::{is_sorted, recorded_scores, Bound, IntervalsPruner};
use super::search::{
    bound_size, child_entry, describes, errors_within, leaf, leaf_error, lemma_pending_pop,
    lemma_pending_push, mark_pruned, mirrors, now, pending, root_unindexed, solution_from, solution_tree, within_time, TreeNode,
};
use super::{picks_point, pick_point, point_selectable, thread_rng};
use crate::caching::{Cache, Entry};
use crate::common::{lemma_max_count_bounds, PointSelector, SearchConfig, Statistics, SEARCH_LIMIT};
use crate::data::view::{is_split_position, label_counts, side, split_positions, tids, DataView};
use crate::data::{DataPoint, Dataset};
use rand::rngs::ThreadRng;
use std::collections::VecDeque;
use std::time::Instant;
use vstd::prelude::*;

verus! {

/// The view's sizes stay within the search's limit.
pub open spec fn view_within(view: &DataView) -> bool {
    &&& view.wf()
    &&& view.points().len() <= SEARCH_LIMIT
    &&& forall|g: int| 0 <= g < view.spec_num_features() ==> #[trigger] view.column(g).len() <= SEARCH_LIMIT
}

/// Splitting `view` on feature `f` at position `pos` leaves at least `min_sup` samples
/// on each side.
pub open spec fn supported_split(view: &DataView, f: int, pos: int, min_sup: usize) -> bool {
    let chosen = tids(view.column(f).take(pos));
    &&& side(view.points(), chosen, true).len() >= min_sup
    &&& side(view.points(), chosen, false).len() >= min_sup
}

/// What a search of a feature may leave in the node's best entry: unchanged, or
/// better and then a split of that feature at a position where its value
/// changes, with enough samples on each side, whose key is the split threshold; when
/// no cache is used, its error is at most that of the two sides as leaves.
pub open spec fn feature_result(
    view: &DataView,
    f: int,
    min_sup: usize,
    before: Entry,
    after: Entry,
    uncached: bool,
) -> bool {
    &&& after.error < before.error || after == before
    &&& after.error < before.error ==> {
        &&& after.feature == f
        &&& exists|pos: int| #![trigger is_split_position(view.column(f), pos)]
            is_split_position(view.column(f), pos) && supported_split(view, f, pos, min_sup)
                && after.split == view.column(f)[pos].value && (uncached ==> after.error
                <= split_leaf_error(view, f, pos))
    }
}

/// Errors of the two sides of the split of `view` on feature `f` at position `pos`,
/// each predicting its majority label.
pub open spec fn split_leaf_error(view: &DataView, f: int, pos: int) -> int {
    let chosen = tids(view.column(f).take(pos));
    leaf_error(side(view.points(), chosen, true), view.spec_num_labels() as nat) + leaf_error(
        side(view.points(), chosen, false),
        view.spec_num_labels() as nat,
    )
}

/// Every split position of feature `f` leaves at least `min_sup` samples on each side.
pub open spec fn all_supported(view: &DataView, f: int, min_sup: usize) -> bool {
    forall|pos: int| #![trigger is_split_position(view.column(f), pos)]
        is_split_position(view.column(f), pos) ==> supported_split(view, f, pos, min_sup)
}

/// Candidate `k` (an index into the trace's candidates) of feature `f` is accounted
/// for: evaluated, the error found for its two sides being at least `min(best, ub)`
/// (and, without a cache, at most that of the two sides as leaves), or dropped by a
/// pruning rule against `best`.
pub open spec fn covered(
    view: &DataView,
    f: int,
    tr: SplitTrace,
    best: int,
    ub: int,
    uncached: bool,
    k: int,
) -> bool {
    ||| evaluated(tr, k, best, ub) && (uncached ==> tr.5[k as usize] <= split_leaf_error(view, f, tr.0[k] as int))
    ||| pruned_by_rule(tr, k, best)
}

/// The trace's candidates are the split positions of feature `f`, in increasing order.
pub open spec fn trace_of(view: &DataView, f: int, tr: SplitTrace) -> bool {
    &&& forall|i: int, j: int| 0 <= i < j < tr.0.len() ==> tr.0[i] < tr.0[j]
    &&& forall|j: int| 0 <= j < tr.0.len() ==> is_split_position(view.column(f), #[trigger] tr.0[j] as int)
    &&& forall|i: int| is_split_position(view.column(f), i) ==> exists|j: int| 0 <= j < tr.0.len() && #[trigger] tr.0[j] == i
}

/// The search of feature `f` accounted for every split position of the feature: for
/// each, the error found for its two sides is at least `min(best, ub)` (without a
/// cache: so are the errors of its two sides as leaves), or a pruning rule with gap
/// `gap` shows it cannot beat `best` by more than the gap.
pub open spec fn feature_covered(view: &DataView, f: int, gap: nat, best: int, ub: int, uncached: bool) -> bool {
    exists|tr: SplitTrace|
        #[trigger] trace_of(view, f, tr) && tr.4 == gap && forall|k: int|
            0 <= k < tr.0.len() ==> #[trigger] covered(view, f, tr, best, ub, uncached, k)
}

/// Accounting stays valid as more is learnt and the best improves.
pub proof fn lemma_covered_monotone(
    view: &DataView,
    f: int,
    tr1: SplitTrace,
    tr2: SplitTrace,
    b1: int,
    b2: int,
    u1: int,
    u2: int,
    uncached: bool,
    k: int,
)
    requires
        extends(tr2, tr1),
        b2 <= b1,
        (if b2 <= u2 {
            b2
        } else {
            u2
        }) <= (if b1 <= u1 {
            b1
        } else {
            u1
        }),
        covered(view, f, tr1, b1, u1, uncached, k),
    ensures
        covered(view, f, tr2, b2, u2, uncached, k),
{
    if evaluated(tr1, k, b1, u1) && (uncached ==> tr1.5[k as usize] <= split_leaf_error(view, f, tr1.0[k] as int)) {
        lemma_evaluated_monotone(tr1, tr2, k, b1, b2, u1, u2);
    } else {
        lemma_rule_monotone(tr1, tr2, k, b1, b2);
    }
}

/// A feature's accounting stays valid as the node's best improves.
pub proof fn lemma_feature_covered_monotone(
    view: &DataView,
    f: int,
    gap: nat,
    b1: int,
    b2: int,
    u1: int,
    u2: int,
    uncached: bool,
)
    requires
        feature_covered(view, f, gap, b1, u1, uncached),
        b2 <= b1,
        (if b2 <= u2 {
            b2
        } else {
            u2
        }) <= (if b1 <= u1 {
            b1
        } else {
            u1
        }),
    ensures
        feature_covered(view, f, gap, b2, u2, uncached),
{
    let tr = choose|tr: SplitTrace|
        #[trigger] trace_of(view, f, tr) && tr.4 == gap && forall|k: int|
            0 <= k < tr.0.len() ==> #[trigger] covered(view, f, tr, b1, u1, uncached, k);
    assert forall|k: int| 0 <= k < tr.0.len() implies #[trigger] covered(view, f, tr, b2, u2, uncached, k) by {
        lemma_covered_monotone(view, f, tr, tr, b1, b2, u1, u2, uncached, k);
    }
}

/// With no error left to beat, every candidate is accounted for.
pub proof fn lemma_covered_at_zero(view: &DataView, f: int, tr: SplitTrace, ub: int, uncached: bool)
    requires
        trace_of(view, f, tr),
    ensures
        feature_covered(view, f, tr.4, 0, ub, uncached),
{
    assert forall|k: int| 0 <= k < tr.0.len() implies #[trigger] covered(view, f, tr, 0, ub, uncached, k) by {
        assert(bracketed_by(tr, None, None, k, 0));
    }
}

/// What is accounted for, or still queued, stays so as more is learnt, the best
/// improves and bounds are appended to the rest of the queue.
proof fn lemma_carry(
    view: &DataView,
    f: int,
    tr1: SplitTrace,
    tr2: SplitTrace,
    b1: int,
    b2: int,
    ub: int,
    uncached: bool,
    rest: Seq<Bound>,
    q: Seq<Bound>,
    k: int,
)
    requires
        extends(tr2, tr1),
        b2 <= b1,
        rest.len() <= q.len(),
        forall|i: int| 0 <= i < rest.len() ==> q[i] == rest[i],
        covered(view, f, tr1, b1, ub, uncached, k) || queued(rest, k),
    ensures
        covered(view, f, tr2, b2, ub, uncached, k) || queued(q, k),
{
    if covered(view, f, tr1, b1, ub, uncached, k) {
        lemma_covered_monotone(view, f, tr1, tr2, b1, b2, ub, ub, uncached, k);
    } else {
        let i = choose|i: int| 0 <= i < rest.len() && #[trigger] in_bound(rest[i], k);
        assert(in_bound(q[i], k));
    }
}

/// Every candidate is accounted for or queued, when all split positions have support.
pub open spec fn accounted(
    view: &DataView,
    f: int,
    min_sup: usize,
    tr: SplitTrace,
    best: int,
    ub: int,
    uncached: bool,
    q: Seq<Bound>,
) -> bool {
    all_supported(view, f, min_sup) ==> forall|k: int|
        0 <= k < tr.0.len() ==> #[trigger] covered(view, f, tr, best, ub, uncached, k) || queued(q, k)
}

/// After popping the first bound of `q1`, the accounting holds again once every
/// candidate of the popped bound is accounted for or queued anew.
proof fn lemma_pop_step(
    view: &DataView,
    f: int,
    min_sup: usize,
    tr1: SplitTrace,
    tr2: SplitTrace,
    b1: int,
    b2: int,
    ub: int,
    uncached: bool,
    q1: Seq<Bound>,
    q2: Seq<Bound>,
)
    requires
        accounted(view, f, min_sup, tr1, b1, ub, uncached, q1),
        q1.len() >= 1,
        extends(tr2, tr1),
        b2 <= b1,
        q1.len() - 1 <= q2.len(),
        forall|i: int| 0 <= i < q1.len() - 1 ==> q2[i] == q1[i + 1],
        all_supported(view, f, min_sup) ==> forall|k: int|
            0 <= k < tr1.0.len() && #[trigger] in_bound(q1[0], k) ==> covered(view, f, tr2, b2, ub, uncached, k)
                || queued(q2, k),
    ensures
        accounted(view, f, min_sup, tr2, b2, ub, uncached, q2),
{
    if all_supported(view, f, min_sup) {
        assert forall|k: int| 0 <= k < tr2.0.len() implies #[trigger] covered(view, f, tr2, b2, ub, uncached, k)
            || queued(q2, k) by {
            if !in_bound(q1[0], k) {
                let rest = q1.skip(1);
                if !covered(view, f, tr1, b1, ub, uncached, k) {
                    let i = choose|i: int| 0 <= i < q1.len() && #[trigger] in_bound(q1[i], k);
                    assert(in_bound(rest[i - 1], k));
                }
                lemma_carry(view, f, tr1, tr2, b1, b2, ub, uncached, rest, q2, k);
            }
        }
    }
}

/// After the split at `sp` of the shrunk bound `b` (popped from `q1`) was evaluated and
/// neighbourhood pruning gave `(nl, nr)`, every candidate of the popped bound is
/// accounted for or queued again, once the parts of `b` beyond the pruned
/// neighbourhood are queued.
proof fn lemma_after_split<'a>(
    view: &DataView,
    f: int,
    min_sup: usize,
    uc: bool,
    ub: int,
    p: IntervalsPruner<'a>,
    found: Map<usize, int>,
    tr1: SplitTrace,
    b1: int,
    best: usize,
    q1: Seq<Bound>,
    q2: Seq<Bound>,
    b: Bound,
    sp: usize,
    score_difference: usize,
)
    requires
        accounted(view, f, min_sup, tr1, b1, ub, uc, q1),
        q1.len() >= 1,
        extends(trace_of_pruner(p, found), tr1),
        best <= b1,
        q1.len() - 1 <= q2.len(),
        forall|i: int| 0 <= i < q1.len() - 1 ==> q2[i] == q1[i + 1],
        forall|k: int|
            0 <= k < tr1.0.len() && in_bound(q1[0], k) && !in_bound(b, k) ==> #[trigger] pruned_by_rule(tr1, k, b1),
        b.left_bound <= sp <= b.right_bound,
        covered(view, f, trace_of_pruner(p, found), best as int, ub, uc, sp as int),
        is_sorted(p.splits()),
        p.splits().len() <= usize::MAX,
        p.neighbourhood_defined(score_difference, b.left_bound, b.right_bound, sp),
        found.contains_key(sp),
        score_difference == (if found[sp] >= best {
            found[sp] - best
        } else {
            0
        }),
        ({
            let (nl, nr) = p.neighbourhood(score_difference, b.left_bound, b.right_bound, sp);
            let right_start = if nl > sp {
                nl
            } else {
                sp + 1
            };
            let left_end = if nr < sp {
                nr
            } else {
                sp - 1
            };
            &&& forall|k: int| right_start <= k <= b.right_bound ==> #[trigger] queued(q2, k)
            &&& forall|k: int| b.left_bound <= k <= left_end ==> #[trigger] queued(q2, k)
        }),
    ensures
        accounted(view, f, min_sup, trace_of_pruner(p, found), best as int, ub, uc, q2),
{
    let tr2 = trace_of_pruner(p, found);
    p.lemma_neighbourhood_discards_only_close_splits(score_difference, b.left_bound, b.right_bound, sp, 0);
    assert forall|k: int|
        0 <= k < tr1.0.len() && #[trigger] in_bound(q1[0], k) implies covered(view, f, tr2, best as int, ub, uc, k)
        || queued(q2, k) by {
        let (nl, nr) = p.neighbourhood(score_difference, b.left_bound, b.right_bound, sp);
        if !in_bound(b, k) {
            assert(pruned_by_rule(tr1, k, b1));
            lemma_rule_monotone(tr1, tr2, k, b1, best as int);
        } else if k == sp {
        } else if k > sp {
            if k >= nl {
                assert(queued(q2, k));
            } else {
                lemma_neighbourhood_rule(p, found, score_difference, b.left_bound, b.right_bound, sp, best, k);
            }
        } else {
            if k <= nr {
                assert(queued(q2, k));
            } else {
                lemma_neighbourhood_rule(p, found, score_difference, b.left_bound, b.right_bound, sp, best, k);
            }
        }
    }
    lemma_pop_step(view, f, min_sup, tr1, tr2, b1, best as int, ub, uc, q1, q2);
}

/// What a search of feature `f` keeps true between bounds: the candidates are the
/// feature's split positions; the queue is in order; every evaluated candidate has a
/// recorded score and a found error of at least `min(best, ub)` (without a cache, at
/// most that of its two sides as leaves); and every candidate is accounted for or
/// queued.
#[verifier::opaque]
pub open spec fn search_state<'a>(
    view: &DataView,
    f: int,
    min_sup: usize,
    uc: bool,
    ub: int,
    best: int,
    p: IntervalsPruner<'a>,
    found: Map<usize, int>,
    q: Seq<Bound>,
) -> bool {
    let ns = p.splits().len() as int;
    &&& trace_of(view, f, trace_of_pruner(p, found))
    &&& queue_ok(q, p.record(), ns)
    &&& found_covers_record(p, found)
    &&& forall|i: usize| #[trigger] found.contains_key(i) ==> p.record().contains_key(i)
    &&& forall|i: usize| #[trigger] found.contains_key(i) ==> (if best <= ub {
        best
    } else {
        ub
    }) <= found[i]
    &&& uc ==> forall|i: usize| #[trigger] found.contains_key(i) ==> i < ns && found[i] <= split_leaf_error(
        view,
        f,
        p.splits()[i as int] as int,
    )
    &&& accounted(view, f, min_sup, trace_of_pruner(p, found), best, ub, uc, q)
}

/// The search starts with no result and one bound holding every candidate.
pub proof fn lemma_state_init<'a>(
    view: &DataView,
    f: int,
    min_sup: usize,
    uc: bool,
    ub: int,
    best: int,
    p: IntervalsPruner<'a>,
    q: Seq<Bound>,
)
    requires
        trace_of(view, f, trace_of_pruner(p, Map::empty())),
        p.record() == Map::<usize, (usize, usize)>::empty(),
        p.splits().len() >= 1,
        q.len() == 1,
        q[0].left_bound == 0,
        q[0].right_bound == p.splits().len() - 1,
        q[0].last_split_left_index is None,
        q[0].last_split_right_index is None,
    ensures
        search_state(view, f, min_sup, uc, ub, best, p, Map::empty(), q),
{
    reveal(search_state);
    let found = Map::<usize, int>::empty();
    assert forall|k: int| 0 <= k < trace_of_pruner(p, found).0.len() implies #[trigger] covered(
        view,
        f,
        trace_of_pruner(p, found),
        best,
        ub,
        uc,
        k,
    ) || queued(q, k) by {
        assert(in_bound(q[0], k));
    }
}

/// When the queue is empty, every candidate was accounted for.
pub proof fn lemma_state_done<'a>(
    view: &DataView,
    f: int,
    min_sup: usize,
    uc: bool,
    ub: int,
    best: int,
    p: IntervalsPruner<'a>,
    found: Map<usize, int>,
    q: Seq<Bound>,
)
    requires
        search_state(view, f, min_sup, uc, ub, best, p, found, q),
        q.len() == 0,
        all_supported(view, f, min_sup),
    ensures
        feature_covered(view, f, p.gap(), best, ub, uc),
{
    reveal(search_state);
    let tr = trace_of_pruner(p, found);
    assert forall|k: int| 0 <= k < tr.0.len() implies #[trigger] covered(view, f, tr, best, ub, uc, k) by {
        assert(covered(view, f, tr, best, ub, uc, k) || queued(q, k));
    }
    assert(trace_of(view, f, tr));
}

/// The state's facts that a step needs.
pub proof fn lemma_state_facts<'a>(
    view: &DataView,
    f: int,
    min_sup: usize,
    uc: bool,
    ub: int,
    best: int,
    p: IntervalsPruner<'a>,
    found: Map<usize, int>,
    q: Seq<Bound>,
)
    requires
        search_state(view, f, min_sup, uc, ub, best, p, found, q),
    ensures
        queue_ok(q, p.record(), p.splits().len() as int),
        trace_of(view, f, trace_of_pruner(p, found)),
        found_covers_record(p, found),
{
    reveal(search_state);
}

/// Dropping the first bound, all of whose candidates a rule drops (or when some split
/// position lacks support), keeps the state.
pub proof fn lemma_state_drop<'a>(
    view: &DataView,
    f: int,
    min_sup: usize,
    uc: bool,
    ub: int,
    best: int,
    p: IntervalsPruner<'a>,
    found: Map<usize, int>,
    q: Seq<Bound>,
)
    requires
        search_state(view, f, min_sup, uc, ub, best, p, found, q),
        q.len() >= 1,
        all_supported(view, f, min_sup) ==> forall|k: int|
            0 <= k < p.splits().len() && #[trigger] in_bound(q[0], k) ==> pruned_by_rule(
                trace_of_pruner(p, found),
                k,
                best,
            ),
    ensures
        search_state(view, f, min_sup, uc, ub, best, p, found, q.skip(1)),
{
    reveal(search_state);
    let tr = trace_of_pruner(p, found);
    lemma_queue_pop(q, p.record(), p.splits().len() as int);
    if all_supported(view, f, min_sup) {
        assert forall|k: int| 0 <= k < tr.0.len() && #[trigger] in_bound(q[0], k) implies covered(
            view,
            f,
            tr,
            best,
            ub,
            uc,
            k,
        ) || queued(q.skip(1), k) by {
            assert(pruned_by_rule(tr, k, best));
        }
    }
    lemma_pop_step(view, f, min_sup, tr, tr, best, best, ub, uc, q, q.skip(1));
}

/// The bounds that remain of `b` once its candidate `sp` was evaluated and
/// neighbourhood pruning gave `(nl, nr)`: the part right of the pruned neighbourhood
/// (after `sp`), then the part left of it.
pub open spec fn split_pushes(b: Bound, sp: usize, nl: int, nr: int) -> Seq<Bound> {
    let rs = if nl > sp {
        nl
    } else {
        sp + 1
    };
    let le = if nr < sp {
        nr
    } else {
        sp - 1
    };
    let right = if rs <= b.right_bound {
        seq![
            Bound {
                left_bound: rs as usize,
                right_bound: b.right_bound,
                last_split_left_index: Some(sp),
                last_split_right_index: b.last_split_right_index,
            },
        ]
    } else {
        Seq::<Bound>::empty()
    };
    let left = if sp > 0 && b.left_bound <= le {
        seq![
            Bound {
                left_bound: b.left_bound,
                right_bound: le as usize,
                last_split_left_index: b.last_split_left_index,
                last_split_right_index: Some(sp),
            },
        ]
    } else {
        Seq::<Bound>::empty()
    };
    right + left
}

/// Recording the result `v` found for candidate `sp` of the popped bound `q[0]`
/// (recorded scores `rs`, which sum to at most `v`) keeps the state's facts about the
/// evaluated candidates, and accounts for `sp`.
pub proof fn lemma_state_record<'a>(
    view: &DataView,
    f: int,
    min_sup: usize,
    uc: bool,
    ub: int,
    b1: int,
    b2: int,
    p1: IntervalsPruner<'a>,
    p2: IntervalsPruner<'a>,
    found1: Map<usize, int>,
    q: Seq<Bound>,
    sp: usize,
    v: int,
)
    requires
        search_state(view, f, min_sup, uc, ub, b1, p1, found1, q),
        q.len() >= 1,
        in_bound(q[0], sp as int),
        p2.splits() == p1.splits(),
        p2.gap() == p1.gap(),
        p2.record() == p1.record().insert(sp, p2.record()[sp]),
        p2.record()[sp].0 + p2.record()[sp].1 <= v,
        p1.leftmost_zero_index matches Some(m) ==> p2.leftmost_zero_index matches Some(m2) && m2 >= m,
        p1.rightmost_zero_index matches Some(m) ==> p2.rightmost_zero_index matches Some(m2) && m2 <= m,
        b2 <= b1,
        (if b2 <= ub {
            b2
        } else {
            ub
        }) <= v,
        uc ==> v <= split_leaf_error(view, f, p1.splits()[sp as int] as int),
    ensures
        ({
            let found2 = found1.insert(sp, v);
            let tr1 = trace_of_pruner(p1, found1);
            let tr2 = trace_of_pruner(p2, found2);
            &&& extends(tr2, tr1)
            &&& trace_of(view, f, tr2)
            &&& queue_ok(q.skip(1), p2.record(), p2.splits().len() as int)
            &&& found_covers_record(p2, found2)
            &&& covered(view, f, tr2, b2, ub, uc, sp as int)
            &&& forall|i: int| 0 <= i < q.len() - 1 ==> disjoint(q[0], #[trigger] q.skip(1)[i])
            &&& forall|k: int| #[trigger] in_bound(q[0], k) && k != sp ==> !p2.record().contains_key(k as usize)
        }),
{
    reveal(search_state);
    let ns = p1.splits().len() as int;
    let found2 = found1.insert(sp, v);
    let tr1 = trace_of_pruner(p1, found1);
    let tr2 = trace_of_pruner(p2, found2);
    assert(!p1.record().contains_key(sp));
    lemma_queue_pop(q, p1.record(), ns);
    assert forall|i: int| 0 <= i < q.skip(1).len() implies !in_bound(#[trigger] q.skip(1)[i], sp as int) by {
        assert(disjoint(q[0], q.skip(1)[i]));
    }
    lemma_queue_record(q.skip(1), p1.record(), ns, sp, p2.record()[sp]);
    assert(p2.record() == p1.record().insert(sp, p2.record()[sp]));
    assert forall|i: usize| #[trigger] tr1.1.contains_key(i) implies tr2.1.contains_key(i) && tr2.1[i] == tr1.1[i] by {
        assert(i != sp);
    }
    assert forall|i: usize| #[trigger] tr1.5.contains_key(i) implies tr2.5.contains_key(i) && tr2.5[i] == tr1.5[i] by {
        assert(p1.record().contains_key(i));
        assert(i != sp);
    }
    assert(extends(tr2, tr1));
    assert forall|i: usize| #[trigger] p2.record().contains_key(i) implies found2.contains_key(i) && p2.record()[i].0
        + p2.record()[i].1 <= found2[i] by {
        if i != sp {
            assert(p1.record().contains_key(i));
        }
    }
    assert(evaluated(tr2, sp as int, b2, ub));
    assert forall|k: int| #[trigger] in_bound(q[0], k) && k != sp implies !p2.record().contains_key(k as usize) by {
        assert(!p1.record().contains_key(k as usize));
    }
}

/// After candidate `sp` of the shrunk form `b` of the popped bound `q[0]` was
/// evaluated (see `lemma_state_record`) and neighbourhood pruning gave `(nl, nr)`,
/// queuing what remains of `b` keeps the state.
pub proof fn lemma_state_split<'a>(
    view: &DataView,
    f: int,
    min_sup: usize,
    uc: bool,
    ub: int,
    b1: int,
    b2: usize,
    p1: IntervalsPruner<'a>,
    p2: IntervalsPruner<'a>,
    found1: Map<usize, int>,
    q: Seq<Bound>,
    b: Bound,
    sp: usize,
    v: int,
    score_difference: usize,
)
    requires
        search_state(view, f, min_sup, uc, ub, b1, p1, found1, q),
        q.len() >= 1,
        q[0].left_bound <= b.left_bound <= sp <= b.right_bound <= q[0].right_bound,
        b.last_split_left_index == q[0].last_split_left_index,
        b.last_split_right_index == q[0].last_split_right_index,
        forall|k: int|
            0 <= k < p1.splits().len() && in_bound(q[0], k) && !in_bound(b, k) ==> #[trigger] pruned_by_rule(
                trace_of_pruner(p1, found1),
                k,
                b1,
            ),
        p2.splits() == p1.splits(),
        p2.gap() == p1.gap(),
        p2.record() == p1.record().insert(sp, p2.record()[sp]),
        p2.record()[sp].0 + p2.record()[sp].1 <= v,
        p1.leftmost_zero_index matches Some(m) ==> p2.leftmost_zero_index matches Some(m2) && m2 >= m,
        p1.rightmost_zero_index matches Some(m) ==> p2.rightmost_zero_index matches Some(m2) && m2 <= m,
        b2 <= b1,
        (if b2 <= ub {
            b2 as int
        } else {
            ub
        }) <= v,
        uc ==> v <= split_leaf_error(view, f, p1.splits()[sp as int] as int),
        is_sorted(p2.splits()),
        p2.splits().len() <= usize::MAX,
        p2.neighbourhood_defined(score_difference, b.left_bound, b.right_bound, sp),
        score_difference == (if v >= b2 {
            v - b2
        } else {
            0
        }),
    ensures
        ({
            let (nl, nr) = p2.neighbourhood(score_difference, b.left_bound, b.right_bound, sp);
            search_state(
                view,
                f,
                min_sup,
                uc,
                ub,
                b2 as int,
                p2,
                found1.insert(sp, v),
                q.skip(1) + split_pushes(b, sp, nl, nr),
            )
        }),
{
    let ns = p1.splits().len() as int;
    let found2 = found1.insert(sp, v);
    let tr1 = trace_of_pruner(p1, found1);
    let tr2 = trace_of_pruner(p2, found2);
    lemma_state_record(view, f, min_sup, uc, ub, b1, b2 as int, p1, p2, found1, q, sp, v);
    p2.lemma_neighbourhood_discards_only_close_splits(score_difference, b.left_bound, b.right_bound, sp, 0);
    let (nl, nr) = p2.neighbourhood(score_difference, b.left_bound, b.right_bound, sp);
    let pushes = split_pushes(b, sp, nl, nr);
    let rest = q.skip(1);
    let q2 = rest + pushes;
    reveal(search_state);
    assert(queue_ok(q, p1.record(), ns));
    assert(q[0].left_bound <= q[0].right_bound && q[0].right_bound < ns);
    // the queue stays in order
    let rs = if nl > sp {
        nl
    } else {
        sp + 1
    };
    let le = if nr < sp {
        nr
    } else {
        sp - 1
    };
    let right = Bound {
        left_bound: rs as usize,
        right_bound: b.right_bound,
        last_split_left_index: Some(sp),
        last_split_right_index: b.last_split_right_index,
    };
    let left = Bound {
        left_bound: b.left_bound,
        right_bound: le as usize,
        last_split_left_index: b.last_split_left_index,
        last_split_right_index: Some(sp),
    };
    let mut cur = rest;
    if rs <= b.right_bound {
        assert forall|i: int| 0 <= i < cur.len() implies disjoint(right, #[trigger] cur[i]) by {
            assert(disjoint(q[0], rest[i]));
        }
        assert forall|k: int| #[trigger] in_bound(right, k) implies !p2.record().contains_key(k as usize) by {
            assert(in_bound(q[0], k));
        }
        lemma_queue_push(cur, p2.record(), ns, right);
        cur = cur.push(right);
    }
    if sp > 0 && b.left_bound <= le {
        assert forall|i: int| 0 <= i < cur.len() implies disjoint(left, #[trigger] cur[i]) by {
            if i < rest.len() {
                assert(disjoint(q[0], rest[i]));
            }
        }
        assert forall|k: int| #[trigger] in_bound(left, k) implies !p2.record().contains_key(k as usize) by {
            assert(in_bound(q[0], k));
        }
        lemma_queue_push(cur, p2.record(), ns, left);
        cur = cur.push(left);
    }
    assert(cur =~= q2);
    // the evaluated candidates' facts
    assert forall|i: usize| #[trigger] found2.contains_key(i) implies (if b2 <= ub {
        b2 as int
    } else {
        ub
    }) <= found2[i] by {
        if i != sp {
            assert(found1.contains_key(i));
        }
    }
    if uc {
        assert forall|i: usize| #[trigger] found2.contains_key(i) implies i < ns && found2[i] <= split_leaf_error(
            view,
            f,
            p2.splits()[i as int] as int,
        ) by {
            if i != sp {
                assert(found1.contains_key(i));
            }
        }
    }
    assert forall|i: usize| #[trigger] found2.contains_key(i) implies p2.record().contains_key(i) by {
        if i != sp {
            assert(found1.contains_key(i));
        }
    }
    // every candidate is accounted for or queued
    assert forall|i: int| 0 <= i < q.len() - 1 implies q2[i] == q[i + 1] by {
        assert(q2[i] == rest[i]);
    }
    assert forall|k: int| rs <= k <= b.right_bound implies #[trigger] queued(q2, k) by {
        assert(q2[rest.len() as int] == right);
        assert(in_bound(q2[rest.len() as int], k));
    }
    assert forall|k: int| b.left_bound <= k <= le implies #[trigger] queued(q2, k) by {
        assert(q2[q2.len() - 1] == left);
        assert(in_bound(q2[q2.len() - 1], k));
    }
    lemma_after_split(view, f, min_sup, uc, ub, p2, found2, tr1, b1, b2, q, q2, b, sp, score_difference);
}

/// After the only candidate `sp` of the shrunk form of the popped bound `q[0]` was
/// evaluated (see `lemma_state_record`), dropping the bound keeps the state.
pub proof fn lemma_state_single<'a>(
    view: &DataView,
    f: int,
    min_sup: usize,
    uc: bool,
    ub: int,
    b1: int,
    b2: int,
    p1: IntervalsPruner<'a>,
    p2: IntervalsPruner<'a>,
    found1: Map<usize, int>,
    q: Seq<Bound>,
    sp: usize,
    v: int,
)
    requires
        search_state(view, f, min_sup, uc, ub, b1, p1, found1, q),
        q.len() >= 1,
        in_bound(q[0], sp as int),
        forall|k: int|
            0 <= k < p1.splits().len() && in_bound(q[0], k) && k != sp ==> #[trigger] pruned_by_rule(
                trace_of_pruner(p1, found1),
                k,
                b1,
            ),
        p2.splits() == p1.splits(),
        p2.gap() == p1.gap(),
        p2.record() == p1.record().insert(sp, p2.record()[sp]),
        p2.record()[sp].0 + p2.record()[sp].1 <= v,
        p1.leftmost_zero_index matches Some(m) ==> p2.leftmost_zero_index matches Some(m2) && m2 >= m,
        p1.rightmost_zero_index matches Some(m) ==> p2.rightmost_zero_index matches Some(m2) && m2 <= m,
        b2 <= b1,
        (if b2 <= ub {
            b2
        } else {
            ub
        }) <= v,
        uc ==> v <= split_leaf_error(view, f, p1.splits()[sp as int] as int),
    ensures
        search_state(view, f, min_sup, uc, ub, b2, p2, found1.insert(sp, v), q.skip(1)),
{
    let ns = p1.splits().len() as int;
    let found2 = found1.insert(sp, v);
    let tr1 = trace_of_pruner(p1, found1);
    let tr2 = trace_of_pruner(p2, found2);
    lemma_state_record(view, f, min_sup, uc, ub, b1, b2, p1, p2, found1, q, sp, v);
    reveal(search_state);
    assert forall|i: usize| #[trigger] found2.contains_key(i) implies (if b2 <= ub {
        b2
    } else {
        ub
    }) <= found2[i] by {
        if i != sp {
            assert(found1.contains_key(i));
        }
    }
    if uc {
        assert forall|i: usize| #[trigger] found2.contains_key(i) implies i < ns && found2[i] <= split_leaf_error(
            view,
            f,
            p2.splits()[i as int] as int,
        ) by {
            if i != sp {
                assert(found1.contains_key(i));
            }
        }
    }
    assert forall|i: usize| #[trigger] found2.contains_key(i) implies p2.record().contains_key(i) by {
        if i != sp {
            assert(found1.contains_key(i));
        }
    }
    assert forall|k: int| 0 <= k < tr1.0.len() && #[trigger] in_bound(q[0], k) implies covered(
        view,
        f,
        tr2,
        b2,
        ub,
        uc,
        k,
    ) || queued(q.skip(1), k) by {
        if k != sp {
            assert(pruned_by_rule(tr1, k, b1));
            lemma_rule_monotone(tr1, tr2, k, b1, b2);
        }
    }
    lemma_pop_step(view, f, min_sup, tr1, tr2, b1, b2, ub, uc, q, q.skip(1));
}

/// Every candidate that `order` names is accounted for: the candidates are the split
/// positions of feature `f`, and each named one is evaluated or dropped by a rule with
/// gap `gap`.
pub open spec fn order_covered(
    view: &DataView,
    f: int,
    gap: nat,
    best: int,
    ub: int,
    uc: bool,
    order: Seq<usize>,
) -> bool {
    exists|tr: SplitTrace|
        #[trigger] trace_of(view, f, tr) && tr.0 == split_positions(view.column(f), view.column(f).len() as int)
            && tr.4 == gap && forall|j: int|
            0 <= j < order.len() && order[j] < tr.0.len() ==> #[trigger] covered(
                view,
                f,
                tr,
                best,
                ub,
                uc,
                order[j] as int,
            )
}

/// What a search of feature `f` in a given order keeps true: the candidates are the
/// feature's split positions; every evaluated candidate is marked, has a recorded
/// score and a found error of at least `min(best, ub)` (without a cache, at most that
/// of its two sides as leaves); and every marked candidate is accounted for.
#[verifier::opaque]
pub open spec fn marked_state<'a>(
    view: &DataView,
    f: int,
    min_sup: usize,
    uc: bool,
    ub: int,
    best: int,
    p: IntervalsPruner<'a>,
    found: Map<usize, int>,
    marks: Seq<bool>,
) -> bool {
    let ns = p.splits().len() as int;
    let tr = trace_of_pruner(p, found);
    &&& trace_of(view, f, tr)
    &&& p.splits() == split_positions(view.column(f), view.column(f).len() as int)
    &&& marks.len() == ns
    &&& forall|i: usize| #[trigger] p.record().contains_key(i) ==> i < ns && marks[i as int]
    &&& found_covers_record(p, found)
    &&& forall|i: usize| #[trigger] found.contains_key(i) ==> p.record().contains_key(i)
    &&& forall|i: usize| #[trigger] found.contains_key(i) ==> (if best <= ub {
        best
    } else {
        ub
    }) <= found[i]
    &&& uc ==> forall|i: usize| #[trigger] found.contains_key(i) ==> found[i] <= split_leaf_error(
        view,
        f,
        p.splits()[i as int] as int,
    )
    &&& all_supported(view, f, min_sup) ==> forall|i: int|
        0 <= i < ns && #[trigger] marks[i] ==> covered(view, f, tr, best, ub, uc, i)
}

/// The search in order starts with no result and nothing marked.
pub proof fn lemma_marked_init<'a>(
    view: &DataView,
    f: int,
    min_sup: usize,
    uc: bool,
    ub: int,
    best: int,
    p: IntervalsPruner<'a>,
    marks: Seq<bool>,
)
    requires
        trace_of(view, f, trace_of_pruner(p, Map::empty())),
        p.splits() == split_positions(view.column(f), view.column(f).len() as int),
        p.record() == Map::<usize, (usize, usize)>::empty(),
        marks.len() == p.splits().len(),
        forall|i: int| 0 <= i < marks.len() ==> !marks[i],
    ensures
        marked_state(view, f, min_sup, uc, ub, best, p, Map::empty(), marks),
{
    reveal(marked_state);
}

/// The state's facts that a step needs.
pub proof fn lemma_marked_facts<'a>(
    view: &DataView,
    f: int,
    min_sup: usize,
    uc: bool,
    ub: int,
    best: int,
    p: IntervalsPruner<'a>,
    found: Map<usize, int>,
    marks: Seq<bool>,
)
    requires
        marked_state(view, f, min_sup, uc, ub, best, p, found, marks),
    ensures
        trace_of(view, f, trace_of_pruner(p, found)),
        p.splits() == split_positions(view.column(f), view.column(f).len() as int),
        marks.len() == p.splits().len(),
        forall|i: usize| #[trigger] p.record().contains_key(i) ==> i < p.splits().len() && marks[i as int],
{
    reveal(marked_state);
}

/// Marking a candidate when some split position lacks support keeps the state.
pub proof fn lemma_marked_unsupported<'a>(
    view: &DataView,
    f: int,
    min_sup: usize,
    uc: bool,
    ub: int,
    best: int,
    p: IntervalsPruner<'a>,
    found: Map<usize, int>,
    marks: Seq<bool>,
    sp: int,
)
    requires
        marked_state(view, f, min_sup, uc, ub, best, p, found, marks),
        0 <= sp < marks.len(),
        !all_supported(view, f, min_sup),
    ensures
        marked_state(view, f, min_sup, uc, ub, best, p, found, marks.update(sp, true)),
{
    reveal(marked_state);
}

/// After the unmarked candidate `sp` was evaluated (recorded scores summing to at most
/// `v`, the error found for it) and neighbourhood pruning over all candidates gave
/// `(nl, nr)`, marking `sp` and candidates of the pruned neighbourhood keeps the state.
pub proof fn lemma_marked_split<'a>(
    view: &DataView,
    f: int,
    min_sup: usize,
    uc: bool,
    ub: int,
    b1: int,
    b2: usize,
    p1: IntervalsPruner<'a>,
    p2: IntervalsPruner<'a>,
    found1: Map<usize, int>,
    m1: Seq<bool>,
    m2: Seq<bool>,
    sp: usize,
    v: int,
    score_difference: usize,
    cl: usize,
    cr: usize,
)
    requires
        marked_state(view, f, min_sup, uc, ub, b1, p1, found1, m1),
        sp < m1.len(),
        !m1[sp as int],
        p2.splits() == p1.splits(),
        p2.gap() == p1.gap(),
        p2.record() == p1.record().insert(sp, p2.record()[sp]),
        p2.record()[sp].0 + p2.record()[sp].1 <= v,
        p1.leftmost_zero_index matches Some(m) ==> p2.leftmost_zero_index matches Some(m2) && m2 >= m,
        p1.rightmost_zero_index matches Some(m) ==> p2.rightmost_zero_index matches Some(m2) && m2 <= m,
        b2 <= b1,
        (if b2 <= ub {
            b2 as int
        } else {
            ub
        }) <= v,
        uc ==> v <= split_leaf_error(view, f, p1.splits()[sp as int] as int),
        is_sorted(p2.splits()),
        p2.splits().len() <= usize::MAX,
        p2.neighbourhood_defined(score_difference, 0, (m1.len() - 1) as usize, sp),
        score_difference == (if v >= b2 {
            v - b2
        } else {
            0
        }),
        m2.len() == m1.len(),
        m2[sp as int],
        forall|i: int| 0 <= i < m1.len() && m1[i] ==> #[trigger] m2[i],
        ({
            let (nl, nr) = p2.neighbourhood(score_difference, 0, (m1.len() - 1) as usize, sp);
            forall|i: int|
                0 <= i < m1.len() && !m1[i] && #[trigger] m2[i] ==> i == sp || (cl <= i < sp && nr < i) || (sp < i
                    <= cr && i < nl)
        }),
    ensures
        marked_state(view, f, min_sup, uc, ub, b2 as int, p2, found1.insert(sp, v), m2),
{
    reveal(marked_state);
    let ns = m1.len() as int;
    let found2 = found1.insert(sp, v);
    let tr1 = trace_of_pruner(p1, found1);
    let tr2 = trace_of_pruner(p2, found2);
    assert(!p1.record().contains_key(sp));
    assert forall|i: usize| #[trigger] tr1.1.contains_key(i) implies tr2.1.contains_key(i) && tr2.1[i] == tr1.1[i] by {
        assert(i != sp);
    }
    assert forall|i: usize| #[trigger] tr1.5.contains_key(i) implies tr2.5.contains_key(i) && tr2.5[i] == tr1.5[i] by {
        assert(p1.record().contains_key(i));
        assert(i != sp);
    }
    assert(extends(tr2, tr1));
    assert forall|i: usize| #[trigger] p2.record().contains_key(i) implies i < ns && m2[i as int] by {
        if i != sp {
            assert(p1.record().contains_key(i));
        }
    }
    assert forall|i: usize| #[trigger] p2.record().contains_key(i) implies found2.contains_key(i) && p2.record()[i].0
        + p2.record()[i].1 <= found2[i] by {
        if i != sp {
            assert(p1.record().contains_key(i));
        }
    }
    assert forall|i: usize| #[trigger] found2.contains_key(i) implies p2.record().contains_key(i) by {
        if i != sp {
            assert(found1.contains_key(i));
        }
    }
    assert forall|i: usize| #[trigger] found2.contains_key(i) implies (if b2 <= ub {
        b2 as int
    } else {
        ub
    }) <= found2[i] by {
        if i != sp {
            assert(found1.contains_key(i));
        }
    }
    if uc {
        assert forall|i: usize| #[trigger] found2.contains_key(i) implies found2[i] <= split_leaf_error(
            view,
            f,
            p2.splits()[i as int] as int,
        ) by {
            if i != sp {
                assert(found1.contains_key(i));
            }
        }
    }
    if all_supported(view, f, min_sup) {
        assert forall|i: int| 0 <= i < ns && #[trigger] m2[i] implies covered(view, f, tr2, b2 as int, ub, uc, i) by {
            if m1[i] {
                assert(covered(view, f, tr1, b1, ub, uc, i));
                lemma_covered_monotone(view, f, tr1, tr2, b1, b2 as int, ub, ub, uc, i);
            } else if i == sp {
                assert(evaluated(tr2, i, b2 as int, ub));
            } else {
                lemma_neighbourhood_rule(p2, found2, score_difference, 0, (ns - 1) as usize, sp, b2, i);
            }
        }
    }
}

/// Once every candidate named by the processed part of `order` is marked, each is
/// accounted for.
pub proof fn lemma_marked_done<'a>(
    view: &DataView,
    f: int,
    min_sup: usize,
    uc: bool,
    ub: int,
    best: int,
    p: IntervalsPruner<'a>,
    found: Map<usize, int>,
    marks: Seq<bool>,
    order: Seq<usize>,
)
    requires
        marked_state(view, f, min_sup, uc, ub, best, p, found, marks),
        all_supported(view, f, min_sup),
        forall|j: int| 0 <= j < order.len() && order[j] < marks.len() ==> #[trigger] marks[order[j] as int],
    ensures
        order_covered(view, f, p.gap(), best, ub, uc, order),
{
    reveal(marked_state);
    let tr = trace_of_pruner(p, found);
    assert forall|j: int| 0 <= j < order.len() && order[j] < tr.0.len() implies #[trigger] covered(
        view,
        f,
        tr,
        best,
        ub,
        uc,
        order[j] as int,
    ) by {
        assert(marks[order[j] as int]);
    }
    assert(trace_of(view, f, tr));
}

/// With no error left to beat, every candidate is accounted for.
pub proof fn lemma_marked_zero<'a>(
    view: &DataView,
    f: int,
    min_sup: usize,
    uc: bool,
    ub: int,
    best: int,
    p: IntervalsPruner<'a>,
    found: Map<usize, int>,
    marks: Seq<bool>,
    order: Seq<usize>,
)
    requires
        marked_state(view, f, min_sup, uc, ub, best, p, found, marks),
    ensures
        order_covered(view, f, p.gap(), 0, ub, uc, order),
{
    reveal(marked_state);
    let tr = trace_of_pruner(p, found);
    assert forall|j: int| 0 <= j < order.len() && order[j] < tr.0.len() implies #[trigger] covered(
        view,
        f,
        tr,
        0,
        ub,
        uc,
        order[j] as int,
    ) by {
        assert(bracketed_by(tr, None, None, order[j] as int, 0));
    }
    assert(trace_of(view, f, tr));
}

/// Every feature's split positions, in increasing order, form a trace.
pub proof fn lemma_trace_exists(view: &DataView, f: int, gap: nat)
    requires
        view.column(f).len() <= usize::MAX,
    ensures
        exists|tr: SplitTrace| #[trigger] trace_of(view, f, tr) && tr.4 == gap,
{
    let col = view.column(f);
    let s = split_positions(col, col.len() as int);
    lemma_split_positions(col, col.len() as int);
    let tr: SplitTrace = (s, Map::empty(), None, None, gap, Map::empty());
    assert forall|i: int| is_split_position(col, i) implies exists|j: int| 0 <= j < tr.0.len() && #[trigger] tr.0[j]
        == i by {
        let j = choose|j: int| 0 <= j < s.len() && #[trigger] s[j] == i;
        assert(tr.0[j] == i);
    }
    assert(trace_of(view, f, tr));
}

/// The split positions below `n` are increasing, are split positions, and include
/// every split position below `n`.
proof fn lemma_split_positions(col: Seq<DataPoint>, n: int)
    requires
        n <= col.len() <= usize::MAX,
    ensures
        forall|i: int, j: int| 0 <= i < j < split_positions(col, n).len() ==> split_positions(col, n)[i] < split_positions(col, n)[j],
        forall|j: int| 0 <= j < split_positions(col, n).len() ==> #[trigger] split_positions(col, n)[j] < n,
        forall|j: int| 0 <= j < split_positions(col, n).len() ==> is_split_position(col, #[trigger] split_positions(col, n)[j] as int),
        forall|i: int| is_split_position(col, i) && i < n ==> exists|j: int| 0 <= j < split_positions(col, n).len() && #[trigger] split_positions(col, n)[j] == i,
    decreases n,
{
    if n > 1 {
        lemma_split_positions(col, n - 1);
        let rest = split_positions(col, n - 1);
        let s = split_positions(col, n);
        if col[n - 1].value != col[n - 2].value {
            assert(s == rest.push((n - 1) as usize));
            assert(s[s.len() - 1] == n - 1);
        } else {
            assert(s == rest);
        }
        assert forall|i: int| is_split_position(col, i) && i < n implies exists|j: int| 0 <= j < s.len() && #[trigger] s[j] == i by {
            if i < n - 1 {
                let j = choose|j: int| 0 <= j < rest.len() && #[trigger] rest[j] == i;
                assert(s[j] == i);
            } else {
                assert(s[s.len() - 1] == i);
            }
        }
    }
}

/// The results of evaluating one split: the entries and cache positions of the two
/// sides, and whether the smaller side was searched.
pub struct SplitOutcome {
    pub left: Entry,
    pub left_index: usize,
    pub right: Entry,
    pub right_index: usize,
    pub explored: bool,
}

/// The depth-first tree search: its configuration, its counters, its cache of
/// searched nodes, its clock and time limit, and its random generator for split
/// selection.
pub struct ConTree<const USE_CACHE: bool> {
    config: SearchConfig,
    statistics: Statistics,
    cache: Cache,
    runtime: Instant,
    time_limit_ms: u64,
    rng: ThreadRng,
    tree: Vec<TreeNode>,
}

impl<const USE_CACHE: bool> ConTree<USE_CACHE> {
    /// The configuration of the search.
    pub closed spec fn config(&self) -> SearchConfig {
        self.config
    }

    /// The counters of the search.
    pub closed spec fn spec_statistics(&self) -> Statistics {
        self.statistics
    }

    /// The time limit in milliseconds.
    pub closed spec fn spec_time_limit(&self) -> u64 {
        self.time_limit_ms
    }

    /// The tree found by the last search.
    pub closed spec fn solution(&self) -> Seq<TreeNode> {
        self.tree@
    }

    /// The tree found by the last search, root first.
    pub fn tree(&self) -> (t: &Vec<TreeNode>)
        ensures
            t@ == self.solution(),
    {
        &self.tree
    }

    /// Cache position of the root.
    pub closed spec fn root_position(&self) -> nat {
        self.cache.spec_root_index()
    }

    /// The entries of the cache of searched nodes.
    pub closed spec fn cache_entries(&self) -> Seq<Entry> {
        self.cache.entries()
    }

    /// `self` searches with the same configuration, cache shape and dataset size as `other`.
    pub closed spec fn same_setup(&self, other: Self) -> bool {
        &&& self.config == other.config
        &&& self.cache.spec_depth() == other.cache.spec_depth()
        &&& self.cache.spec_num_samples() == other.cache.spec_num_samples()
        &&& self.statistics.num_samples == other.statistics.num_samples
        &&& self.statistics.num_features == other.statistics.num_features
        &&& self.cache.spec_root_index() == other.cache.spec_root_index()
        &&& self.cache.entries().len() >= other.cache.entries().len()
    }

    /// The cache is well formed and, when used, holds bounded errors; the gap is bounded.
    pub closed spec fn inv(&self) -> bool {
        &&& self.cache.wf()
        &&& USE_CACHE ==> errors_within(self.cache.entries(), SEARCH_LIMIT as int)
        &&& USE_CACHE ==> root_unindexed(self.cache)
        &&& self.config.max_gap <= SEARCH_LIMIT
    }

    /// `self` keeps the cache's root entry of `other` (at position zero).
    pub closed spec fn keeps_root(&self, other: Self) -> bool {
        self.cache.entries()[0] == other.cache.entries()[0]
    }

    /// The cache's root entry (at position zero) reports the same error as `e`.
    pub closed spec fn root_error_is(&self, e: Entry) -> bool {
        self.cache.entries()[0].error == e.error
    }

    pub fn new(
        min_sup: usize,
        max_depth: usize,
        max_time_ms: u64,
        max_error: usize,
        split_selection_strategy: PointSelector,
        max_gap: usize,
        use_heuristic: bool,
        fast_d2: bool,
    ) -> (t: Self)
        ensures
            t.config() == SearchConfig::spec_new(
                min_sup,
                max_depth,
                max_gap,
                max_error,
                use_heuristic,
                fast_d2,
                split_selection_strategy,
            ),
            t.spec_statistics() == Statistics::spec_default(),
            t.spec_time_limit() == max_time_ms,
            t.cache_entries() == Seq::<Entry>::empty(),
    {
        Self {
            cache: Cache::default(),
            config: SearchConfig::new(
                min_sup,
                max_depth,
                max_gap,
                max_error,
                use_heuristic,
                fast_d2,
                split_selection_strategy,
            ),
            statistics: Statistics::default(),
            runtime: now(),
            time_limit_ms: max_time_ms,
            rng: thread_rng(),
            tree: Vec::new(),
        }
    }

    /// Whether the time limit has not been reached yet.
    fn time_remains(&self) -> bool {
        within_time(&self.runtime, self.time_limit_ms)
    }

    /// Searches a tree for `dataset`, whose first column gives the samples' labels.
    /// The error found is never worse than that of the single leaf.
    pub fn fit(&mut self, dataset: &Dataset)
        requires
            dataset.columns().len() > 0,
            dataset.columns()[0].points().len() <= SEARCH_LIMIT,
            old(self).config().max_gap <= SEARCH_LIMIT,
            forall|f: int| 0 <= f < dataset.columns().len() ==> #[trigger] dataset.columns()[f].points().len()
                == dataset.columns()[0].points().len(),
            forall|f: int, i: int|
                0 <= f < dataset.columns().len() && 0 <= i < dataset.columns()[f].points().len()
                    ==> #[trigger] dataset.columns()[f].points()[i].tid < dataset.columns()[0].points().len(),
            forall|i: int|
                0 <= i < dataset.columns()[0].points().len() ==> #[trigger] dataset.columns()[0].points()[i].label
                    < dataset.spec_num_labels(),
        ensures
            final(self).spec_statistics().num_samples == dataset.columns()[0].points().len(),
            final(self).spec_statistics().num_features == dataset.columns().len(),
            final(self).spec_statistics().error <= leaf_error(
                dataset.columns()[0].points(),
                dataset.spec_num_labels() as nat,
            ),
            final(self).spec_statistics().cache_size == final(self).cache_entries().len(),
            solution_tree(final(self).solution(), final(self).cache_entries()),
            final(self).solution().len() >= 1,
            USE_CACHE ==> final(self).spec_statistics().error == final(self).solution()[0].error,
            mirrors(
                final(self).solution(),
                final(self).cache_entries(),
                final(self).root_position() as int,
                final(self).config().max_depth as int,
            ),
            final(self).config().max_depth == old(self).config().max_depth,
            final(self).config().min_sup == old(self).config().min_sup,
            final(self).config().max_gap == old(self).config().max_gap,
            final(self).config().point_selector == old(self).config().point_selector,
    {
        let root_view = DataView::root(dataset);
        let total = root_view.len();
        if USE_CACHE {
            self.cache = Cache::new(self.config.max_depth, total);
        } else {
            self.cache = Cache::default();
        }
        let root_index = self.cache.init();
        assert(self.cache.spec_root_index() == 0 && self.cache.entries().len() == 1);
        self.statistics.num_features = root_view.num_features();
        self.statistics.num_samples = total;
        let (error, label) = leaf(&root_view);
        let mut entry = Entry::default();
        entry.error = error;
        entry.label = label;
        if USE_CACHE {
            match self.cache.get_mut(root_index) {
                Some(e) => {
                    if error < self.config.max_error {
                        self.config.max_error = error;
                    }
                    e.error = error;
                    e.label = label;
                },
                None => {},
            }
        }
        let root_config = self.config;
        self.runtime = now();
        proof {
            assert forall|g: int| 0 <= g < root_view.spec_num_features() implies #[trigger] root_view.column(g).len()
                <= SEARCH_LIMIT by {
                assert(root_view.column(g) == dataset.columns()[g].points());
            }
        }
        let _ = self.expand_node_with_view(&root_view, &root_config, &mut entry, 0, true, root_config.max_error);
        self.statistics.error = entry.error;
        self.statistics.cache_size = self.cache.len();
        assert(self.cache.spec_root_index() < self.cache.entries().len());
        self.get_solution_tree();
    }

    /// Rebuilds `tree` from the cache: the root entry and, below it, the entries of the
    /// chosen children, at most `max_depth` levels deep.
    pub fn get_solution_tree(&mut self)
        ensures
            solution_tree(final(self).solution(), final(self).cache_entries()),
            final(self).cache_entries() == old(self).cache_entries(),
            final(self).root_position() == old(self).root_position(),
            final(self).spec_statistics() == old(self).spec_statistics(),
            final(self).config() == old(self).config(),
            final(self).root_position() < final(self).cache_entries().len() ==> final(self).solution().len() >= 1
                && describes(final(self).solution()[0], final(self).cache_entries()[final(self).root_position() as int]),
            mirrors(
                final(self).solution(),
                final(self).cache_entries(),
                final(self).root_position() as int,
                final(self).config().max_depth as int,
            ),
    {
        self.tree = solution_from(&self.cache, self.config.max_depth);
    }

    /// Sets the optimal flag of cache entry `index`, if there is one.
    fn mark_optimal(&mut self, index: usize)
        requires
            old(self).inv(),
        ensures
            final(self).inv(),
            final(self).same_setup(*old(self)),
            old(self).cache.entries().len() >= 1 ==> final(self).cache.entries()[0].error
                == old(self).cache.entries()[0].error,
            old(self).cache.entries().len() >= 1 && index != 0 ==> final(self).keeps_root(*old(self)),
    {
        let ghost before = self.cache.entries();
        match self.cache.get_mut(index) {
            Some(e) => {
                e.is_optimal = true;
            },
            None => {},
        }
        proof {
            if USE_CACHE {
                assert forall|i: int| 0 <= i < self.cache.entries().len() implies #[trigger] self.cache.entries()[i].error
                    <= SEARCH_LIMIT by {
                    assert(self.cache.entries()[i].error == before[i].error);
                }
            }
        }
    }

    /// Searches the node with samples `view` under `config`, improving `current_best`,
    /// the node's entry, whose cache position is `parent_index`. Returns whether the
    /// time limit cut the search short.
    fn expand_node_with_view(
        &mut self,
        view: &DataView,
        config: &SearchConfig,
        current_best: &mut Entry,
        parent_index: usize,
        is_new: bool,
        upper_bound: usize,
    ) -> (timed_out: bool)
        requires
            old(self).inv(),
            old(self).cache.entries().len() >= 1,
            view_within(view),
            config.max_gap <= SEARCH_LIMIT,
            config.min_sup == old(self).config.min_sup,
            config.max_depth <= old(self).config.max_depth,
            old(current_best).error <= SEARCH_LIMIT,
        ensures
            final(self).inv(),
            final(self).same_setup(*old(self)),
            (!USE_CACHE || parent_index != 0) ==> final(self).keeps_root(*old(self)),
            USE_CACHE && parent_index == 0 && old(self).root_error_is(*old(current_best)) ==> final(self).root_error_is(
                *final(current_best),
            ),
            final(current_best).error <= SEARCH_LIMIT,
            final(current_best).error <= old(current_best).error || (USE_CACHE && parent_index
                < old(self).cache.entries().len() && final(current_best).error
                == old(self).cache.entries()[parent_index as int].error),
            !USE_CACHE && config.max_depth == 0 ==> *final(current_best) == (Entry {
                is_leaf: true,
                is_optimal: true,
                ..*old(current_best)
            }),
            config.max_depth == 0 && (USE_CACHE ==> old(current_best).error != 0
                && view.points().len() != 0 && !!is_new) ==> final(current_best).is_leaf
                && final(current_best).is_optimal,
            USE_CACHE && old(current_best).error != 0 && view.points().len() != 0 && !is_new
                ==> *final(current_best) == *old(current_best),
            config.max_depth >= 1 && (old(current_best).error <= config.max_gap
                || view.points().len() <= 1) && (USE_CACHE ==> old(current_best).error != 0
                && view.points().len() != 0 && !!is_new) ==> *final(current_best) == *old(current_best),
            !timed_out && config.max_depth >= 1 && old(current_best).error > config.max_gap && view.points().len()
                > 1 && !(USE_CACHE && (old(current_best).error == 0 || !is_new)) ==> forall|g: int| #![trigger all_supported(view, g, config.min_sup)]
                0 <= g < view.spec_num_features() && all_supported(view, g, config.min_sup) ==> feature_covered(
                    view,
                    g,
                    config.max_gap as nat,
                    final(current_best).error as int,
                    upper_bound as int,
                    !USE_CACHE,
                ),
        decreases config.max_depth, 3nat,
    {
        let n = view.len();
        if USE_CACHE && (current_best.error == 0 || n == 0) {
            let ghost before = self.cache.entries();
            match self.cache.get_mut(parent_index) {
                Some(entry) => {
                    entry.is_leaf = true;
                    entry.is_optimal = true;
                    *current_best = *entry;
                },
                None => {},
            }
            proof {
                assert forall|i: int| 0 <= i < self.cache.entries().len() implies #[trigger] self.cache.entries()[i].error
                    <= SEARCH_LIMIT by {
                    assert(self.cache.entries()[i].error == before[i].error);
                }
            }
            return false;
        }
        if USE_CACHE && !is_new {
            self.statistics.cache_hits = self.statistics.cache_hits.saturating_add(1);
            return false;
        }
        if config.max_depth == 0 {
            current_best.is_optimal = true;
            current_best.is_leaf = true;
            if USE_CACHE {
                let ghost before = self.cache.entries();
                match self.cache.get_mut(parent_index) {
                    Some(entry) => {
                        entry.is_optimal = true;
                        entry.is_leaf = true;
                        *current_best = *entry;
                    },
                    None => {},
                }
                proof {
                    assert forall|i: int| 0 <= i < self.cache.entries().len() implies #[trigger] self.cache.entries()[i].error
                        <= SEARCH_LIMIT by {
                        assert(self.cache.entries()[i].error == before[i].error);
                    }
                }
            }
            return false;
        }
        if current_best.error <= config.max_gap || n <= 1 {
            return false;
        }
        let num_features = view.num_features();
        let ghost start = *current_best;
        let mut it: usize = 0;
        while it < num_features
            invariant
                self.inv(),
                view_within(view),
                num_features == view.spec_num_features(),
                config.max_gap <= SEARCH_LIMIT,
                config.min_sup == self.config.min_sup,
                1 <= config.max_depth <= self.config.max_depth,
                self.same_setup(*old(self)),
                (!USE_CACHE || parent_index != 0) ==> self.keeps_root(*old(self)),
                self.cache.entries().len() >= 1,
                USE_CACHE && parent_index == 0 && old(self).root_error_is(*old(current_best)) ==> self.root_error_is(*current_best),
                current_best.error <= start.error,
                start.error == old(current_best).error,
                start.error <= SEARCH_LIMIT,
                old(current_best).error > config.max_gap,
                view.points().len() > 1,
                !(USE_CACHE && old(current_best).error != 0 && view.points().len() != 0 && !is_new),
                it <= num_features,
                forall|g: int| #![trigger all_supported(view, g, config.min_sup)]
                    0 <= g < it && all_supported(view, g, config.min_sup) ==> feature_covered(
                        view,
                        g,
                        config.max_gap as nat,
                        current_best.error as int,
                        upper_bound as int,
                        !USE_CACHE,
                    ),
            decreases num_features - it,
        {
            let bound = if upper_bound < current_best.error {
                upper_bound
            } else {
                current_best.error
            };
            let ghost best_before = current_best.error as int;
            let feature_timed_out = self.expand_on_feature(view, it, parent_index, config, current_best, bound);
            if current_best.error == 0 {
                if USE_CACHE {
                    self.mark_optimal(parent_index);
                }
                proof {
                    assert forall|g: int| #![trigger all_supported(view, g, config.min_sup)]
                        0 <= g < view.spec_num_features() && all_supported(view, g, config.min_sup) implies feature_covered(
                        view,
                        g,
                        config.max_gap as nat,
                        0,
                        upper_bound as int,
                        !USE_CACHE,
                    ) by {
                        lemma_trace_exists(view, g, config.max_gap as nat);
                        let tr = choose|tr: SplitTrace| #[trigger] trace_of(view, g, tr) && tr.4 == config.max_gap;
                        lemma_covered_at_zero(view, g, tr, upper_bound as int, !USE_CACHE);
                    }
                }
                return false;
            }
            if feature_timed_out || !self.time_remains() {
                return true;
            }
            proof {
                assert forall|g: int| #![trigger all_supported(view, g, config.min_sup)]
                    0 <= g < it + 1 && all_supported(view, g, config.min_sup) implies feature_covered(
                    view,
                    g,
                    config.max_gap as nat,
                    current_best.error as int,
                    upper_bound as int,
                    !USE_CACHE,
                ) by {
                    if g < it {
                        lemma_feature_covered_monotone(
                            view,
                            g,
                            config.max_gap as nat,
                            best_before,
                            current_best.error as int,
                            upper_bound as int,
                            upper_bound as int,
                            !USE_CACHE,
                        );
                    } else {
                        lemma_feature_covered_monotone(
                            view,
                            g,
                            config.max_gap as nat,
                            current_best.error as int,
                            current_best.error as int,
                            bound as int,
                            upper_bound as int,
                            !USE_CACHE,
                        );
                    }
                }
            }
            it += 1;
        }
        if USE_CACHE {
            self.mark_optimal(parent_index);
        }
        false
    }

    /// Searches the two sides of a split: the larger first, with the first child's
    /// configuration and the node's bound; then, when the bound left over allows it,
    /// the smaller, with the second child's configuration.
    fn evaluate_split(
        &mut self,
        left_view: &DataView,
        right_view: &DataView,
        config: &SearchConfig,
        best_error: usize,
        upper_bound: usize,
        int_half_distance: usize,
    ) -> (r: SplitOutcome)
        requires
            old(self).inv(),
            old(self).cache.entries().len() >= 1,
            view_within(left_view),
            view_within(right_view),
            config.max_gap <= SEARCH_LIMIT,
            config.min_sup == old(self).config.min_sup,
            1 <= config.max_depth <= old(self).config.max_depth,
        ensures
            final(self).inv(),
            final(self).same_setup(*old(self)),
            final(self).keeps_root(*old(self)),
            r.left.error <= SEARCH_LIMIT || (!r.explored && r.left.error == usize::MAX),
            r.right.error <= SEARCH_LIMIT || (!r.explored && r.right.error == usize::MAX),
            r.explored ==> r.left.error <= SEARCH_LIMIT && r.right.error <= SEARCH_LIMIT,
            r.left.error <= SEARCH_LIMIT || r.right.error <= SEARCH_LIMIT,
            !USE_CACHE && r.explored ==> r.left.error <= leaf_error(
                left_view.points(),
                left_view.spec_num_labels() as nat,
            ) && r.right.error <= leaf_error(right_view.points(), right_view.spec_num_labels() as nat),
            !USE_CACHE && r.left.error <= SEARCH_LIMIT ==> r.left.error <= leaf_error(
                left_view.points(),
                left_view.spec_num_labels() as nat,
            ),
            !USE_CACHE && r.right.error <= SEARCH_LIMIT ==> r.right.error <= leaf_error(
                right_view.points(),
                right_view.spec_num_labels() as nat,
            ),
            !r.explored ==> (if best_error <= upper_bound {
                best_error
            } else {
                upper_bound
            }) <= (if r.left.error <= SEARCH_LIMIT {
                r.left.error
            } else {
                r.right.error
            }),
        decreases config.max_depth, 0nat,
    {
        let process_left_first = left_view.len() >= right_view.len();
        let left_config = config.derive_left();
        let larger_upper_bound = if best_error < upper_bound {
            best_error
        } else {
            upper_bound
        };
        self.statistics.general_solver_call = self.statistics.general_solver_call.saturating_add(1);
        let larger = if process_left_first {
            left_view
        } else {
            right_view
        };
        let smaller = if process_left_first {
            right_view
        } else {
            left_view
        };
        let (mut larger_entry, larger_index, larger_new) = child_entry(
            USE_CACHE,
            &mut self.cache,
            larger,
            left_config.max_depth,
            self.config.max_depth - left_config.max_depth,
        );
        let _ = self.expand_node_with_view(
            larger,
            &left_config,
            &mut larger_entry,
            larger_index,
            larger_new,
            larger_upper_bound,
        );
        let larger_error = larger_entry.error;
        let left_over = if larger_upper_bound >= larger_error {
            larger_upper_bound - larger_error
        } else {
            0
        };
        let smaller_upper_bound = if left_over >= int_half_distance {
            left_over
        } else {
            int_half_distance
        };
        if smaller_upper_bound > 0 || best_error == larger_error {
            self.statistics.general_solver_call = self.statistics.general_solver_call.saturating_add(1);
            let right_config = config.derive_right(left_config.max_gap);
            let (mut smaller_entry, smaller_index, smaller_new) = child_entry(
                USE_CACHE,
                &mut self.cache,
                smaller,
                left_config.max_depth,
                self.config.max_depth - right_config.max_depth,
            );
            let _ = self.expand_node_with_view(
                smaller,
                &right_config,
                &mut smaller_entry,
                smaller_index,
                smaller_new,
                smaller_upper_bound,
            );
            if process_left_first {
                SplitOutcome {
                    left: larger_entry,
                    left_index: larger_index,
                    right: smaller_entry,
                    right_index: smaller_index,
                    explored: true,
                }
            } else {
                SplitOutcome {
                    left: smaller_entry,
                    left_index: smaller_index,
                    right: larger_entry,
                    right_index: larger_index,
                    explored: true,
                }
            }
        } else {
            if process_left_first {
                SplitOutcome {
                    left: larger_entry,
                    left_index: larger_index,
                    right: Entry::default(),
                    right_index: 0,
                    explored: false,
                }
            } else {
                SplitOutcome {
                    left: Entry::default(),
                    left_index: 0,
                    right: larger_entry,
                    right_index: larger_index,
                    explored: false,
                }
            }
        }
    }

    /// Score recorded for a side that was not searched: none.
    fn recorded_error(e: &Entry) -> (r: usize)
        ensures
            r == e.error,
    {
        e.error
    }

    /// Searches the splits of feature `feature_index`, picking positions by the
    /// configured selector and pruning the candidate intervals with the results.
    /// Returns whether the time limit cut the search short.
    #[verifier::rlimit(100)]
    #[verifier::spinoff_prover]
    fn expand_on_feature(
        &mut self,
        view: &DataView,
        feature_index: usize,
        cache_index: usize,
        config: &SearchConfig,
        current_best: &mut Entry,
        upper_bound: usize,
    ) -> (timed_out: bool)
        requires
            old(self).inv(),
            old(self).cache.entries().len() >= 1,
            view_within(view),
            feature_index < view.spec_num_features(),
            config.max_gap <= SEARCH_LIMIT,
            config.min_sup == old(self).config.min_sup,
            1 <= config.max_depth <= old(self).config.max_depth,
            old(current_best).error <= SEARCH_LIMIT,
        ensures
            final(self).inv(),
            final(self).same_setup(*old(self)),
            (!USE_CACHE || cache_index != 0) ==> final(self).keeps_root(*old(self)),
            USE_CACHE && cache_index == 0 && old(self).root_error_is(*old(current_best)) ==> final(self).root_error_is(
                *final(current_best),
            ),
            feature_result(
                view,
                feature_index as int,
                config.min_sup,
                *old(current_best),
                *final(current_best),
                !USE_CACHE,
            ),
            !timed_out && all_supported(view, feature_index as int, config.min_sup) ==> feature_covered(
                view,
                feature_index as int,
                config.max_gap as nat,
                final(current_best).error as int,
                upper_bound as int,
                !USE_CACHE,
            ),
        decreases config.max_depth, 2nat,
    {
        if config.point_selector == PointSelector::First {
            let splits = view.possible_splits(feature_index);
            let mut order: Vec<usize> = Vec::new();
            let mut k: usize = 0;
            while k < splits.len()
                invariant
                    k <= splits@.len(),
                    order@.len() == k,
                    forall|j: int| 0 <= j < k ==> #[trigger] order@[j] == j,
                decreases splits@.len() - k,
            {
                order.push(k);
                k += 1;
            }
            let timed_out = self.expand_on_feature_gini_priority(
                view,
                feature_index,
                cache_index,
                config,
                current_best,
                upper_bound,
                &order,
            );
            proof {
                let f = feature_index as int;
                let gap = config.max_gap as nat;
                let best = current_best.error as int;
                let ub = upper_bound as int;
                let uc = !USE_CACHE;
                if !timed_out && all_supported(view, f, config.min_sup) {
                    let tr = choose|tr: SplitTrace|
                        #[trigger] trace_of(view, f, tr) && tr.0 == split_positions(
                            view.column(f),
                            view.column(f).len() as int,
                        ) && tr.4 == gap && forall|j: int|
                            0 <= j < order@.len() && order@[j] < tr.0.len() ==> #[trigger] covered(
                                view,
                                f,
                                tr,
                                best,
                                ub,
                                uc,
                                order@[j] as int,
                            );
                    assert forall|k: int| 0 <= k < tr.0.len() implies #[trigger] covered(
                        view,
                        f,
                        tr,
                        best,
                        ub,
                        uc,
                        k,
                    ) by {
                        assert(order@[k] == k);
                    }
                    assert(trace_of(view, f, tr));
                }
            }
            return timed_out;
        }
        let splits = view.possible_splits(feature_index);
        let ns = splits.len();
        let ghost f = feature_index as int;
        let ghost uc = !USE_CACHE;
        let ghost ub = upper_bound as int;
        let ghost tr0: SplitTrace = (splits@, Map::empty(), None, None, config.max_gap as nat, Map::empty());
        proof {
            assert forall|i: int| is_split_position(view.column(f), i) implies exists|j: int|
                0 <= j < tr0.0.len() && #[trigger] tr0.0[j] == i by {
                let j = choose|j: int| 0 <= j < splits@.len() && #[trigger] splits@[j] == i;
                assert(tr0.0[j] == i);
            }
            assert(trace_of(view, f, tr0));
        }
        if ns == 0 {
            return false;
        }
        let ghost col = view.column(feature_index as int);
        let ghost start = *current_best;
        assert(ns <= SEARCH_LIMIT);
        proof {
            assert(is_sorted(splits@)) by {
                assert forall|i: int, j: int| 0 <= i <= j < splits@.len() implies splits@[i] <= splits@[j] by {
                    if i < j {
                        assert(splits@[i] < splits@[j]);
                    }
                }
            }
            assert forall|i: int| 0 <= i < splits@.len() implies splits@[i] <= SEARCH_LIMIT by {
                assert(is_split_position(col, splits@[i] as int));
            }
        }
        let mut pruner = IntervalsPruner::new(splits.as_slice(), config.max_gap);
        let ghost mut found: Map<usize, int> = Map::empty();
        let mut queue: VecDeque<Bound> = VecDeque::new();
        queue.push_back(Bound::new(0, ns - 1, None, None));
        proof {
            assert(trace_of_pruner(pruner, found).0 == tr0.0);
            lemma_state_init(view, f, config.min_sup, uc, ub, current_best.error as int, pruner, queue@);
        }
        while queue.len() > 0
            invariant
                self.inv(),
                view_within(view),
                feature_index < view.spec_num_features(),
                f == feature_index,
                uc == !USE_CACHE,
                ub == upper_bound,
                col == view.column(feature_index as int),
                config.max_gap <= SEARCH_LIMIT,
                config.min_sup == self.config.min_sup,
                1 <= config.max_depth <= self.config.max_depth,
                self.same_setup(*old(self)),
                (!USE_CACHE || cache_index != 0) ==> self.keeps_root(*old(self)),
                self.cache.entries().len() >= 1,
                USE_CACHE && cache_index == 0 && old(self).root_error_is(*old(current_best)) ==> self.root_error_is(*current_best),
                start == *old(current_best),
                start.error <= SEARCH_LIMIT,
                feature_result(view, feature_index as int, config.min_sup, start, *current_best, !USE_CACHE),
                ns == splits@.len(),
                0 < ns <= SEARCH_LIMIT,
                pruner.splits() == splits@,
                pruner.gap() == config.max_gap,
                is_sorted(splits@),
                forall|i: int| 0 <= i < splits@.len() ==> splits@[i] <= SEARCH_LIMIT,
                forall|j: int| 0 <= j < splits@.len() ==> is_split_position(col, #[trigger] splits@[j] as int),
                pruner.scores_within(SEARCH_LIMIT as int),
                forall|i: int| 0 <= i < queue@.len() ==> (#[trigger] queue@[i]).left_bound
                    <= queue@[i].right_bound && queue@[i].right_bound < ns,
                search_state(view, f, config.min_sup, uc, ub, current_best.error as int, pruner, found, queue@),
            decreases pending(queue@),
        {
            proof {
                lemma_pending_pop(queue@, 0);
                assert(queue@.skip(0) =~= queue@);
            }
            let ghost before_pop = pending(queue@);
            let ghost before_queue = queue@;
            let ghost tr_before = trace_of_pruner(pruner, found);
            let ghost best_before = current_best.error as int;
            if !self.time_remains() {
                return true;
            }
            let mut current_bound = match queue.pop_front() {
                Some(b) => b,
                None => {
                    return true;
                },
            };
            let ghost popped = current_bound;
            assert(queue@ =~= before_queue.skip(1));
            proof {
                lemma_state_facts(view, f, config.min_sup, uc, ub, best_before, pruner, found, before_queue);
                assert(popped == before_queue[0]);
                assert(in_bound(before_queue[0], before_queue[0].left_bound as int));
            }
            let ghost after_pop = pending(queue@);
            assert(after_pop + bound_size(popped) == before_pop);
            if pruner.subinterval_pruning(&current_bound, current_best.error) {
                proof {
                    assert forall|k: int| 0 <= k < ns && #[trigger] in_bound(before_queue[0], k) implies pruned_by_rule(
                        tr_before,
                        k,
                        best_before,
                    ) by {
                        lemma_bracketed(pruner, found, popped, current_best.error, k);
                    }
                    lemma_state_drop(view, f, config.min_sup, uc, ub, best_before, pruner, found, before_queue);
                }
                continue;
            }
            let clamped = pruner.clamped(&current_bound);
            assert(clamped.right_bound <= popped.right_bound);
            if clamped.left_bound > clamped.right_bound || clamped.right_bound >= ns {
                proof {
                    assert forall|k: int| 0 <= k < ns && #[trigger] in_bound(before_queue[0], k) implies pruned_by_rule(
                        tr_before,
                        k,
                        best_before,
                    ) by {
                        lemma_clamped_out(pruner, found, popped, k);
                    }
                    lemma_state_drop(view, f, config.min_sup, uc, ub, best_before, pruner, found, before_queue);
                }
                continue;
            }
            proof {
                pruner.lemma_shrinking_defined(current_bound, current_best.error, SEARCH_LIMIT as int);
                pruner.lemma_shrinking_discards_only_hopeless_splits(
                    current_bound,
                    current_best.error,
                    current_bound.left_bound as int,
                );
                assert forall|k: int|
                    0 <= k < ns && in_bound(popped, k) && !in_bound(
                        pruner.shrunk(popped, current_best.error),
                        k,
                    ) implies #[trigger] pruned_by_rule(tr_before, k, best_before) by {
                    pruner.lemma_shrinking_discards_only_hopeless_splits(popped, current_best.error, k);
                    lemma_discardable_is_rule(pruner, found, popped, current_best.error, k);
                }
            }
            pruner.interval_shrinking(&mut current_bound, current_best.error);
            if !current_bound.is_valid() {
                proof {
                    assert forall|k: int| 0 <= k < ns && #[trigger] in_bound(before_queue[0], k) implies pruned_by_rule(
                        tr_before,
                        k,
                        best_before,
                    ) by {
                        assert(in_bound(popped, k));
                    }
                    lemma_state_drop(view, f, config.min_sup, uc, ub, best_before, pruner, found, before_queue);
                }
                continue;
            }
            let ghost shrunk_b = current_bound;
            assert(popped.left_bound <= current_bound.left_bound && current_bound.right_bound
                <= popped.right_bound);
            assert(current_bound.last_split_left_index == popped.last_split_left_index
                && current_bound.last_split_right_index == popped.last_split_right_index);
            let selected_point = pick_point(config, &current_bound, &mut self.rng);
            assert(current_bound.left_bound <= selected_point <= current_bound.right_bound);
            let split_point = splits[selected_point];
            let from_left = split_point - splits[current_bound.left_bound];
            let from_right = splits[current_bound.right_bound] - split_point;
            let int_half_distance = if from_left >= from_right {
                from_left
            } else {
                from_right
            };
            assert(is_split_position(col, splits@[selected_point as int] as int));
            let threshold = view.value_at(feature_index, split_point);
            let (left_view, right_view) = view.split(feature_index, split_point);
            if left_view.len() < self.config.min_sup || right_view.len() < self.config.min_sup {
                proof {
                    if all_supported(view, f, config.min_sup) {
                        assert(supported_split(view, f, split_point as int, config.min_sup));
                    }
                    lemma_state_drop(view, f, config.min_sup, uc, ub, best_before, pruner, found, before_queue);
                }
                continue;
            }
            proof {
                assert forall|g: int| 0 <= g < left_view.spec_num_features() implies #[trigger] left_view.column(g).len()
                    <= SEARCH_LIMIT by {
                    assert(left_view.column(g).len() <= view.column(g).len());
                }
                assert forall|g: int| 0 <= g < right_view.spec_num_features() implies #[trigger] right_view.column(g).len()
                    <= SEARCH_LIMIT by {
                    assert(left_view.column(g).len() <= view.column(g).len());
                    assert(right_view.column(g).len() <= view.column(g).len());
                }
            }
            let best_error = current_best.error;
            let outcome = self.evaluate_split(
                &left_view,
                &right_view,
                config,
                best_error,
                upper_bound,
                int_half_distance,
            );
            let ghost v: int = if outcome.explored {
                outcome.left.error + outcome.right.error
            } else if outcome.left.error <= SEARCH_LIMIT {
                outcome.left.error as int
            } else {
                outcome.right.error as int
            };
            let right_error = if outcome.explored {
                outcome.right.error
            } else {
                usize::MAX
            };
            if outcome.explored {
                let feature_best = outcome.left.error + outcome.right.error;
                if feature_best < current_best.error {
                    current_best.error = feature_best;
                    current_best.feature = feature_index;
                    current_best.split = threshold;
                    current_best.left = outcome.left_index;
                    current_best.right = outcome.right_index;
                    current_best.is_optimal = feature_best == 0;
                    proof {
                        assert(supported_split(view, feature_index as int, split_point as int, config.min_sup));
                    }
                    if USE_CACHE {
                        self.store(cache_index, *current_best);
                    }
                    if feature_best == 0 {
                        proof {
                            lemma_state_facts(view, f, config.min_sup, uc, ub, best_before, pruner, found, before_queue);
                            lemma_covered_at_zero(view, f, tr_before, ub, uc);
                        }
                        return false;
                    }
                }
            }
            let left_recorded = Self::recorded_error(&outcome.left);
            let ghost old_record = pruner.record();
            let ghost old_pruner = pruner;
            pruner.add_result(selected_point, left_recorded, right_error);
            proof {
                assert forall|i: usize| #[trigger] pruner.record().contains_key(i) implies i < pruner.splits().len()
                    && pruner.record()[i].0 <= SEARCH_LIMIT && pruner.record()[i].1 <= SEARCH_LIMIT by {
                    if i != selected_point {
                        assert(old_record.contains_key(i));
                    }
                }
                if uc {
                    assert(v <= split_leaf_error(view, f, split_point as int)) by {
                        lemma_max_count_bounds(label_counts(left_view.points(), view.spec_num_labels() as nat));
                        lemma_max_count_bounds(label_counts(right_view.points(), view.spec_num_labels() as nat));
                    }
                    assert(splits@[selected_point as int] == split_point);
                }
                assert(in_bound(before_queue[0], selected_point as int));
            }
            if current_bound.left_bound == current_bound.right_bound {
                proof {
                    lemma_state_single(
                        view,
                        f,
                        config.min_sup,
                        uc,
                        ub,
                        best_before,
                        current_best.error as int,
                        old_pruner,
                        pruner,
                        found,
                        before_queue,
                        selected_point,
                        v,
                    );
                    found = found.insert(selected_point, v);
                }
                assert(bound_size(popped) >= 1);
                continue;
            }
            let score_difference = if outcome.explored {
                let sum = outcome.left.error + outcome.right.error;
                if sum >= current_best.error {
                    sum - current_best.error
                } else {
                    0
                }
            } else {
                let known = if outcome.left.error <= SEARCH_LIMIT {
                    outcome.left.error
                } else {
                    outcome.right.error
                };
                if known >= current_best.error {
                    known - current_best.error
                } else {
                    0
                }
            };
            proof {
                pruner.lemma_neighbourhood_defined(
                    score_difference,
                    current_bound.left_bound,
                    current_bound.right_bound,
                    selected_point,
                    SEARCH_LIMIT as int,
                );
            }
            let (new_left, new_right) = pruner.neighbourhood_pruning(
                score_difference,
                current_bound.left_bound,
                current_bound.right_bound,
                selected_point,
            );
            let ghost mid = queue@;
            let right_start = if new_left > selected_point {
                new_left
            } else {
                selected_point + 1
            };
            if right_start <= current_bound.right_bound {
                let b = Bound {
                    left_bound: right_start,
                    right_bound: current_bound.right_bound,
                    last_split_left_index: Some(selected_point),
                    last_split_right_index: current_bound.last_split_right_index,
                };
                queue.push_back(b);
            }
            let ghost first_push = queue@;
            if selected_point > 0 {
                let left_end = if new_right < selected_point {
                    new_right
                } else {
                    selected_point - 1
                };
                if current_bound.left_bound <= left_end {
                    let b = Bound {
                        left_bound: current_bound.left_bound,
                        right_bound: left_end,
                        last_split_left_index: current_bound.last_split_left_index,
                        last_split_right_index: Some(selected_point),
                    };
                    queue.push_back(b);
                }
            }
            proof {
                if first_push.len() > mid.len() {
                    assert(mid.push(first_push.last()) == first_push);
                    lemma_pending_push(mid, first_push.last());
                } else {
                    assert(first_push == mid);
                }
                if queue@.len() > first_push.len() {
                    assert(queue@ =~= first_push.push(queue@.last()));
                    lemma_pending_push(first_push, queue@.last());
                } else {
                    assert(queue@ == first_push);
                }
                assert(pending(queue@) < before_pop);
                assert(queue@ =~= before_queue.skip(1) + split_pushes(
                    shrunk_b,
                    selected_point,
                    new_left as int,
                    new_right as int,
                ));
                lemma_state_split(
                    view,
                    f,
                    config.min_sup,
                    uc,
                    ub,
                    best_before,
                    current_best.error,
                    old_pruner,
                    pruner,
                    found,
                    before_queue,
                    shrunk_b,
                    selected_point,
                    v,
                    score_difference,
                );
                found = found.insert(selected_point, v);
            }
        }
        if USE_CACHE {
            self.mark_optimal(cache_index);
        }
        proof {
            if all_supported(view, f, config.min_sup) {
                lemma_state_done(view, f, config.min_sup, uc, ub, current_best.error as int, pruner, found, queue@);
            }
        }
        false
    }

    /// Replaces cache entry `index` with `entry`, if there is one.
    fn store(&mut self, index: usize, entry: Entry)
        requires
            old(self).inv(),
            entry.error <= SEARCH_LIMIT,
        ensures
            final(self).inv(),
            final(self).same_setup(*old(self)),
            old(self).cache.entries().len() >= 1 && index != 0 ==> final(self).keeps_root(*old(self)),
            old(self).cache.entries().len() >= 1 && index == 0 ==> final(self).root_error_is(entry),
    {
        let ghost before = self.cache.entries();
        let _ = self.cache.set(index, entry);
        proof {
            if USE_CACHE {
                assert forall|i: int| 0 <= i < self.cache.entries().len() implies #[trigger] self.cache.entries()[i].error
                    <= SEARCH_LIMIT by {
                    if i != index {
                        assert(self.cache.entries()[i] == before[i]);
                    }
                }
            }
        }
    }

    /// Searches the splits of feature `feature_index` in the given `order` of split
    /// positions, skipping those that earlier results have pruned. Returns whether the
    /// time limit cut the search short.
    #[verifier::rlimit(100)]
    #[verifier::spinoff_prover]
    fn expand_on_feature_gini_priority(
        &mut self,
        view: &DataView,
        feature_index: usize,
        cache_index: usize,
        config: &SearchConfig,
        current_best: &mut Entry,
        upper_bound: usize,
        order: &Vec<usize>,
    ) -> (timed_out: bool)
        requires
            old(self).inv(),
            old(self).cache.entries().len() >= 1,
            view_within(view),
            feature_index < view.spec_num_features(),
            config.max_gap <= SEARCH_LIMIT,
            config.min_sup == old(self).config.min_sup,
            1 <= config.max_depth <= old(self).config.max_depth,
            old(current_best).error <= SEARCH_LIMIT,
        ensures
            final(self).inv(),
            final(self).same_setup(*old(self)),
            (!USE_CACHE || cache_index != 0) ==> final(self).keeps_root(*old(self)),
            USE_CACHE && cache_index == 0 && old(self).root_error_is(*old(current_best)) ==> final(self).root_error_is(
                *final(current_best),
            ),
            feature_result(
                view,
                feature_index as int,
                config.min_sup,
                *old(current_best),
                *final(current_best),
                !USE_CACHE,
            ),
            !timed_out && all_supported(view, feature_index as int, config.min_sup) ==> order_covered(
                view,
                feature_index as int,
                config.max_gap as nat,
                final(current_best).error as int,
                upper_bound as int,
                !USE_CACHE,
                order@,
            ),
        decreases config.max_depth, 1nat,
    {
        let splits = view.possible_splits(feature_index);
        let ns = splits.len();
        let ghost f = feature_index as int;
        let ghost uc = !USE_CACHE;
        let ghost ub = upper_bound as int;
        let ghost tr0: SplitTrace = (splits@, Map::empty(), None, None, config.max_gap as nat, Map::empty());
        proof {
            assert forall|i: int| is_split_position(view.column(f), i) implies exists|j: int|
                0 <= j < tr0.0.len() && #[trigger] tr0.0[j] == i by {
                let j = choose|j: int| 0 <= j < splits@.len() && #[trigger] splits@[j] == i;
                assert(tr0.0[j] == i);
            }
            assert(trace_of(view, f, tr0));
        }
        if ns == 0 {
            proof {
                assert(order_covered(view, f, config.max_gap as nat, current_best.error as int, ub, uc, order@));
            }
            return false;
        }
        let ghost col = view.column(feature_index as int);
        let ghost start = *current_best;
        assert(ns <= SEARCH_LIMIT);
        proof {
            assert(is_sorted(splits@)) by {
                assert forall|i: int, j: int| 0 <= i <= j < splits@.len() implies splits@[i] <= splits@[j] by {
                    if i < j {
                        assert(splits@[i] < splits@[j]);
                    }
                }
            }
            assert forall|i: int| 0 <= i < splits@.len() implies splits@[i] <= SEARCH_LIMIT by {
                assert(is_split_position(col, splits@[i] as int));
            }
        }
        let mut pruner = IntervalsPruner::new(splits.as_slice(), config.max_gap);
        let mut pruned: Vec<bool> = Vec::new();
        let mut q: usize = 0;
        while q < ns
            invariant
                q <= ns,
                pruned@.len() == q,
                forall|i: int| 0 <= i < q ==> !pruned@[i],
            decreases ns - q,
        {
            pruned.push(false);
            q += 1;
        }
        let ghost mut found: Map<usize, int> = Map::empty();
        proof {
            assert(trace_of_pruner(pruner, found).0 == tr0.0);
            lemma_marked_init(view, f, config.min_sup, uc, ub, current_best.error as int, pruner, pruned@);
        }
        let mut k: usize = 0;
        while k < order.len()
            invariant
                f == feature_index,
                uc == !USE_CACHE,
                ub == upper_bound,
                k <= order@.len(),
                marked_state(view, f, config.min_sup, uc, ub, current_best.error as int, pruner, found, pruned@),
                forall|j: int| 0 <= j < k && order@[j] < ns ==> #[trigger] pruned@[order@[j] as int],
                self.inv(),
                view_within(view),
                feature_index < view.spec_num_features(),
                col == view.column(feature_index as int),
                config.max_gap <= SEARCH_LIMIT,
                config.min_sup == self.config.min_sup,
                1 <= config.max_depth <= self.config.max_depth,
                self.same_setup(*old(self)),
                (!USE_CACHE || cache_index != 0) ==> self.keeps_root(*old(self)),
                self.cache.entries().len() >= 1,
                USE_CACHE && cache_index == 0 && old(self).root_error_is(*old(current_best)) ==> self.root_error_is(*current_best),
                start == *old(current_best),
                start.error <= SEARCH_LIMIT,
                feature_result(view, feature_index as int, config.min_sup, start, *current_best, !USE_CACHE),
                ns == splits@.len(),
                0 < ns <= SEARCH_LIMIT,
                pruned@.len() == ns,
                is_sorted(splits@),
                pruner.splits() == splits@,
                pruner.gap() == config.max_gap,
                forall|i: int| 0 <= i < splits@.len() ==> splits@[i] <= SEARCH_LIMIT,
                forall|j: int| 0 <= j < splits@.len() ==> is_split_position(col, #[trigger] splits@[j] as int),
                pruner.scores_within(SEARCH_LIMIT as int),
            decreases order@.len() - k,
        {
            if !self.time_remains() {
                return true;
            }
            let split_idx = order[k];
            k += 1;
            if split_idx >= ns || pruned[split_idx] {
                continue;
            }
            let ghost best_before = current_best.error as int;
            let ghost marks_before = pruned@;
            proof {
                lemma_marked_facts(view, f, config.min_sup, uc, ub, best_before, pruner, found, pruned@);
            }
            let mut current_left = split_idx;
            while current_left > 0 && pruned[current_left - 1]
                invariant
                    current_left <= split_idx < ns,
                    pruned@.len() == ns,
                decreases current_left,
            {
                current_left -= 1;
            }
            if current_left > 0 {
                current_left -= 1;
            }
            let mut current_right = split_idx;
            while current_right < ns - 1 && pruned[current_right + 1]
                invariant
                    split_idx <= current_right < ns,
                    pruned@.len() == ns,
                decreases ns - current_right,
            {
                current_right += 1;
            }
            if current_right < ns - 1 {
                current_right += 1;
            }
            let split_point = splits[split_idx];
            assert(is_split_position(col, splits@[split_idx as int] as int));
            let threshold = view.value_at(feature_index, split_point);
            let (left_view, right_view) = view.split(feature_index, split_point);
            if left_view.len() < self.config.min_sup || right_view.len() < self.config.min_sup {
                proof {
                    if all_supported(view, f, config.min_sup) {
                        assert(supported_split(view, f, split_point as int, config.min_sup));
                    }
                    lemma_marked_unsupported(view, f, config.min_sup, uc, ub, best_before, pruner, found, pruned@, split_idx as int);
                }
                pruned.set(split_idx, true);
                continue;
            }
            proof {
                assert forall|g: int| 0 <= g < left_view.spec_num_features() implies #[trigger] left_view.column(g).len()
                    <= SEARCH_LIMIT by {
                    assert(left_view.column(g).len() <= view.column(g).len());
                }
                assert forall|g: int| 0 <= g < right_view.spec_num_features() implies #[trigger] right_view.column(g).len()
                    <= SEARCH_LIMIT by {
                    assert(left_view.column(g).len() <= view.column(g).len());
                    assert(right_view.column(g).len() <= view.column(g).len());
                }
            }
            let from_first = split_point - splits[0];
            let to_last = splits[ns - 1] - split_point;
            let int_half_distance = if from_first >= to_last {
                from_first
            } else {
                to_last
            };
            let best_error = current_best.error;
            let outcome = self.evaluate_split(
                &left_view,
                &right_view,
                config,
                best_error,
                upper_bound,
                int_half_distance,
            );
            let ghost v: int = if outcome.explored {
                outcome.left.error + outcome.right.error
            } else if outcome.left.error <= SEARCH_LIMIT {
                outcome.left.error as int
            } else {
                outcome.right.error as int
            };
            let right_error = if outcome.explored {
                outcome.right.error
            } else {
                usize::MAX
            };
            if outcome.explored {
                let feature_best = outcome.left.error + outcome.right.error;
                if feature_best < current_best.error {
                    current_best.error = feature_best;
                    current_best.feature = feature_index;
                    current_best.split = threshold;
                    current_best.left = outcome.left_index;
                    current_best.right = outcome.right_index;
                    current_best.is_optimal = feature_best == 0;
                    proof {
                        assert(supported_split(view, feature_index as int, split_point as int, config.min_sup));
                    }
                    if USE_CACHE {
                        self.store(cache_index, *current_best);
                    }
                }
            }
            let left_recorded = Self::recorded_error(&outcome.left);
            let ghost old_record = pruner.record();
            let ghost old_pruner = pruner;
            pruner.add_result(split_idx, left_recorded, right_error);
            proof {
                if uc {
                    assert(v <= split_leaf_error(view, f, split_point as int)) by {
                        lemma_max_count_bounds(label_counts(left_view.points(), view.spec_num_labels() as nat));
                        lemma_max_count_bounds(label_counts(right_view.points(), view.spec_num_labels() as nat));
                    }
                    assert(splits@[split_idx as int] == split_point);
                }
            }
            proof {
                assert forall|i: usize| #[trigger] pruner.record().contains_key(i) implies i < pruner.splits().len()
                    && pruner.record()[i].0 <= SEARCH_LIMIT && pruner.record()[i].1 <= SEARCH_LIMIT by {
                    if i != split_idx {
                        assert(old_record.contains_key(i));
                    }
                }
            }
            let score_difference = if outcome.explored {
                let sum = outcome.left.error + outcome.right.error;
                if sum >= current_best.error {
                    sum - current_best.error
                } else {
                    0
                }
            } else {
                let known = if outcome.left.error <= SEARCH_LIMIT {
                    outcome.left.error
                } else {
                    outcome.right.error
                };
                if known >= current_best.error {
                    known - current_best.error
                } else {
                    0
                }
            };
            proof {
                pruner.lemma_neighbourhood_defined(
                    score_difference,
                    0,
                    (ns - 1) as usize,
                    split_idx,
                    SEARCH_LIMIT as int,
                );
            }
            let (new_left, new_right) = pruner.neighbourhood_pruning(
                score_difference,
                0,
                ns - 1,
                split_idx,
            );
            mark_pruned(&mut pruned, split_idx, new_left, new_right, current_left, current_right);
            proof {
                lemma_marked_split(
                    view,
                    f,
                    config.min_sup,
                    uc,
                    ub,
                    best_before,
                    current_best.error,
                    old_pruner,
                    pruner,
                    found,
                    marks_before,
                    pruned@,
                    split_idx,
                    v,
                    score_difference,
                    current_left,
                    current_right,
                );
                found = found.insert(split_idx, v);
            }
            if current_best.error == 0 {
                proof {
                    lemma_marked_zero(view, f, config.min_sup, uc, ub, 0, pruner, found, pruned@, order@);
                }
                if USE_CACHE {
                    self.mark_optimal(cache_index);
                }
                return false;
            }
        }
        if USE_CACHE {
            self.mark_optimal(cache_index);
        }
        proof {
            if all_supported(view, f, config.min_sup) {
                lemma_marked_done(view, f, config.min_sup, uc, ub, current_best.error as int, pruner, found, pruned@, order@);
            }
        }
        false
    }

    /// The split position that `config` picks in `bound`.
    pub fn select_point(&mut self, config: &SearchConfig, bound: &Bound) -> (r: usize)
        requires
            point_selectable(config.point_selector, *bound),
        ensures
            picks_point(config.point_selector, *bound, r),
            final(self).config() == old(self).config(),
            final(self).spec_statistics() == old(self).spec_statistics(),
    {
        pick_point(config, bound, &mut self.rng)
    }

    pub fn statistics(&self) -> (s: Statistics)
        ensures
            s == self.spec_statistics(),
    {
        self.statistics
    }
}

} // verus!
