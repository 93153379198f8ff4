use vstd::prelude::*;

verus! {

/// Enumerates the budgets `(discrepancy, splits)` with `discrepancy <= max_dis` and
/// `1 <= splits <= max_split`, by increasing total `discrepancy + splits`, and by
/// increasing discrepancy for the same total.
pub struct BudgetIterator {
    max_dis: usize,
    max_split: usize,
    current_sum: usize,
    current_dis: usize,
}

/// `(d, s)` comes no earlier than position `pos` (a total and a discrepancy) in the
/// enumeration order.
pub open spec fn not_before(pos: (int, int), d: int, s: int) -> bool {
    d + s > pos.0 || (d + s == pos.0 && d >= pos.1)
}

impl BudgetIterator {
    /// Largest discrepancy enumerated.
    pub closed spec fn max_dis(&self) -> nat {
        self.max_dis as nat
    }

    /// Largest number of splits enumerated.
    pub closed spec fn max_split(&self) -> nat {
        self.max_split as nat
    }

    /// Where the enumeration stands: the total and the discrepancy it tries next.
    pub closed spec fn position(&self) -> (int, int) {
        (self.current_sum as int, self.current_dis as int)
    }

    /// The iterator's state is one that the enumeration can reach.
    pub closed spec fn wf(&self) -> bool {
        &&& self.max_dis + self.max_split < usize::MAX
        &&& 1 <= self.current_sum <= self.max_dis + self.max_split + 1
    }

    /// `(d, s)` is one of the budgets enumerated.
    pub open spec fn admissible(&self, d: int, s: int) -> bool {
        0 <= d <= self.max_dis() && 1 <= s <= self.max_split()
    }

    /// `(d, s)` is an admissible budget not yet handed out.
    pub open spec fn remaining(&self, d: int, s: int) -> bool {
        self.admissible(d, s) && not_before(self.position(), d, s)
    }

    /// `after` and the result `r` are what `next` leaves and returns from `self`: the
    /// least remaining budget, which is then no longer remaining, or none when none
    /// remains.
    pub open spec fn next_result(&self, r: Option<(usize, usize)>, after: Self) -> bool {
        &&& after.max_dis() == self.max_dis()
        &&& after.max_split() == self.max_split()
        &&& match r {
                Some((d, s)) => {
                    &&& self.remaining(d as int, s as int)
                    &&& forall|d2: int, s2: int|
                        self.remaining(d2, s2) ==> (d + s < d2 + s2 || (d + s == d2 + s2 && d
                            <= d2))
                    &&& after.position() == ((d + s) as int, d + 1)
                    &&& forall|d2: int, s2: int|
                        #![trigger after.remaining(d2, s2)]
                        after.remaining(d2, s2) <==> (self.remaining(d2, s2) && (d2
                            != d || s2 != s))
                },
                None => forall|d2: int, s2: int|
                    #![trigger self.remaining(d2, s2)]
                    !self.remaining(d2, s2) && !after.remaining(d2, s2),
            }
    }

    pub fn new(max_dis: usize, max_split: usize) -> (it: Self)
        requires
            max_dis + max_split < usize::MAX,
        ensures
            it.wf(),
            it.max_dis() == max_dis,
            it.max_split() == max_split,
            it.position() == (1int, 0int),
            forall|d: int, s: int| it.admissible(d, s) ==> it.remaining(d, s),
    {
        Self { max_dis, max_split, current_sum: 1, current_dis: 0 }
    }

    /// The next budget in the enumeration, `None` once all were handed out.
    pub fn next(&mut self) -> (r: Option<(usize, usize)>)
        requires
            old(self).wf(),
        ensures
            final(self).wf(),
            final(self).max_dis() == old(self).max_dis(),
            final(self).max_split() == old(self).max_split(),
            old(self).next_result(r, *final(self)),
    {
        let max_total_sum = self.max_dis + self.max_split;
        let ghost start = self.position();

        while self.current_sum <= max_total_sum
            invariant
                self.max_dis == old(self).max_dis,
                self.max_split == old(self).max_split,
                max_total_sum == self.max_dis + self.max_split,
                max_total_sum < usize::MAX,
                start == old(self).position(),
                1 <= self.current_sum <= max_total_sum + 1,
                forall|d2: int, s2: int|
                    #![trigger old(self).admissible(d2, s2)]
                    old(self).admissible(d2, s2) && not_before(start, d2, s2) ==> not_before(
                        self.position(),
                        d2,
                        s2,
                    ),
                not_before(start, self.current_dis as int, self.current_sum - self.current_dis),
            decreases max_total_sum + 1 - self.current_sum,
        {
            // Constraint: split >= 1  =>  (current_sum - dis) >= 1  =>  dis <= current_sum - 1
            let max_dis_for_split_limit = self.current_sum.saturating_sub(1);

            // Calculate valid range for current_dis
            let min_dis_for_sum = if self.current_sum > self.max_split {
                self.current_sum - self.max_split
            } else {
                0
            };

            let max_dis_for_sum = if max_dis_for_split_limit <= self.max_dis {
                max_dis_for_split_limit
            } else {
                self.max_dis
            };

            // Ensure current_dis is within the window
            if self.current_dis < min_dis_for_sum {
                self.current_dis = min_dis_for_sum;
            }

            if self.current_dis <= max_dis_for_sum {
                let dis = self.current_dis;
                let split = self.current_sum - dis;

                self.current_dis += 1;
                return Some((dis, split));
            } else {
                // Move to next diagonal
                self.current_sum += 1;
                self.current_dis = 0;
            }
        }
        None
    }
}

/// `a` comes strictly before `b` in the enumeration order: by total, then by discrepancy.
pub open spec fn budget_before(a: (usize, usize), b: (usize, usize)) -> bool {
    a.0 + a.1 < b.0 + b.1 || (a.0 + a.1 == b.0 + b.1 && a.0 < b.0)
}

/// Calling `next` on a fresh iterator hands out admissible budgets in strictly
/// increasing order (so each at most once), and what remains is exactly the admissible
/// budgets not yet handed out.
pub proof fn lemma_budgets_enumerated(its: Seq<BudgetIterator>, outs: Seq<(usize, usize)>)
    requires
        its.len() == outs.len() + 1,
        forall|d: int, s: int| its[0].admissible(d, s) ==> its[0].remaining(d, s),
        forall|k: int| 0 <= k < outs.len() ==> #[trigger] its[k].next_result(Some(outs[k]), its[k + 1]),
    ensures
        forall|k: int| 0 <= k < outs.len() ==> its[0].admissible((#[trigger] outs[k]).0 as int, outs[k].1 as int),
        forall|j: int, k: int| 0 <= j < k < outs.len() ==> budget_before(#[trigger] outs[j], #[trigger] outs[k]),
        its.last().max_dis() == its[0].max_dis(),
        its.last().max_split() == its[0].max_split(),
        forall|d: int, s: int| #[trigger] its.last().remaining(d, s) <==> (its[0].admissible(d, s) && forall|k: int|
            0 <= k < outs.len() ==> #[trigger] outs[k] != (d as usize, s as usize)),
    decreases outs.len(),
{
    let n = outs.len() as int;
    if n == 0 {
        return;
    }
    let ps = its.drop_last();
    let qs = outs.drop_last();
    assert forall|k: int| 0 <= k < qs.len() implies #[trigger] ps[k].next_result(Some(qs[k]), ps[k + 1]) by {
        assert(its[k].next_result(Some(outs[k]), its[k + 1]));
    }
    lemma_budgets_enumerated(ps, qs);
    let prev = its[n - 1];
    assert(ps.last() == prev);
    assert(prev.next_result(Some(outs[n - 1]), its[n]));
    let (d0, s0) = outs[n - 1];
    assert(prev.remaining(d0 as int, s0 as int));
    assert forall|k: int| 0 <= k < n - 1 implies #[trigger] qs[k] == outs[k] by {}
    assert forall|d: int, s: int| #[trigger] its.last().remaining(d, s) <==> (its[0].admissible(d, s) && forall|k: int|
        0 <= k < outs.len() ==> #[trigger] outs[k] != (d as usize, s as usize)) by {
        assert(its.last() == its[n]);
        if its[n].remaining(d, s) {
            assert(prev.remaining(d, s));
            assert forall|k: int| 0 <= k < outs.len() implies #[trigger] outs[k] != (d as usize, s as usize) by {
                if k < n - 1 {
                    assert(qs[k] == outs[k]);
                }
            }
        }
        if its[0].admissible(d, s) && forall|k: int| 0 <= k < outs.len() ==> #[trigger] outs[k] != (d as usize, s as usize) {
            assert forall|k: int| 0 <= k < qs.len() implies #[trigger] qs[k] != (d as usize, s as usize) by {
                assert(outs[k] != (d as usize, s as usize));
            }
            assert(prev.remaining(d, s));
            assert(outs[n - 1] != (d as usize, s as usize));
        }
    }
    assert forall|j: int, k: int| 0 <= j < k < outs.len() implies budget_before(#[trigger] outs[j], #[trigger] outs[k]) by {
        if k < n - 1 {
            assert(qs[j] == outs[j] && qs[k] == outs[k]);
        } else {
            // outs[j] was the least budget remaining at step j, and outs[k] was
            // remaining then too.
            lemma_budgets_enumerated(its.take(j + 1), outs.take(j));
            assert(its.take(j + 1).last() == its[j]);
            assert(its[j].next_result(Some(outs[j]), its[j + 1]));
            assert forall|q: int| 0 <= q < outs.take(j).len() implies #[trigger] outs.take(j)[q] != outs[k] by {
                assert(outs.take(j)[q] == qs[q]);
                assert(qs[q] != (d0, s0));
            }
            assert(its[j].remaining(d0 as int, s0 as int));
            assert(outs[j] != outs[k]) by {
                assert(qs[j] != (d0, s0));
            }
        }
    }
    assert forall|k: int| 0 <= k < outs.len() implies its[0].admissible((#[trigger] outs[k]).0 as int, outs[k].1 as int) by {
        if k < n - 1 {
            assert(qs[k] == outs[k]);
        }
    }
}

/// Once `next` has returned `None` after handing out `outs` from a fresh iterator,
/// every admissible budget was handed out.
pub proof fn lemma_budgets_exhausted(its: Seq<BudgetIterator>, outs: Seq<(usize, usize)>, last: BudgetIterator)
    requires
        its.len() == outs.len() + 1,
        forall|d: int, s: int| its[0].admissible(d, s) ==> its[0].remaining(d, s),
        forall|k: int| 0 <= k < outs.len() ==> #[trigger] its[k].next_result(Some(outs[k]), its[k + 1]),
        its.last().next_result(None, last),
    ensures
        forall|d: int, s: int| its[0].admissible(d, s) ==> exists|k: int| 0 <= k < outs.len() && #[trigger] outs[k] == (d as usize, s as usize),
{
    lemma_budgets_enumerated(its, outs);
    assert forall|d: int, s: int| its[0].admissible(d, s) implies exists|k: int| 0 <= k < outs.len() && #[trigger] outs[k] == (d as usize, s as usize) by {
        assert(!its.last().remaining(d, s));
    }
}

} // verus!
