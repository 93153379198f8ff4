use super::{DataPoint, Dataset};
use crate::common::{lemma_total_update, total};
use vstd::prelude::*;

verus! {

/// The rows of `s`.
pub open spec fn tids(s: Seq<DataPoint>) -> Set<usize> {
    Set::new(|t: usize| exists|i: int| 0 <= i < s.len() && s[i].tid == t)
}

/// The entries of `s`, in order, whose row is in `chosen` (`keep`) or not (`!keep`).
pub open spec fn side(s: Seq<DataPoint>, chosen: Set<usize>, keep: bool) -> Seq<DataPoint>
    decreases s.len(),
{
    if s.len() == 0 {
        Seq::empty()
    } else {
        let rest = side(s.drop_last(), chosen, keep);
        if chosen.contains(s.last().tid) == keep {
            rest.push(s.last())
        } else {
            rest
        }
    }
}

/// Number of entries of `s` with label `l`.
pub open spec fn label_count(s: Seq<DataPoint>, l: int) -> nat
    decreases s.len(),
{
    if s.len() == 0 {
        0
    } else {
        label_count(s.drop_last(), l) + (if s.last().label == l {
            1nat
        } else {
            0nat
        })
    }
}

/// The number of entries of each label below `n`.
pub open spec fn label_counts(s: Seq<DataPoint>, n: nat) -> Seq<usize> {
    Seq::new(n, |l: int| label_count(s, l) as usize)
}

/// The positions of a column where the value changes: a split there puts the entries
/// before it on one side and the others on the other.
pub open spec fn is_split_position(col: Seq<DataPoint>, i: int) -> bool {
    0 < i < col.len() && col[i].value != col[i - 1].value
}

/// The two sides of a split share out the entries.
pub proof fn lemma_side_lengths(s: Seq<DataPoint>, chosen: Set<usize>)
    ensures
        side(s, chosen, true).len() + side(s, chosen, false).len() == s.len(),
    decreases s.len(),
{
    if s.len() > 0 {
        lemma_side_lengths(s.drop_last(), chosen);
    }
}

proof fn lemma_label_count_bound(s: Seq<DataPoint>, l: int)
    ensures
        label_count(s, l) <= s.len(),
    decreases s.len(),
{
    if s.len() > 0 {
        lemma_label_count_bound(s.drop_last(), l);
    }
}

/// The split positions of `col` below `n`, in increasing order.
pub open spec fn split_positions(col: Seq<DataPoint>, n: int) -> Seq<usize>
    decreases n,
{
    if n <= 1 {
        Seq::empty()
    } else {
        let rest = split_positions(col, n - 1);
        if col[n - 1].value != col[n - 2].value {
            rest.push((n - 1) as usize)
        } else {
            rest
        }
    }
}

/// The samples at a node of the search: their entries, and for each feature their
/// entries in order of the feature's value.
pub struct DataView {
    num_labels: usize,
    total: usize,
    points: Vec<DataPoint>,
    columns: Vec<Vec<DataPoint>>,
}

impl DataView {
    /// The samples' entries (those of the first column at the root).
    pub closed spec fn points(&self) -> Seq<DataPoint> {
        self.points@
    }

    /// For each feature, the samples' entries in order of the feature's value.
    pub closed spec fn column(&self, f: int) -> Seq<DataPoint> {
        self.columns@[f]@
    }

    pub closed spec fn spec_num_features(&self) -> nat {
        self.columns@.len()
    }

    pub closed spec fn spec_num_labels(&self) -> usize {
        self.num_labels
    }

    /// Rows are numbered below this bound.
    pub closed spec fn spec_total(&self) -> usize {
        self.total
    }

    /// Rows are below the bound and labels below the number of labels.
    pub closed spec fn wf(&self) -> bool {
        &&& forall|i: int| 0 <= i < self.points@.len() ==> #[trigger] self.points@[i].tid < self.total
            && self.points@[i].label < self.num_labels
        &&& forall|f: int, i: int|
            0 <= f < self.columns@.len() && 0 <= i < self.columns@[f]@.len() ==> #[trigger] self.columns@[f]@[i].tid
                < self.total
    }

    /// The view of all samples of `dataset`.
    pub fn root(dataset: &Dataset) -> (v: Self)
        requires
            dataset.columns().len() > 0,
            forall|f: int, i: int|
                0 <= f < dataset.columns().len() && 0 <= i < dataset.columns()[f].points().len()
                    ==> #[trigger] dataset.columns()[f].points()[i].tid < dataset.columns()[0].points().len(),
            forall|i: int|
                0 <= i < dataset.columns()[0].points().len() ==> #[trigger] dataset.columns()[0].points()[i].label
                    < dataset.spec_num_labels(),
        ensures
            v.wf(),
            v.points() == dataset.columns()[0].points(),
            v.spec_num_features() == dataset.columns().len(),
            forall|f: int| 0 <= f < dataset.columns().len() ==> #[trigger] v.column(f) == dataset.columns()[f].points(),
            v.spec_num_labels() == dataset.spec_num_labels(),
            v.spec_total() == dataset.columns()[0].points().len(),
    {
        let n = dataset.num_features();
        let mut columns: Vec<Vec<DataPoint>> = Vec::with_capacity(n);
        let mut f: usize = 0;
        while f < n
            invariant
                n == dataset.columns().len(),
                0 <= f <= n,
                columns@.len() == f,
                forall|g: int| 0 <= g < f ==> (#[trigger] columns@[g])@ == dataset.columns()[g].points(),
            decreases n - f,
        {
            columns.push(dataset.feature(f).entries());
            f += 1;
        }
        let points = dataset.feature(0).entries();
        let total = dataset.count();
        DataView { num_labels: dataset.num_labels(), total, points, columns }
    }

    /// Number of samples.
    pub fn len(&self) -> (n: usize)
        ensures
            n == self.points().len(),
    {
        self.points.len()
    }

    pub fn num_features(&self) -> (n: usize)
        ensures
            n == self.spec_num_features(),
    {
        self.columns.len()
    }

    /// Number of samples of each label.
    pub fn label_freqs(&self) -> (v: Vec<usize>)
        requires
            self.wf(),
        ensures
            v@ == label_counts(self.points(), self.spec_num_labels() as nat),
            total(v@) == self.points().len(),
    {
        let nl = self.num_labels;
        let mut counts: Vec<usize> = Vec::with_capacity(nl);
        let mut l: usize = 0;
        while l < nl
            invariant
                0 <= l <= nl,
                counts@.len() == l,
                forall|q: int| 0 <= q < l ==> counts@[q] == 0,
                total(counts@) == 0,
            decreases nl - l,
        {
            proof {
                assert(counts@.push(0).drop_last() =~= counts@);
            }
            counts.push(0);
            l += 1;
        }
        let n = self.points.len();
        let mut i: usize = 0;
        while i < n
            invariant
                self.wf(),
                nl == self.num_labels,
                n == self.points@.len(),
                0 <= i <= n,
                counts@.len() == nl,
                forall|q: int| 0 <= q < nl ==> #[trigger] counts@[q] == label_count(self.points@.take(i as int), q),
                total(counts@) == i,
            decreases n - i,
        {
            let p = self.points[i];
            proof {
                assert(self.points@[i as int].tid < self.total);
                assert(self.points@[i as int].label < self.num_labels);
                assert(self.points@.take(i + 1).drop_last() =~= self.points@.take(i as int));
                lemma_label_count_bound(self.points@.take(i as int), p.label as int);
            }
            let c = counts[p.label] + 1;
            proof {
                lemma_total_update(counts@, p.label as int, c);
            }
            counts.set(p.label, c);
            proof {
                assert forall|q: int| 0 <= q < nl implies #[trigger] counts@[q] == label_count(
                    self.points@.take(i + 1),
                    q,
                ) by {
                    assert(self.points@.take(i + 1).last() == p);
                }
            }
            i += 1;
        }
        proof {
            assert(self.points@.take(n as int) =~= self.points@);
            assert(counts@ =~= label_counts(self.points@, nl as nat));
        }
        counts
    }

    /// The samples' rows in increasing order: the node's key in the cache.
    pub fn key(&self) -> (k: Vec<usize>)
        requires
            self.wf(),
        ensures
            forall|i: int, j: int| 0 <= i < j < k@.len() ==> k@[i] < k@[j],
            forall|t: usize| k@.contains(t) <==> tids(self.points()).contains(t),
    {
        let mark = Self::marks(&self.points, self.points.len(), self.total);
        let mut k: Vec<usize> = Vec::new();
        let mut t: usize = 0;
        while t < self.total
            invariant
                self.wf(),
                mark@.len() == self.total,
                forall|u: int| 0 <= u < self.total ==> mark@[u] == tids(self.points@.take(self.points@.len() as int)).contains(u as usize),
                0 <= t <= self.total,
                forall|i: int, j: int| 0 <= i < j < k@.len() ==> k@[i] < k@[j],
                forall|i: int| 0 <= i < k@.len() ==> k@[i] < t,
                forall|u: usize| u < t ==> (k@.contains(u) <==> mark@[u as int]),
            decreases self.total - t,
        {
            let ghost old_k = k@;
            if mark[t] {
                k.push(t);
            }
            proof {
                assert forall|u: usize| u < t + 1 implies (k@.contains(u) <==> mark@[u as int]) by {
                    if u < t {
                        if k@.contains(u) {
                            let i = choose|i: int| 0 <= i < k@.len() && k@[i] == u;
                            assert(i < old_k.len());
                            assert(old_k[i] == u);
                        }
                        if old_k.contains(u) {
                            let i = choose|i: int| 0 <= i < old_k.len() && old_k[i] == u;
                            assert(k@[i] == u);
                        }
                    } else {
                        if mark@[t as int] {
                            assert(k@[k@.len() - 1] == t);
                        } else {
                            assert(k@ == old_k);
                            if k@.contains(u) {
                                let i = choose|i: int| 0 <= i < k@.len() && k@[i] == u;
                                assert(old_k[i] < t);
                            }
                        }
                    }
                }
            }
            t += 1;
        }
        proof {
            assert(self.points@.take(self.points@.len() as int) =~= self.points@);
            assert forall|u: usize| k@.contains(u) <==> tids(self.points@).contains(u) by {
                if k@.contains(u) {
                    let i = choose|i: int| 0 <= i < k@.len() && k@[i] == u;
                    assert(k@[i] < self.total);
                }
                if tids(self.points@).contains(u) {
                    let i = choose|i: int| 0 <= i < self.points@.len() && (#[trigger] self.points@[i]).tid == u;
                    assert(self.points@[i].tid < self.total);
                }
            }
        }
        k
    }

    /// For each row below `total`, whether it is among the first `pos` entries of `s`.
    fn marks(s: &Vec<DataPoint>, pos: usize, total: usize) -> (mark: Vec<bool>)
        requires
            pos <= s@.len(),
            forall|i: int| 0 <= i < s@.len() ==> #[trigger] s@[i].tid < total,
        ensures
            mark@.len() == total,
            forall|u: int| 0 <= u < total ==> mark@[u] == tids(s@.take(pos as int)).contains(u as usize),
    {
        let mut mark: Vec<bool> = Vec::with_capacity(total);
        let mut t: usize = 0;
        while t < total
            invariant
                0 <= t <= total,
                mark@.len() == t,
                forall|u: int| 0 <= u < t ==> !mark@[u],
            decreases total - t,
        {
            mark.push(false);
            t += 1;
        }
        let mut i: usize = 0;
        while i < pos
            invariant
                pos <= s@.len(),
                forall|i: int| 0 <= i < s@.len() ==> #[trigger] s@[i].tid < total,
                0 <= i <= pos,
                mark@.len() == total,
                forall|u: int| 0 <= u < total ==> mark@[u] == tids(s@.take(i as int)).contains(u as usize),
            decreases pos - i,
        {
            let t = s[i].tid;
            mark.set(t, true);
            proof {
                assert forall|u: int| 0 <= u < total implies mark@[u] == tids(s@.take(i + 1)).contains(u as usize) by {
                    if u == t {
                        assert(s@.take(i + 1)[i as int].tid == t);
                    } else {
                        if tids(s@.take(i + 1)).contains(u as usize) {
                            let j = choose|j: int| 0 <= j < i + 1 && (#[trigger] s@.take(i + 1)[j]).tid == u as usize;
                            assert(j < i);
                            assert(s@.take(i as int)[j].tid == u as usize);
                        }
                        if tids(s@.take(i as int)).contains(u as usize) {
                            let j = choose|j: int| 0 <= j < i && (#[trigger] s@.take(i as int)[j]).tid == u as usize;
                            assert(s@.take(i + 1)[j].tid == u as usize);
                        }
                    }
                }
            }
            i += 1;
        }
        mark
    }

    /// The entries of `s` whose mark is `keep`.
    fn select(s: &Vec<DataPoint>, mark: &Vec<bool>, keep: bool, Ghost(chosen): Ghost<Set<usize>>) -> (out: Vec<DataPoint>)
        requires
            forall|i: int| 0 <= i < s@.len() ==> #[trigger] s@[i].tid < mark@.len(),
            forall|u: int| 0 <= u < mark@.len() ==> mark@[u] == chosen.contains(u as usize),
        ensures
            out@ == side(s@, chosen, keep),
            forall|j: int| 0 <= j < out@.len() ==> exists|i: int| 0 <= i < s@.len() && #[trigger] out@[j] == s@[i],
    {
        let n = s.len();
        let mut out: Vec<DataPoint> = Vec::new();
        let mut i: usize = 0;
        while i < n
            invariant
                n == s@.len(),
                forall|i: int| 0 <= i < s@.len() ==> #[trigger] s@[i].tid < mark@.len(),
                forall|u: int| 0 <= u < mark@.len() ==> mark@[u] == chosen.contains(u as usize),
                0 <= i <= n,
                out@ == side(s@.take(i as int), chosen, keep),
                forall|j: int| 0 <= j < out@.len() ==> exists|q: int| 0 <= q < s@.len() && #[trigger] out@[j] == s@[q],
            decreases n - i,
        {
            let p = s[i];
            proof {
                assert(s@.take(i + 1).drop_last() =~= s@.take(i as int));
                assert(s@.take(i + 1).last() == p);
            }
            if mark[p.tid] == keep {
                out.push(p);
                proof {
                    assert forall|j: int| 0 <= j < out@.len() implies exists|q: int| 0 <= q < s@.len() && #[trigger] out@[j] == s@[q] by {
                        if j == out@.len() - 1 {
                            assert(out@[j] == s@[i as int]);
                        }
                    }
                }
            }
            i += 1;
        }
        proof {
            assert(s@.take(n as int) =~= s@);
        }
        out
    }

    /// The split of the view on feature `f` at position `pos`: the rows of the first
    /// `pos` entries of the feature's column go left, the others right, each side
    /// keeping the order of every column.
    pub fn split(&self, f: usize, pos: usize) -> (r: (DataView, DataView))
        requires
            self.wf(),
            f < self.spec_num_features(),
            pos <= self.column(f as int).len(),
        ensures
            ({
                let chosen = tids(self.column(f as int).take(pos as int));
                let (left, right) = r;
                &&& left.wf() && right.wf()
                &&& left.points() == side(self.points(), chosen, true)
                &&& right.points() == side(self.points(), chosen, false)
                &&& left.spec_num_features() == self.spec_num_features()
                &&& right.spec_num_features() == self.spec_num_features()
                &&& forall|g: int| 0 <= g < self.spec_num_features() ==> #[trigger] left.column(g) == side(self.column(g), chosen, true)
                &&& forall|g: int| 0 <= g < self.spec_num_features() ==> #[trigger] right.column(g) == side(self.column(g), chosen, false)
                &&& left.spec_num_labels() == self.spec_num_labels()
                &&& right.spec_num_labels() == self.spec_num_labels()
                &&& left.spec_total() == self.spec_total()
                &&& right.spec_total() == self.spec_total()
                &&& left.points().len() + right.points().len() == self.points().len()
                &&& forall|g: int| 0 <= g < self.spec_num_features() ==> #[trigger] left.column(g).len()
                    <= self.column(g).len() && right.column(g).len() <= self.column(g).len()
            }),
    {
        let ghost chosen = tids(self.column(f as int).take(pos as int));
        let mark = Self::marks(&self.columns[f], pos, self.total);
        let left_points = Self::select(&self.points, &mark, true, Ghost(chosen));
        let right_points = Self::select(&self.points, &mark, false, Ghost(chosen));
        let n = self.columns.len();
        let mut left_columns: Vec<Vec<DataPoint>> = Vec::with_capacity(n);
        let mut right_columns: Vec<Vec<DataPoint>> = Vec::with_capacity(n);
        let mut g: usize = 0;
        while g < n
            invariant
                self.wf(),
                n == self.columns@.len(),
                mark@.len() == self.total,
                forall|u: int| 0 <= u < self.total ==> mark@[u] == chosen.contains(u as usize),
                0 <= g <= n,
                left_columns@.len() == g,
                right_columns@.len() == g,
                forall|h: int| 0 <= h < g ==> (#[trigger] left_columns@[h])@ == side(self.columns@[h]@, chosen, true),
                forall|h: int| 0 <= h < g ==> (#[trigger] right_columns@[h])@ == side(self.columns@[h]@, chosen, false),
                forall|h: int, i: int| 0 <= h < g && 0 <= i < left_columns@[h]@.len() ==> #[trigger] left_columns@[h]@[i].tid < self.total,
                forall|h: int, i: int| 0 <= h < g && 0 <= i < right_columns@[h]@.len() ==> #[trigger] right_columns@[h]@[i].tid < self.total,
            decreases n - g,
        {
            proof {
                assert forall|i: int| 0 <= i < self.columns@[g as int]@.len() implies #[trigger] self.columns@[g as int]@[i].tid < mark@.len() by {
                    assert(self.columns@[g as int]@[i].tid < self.total);
                }
            }
            let lc = Self::select(&self.columns[g], &mark, true, Ghost(chosen));
            let rc = Self::select(&self.columns[g], &mark, false, Ghost(chosen));
            proof {
                assert forall|i: int| 0 <= i < lc@.len() implies #[trigger] lc@[i].tid < self.total by {
                    let q = choose|q: int| 0 <= q < self.columns@[g as int]@.len() && lc@[i] == self.columns@[g as int]@[q];
                    assert(self.columns@[g as int]@[q].tid < self.total);
                }
                assert forall|i: int| 0 <= i < rc@.len() implies #[trigger] rc@[i].tid < self.total by {
                    let q = choose|q: int| 0 <= q < self.columns@[g as int]@.len() && rc@[i] == self.columns@[g as int]@[q];
                    assert(self.columns@[g as int]@[q].tid < self.total);
                }
            }
            left_columns.push(lc);
            right_columns.push(rc);
            g += 1;
        }
        proof {
            lemma_side_lengths(self.points@, chosen);
            assert forall|g: int| 0 <= g < n implies #[trigger] left_columns@[g]@.len() <= self.columns@[g]@.len()
                && right_columns@[g]@.len() <= self.columns@[g]@.len() by {
                lemma_side_lengths(self.columns@[g]@, chosen);
            }
        }
        let left = DataView { num_labels: self.num_labels, total: self.total, points: left_points, columns: left_columns };
        let right = DataView { num_labels: self.num_labels, total: self.total, points: right_points, columns: right_columns };
        proof {
            assert forall|i: int| 0 <= i < left.points@.len() implies #[trigger] left.points@[i].tid < left.total
                && left.points@[i].label < left.num_labels by {
                let q = choose|q: int| 0 <= q < self.points@.len() && left.points@[i] == self.points@[q];
                assert(self.points@[q].tid < self.total);
            }
            assert forall|i: int| 0 <= i < right.points@.len() implies #[trigger] right.points@[i].tid < right.total
                && right.points@[i].label < right.num_labels by {
                let q = choose|q: int| 0 <= q < self.points@.len() && right.points@[i] == self.points@[q];
                assert(self.points@[q].tid < self.total);
            }
        }
        (left, right)
    }

    /// The value key at position `i` of column `f`.
    pub fn value_at(&self, f: usize, i: usize) -> (v: u64)
        requires
            f < self.spec_num_features(),
            i < self.column(f as int).len(),
        ensures
            v == self.column(f as int)[i as int].value,
    {
        self.columns[f][i].value
    }

    /// Number of entries of column `f`.
    pub fn column_len(&self, f: usize) -> (n: usize)
        requires
            f < self.spec_num_features(),
        ensures
            n == self.column(f as int).len(),
    {
        self.columns[f].len()
    }

    /// The positions of column `f` where its value changes, in increasing order.
    pub fn possible_splits(&self, f: usize) -> (v: Vec<usize>)
        requires
            f < self.spec_num_features(),
        ensures
            forall|i: int, j: int| 0 <= i < j < v@.len() ==> v@[i] < v@[j],
            v@.len() <= self.column(f as int).len(),
            forall|j: int| 0 <= j < v@.len() ==> is_split_position(self.column(f as int), #[trigger] v@[j] as int),
            forall|i: int| is_split_position(self.column(f as int), i) ==> exists|j: int| 0 <= j < v@.len() && #[trigger] v@[j] == i,
            v@ == split_positions(self.column(f as int), self.column(f as int).len() as int),
    {
        let col = &self.columns[f];
        let n = col.len();
        let mut v: Vec<usize> = Vec::new();
        let mut i: usize = 1;
        while i < n
            invariant
                col@ == self.column(f as int),
                n == col@.len(),
                1 <= i,
                i <= n || (n == 0 && i == 1),
                forall|a: int, b: int| 0 <= a < b < v@.len() ==> v@[a] < v@[b],
                v@.len() + 1 <= i,
                forall|a: int| 0 <= a < v@.len() ==> #[trigger] v@[a] < i,
                forall|j: int| 0 <= j < v@.len() ==> is_split_position(col@, #[trigger] v@[j] as int),
                forall|q: int| 0 < q < i && is_split_position(col@, q) ==> exists|j: int| 0 <= j < v@.len() && #[trigger] v@[j] == q,
                v@ == split_positions(col@, i as int),
            decreases n - i,
        {
            let ghost old_v = v@;
            if col[i].value != col[i - 1].value {
                v.push(i);
                proof {
                    assert(v@[v@.len() - 1] == i);
                }
            }
            proof {
                assert forall|q: int| 0 < q < i + 1 && is_split_position(col@, q) implies exists|j: int| 0 <= j < v@.len() && #[trigger] v@[j] == q by {
                    if q < i {
                        let j = choose|j: int| 0 <= j < old_v.len() && #[trigger] old_v[j] == q;
                        assert(v@[j] == q);
                    } else {
                        assert(v@[v@.len() - 1] == i);
                    }
                }
            }
            i += 1;
        }
        assert(v@.len() <= n);
        v
    }
}

} // verus!
