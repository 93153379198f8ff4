pub mod assemble;
pub mod dataset;
pub mod heuristics;
pub mod order;
pub mod view;

pub use dataset::Dataset;


use order::{is_stable_order, stable_order};
use vstd::prelude::*;

verus! {

/// One sample's entry in a feature column. `value` is the feature value given as a
/// key whose order is the order of the values (equal values share a key).
#[derive(Clone, Copy, Debug, PartialEq, Eq, Structural)]
pub struct DataPoint {
    pub tid: usize,
    pub value: u64,
    pub label: usize,
    pub unique_value_idx: usize,
}

impl DataPoint {
    pub fn new(tid: usize, value: u64, label: usize) -> (p: Self)
        ensures
            p == (DataPoint { tid, value, label, unique_value_idx: 0 }),
    {
        DataPoint { tid, value, label, unique_value_idx: 0 }
    }

    /// Row of the sample.
    pub fn tid(&self) -> (t: usize)
        ensures
            t == self.tid,
    {
        self.tid
    }

    /// Key of the feature value.
    pub fn value(&self) -> (v: u64)
        ensures
            v == self.value,
    {
        self.value
    }

    /// Class of the sample.
    pub fn label(&self) -> (l: usize)
        ensures
            l == self.label,
    {
        self.label
    }

    /// Rank of the value among the distinct values of its column.
    pub fn unique_value_id(&self) -> (u: usize)
        ensures
            u == self.unique_value_idx,
    {
        self.unique_value_idx
    }
}

/// The value keys of a column.
pub open spec fn values_of(points: Seq<DataPoint>) -> Seq<u64> {
    points.map_values(|p: DataPoint| p.value)
}

/// `new` is `old` rearranged in the order `p`.
pub open spec fn rearranged(old: Seq<DataPoint>, p: Seq<usize>, new: Seq<DataPoint>) -> bool {
    &&& new.len() == p.len()
    &&& forall|k: int| 0 <= k < p.len() ==> new[k] == old[p[k] as int]
}

/// One feature column: the entries of all samples for one feature.
pub struct Feature {
    index: usize,
    points: Vec<DataPoint>,
}

impl Feature {
    /// Position of the feature among the dataset's features.
    pub closed spec fn spec_index(&self) -> usize {
        self.index
    }

    /// The entries of the column.
    pub closed spec fn points(&self) -> Seq<DataPoint> {
        self.points@
    }

    pub fn new(index: usize) -> (f: Self)
        ensures
            f.spec_index() == index,
            f.points() == Seq::<DataPoint>::empty(),
    {
        Feature { index, points: Vec::new() }
    }

    pub fn index(&self) -> (i: usize)
        ensures
            i == self.spec_index(),
    {
        self.index
    }

    pub fn len(&self) -> (n: usize)
        ensures
            n == self.points().len(),
    {
        self.points.len()
    }

    /// Entry `i` of the column.
    pub fn get(&self, i: usize) -> (p: &DataPoint)
        requires
            i < self.points().len(),
        ensures
            *p == self.points()[i as int],
    {
        &self.points[i]
    }

    /// Appends an entry.
    pub fn insert(&mut self, data_point: DataPoint)
        ensures
            final(self).spec_index() == old(self).spec_index(),
            final(self).points() == old(self).points().push(data_point),
    {
        self.points.push(data_point);
    }

    /// Sets the rank of entry `i`.
    pub fn set_unique_value_idx(&mut self, i: usize, unique_value_idx: usize)
        requires
            i < old(self).points().len(),
        ensures
            final(self).spec_index() == old(self).spec_index(),
            final(self).points() == old(self).points().update(
                i as int,
                DataPoint { unique_value_idx, ..old(self).points()[i as int] },
            ),
    {
        let mut p = self.points[i];
        p.unique_value_idx = unique_value_idx;
        self.points.set(i, p);
    }

    /// A copy of the entries.
    pub fn entries(&self) -> (v: Vec<DataPoint>)
        ensures
            v@ == self.points(),
    {
        let n = self.points.len();
        let mut v: Vec<DataPoint> = Vec::with_capacity(n);
        let mut i: usize = 0;
        while i < n
            invariant
                n == self.points@.len(),
                0 <= i <= n,
                v@ == self.points@.take(i as int),
            decreases n - i,
        {
            proof {
                assert(self.points@.take(i + 1) =~= self.points@.take(i as int).push(self.points@[i as int]));
            }
            v.push(self.points[i]);
            i += 1;
        }
        proof {
            assert(self.points@.take(n as int) =~= self.points@);
        }
        v
    }

    /// The value keys of the first `n` entries.
    pub fn value_keys(&self, n: usize) -> (keys: Vec<u64>)
        requires
            n <= self.points().len(),
        ensures
            keys@ == values_of(self.points().take(n as int)),
    {
        let mut keys: Vec<u64> = Vec::with_capacity(n);
        let mut i: usize = 0;
        while i < n
            invariant
                n <= self.points@.len(),
                0 <= i <= n,
                keys@ == values_of(self.points@.take(i as int)),
            decreases n - i,
        {
            proof {
                assert(values_of(self.points@.take(i + 1)) =~= values_of(
                    self.points@.take(i as int),
                ).push(self.points@[i as int].value));
            }
            keys.push(self.points[i].value);
            i += 1;
        }
        keys
    }

    /// Sorts the entries by value, keeping entries of equal value in their order.
    pub fn sort(&mut self)
        ensures
            final(self).spec_index() == old(self).spec_index(),
            exists|p: Seq<usize>|
                is_stable_order(values_of(old(self).points()), p) && rearranged(
                    old(self).points(),
                    p,
                    final(self).points(),
                ),
            forall|i: int, j: int|
                #![trigger final(self).points()[i], final(self).points()[j]]
                0 <= i <= j < final(self).points().len() ==> final(self).points()[i].value
                    <= final(self).points()[j].value,
    {
        let n = self.points.len();
        let keys = self.value_keys(n);
        proof {
            assert(self.points@.take(n as int) =~= self.points@);
        }
        let order = stable_order(&keys);
        proof {
            order::lemma_stable_order_is_permutation(keys@, order@);
        }
        let mut sorted: Vec<DataPoint> = Vec::with_capacity(n);
        let mut k: usize = 0;
        while k < n
            invariant
                n == self.points@.len(),
                keys@ == values_of(self.points@),
                order@.len() == n,
                forall|q: int| 0 <= q < n ==> order@[q] < n,
                0 <= k <= n,
                rearranged(self.points@, order@.take(k as int), sorted@),
            decreases n - k,
        {
            sorted.push(self.points[order[k]]);
            k += 1;
        }
        proof {
            assert(order@.take(n as int) =~= order@);
            assert forall|i: int, j: int| 0 <= i <= j < sorted@.len() implies sorted@[i].value
                <= sorted@[j].value by {
                assert(order::key_le(keys@, order@[i], order@[j]));
            }
        }
        self.points = sorted;
    }
}

} // verus!
