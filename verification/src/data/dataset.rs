use super::order::{dense_rank, is_stable_order, lemma_rank_first, lemma_rank_step, stable_order};
use super::{rearranged, values_of, DataPoint, Feature};
use vstd::prelude::*;

verus! {

/// Samples stored column by column: one `Feature` per feature, each holding one
/// entry per sample.
pub struct Dataset {
    features: Vec<Feature>,
    num_labels: usize,
}

/// `new` is `old` with each entry among the first `size` given the dense rank of its
/// value among the values of those entries.
pub open spec fn ranked(old: Seq<DataPoint>, new: Seq<DataPoint>, size: int) -> bool {
    &&& new.len() == old.len()
    &&& forall|i: int|
        #![trigger new[i]]
        0 <= i < old.len() ==> new[i] == (if i < size {
            DataPoint {
                unique_value_idx: dense_rank(values_of(old.take(size)), old[i].value) as usize,
                ..old[i]
            }
        } else {
            old[i]
        })
}

impl Dataset {
    /// The feature columns.
    pub closed spec fn columns(&self) -> Seq<Feature> {
        self.features@
    }

    /// The number of classes recorded.
    pub closed spec fn spec_num_labels(&self) -> usize {
        self.num_labels
    }

    pub fn new() -> (d: Self)
        ensures
            d.columns() == Seq::<Feature>::empty(),
            d.spec_num_labels() == 0,
    {
        Self { features: Vec::new(), num_labels: 0 }
    }

    /// Number of samples: the length of the first column.
    pub fn count(&self) -> (n: usize)
        requires
            self.columns().len() > 0,
        ensures
            n == self.columns()[0].points().len(),
    {
        self.features[0].len()
    }

    pub fn num_features(&self) -> (n: usize)
        ensures
            n == self.columns().len(),
    {
        self.features.len()
    }

    pub fn num_labels(&self) -> (n: usize)
        ensures
            n == self.spec_num_labels(),
    {
        self.num_labels
    }

    /// Adds an entry to column `feature_index`; the entry of sample 0 opens a new
    /// column with that index first.
    pub fn insert(&mut self, data_point: DataPoint, feature_index: usize)
        requires
            feature_index < old(self).columns().len() + (if data_point.tid == 0 {
                1int
            } else {
                0int
            }),
        ensures
            final(self).spec_num_labels() == old(self).spec_num_labels(),
            ({
                let base = old(self).columns();
                let n = base.len() as int;
                let fi = feature_index as int;
                &&& final(self).columns().len() == n + (if data_point.tid == 0 {
                    1int
                } else {
                    0int
                })
                &&& forall|f: int|
                    #![trigger final(self).columns()[f]]
                    0 <= f < n && f != fi ==> final(self).columns()[f] == base[f]
                &&& (data_point.tid == 0 && fi != n) ==> (final(self).columns()[n].spec_index()
                    == feature_index && final(self).columns()[n].points() == Seq::<
                    DataPoint,
                >::empty())
                &&& final(self).columns()[fi].spec_index() == (if fi < n {
                    base[fi].spec_index()
                } else {
                    feature_index
                })
                &&& final(self).columns()[fi].points() == (if fi < n {
                    base[fi].points()
                } else {
                    Seq::<DataPoint>::empty()
                }).push(data_point)
            }),
    {
        if data_point.tid() == 0 {
            self.features.push(Feature::new(feature_index));
        }
        let mut column = Feature::new(0);
        std::mem::swap(&mut column, &mut self.features[feature_index]);
        column.insert(data_point);
        self.features.set(feature_index, column);
    }

    pub fn set_num_label(&mut self, value: usize)
        ensures
            final(self).columns() == old(self).columns(),
            final(self).spec_num_labels() == value,
    {
        self.num_labels = value;
    }

    /// Column `index`.
    pub fn feature(&self, index: usize) -> (f: &Feature)
        requires
            index < self.columns().len(),
        ensures
            *f == self.columns()[index as int],
    {
        &self.features[index]
    }

    /// Sorts every column by value, keeping entries of equal value in their order.
    pub fn sort_features(&mut self)
        ensures
            final(self).spec_num_labels() == old(self).spec_num_labels(),
            final(self).columns().len() == old(self).columns().len(),
            forall|f: int|
                #![trigger final(self).columns()[f]]
                0 <= f < old(self).columns().len() ==> {
                    &&& final(self).columns()[f].spec_index() == old(self).columns()[f].spec_index()
                    &&& exists|p: Seq<usize>|
                        is_stable_order(values_of(old(self).columns()[f].points()), p) && rearranged(
                            old(self).columns()[f].points(),
                            p,
                            final(self).columns()[f].points(),
                        )
                },
    {
        let n = self.features.len();
        let mut f: usize = 0;
        while f < n
            invariant
                n == self.features@.len(),
                n == old(self).features@.len(),
                self.num_labels == old(self).num_labels,
                0 <= f <= n,
                forall|g: int|
                    #![trigger self.features@[g]]
                    f <= g < n ==> self.features@[g] == old(self).features@[g],
                forall|g: int|
                    #![trigger self.features@[g]]
                    0 <= g < f ==> {
                        &&& self.features@[g].spec_index() == old(self).features@[g].spec_index()
                        &&& exists|p: Seq<usize>|
                            is_stable_order(values_of(old(self).features@[g].points()), p)
                                && rearranged(
                                old(self).features@[g].points(),
                                p,
                                self.features@[g].points(),
                            )
                    },
            decreases n - f,
        {
            let mut column = Feature::new(0);
            std::mem::swap(&mut column, &mut self.features[f]);
            column.sort();
            self.features.set(f, column);
            f += 1;
        }
    }

    /// Gives each of the first `count()` entries of every column the dense rank of its
    /// value among the values of those entries: equal values share a rank, and ranks
    /// follow the order of the values.
    pub fn compute_unique_feature_values(&mut self)
        requires
            old(self).columns().len() > 0,
            forall|f: int|
                0 <= f < old(self).columns().len() ==> #[trigger] old(self).columns()[f].points().len()
                    >= old(self).columns()[0].points().len(),
        ensures
            final(self).spec_num_labels() == old(self).spec_num_labels(),
            final(self).columns().len() == old(self).columns().len(),
            forall|f: int|
                #![trigger final(self).columns()[f]]
                0 <= f < old(self).columns().len() ==> {
                    &&& final(self).columns()[f].spec_index() == old(self).columns()[f].spec_index()
                    &&& ranked(
                        old(self).columns()[f].points(),
                        final(self).columns()[f].points(),
                        old(self).columns()[0].points().len() as int,
                    )
                },
    {
        let size = self.count();
        let n = self.features.len();
        let mut f: usize = 0;
        while f < n
            invariant
                n == self.features@.len(),
                n == old(self).features@.len(),
                size == old(self).features@[0].points().len(),
                self.num_labels == old(self).num_labels,
                forall|g: int|
                    0 <= g < n ==> #[trigger] old(self).features@[g].points().len() >= size,
                0 <= f <= n,
                forall|g: int|
                    #![trigger self.features@[g]]
                    f <= g < n ==> self.features@[g] == old(self).features@[g],
                forall|g: int|
                    #![trigger self.features@[g]]
                    0 <= g < f ==> {
                        &&& self.features@[g].spec_index() == old(self).features@[g].spec_index()
                        &&& ranked(
                            old(self).features@[g].points(),
                            self.features@[g].points(),
                            size as int,
                        )
                    },
            decreases n - f,
        {
            let mut column = Feature::new(0);
            std::mem::swap(&mut column, &mut self.features[f]);
            Self::rank_column(&mut column, size);
            self.features.set(f, column);
            f += 1;
        }
    }

    fn rank_column(column: &mut Feature, size: usize)
        requires
            size <= old(column).points().len(),
        ensures
            final(column).spec_index() == old(column).spec_index(),
            ranked(old(column).points(), final(column).points(), size as int),
    {
        let ghost old_points = column.points();
        let total = column.len();
        let keys = column.value_keys(size);
        let ghost vals = keys@;
        let idx = stable_order(&keys);
        proof {
            super::order::lemma_stable_order_is_permutation(vals, idx@);
        }
        let mut cur_unique: usize = 0;
        let mut prev: Option<u64> = None;
        let mut j: usize = 0;
        while j < size
            invariant
                size <= old_points.len(),
                total == old_points.len(),
                vals == values_of(old_points.take(size as int)),
                keys@ == vals,
                vals.len() == size,
                is_stable_order(vals, idx@),
                idx@.len() == size,
                forall|q: int| 0 <= q < size ==> idx@[q] < size,
                idx@.no_duplicates(),
                0 <= j <= size,
                cur_unique <= j,
                j == 0 ==> prev is None,
                j > 0 ==> prev == Some(vals[idx@[j - 1] as int]),
                j > 0 ==> cur_unique == dense_rank(vals, vals[idx@[j - 1] as int]),
                column.spec_index() == old(column).spec_index(),
                column.points().len() == old_points.len(),
                forall|i: int|
                    #![trigger column.points()[i]]
                    0 <= i < old_points.len() ==> column.points()[i] == (if i < size
                        && idx@.take(j as int).contains(i as usize) {
                        DataPoint {
                            unique_value_idx: dense_rank(vals, old_points[i].value) as usize,
                            ..old_points[i]
                        }
                    } else {
                        old_points[i]
                    }),
            decreases size - j,
        {
            let index = idx[j];
            let value = keys[index];
            proof {
                if j == 0 {
                    lemma_rank_first(vals, idx@);
                } else {
                    lemma_rank_step(vals, idx@, j as int);
                }
                assert(old_points.take(size as int)[index as int] == old_points[index as int]);
            }
            if let Some(prev_value) = prev {
                if value != prev_value {
                    cur_unique += 1;
                }
            }
            proof {
                assert(value == old_points[index as int].value);
                assert(cur_unique == dense_rank(vals, value));
                assert(!idx@.take(j as int).contains(index)) by {
                    if idx@.take(j as int).contains(index) {
                        let q = choose|q: int| 0 <= q < j && idx@.take(j as int)[q] == index;
                        assert(idx@[q] == idx@[j as int]);
                    }
                }
                assert(column.points()[index as int] == old_points[index as int]);
            }
            let ghost before = column.points();
            column.set_unique_value_idx(index, cur_unique);
            prev = Some(value);
            proof {
                assert forall|i: int|
                    #![trigger column.points()[i]]
                    0 <= i < old_points.len() implies column.points()[i] == (if i < size
                        && idx@.take(j + 1).contains(i as usize) {
                        DataPoint {
                            unique_value_idx: dense_rank(vals, old_points[i].value) as usize,
                            ..old_points[i]
                        }
                    } else {
                        old_points[i]
                    }) by {
                    assert(idx@.take(j + 1) =~= idx@.take(j as int).push(index));
                    if i == index {
                        assert(idx@.take(j + 1)[j as int] == index);
                        assert(idx@.take(j + 1).contains(index));
                        assert(dense_rank(vals, old_points[i].value) == cur_unique);
                    } else {
                        assert(before[i] == column.points()[i]);
                        assert(idx@.take(j + 1).contains(i as usize) == idx@.take(j as int).contains(i as usize));
                    }
                }
            }
            j += 1;
        }
        proof {
            assert forall|i: int| 0 <= i < size implies #[trigger] idx@.take(size as int).contains(
                i as usize,
            ) by {
                assert(idx@.take(size as int) =~= idx@);
                assert(idx@.contains(i as usize));
            }
        }
    }
}

} // verus!
