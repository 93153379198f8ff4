use super::{DataPoint, Dataset};
use vstd::prelude::*;

verus! {

/// A parsed sample: its label and its values, each with the column it belongs to and
/// its value key.
pub type Row = (usize, Vec<(usize, u64)>);

/// The entries that a sample with row `tid` and label `label` gives to column `c`.
pub open spec fn row_entries(values: Seq<(usize, u64)>, tid: usize, label: usize, c: usize) -> Seq<DataPoint>
    decreases values.len(),
{
    if values.len() == 0 {
        Seq::empty()
    } else {
        let rest = row_entries(values.drop_last(), tid, label, c);
        if values.last().0 == c {
            rest.push(DataPoint { tid, value: values.last().1, label, unique_value_idx: 0 })
        } else {
            rest
        }
    }
}

/// The entries of column `c` given by the samples `rows`, numbered from zero in order.
pub open spec fn column_entries(rows: Seq<Row>, c: usize) -> Seq<DataPoint>
    decreases rows.len(),
{
    if rows.len() == 0 {
        Seq::empty()
    } else {
        column_entries(rows.drop_last(), c) + row_entries(
            rows.last().1@,
            (rows.len() - 1) as usize,
            rows.last().0,
            c,
        )
    }
}

/// Every value lies in an existing column: the first sample opens the columns, its
/// `j`-th value in a column numbered at most `j`, and the other samples use those.
pub open spec fn rows_fit(rows: Seq<Row>) -> bool {
    rows.len() > 0 ==> {
        &&& forall|j: int| 0 <= j < rows[0].1@.len() ==> #[trigger] rows[0].1@[j].0 <= j
        &&& forall|r: int, j: int|
            1 <= r < rows.len() && 0 <= j < rows[r].1@.len() ==> #[trigger] rows[r].1@[j].0 < rows[0].1@.len()
    }
}

/// The labels of the samples.
pub open spec fn labels_of(rows: Seq<Row>) -> Seq<usize> {
    rows.map_values(|row: Row| row.0)
}

proof fn lemma_row_entries_absent(values: Seq<(usize, u64)>, tid: usize, label: usize, c: usize)
    requires
        forall|i: int| 0 <= i < values.len() ==> #[trigger] values[i].0 != c,
    ensures
        row_entries(values, tid, label, c) == Seq::<DataPoint>::empty(),
    decreases values.len(),
{
    if values.len() > 0 {
        lemma_row_entries_absent(values.drop_last(), tid, label, c);
    }
}

proof fn lemma_push_contains(s: Seq<usize>, v: usize, x: usize)
    ensures
        s.push(v).contains(x) <==> (s.contains(x) || x == v),
{
    if s.contains(x) {
        let i = choose|i: int| 0 <= i < s.len() && s[i] == x;
        assert(s.push(v)[i] == x);
    }
    if x == v {
        assert(s.push(v)[s.len() as int] == x);
    }
    if s.push(v).contains(x) && x != v {
        let i = choose|i: int| 0 <= i < s.push(v).len() && s.push(v)[i] == x;
        assert(s[i] == x);
    }
}

fn contains_label(seen: &Vec<usize>, label: usize) -> (r: bool)
    ensures
        r == seen@.contains(label),
{
    let mut i: usize = 0;
    while i < seen.len()
        invariant
            0 <= i <= seen@.len(),
            forall|k: int| 0 <= k < i ==> seen@[k] != label,
        decreases seen@.len() - i,
    {
        if seen[i] == label {
            return true;
        }
        i += 1;
    }
    false
}

impl Dataset {
    /// The dataset of the samples `rows`, numbered from zero in order, with one class
    /// per distinct label; `None` when a value lies outside the columns (see
    /// `rows_fit`).
    pub fn from_rows(rows: &Vec<Row>) -> (r: Option<Dataset>)
        ensures
            r is Some <==> rows_fit(rows@),
            r matches Some(d) ==> {
                &&& d.columns().len() == (if rows@.len() > 0 {
                    rows@[0].1@.len()
                } else {
                    0
                })
                &&& forall|c: int| 0 <= c < d.columns().len() ==> #[trigger] d.columns()[c].points()
                    == column_entries(rows@, c as usize)
                &&& d.spec_num_labels() == labels_of(rows@).to_set().len()
            },
    {
        let mut d = Dataset::new();
        let mut seen: Vec<usize> = Vec::new();
        let n = rows.len();
        let mut r: usize = 0;
        while r < n
            invariant
                n == rows@.len(),
                0 <= r <= n,
                r > 0 ==> d.columns().len() == rows@[0].1@.len(),
                r == 0 ==> d.columns().len() == 0,
                forall|c: int| 0 <= c < d.columns().len() ==> #[trigger] d.columns()[c].points()
                    == column_entries(rows@.take(r as int), c as usize),
                r > 0 ==> forall|j: int| 0 <= j < rows@[0].1@.len() ==> #[trigger] rows@[0].1@[j].0 <= j,
                forall|q: int, j: int|
                    1 <= q < r && 0 <= j < rows@[q].1@.len() ==> #[trigger] rows@[q].1@[j].0 < rows@[0].1@.len(),
                seen@.no_duplicates(),
                seen@.to_set() == labels_of(rows@.take(r as int)).to_set(),
            decreases n - r,
        {
            let label = rows[r].0;
            let values = &rows[r].1;
            let ghost prefix = rows@.take(r as int);
            let ghost next = rows@.take(r + 1);
            proof {
                assert(next.drop_last() =~= prefix);
                assert(labels_of(next) =~= labels_of(prefix).push(label));
            }
            let ghost old_seen = seen@;
            if !contains_label(&seen, label) {
                seen.push(label);
                proof {
                    assert forall|x: usize| seen@.to_set().contains(x) <==> labels_of(next).to_set().contains(x) by {
                        lemma_push_contains(old_seen, label, x);
                        lemma_push_contains(labels_of(prefix), label, x);
                        assert(old_seen.to_set().contains(x) == labels_of(prefix).to_set().contains(x));
                    }
                    assert(seen@.to_set() =~= labels_of(next).to_set());
                }
            } else {
                proof {
                    assert forall|x: usize| seen@.to_set().contains(x) <==> labels_of(next).to_set().contains(x) by {
                        lemma_push_contains(labels_of(prefix), label, x);
                        assert(old_seen.to_set().contains(x) == labels_of(prefix).to_set().contains(x));
                    }
                    assert(seen@.to_set() =~= labels_of(next).to_set());
                }
            }
            let m = values.len();
            let ghost base = d.columns().len();
            let mut j: usize = 0;
            while j < m
                invariant
                    n == rows@.len(),
                    r < n,
                    values@ == rows@[r as int].1@,
                    label == rows@[r as int].0,
                    m == values@.len(),
                    0 <= j <= m,
                    prefix == rows@.take(r as int),
                    r > 0 ==> d.columns().len() == rows@[0].1@.len(),
                    r == 0 ==> d.columns().len() == j,
                    r == 0 ==> forall|k: int| 0 <= k < j ==> #[trigger] values@[k].0 <= k,
                    r > 0 ==> forall|k: int| 0 <= k < j ==> #[trigger] values@[k].0 < rows@[0].1@.len(),
                    forall|c: int| 0 <= c < d.columns().len() ==> #[trigger] d.columns()[c].points()
                        == column_entries(prefix, c as usize) + row_entries(
                            values@.take(j as int),
                            r,
                            label,
                            c as usize,
                        ),
                decreases m - j,
            {
                let (c, key) = values[j];
                let limit = if r == 0 {
                    d.num_features() + 1
                } else {
                    d.num_features()
                };
                if c >= limit {
                    proof {
                        if r == 0 {
                            assert(rows@[0].1@[j as int].0 > j);
                        } else {
                            assert(rows@[r as int].1@[j as int].0 >= rows@[0].1@.len());
                        }
                    }
                    return None;
                }
                let ghost before = d.columns();
                let point = DataPoint::new(r, key, label);
                d.insert(point, c);
                proof {
                    let vt = values@.take(j + 1);
                    assert(vt.drop_last() =~= values@.take(j as int));
                    assert(vt.last() == (c, key));
                    assert forall|q: int| 0 <= q < d.columns().len() implies #[trigger] d.columns()[q].points()
                        == column_entries(prefix, q as usize) + row_entries(vt, r, label, q as usize) by {
                        if r == 0 && q == before.len() {
                            assert(column_entries(prefix, q as usize) == Seq::<DataPoint>::empty()) by {
                                assert(prefix.len() == 0);
                            }
                            assert forall|k: int| 0 <= k < values@.take(j as int).len() implies #[trigger] values@.take(
                                j as int,
                            )[k].0 != q as usize by {
                                assert(values@[k].0 <= k);
                            }
                            lemma_row_entries_absent(values@.take(j as int), r, label, q as usize);
                        }
                        if q != c {
                            if q < before.len() {
                                assert(d.columns()[q] == before[q]);
                            }
                        }
                    }
                }
                j += 1;
            }
            proof {
                assert(values@.take(m as int) =~= values@);
                assert forall|c: int| 0 <= c < d.columns().len() implies #[trigger] d.columns()[c].points()
                    == column_entries(next, c as usize) by {
                    assert(next.last() == rows@[r as int]);
                }
                if r == 0 {
                    assert forall|k: int| 0 <= k < rows@[0].1@.len() implies #[trigger] rows@[0].1@[k].0 <= k by {
                        assert(values@[k].0 <= k);
                    }
                }
                assert forall|q: int, k: int|
                    1 <= q < r + 1 && 0 <= k < rows@[q].1@.len() implies #[trigger] rows@[q].1@[k].0 < rows@[0].1@.len() by {
                    if q == r {
                        assert(values@[k].0 < rows@[0].1@.len());
                    }
                }
            }
            r += 1;
        }
        proof {
            assert(rows@.take(n as int) =~= rows@);
            seen@.unique_seq_to_set();
        }
        d.set_num_label(seen.len());
        Some(d)
    }
}

} // verus!
