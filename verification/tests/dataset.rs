use contree::data::assemble::Row;
use contree::data::{DataPoint, Dataset};

fn sample() -> Dataset {
    let mut d = Dataset::new();
    d.insert(DataPoint::new(0, 5, 1), 0);
    d.insert(DataPoint::new(0, 9, 1), 1);
    d.insert(DataPoint::new(1, 3, 0), 0);
    d.insert(DataPoint::new(1, 9, 0), 1);
    d.insert(DataPoint::new(2, 5, 1), 0);
    d.insert(DataPoint::new(2, 1, 1), 1);
    d
}

fn column(d: &Dataset, f: usize) -> Vec<DataPoint> {
    let c = d.feature(f);
    (0..c.len()).map(|i| *c.get(i)).collect()
}

#[test]
fn dataset_insert_builds_columns() {
    let d = sample();
    assert_eq!(d.num_features(), 2);
    assert_eq!(d.count(), 3);
    assert_eq!(d.feature(1).index(), 1);
    let tids: Vec<usize> = column(&d, 0).iter().map(|p| p.tid()).collect();
    assert_eq!(tids, vec![0, 1, 2]);
}

#[test]
fn dataset_labels() {
    let mut d = Dataset::new();
    assert_eq!(d.num_labels(), 0);
    d.set_num_label(4);
    assert_eq!(d.num_labels(), 4);
}

#[test]
fn sort_features_orders_by_value_stably() {
    let mut d = sample();
    d.sort_features();
    let c0: Vec<(usize, u64)> = column(&d, 0).iter().map(|p| (p.tid(), p.value())).collect();
    assert_eq!(c0, vec![(1, 3), (0, 5), (2, 5)]);
    let c1: Vec<(usize, u64)> = column(&d, 1).iter().map(|p| (p.tid(), p.value())).collect();
    assert_eq!(c1, vec![(2, 1), (0, 9), (1, 9)]);
}

#[test]
fn unique_values_are_dense_ranks() {
    let mut d = sample();
    d.compute_unique_feature_values();
    let u0: Vec<usize> = column(&d, 0).iter().map(|p| p.unique_value_id()).collect();
    assert_eq!(u0, vec![1, 0, 1]);
    let u1: Vec<usize> = column(&d, 1).iter().map(|p| p.unique_value_id()).collect();
    assert_eq!(u1, vec![1, 1, 0]);
}

#[test]
fn unique_values_after_sorting() {
    let mut d = Dataset::new();
    for (t, v) in [(0usize, 40u64), (1, 10), (2, 40), (3, 25), (4, 10)] {
        d.insert(DataPoint::new(t, v, 0), 0);
    }
    d.sort_features();
    d.compute_unique_feature_values();
    let got: Vec<(u64, usize)> =
        column(&d, 0).iter().map(|p| (p.value(), p.unique_value_id())).collect();
    assert_eq!(got, vec![(10, 0), (10, 0), (25, 1), (40, 2), (40, 2)]);
}

#[test]
fn from_rows_builds_columns_and_counts_labels() {
    let rows: Vec<Row> = vec![
        (1, vec![(0, 10), (1, 20)]),
        (0, vec![(0, 30), (1, 40)]),
        (1, vec![(1, 50), (0, 60)]),
    ];
    let d = Dataset::from_rows(&rows).unwrap();
    assert_eq!(d.num_features(), 2);
    assert_eq!(d.num_labels(), 2);
    let c0: Vec<(usize, u64, usize)> = (0..d.feature(0).len())
        .map(|i| {
            let p = d.feature(0).get(i);
            (p.tid(), p.value(), p.label())
        })
        .collect();
    assert_eq!(c0, vec![(0, 10, 1), (1, 30, 0), (2, 60, 1)]);
    assert_eq!(d.feature(1).get(2).value(), 50);
}

#[test]
fn from_rows_refuses_values_outside_the_columns() {
    // The first sample opens two columns; the second uses a third.
    let rows: Vec<Row> = vec![(0, vec![(0, 1), (1, 2)]), (0, vec![(2, 3)])];
    assert!(Dataset::from_rows(&rows).is_none());
    // The first sample's first value cannot open column 1.
    let rows: Vec<Row> = vec![(0, vec![(1, 1)])];
    assert!(Dataset::from_rows(&rows).is_none());
    let empty: Vec<Row> = Vec::new();
    let d = Dataset::from_rows(&empty).unwrap();
    assert_eq!(d.num_features(), 0);
    assert_eq!(d.num_labels(), 0);
}
