use contree::data::view::DataView;
use contree::data::{DataPoint, Dataset};

fn sample() -> Dataset {
    // Two features; rows 0..4 with labels 1, 0, 1, 0.
    let mut d = Dataset::new();
    let labels = [1, 0, 1, 0];
    let f0 = [30, 10, 40, 20];
    let f1 = [5, 5, 7, 6];
    for row in 0..4 {
        d.insert(DataPoint::new(row, f0[row], labels[row]), 0);
        d.insert(DataPoint::new(row, f1[row], labels[row]), 1);
    }
    d.set_num_label(2);
    d.sort_features();
    d
}

#[test]
fn view_root_counts_labels_and_keys_rows() {
    let d = sample();
    let v = DataView::root(&d);
    assert_eq!(v.len(), 4);
    assert_eq!(v.num_features(), 2);
    assert_eq!(v.label_freqs(), vec![2, 2]);
    assert_eq!(v.key(), vec![0, 1, 2, 3]);
}

#[test]
fn view_possible_splits_are_value_changes() {
    let d = sample();
    let v = DataView::root(&d);
    assert_eq!(v.possible_splits(0), vec![1, 2, 3]);
    // Feature 1 sorted: 5, 5, 6, 7.
    assert_eq!(v.possible_splits(1), vec![2, 3]);
    assert_eq!(v.value_at(1, 2), 6);
}

#[test]
fn view_split_partitions_rows_by_the_column_order() {
    let d = sample();
    let v = DataView::root(&d);
    // Feature 0 sorted: rows 1 (10), 3 (20), 0 (30), 2 (40).
    let (left, right) = v.split(0, 2);
    assert_eq!(left.key(), vec![1, 3]);
    assert_eq!(right.key(), vec![0, 2]);
    assert_eq!(left.label_freqs(), vec![2, 0]);
    assert_eq!(right.label_freqs(), vec![0, 2]);
    assert_eq!(left.len() + right.len(), v.len());
    // The other column keeps its order on each side: rows 1 (5) and 3 (6) go left.
    assert_eq!(left.column_len(1), 2);
    assert_eq!(left.value_at(1, 0), 5);
    assert_eq!(left.value_at(1, 1), 6);
}
