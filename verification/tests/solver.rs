use contree::algorithms::interval_pruner::Bound;
use contree::algorithms::{ConTree, ConTreeLds, GenericConTree};
use contree::common::{PointSelector, SearchConfig};
use contree::data::view::DataView;
use contree::data::{DataPoint, Dataset};

#[test]
fn select_point_mid_first_random() {
    let mut t: ConTree<true> = ConTree::new(1, 3, 600_000, usize::MAX, PointSelector::Mid, 0, false, true);
    let b = Bound::new(3, 8, None, None);
    let mid = SearchConfig::new(1, 3, 0, 10, false, false, PointSelector::Mid);
    let first = SearchConfig::new(1, 3, 0, 10, false, false, PointSelector::First);
    let random = SearchConfig::new(1, 3, 0, 10, false, false, PointSelector::Random);
    assert_eq!(t.select_point(&mid, &b), 5);
    assert_eq!(t.select_point(&first, &b), 3);
    for _ in 0..100 {
        let p = t.select_point(&random, &b);
        assert!((3..=8).contains(&p));
    }
    let single = Bound::new(4, 4, None, None);
    assert_eq!(t.select_point(&random, &single), 4);
}

#[test]
fn lds_select_point_and_statistics() {
    let mut t: ConTreeLds<false> =
        ConTreeLds::new(1, 2, 600_000, usize::MAX, PointSelector::First, 0, true, false);
    let b = Bound::new(0, 9, None, None);
    let mid = SearchConfig::new(1, 3, 0, 10, false, false, PointSelector::Mid);
    assert_eq!(t.select_point(&mid, &b), 4);
    assert_eq!(t.statistics().error, 0);
}

#[test]
fn discrepancy_limit_values() {
    assert_eq!(ConTreeLds::<true>::discrepancy_limit(5, 0), 5);
    assert_eq!(ConTreeLds::<true>::discrepancy_limit(5, 1), 5);
    assert_eq!(ConTreeLds::<true>::discrepancy_limit(5, 3), 5 + 4 + 3);
    assert_eq!(ConTreeLds::<true>::discrepancy_limit(2, 4), 2 + 1 + 0 + 0);
}

#[test]
fn generic_solver_picks_its_search() {
    let g: GenericConTree<true> =
        GenericConTree::new(1, 3, 600_000, usize::MAX, PointSelector::Mid, 0, false, false, true);
    assert!(matches!(g, GenericConTree::LDS(_)));
    assert_eq!(g.stats().cache_size, 0);
    let g: GenericConTree<true> =
        GenericConTree::new(1, 3, 600_000, usize::MAX, PointSelector::Mid, 0, false, false, false);
    assert!(matches!(g, GenericConTree::Normal(_)));
    assert_eq!(g.stats().general_solver_call, 0);
}

fn two_class_dataset() -> Dataset {
    // One feature with values 1..=6 (keys 10..=60); the first three samples are of
    // class 0, the others of class 1.
    let mut d = Dataset::new();
    for row in 0..6 {
        let label = if row < 3 { 0 } else { 1 };
        d.insert(DataPoint::new(row, 10 * (row as u64 + 1), label), 0);
    }
    d.set_num_label(2);
    d.sort_features();
    d
}

#[test]
fn contree_fit_finds_the_separating_split() {
    let d = two_class_dataset();
    let mut t: ConTree<true> = ConTree::new(1, 1, 600_000, usize::MAX, PointSelector::Mid, 0, false, false);
    t.fit(&d);
    let s = t.statistics();
    assert_eq!(s.error, 0);
    assert_eq!(s.num_samples, 6);
    assert_eq!(s.num_features, 1);
    let tree = t.tree();
    assert_eq!(tree.len(), 3);
    assert_eq!(tree[0].feature, 0);
    assert_eq!(tree[0].split, 40);
    assert_eq!(tree[0].error, 0);
    let left = &tree[tree[0].left.unwrap()];
    let right = &tree[tree[0].right.unwrap()];
    assert!(left.is_leaf && right.is_leaf);
    assert_eq!(left.label, 0);
    assert_eq!(right.label, 1);
}

#[test]
fn contree_fit_without_cache_and_depth_zero_keeps_the_leaf() {
    let d = two_class_dataset();
    let mut t: ConTree<false> = ConTree::new(1, 0, 600_000, usize::MAX, PointSelector::First, 0, false, false);
    t.fit(&d);
    assert_eq!(t.statistics().error, 3);
    assert_eq!(t.statistics().cache_size, 1);
}

#[test]
fn contree_fit_first_point_order_finds_the_split() {
    let d = two_class_dataset();
    let mut t: ConTree<true> = ConTree::new(1, 2, 600_000, usize::MAX, PointSelector::First, 0, false, false);
    t.fit(&d);
    assert_eq!(t.statistics().error, 0);
}

#[test]
fn contree_min_support_blocks_small_sides() {
    let d = two_class_dataset();
    // Each side needs 4 samples: no split of 6 samples can give that.
    let mut t: ConTree<true> = ConTree::new(4, 2, 600_000, usize::MAX, PointSelector::Mid, 0, false, false);
    t.fit(&d);
    assert_eq!(t.statistics().error, 3);
}

#[test]
fn lds_fit_with_zero_budget_tries_one_split() {
    let d = two_class_dataset();
    let mut t: ConTreeLds<true> = ConTreeLds::new(1, 1, 600_000, usize::MAX, PointSelector::Mid, 0, false, false);
    t.fit(&d);
    // Only the first split position (one sample left) is tried.
    assert_eq!(t.statistics().error, 2);
}

#[test]
fn lds_partial_fit_improves_run_after_run() {
    let d = two_class_dataset();
    let view = DataView::root(&d);
    let mut t: ConTreeLds<true> = ConTreeLds::new(1, 1, 600_000, usize::MAX, PointSelector::Mid, 0, false, false);
    assert!(!t.partial_fit(&view));
    assert_eq!(t.statistics().error, 2);
    // The second run reaches error 0 and proves the root optimal.
    assert!(t.partial_fit(&view));
    assert_eq!(t.statistics().error, 0);
    assert!(t.partial_fit(&view));
    assert_eq!(t.statistics().error, 0);
    let tree = t.get_solution_tree();
    assert_eq!(tree[0].error, 0);
    assert_eq!(tree[0].split, 40);
}

#[test]
fn generic_solver_fits_and_gives_its_tree() {
    let d = two_class_dataset();
    let mut g: GenericConTree<true> =
        GenericConTree::new(1, 1, 600_000, usize::MAX, PointSelector::Mid, 0, false, false, false);
    g.fit(&d);
    assert_eq!(g.stats().error, 0);
    assert!(g.tree().is_empty());
    assert!(g.partial_fit(&DataView::root(&d)));
    let mut l: GenericConTree<true> =
        GenericConTree::new(1, 1, 600_000, usize::MAX, PointSelector::Mid, 0, false, false, true);
    l.fit(&d);
    assert_eq!(l.stats().error, 2);
    assert_eq!(l.tree()[0].error, 2);
}
