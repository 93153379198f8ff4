use contree::add;
use contree::common::budget_iterator::BudgetIterator;
use contree::common::{classification_error, PointSelector, SearchConfig, Statistics};

#[test]
fn it_works() {
    let result = add(2, 2);
    assert_eq!(result, 4);
}

#[test]
fn classification_error_counts_samples_outside_majority() {
    assert_eq!(classification_error(&[3, 5, 2]), (5, 1));
    // ties go to the last class of largest count
    assert_eq!(classification_error(&[3, 5, 5, 1]), (9, 2));
    assert_eq!(classification_error(&[4]), (0, 0));
    assert_eq!(classification_error(&[0, 0]), (0, 1));
    assert_eq!(classification_error(&[]), (0, 0));
}

#[test]
fn budget_iterator_enumerates_by_total_then_discrepancy() {
    let mut it = BudgetIterator::new(1, 2);
    assert_eq!(it.next(), Some((0, 1)));
    assert_eq!(it.next(), Some((0, 2)));
    assert_eq!(it.next(), Some((1, 1)));
    assert_eq!(it.next(), Some((1, 2)));
    assert_eq!(it.next(), None);
    assert_eq!(it.next(), None);
}

#[test]
fn budget_iterator_hands_out_every_budget_once() {
    let mut it = BudgetIterator::new(3, 4);
    let mut seen = Vec::new();
    while let Some(b) = it.next() {
        seen.push(b);
    }
    assert_eq!(seen.len(), 16);
    for d in 0..=3 {
        for s in 1..=4 {
            assert_eq!(seen.iter().filter(|&&p| p == (d, s)).count(), 1);
        }
    }
    for w in seen.windows(2) {
        let (a, b) = (w[0], w[1]);
        assert!(a.0 + a.1 < b.0 + b.1 || (a.0 + a.1 == b.0 + b.1 && a.0 < b.0));
    }
}

#[test]
fn budget_iterator_without_splits_is_empty() {
    let mut it = BudgetIterator::new(5, 0);
    assert_eq!(it.next(), None);
}

#[test]
fn search_config_children_share_the_gap() {
    let c = SearchConfig::new(1, 3, 9, 100, false, true, PointSelector::Mid);
    assert!(c.is_root);
    assert!(!c.use_discrepancy);
    let l = c.derive_left();
    let r = c.derive_right(l.max_gap);
    assert_eq!(l.max_depth, 2);
    assert_eq!(r.max_depth, 2);
    assert!(!l.is_root && !r.is_root);
    // 9 - 5 = 4 handed down: 2 to the first child, 2 to the second
    assert_eq!(l.max_gap, 2);
    assert_eq!(r.max_gap, 2);
    let c = SearchConfig::new(1, 1, 7, 100, false, true, PointSelector::First);
    let l = c.derive_left();
    let r = c.derive_right(l.max_gap);
    assert_eq!((l.max_gap, r.max_gap), (1, 2));
    assert_eq!(c.derive_right(10).max_gap, 0);
}

#[test]
fn statistics_start_at_zero() {
    let s = Statistics::default();
    assert_eq!(
        (s.cache_size, s.cache_hits, s.general_solver_call, s.specialized_solver_call),
        (0, 0, 0, 0)
    );
    assert_eq!((s.num_samples, s.num_features, s.error), (0, 0, 0));
}
