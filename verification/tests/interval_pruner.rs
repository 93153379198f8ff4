use contree::algorithms::interval_pruner::{Bound, IntervalsPruner};

#[test]
fn test_pruner_creation() {
    let splits = vec![10, 20, 30, 40, 50];
    let pruner = IntervalsPruner::new(&splits, 2);

    assert_eq!(pruner.possible_split_size, 5);
    assert_eq!(pruner.max_gap, 2);
    assert_eq!(pruner.leftmost_zero_index, None);
    assert_eq!(pruner.rightmost_zero_index, None);
}

#[test]
fn test_bound_creation() {
    let bound = Bound::new(0, 10, None, None);
    assert_eq!(bound.left_bound, 0);
    assert_eq!(bound.right_bound, 10);
    assert_eq!(bound.last_split_left_index, None);
    assert_eq!(bound.last_split_right_index, None);
    assert!(bound.is_valid());
}

#[test]
fn test_bound_invalidation() {
    let mut bound = Bound::new(0, 10, Some(5), Some(7));
    assert!(bound.is_valid());

    bound.invalidate();
    assert!(!bound.is_valid());
    assert_eq!(bound.last_split_left_index, None);
    assert_eq!(bound.last_split_right_index, None);
}

#[test]
fn invalidated_bound_is_one_zero() {
    let mut bound = Bound::new(3, 4, Some(1), None);
    bound.invalidate();
    assert_eq!((bound.left_bound, bound.right_bound), (1, 0));
}

#[test]
fn add_result_moves_zero_indices() {
    let splits = vec![10, 20, 30, 40, 50];
    let mut pruner = IntervalsPruner::new(&splits, 0);
    pruner.add_result(3, 0, 5);
    assert_eq!(pruner.leftmost_zero_index, Some(3));
    assert_eq!(pruner.rightmost_zero_index, None);
    pruner.add_result(1, 0, 0);
    assert_eq!(pruner.leftmost_zero_index, Some(3));
    assert_eq!(pruner.rightmost_zero_index, Some(1));
    pruner.add_result(4, 0, 2);
    assert_eq!(pruner.leftmost_zero_index, Some(4));
    pruner.add_result(0, 1, 0);
    assert_eq!(pruner.rightmost_zero_index, Some(0));
}

#[test]
fn add_result_records_unevaluated_as_zero() {
    let splits = vec![10, 20, 30];
    let mut pruner = IntervalsPruner::new(&splits, 0);
    pruner.add_result(2, 7, usize::MAX);
    assert_eq!(pruner.evaluated_indices_record.get(&2), Some(&(7, 0)));
    pruner.add_result(1, usize::MAX, 4);
    assert_eq!(pruner.evaluated_indices_record.get(&1), Some(&(0, 4)));
    assert_eq!(pruner.leftmost_zero_index, None);
    assert_eq!(pruner.rightmost_zero_index, None);
}

#[test]
fn subinterval_pruning_compares_neighbour_scores_with_best() {
    let splits = vec![10, 20, 30, 40, 50];
    let mut pruner = IntervalsPruner::new(&splits, 1);
    pruner.add_result(1, 3, 4);
    pruner.add_result(3, 6, 2);
    let bound = Bound::new(2, 2, Some(1), Some(3));
    // left score of split 1 (3) + right score of split 3 (2) + gap (1) = 6
    assert!(pruner.subinterval_pruning(&bound, 6));
    assert!(!pruner.subinterval_pruning(&bound, 7));
    let fresh = Bound::new(0, 4, None, None);
    assert!(pruner.subinterval_pruning(&fresh, 1));
    assert!(!pruner.subinterval_pruning(&fresh, 2));
}

#[test]
fn interval_shrinking_moves_left_end_past_hopeless_splits() {
    let splits = vec![10, 11, 12, 13, 20];
    let mut pruner = IntervalsPruner::new(&splits, 0);
    pruner.add_result(1, 3, 4);
    let mut bound = Bound::new(2, 4, Some(1), None);
    // sum 7, best 5: positions with value below 11 + 2 + 1 = 14 are dropped
    pruner.interval_shrinking(&mut bound, 5);
    assert_eq!((bound.left_bound, bound.right_bound), (4, 4));
    assert_eq!(bound.last_split_left_index, Some(1));
}

#[test]
fn interval_shrinking_keeps_bound_when_best_is_out_of_reach() {
    let splits = vec![10, 11, 12, 13, 20];
    let mut pruner = IntervalsPruner::new(&splits, 0);
    pruner.add_result(1, 3, 4);
    let mut bound = Bound::new(2, 4, Some(1), None);
    pruner.interval_shrinking(&mut bound, 8);
    assert_eq!((bound.left_bound, bound.right_bound), (2, 4));
}

#[test]
fn interval_shrinking_invalidates_when_everything_is_hopeless() {
    let splits = vec![10, 11, 12, 13, 14];
    let mut pruner = IntervalsPruner::new(&splits, 0);
    pruner.add_result(1, 3, 4);
    let mut bound = Bound::new(2, 4, Some(1), Some(4));
    pruner.interval_shrinking(&mut bound, 0);
    assert!(!bound.is_valid());
    assert_eq!((bound.left_bound, bound.right_bound), (1, 0));
    assert_eq!(bound.last_split_right_index, None);
}

#[test]
fn interval_shrinking_moves_right_end_past_hopeless_splits() {
    let splits = vec![10, 17, 18, 19, 20];
    let mut pruner = IntervalsPruner::new(&splits, 0);
    pruner.add_result(4, 2, 3);
    let mut bound = Bound::new(0, 3, None, Some(4));
    // sum 5, best 3: values above 20 - (2 + 1) = 17 are dropped; the
    // upper-bound position of 17 is 2
    pruner.interval_shrinking(&mut bound, 3);
    assert_eq!((bound.left_bound, bound.right_bound), (0, 2));
}

#[test]
fn interval_shrinking_respects_zero_indices() {
    let splits = vec![10, 20, 30, 40, 50];
    let mut pruner = IntervalsPruner::new(&splits, 0);
    pruner.add_result(1, 0, 5);
    pruner.add_result(4, 5, 0);
    let mut bound = Bound::new(0, 4, None, None);
    pruner.interval_shrinking(&mut bound, 100);
    assert_eq!((bound.left_bound, bound.right_bound), (2, 3));
}

#[test]
fn neighbourhood_pruning_with_no_slack_drops_only_the_split() {
    let splits = vec![10, 20, 30, 40, 50];
    let pruner = IntervalsPruner::new(&splits, 0);
    assert_eq!(pruner.neighbourhood_pruning(0, 0, 4, 2), (3, 2));
}

#[test]
fn neighbourhood_pruning_drops_close_splits() {
    let splits = vec![10, 20, 30, 40, 50];
    let pruner = IntervalsPruner::new(&splits, 0);
    assert_eq!(pruner.neighbourhood_pruning(5, 0, 4, 2), (3, 2));
    assert_eq!(pruner.neighbourhood_pruning(15, 0, 4, 2), (4, 1));
    // everything right of the split is within reach
    assert_eq!(pruner.neighbourhood_pruning(25, 0, 4, 2), (5, 0));
}

#[test]
fn neighbourhood_pruning_adds_the_gap() {
    let splits = vec![10, 20, 30, 40, 50];
    let pruner = IntervalsPruner::new(&splits, 2);
    assert_eq!(pruner.neighbourhood_pruning(3, 0, 4, 2), (3, 2));
    assert_eq!(pruner.neighbourhood_pruning(13, 0, 4, 2), (4, 1));
}

#[test]
fn neighbourhood_pruning_keeps_splits_just_out_of_reach() {
    let splits = vec![10, 20, 30, 40, 50];
    let pruner = IntervalsPruner::new(&splits, 0);
    // Positions 0 and 4 lie 20 away from the split, one more than the slack of 19:
    // they may still beat the best and stay.
    assert_eq!(pruner.neighbourhood_pruning(19, 0, 4, 2), (4, 1));
    // With a slack of 20 they can no longer beat it.
    assert_eq!(pruner.neighbourhood_pruning(20, 0, 4, 2), (5, 0));
}

#[test]
fn add_result_keeps_the_last_scores_of_each_split() {
    let splits = vec![10, 20, 30, 40];
    let mut pruner = IntervalsPruner::new(&splits, 0);
    pruner.add_result(2, 5, 6);
    pruner.add_result(1, 3, 0);
    pruner.add_result(2, 0, 1);
    assert_eq!(pruner.evaluated_indices_record.get(&2), Some(&(0, 1)));
    assert_eq!(pruner.evaluated_indices_record.get(&1), Some(&(3, 0)));
    assert_eq!(pruner.evaluated_indices_record.len(), 2);
    // Largest split with a zero left score, smallest with a zero right score.
    assert_eq!(pruner.leftmost_zero_index, Some(2));
    assert_eq!(pruner.rightmost_zero_index, Some(1));
}

#[test]
fn neighbourhood_pruning_never_moves_the_right_bound_past_the_split() {
    let splits = vec![0, 5, 10];
    let pruner = IntervalsPruner::new(&splits, 0);
    // The split value 0 is within the slack of everything left of it.
    assert_eq!(pruner.neighbourhood_pruning(1, 0, 2, 0), (1, 0));
}
