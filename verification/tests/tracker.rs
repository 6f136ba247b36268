use solver::UsedTracker;

#[test]
fn new_tracker_marks_nothing() {
    let tracker = UsedTracker::new(3, 4, 5);
    assert_eq!(tracker.rows, 0);
    assert_eq!(tracker.cols, 0);
    assert_eq!(tracker.colors, 0);
    assert_eq!(tracker.required_rows, 0b111);
    assert_eq!(tracker.required_cols, 0b1111);
    assert_eq!(tracker.required_colors, 0b11111);
    assert!(!tracker.is_used(0, 0, 0));
    assert!(!tracker.is_solved());
}

#[test]
fn set_marks_row_column_and_region() {
    let mut tracker = UsedTracker::new(3, 3, 3);
    tracker.set(0, 1, 2, true);
    assert_eq!(tracker.rows, 0b001);
    assert_eq!(tracker.cols, 0b010);
    assert_eq!(tracker.colors, 0b100);
    assert!(tracker.is_used(0, 0, 0));
    assert!(tracker.is_used(1, 1, 0));
    assert!(tracker.is_used(1, 0, 2));
    assert!(!tracker.is_used(1, 0, 0));
    assert!(!tracker.is_used(2, 2, 1));
}

#[test]
fn clearing_undoes_marking() {
    let mut tracker = UsedTracker::new(3, 3, 3);
    tracker.set(2, 0, 1, true);
    tracker.set(1, 2, 0, true);
    tracker.set(2, 0, 1, false);
    assert_eq!(tracker.rows, 0b010);
    assert_eq!(tracker.cols, 0b100);
    assert_eq!(tracker.colors, 0b001);
    assert!(!tracker.is_used(2, 0, 1));
    // Marking twice is marking once.
    tracker.set(1, 2, 0, true);
    assert_eq!(tracker.rows, 0b010);
}

#[test]
fn solved_when_every_mask_is_full() {
    let mut tracker = UsedTracker::new(2, 2, 2);
    tracker.set(0, 1, 0, true);
    assert!(!tracker.is_solved());
    tracker.set(1, 0, 1, true);
    assert!(tracker.is_solved());
    tracker.set(1, 0, 1, false);
    assert!(!tracker.is_solved());
}

#[test]
fn sides_may_differ_from_the_region_count() {
    let mut tracker = UsedTracker::new(1, 1, 2);
    tracker.set(0, 0, 0, true);
    assert!(!tracker.is_solved());
    assert!(UsedTracker::new(0, 0, 0).is_solved());
}

#[test]
fn full_width_is_tracked() {
    let mut tracker = UsedTracker::new(64, 64, 64);
    assert_eq!(tracker.required_rows, u64::MAX);
    for i in 0..64usize {
        assert!(!tracker.is_solved());
        assert!(!tracker.is_used(i, i, i));
        tracker.set(i, i, i, true);
        assert!(tracker.is_used(i, 0, 0));
    }
    assert!(tracker.is_solved());
    tracker.set(63, 63, 63, false);
    assert_eq!(tracker.rows, u64::MAX >> 1);
}
