use solver::{forward_check_failure, get_candidates, AdjacentsLookup, Game, UsedTracker};

fn puzzle(rows: usize, cols: usize, regions: usize, idx_to_color: Vec<usize>) -> Game {
    Game { rows, cols, colors: (0..regions).collect(), idx_to_color }
}

#[test]
fn equal_scores_keep_row_major_order() {
    let game = puzzle(3, 3, 3, vec![0, 0, 1, 0, 1, 1, 2, 2, 2]);
    let used = UsedTracker::new(3, 3, 3);
    let adj_lookup = AdjacentsLookup::new(3, 3);
    assert_eq!(get_candidates(&game, &used, &adj_lookup), vec![0, 1, 2, 3, 4, 5, 6, 7, 8]);
}

#[test]
fn tightest_region_comes_first() {
    // Region 1 is the cell 5 alone: score 1. Every other cell scores 4.
    let game = puzzle(4, 4, 4, vec![0, 0, 0, 0, 0, 1, 0, 0, 2, 2, 3, 3, 2, 2, 3, 3]);
    let used = UsedTracker::new(4, 4, 4);
    let adj_lookup = AdjacentsLookup::new(4, 4);
    assert_eq!(
        get_candidates(&game, &used, &adj_lookup),
        vec![5, 0, 1, 2, 3, 4, 6, 7, 8, 9, 10, 11, 12, 13, 14, 15]
    );
}

#[test]
fn scores_order_the_cells() {
    // Cells 8 and 12 are regions of their own (score 1), region 3 has three
    // cells (score 3), the cells of region 0 score 4.
    let game = puzzle(4, 4, 4, vec![0, 0, 0, 0, 0, 0, 0, 0, 1, 0, 0, 0, 2, 3, 3, 3]);
    let used = UsedTracker::new(4, 4, 4);
    let adj_lookup = AdjacentsLookup::new(4, 4);
    assert_eq!(
        get_candidates(&game, &used, &adj_lookup),
        vec![8, 12, 13, 14, 15, 0, 1, 2, 3, 4, 5, 6, 7, 9, 10, 11]
    );
}

#[test]
fn used_lines_and_corners_close_cells() {
    let game = puzzle(4, 4, 4, vec![0, 0, 0, 0, 0, 1, 0, 0, 2, 2, 3, 3, 2, 2, 3, 3]);
    let mut used = UsedTracker::new(4, 4, 4);
    let mut adj_lookup = AdjacentsLookup::new(4, 4);
    used.set(1, 1, 1, true);
    adj_lookup.commit(5);
    // Row 1 and column 1 are taken, cells 0, 2, 8 and 10 touch cell 5.
    // Scores: 3, 11, 12 and 14 score 1, cell 15 scores 3.
    assert_eq!(get_candidates(&game, &used, &adj_lookup), vec![3, 11, 12, 14, 15]);
}

#[test]
fn marker_beside_a_lone_cell_region_starves_it() {
    let game = puzzle(4, 4, 4, vec![0, 0, 0, 0, 0, 1, 0, 0, 2, 2, 3, 3, 2, 2, 3, 3]);
    let mut used = UsedTracker::new(4, 4, 4);
    let mut adj_lookup = AdjacentsLookup::new(4, 4);
    used.set(0, 0, 0, true);
    adj_lookup.commit(0);
    // Cell 5, the only cell of region 1, touches cell 0 at a corner: region 1
    // has no spot left, though cells 9, 10, 11, 13, 14 and 15 are open.
    assert_eq!(get_candidates(&game, &used, &adj_lookup), Vec::<usize>::new());
}

#[test]
fn full_board_has_no_candidates() {
    let game = puzzle(1, 1, 1, vec![0]);
    let mut used = UsedTracker::new(1, 1, 1);
    let adj_lookup = AdjacentsLookup::new(1, 1);
    assert_eq!(get_candidates(&game, &used, &adj_lookup), vec![0]);
    used.set(0, 0, 0, true);
    assert_eq!(get_candidates(&game, &used, &adj_lookup), Vec::<usize>::new());
}

#[test]
fn forward_check_finds_a_starved_row() {
    let used = UsedTracker::new(2, 2, 2);
    assert!(forward_check_failure(&used, &vec![1, 0], &vec![1, 1], &vec![1, 1]));
    assert!(!forward_check_failure(&used, &vec![1, 1], &vec![1, 1], &vec![1, 1]));
}

#[test]
fn forward_check_finds_a_starved_column_or_region() {
    let used = UsedTracker::new(2, 2, 2);
    assert!(forward_check_failure(&used, &vec![1, 1], &vec![0, 2], &vec![1, 1]));
    assert!(forward_check_failure(&used, &vec![1, 1], &vec![1, 1], &vec![2, 0]));
}

#[test]
fn forward_check_passes_over_used_lines() {
    let mut used = UsedTracker::new(2, 2, 2);
    used.set(1, 0, 1, true);
    assert!(!forward_check_failure(&used, &vec![1, 0], &vec![0, 1], &vec![1, 0]));
    assert!(forward_check_failure(&used, &vec![0, 0], &vec![0, 1], &vec![1, 0]));
    assert!(!forward_check_failure(&used, &vec![], &vec![], &vec![]));
}
