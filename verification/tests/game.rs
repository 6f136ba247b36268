use solver::Game;

fn puzzle(rows: usize, cols: usize, regions: usize, idx_to_color: Vec<usize>) -> Game {
    Game { rows, cols, colors: (0..regions).collect(), idx_to_color }
}

#[test]
fn accepted_puzzles() {
    assert!(puzzle(1, 1, 1, vec![0]).is_well_formed());
    assert!(puzzle(2, 3, 2, vec![0, 0, 1, 1, 1, 0]).is_well_formed());
    assert!(puzzle(64, 64, 64, vec![63; 64 * 64]).is_well_formed());
    // A region without cells is a puzzle, though one without an answer.
    assert!(puzzle(2, 2, 3, vec![0, 1, 0, 1]).is_well_formed());
}

#[test]
fn sides_out_of_range_are_refused() {
    assert!(!puzzle(0, 1, 1, vec![]).is_well_formed());
    assert!(!puzzle(1, 0, 1, vec![]).is_well_formed());
    assert!(!puzzle(65, 1, 1, vec![0; 65]).is_well_formed());
    assert!(!puzzle(1, 65, 1, vec![0; 65]).is_well_formed());
}

#[test]
fn too_many_regions_are_refused() {
    assert!(!puzzle(1, 1, 65, vec![0]).is_well_formed());
}

#[test]
fn wrong_table_length_is_refused() {
    assert!(!puzzle(2, 2, 2, vec![0, 1, 0]).is_well_formed());
    assert!(!puzzle(2, 2, 2, vec![0, 1, 0, 1, 0]).is_well_formed());
}

#[test]
fn region_id_out_of_range_is_refused() {
    assert!(!puzzle(2, 2, 2, vec![0, 1, 2, 1]).is_well_formed());
    assert!(!puzzle(1, 1, 0, vec![0]).is_well_formed());
}
