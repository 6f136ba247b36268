use solver::{get_candidates, solve, AdjacentsLookup, Game, UsedTracker};

fn puzzle(rows: usize, cols: usize, regions: usize, idx_to_color: Vec<usize>) -> Game {
    Game { rows, cols, colors: (0..regions).collect(), idx_to_color }
}

/// Checks a non-empty answer against the rules, cell by cell.
fn obeys_rules(game: &Game, answer: &[usize]) -> bool {
    let regions: usize = game.colors.len();
    if answer.len() != game.rows || answer.len() != game.cols || answer.len() != regions {
        return false;
    }
    for (i, &a) in answer.iter().enumerate() {
        if a >= game.rows * game.cols {
            return false;
        }
        for &b in &answer[i + 1..] {
            let (ra, ca) = (a / game.cols, a % game.cols);
            let (rb, cb) = (b / game.cols, b % game.cols);
            if ra == rb || ca == cb || game.idx_to_color[a] == game.idx_to_color[b] {
                return false;
            }
            if ra.abs_diff(rb) == 1 && ca.abs_diff(cb) == 1 {
                return false;
            }
        }
    }
    true
}

/// Tries every way to put one marker in each row.
fn answer_exists(game: &Game, row: usize, placed: &mut Vec<usize>) -> bool {
    if row == game.rows {
        return obeys_rules(game, placed);
    }
    for col in 0..game.cols {
        placed.push(row * game.cols + col);
        if answer_exists(game, row + 1, placed) {
            return true;
        }
        placed.pop();
    }
    false
}

/// The same search as the solver's, without the cache of dead ends.
fn search_without_cache(
    game: &Game,
    used: &mut UsedTracker,
    adj_lookup: &mut AdjacentsLookup,
    placed: &mut Vec<usize>,
) -> bool {
    if used.is_solved() {
        return true;
    }
    for idx in get_candidates(game, used, adj_lookup) {
        let (row, col) = (idx / game.cols, idx % game.cols);
        let color: usize = game.idx_to_color[idx];
        used.set(row, col, color, true);
        adj_lookup.commit(idx);
        placed.push(idx);
        if search_without_cache(game, used, adj_lookup, placed) {
            return true;
        }
        placed.pop();
        adj_lookup.uncommit(idx);
        used.set(row, col, color, false);
    }
    false
}

fn solve_without_cache(game: &Game) -> Vec<usize> {
    let mut used = UsedTracker::new(game.rows, game.cols, game.colors.len());
    let mut adj_lookup = AdjacentsLookup::new(game.rows, game.cols);
    let mut placed: Vec<usize> = Vec::new();
    search_without_cache(game, &mut used, &mut adj_lookup, &mut placed);
    placed
}

/// A fixed stream of region layouts for square grids of the given side.
fn layouts(side: usize, count: usize, seed: u64) -> Vec<Game> {
    let mut state: u64 = seed;
    let mut games: Vec<Game> = Vec::new();
    for _ in 0..count {
        let mut idx_to_color: Vec<usize> = Vec::new();
        for _ in 0..side * side {
            state = state.wrapping_mul(6364136223846793005).wrapping_add(1442695040888963407);
            idx_to_color.push(((state >> 33) % (side as u64)) as usize);
        }
        games.push(puzzle(side, side, side, idx_to_color));
    }
    games
}

#[test]
fn single_cell_grid_solves_to_that_cell() {
    let game = puzzle(1, 1, 1, vec![0]);
    assert!(game.is_well_formed());
    assert_eq!(solve(&game), vec![0]);
}

#[test]
fn region_without_cells_has_no_answer() {
    // Four regions are declared, the cells use three of them.
    let game = puzzle(4, 4, 4, vec![0, 0, 0, 0, 1, 1, 1, 1, 2, 2, 2, 2, 2, 2, 2, 2]);
    assert!(game.is_well_formed());
    assert_eq!(solve(&game), Vec::<usize>::new());
}

#[test]
fn five_by_five_with_one_answer() {
    // Four regions of one cell each pin four markers; the last marker has one
    // row and one column left.
    let mut idx_to_color: Vec<usize> = vec![4; 25];
    idx_to_color[0] = 0;
    idx_to_color[7] = 1;
    idx_to_color[14] = 2;
    idx_to_color[16] = 3;
    let game = puzzle(5, 5, 5, idx_to_color);
    let mut answer: Vec<usize> = solve(&game);
    assert!(obeys_rules(&game, &answer));
    answer.sort();
    assert_eq!(answer, vec![0, 7, 14, 16, 23]);
}

#[test]
fn five_by_five_answer_in_order_placed() {
    let mut idx_to_color: Vec<usize> = vec![4; 25];
    idx_to_color[0] = 0;
    idx_to_color[7] = 1;
    idx_to_color[14] = 2;
    idx_to_color[16] = 3;
    let game = puzzle(5, 5, 5, idx_to_color);
    assert_eq!(solve(&game), vec![0, 7, 14, 16, 23]);
}

#[test]
fn two_regions_in_one_block_have_no_answer() {
    // Regions 0 and 1 both lie inside the upper left block of two by two cells.
    let game = puzzle(3, 3, 3, vec![0, 1, 2, 1, 0, 2, 2, 2, 2]);
    assert!(game.is_well_formed());
    assert_eq!(solve(&game), Vec::<usize>::new());
}

#[test]
fn starved_region_ends_the_branch_at_once() {
    // Region 0 is the cell 5 alone; region 1 lies in the block around it.
    let game = puzzle(4, 4, 4, vec![1, 1, 2, 2, 1, 0, 2, 2, 3, 3, 3, 3, 3, 3, 3, 3]);
    let mut used = UsedTracker::new(4, 4, 4);
    let mut adj_lookup = AdjacentsLookup::new(4, 4);
    let first: Vec<usize> = get_candidates(&game, &used, &adj_lookup);
    assert_eq!(first[0], 5);
    assert_eq!(first.len(), 16);
    used.set(1, 1, 0, true);
    adj_lookup.commit(5);
    // Cells 3, 11, 12, 14 and 15 are still free, yet region 1 has no spot left.
    assert_eq!(get_candidates(&game, &used, &adj_lookup), Vec::<usize>::new());
    assert_eq!(solve(&game), Vec::<usize>::new());
}

#[test]
fn stripes_give_the_first_answer_in_ranked_order() {
    let rows = puzzle(4, 4, 4, vec![0, 0, 0, 0, 1, 1, 1, 1, 2, 2, 2, 2, 3, 3, 3, 3]);
    assert_eq!(solve(&rows), vec![1, 7, 8, 14]);
    let cols = puzzle(4, 4, 4, vec![0, 1, 2, 3, 0, 1, 2, 3, 0, 1, 2, 3, 0, 1, 2, 3]);
    assert_eq!(solve(&cols), vec![1, 7, 8, 14]);
}

#[test]
fn six_by_six_answer() {
    let game = puzzle(
        6,
        6,
        6,
        vec![
            0, 0, 0, 1, 1, 1, 0, 2, 2, 2, 1, 1, 0, 2, 3, 3, 3, 1, 4, 4, 3, 3, 5, 5, 4, 4, 4, 5, 5,
            5, 4, 4, 4, 5, 5, 5,
        ],
    );
    let answer: Vec<usize> = solve(&game);
    assert_eq!(answer, vec![8, 0, 17, 21, 25, 34]);
    assert!(obeys_rules(&game, &answer));
}

#[test]
fn small_square_grids_have_no_answer() {
    assert_eq!(solve(&puzzle(2, 2, 2, vec![0, 0, 1, 1])), Vec::<usize>::new());
    assert_eq!(solve(&puzzle(3, 3, 3, vec![0, 0, 0, 1, 1, 1, 2, 2, 2])), Vec::<usize>::new());
}

#[test]
fn unequal_sides_have_no_answer() {
    assert_eq!(solve(&puzzle(2, 3, 2, vec![0, 0, 1, 1, 1, 0])), Vec::<usize>::new());
    assert_eq!(solve(&puzzle(3, 2, 2, vec![0, 0, 1, 1, 1, 0])), Vec::<usize>::new());
    assert_eq!(solve(&puzzle(2, 2, 3, vec![0, 1, 2, 0])), Vec::<usize>::new());
}

#[test]
fn answers_keep_the_rules() {
    for side in 1..=6usize {
        for game in layouts(side, 40, 11 + side as u64) {
            let answer: Vec<usize> = solve(&game);
            if !answer.is_empty() {
                assert!(obeys_rules(&game, &answer));
            }
        }
    }
}

#[test]
fn solving_twice_gives_the_same_answer() {
    for side in 1..=6usize {
        for game in layouts(side, 25, 97 + side as u64) {
            let again = puzzle(game.rows, game.cols, game.colors.len(), game.idx_to_color.clone());
            assert_eq!(solve(&game), solve(&again));
            assert_eq!(solve(&game), solve(&game));
        }
    }
}

#[test]
fn cache_changes_no_answer() {
    for side in 1..=6usize {
        for game in layouts(side, 40, 5 + side as u64) {
            assert_eq!(solve(&game), solve_without_cache(&game));
        }
    }
}

#[test]
fn no_answer_only_where_none_exists() {
    for side in 1..=4usize {
        for game in layouts(side, 120, 31 + side as u64) {
            let answer: Vec<usize> = solve(&game);
            let mut placed: Vec<usize> = Vec::new();
            assert_eq!(!answer.is_empty(), answer_exists(&game, 0, &mut placed));
        }
    }
}

#[test]
fn widest_grid_is_accepted() {
    // One region per row: the answer walks down the rows.
    let mut idx_to_color: Vec<usize> = Vec::new();
    for row in 0..64usize {
        for _ in 0..64usize {
            idx_to_color.push(row);
        }
    }
    let game = puzzle(64, 64, 64, idx_to_color);
    assert!(game.is_well_formed());
    let answer: Vec<usize> = solve(&game);
    assert!(obeys_rules(&game, &answer));
}

#[test]
fn answer_as_json_text() {
    let mut idx_to_color: Vec<usize> = vec![4; 25];
    idx_to_color[0] = 0;
    idx_to_color[7] = 1;
    idx_to_color[14] = 2;
    idx_to_color[16] = 3;
    let game = puzzle(5, 5, 5, idx_to_color);
    assert_eq!(solver::solve_json(&game), "[0,7,14,16,23]");
    assert_eq!(solver::solve_json(&puzzle(1, 1, 1, vec![0])), "[0]");
}

#[test]
fn no_answer_as_json_text() {
    assert_eq!(solver::solve_json(&puzzle(2, 2, 2, vec![0, 0, 1, 1])), "[]");
}

#[test]
fn long_numerals_in_json_text() {
    // One region per row: the markers go down the grid by steps of two columns.
    let mut idx_to_color: Vec<usize> = Vec::new();
    for row in 0..12usize {
        for _ in 0..12usize {
            idx_to_color.push(row);
        }
    }
    let game = puzzle(12, 12, 12, idx_to_color);
    let answer: Vec<usize> = solve(&game);
    let numerals: Vec<String> = answer.iter().map(|cell| format!("{}", cell)).collect();
    assert_eq!(solver::solve_json(&game), format!("[{}]", numerals.join(",")));
    assert!(answer.iter().any(|&cell| cell >= 100));
}

#[test]
fn fixed_layouts_give_known_answers() {
    let expected: Vec<(usize, Vec<usize>)> = vec![
        (5, vec![]),
        (5, vec![]),
        (5, vec![20, 9, 2, 11, 18]),
        (5, vec![21, 12, 3, 5, 19]),
        (5, vec![]),
        (5, vec![19, 8, 0, 11, 22]),
        (6, vec![23, 24, 32, 4, 7, 15]),
        (6, vec![]),
        (6, vec![0, 14, 10, 23, 25, 33]),
        (6, vec![25, 4, 8, 12, 23, 33]),
        (6, vec![17, 19, 27, 4, 8, 30]),
        (6, vec![]),
        (7, vec![40, 4, 13, 15, 24, 28, 44]),
        (7, vec![38, 26, 2, 11, 48, 14, 29]),
        (7, vec![30, 4, 17, 8, 26, 35, 48]),
        (7, vec![7, 22, 20, 37, 3, 32, 47]),
        (7, vec![5, 9, 14, 24, 29, 41, 46]),
        (7, vec![11, 0, 16, 27, 29, 38, 47]),
        (8, vec![10, 7, 21, 24, 36, 41, 54, 59]),
        (8, vec![15, 36, 3, 25, 21, 42, 54, 56]),
        (8, vec![0, 21, 10, 27, 49, 39, 44, 62]),
        (8, vec![6, 51, 12, 18, 24, 37, 63, 41]),
        (8, vec![1, 20, 15, 26, 37, 40, 59, 54]),
        (8, vec![13, 28, 18, 7, 62, 32, 43, 49]),
    ];
    let mut games: Vec<Game> = Vec::new();
    for (side, seed) in [(5usize, 1001u64), (6, 1002), (7, 1003), (8, 1004)] {
        games.extend(layouts(side, 6, seed));
    }
    assert_eq!(games.len(), expected.len());
    for (game, (side, answer)) in games.iter().zip(expected) {
        assert_eq!(game.rows, side);
        assert_eq!(solve(game), answer);
    }
}
