use crate::adjacency::AdjacentsLookup;
use crate::game::{Game, Puzzle};
use crate::grid::{lemma_cell_bound, lemma_cell_index};
use crate::sorting::{by_score, sort_by_score};
use crate::tracker::UsedTracker;
use vstd::prelude::*;

verus! {

/// A row, a column or a region of the grid: each must hold one marker.
pub enum Line {
    Row(int),
    Col(int),
    Region(int),
}

/// What the search has fixed so far, as far as the choice of the next marker
/// depends on it.
pub struct Board {
    /// The rows that hold a marker.
    pub rows: Set<int>,
    /// The columns that hold a marker.
    pub cols: Set<int>,
    /// The regions that hold a marker.
    pub colors: Set<int>,
    /// The cells with a marker on one of their corners.
    pub blocked: Set<int>,
}

/// The smallest of three numbers.
pub open spec fn min3(a: int, b: int, c: int) -> int {
    if a <= b && a <= c {
        a
    } else if b <= c {
        b
    } else {
        c
    }
}

impl Puzzle {
    /// The line is one of the grid.
    pub open spec fn has_line(self, line: Line) -> bool {
        match line {
            Line::Row(r) => 0 <= r < self.rows,
            Line::Col(c) => 0 <= c < self.cols,
            Line::Region(k) => 0 <= k < self.regions,
        }
    }

    /// The cell lies on the line.
    pub open spec fn on_line(self, line: Line, idx: int) -> bool {
        match line {
            Line::Row(r) => self.row_of(idx) == r,
            Line::Col(c) => self.col_of(idx) == c,
            Line::Region(k) => self.color_of(idx) == k,
        }
    }
}

impl Board {
    /// The line holds a marker.
    pub open spec fn used(&self, line: Line) -> bool {
        match line {
            Line::Row(r) => self.rows.contains(r),
            Line::Col(c) => self.cols.contains(c),
            Line::Region(k) => self.colors.contains(k),
        }
    }

    /// The cell may take the next marker: its row, its column and its region
    /// hold none, and no marker stands on one of its corners.
    pub open spec fn open(&self, game: Puzzle, idx: int) -> bool {
        &&& 0 <= idx < game.cells()
        &&& !self.rows.contains(game.row_of(idx))
        &&& !self.cols.contains(game.col_of(idx))
        &&& !self.colors.contains(game.color_of(idx))
        &&& !self.blocked.contains(idx)
    }

    /// The open cells among the first `n` cells, in ascending order.
    pub open spec fn open_cells(&self, game: Puzzle, n: int) -> Seq<usize>
        decreases n,
    {
        if n <= 0 {
            Seq::<usize>::empty()
        } else if self.open(game, n - 1) {
            self.open_cells(game, n - 1).push((n - 1) as usize)
        } else {
            self.open_cells(game, n - 1)
        }
    }

    /// How many of the first `n` cells are open and lie on the line.
    pub open spec fn spots_among(&self, game: Puzzle, line: Line, n: int) -> nat
        decreases n,
    {
        if n <= 0 {
            0
        } else if self.open(game, n - 1) && game.on_line(line, n - 1) {
            self.spots_among(game, line, n - 1) + 1
        } else {
            self.spots_among(game, line, n - 1)
        }
    }

    /// The remaining spots of a line: how many open cells lie on it.
    pub open spec fn spots(&self, game: Puzzle, line: Line) -> nat {
        self.spots_among(game, line, game.cells())
    }

    /// Some line of the grid still lacks its marker and has no open cell left.
    pub open spec fn starved(&self, game: Puzzle) -> bool {
        exists|line: Line|
            game.has_line(line) && !self.used(line) && #[trigger] self.spots(game, line) == 0
    }

    /// The score of a cell: the fewest remaining spots among its row, its column
    /// and its region.
    pub open spec fn score(&self, game: Puzzle, idx: int) -> int {
        min3(
            self.spots(game, Line::Row(game.row_of(idx))) as int,
            self.spots(game, Line::Col(game.col_of(idx))) as int,
            self.spots(game, Line::Region(game.color_of(idx))) as int,
        )
    }

    /// The score of every cell of the grid.
    pub open spec fn scores(&self, game: Puzzle) -> Seq<usize> {
        Seq::new(game.cells() as nat, |idx: int| self.score(game, idx) as usize)
    }

    /// The cells to try next, in the order to try them: none where a line is
    /// starved; otherwise the open cells, lowest score first, cells of one score
    /// in ascending order.
    pub open spec fn ranked(&self, game: Puzzle) -> Seq<usize> {
        if self.starved(game) {
            Seq::<usize>::empty()
        } else {
            self.open_cells(game, game.cells()).sort_by(by_score(self.scores(game)))
        }
    }

    /// A line has at most as many spots among the first `n` cells as there are
    /// cells, and none exactly when no open cell among them lies on it.
    pub proof fn lemma_spots_among(&self, game: Puzzle, line: Line, n: int)
        requires
            0 <= n,
        ensures
            self.spots_among(game, line, n) <= n,
            self.spots_among(game, line, n) == 0 <==> forall|idx: int|
                0 <= idx < n ==> !(#[trigger] self.open(game, idx) && game.on_line(line, idx)),
        decreases n,
    {
        if n > 0 {
            self.lemma_spots_among(game, line, n - 1);
        }
    }

    /// The list of open cells holds exactly the open cells, in ascending order.
    pub proof fn lemma_open_cells(&self, game: Puzzle, n: int)
        requires
            0 <= n <= game.cells(),
            game.cells() <= usize::MAX,
        ensures
            self.open_cells(game, n).len() <= n,
            forall|t: int|
                0 <= t < self.open_cells(game, n).len() ==> self.open(
                    game,
                    (#[trigger] self.open_cells(game, n)[t]) as int,
                ) && self.open_cells(game, n)[t] < n,
            forall|idx: int|
                0 <= idx < n && self.open(game, idx) ==> #[trigger] self.open_cells(
                    game,
                    n,
                ).contains(idx as usize),
        decreases n,
    {
        if n > 0 {
            self.lemma_open_cells(game, n - 1);
            let before = self.open_cells(game, n - 1);
            let now = self.open_cells(game, n);
            assert forall|idx: int| 0 <= idx < n && self.open(game, idx) implies now.contains(
                idx as usize,
            ) by {
                if idx < n - 1 {
                    assert(before.contains(idx as usize));
                    let t = choose|t: int| 0 <= t < before.len() && before[t] == idx as usize;
                    assert(now[t] == idx as usize);
                } else {
                    assert(now[now.len() - 1] == idx as usize);
                }
            }
        }
    }
}

/// The board that a tracker and a table of counters describe.
pub open spec fn board_of(used: &UsedTracker, adj_lookup: &AdjacentsLookup) -> Board {
    Board {
        rows: Set::new(|r: int| used.has_row(r)),
        cols: Set::new(|c: int| used.has_col(c)),
        colors: Set::new(|k: int| used.has_color(k)),
        blocked: Set::new(|idx: int| adj_lookup.blocked(idx)),
    }
}

/// The smallest of three numbers.
fn least_of(a: usize, b: usize, c: usize) -> (least: usize)
    ensures
        least == min3(a as int, b as int, c as int),
{
    if a <= b && a <= c {
        a
    } else if b <= c {
        b
    } else {
        c
    }
}

/// Whether some row, column or region that holds no marker has no spot left.
/// Each list gives the remaining spots of the rows, the columns and the regions.
#[inline(always)]
pub fn forward_check_failure(
    used: &UsedTracker,
    row_to_spots: &[usize],
    col_to_spots: &[usize],
    color_to_spots: &[usize],
) -> (failed: bool)
    requires
        row_to_spots@.len() <= 64,
        col_to_spots@.len() <= 64,
        color_to_spots@.len() <= 64,
    ensures
        failed == ((exists|r: int|
            0 <= r < row_to_spots@.len() && !used.has_row(r) && #[trigger] row_to_spots@[r] == 0)
            || (exists|c: int|
            0 <= c < col_to_spots@.len() && !used.has_col(c) && #[trigger] col_to_spots@[c] == 0)
            || (exists|k: int|
            0 <= k < color_to_spots@.len() && !used.has_color(k) && #[trigger] color_to_spots@[k]
                == 0)),
{
    let rows = row_to_spots.len();
    let cols = col_to_spots.len();
    let colors = color_to_spots.len();
    let mut row: usize = 0;
    while row < rows
        invariant
            rows == row_to_spots@.len(),
            rows <= 64,
            row <= rows,
            forall|r: int| 0 <= r < row ==> used.has_row(r) || #[trigger] row_to_spots@[r] != 0,
        decreases rows - row,
    {
        if (((used.rows >> (row as u64)) & 1) == 0) && (row_to_spots[row] == 0) {
            assert(!used.has_row(row as int)) by {
                let x = used.rows;
                let s = row as u64;
                assert(((x >> s) & 1) == 0 ==> ((x >> s) & 1) != 1) by (bit_vector);
            }
            return true;
        }
        assert(used.has_row(row as int) || row_to_spots@[row as int] != 0) by {
            let x = used.rows;
            let s = row as u64;
            assert(((x >> s) & 1) == 0 || ((x >> s) & 1) == 1) by (bit_vector);
        }
        row += 1;
    }
    let mut col: usize = 0;
    while col < cols
        invariant
            cols == col_to_spots@.len(),
            cols <= 64,
            col <= cols,
            forall|c: int| 0 <= c < col ==> used.has_col(c) || #[trigger] col_to_spots@[c] != 0,
        decreases cols - col,
    {
        if (((used.cols >> (col as u64)) & 1) == 0) && (col_to_spots[col] == 0) {
            assert(!used.has_col(col as int)) by {
                let x = used.cols;
                let s = col as u64;
                assert(((x >> s) & 1) == 0 ==> ((x >> s) & 1) != 1) by (bit_vector);
            }
            return true;
        }
        assert(used.has_col(col as int) || col_to_spots@[col as int] != 0) by {
            let x = used.cols;
            let s = col as u64;
            assert(((x >> s) & 1) == 0 || ((x >> s) & 1) == 1) by (bit_vector);
        }
        col += 1;
    }
    let mut color: usize = 0;
    while color < colors
        invariant
            colors == color_to_spots@.len(),
            colors <= 64,
            color <= colors,
            forall|r: int| 0 <= r < rows ==> used.has_row(r) || #[trigger] row_to_spots@[r] != 0,
            forall|c: int| 0 <= c < cols ==> used.has_col(c) || #[trigger] col_to_spots@[c] != 0,
            rows == row_to_spots@.len(),
            cols == col_to_spots@.len(),
            forall|k: int|
                0 <= k < color ==> used.has_color(k) || #[trigger] color_to_spots@[k] != 0,
        decreases colors - color,
    {
        if (((used.colors >> (color as u64)) & 1) == 0) && (color_to_spots[color] == 0) {
            assert(!used.has_color(color as int)) by {
                let x = used.colors;
                let s = color as u64;
                assert(((x >> s) & 1) == 0 ==> ((x >> s) & 1) != 1) by (bit_vector);
            }
            return true;
        }
        assert(used.has_color(color as int) || color_to_spots@[color as int] != 0) by {
            let x = used.colors;
            let s = color as u64;
            assert(((x >> s) & 1) == 0 || ((x >> s) & 1) == 1) by (bit_vector);
        }
        color += 1;
    }
    false
}

/// The cells to try next on the board that the tracker and the counters
/// describe, in the order to try them.
#[inline(always)]
pub fn get_candidates(game: &Game, used: &UsedTracker, adj_lookup: &AdjacentsLookup) -> (candidates:
    Vec<usize>)
    requires
        game@.well_formed(),
        adj_lookup.counts@.len() == game@.cells(),
    ensures
        candidates@ == board_of(used, adj_lookup).ranked(game@),
{
    let ghost board = board_of(used, adj_lookup);
    let rows = game.rows;
    let cols = game.cols;
    let colors = game.colors.len();
    proof {
        lemma_cell_bound(rows as int + 1, cols as int, rows as int, 0);
        assert(rows * cols <= 4096) by (nonlinear_arith)
            requires
                rows <= 64,
                cols <= 64,
        ;
    }
    let mut row_to_spots: Vec<usize> = vec![0usize; rows];
    let mut col_to_spots: Vec<usize> = vec![0usize; cols];
    let mut color_to_spots: Vec<usize> = vec![0usize; colors];
    let mut candidates: Vec<usize> = Vec::new();

    let mut row: usize = 0;
    while row < rows
        invariant
            game@.well_formed(),
            adj_lookup.counts@.len() == game@.cells(),
            board == board_of(used, adj_lookup),
            rows == game.rows,
            cols == game.cols,
            colors == game.colors@.len(),
            rows * cols <= 4096,
            row <= rows,
            row_to_spots@.len() == rows,
            col_to_spots@.len() == cols,
            color_to_spots@.len() == colors,
            candidates@ == board.open_cells(game@, row * cols),
            forall|r: int|
                0 <= r < rows ==> (#[trigger] row_to_spots@[r]) == board.spots_among(
                    game@,
                    Line::Row(r),
                    row * cols,
                ),
            forall|c: int|
                0 <= c < cols ==> (#[trigger] col_to_spots@[c]) == board.spots_among(
                    game@,
                    Line::Col(c),
                    row * cols,
                ),
            forall|k: int|
                0 <= k < colors ==> (#[trigger] color_to_spots@[k]) == board.spots_among(
                    game@,
                    Line::Region(k),
                    row * cols,
                ),
        decreases rows - row,
    {
        let mut col: usize = 0;
        while col < cols
            invariant
                game@.well_formed(),
                adj_lookup.counts@.len() == game@.cells(),
                board == board_of(used, adj_lookup),
                rows == game.rows,
                cols == game.cols,
                colors == game.colors@.len(),
                rows * cols <= 4096,
                row < rows,
                col <= cols,
                row_to_spots@.len() == rows,
                col_to_spots@.len() == cols,
                color_to_spots@.len() == colors,
                candidates@ == board.open_cells(game@, row * cols + col),
                forall|r: int|
                    0 <= r < rows ==> (#[trigger] row_to_spots@[r]) == board.spots_among(
                        game@,
                        Line::Row(r),
                        row * cols + col,
                    ),
                forall|c: int|
                    0 <= c < cols ==> (#[trigger] col_to_spots@[c]) == board.spots_among(
                        game@,
                        Line::Col(c),
                        row * cols + col,
                    ),
                forall|k: int|
                    0 <= k < colors ==> (#[trigger] color_to_spots@[k]) == board.spots_among(
                        game@,
                        Line::Region(k),
                        row * cols + col,
                    ),
            decreases cols - col,
        {
            proof {
                lemma_cell_bound(rows as int, cols as int, row as int, col as int);
                lemma_cell_index(cols as int, row as int, col as int);
            }
            let idx = row * cols + col;
            let color = game.idx_to_color[idx];
            proof {
                board.lemma_spots_among(game@, Line::Row(row as int), idx as int);
                board.lemma_spots_among(game@, Line::Col(col as int), idx as int);
                board.lemma_spots_among(game@, Line::Region(color as int), idx as int);
            }
            if !used.is_used(row, col, color) && (adj_lookup.counts[idx] == 0) {
                assert(board.open(game@, idx as int));
                row_to_spots.set(row, row_to_spots[row] + 1);
                col_to_spots.set(col, col_to_spots[col] + 1);
                color_to_spots.set(color, color_to_spots[color] + 1);
                candidates.push(idx);
            } else {
                assert(!board.open(game@, idx as int));
            }
            col += 1;
        }
        proof {
            assert(row * cols + cols == (row + 1) * cols) by (nonlinear_arith);
        }
        row += 1;
    }

    // Forward checking optimization.
    if forward_check_failure(
        used,
        row_to_spots.as_slice(),
        col_to_spots.as_slice(),
        color_to_spots.as_slice(),
    ) {
        proof {
            if exists|r: int|
                0 <= r < row_to_spots@.len() && !used.has_row(r) && #[trigger] row_to_spots@[r]
                    == 0 {
                let r = choose|r: int|
                    0 <= r < row_to_spots@.len() && !used.has_row(r) && #[trigger] row_to_spots@[r]
                        == 0;
                assert(board.spots(game@, Line::Row(r)) == 0);
            } else if exists|c: int|
                0 <= c < col_to_spots@.len() && !used.has_col(c) && #[trigger] col_to_spots@[c]
                    == 0 {
                let c = choose|c: int|
                    0 <= c < col_to_spots@.len() && !used.has_col(c) && #[trigger] col_to_spots@[c]
                        == 0;
                assert(board.spots(game@, Line::Col(c)) == 0);
            } else {
                let k = choose|k: int|
                    0 <= k < color_to_spots@.len() && !used.has_color(k)
                        && #[trigger] color_to_spots@[k] == 0;
                assert(board.spots(game@, Line::Region(k)) == 0);
            }
            assert(board.starved(game@));
        }
        return vec![];
    }
    proof {
        assert(!board.starved(game@)) by {
            if board.starved(game@) {
                let line = choose|line: Line|
                    game@.has_line(line) && !board.used(line) && #[trigger] board.spots(game@, line)
                        == 0;
                match line {
                    Line::Row(r) => {
                        assert(row_to_spots@[r] == 0);
                    },
                    Line::Col(c) => {
                        assert(col_to_spots@[c] == 0);
                    },
                    Line::Region(k) => {
                        assert(color_to_spots@[k] == 0);
                    },
                }
            }
        }
    }

    // Variable ordering heuristic optimization.
    let cells = rows * cols;
    let mut scores: Vec<usize> = Vec::new();
    let mut idx: usize = 0;
    while idx < cells
        invariant
            game@.well_formed(),
            rows == game.rows,
            cols == game.cols,
            colors == game.colors@.len(),
            cells == rows * cols,
            idx <= cells,
            row_to_spots@.len() == rows,
            col_to_spots@.len() == cols,
            color_to_spots@.len() == colors,
            forall|r: int|
                0 <= r < rows ==> (#[trigger] row_to_spots@[r]) == board.spots(game@, Line::Row(r)),
            forall|c: int|
                0 <= c < cols ==> (#[trigger] col_to_spots@[c]) == board.spots(game@, Line::Col(c)),
            forall|k: int|
                0 <= k < colors ==> (#[trigger] color_to_spots@[k]) == board.spots(
                    game@,
                    Line::Region(k),
                ),
            scores@.len() == idx,
            forall|i: int| 0 <= i < idx ==> (#[trigger] scores@[i]) == board.score(game@, i),
        decreases cells - idx,
    {
        proof {
            crate::grid::lemma_cell_split(rows as int, cols as int, idx as int);
        }
        let score = least_of(
            row_to_spots[idx / cols],
            col_to_spots[idx % cols],
            color_to_spots[game.idx_to_color[idx]],
        );
        scores.push(score);
        idx += 1;
    }
    proof {
        assert(scores@ =~= board.scores(game@));
        board.lemma_open_cells(game@, game@.cells());
    }
    sort_by_score(&mut candidates, &scores);
    candidates
}

} // verus!
