use crate::adjacency::touching;
use vstd::prelude::*;

verus! {

/// The widest grid side, and the largest number of regions, that the bit trackers can hold.
pub const MAX_SIDE: usize = 64;

/// A puzzle: a grid of `rows` by `cols` cells, each cell belonging to one region.
pub struct Game {
    /// Number of rows of the grid.
    pub rows: usize,
    /// Number of columns of the grid.
    pub cols: usize,
    /// One entry per region; only the length matters to the solver.
    pub colors: Vec<usize>,
    /// The region of each cell; the cell in row `r`, column `c` has index `r * cols + c`.
    pub idx_to_color: Vec<usize>,
}

/// A puzzle as the rules see it: the sides of the grid, the number of regions,
/// and the region of each cell.
pub struct Puzzle {
    /// Number of rows of the grid.
    pub rows: int,
    /// Number of columns of the grid.
    pub cols: int,
    /// Number of regions.
    pub regions: int,
    /// The region of each cell, by cell index.
    pub idx_to_color: Seq<usize>,
}

impl View for Game {
    type V = Puzzle;

    open spec fn view(&self) -> Puzzle {
        Puzzle {
            rows: self.rows as int,
            cols: self.cols as int,
            regions: self.colors@.len() as int,
            idx_to_color: self.idx_to_color@,
        }
    }
}

impl Puzzle {
    /// Number of cells of the grid.
    pub open spec fn cells(self) -> int {
        self.rows * self.cols
    }

    /// The row of a cell.
    pub open spec fn row_of(self, idx: int) -> int {
        idx / self.cols
    }

    /// The column of a cell.
    pub open spec fn col_of(self, idx: int) -> int {
        idx % self.cols
    }

    /// The region of a cell.
    pub open spec fn color_of(self, idx: int) -> int {
        self.idx_to_color[idx] as int
    }

    /// A puzzle that the solver accepts: sides and region count within the tracker
    /// width, one region id per cell, every id naming a region.
    pub open spec fn well_formed(self) -> bool {
        &&& 1 <= self.rows <= MAX_SIDE
        &&& 1 <= self.cols <= MAX_SIDE
        &&& 0 <= self.regions <= MAX_SIDE
        &&& self.idx_to_color.len() == self.rows * self.cols
        &&& forall|i: int|
            0 <= i < self.idx_to_color.len() ==> (#[trigger] self.idx_to_color[i]) < self.regions
    }

    /// Two cells that touch at a corner only: their rows differ by one, and so
    /// do their columns.
    pub open spec fn diagonal(self, a: int, b: int) -> bool {
        touching(self.cols, a, b)
    }

    /// Two cells that cannot both hold a marker.
    pub open spec fn clash(self, a: int, b: int) -> bool {
        ||| self.row_of(a) == self.row_of(b)
        ||| self.col_of(a) == self.col_of(b)
        ||| self.color_of(a) == self.color_of(b)
        ||| self.diagonal(a, b)
    }

    /// A set of markers, in the order placed, that breaks no rule: every marker on
    /// the grid and no two in one row, one column, one region or on touching corners.
    pub open spec fn is_placement(self, p: Seq<usize>) -> bool {
        &&& forall|i: int| 0 <= i < p.len() ==> (#[trigger] p[i]) < self.cells()
        &&& forall|i: int, j: int|
            0 <= i < p.len() && 0 <= j < p.len() && i != j ==> !self.clash(
                #[trigger] p[i] as int,
                #[trigger] p[j] as int,
            )
    }

    /// Some marker of `p` stands in row `r`.
    pub open spec fn row_taken(self, p: Seq<usize>, r: int) -> bool {
        exists|i: int| 0 <= i < p.len() && self.row_of(#[trigger] p[i] as int) == r
    }

    /// Some marker of `p` stands in column `c`.
    pub open spec fn col_taken(self, p: Seq<usize>, c: int) -> bool {
        exists|i: int| 0 <= i < p.len() && self.col_of(#[trigger] p[i] as int) == c
    }

    /// Some marker of `p` stands in region `k`.
    pub open spec fn color_taken(self, p: Seq<usize>, k: int) -> bool {
        exists|i: int| 0 <= i < p.len() && self.color_of(#[trigger] p[i] as int) == k
    }

    /// Every row, every column and every region holds a marker of `p`.
    pub open spec fn is_complete(self, p: Seq<usize>) -> bool {
        &&& forall|r: int| 0 <= r < self.rows ==> #[trigger] self.row_taken(p, r)
        &&& forall|c: int| 0 <= c < self.cols ==> #[trigger] self.col_taken(p, c)
        &&& forall|k: int| 0 <= k < self.regions ==> #[trigger] self.color_taken(p, k)
    }

    /// A full answer to the puzzle: exactly one marker in each row, each column and
    /// each region, and no two markers on touching corners.
    pub open spec fn is_solution(self, p: Seq<usize>) -> bool {
        self.is_placement(p) && self.is_complete(p)
    }

    /// Some full answer holds every marker of `p`.
    pub open spec fn extendable(self, p: Seq<usize>) -> bool {
        exists|full: Seq<usize>|
            #![trigger self.is_solution(full)]
            self.is_solution(full) && forall|i: int|
                0 <= i < p.len() ==> full.contains(#[trigger] p[i])
    }
}

impl Game {
    /// Tells whether the puzzle is one that the solver accepts.
    pub fn is_well_formed(&self) -> (ok: bool)
        ensures
            ok == self@.well_formed(),
    {
        if self.rows < 1 || self.rows > MAX_SIDE || self.cols < 1 || self.cols > MAX_SIDE {
            return false;
        }
        if self.colors.len() > MAX_SIDE {
            return false;
        }
        assert(self.rows * self.cols <= 4096) by (nonlinear_arith)
            requires
                self.rows <= 64,
                self.cols <= 64,
        ;
        if self.idx_to_color.len() != self.rows * self.cols {
            return false;
        }
        let regions = self.colors.len();
        let mut i: usize = 0;
        while i < self.idx_to_color.len()
            invariant
                i <= self.idx_to_color@.len(),
                regions == self.colors@.len(),
                forall|j: int| 0 <= j < i ==> (#[trigger] self.idx_to_color@[j]) < regions,
            decreases self.idx_to_color@.len() - i,
        {
            if self.idx_to_color[i] >= regions {
                return false;
            }
            i += 1;
        }
        true
    }
}

} // verus!
