use crate::grid::{lemma_cell_bound, lemma_cell_index, lemma_cell_split};
use vstd::prelude::*;

verus! {

/// The cell in row `r`, column `c`, as a list: one entry if it lies on the grid,
/// none otherwise.
pub open spec fn corner(rows: int, cols: int, r: int, c: int) -> Seq<usize> {
    if 0 <= r < rows && 0 <= c < cols {
        seq![(r * cols + c) as usize]
    } else {
        Seq::<usize>::empty()
    }
}

/// The cells that touch cell `idx` at a corner, clipped to the grid, in the order
/// upper left, upper right, lower left, lower right.
pub open spec fn corners(rows: int, cols: int, idx: int) -> Seq<usize> {
    let r = idx / cols;
    let c = idx % cols;
    corner(rows, cols, r - 1, c - 1) + corner(rows, cols, r - 1, c + 1) + corner(
        rows,
        cols,
        r + 1,
        c - 1,
    ) + corner(rows, cols, r + 1, c + 1)
}

/// The two cells touch at a corner only: rows and columns both differ by one.
pub open spec fn touching(cols: int, a: int, b: int) -> bool {
    &&& (a / cols - b / cols == 1 || b / cols - a / cols == 1)
    &&& (a % cols - b % cols == 1 || b % cols - a % cols == 1)
}

/// The corner list of a cell holds exactly the cells of the grid that touch it at
/// a corner, each of them once.
pub proof fn lemma_corners(rows: int, cols: int, a: int)
    requires
        0 < cols,
        0 <= a < rows * cols,
        rows * cols <= usize::MAX,
    ensures
        corners(rows, cols, a).no_duplicates(),
        corners(rows, cols, a).len() <= 4,
        forall|t: int|
            0 <= t < corners(rows, cols, a).len() ==> (#[trigger] corners(rows, cols, a)[t])
                < rows * cols,
        forall|b: usize|
            b < rows * cols ==> (#[trigger] corners(rows, cols, a).contains(b) <==> touching(
                cols,
                a,
                b as int,
            )),
{
    let r = a / cols;
    let c = a % cols;
    lemma_cell_split(rows, cols, a);
    let ul = corner(rows, cols, r - 1, c - 1);
    let ur = corner(rows, cols, r - 1, c + 1);
    let ll = corner(rows, cols, r + 1, c - 1);
    let lr = corner(rows, cols, r + 1, c + 1);
    let all = corners(rows, cols, a);
    assert(all == ul + ur + ll + lr);
    if r - 1 >= 0 && c - 1 >= 0 {
        lemma_cell_bound(rows, cols, r - 1, c - 1);
        lemma_cell_index(cols, r - 1, c - 1);
    }
    if r - 1 >= 0 && c + 1 < cols {
        lemma_cell_bound(rows, cols, r - 1, c + 1);
        lemma_cell_index(cols, r - 1, c + 1);
    }
    if r + 1 < rows && c - 1 >= 0 {
        lemma_cell_bound(rows, cols, r + 1, c - 1);
        lemma_cell_index(cols, r + 1, c - 1);
    }
    if r + 1 < rows && c + 1 < cols {
        lemma_cell_bound(rows, cols, r + 1, c + 1);
        lemma_cell_index(cols, r + 1, c + 1);
    }
    assert forall|t: int| 0 <= t < all.len() implies (#[trigger] all[t]) < rows * cols && touching(
        cols,
        a,
        all[t] as int,
    ) by {}
    assert forall|s: int, t: int| 0 <= s < all.len() && 0 <= t < all.len() && s != t implies all[s]
        != all[t] by {
        let x = all[s] as int;
        let y = all[t] as int;
        assert(x / cols != y / cols || x % cols != y % cols);
    }
    assert forall|b: usize| b < rows * cols implies (#[trigger] all.contains(b) <==> touching(
        cols,
        a,
        b as int,
    )) by {
        lemma_cell_split(rows, cols, b as int);
        if touching(cols, a, b as int) {
            let rb = (b as int) / cols;
            let cb = (b as int) % cols;
            if rb == r - 1 && cb == c - 1 {
                assert(ul[0] == b);
                assert(all[0] == b);
            } else if rb == r - 1 && cb == c + 1 {
                assert(ur[0] == b);
                assert(all[ul.len() as int] == b);
            } else if rb == r + 1 && cb == c - 1 {
                assert(ll[0] == b);
                assert(all[(ul.len() + ur.len()) as int] == b);
            } else {
                assert(rb == r + 1 && cb == c + 1);
                assert(lr[0] == b);
                assert(all[(ul.len() + ur.len() + ll.len()) as int] == b);
            }
        }
        if all.contains(b) {
            let t = choose|t: int| 0 <= t < all.len() && all[t] == b;
            assert(touching(cols, a, all[t] as int));
        }
    }
}

/// For every cell, the list of cells touching it at a corner, and a counter of
/// the markers that stand on those corners.
pub struct AdjacentsLookup {
    /// The corner neighbours of each cell.
    pub adjacents: Vec<Vec<usize>>,
    /// For each cell, how many markers stand on its corner neighbours.
    pub counts: Vec<usize>,
}

impl AdjacentsLookup {
    /// The table belongs to a grid of the given sides: one corner list and one
    /// counter for each cell.
    pub open spec fn covers(&self, rows: int, cols: int) -> bool {
        &&& 0 < cols
        &&& 0 <= rows
        &&& rows * cols <= usize::MAX
        &&& self.adjacents@.len() == rows * cols
        &&& self.counts@.len() == rows * cols
        &&& forall|idx: int|
            0 <= idx < rows * cols ==> (#[trigger] self.adjacents@[idx])@ == corners(
                rows,
                cols,
                idx,
            )
    }

    /// Every corner list names cells of the table, each at most once, and every
    /// cell has a counter.
    pub open spec fn sound(&self) -> bool {
        &&& self.counts@.len() == self.adjacents@.len()
        &&& forall|idx: int|
            0 <= idx < self.adjacents@.len() ==> (#[trigger] self.adjacents@[idx])@.no_duplicates()
        &&& forall|idx: int, t: int|
            0 <= idx < self.adjacents@.len() && 0 <= t < self.adjacents@[idx]@.len() ==> (
            #[trigger] self.adjacents@[idx]@[t]) < self.adjacents@.len()
    }

    /// A table that belongs to a grid is sound.
    pub proof fn lemma_covers_sound(&self, rows: int, cols: int)
        requires
            self.covers(rows, cols),
        ensures
            self.sound(),
    {
        assert forall|idx: int| 0 <= idx < self.adjacents@.len() implies (
        #[trigger] self.adjacents@[idx])@.no_duplicates() by {
            lemma_corners(rows, cols, idx);
        }
        assert forall|idx: int, t: int|
            0 <= idx < self.adjacents@.len() && 0 <= t < self.adjacents@[idx]@.len() implies (
        #[trigger] self.adjacents@[idx]@[t]) < self.adjacents@.len() by {
            lemma_corners(rows, cols, idx);
            assert(self.adjacents@[idx]@[t] == corners(rows, cols, idx)[t]);
        }
    }

    /// The cell has a marker on one of its corners.
    pub open spec fn blocked(&self, idx: int) -> bool {
        0 <= idx < self.counts@.len() && self.counts@[idx] > 0
    }

    /// Builds the table for a grid of the given sides, with every counter at zero.
    pub fn new(rows: usize, cols: usize) -> (lookup: Self)
        requires
            0 < cols,
            rows * cols <= usize::MAX,
        ensures
            lookup.covers(rows as int, cols as int),
            forall|idx: int| 0 <= idx < rows * cols ==> (#[trigger] lookup.counts@[idx]) == 0,
    {
        let mut adjacents: Vec<Vec<usize>> = Vec::new();
        let mut counts: Vec<usize> = Vec::new();
        let mut row: usize = 0;
        while row < rows
            invariant
                0 < cols,
                rows * cols <= usize::MAX,
                row <= rows,
                adjacents@.len() == row * cols,
                counts@.len() == row * cols,
                forall|idx: int|
                    0 <= idx < row * cols ==> (#[trigger] adjacents@[idx])@ == corners(
                        rows as int,
                        cols as int,
                        idx,
                    ),
                forall|idx: int| 0 <= idx < row * cols ==> (#[trigger] counts@[idx]) == 0,
            decreases rows - row,
        {
            let mut col: usize = 0;
            while col < cols
                invariant
                    0 < cols,
                    rows * cols <= usize::MAX,
                    row < rows,
                    col <= cols,
                    adjacents@.len() == row * cols + col,
                    counts@.len() == row * cols + col,
                    forall|idx: int|
                        0 <= idx < row * cols + col ==> (#[trigger] adjacents@[idx])@ == corners(
                            rows as int,
                            cols as int,
                            idx,
                        ),
                    forall|idx: int|
                        0 <= idx < row * cols + col ==> (#[trigger] counts@[idx]) == 0,
                decreases cols - col,
            {
                proof {
                    lemma_cell_bound(rows as int, cols as int, row as int, col as int);
                    lemma_cell_index(cols as int, row as int, col as int);
                    if row > 0 && col > 0 {
                        lemma_cell_bound(rows as int, cols as int, row - 1, col - 1);
                    }
                    if row > 0 && col + 1 < cols {
                        lemma_cell_bound(rows as int, cols as int, row - 1, col + 1);
                    }
                    if row + 1 < rows && col > 0 {
                        lemma_cell_bound(rows as int, cols as int, row + 1, col - 1);
                    }
                    if row + 1 < rows && col + 1 < cols {
                        lemma_cell_bound(rows as int, cols as int, row + 1, col + 1);
                    }
                }
                let mut near: Vec<usize> = Vec::with_capacity(4);
                if row > 0 && col > 0 {
                    near.push((row - 1) * cols + (col - 1));
                }
                if row > 0 && col + 1 < cols {
                    near.push((row - 1) * cols + (col + 1));
                }
                if row + 1 < rows && col > 0 {
                    near.push((row + 1) * cols + (col - 1));
                }
                if row + 1 < rows && col + 1 < cols {
                    near.push((row + 1) * cols + (col + 1));
                }
                assert(near@ =~= corners(rows as int, cols as int, row * cols + col));
                adjacents.push(near);
                counts.push(0);
                col += 1;
            }
            proof {
                assert(row * cols + cols == (row + 1) * cols) by (nonlinear_arith);
            }
            row += 1;
        }
        Self { adjacents, counts }
    }

    /// Records a marker placed on cell `idx`: the counter of each of its corner
    /// neighbours goes up by one.
    pub fn commit(&mut self, idx: usize)
        requires
            old(self).sound(),
            idx < old(self).adjacents@.len(),
            forall|t: int|
                0 <= t < old(self).adjacents@[idx as int]@.len() ==> old(self).counts@[(
                #[trigger] old(self).adjacents@[idx as int]@[t]) as int] < usize::MAX,
        ensures
            final(self).adjacents == old(self).adjacents,
            final(self).counts@.len() == old(self).counts@.len(),
            final(self).sound(),
            forall|rows: int, cols: int|
                old(self).covers(rows, cols) ==> #[trigger] final(self).covers(rows, cols),
            forall|i: usize|
                i < old(self).counts@.len() ==> (#[trigger] final(self).counts@[i as int]) == old(
                    self,
                ).counts@[i as int] + (if old(self).adjacents@[idx as int]@.contains(i) {
                    1int
                } else {
                    0int
                }),
    {
        let ghost near = self.adjacents@[idx as int]@;
        let n = self.adjacents[idx].len();
        let mut t: usize = 0;
        while t < n
            invariant
                self.adjacents == old(self).adjacents,
                old(self).sound(),
                self.counts@.len() == old(self).counts@.len(),
                idx < self.adjacents@.len(),
                near == self.adjacents@[idx as int]@,
                n == near.len(),
                t <= n,
                forall|s: int|
                    0 <= s < near.len() ==> old(self).counts@[(#[trigger] near[s]) as int] < usize::MAX,
                forall|i: usize|
                    i < self.counts@.len() ==> (#[trigger] self.counts@[i as int]) == old(
                        self,
                    ).counts@[i as int] + (if near.take(t as int).contains(i) {
                        1int
                    } else {
                        0int
                    }),
            decreases n - t,
        {
            let i = self.adjacents[idx][t];
            proof {
                assert(near[t as int] == i);
                lemma_take_next(near, t as int);
            }
            let raised = self.counts[i] + 1;
            self.counts.set(i, raised);
            proof {
                assert forall|j: usize| j < self.counts@.len() implies (
                #[trigger] self.counts@[j as int]) == old(self).counts@[j as int] + (if near.take(
                    t + 1,
                ).contains(j) {
                    1int
                } else {
                    0int
                }) by {
                    assert(near.take(t + 1).contains(j) <==> (j == near[t as int] || near.take(
                        t as int,
                    ).contains(j)));
                }
            }
            t += 1;
        }
        proof {
            assert(near.take(n as int) =~= near);
        }
    }

    /// Removes the record of a marker on cell `idx`: the counter of each of its
    /// corner neighbours goes down by one.
    pub fn uncommit(&mut self, idx: usize)
        requires
            old(self).sound(),
            idx < old(self).adjacents@.len(),
            forall|t: int|
                0 <= t < old(self).adjacents@[idx as int]@.len() ==> old(self).counts@[(
                #[trigger] old(self).adjacents@[idx as int]@[t]) as int] > 0,
        ensures
            final(self).adjacents == old(self).adjacents,
            final(self).counts@.len() == old(self).counts@.len(),
            final(self).sound(),
            forall|rows: int, cols: int|
                old(self).covers(rows, cols) ==> #[trigger] final(self).covers(rows, cols),
            forall|i: usize|
                i < old(self).counts@.len() ==> (#[trigger] final(self).counts@[i as int]) == old(
                    self,
                ).counts@[i as int] - (if old(self).adjacents@[idx as int]@.contains(i) {
                    1int
                } else {
                    0int
                }),
    {
        let ghost near = self.adjacents@[idx as int]@;
        let n = self.adjacents[idx].len();
        let mut t: usize = 0;
        while t < n
            invariant
                self.adjacents == old(self).adjacents,
                old(self).sound(),
                self.counts@.len() == old(self).counts@.len(),
                idx < self.adjacents@.len(),
                near == self.adjacents@[idx as int]@,
                n == near.len(),
                t <= n,
                forall|s: int|
                    0 <= s < near.len() ==> old(self).counts@[(#[trigger] near[s]) as int] > 0,
                forall|i: usize|
                    i < self.counts@.len() ==> (#[trigger] self.counts@[i as int]) == old(
                        self,
                    ).counts@[i as int] - (if near.take(t as int).contains(i) {
                        1int
                    } else {
                        0int
                    }),
            decreases n - t,
        {
            let i = self.adjacents[idx][t];
            proof {
                assert(near[t as int] == i);
                lemma_take_next(near, t as int);
            }
            let lowered = self.counts[i] - 1;
            self.counts.set(i, lowered);
            proof {
                assert forall|j: usize| j < self.counts@.len() implies (
                #[trigger] self.counts@[j as int]) == old(self).counts@[j as int] - (if near.take(
                    t + 1,
                ).contains(j) {
                    1int
                } else {
                    0int
                }) by {
                    assert(near.take(t + 1).contains(j) <==> (j == near[t as int] || near.take(
                        t as int,
                    ).contains(j)));
                }
            }
            t += 1;
        }
        proof {
            assert(near.take(n as int) =~= near);
        }
    }

}

/// In a list without repeats, the first `t + 1` entries hold what the first `t`
/// hold and the entry at `t`, which is not among those.
proof fn lemma_take_next(list: Seq<usize>, t: int)
    requires
        list.no_duplicates(),
        0 <= t < list.len(),
    ensures
        !list.take(t).contains(list[t]),
        forall|x: usize|
            #![trigger list.take(t + 1).contains(x)]
            list.take(t + 1).contains(x) <==> (x == list[t] || list.take(t).contains(x)),
{
    let before = list.take(t);
    let after = list.take(t + 1);
    if before.contains(list[t]) {
        let s = choose|s: int| 0 <= s < before.len() && before[s] == list[t];
        assert(list[s] == list[t]);
    }
    assert forall|x: usize| #![trigger after.contains(x)] after.contains(x) <==> (x == list[t]
        || before.contains(x)) by {
        if after.contains(x) {
            let s = choose|s: int| 0 <= s < after.len() && after[s] == x;
            if s < t {
                assert(before[s] == x);
            }
        }
        if before.contains(x) {
            let s = choose|s: int| 0 <= s < before.len() && before[s] == x;
            assert(after[s] == x);
        }
        if x == list[t] {
            assert(after[t] == x);
        }
    }
}

} // verus!
