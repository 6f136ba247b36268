use crate::bits::{bit, lemma_bit_zero, lemma_low_mask, lemma_same_bits, lemma_with_bit, low_mask, with_bit};
use vstd::prelude::*;

verus! {

/// Three bit-sets recording which rows, columns and regions hold a marker, and
/// the three full masks that mark a finished board.
pub struct UsedTracker {
    pub rows: u64,
    pub cols: u64,
    pub colors: u64,
    pub required_rows: u64,
    pub required_cols: u64,
    pub required_colors: u64,
}

/// The mask with the lowest `n` bits set.
fn full_mask(n: usize) -> (mask: u64)
    requires
        n <= 64,
    ensures
        mask == low_mask(n as int),
{
    if n >= 64 {
        0xffff_ffff_ffff_ffffu64
    } else if n == 0 {
        0
    } else {
        let one: u64 = 1;
        let top: u64 = one << (n as u64);
        assert(top >= 1) by (bit_vector)
            requires
                top == 1u64 << (n as u64),
                0 < n < 64,
        ;
        top - 1
    }
}

impl UsedTracker {
    /// Row `r` holds a marker.
    pub open spec fn has_row(&self, r: int) -> bool {
        bit(self.rows, r)
    }

    /// Column `c` holds a marker.
    pub open spec fn has_col(&self, c: int) -> bool {
        bit(self.cols, c)
    }

    /// Region `k` holds a marker.
    pub open spec fn has_color(&self, k: int) -> bool {
        bit(self.colors, k)
    }

    /// The tracker belongs to a board of the given sides and region count: its full
    /// masks have those widths, and nothing beyond them is marked.
    pub open spec fn tracks(&self, rows: int, cols: int, colors: int) -> bool {
        &&& 0 <= rows <= 64
        &&& 0 <= cols <= 64
        &&& 0 <= colors <= 64
        &&& self.required_rows == low_mask(rows)
        &&& self.required_cols == low_mask(cols)
        &&& self.required_colors == low_mask(colors)
        &&& forall|r: int| #[trigger] self.has_row(r) ==> r < rows
        &&& forall|c: int| #[trigger] self.has_col(c) ==> c < cols
        &&& forall|k: int| #[trigger] self.has_color(k) ==> k < colors
    }

    /// Each bit-set holds exactly the positions of its full mask.
    pub open spec fn all_required(&self) -> bool {
        &&& forall|r: int| 0 <= r < 64 ==> #[trigger] self.has_row(r) == bit(self.required_rows, r)
        &&& forall|c: int| 0 <= c < 64 ==> #[trigger] self.has_col(c) == bit(self.required_cols, c)
        &&& forall|k: int|
            0 <= k < 64 ==> #[trigger] self.has_color(k) == bit(self.required_colors, k)
    }

    /// A tracker for an empty board of the given sides and region count.
    pub fn new(num_rows: usize, num_cols: usize, num_colors: usize) -> (tracker: Self)
        requires
            num_rows <= 64,
            num_cols <= 64,
            num_colors <= 64,
        ensures
            tracker.tracks(num_rows as int, num_cols as int, num_colors as int),
            forall|i: int|
                !tracker.has_row(i) && !tracker.has_col(i) && !tracker.has_color(i),
    {
        let tracker = Self {
            rows: 0,
            cols: 0,
            colors: 0,
            required_rows: full_mask(num_rows),
            required_cols: full_mask(num_cols),
            required_colors: full_mask(num_colors),
        };
        proof {
            assert forall|i: int|
                !tracker.has_row(i) && !tracker.has_col(i) && !tracker.has_color(i) by {
                lemma_bit_zero(i);
            }
        }
        tracker
    }

    /// Whether the row, the column or the region already holds a marker.
    #[inline(always)]
    pub fn is_used(&self, row: usize, col: usize, color: usize) -> (used: bool)
        requires
            row < 64,
            col < 64,
            color < 64,
        ensures
            used == (self.has_row(row as int) || self.has_col(col as int) || self.has_color(
                color as int,
            )),
    {
        ((self.rows >> (row as u64)) & 1 == 1) || ((self.cols >> (col as u64)) & 1 == 1) || ((
        self.colors >> (color as u64)) & 1 == 1)
    }

    /// Marks (`value` true) or clears (`value` false) the row, the column and the
    /// region in one step.
    #[inline(always)]
    pub fn set(&mut self, row: usize, col: usize, color: usize, value: bool)
        requires
            row < 64,
            col < 64,
            color < 64,
        ensures
            final(self).rows == with_bit(old(self).rows, row as int, value),
            final(self).cols == with_bit(old(self).cols, col as int, value),
            final(self).colors == with_bit(old(self).colors, color as int, value),
            forall|r: int|
                #[trigger] final(self).has_row(r) == (if r == row {
                    value
                } else {
                    old(self).has_row(r)
                }),
            forall|c: int|
                #[trigger] final(self).has_col(c) == (if c == col {
                    value
                } else {
                    old(self).has_col(c)
                }),
            forall|k: int|
                #[trigger] final(self).has_color(k) == (if k == color {
                    value
                } else {
                    old(self).has_color(k)
                }),
            final(self).required_rows == old(self).required_rows,
            final(self).required_cols == old(self).required_cols,
            final(self).required_colors == old(self).required_colors,
            forall|rows: int, cols: int, colors: int|
                old(self).tracks(rows, cols, colors) && row < rows && col < cols && color < colors
                    ==> #[trigger] final(self).tracks(rows, cols, colors),
    {
        let bit: u64 = if value { 1 } else { 0 };
        let one: u64 = 1;
        self.rows = (self.rows & !(one << (row as u64))) | (bit << (row as u64));
        self.cols = (self.cols & !(one << (col as u64))) | (bit << (col as u64));
        self.colors = (self.colors & !(one << (color as u64))) | (bit << (color as u64));
        proof {
            assert forall|r: int|
                #[trigger] self.has_row(r) == (if r == row {
                    value
                } else {
                    old(self).has_row(r)
                }) by {
                lemma_with_bit(old(self).rows, row as int, value, r);
            }
            assert forall|c: int|
                #[trigger] self.has_col(c) == (if c == col {
                    value
                } else {
                    old(self).has_col(c)
                }) by {
                lemma_with_bit(old(self).cols, col as int, value, c);
            }
            assert forall|k: int|
                #[trigger] self.has_color(k) == (if k == color {
                    value
                } else {
                    old(self).has_color(k)
                }) by {
                lemma_with_bit(old(self).colors, color as int, value, k);
            }
        }
    }

    /// Whether every required row, column and region holds a marker.
    #[inline(always)]
    pub fn is_solved(&self) -> (solved: bool)
        ensures
            solved == self.all_required(),
    {
        let solved = (self.rows == self.required_rows) && (self.cols == self.required_cols) && (
        self.colors == self.required_colors);
        proof {
            if self.all_required() {
                assert forall|j: int| 0 <= j < 64 implies bit(self.rows, j) == bit(
                    self.required_rows,
                    j,
                ) by {
                    assert(self.has_row(j) == bit(self.required_rows, j));
                }
                assert forall|j: int| 0 <= j < 64 implies bit(self.cols, j) == bit(
                    self.required_cols,
                    j,
                ) by {
                    assert(self.has_col(j) == bit(self.required_cols, j));
                }
                assert forall|j: int| 0 <= j < 64 implies bit(self.colors, j) == bit(
                    self.required_colors,
                    j,
                ) by {
                    assert(self.has_color(j) == bit(self.required_colors, j));
                }
                lemma_same_bits(self.rows, self.required_rows);
                lemma_same_bits(self.cols, self.required_cols);
                lemma_same_bits(self.colors, self.required_colors);
            }
        }
        solved
    }

    /// On a tracker of a board, the finished state is the one where every row,
    /// column and region of the board holds a marker.
    pub proof fn lemma_all_required(&self, rows: int, cols: int, colors: int)
        requires
            self.tracks(rows, cols, colors),
        ensures
            self.all_required() <==> {
                &&& forall|r: int| 0 <= r < rows ==> #[trigger] self.has_row(r)
                &&& forall|c: int| 0 <= c < cols ==> #[trigger] self.has_col(c)
                &&& forall|k: int| 0 <= k < colors ==> #[trigger] self.has_color(k)
            },
    {
        assert forall|i: int| 0 <= i < 64 implies bit(self.required_rows, i) == (i < rows) by {
            lemma_low_mask(rows, i);
        }
        assert forall|i: int| 0 <= i < 64 implies bit(self.required_cols, i) == (i < cols) by {
            lemma_low_mask(cols, i);
        }
        assert forall|i: int| 0 <= i < 64 implies bit(self.required_colors, i) == (i < colors) by {
            lemma_low_mask(colors, i);
        }
    }
}

} // verus!
