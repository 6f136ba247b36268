use vstd::arithmetic::div_mod::{lemma_fundamental_div_mod, lemma_fundamental_div_mod_converse, lemma_mod_bound};
use vstd::prelude::*;

verus! {

/// The cell in row `r` and column `c` has index `r * cols + c`, and the index
/// gives both back.
pub proof fn lemma_cell_index(cols: int, r: int, c: int)
    requires
        0 <= c < cols,
    ensures
        (r * cols + c) / cols == r,
        (r * cols + c) % cols == c,
{
    lemma_fundamental_div_mod_converse(r * cols + c, cols, r, c);
}

/// A cell inside the grid has an index below the number of cells.
pub proof fn lemma_cell_bound(rows: int, cols: int, r: int, c: int)
    requires
        0 <= r < rows,
        0 <= c < cols,
    ensures
        0 <= r * cols + c < rows * cols,
{
    assert(r * cols + c < rows * cols) by (nonlinear_arith)
        requires
            0 <= r < rows,
            0 <= c < cols,
    ;
    assert(0 <= r * cols) by (nonlinear_arith)
        requires
            0 <= r,
            0 <= cols,
    ;
}

/// An index below the number of cells names a row and a column inside the grid.
pub proof fn lemma_cell_split(rows: int, cols: int, idx: int)
    requires
        0 < cols,
        0 <= idx < rows * cols,
    ensures
        0 <= idx / cols < rows,
        0 <= idx % cols < cols,
        idx == (idx / cols) * cols + idx % cols,
{
    lemma_fundamental_div_mod(idx, cols);
    lemma_mod_bound(idx, cols);
    let q = idx / cols;
    assert(q * cols == cols * q) by (nonlinear_arith);
    assert(0 <= q < rows) by (nonlinear_arith)
        requires
            0 < cols,
            0 <= idx < rows * cols,
            idx == q * cols + idx % cols,
            0 <= idx % cols < cols,
    ;
}

} // verus!
