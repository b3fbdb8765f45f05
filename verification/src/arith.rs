//! Arithmetic facts about row-major index grids, shared by the filters and the frame code.
use vstd::prelude::*;
use vstd::arithmetic::div_mod::lemma_fundamental_div_mod_converse;

verus! {

/// A cell `(row, col)` of a `rows x cols` grid laid out row by row sits at `row * cols + col`,
/// inside the grid, and division by `cols` gives its coordinates back.
pub proof fn lemma_grid_cell(row: int, col: int, rows: int, cols: int)
    requires
        0 <= row < rows,
        0 <= col < cols,
    ensures
        0 <= row * cols,
        row * cols + col < rows * cols,
        (row * cols + col) / cols == row,
        (row * cols + col) % cols == col,
        row * cols + cols <= rows * cols,
{
    assert(0 <= row * cols) by (nonlinear_arith)
        requires 0 <= row, 0 <= col < cols;
    assert(row * cols + cols <= rows * cols) by (nonlinear_arith)
        requires 0 <= row < rows, 0 < cols;
    lemma_fundamental_div_mod_converse(row * cols + col, cols, row, col);
}

/// Splits an index below `rows * cols` into its row and column.
pub proof fn lemma_grid_split(k: int, rows: int, cols: int)
    requires
        0 <= k < rows * cols,
        0 < cols,
    ensures
        0 <= k / cols < rows,
        0 <= k % cols < cols,
        k == (k / cols) * cols + k % cols,
{
    vstd::arithmetic::div_mod::lemma_fundamental_div_mod(k, cols);
    assert(k == cols * (k / cols) + k % cols);
    assert((k / cols) * cols == cols * (k / cols)) by (nonlinear_arith);
    assert(0 <= k / cols) by (nonlinear_arith)
        requires 0 <= k, 0 < cols;
    if k / cols >= rows {
        assert((k / cols) * cols >= rows * cols) by (nonlinear_arith)
            requires k / cols >= rows, 0 < cols;
        assert(false);
    }
}

/// The source index of a transposed cell: for `k` below `rows * cols`,
/// `(k % rows) * cols + k / rows` lies in the grid too.
pub proof fn lemma_transpose_index(k: int, rows: int, cols: int)
    requires
        0 <= k < rows * cols,
        0 < rows,
    ensures
        0 <= (k % rows) * cols + k / rows < rows * cols,
{
    assert(rows * cols == cols * rows) by (nonlinear_arith);
    lemma_grid_split(k, cols, rows);
    lemma_grid_cell(k % rows, k / rows, rows, cols);
}

/// `(n / d) * d` never exceeds `n`, and the remainder fills the gap.
pub proof fn lemma_div_mul_le(n: int, d: int)
    requires
        0 <= n,
        0 < d,
    ensures
        0 <= (n / d) * d <= n,
        (n / d) * d + n % d == n,
        0 <= n / d,
{
    vstd::arithmetic::div_mod::lemma_fundamental_div_mod(n, d);
    assert((n / d) * d == d * (n / d)) by (nonlinear_arith);
    assert(0 <= n / d) by (nonlinear_arith)
        requires 0 <= n, 0 < d;
    assert(0 <= (n / d) * d) by (nonlinear_arith)
        requires 0 <= n / d, 0 < d;
}

} // verus!
