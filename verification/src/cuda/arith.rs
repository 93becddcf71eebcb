//! Integer helpers shared by launch geometry and layout code.

use vstd::prelude::*;

verus! {

/// Smallest `q` with `q * d >= n`.
pub open spec fn ceil_div(n: int, d: int) -> int {
    (n + d - 1) / d
}

/// Rounded-up quotient of two unsigned integers.
pub fn div_ceil(n: usize, d: usize) -> (q: usize)
    requires
        d > 0,
    ensures
        q == ceil_div(n as int, d as int),
{
    let q: usize = n / d;
    let r: usize = n % d;
    proof {
        vstd::arithmetic::div_mod::lemma_fundamental_div_mod(n as int, d as int);
        if r == 0 {
            vstd::arithmetic::div_mod::lemma_fundamental_div_mod_converse(
                n + d - 1,
                d as int,
                q as int,
                d - 1,
            );
        } else {
            vstd::arithmetic::mul::lemma_mul_is_distributive_add(d as int, q as int, 1);
            vstd::arithmetic::div_mod::lemma_fundamental_div_mod_converse(
                n + d - 1,
                d as int,
                q as int + 1,
                r - 1,
            );
        }
        assert(q < usize::MAX || r == 0) by {
            if q == usize::MAX {
                assert(d * q >= q) by (nonlinear_arith)
                    requires
                        d >= 1,
                        q >= 0,
                ;
            }
        }
    }
    if r == 0 {
        q
    } else {
        q + 1
    }
}

/// What a rounded-up quotient means: it covers `n`, and one less does not.
pub proof fn lemma_ceil_div(n: int, d: int)
    requires
        n >= 0,
        d > 0,
    ensures
        ceil_div(n, d) >= 0,
        ceil_div(n, d) * d >= n,
        n > 0 ==> ceil_div(n, d) > 0 && (ceil_div(n, d) - 1) * d < n,
        ceil_div(n, d) <= n,
{
    let q = ceil_div(n, d);
    vstd::arithmetic::div_mod::lemma_fundamental_div_mod(n + d - 1, d);
    let r = (n + d - 1) % d;
    assert(q * d == n + d - 1 - r) by (nonlinear_arith)
        requires
            n + d - 1 == d * q + r,
    ;
    assert((q - 1) * d == q * d - d) by (nonlinear_arith);
    assert(q >= 0) by (nonlinear_arith)
        requires
            q * d >= 0,
            d > 0,
    ;
    if n > 0 {
        assert(q > 0) by (nonlinear_arith)
            requires
                q * d > 0,
                d > 0,
        ;
        assert(q - 1 < n) by (nonlinear_arith)
            requires
                (q - 1) * d < n,
                d >= 1,
                q >= 1,
        ;
    } else {
        assert(q == 0) by (nonlinear_arith)
            requires
                q * d < d,
                d > 0,
                q >= 0,
        ;
    }
}

/// Splitting a row-major position gives back its row and column.
pub proof fn lemma_row_col(row: int, col: int, cols: int)
    requires
        0 <= col < cols,
    ensures
        (row * cols + col) / cols == row,
        (row * cols + col) % cols == col,
{
    assert(row * cols + col == cols * row + col) by (nonlinear_arith);
    vstd::arithmetic::div_mod::lemma_fundamental_div_mod_converse(row * cols + col, cols, row, col);
}

/// The row and column of a position inside `rows * cols` are in range and
/// lead back to the position.
pub proof fn lemma_position(i: int, rows: int, cols: int)
    requires
        0 <= i < rows * cols,
        cols > 0,
    ensures
        0 <= i / cols < rows,
        0 <= i % cols < cols,
        (i / cols) * cols + i % cols == i,
{
    vstd::arithmetic::div_mod::lemma_fundamental_div_mod(i, cols);
    let q = i / cols;
    let r = i % cols;
    assert(q * cols + r == i) by (nonlinear_arith)
        requires
            i == cols * q + r,
    ;
    assert(q < rows) by (nonlinear_arith)
        requires
            q * cols + r < rows * cols,
            r >= 0,
            cols > 0,
    ;
    assert(q >= 0) by (nonlinear_arith)
        requires
            q * cols + r >= 0,
            r < cols,
            cols > 0,
    ;
}

/// A row-major position built from a row and a column in range is in range.
pub proof fn lemma_position_in_range(row: int, col: int, rows: int, cols: int)
    requires
        0 <= row < rows,
        0 <= col < cols,
    ensures
        0 <= row * cols,
        row * cols + cols <= rows * cols,
        0 <= row * cols + col < rows * cols,
{
    assert(row * cols + cols <= rows * cols) by (nonlinear_arith)
        requires
            row + 1 <= rows,
            cols >= 0,
    ;
    assert(0 <= row * cols) by (nonlinear_arith)
        requires
            row >= 0,
            cols >= 0,
    ;
}

/// Products of bounded factors are bounded.
pub proof fn lemma_mul_le(a: int, b: int, x: int, y: int)
    requires
        0 <= a <= x,
        0 <= b <= y,
    ensures
        0 <= a * b <= x * y,
{
    assert(0 <= a * b <= x * y) by (nonlinear_arith)
        requires
            0 <= a <= x,
            0 <= b <= y,
    ;
}

} // verus!
