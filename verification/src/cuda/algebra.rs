//! Symbolic element values and the row-major array operations on them.

use vstd::prelude::*;

use super::ops::{BinaryFn, InitFn, MapFn, RowFn};
use super::scalar::F32;

verus! {

/// The value of one device element, as the expression that computed it.
pub enum Term {
    /// Memory that was allocated and not written.
    Undefined,
    Literal(F32),
    Init(InitFn, int),
    Apply(MapFn, Box<Term>),
    Zip(BinaryFn, Box<Term>, Box<Term>),
    /// What a block of threads makes of the mapped items with a binary function, a literal
    /// and shares of equal size: every thread folds its share from the literal on, and where
    /// there are no more items it takes the literal; the block folds these values as a tree.
    Reduce(MapFn, BinaryFn, F32, Seq<Term>),
    /// The same over the pairs of two sequences.
    ZipReduce(BinaryFn, BinaryFn, F32, Seq<Term>, Seq<Term>),
    /// The inner product of two sequences on the tensor units.
    Dot(Seq<Term>, Seq<Term>),
    /// Element of the row that a row function yields at a position.
    Row(RowFn, int, Seq<Term>, int),
    /// Element of a row function's input gradient.
    RowGradient(RowFn, Seq<Term>, Seq<Term>, int),
    /// One if both sequences agree, zero otherwise.
    Same(Seq<Term>, Seq<Term>),
}

pub open spec fn undefined(len: nat) -> Seq<Term> {
    Seq::new(len, |i: int| Term::Undefined)
}

pub open spec fn literals(values: Seq<F32>) -> Seq<Term> {
    Seq::new(values.len(), |i: int| Term::Literal(values[i]))
}

pub open spec fn zeros(len: nat) -> Seq<Term> {
    Seq::new(len, |i: int| Term::Literal(F32 { bits: 0 }))
}

pub open spec fn initial(f: InitFn, len: nat) -> Seq<Term> {
    Seq::new(len, |i: int| Term::Init(f, i))
}

/// Element-wise application.
pub open spec fn apply(f: MapFn, a: Seq<Term>) -> Seq<Term> {
    Seq::new(a.len(), |i: int| Term::Apply(f, Box::new(a[i])))
}

/// Element-wise combination.
pub open spec fn zip(f: BinaryFn, a: Seq<Term>, b: Seq<Term>) -> Seq<Term> {
    Seq::new(a.len(), |i: int| Term::Zip(f, Box::new(a[i]), Box::new(b[i])))
}

/// Combines every row of a row-major matrix with one row vector.
pub open spec fn zip_by_rows(f: BinaryFn, a: Seq<Term>, row: Seq<Term>, cols: nat) -> Seq<Term> {
    Seq::new(a.len(), |i: int| Term::Zip(f, Box::new(a[i]), Box::new(row[i % (cols as int)])))
}

/// A row of a row-major matrix.
pub open spec fn row_of(a: Seq<Term>, cols: nat, row: int) -> Seq<Term> {
    Seq::new(cols, |k: int| a[row * cols + k])
}

/// A column of a row-major matrix.
pub open spec fn column_of(a: Seq<Term>, rows: nat, cols: nat, col: int) -> Seq<Term> {
    Seq::new(rows, |k: int| a[k * cols + col])
}

/// The row-major product of a `rows x inner` and an `inner x cols` matrix.
pub open spec fn product(a: Seq<Term>, b: Seq<Term>, rows: nat, inner: nat, cols: nat) -> Seq<Term> {
    Seq::new(
        rows * cols,
        |i: int|
            Term::Dot(row_of(a, inner, i / (cols as int)), column_of(b, inner, cols, i % (cols as int))),
    )
}

/// The row-major transpose of a `rows x cols` matrix.
pub open spec fn transpose(a: Seq<Term>, rows: nat, cols: nat) -> Seq<Term> {
    Seq::new(cols * rows, |i: int| a[(i % (rows as int)) * cols + i / (rows as int)])
}

/// Transposes `batches` consecutive `rows x cols` matrices, each on its own.
pub open spec fn transpose_batches(a: Seq<Term>, batches: nat, rows: nat, cols: nat) -> Seq<Term> {
    Seq::new(
        batches * cols * rows,
        |i: int|
            {
                let size = (rows * cols) as int;
                let inner = i % size;
                a[(i / size) * size + (inner % (rows as int)) * cols + inner / (rows as int)]
            },
    )
}

/// The sum of a sequence.
pub open spec fn total(a: Seq<Term>) -> Term {
    Term::Reduce(MapFn::Identity, BinaryFn::Add, F32 { bits: 0 }, a)
}

/// The sum of every row.
pub open spec fn row_totals(a: Seq<Term>, rows: nat, cols: nat) -> Seq<Term> {
    Seq::new(rows, |r: int| total(row_of(a, cols, r)))
}

/// A row function applied to every row.
pub open spec fn row_apply(f: RowFn, a: Seq<Term>, cols: nat) -> Seq<Term> {
    Seq::new(
        a.len(),
        |i: int|
            Term::Row(
                f,
                f.position(i / (cols as int)),
                row_of(a, cols, i / (cols as int)),
                i % (cols as int),
            ),
    )
}

/// The input gradient of a row function for every row.
pub open spec fn row_gradient(f: RowFn, input: Seq<Term>, gradient: Seq<Term>, cols: nat) -> Seq<Term> {
    Seq::new(
        input.len(),
        |i: int|
            Term::RowGradient(
                f,
                row_of(input, cols, i / (cols as int)),
                row_of(gradient, cols, i / (cols as int)),
                i % (cols as int),
            ),
    )
}

/// All parts, one after the other.
pub open spec fn joined(parts: Seq<Seq<Term>>) -> Seq<Term>
    decreases parts.len(),
{
    if parts.len() == 0 {
        Seq::empty()
    } else {
        joined(parts.drop_last()) + parts.last()
    }
}

/// Joining one part more appends it.
pub proof fn lemma_joined_take(parts: Seq<Seq<Term>>, i: int)
    requires
        0 <= i < parts.len(),
    ensures
        joined(parts.take(i + 1)) == joined(parts.take(i)) + parts[i],
{
    assert(parts.take(i + 1).drop_last() =~= parts.take(i));
    assert(parts.take(i + 1).last() == parts[i]);
}

/// A part of a join is no longer than the join.
pub proof fn lemma_joined_len(parts: Seq<Seq<Term>>, i: int)
    requires
        0 <= i <= parts.len(),
    ensures
        joined(parts.take(i)).len() <= joined(parts).len(),
    decreases parts.len() - i,
{
    if i == parts.len() {
        assert(parts.take(i) =~= parts);
    } else {
        lemma_joined_take(parts, i);
        lemma_joined_len(parts, i + 1);
    }
}

/// Where a part of a join is found.
pub proof fn lemma_joined_part(parts: Seq<Seq<Term>>, i: int)
    requires
        0 <= i < parts.len(),
    ensures
        joined(parts.take(i)).len() + parts[i].len() <= joined(parts).len(),
        joined(parts).subrange(
            joined(parts.take(i)).len() as int,
            (joined(parts.take(i)).len() + parts[i].len()) as int,
        ) == parts[i],
    decreases parts.len(),
{
    let before = joined(parts.take(i));
    if i == parts.len() - 1 {
        assert(parts.take(i) =~= parts.drop_last());
        assert(joined(parts) =~= before + parts[i]);
        assert((before + parts[i]).subrange(before.len() as int, (before.len() + parts[i].len()) as int)
            =~= parts[i]);
    } else {
        let rest = parts.drop_last();
        lemma_joined_part(rest, i);
        assert(rest.take(i) =~= parts.take(i));
        assert(joined(parts) =~= joined(rest) + parts.last());
        assert(joined(parts).subrange(
            before.len() as int,
            (before.len() + parts[i].len()) as int,
        ) =~= joined(rest).subrange(before.len() as int, (before.len() + parts[i].len()) as int));
    }
}

/// Equally long parts make a join of the product length, in which part `i`
/// starts at `i` times that length.
pub proof fn lemma_joined_even(parts: Seq<Seq<Term>>, len: nat)
    requires
        forall|i: int| 0 <= i < parts.len() ==> #[trigger] parts[i].len() == len,
    ensures
        joined(parts).len() == parts.len() * len,
        forall|i: int, k: int|
            0 <= i < parts.len() && 0 <= k < len ==> joined(parts)[i * len + k]
                == #[trigger] parts[i][k],
    decreases parts.len(),
{
    if parts.len() > 0 {
        let n = (parts.len() - 1) as nat;
        let rest = parts.drop_last();
        lemma_joined_even(rest, len);
        assert(parts.len() * len == n * len + len) by (nonlinear_arith)
            requires
                parts.len() == n + 1,
        ;
        assert forall|i: int, k: int|
            0 <= i < parts.len() && 0 <= k < len implies joined(parts)[i * len + k]
            == #[trigger] parts[i][k] by {
            if i < n {
                assert(rest[i][k] == parts[i][k]);
                assert(i * len + k < n * len) by (nonlinear_arith)
                    requires
                        i + 1 <= n,
                        k < len,
                ;
                assert(i * len >= 0) by (nonlinear_arith)
                    requires
                        i >= 0,
                        len >= 0,
                ;
            }
        }
    }
}

/// Joining two lists of parts.
pub proof fn lemma_joined_append(a: Seq<Seq<Term>>, b: Seq<Seq<Term>>)
    ensures
        joined(a + b) == joined(a) + joined(b),
    decreases b.len(),
{
    if b.len() == 0 {
        assert(a + b =~= a);
        assert(joined(a) + joined(b) =~= joined(a));
    } else {
        lemma_joined_append(a, b.drop_last());
        assert((a + b).drop_last() =~= a + b.drop_last());
        assert(joined(a + b) =~= joined(a) + joined(b));
    }
}

/// The sum of sizes.
pub open spec fn sum_of(sizes: Seq<usize>) -> nat
    decreases sizes.len(),
{
    if sizes.len() == 0 {
        0
    } else {
        sum_of(sizes.drop_last()) + sizes.last() as nat
    }
}

/// One size more.
pub proof fn lemma_sum_of_take(sizes: Seq<usize>, i: int)
    requires
        0 <= i < sizes.len(),
    ensures
        sum_of(sizes.take(i + 1)) == sum_of(sizes.take(i)) + sizes[i],
{
    assert(sizes.take(i + 1).drop_last() =~= sizes.take(i));
}

/// A sum of some sizes is at most the sum of all.
pub proof fn lemma_sum_of_le(sizes: Seq<usize>, i: int)
    requires
        0 <= i <= sizes.len(),
    ensures
        sum_of(sizes.take(i)) <= sum_of(sizes),
    decreases sizes.len() - i,
{
    if i == sizes.len() {
        assert(sizes.take(i) =~= sizes);
    } else {
        lemma_sum_of_take(sizes, i);
        lemma_sum_of_le(sizes, i + 1);
    }
}

/// Parts whose lengths are the sizes, each times `width`, join to the sum of
/// the sizes times `width`.
pub proof fn lemma_joined_sum(parts: Seq<Seq<Term>>, sizes: Seq<usize>, width: nat)
    requires
        parts.len() == sizes.len(),
        forall|k: int| 0 <= k < parts.len() ==> (#[trigger] parts[k]).len() == sizes[k] * width,
    ensures
        joined(parts).len() == sum_of(sizes) * width,
    decreases parts.len(),
{
    if parts.len() == 0 {
        assert(0 * width == 0) by (nonlinear_arith);
    } else {
        let rest = parts.drop_last();
        let n = parts.len() - 1;
        assert forall|k: int| 0 <= k < rest.len() implies (#[trigger] rest[k]).len()
            == sizes.drop_last()[k] * width by {
            assert(parts[k].len() == sizes[k] * width);
        }
        lemma_joined_sum(rest, sizes.drop_last(), width);
        assert(parts[n].len() == sizes[n] * width);
        let a = sum_of(sizes.drop_last());
        let b = sizes.last() as nat;
        assert((a + b) * width == a * width + b * width) by (nonlinear_arith);
    }
}

/// A `rows x cols` block of a row-major array of rows of length `stride`.
pub open spec fn tile(a: Seq<Term>, stride: nat, row: int, col: int, rows: nat, cols: nat) -> Seq<Term> {
    Seq::new(
        rows * cols,
        |i: int| a[(row + i / (cols as int)) * stride + col + i % (cols as int)],
    )
}

/// A row repeated.
pub open spec fn repeated(a: Seq<Term>, copies: nat) -> Seq<Term> {
    Seq::new(copies * a.len(), |i: int| a[i % (a.len() as int)])
}

/// The segments of one row of matrices that stand side by side.
pub open spec fn row_segments(parts: Seq<Seq<Term>>, widths: Seq<usize>, row: int) -> Seq<Seq<Term>> {
    Seq::new(parts.len(), |k: int| row_of(parts[k], widths[k] as nat, row))
}

/// Rows of matrices that stand side by side.
pub open spec fn joined_rows(parts: Seq<Seq<Term>>, widths: Seq<usize>, rows: nat) -> Seq<Seq<Term>> {
    Seq::new(rows, |r: int| joined(row_segments(parts, widths, r)))
}

/// Matrices side by side, row-major.
pub open spec fn side_by_side(parts: Seq<Seq<Term>>, widths: Seq<usize>, rows: nat) -> Seq<Term> {
    joined(joined_rows(parts, widths, rows))
}

/// The length of matrices side by side.
pub proof fn lemma_side_by_side_len(parts: Seq<Seq<Term>>, widths: Seq<usize>, rows: nat)
    requires
        parts.len() == widths.len(),
    ensures
        side_by_side(parts, widths, rows).len() == rows * sum_of(widths),
        forall|r: int|
            0 <= r < rows ==> (#[trigger] joined_rows(parts, widths, rows)[r]).len() == sum_of(
                widths,
            ),
{
    assert forall|r: int| 0 <= r < rows implies (#[trigger] joined_rows(
        parts,
        widths,
        rows,
    )[r]).len() == sum_of(widths) by {
        let segments = row_segments(parts, widths, r);
        assert forall|k: int| 0 <= k < segments.len() implies (#[trigger] segments[k]).len()
            == widths[k] * 1 by {}
        lemma_joined_sum(segments, widths, 1);
    }
    lemma_joined_even(joined_rows(parts, widths, rows), sum_of(widths));
}

/// Where an element of one of several matrices side by side is found.
pub proof fn lemma_side_by_side_element(
    parts: Seq<Seq<Term>>,
    widths: Seq<usize>,
    rows: nat,
    k: int,
    row: int,
    col: int,
)
    requires
        parts.len() == widths.len(),
        0 <= k < parts.len(),
        0 <= row < rows,
        0 <= col < widths[k],
    ensures
        sum_of(widths.take(k)) + col < sum_of(widths),
        side_by_side(parts, widths, rows)[row * sum_of(widths) + sum_of(widths.take(k)) + col]
            == parts[k][row * widths[k] + col],
{
    lemma_side_by_side_len(parts, widths, rows);
    let all = joined_rows(parts, widths, rows);
    lemma_joined_even(all, sum_of(widths));
    let segments = row_segments(parts, widths, row);
    let before = segments.take(k);
    assert forall|j: int| 0 <= j < before.len() implies (#[trigger] before[j]).len() == widths.take(
        k,
    )[j] * 1 by {}
    lemma_joined_sum(before, widths.take(k), 1);
    lemma_joined_part(segments, k);
    lemma_sum_of_take(widths, k);
    lemma_sum_of_le(widths, k + 1);
    let at = sum_of(widths.take(k)) + col;
    assert(all[row][at as int] == joined(segments)[at as int]);
    assert(joined(segments)[at as int] == joined(segments).subrange(
        joined(before).len() as int,
        (joined(before).len() + segments[k].len()) as int,
    )[col]);
    assert(segments[k][col] == parts[k][row * widths[k] + col]);
}

/// Transposing twice gives the matrix back.
pub proof fn law_transposing_twice_gives_the_matrix_back(a: Seq<Term>, rows: nat, cols: nat)
    requires
        a.len() == rows * cols,
    ensures
        transpose(transpose(a, rows, cols), cols, rows) == a,
{
    let t = transpose(a, rows, cols);
    let back = transpose(t, cols, rows);
    assert forall|i: int| 0 <= i < a.len() implies #[trigger] back[i] == a[i] by {
        assert(cols > 0) by (nonlinear_arith)
            requires
                0 <= i < rows * cols,
        ;
        super::arith::lemma_position(i, rows as int, cols as int);
        let r = i / (cols as int);
        let c = i % (cols as int);
        assert(back[i] == t[c * rows + r]);
        super::arith::lemma_position_in_range(c, r, cols as int, rows as int);
        super::arith::lemma_row_col(c, r, rows as int);
        assert(t[c * rows + r] == a[r * cols + c]);
    }
    assert(rows * cols == cols * rows) by (nonlinear_arith);
    assert(back =~= a);
}

} // verus!
