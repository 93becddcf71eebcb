//! What reductions, softmax and rearranged elements are, in exact arithmetic.

use vstd::prelude::*;

use super::{
    law_mapped_totals_are_sums, law_paired_totals_are_sums, law_totals_are_sums, lemma_row_apply,
    lemma_sum_equal, lemma_sum_scale, numbers, sum, Exact,
};
use crate::cuda::algebra::{repeated, row_apply, tile, Term};
use crate::cuda::arith::{lemma_position_in_range, lemma_row_col};
use crate::cuda::command::Stream;
use crate::cuda::container::vector::{softmax_downloads, softmax_exponentials, softmax_steps};
use crate::cuda::device::launches::law_reductions_fold_their_items;
use crate::cuda::device::reduction::{fold, monoid};
use crate::cuda::meaning::{lemma_numbers, Reading};
use crate::cuda::ops::{BinaryFn, MapFn, RowFn};
use crate::cuda::runtime::CudaRuntime;
use crate::cuda::scalar::{Scalar, F32, NEGATIVE_INFINITY_BITS};

verus! {

/// The numbers that the host has are those that were brought to it.
pub open spec fn brought(c: Exact, downloads: Seq<Seq<Term>>) -> bool {
    forall|n: usize|
        n < downloads.len() && downloads[n as int].len() == 1 ==> #[trigger] (c.downloaded)(n)
            == c.value(downloads[n as int][0])
}

/// A sum of mapped elements that was brought to the host is that sum.
pub proof fn law_reduced_sums_are_sums(
    c: Exact,
    before: CudaRuntime,
    after: CudaRuntime,
    r: Scalar,
    map: MapFn,
    items: Seq<Term>,
    stream: Option<Stream>,
)
    requires
        after.reduced(before, r, F32 { bits: 0 }, map, BinaryFn::Add, items, stream),
        brought(c, after.device@.downloads),
    ensures
        c.scalar(r) == sum(items.len(), |i: int| c.applied(map, c.value(items[i]))),
{
    law_mapped_totals_are_sums(c, map, items);
    lemma_numbers();
    if items.len() > 0 {
        let n: usize = before.device@.downloads.len() as usize;
        assert(after.device@.downloads[n as int].len() == 1);
    }
}

/// An inner product that was brought to the host is the sum of the products.
pub proof fn law_reduced_products_are_sums(
    c: Exact,
    before: CudaRuntime,
    after: CudaRuntime,
    r: Scalar,
    a: Seq<Term>,
    b: Seq<Term>,
    stream: Option<Stream>,
)
    requires
        a.len() == b.len(),
        after.zip_reduced(
            before,
            r,
            F32 { bits: 0 },
            BinaryFn::Mul,
            BinaryFn::Add,
            a,
            b,
            stream,
        ),
        brought(c, after.device@.downloads),
    ensures
        c.scalar(r) == sum(a.len(), |i: int| c.value(a[i]) * c.value(b[i])),
{
    law_paired_totals_are_sums(c, a, b);
    lemma_numbers();
    if a.len() > 0 {
        let n: usize = before.device@.downloads.len() as usize;
        assert(after.device@.downloads[n as int].len() == 1);
    }
}

/// The greater of two numbers; nothing is below all numbers.
pub open spec fn greater(a: Option<real>, b: Option<real>) -> Option<real> {
    match (a, b) {
        (None, _) => b,
        (_, None) => a,
        (Some(x), Some(y)) => if x >= y {
            a
        } else {
            b
        },
    }
}

/// Whether expressions are read as numbers, with negative infinity as nothing and the maximum
/// of two as the greater of both.
pub open spec fn takes_maxima(reading: Reading<Option<real>>) -> bool {
    &&& (reading.literal)(F32 { bits: NEGATIVE_INFINITY_BITS }) is None
    &&& forall|a: Option<real>| #[trigger] (reading.map)(MapFn::Identity, a) == a
    &&& forall|a: Option<real>, b: Option<real>| #[trigger]
        (reading.combine)(BinaryFn::Max, a, b) == greater(a, b)
}

/// Whether an expression is as great as any of several, and one of them.
pub open spec fn greatest(reading: Reading<Option<real>>, term: Term, items: Seq<Term>) -> bool {
    let top = reading.read(term);
    &&& forall|i: int| 0 <= i < items.len() ==> greater(top, #[trigger] reading.read(items[i])) == top
    &&& exists|i: int| 0 <= i < items.len() && #[trigger] reading.read(items[i]) == top
}

/// A fold of maxima is the greatest value.
proof fn lemma_fold_is_greatest(reading: Reading<Option<real>>, values: Seq<Option<real>>)
    requires
        takes_maxima(reading),
        values.len() > 0,
    ensures
        ({
            let top = fold(reading.combiner(BinaryFn::Max), None, values);
            &&& forall|i: int| 0 <= i < values.len() ==> greater(top, #[trigger] values[i]) == top
            &&& exists|i: int| 0 <= i < values.len() && #[trigger] values[i] == top
        }),
    decreases values.len(),
{
    let g = reading.combiner(BinaryFn::Max);
    let fewer = values.drop_last();
    let last = values.last();
    let top = fold(g, None, values);
    let before = fold(g, None, fewer);
    assert(top == greater(before, last));
    assert(values[values.len() - 1] == last);
    if fewer.len() > 0 {
        lemma_fold_is_greatest(reading, fewer);
        let i = choose|i: int| 0 <= i < fewer.len() && #[trigger] fewer[i] == before;
        assert(values[i] == before);
        assert forall|i: int| 0 <= i < values.len() implies greater(top, #[trigger] values[i])
            == top by {
            if i < fewer.len() {
                assert(values[i] == fewer[i]);
                assert(greater(before, fewer[i]) == before);
            }
        }
    } else {
        assert(before is None);
    }
}

/// A maximum on the device is the greatest element.
pub proof fn law_maxima_are_greatest(reading: Reading<Option<real>>, items: Seq<Term>)
    requires
        takes_maxima(reading),
        items.len() > 0,
    ensures
        greatest(
            reading,
            Term::Reduce(
                MapFn::Identity,
                BinaryFn::Max,
                F32 { bits: NEGATIVE_INFINITY_BITS },
                items,
            ),
            items,
        ),
{
    let g = reading.combiner(BinaryFn::Max);
    let none: Option<real> = None;
    assert(monoid(g, none)) by {
        assert forall|a: Option<real>, b: Option<real>, d: Option<real>| #[trigger]
            g(g(a, b), d) == g(a, g(b, d)) by {
            assert(g(a, b) == greater(a, b));
            assert(g(b, d) == greater(b, d));
        }
        assert forall|a: Option<real>| #[trigger] g(none, a) == a by {}
        assert forall|a: Option<real>| #[trigger] g(a, none) == a by {}
    }
    law_reductions_fold_their_items(
        reading,
        MapFn::Identity,
        BinaryFn::Max,
        F32 { bits: NEGATIVE_INFINITY_BITS },
        items,
    );
    let values = Seq::new(
        items.len(),
        |i: int| (reading.map)(MapFn::Identity, reading.read(items[i])),
    );
    lemma_fold_is_greatest(reading, values);
    let top = fold(g, none, values);
    assert forall|i: int| 0 <= i < items.len() implies greater(
        top,
        #[trigger] reading.read(items[i]),
    ) == top by {
        assert(values[i] == reading.read(items[i]));
    }
    let i = choose|i: int| 0 <= i < values.len() && #[trigger] values[i] == top;
    assert(reading.read(items[i]) == top);
}

/// An exponential turns differences into quotients and is positive.
pub open spec fn exponential(c: Exact) -> bool {
    &&& forall|x: real| #[trigger] (c.exp)(x) > 0int as real
    &&& forall|x: real, y: real| #[trigger]
        (c.exp)(x - y) == (c.exp)(x) * (c.exp)((0int as real) - y)
}

/// Positive numbers have a positive sum.
proof fn lemma_positive_sum(n: nat, f: spec_fn(int) -> real)
    requires
        n > 0,
        forall|k: int| 0 <= k < n ==> #[trigger] f(k) > 0int as real,
    ensures
        sum(n, f) > 0int as real,
    decreases n,
{
    assert(f(n - 1) > 0int as real);
    if n > 1 {
        lemma_positive_sum((n - 1) as nat, f);
    } else {
        assert(sum(0, f) == 0int as real);
    }
}

/// Softmax of a vector: every element becomes the share that its exponential has in the sum of
/// all exponentials. What the elements are shifted by before does not matter.
#[verifier::spinoff_prover]
pub proof fn law_softmax_gives_shares(c: Exact, a: Seq<Term>, first: nat, i: int)
    requires
        exponential(c),
        0 <= i < a.len(),
        first + 1 <= usize::MAX,
        (c.downloaded)((first + 1) as usize) == c.value(softmax_downloads(a, first)[1][0]),
    ensures
        softmax_steps(a, first).len() == a.len(),
        c.value(softmax_steps(a, first)[i]) == (c.exp)(c.value(a[i])) / sum(
            a.len(),
            |k: int| (c.exp)(c.value(a[k])),
        ),
{
    let n = a.len();
    let m = (c.downloaded)(first as usize);
    let factor = (c.exp)((0int as real) - m);
    let shifted = softmax_exponentials(a, first);
    let plain = |k: int| (c.exp)(c.value(a[k]));
    law_totals_are_sums(c, shifted);
    let f = |k: int| c.value(shifted[k]);
    let g = |k: int| plain(k) * factor;
    assert forall|k: int| 0 <= k < n implies #[trigger] f(k) == g(k) by {
        assert(shifted[k] == Term::Apply(
            MapFn::ExpShifted(Scalar::Downloaded(first as usize)),
            Box::new(a[k]),
        ));
        let x = c.value(a[k]);
        assert((c.exp)(x - m) == (c.exp)(x) * (c.exp)((0int as real) - m));
    }
    lemma_sum_equal(n, f, g);
    lemma_sum_equal(n, |k: int| c.value(shifted[k]), f);
    lemma_sum_scale(n, plain, factor);
    lemma_sum_equal(n, g, |k: int| plain(k) * factor);
    lemma_positive_sum(n, plain);
    lemma_sum_equal(n, plain, |k: int| (c.exp)(c.value(a[k])));
    let all = sum(n, plain);
    let total = (c.downloaded)((first + 1) as usize);
    assert(total == all * factor);
    let e = plain(i);
    let one = 1int as real;
    lemma_numbers();
    assert(f(i) == g(i));
    assert(c.value(softmax_steps(a, first)[i]) == (e * factor) * (one / total)) by {
        reveal_with_fuel(Reading::read, 3);
        reveal_with_fuel(Exact::scalar, 3);
    }
    assert(factor > 0int as real);
    let share = one / total;
    let whole = e / all;
    assert(total > 0int as real) by (nonlinear_arith)
        requires
            total == all * factor,
            all > 0int as real,
            factor > 0int as real,
    ;
    assert(share * total == one && whole * all == e) by (nonlinear_arith)
        requires
            share == one / total,
            whole == e / all,
            total > 0int as real,
            all > 0int as real,
    ;
    assert(share * all * factor == one) by (nonlinear_arith)
        requires
            share * total == one,
            total == all * factor,
    ;
    let p = e * factor * share;
    assert(p * all == e) by (nonlinear_arith)
        requires
            p == e * factor * share,
            share * all * factor == one,
            one == 1int as real,
    ;
    assert(p == whole) by (nonlinear_arith)
        requires
            p * all == e,
            whole * all == e,
            all > 0int as real,
    ;
}

/// A mask hides from every row the columns after the row's own, counted from the start of its
/// period. All else stays.
pub proof fn law_masks_hide_later_columns(
    c: Exact,
    period: usize,
    a: Seq<Term>,
    rows: nat,
    cols: nat,
    row: int,
    col: int,
)
    requires
        a.len() == rows * cols,
        0 <= row < rows,
        0 <= col < cols,
    ensures
        c.entry(row_apply(RowFn::CausalMask(period), a, cols), cols as int, row, col) == c.entry(
            a,
            cols as int,
            row,
            col,
        ),
        c.hidden(row_apply(RowFn::CausalMask(period), a, cols), cols as int, row, col) == (
        c.hidden(a, cols as int, row, col) || col > row % (period as int)),
{
    lemma_row_apply(c, RowFn::CausalMask(period), a, rows, cols, row, col);
}

/// Rotary encoding turns every row by the row's own position.
pub proof fn law_rows_turn_by_their_position(
    c: Exact,
    a: Seq<Term>,
    rows: nat,
    cols: nat,
    row: int,
    col: int,
)
    requires
        a.len() == rows * cols,
        0 <= row < rows,
        0 <= col < cols,
    ensures
        c.entry(row_apply(RowFn::Rope, a, cols), cols as int, row, col) == (c.rotated)(
            row,
            Seq::new(cols, |k: int| c.entry(a, cols as int, row, k)),
            col,
        ),
{
    lemma_row_apply(c, RowFn::Rope, a, rows, cols, row, col);
    let q = Seq::new(cols, |k: int| c.read(a[row * cols + k]));
    assert(numbers(q) =~= Seq::new(cols, |k: int| c.entry(a, cols as int, row, k)));
}

/// A window of a matrix shows the elements that stand there.
pub proof fn law_windows_show_their_elements(
    a: Seq<Term>,
    stride: nat,
    row: int,
    col: int,
    rows: nat,
    cols: nat,
    r: int,
    k: int,
)
    requires
        0 <= r < rows,
        0 <= k < cols,
    ensures
        tile(a, stride, row, col, rows, cols).len() == rows * cols,
        tile(a, stride, row, col, rows, cols)[r * cols + k] == a[(row + r) * stride + col + k],
{
    lemma_position_in_range(r, k, rows as int, cols as int);
    lemma_row_col(r, k, cols as int);
}

/// A repeated row stands in every row.
pub proof fn law_repeated_rows_stand_in_every_row(a: Seq<Term>, copies: nat, r: int, k: int)
    requires
        0 <= r < copies,
        0 <= k < a.len(),
    ensures
        repeated(a, copies).len() == copies * a.len(),
        repeated(a, copies)[r * a.len() + k] == a[k],
{
    lemma_position_in_range(r, k, copies as int, a.len() as int);
    lemma_row_col(r, k, a.len() as int);
}

} // verus!
