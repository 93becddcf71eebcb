//! What single operations of a graph are, in exact arithmetic.

use vstd::prelude::*;

use super::lemma_quotient;
use crate::cuda::algebra::{apply, product, row_of, row_totals, transpose, zip, Term};
use crate::cuda::arith::{lemma_position_in_range, lemma_row_col};
use crate::cuda::container::{values_of, Matrix};
use crate::cuda::exact::{
    law_products_are_sums, law_row_totals_are_sums, law_transposes_swap_rows_and_columns,
    lemma_row_apply, lemma_sum_equal, sum, Exact,
};
use crate::cuda::meaning::{lemma_numbers, number, Reading};
use crate::cuda::ops::{BinaryFn, MapFn, RowFn};
use crate::cuda::runtime::CudaRuntime;
use crate::cuda::scalar::{lemma_small_numbers, F32, MINUS_ONE_BITS, ONE_BITS};
use crate::net::activation::Activation;
use crate::net::node::binary::sum_of_first;
use crate::net::node::reduction::spread;
use crate::net::node::{BinaryOp, FanOutMode, RowReduction, SingleType};
use crate::net::swiglu::Swiglu;

verus! {

/// A literal minus one stands for minus one.
pub proof fn lemma_minus_one()
    ensures
        number(F32 { bits: MINUS_ONE_BITS }) == (0int as real) - (1int as real),
{
    lemma_numbers();
    lemma_small_numbers();
    let one = (F32 { bits: ONE_BITS }).value() as real;
    let other = (F32 { bits: MINUS_ONE_BITS }).value() as real;
    assert(other / one == (0int as real) - (1int as real)) by (nonlinear_arith)
        requires
            other == (0int as real) - one,
            one > 0int as real,
    ;
}

/// An element of what a single operation makes of a matrix: activated, the share of its
/// exponential in the row's, scaled, or the element that stands mirrored.
pub proof fn law_single_operations_make_their_elements(
    c: Exact,
    op: SingleType,
    a: Seq<Term>,
    rows: nat,
    cols: nat,
    row: int,
    col: int,
)
    requires
        a.len() == rows * cols,
        0 <= row < rows,
        0 <= col < cols,
    ensures
        op.image(a, rows, cols).len() == a.len(),
        op matches SingleType::Activation(f) ==> c.entry(
            op.image(a, rows, cols),
            cols as int,
            row,
            col,
        ) == c.activation(f, c.entry(a, cols as int, row, col)),
        op matches SingleType::Scale(value) ==> c.entry(
            op.image(a, rows, cols),
            cols as int,
            row,
            col,
        ) == c.entry(a, cols as int, row, col) * number(value),
        op is Transpose ==> op.image(a, rows, cols)[col * rows + row] == a[row * cols + col],
        op is Softmax ==> c.entry(op.image(a, rows, cols), cols as int, row, col)
            == c.exponential(c.read(a[row * cols + col])) / sum(
            cols,
            |k: int| c.exponential(c.read(a[row * cols + k])),
        ),
{
    lemma_position_in_range(row, col, rows as int, cols as int);
    assert(rows * cols == cols * rows) by (nonlinear_arith);
    match op {
        SingleType::Activation(f) => {
            reveal_with_fuel(Reading::read, 2);
        },
        SingleType::Scale(value) => {
            reveal_with_fuel(Reading::read, 2);
        },
        SingleType::Transpose => {
            law_transposes_swap_rows_and_columns(a, rows, cols, row, col);
        },
        SingleType::Softmax => {
            lemma_row_apply(c, RowFn::Softmax, a, rows, cols, row, col);
            let q = Seq::new(cols, |k: int| c.read(a[row * cols + k]));
            lemma_sum_equal(
                cols,
                |k: int| c.exponential(q[k]),
                |k: int| c.exponential(c.read(a[row * cols + k])),
            );
        },
        _ => {},
    }
}

/// The gradient that a single operation hands back: times the slope at the input, scaled the
/// same, mirrored back, or, of softmax, times the share that it has over the row's mean.
pub proof fn law_single_operations_hand_gradients_back(
    c: Exact,
    op: SingleType,
    input: Seq<Term>,
    gradient: Seq<Term>,
    rows: nat,
    cols: nat,
    row: int,
    col: int,
)
    requires
        input.len() == rows * cols,
        gradient.len() == rows * cols,
        0 <= row < rows,
        0 <= col < cols,
    ensures
        op matches SingleType::Activation(f) ==> c.entry(
            op.pullback(op.saved(input, rows, cols), gradient, rows, cols),
            cols as int,
            row,
            col,
        ) == c.entry(gradient, cols as int, row, col) * c.slope(
            f,
            c.entry(input, cols as int, row, col),
        ),
        op matches SingleType::Scale(value) ==> c.entry(
            op.pullback(op.saved(input, rows, cols), gradient, rows, cols),
            cols as int,
            row,
            col,
        ) == c.entry(gradient, cols as int, row, col) * number(value),
        op is Transpose ==> op.pullback(
            op.saved(input, rows, cols),
            op.image(gradient, rows, cols),
            cols,
            rows,
        )[row * cols + col] == gradient[row * cols + col],
        op is Softmax ==> ({
            let p = op.image(input, rows, cols);
            c.entry(
                op.pullback(op.saved(input, rows, cols), gradient, rows, cols),
                cols as int,
                row,
                col,
            ) == c.entry(p, cols as int, row, col) * (c.entry(gradient, cols as int, row, col)
                - sum(
                cols,
                |k: int| c.entry(p, cols as int, row, k) * c.entry(gradient, cols as int, row, k),
            ))
        }),
{
    lemma_position_in_range(row, col, rows as int, cols as int);
    assert(rows * cols == cols * rows) by (nonlinear_arith);
    match op {
        SingleType::Activation(f) => {
            if f is Identity {
                let x = c.entry(gradient, cols as int, row, col);
                assert(x * (1int as real) == x) by (nonlinear_arith);
            } else {
                reveal_with_fuel(Reading::read, 3);
            }
        },
        SingleType::Scale(value) => {
            reveal_with_fuel(Reading::read, 2);
        },
        SingleType::Transpose => {
            let t = transpose(gradient, rows, cols);
            law_transposes_swap_rows_and_columns(gradient, rows, cols, row, col);
            law_transposes_swap_rows_and_columns(t, cols, rows, col, row);
        },
        SingleType::Softmax => {
            let p = op.image(input, rows, cols);
            lemma_row_col(row, col, cols as int);
            let saved = row_of(p, cols, row);
            let back = row_of(gradient, cols, row);
            c.reading().lemma_read_all(saved);
            c.reading().lemma_read_all(back);
            let u = c.reading().read_all(saved);
            let v = c.reading().read_all(back);
            let f = |k: int| u[k].value * v[k].value;
            lemma_sum_equal(cols, f, |k: int| u[k].value * v[k].value);
            let g = |k: int|
                c.entry(p, cols as int, row, k) * c.entry(gradient, cols as int, row, k);
            assert forall|k: int| 0 <= k < cols implies #[trigger] f(k) == g(k) by {
                assert(u[k] == c.read(saved[k]));
                assert(v[k] == c.read(back[k]));
            }
            lemma_sum_equal(cols, f, g);
            lemma_sum_equal(
                cols,
                g,
                |k: int| c.entry(p, cols as int, row, k) * c.entry(gradient, cols as int, row, k),
            );
            assert(u[col] == c.read(saved[col]));
            assert(v[col] == c.read(back[col]));
        },
        _ => {},
    }
}

/// The sum of the first of several matrices, element by element.
pub proof fn law_sums_of_matrices_are_sums(c: Exact, values: Seq<Seq<Term>>, n: int, i: int)
    requires
        1 <= n <= values.len(),
        0 <= i < values[0].len(),
    ensures
        sum_of_first(values, n).len() == values[0].len(),
        c.value(sum_of_first(values, n)[i]) == sum(n as nat, |k: int| c.value(values[k][i])),
    decreases n,
{
    let f = |k: int| c.value(values[k][i]);
    if n > 1 {
        law_sums_of_matrices_are_sums(c, values, n - 1, i);
        lemma_sum_equal((n - 1) as nat, |k: int| c.value(values[k][i]), f);
        assert(sum_of_first(values, n)[i] == Term::Zip(
            BinaryFn::Add,
            Box::new(sum_of_first(values, n - 1)[i]),
            Box::new(values[n - 1][i]),
        ));
    } else {
        assert(sum(0, f) == 0int as real);
    }
    assert(sum(n as nat, f) == sum((n - 1) as nat, f) + f(n - 1));
    lemma_sum_equal(n as nat, f, |k: int| c.value(values[k][i]));
}

/// An element of what an operation makes of several matrices: the sum of all, the difference,
/// the product or the quotient of two. A matrix product adds up products along a row and a
/// column.
pub proof fn law_operations_combine_elements(
    c: Exact,
    op: BinaryOp,
    runtime: CudaRuntime,
    inputs: Seq<Matrix>,
    i: int,
)
    requires
        op.takes(inputs.len()),
        !(op is MatMul) ==> 0 <= i < runtime.matrix(inputs[0]).len(),
    ensures
        op is Add ==> c.value(op.image(runtime, inputs)[i]) == sum(
            inputs.len(),
            |k: int| c.value(runtime.matrix(inputs[k])[i]),
        ),
        op is Sub ==> c.value(op.image(runtime, inputs)[i]) == c.value(
            runtime.matrix(inputs[0])[i],
        ) - c.value(runtime.matrix(inputs[1])[i]),
        op is Mul ==> c.value(op.image(runtime, inputs)[i]) == c.value(
            runtime.matrix(inputs[0])[i],
        ) * c.value(runtime.matrix(inputs[1])[i]),
        op is Div ==> c.value(op.image(runtime, inputs)[i]) == c.value(
            runtime.matrix(inputs[0])[i],
        ) / c.value(runtime.matrix(inputs[1])[i]),
        op is MatMul ==> forall|row: int, col: int|
            0 <= row < inputs[0].rows && 0 <= col < inputs[1].cols ==> #[trigger] c.entry(
                op.image(runtime, inputs),
                inputs[1].cols as int,
                row,
                col,
            ) == sum(
                inputs[0].cols as nat,
                |k: int|
                    c.entry(runtime.matrix(inputs[0]), inputs[0].cols as int, row, k) * c.entry(
                        runtime.matrix(inputs[1]),
                        inputs[1].cols as int,
                        k,
                        col,
                    ),
            ),
{
    let values = values_of(runtime, inputs);
    assert(values[0] == runtime.matrix(inputs[0]));
    assert(values[1] == runtime.matrix(inputs[1]));
    match op {
        BinaryOp::Add => {
            law_sums_of_matrices_are_sums(c, values, inputs.len() as int, i);
            lemma_sum_equal(
                inputs.len(),
                |k: int| c.value(values[k][i]),
                |k: int| c.value(runtime.matrix(inputs[k])[i]),
            );
        },
        BinaryOp::MatMul => {
            let inner = inputs[0].cols as nat;
            let cols = inputs[1].cols as nat;
            assert forall|row: int, col: int|
                0 <= row < inputs[0].rows && 0 <= col < inputs[1].cols implies #[trigger] c.entry(
                op.image(runtime, inputs),
                inputs[1].cols as int,
                row,
                col,
            ) == sum(
                inputs[0].cols as nat,
                |k: int|
                    c.entry(runtime.matrix(inputs[0]), inputs[0].cols as int, row, k) * c.entry(
                        runtime.matrix(inputs[1]),
                        inputs[1].cols as int,
                        k,
                        col,
                    ),
            ) by {
                law_products_are_sums(
                    c,
                    values[0],
                    values[1],
                    inputs[0].rows as nat,
                    inner,
                    cols,
                    row,
                    col,
                );
                lemma_sum_equal(
                    inner,
                    |k: int|
                        c.entry(values[0], inner as int, row, k) * c.entry(
                            values[1],
                            cols as int,
                            k,
                            col,
                        ),
                    |k: int|
                        c.entry(runtime.matrix(inputs[0]), inputs[0].cols as int, row, k) * c.entry(
                            runtime.matrix(inputs[1]),
                            inputs[1].cols as int,
                            k,
                            col,
                        ),
                );
            }
        },
        _ => {
            reveal_with_fuel(Reading::read, 2);
        },
    }
}

/// The gradients that an element-wise operation of two hands back: of a sum the gradient, of a
/// difference the gradient and its negative, of a product the gradient times the other factor,
/// of a quotient the gradient over the divisor, and minus the gradient times the dividend over
/// the divisor's square.
#[verifier::spinoff_prover]
pub proof fn law_operations_hand_gradients_back(
    c: Exact,
    op: BinaryOp,
    runtime: CudaRuntime,
    inputs: Seq<Matrix>,
    gradient: Seq<Term>,
    i: int,
)
    requires
        op.takes(inputs.len()),
        0 <= i < gradient.len(),
        !(op is Add) && !(op is MatMul) ==> runtime.matrix(inputs[0]).len() == gradient.len()
            && runtime.matrix(inputs[1]).len() == gradient.len(),
    ensures
        op is Add ==> forall|k: int|
            #![trigger op.pullback(runtime, inputs, gradient, k)]
            0 <= k < inputs.len() ==> c.value(op.pullback(runtime, inputs, gradient, k)[i])
                == c.value(gradient[i]),
        op is Sub ==> c.value(op.pullback(runtime, inputs, gradient, 0)[i]) == c.value(gradient[i])
            && c.value(op.pullback(runtime, inputs, gradient, 1)[i]) == (0int as real) - c.value(
            gradient[i],
        ),
        op is Mul ==> c.value(op.pullback(runtime, inputs, gradient, 0)[i]) == c.value(gradient[i])
            * c.value(runtime.matrix(inputs[1])[i]) && c.value(
            op.pullback(runtime, inputs, gradient, 1)[i],
        ) == c.value(gradient[i]) * c.value(runtime.matrix(inputs[0])[i]),
        op is Div ==> c.value(op.pullback(runtime, inputs, gradient, 0)[i]) == c.value(gradient[i])
            / c.value(runtime.matrix(inputs[1])[i]) && c.value(
            op.pullback(runtime, inputs, gradient, 1)[i],
        ) == (0int as real) - (c.value(gradient[i]) * c.value(runtime.matrix(inputs[0])[i])) / (
        c.value(runtime.matrix(inputs[1])[i]) * c.value(runtime.matrix(inputs[1])[i])),
{
    let values = values_of(runtime, inputs);
    assert(values[0] == runtime.matrix(inputs[0]));
    assert(values[1] == runtime.matrix(inputs[1]));
    lemma_minus_one();
    let g = c.value(gradient[i]);
    let less = (0int as real) - (1int as real);
    let q = (g * c.value(values[0][i])) / (c.value(values[1][i]) * c.value(values[1][i]));
    assert(g * less == (0int as real) - g && q * less == (0int as real) - q) by (nonlinear_arith)
        requires
            less == (0int as real) - (1int as real),
    ;
    reveal_with_fuel(Reading::read, 4);
    reveal_with_fuel(Exact::scalar, 2);
}

/// The gradients that a matrix product hands back: of an element on the left, what the
/// gradient along its row and the other matrix's row multiply to; of one on the right, what
/// the other matrix's column and the gradient along its column multiply to.
pub proof fn law_products_hand_gradients_back(
    c: Exact,
    runtime: CudaRuntime,
    inputs: Seq<Matrix>,
    gradient: Seq<Term>,
    row: int,
    k: int,
    col: int,
)
    requires
        inputs.len() == 2,
        inputs[0].cols == inputs[1].rows,
        0 <= row < inputs[0].rows,
        0 <= k < inputs[0].cols,
        0 <= col < inputs[1].cols,
    ensures
        c.entry(
            BinaryOp::MatMul.pullback(runtime, inputs, gradient, 0),
            inputs[0].cols as int,
            row,
            k,
        ) == sum(
            inputs[1].cols as nat,
            |j: int|
                c.entry(gradient, inputs[1].cols as int, row, j) * c.entry(
                    runtime.matrix(inputs[1]),
                    inputs[1].cols as int,
                    k,
                    j,
                ),
        ),
        c.entry(
            BinaryOp::MatMul.pullback(runtime, inputs, gradient, 1),
            inputs[1].cols as int,
            k,
            col,
        ) == sum(
            inputs[0].rows as nat,
            |r: int|
                c.entry(runtime.matrix(inputs[0]), inputs[0].cols as int, r, k) * c.entry(
                    gradient,
                    inputs[1].cols as int,
                    r,
                    col,
                ),
        ),
{
    let values = values_of(runtime, inputs);
    assert(values[0] == runtime.matrix(inputs[0]));
    assert(values[1] == runtime.matrix(inputs[1]));
    let rows = inputs[0].rows as nat;
    let inner = inputs[0].cols as nat;
    let cols = inputs[1].cols as nat;
    super::law_input_gradients_are_sums(c, gradient, values[1], rows, inner, cols, row, k);
    super::law_weight_gradients_are_sums(c, values[0], gradient, rows, inner, cols, k, col);
    lemma_sum_equal(
        cols,
        |j: int| c.entry(gradient, cols as int, row, j) * c.entry(values[1], cols as int, k, j),
        |j: int|
            c.entry(gradient, inputs[1].cols as int, row, j) * c.entry(
                runtime.matrix(inputs[1]),
                inputs[1].cols as int,
                k,
                j,
            ),
    );
    lemma_sum_equal(
        rows,
        |r: int| c.entry(values[0], inner as int, r, k) * c.entry(gradient, cols as int, r, col),
        |r: int|
            c.entry(runtime.matrix(inputs[0]), inputs[0].cols as int, r, k) * c.entry(
                gradient,
                inputs[1].cols as int,
                r,
                col,
            ),
    );
}

/// A reduced row is the sum of its elements, or their mean.
pub proof fn law_reduced_rows_are_sums_or_means(
    c: Exact,
    reduction: RowReduction,
    a: Seq<Term>,
    rows: nat,
    cols: usize,
    row: int,
)
    requires
        0 <= row < rows,
        cols > 0,
    ensures
        reduction.weighted(row_totals(a, rows, cols as nat), cols).len() == rows,
        reduction is Sum ==> c.value(
            reduction.weighted(row_totals(a, rows, cols as nat), cols)[row],
        ) == sum(cols as nat, |k: int| c.entry(a, cols as int, row, k)),
        reduction is Mean ==> c.value(
            reduction.weighted(row_totals(a, rows, cols as nat), cols)[row],
        ) == sum(cols as nat, |k: int| c.entry(a, cols as int, row, k)) / (cols as int as real),
{
    law_row_totals_are_sums(c, a, rows, cols as nat, row);
    let total = sum(cols as nat, |k: int| c.entry(a, cols as int, row, k));
    lemma_sum_equal(
        cols as nat,
        |k: int| c.entry(a, cols as nat as int, row, k),
        |k: int| c.entry(a, cols as int, row, k),
    );
    lemma_quotient(total, cols as int as real);
    reveal_with_fuel(Reading::read, 2);
}

/// The gradient of a reduced row goes to each of its elements, whole or in equal parts.
pub proof fn law_reductions_hand_gradients_back(
    c: Exact,
    reduction: RowReduction,
    gradient: Seq<Term>,
    rows: nat,
    cols: usize,
    row: int,
    col: int,
)
    requires
        0 <= row < rows,
        0 <= col < cols,
    ensures
        reduction is Sum ==> c.entry(
            reduction.weighted(spread(gradient, rows, cols as nat), cols),
            cols as int,
            row,
            col,
        ) == c.value(gradient[row]),
        reduction is Mean ==> c.entry(
            reduction.weighted(spread(gradient, rows, cols as nat), cols),
            cols as int,
            row,
            col,
        ) == c.value(gradient[row]) / (cols as int as real),
{
    lemma_position_in_range(row, col, rows as int, cols as int);
    lemma_row_col(row, col, cols as int);
    lemma_quotient(c.value(gradient[row]), cols as int as real);
    reveal_with_fuel(Reading::read, 2);
}

/// What a branch of a fan-out gets of an element: all of it, or an equal part.
pub proof fn law_branches_get_their_share(
    c: Exact,
    mode: FanOutMode,
    a: Seq<Term>,
    count: usize,
    i: int,
)
    requires
        0 <= i < a.len(),
        count > 0,
    ensures
        mode.share(a, count).len() == a.len(),
        mode is Copy ==> c.value(mode.share(a, count)[i]) == c.value(a[i]),
        mode is Average ==> c.value(mode.share(a, count)[i]) == c.value(a[i]) / (
        count as int as real),
{
    lemma_quotient(c.value(a[i]), count as int as real);
    reveal_with_fuel(Reading::read, 2);
}

/// A SwiGLU block: along the hidden width, the activated sum of one layer, times the sum of
/// the other, times the weight that leads out.
pub proof fn law_swiglu_multiplies_two_sums(
    c: Exact,
    block: Swiglu,
    runtime: CudaRuntime,
    x: Seq<Term>,
    rows: nat,
    row: int,
    col: int,
)
    requires
        0 <= row < rows,
        0 <= col < block.down.weights.cols,
    ensures
        ({
            let width = block.gate.weights.rows as int;
            let hidden = block.gate.weights.cols as int;
            let cols = block.down.weights.cols as int;
            let gate = |h: int|
                sum(
                    width as nat,
                    |k: int|
                        c.entry(x, width, row, k) * c.entry(
                            runtime.matrix(block.gate.weights),
                            hidden,
                            k,
                            h,
                        ),
                );
            let up = |h: int|
                sum(
                    width as nat,
                    |k: int|
                        c.entry(x, width, row, k) * c.entry(
                            runtime.matrix(block.up.weights),
                            hidden,
                            k,
                            h,
                        ),
                );
            c.entry(block.image(runtime, x, rows), cols, row, col) == sum(
                hidden as nat,
                |h: int|
                    (gate(h) * (c.sigmoid)(gate(h))) * up(h) * c.entry(
                        runtime.matrix(block.down.weights),
                        cols,
                        h,
                        col,
                    ),
            )
        }),
{
    let width = block.gate.weights.rows as int;
    let hidden = block.gate.weights.cols as int;
    let cols = block.down.weights.cols as int;
    let wg = runtime.matrix(block.gate.weights);
    let wu = runtime.matrix(block.up.weights);
    let wd = runtime.matrix(block.down.weights);
    let gate = |h: int|
        sum(width as nat, |k: int| c.entry(x, width, row, k) * c.entry(wg, hidden, k, h));
    let up = |h: int|
        sum(width as nat, |k: int| c.entry(x, width, row, k) * c.entry(wu, hidden, k, h));
    let pg = product(x, wg, rows, width as nat, hidden as nat);
    let pu = product(x, wu, rows, width as nat, hidden as nat);
    let inner = zip(BinaryFn::Mul, apply(MapFn::Activate(Activation::Silu), pg), pu);
    law_products_are_sums(c, inner, wd, rows, hidden as nat, cols as nat, row, col);
    let f = |h: int| c.entry(inner, hidden, row, h) * c.entry(wd, cols, h, col);
    let g = |h: int| (gate(h) * (c.sigmoid)(gate(h))) * up(h) * c.entry(wd, cols, h, col);
    assert forall|h: int| 0 <= h < hidden implies #[trigger] f(h) == g(h) by {
        lemma_position_in_range(row, h, rows as int, hidden);
        law_products_are_sums(c, x, wg, rows, width as nat, hidden as nat, row, h);
        law_products_are_sums(c, x, wu, rows, width as nat, hidden as nat, row, h);
        lemma_sum_equal(
            width as nat,
            |k: int|
                c.entry(x, width as nat as int, row, k) * c.entry(wg, hidden as nat as int, k, h),
            |k: int| c.entry(x, width, row, k) * c.entry(wg, hidden, k, h),
        );
        lemma_sum_equal(
            width as nat,
            |k: int|
                c.entry(x, width as nat as int, row, k) * c.entry(wu, hidden as nat as int, k, h),
            |k: int| c.entry(x, width, row, k) * c.entry(wu, hidden, k, h),
        );
        assert(c.entry(pg, hidden, row, h) == gate(h));
        assert(c.entry(pu, hidden, row, h) == up(h));
        reveal_with_fuel(Reading::read, 3);
    }
    lemma_sum_equal(hidden as nat, f, g);
    lemma_sum_equal(
        hidden as nat,
        |h: int|
            c.entry(inner, hidden as nat as int, row, h) * c.entry(wd, cols as nat as int, h, col),
        f,
    );
}

} // verus!
