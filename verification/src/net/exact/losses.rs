//! What losses are, in exact arithmetic.

use vstd::prelude::*;

use super::lemma_quotient;
use crate::cuda::algebra::{apply, row_totals, Term};
use crate::cuda::arith::lemma_position_in_range;
use crate::cuda::container::{Matrix, Vector};
use crate::cuda::exact::{
    law_paired_totals_are_sums, law_row_totals_are_sums, law_totals_are_sums, lemma_sum_equal, sum,
    Exact,
};
use crate::cuda::meaning::{lemma_numbers, number, Reading};
use crate::cuda::ops::MapFn;
use crate::cuda::runtime::CudaRuntime;
use crate::cuda::scalar::{lemma_small_numbers, Scalar, F32, ONE_BITS, TWO_BITS};
use crate::net::loss::{dice_downloads, is_one, Loss};

verus! {

/// Softplus of a number and of its negative differ by the number.
pub open spec fn softplus_is_odd_but_for_its_argument(c: Exact) -> bool {
    forall|x: real|
        #[trigger] (c.softplus)(x) - (c.softplus)((0int as real) - x) == x
}

/// What an element costs: half the square of the distance to its target, or the weighted cost
/// of a positive target and the cost of a negative one, in the shares that the target has of
/// both.
pub open spec fn cost(c: Exact, loss: Loss, weight: real, output: real, target: real) -> real {
    let one = 1int as real;
    match loss {
        Loss::MeanSquaredError => (output - target) * (output - target) / (2int as real),
        Loss::BinaryCrossEntropyWithLogits => weight * target * (c.softplus)(
            (0int as real) - output,
        ) + (one - target) * (c.softplus)(output),
    }
}

/// A literal one stands for one.
proof fn lemma_one(v: F32)
    requires
        is_one(v),
    ensures
        number(v) == 1int as real,
{
    lemma_numbers();
    let one = (F32 { bits: ONE_BITS }).value() as real;
    assert(one / one == 1int as real) by (nonlinear_arith)
        requires
            one > 0int as real,
    ;
}

/// The loss of an element is what it costs, for every weight of positive targets.
#[verifier::spinoff_prover]
pub proof fn law_elements_cost_what_they_are_off(
    c: Exact,
    loss: Loss,
    output: Seq<Term>,
    target: Seq<Term>,
    positive_weight: F32,
    i: int,
)
    requires
        softplus_is_odd_but_for_its_argument(c),
        0 <= i < output.len(),
        output.len() == target.len(),
    ensures
        loss.element_losses(output, target, positive_weight).len() == output.len(),
        loss is MeanSquaredError ==> c.value(
            loss.element_losses(output, target, positive_weight)[i],
        ) == (c.value(output[i]) - c.value(target[i])) * (c.value(output[i]) - c.value(target[i]))
            / (2int as real),
        loss is BinaryCrossEntropyWithLogits ==> c.value(
            loss.element_losses(output, target, positive_weight)[i],
        ) == number(positive_weight) * c.value(target[i]) * (c.softplus)(
            (0int as real) - c.value(output[i]),
        ) + ((1int as real) - c.value(target[i])) * (c.softplus)(c.value(output[i])),
        c.value(loss.element_losses(output, target, positive_weight)[i]) == cost(
            c,
            loss,
            number(positive_weight),
            c.value(output[i]),
            c.value(target[i]),
        ),
{
    reveal_with_fuel(Reading::read, 5);
    reveal_with_fuel(Exact::scalar, 3);
    lemma_numbers();
    let x = c.value(output[i]);
    let t = c.value(target[i]);
    let w = number(positive_weight);
    let one = 1int as real;
    let zero = 0int as real;
    let up = (c.softplus)(x);
    let down = (c.softplus)(zero - x);
    assert(up - down == x);
    if loss is BinaryCrossEntropyWithLogits {
        if is_one(positive_weight) {
            lemma_one(positive_weight);
            assert(up - x * t == one * t * down + (one - t) * up) by (nonlinear_arith)
                requires
                    up - down == x,
                    one == 1int as real,
            ;
        } else {
            let s = w - one;
            assert((up - x * t) + (s * down) * t == w * t * down + (one - t) * up)
                by (nonlinear_arith)
                requires
                    up - down == x,
                    s == w - one,
                    one == 1int as real,
            ;
        }
    }
}

/// The loss of a row is the mean of what its elements cost.
pub proof fn law_rows_cost_their_mean(
    c: Exact,
    loss: Loss,
    output: Seq<Term>,
    target: Seq<Term>,
    positive_weight: F32,
    rows: usize,
    cols: usize,
    row: int,
)
    requires
        softplus_is_odd_but_for_its_argument(c),
        output.len() == rows * cols,
        target.len() == output.len(),
        0 <= row < rows,
        cols > 0,
    ensures
        loss.row_losses(output, target, positive_weight, rows, cols).len() == rows,
        c.value(loss.row_losses(output, target, positive_weight, rows, cols)[row]) == sum(
            cols as nat,
            |k: int|
                cost(
                    c,
                    loss,
                    number(positive_weight),
                    c.entry(output, cols as int, row, k),
                    c.entry(target, cols as int, row, k),
                ),
        ) / (cols as int as real),
{
    let elements = loss.element_losses(output, target, positive_weight);
    let totals = row_totals(elements, rows as nat, cols as nat);
    law_row_totals_are_sums(c, elements, rows as nat, cols as nat, row);
    let f = |k: int| c.entry(elements, cols as int, row, k);
    let g = |k: int|
        cost(
            c,
            loss,
            number(positive_weight),
            c.entry(output, cols as int, row, k),
            c.entry(target, cols as int, row, k),
        );
    assert forall|k: int| 0 <= k < cols implies #[trigger] f(k) == g(k) by {
        lemma_position_in_range(row, k, rows as int, cols as int);
        law_elements_cost_what_they_are_off(
            c,
            loss,
            output,
            target,
            positive_weight,
            row * cols + k,
        );
    }
    lemma_sum_equal(cols as nat, f, g);
    lemma_sum_equal(cols as nat, |k: int| c.entry(elements, cols as int, row, k), f);
    lemma_quotient(sum(cols as nat, g), cols as int as real);
    lemma_sum_equal(
        cols as nat,
        g,
        |k: int|
            cost(
                c,
                loss,
                number(positive_weight),
                c.entry(output, cols as int, row, k),
                c.entry(target, cols as int, row, k),
            ),
    );
    assert(loss.row_losses(output, target, positive_weight, rows, cols)[row] == Term::Apply(
        MapFn::Scale(Scalar::Reciprocal(cols)),
        Box::new(totals[row]),
    ));
}

/// The gradient of an element of the mean loss: the distance to the target, or the distance
/// of the probability, each side weighted, divided by the number of elements.
#[verifier::spinoff_prover]
pub proof fn law_gradients_of_elements(
    c: Exact,
    loss: Loss,
    output: Seq<Term>,
    target: Seq<Term>,
    positive_weight: F32,
    count: usize,
    i: int,
)
    requires
        0 <= i < output.len(),
        output.len() == target.len(),
        count > 0,
    ensures
        loss.gradient(output, target, positive_weight, count).len() == output.len(),
        ({
            let x = c.value(output[i]);
            let t = c.value(target[i]);
            let p = (c.sigmoid)(x);
            let w = number(positive_weight);
            let one = 1int as real;
            c.value(loss.gradient(output, target, positive_weight, count)[i]) == (match loss {
                Loss::MeanSquaredError => x - t,
                Loss::BinaryCrossEntropyWithLogits => (one - t) * p - w * t * (one - p),
            }) / (count as int as real)
        }),
{
    reveal_with_fuel(Reading::read, 6);
    reveal_with_fuel(Exact::scalar, 3);
    lemma_numbers();
    let x = c.value(output[i]);
    let t = c.value(target[i]);
    let p = (c.sigmoid)(x);
    let w = number(positive_weight);
    let one = 1int as real;
    let n = count as int as real;
    match loss {
        Loss::MeanSquaredError => {
            lemma_quotient(x - t, n);
        },
        Loss::BinaryCrossEntropyWithLogits => {
            let wanted = (one - t) * p - w * t * (one - p);
            lemma_quotient(wanted, n);
            if is_one(positive_weight) {
                lemma_one(positive_weight);
                assert(p - t == wanted) by (nonlinear_arith)
                    requires
                        wanted == (one - t) * p - w * t * (one - p),
                        w == one,
                        one == 1int as real,
                ;
            } else {
                let s = w - one;
                assert(p * (t * s + one) - t * w == wanted) by (nonlinear_arith)
                    requires
                        wanted == (one - t) * p - w * t * (one - p),
                        s == w - one,
                        one == 1int as real,
                ;
            }
        },
    }
}

/// With a Dice term every row also costs the weighted distance of the Dice coefficient from
/// one: twice the overlap of probabilities and targets and one, by the sum of both and one.
#[verifier::spinoff_prover]
#[verifier::rlimit(60)]
pub proof fn law_scored_rows_cost_their_mean(
    c: Exact,
    loss: Loss,
    before: CudaRuntime,
    after: CudaRuntime,
    output: Matrix,
    target: Matrix,
    positive_weight: F32,
    dice_weight: F32,
    r: (Vector, Matrix),
    row: int,
)
    requires
        softplus_is_odd_but_for_its_argument(c),
        before.wf(),
        before.holds(output),
        before.holds(target),
        target.rows == output.rows,
        target.cols == output.cols,
        output.cols > 0,
        0 <= row < output.rows,
        dice_weight.value() >= 0,
        loss.scored(before, after, output, target, positive_weight, dice_weight, r),
        dice_weight.value() > 0 ==> ({
            let n: int = before.device@.downloads.len() as int;
            &&& n + 2 <= usize::MAX
            &&& forall|k: int|
                0 <= k < 3 ==> #[trigger] (c.downloaded)((n + k) as usize) == c.value(
                    after.device@.downloads[n + k][0],
                )
        }),
    ensures
        ({
            let outputs = before.matrix(output);
            let targets = before.matrix(target);
            let one = 1int as real;
            let two = 2int as real;
            let mean = sum(
                output.cols as nat,
                |k: int|
                    cost(
                        c,
                        loss,
                        number(positive_weight),
                        c.entry(outputs, output.cols as int, row, k),
                        c.entry(targets, output.cols as int, row, k),
                    ),
            ) / (output.cols as int as real);
            let overlap = sum(
                outputs.len(),
                |i: int| (c.sigmoid)(c.value(outputs[i])) * c.value(targets[i]),
            );
            let predicted = sum(outputs.len(), |i: int| (c.sigmoid)(c.value(outputs[i])));
            let wanted = sum(outputs.len(), |i: int| c.value(targets[i]));
            c.value(after.vector(r.0)[row]) == if dice_weight.value() > 0 {
                mean + number(dice_weight) * (one - (two * overlap + one) / (predicted + wanted
                    + one))
            } else {
                mean
            }
        }),
{
    let outputs = before.matrix(output);
    let targets = before.matrix(target);
    assert(outputs.len() == output.rows * output.cols);
    assert(targets.len() == outputs.len());
    law_rows_cost_their_mean(
        c,
        loss,
        outputs,
        targets,
        positive_weight,
        output.rows,
        output.cols,
        row,
    );
    let base = loss.row_losses(outputs, targets, positive_weight, output.rows, output.cols);
    if dice_weight.value() > 0 {
        let n: int = before.device@.downloads.len() as int;
        let probabilities = apply(MapFn::Sigmoid, outputs);
        let found = dice_downloads(probabilities, targets);
        assert(outputs.len() > 0) by {
            lemma_position_in_range(row, 0, output.rows as int, output.cols as int);
        }
        assert(after.device@.downloads[n + 0] == found[0]);
        assert(after.device@.downloads[n + 1] == found[1]);
        assert(after.device@.downloads[n + 2] == found[2]);
        law_paired_totals_are_sums(c, probabilities, targets);
        law_totals_are_sums(c, probabilities);
        law_totals_are_sums(c, targets);
        let f = |i: int| c.value(probabilities[i]) * c.value(targets[i]);
        let g = |i: int| (c.sigmoid)(c.value(outputs[i])) * c.value(targets[i]);
        assert forall|i: int| 0 <= i < outputs.len() implies #[trigger] f(i) == g(i) by {
            assert(probabilities[i] == Term::Apply(MapFn::Sigmoid, Box::new(outputs[i])));
        }
        lemma_sum_equal(outputs.len(), f, g);
        lemma_sum_equal(
            outputs.len(),
            |i: int| c.value(probabilities[i]) * c.value(targets[i]),
            f,
        );
        lemma_sum_equal(
            outputs.len(),
            g,
            |i: int| (c.sigmoid)(c.value(outputs[i])) * c.value(targets[i]),
        );
        let p = |i: int| c.value(probabilities[i]);
        let q = |i: int| (c.sigmoid)(c.value(outputs[i]));
        assert forall|i: int| 0 <= i < outputs.len() implies #[trigger] p(i) == q(i) by {
            assert(probabilities[i] == Term::Apply(MapFn::Sigmoid, Box::new(outputs[i])));
        }
        lemma_sum_equal(outputs.len(), p, q);
        lemma_sum_equal(outputs.len(), |i: int| c.value(probabilities[i]), p);
        lemma_sum_equal(outputs.len(), q, |i: int| (c.sigmoid)(c.value(outputs[i])));
        assert((c.downloaded)((n + 0) as usize) == c.value(found[0][0]));
        assert((c.downloaded)((n + 1) as usize) == c.value(found[1][0]));
        assert((c.downloaded)((n + 2) as usize) == c.value(found[2][0]));
        lemma_numbers();
        lemma_two();
        reveal_with_fuel(Exact::scalar, 8);
    }
}

/// A literal two stands for two.
proof fn lemma_two()
    ensures
        number(F32 { bits: TWO_BITS }) == 2int as real,
{
    lemma_numbers();
    lemma_small_numbers();
    let one = (F32 { bits: ONE_BITS }).value() as real;
    let two = (F32 { bits: TWO_BITS }).value() as real;
    assert(two / one == 2int as real) by (nonlinear_arith)
        requires
            two == one + one,
            one > 0int as real,
    ;
}

} // verus!
