//! What layers, stacks and optimizer steps compute, in exact arithmetic.

pub mod attention;
pub mod blocks;
pub mod decoders;
pub mod gradients;
pub mod learning;
pub mod losses;
pub mod nodes;
pub mod passes;
pub mod stacks;

use vstd::prelude::*;

use crate::cuda::algebra::{product, row_totals, transpose, zip, zip_by_rows, Term};
use crate::cuda::arith::lemma_position_in_range;
use crate::cuda::container::Matrix;
use crate::cuda::exact::{
    law_products_are_sums, law_row_totals_are_sums, law_transposes_swap_rows_and_columns,
    lemma_sum_equal, lemma_zip_by_rows, sum, Exact,
};
use crate::cuda::meaning::number;
use crate::cuda::ops::BinaryFn;
use crate::cuda::runtime::CudaRuntime;
use crate::graph::config::LearnConfig;
use crate::graph::state::NodeTrainState;
use crate::net::activation::Activation;
use crate::net::linear::{
    activated, affine_terms, bias_gradient_terms, input_gradient_terms, pre_activation_gradient,
    slot_terms, weight_gradient_terms, Linear,
};

verus! {

/// What is there of an optional value; nothing counts as zero.
pub open spec fn or_zero(c: Exact, a: Option<Seq<Term>>, i: int) -> real {
    match a {
        Some(a) => c.value(a[i]),
        None => 0int as real,
    }
}

/// A product with a bias in every row and a residual.
pub proof fn law_affine_terms_are_sums(
    c: Exact,
    x: Seq<Term>,
    w: Seq<Term>,
    bias: Option<Seq<Term>>,
    residual: Option<Seq<Term>>,
    rows: nat,
    inner: nat,
    cols: nat,
    row: int,
    col: int,
)
    requires
        0 <= row < rows,
        0 <= col < cols,
    ensures
        affine_terms(x, w, bias, residual, rows, inner, cols).len() == rows * cols,
        c.entry(affine_terms(x, w, bias, residual, rows, inner, cols), cols as int, row, col)
            == sum(
            inner,
            |k: int| c.entry(x, inner as int, row, k) * c.entry(w, cols as int, k, col),
        ) + or_zero(c, bias, col) + or_zero(c, residual, row * cols + col),
{
    let n = cols as int;
    let plain = product(x, w, rows, inner, cols);
    law_products_are_sums(c, x, w, rows, inner, cols, row, col);
    lemma_position_in_range(row, col, rows as int, n);
    let biased = match bias {
        Some(b) => zip_by_rows(BinaryFn::Add, plain, b, cols),
        None => plain,
    };
    if let Some(b) = bias {
        lemma_zip_by_rows(c, BinaryFn::Add, plain, b, rows, cols, row, col);
    }
    if let Some(r) = residual {
        assert(zip(BinaryFn::Add, biased, r)[row * n + col] == Term::Zip(
            BinaryFn::Add,
            Box::new(biased[row * n + col]),
            Box::new(r[row * n + col]),
        ));
    }
}

/// What an activation makes of an element.
pub proof fn law_activations_apply_to_elements(
    c: Exact,
    activation: Activation,
    x: Seq<Term>,
    i: int,
)
    requires
        0 <= i < x.len(),
    ensures
        activated(activation, x).len() == x.len(),
        c.value(activated(activation, x)[i]) == c.activation(activation, c.value(x[i])),
{
}

/// A layer adds up its inputs times its weights, adds its bias and the residual, and applies
/// its activation.
pub proof fn law_layers_are_affine_and_activated(
    c: Exact,
    layer: Linear,
    runtime: CudaRuntime,
    input: Matrix,
    residual: Option<Seq<Term>>,
    row: int,
    col: int,
)
    requires
        0 <= row < input.rows,
        0 <= col < layer.weights.cols,
    ensures
        ({
            let cols = layer.weights.cols as int;
            let before = sum(
                input.cols as nat,
                |k: int|
                    c.entry(runtime.matrix(input), input.cols as int, row, k) * c.entry(
                        runtime.matrix(layer.weights),
                        cols,
                        k,
                        col,
                    ),
            ) + (match layer.bias {
                Some(b) => c.value(runtime.vector(b)[col]),
                None => 0int as real,
            }) + or_zero(c, residual, row * cols + col);
            c.entry(
                activated(layer.activation, layer.affine_of(runtime, input, residual)),
                cols,
                row,
                col,
            ) == c.activation(layer.activation, before)
        }),
{
    let rows = input.rows as nat;
    let inner = input.cols as nat;
    let cols = layer.weights.cols as nat;
    let x = runtime.matrix(input);
    let w = runtime.matrix(layer.weights);
    law_affine_terms_are_sums(
        c,
        x,
        w,
        layer.bias_terms(runtime),
        residual,
        rows,
        inner,
        cols,
        row,
        col,
    );
    lemma_position_in_range(row, col, rows as int, cols as int);
    law_activations_apply_to_elements(
        c,
        layer.activation,
        layer.affine_of(runtime, input, residual),
        row * cols + col,
    );
    lemma_sum_equal(
        inner,
        |k: int| c.entry(x, inner as int, row, k) * c.entry(w, cols as int, k, col),
        |k: int|
            c.entry(runtime.matrix(input), input.cols as int, row, k) * c.entry(
                runtime.matrix(layer.weights),
                layer.weights.cols as int,
                k,
                col,
            ),
    );
}

/// The gradient of a weight adds up, over all rows, the input times the gradient.
pub proof fn law_weight_gradients_are_sums(
    c: Exact,
    x: Seq<Term>,
    gradient: Seq<Term>,
    rows: nat,
    inner: nat,
    cols: nat,
    k: int,
    col: int,
)
    requires
        0 <= k < inner,
        0 <= col < cols,
    ensures
        weight_gradient_terms(x, gradient, rows, inner, cols).len() == inner * cols,
        c.entry(weight_gradient_terms(x, gradient, rows, inner, cols), cols as int, k, col) == sum(
            rows,
            |r: int| c.entry(x, inner as int, r, k) * c.entry(gradient, cols as int, r, col),
        ),
{
    let t = transpose(x, rows, inner);
    law_products_are_sums(c, t, gradient, inner, rows, cols, k, col);
    let f = |r: int| c.entry(t, rows as int, k, r) * c.entry(gradient, cols as int, r, col);
    let g = |r: int| c.entry(x, inner as int, r, k) * c.entry(gradient, cols as int, r, col);
    assert forall|r: int| 0 <= r < rows implies #[trigger] f(r) == g(r) by {
        law_transposes_swap_rows_and_columns(x, rows, inner, r, k);
    }
    lemma_sum_equal(rows, f, g);
    lemma_sum_equal(
        rows,
        |r: int| c.entry(t, rows as int, k, r) * c.entry(gradient, cols as int, r, col),
        f,
    );
    lemma_sum_equal(
        rows,
        g,
        |r: int| c.entry(x, inner as int, r, k) * c.entry(gradient, cols as int, r, col),
    );
}

/// The gradient of a bias adds up the gradient of its column.
pub proof fn law_bias_gradients_are_sums(c: Exact, gradient: Seq<Term>, rows: nat, cols: nat, col: int)
    requires
        0 <= col < cols,
    ensures
        bias_gradient_terms(gradient, rows, cols).len() == cols,
        c.value(bias_gradient_terms(gradient, rows, cols)[col]) == sum(
            rows,
            |r: int| c.entry(gradient, cols as int, r, col),
        ),
{
    let t = transpose(gradient, rows, cols);
    law_row_totals_are_sums(c, t, cols, rows, col);
    assert(bias_gradient_terms(gradient, rows, cols) == row_totals(t, cols, rows));
    let f = |k: int| c.entry(t, rows as int, col, k);
    let g = |r: int| c.entry(gradient, cols as int, r, col);
    assert forall|r: int| 0 <= r < rows implies #[trigger] f(r) == g(r) by {
        law_transposes_swap_rows_and_columns(gradient, rows, cols, r, col);
    }
    lemma_sum_equal(rows, f, g);
    lemma_sum_equal(rows, |k: int| c.entry(t, rows as int, col, k), f);
    lemma_sum_equal(rows, g, |r: int| c.entry(gradient, cols as int, r, col));
}

/// The gradient of an input adds up, over all outputs, the gradient times the weight.
pub proof fn law_input_gradients_are_sums(
    c: Exact,
    gradient: Seq<Term>,
    w: Seq<Term>,
    rows: nat,
    inner: nat,
    cols: nat,
    row: int,
    k: int,
)
    requires
        0 <= row < rows,
        0 <= k < inner,
    ensures
        input_gradient_terms(gradient, w, rows, inner, cols).len() == rows * inner,
        c.entry(input_gradient_terms(gradient, w, rows, inner, cols), inner as int, row, k) == sum(
            cols,
            |j: int| c.entry(gradient, cols as int, row, j) * c.entry(w, cols as int, k, j),
        ),
{
    let t = transpose(w, inner, cols);
    law_products_are_sums(c, gradient, t, rows, cols, inner, row, k);
    let f = |j: int| c.entry(gradient, cols as int, row, j) * c.entry(t, inner as int, j, k);
    let g = |j: int| c.entry(gradient, cols as int, row, j) * c.entry(w, cols as int, k, j);
    assert forall|j: int| 0 <= j < cols implies #[trigger] f(j) == g(j) by {
        law_transposes_swap_rows_and_columns(w, inner, cols, k, j);
    }
    lemma_sum_equal(cols, f, g);
    lemma_sum_equal(
        cols,
        |j: int| c.entry(gradient, cols as int, row, j) * c.entry(t, inner as int, j, k),
        f,
    );
    lemma_sum_equal(
        cols,
        g,
        |j: int| c.entry(gradient, cols as int, row, j) * c.entry(w, cols as int, k, j),
    );
}

/// Before the activation a gradient is multiplied by the activation's derivative.
pub proof fn law_gradients_pass_activations(
    c: Exact,
    activation: Activation,
    before: Seq<Term>,
    gradient: Seq<Term>,
    i: int,
)
    requires
        0 <= i < gradient.len(),
        before.len() == gradient.len(),
    ensures
        pre_activation_gradient(activation, before, gradient).len() == gradient.len(),
        c.value(pre_activation_gradient(activation, before, gradient)[i]) == c.value(gradient[i])
            * c.slope(activation, c.value(before[i])),
{
    if activation is Identity {
        let x = c.value(gradient[i]);
        assert(x * (1int as real) == x) by (nonlinear_arith);
    } else {
        reveal_with_fuel(crate::cuda::meaning::Reading::read, 3);
    }
}

/// The samples of a batch, one after the other: each is absorbed on its own, and between two
/// of them the gradients stay.
pub open spec fn batch(
    layer: Linear,
    befores: Seq<CudaRuntime>,
    afters: Seq<CudaRuntime>,
    states: Seq<NodeTrainState>,
    inputs: Seq<Seq<Term>>,
    gradients: Seq<Seq<Term>>,
    rows: Seq<nat>,
) -> bool {
    let n = inputs.len() as int;
    &&& n > 0
    &&& befores.len() == n && afters.len() == n && gradients.len() == n && rows.len() == n
    &&& states.len() == n + 1
    &&& states[0].parameters@[0].gradient is None
    &&& states[0].parameters@[1].gradient is None
    &&& forall|j: int|
        #![trigger inputs[j]]
        0 <= j < n ==> layer.absorbed(
            befores[j],
            afters[j],
            states[j],
            states[j + 1],
            inputs[j],
            gradients[j],
            rows[j],
        )
    &&& forall|j: int, p: int|
        #![trigger states[j].parameters@[p]]
        0 < j < n && 0 <= p < 2 ==> slot_terms(states[j].parameters@[p].gradient, befores[j])
            == slot_terms(states[j].parameters@[p].gradient, afters[j - 1])
}

/// After a batch the gradients hold the sums of the samples' gradients: for a weight, over all
/// samples and rows, the input times the gradient; for a bias, over all samples and rows, the
/// gradient.
pub proof fn law_batches_add_up(
    c: Exact,
    layer: Linear,
    befores: Seq<CudaRuntime>,
    afters: Seq<CudaRuntime>,
    states: Seq<NodeTrainState>,
    inputs: Seq<Seq<Term>>,
    gradients: Seq<Seq<Term>>,
    rows: Seq<nat>,
    k: int,
    col: int,
)
    requires
        batch(layer, befores, afters, states, inputs, gradients, rows),
        0 <= k < layer.weights.rows,
        0 <= col < layer.weights.cols,
    ensures
        ({
            let height = layer.weights.rows as int;
            let cols = layer.weights.cols as int;
            let held = slot_terms(states.last().parameters@[0].gradient, afters.last());
            &&& held is Some
            &&& held->0.len() == height * cols
            &&& c.entry(held->0, cols, k, col) == sum(
                inputs.len(),
                |j: int|
                    sum(
                        rows[j],
                        |r: int|
                            c.entry(inputs[j], height, r, k) * c.entry(gradients[j], cols, r, col),
                    ),
            )
        }),
        layer.bias is Some ==> ({
            let cols = layer.weights.cols as int;
            let held = slot_terms(states.last().parameters@[1].gradient, afters.last());
            &&& held is Some
            &&& held->0.len() == cols
            &&& c.value(held->0[col]) == sum(
                inputs.len(),
                |j: int| sum(rows[j], |r: int| c.entry(gradients[j], cols, r, col)),
            )
        }),
    decreases inputs.len(),
{
    let n = inputs.len() as int;
    let height = layer.weights.rows as int;
    let cols = layer.weights.cols as int;
    let weight = |j: int|
        sum(
            rows[j],
            |r: int| c.entry(inputs[j], height, r, k) * c.entry(gradients[j], cols, r, col),
        );
    let bias = |j: int| sum(rows[j], |r: int| c.entry(gradients[j], cols, r, col));
    let last = n - 1;
    assert(layer.absorbed(
        befores[last],
        afters[last],
        states[last],
        states[n],
        inputs[last],
        gradients[last],
        rows[last],
    )) by {
        assert(inputs[last] == inputs[last]);
    }
    assert(states.last() == states[n]);
    assert(afters.last() == afters[last]);
    lemma_position_in_range(k, col, height, cols);
    law_weight_gradients_are_sums(
        c,
        inputs[last],
        gradients[last],
        rows[last],
        height as nat,
        cols as nat,
        k,
        col,
    );
    lemma_sum_equal(
        rows[last],
        |r: int| c.entry(inputs[last], height, r, k) * c.entry(gradients[last], cols, r, col),
        |r: int|
            c.entry(inputs[last], layer.weights.rows as int, r, k) * c.entry(
                gradients[last],
                layer.weights.cols as int,
                r,
                col,
            ),
    );
    law_bias_gradients_are_sums(c, gradients[last], rows[last], cols as nat, col);
    lemma_sum_equal(
        rows[last],
        |r: int| c.entry(gradients[last], cols, r, col),
        |r: int| c.entry(gradients[last], layer.weights.cols as int, r, col),
    );
    let sample = weight_gradient_terms(
        inputs[last],
        gradients[last],
        rows[last],
        height as nat,
        cols as nat,
    );
    let shift = bias_gradient_terms(gradients[last], rows[last], cols as nat);
    assert(c.entry(sample, cols, k, col) == weight(last));
    assert(c.value(shift[col]) == bias(last));
    if n > 1 {
        let fewer = inputs.drop_last();
        assert(batch(
            layer,
            befores.drop_last(),
            afters.drop_last(),
            states.drop_last(),
            fewer,
            gradients.drop_last(),
            rows.drop_last(),
        )) by {
            assert forall|j: int| #![trigger fewer[j]] 0 <= j < n - 1 implies layer.absorbed(
                befores.drop_last()[j],
                afters.drop_last()[j],
                states.drop_last()[j],
                states.drop_last()[j + 1],
                fewer[j],
                gradients.drop_last()[j],
                rows.drop_last()[j],
            ) by {
                assert(fewer[j] == inputs[j]);
            }
            assert forall|j: int, p: int|
                #![trigger states.drop_last()[j].parameters@[p]]
                0 < j < n - 1 && 0 <= p < 2 implies slot_terms(
                states.drop_last()[j].parameters@[p].gradient,
                befores.drop_last()[j],
            ) == slot_terms(
                states.drop_last()[j].parameters@[p].gradient,
                afters.drop_last()[j - 1],
            ) by {
                assert(states[j].parameters@[p] == states.drop_last()[j].parameters@[p]);
            }
        }
        law_batches_add_up(
            c,
            layer,
            befores.drop_last(),
            afters.drop_last(),
            states.drop_last(),
            fewer,
            gradients.drop_last(),
            rows.drop_last(),
            k,
            col,
        );
        assert(states.drop_last().last() == states[last]);
        assert(afters.drop_last().last() == afters[last - 1]);
        assert(slot_terms(states[last].parameters@[0].gradient, befores[last]) == slot_terms(
            states[last].parameters@[0].gradient,
            afters[last - 1],
        ));
        assert(slot_terms(states[last].parameters@[1].gradient, befores[last]) == slot_terms(
            states[last].parameters@[1].gradient,
            afters[last - 1],
        ));
        let first = |j: int|
            sum(
                rows.drop_last()[j],
                |r: int|
                    c.entry(fewer[j], height, r, k) * c.entry(
                        gradients.drop_last()[j],
                        cols,
                        r,
                        col,
                    ),
            );
        assert forall|j: int| 0 <= j < n - 1 implies #[trigger] first(j) == weight(j) by {
            lemma_sum_equal(
                rows[j],
                |r: int|
                    c.entry(fewer[j], height, r, k) * c.entry(
                        gradients.drop_last()[j],
                        cols,
                        r,
                        col,
                    ),
                |r: int| c.entry(inputs[j], height, r, k) * c.entry(gradients[j], cols, r, col),
            );
        }
        lemma_sum_equal((n - 1) as nat, first, weight);
        let second = |j: int|
            sum(rows.drop_last()[j], |r: int| c.entry(gradients.drop_last()[j], cols, r, col));
        assert forall|j: int| 0 <= j < n - 1 implies #[trigger] second(j) == bias(j) by {
            lemma_sum_equal(
                rows[j],
                |r: int| c.entry(gradients.drop_last()[j], cols, r, col),
                |r: int| c.entry(gradients[j], cols, r, col),
            );
        }
        lemma_sum_equal((n - 1) as nat, second, bias);
        let held = slot_terms(states[last].parameters@[0].gradient, befores[last])->0;
        assert(c.entry(held, cols, k, col) == sum((n - 1) as nat, weight));
        let more = zip(BinaryFn::Add, held, sample);
        assert(slot_terms(states[n].parameters@[0].gradient, afters[last]) == Some(more));
        assert(more[k * cols + col] == Term::Zip(
            BinaryFn::Add,
            Box::new(held[k * cols + col]),
            Box::new(sample[k * cols + col]),
        ));
        if layer.bias is Some {
            let kept = slot_terms(states[last].parameters@[1].gradient, befores[last])->0;
            assert(c.value(kept[col]) == sum((n - 1) as nat, bias));
            let raised = zip(BinaryFn::Add, kept, shift);
            assert(slot_terms(states[n].parameters@[1].gradient, afters[last]) == Some(raised));
            assert(raised[col] == Term::Zip(
                BinaryFn::Add,
                Box::new(kept[col]),
                Box::new(shift[col]),
            ));
        }
    } else {
        assert(sum(0, weight) == 0int as real);
        assert(sum(0, bias) == 0int as real);
    }
    assert(sum(n as nat, weight) == sum((n - 1) as nat, weight) + weight(n - 1));
    assert(sum(n as nat, bias) == sum((n - 1) as nat, bias) + bias(n - 1));
}

/// An optimizer step moves a parameter against its velocity, by the learning rate; the
/// velocity keeps its momentum and takes up the mean gradient of the batch. A first velocity
/// starts from zero.
pub proof fn law_steps_follow_the_mean_gradient(
    c: Exact,
    layer: Linear,
    before: CudaRuntime,
    after: CudaRuntime,
    start: NodeTrainState,
    end: NodeTrainState,
    config: LearnConfig,
    i: int,
)
    requires
        layer.moved(before, after, start, end, config),
        layer.trains_with(before, start),
        before.wf(),
        layer.batch_ready(start),
        config.valid(),
    ensures
        ({
            let gradient = slot_terms(start.parameters@[0].gradient, before);
            let velocity = slot_terms(start.parameters@[0].velocity, before);
            let moved = number(config.momentum) * or_zero(c, velocity, i) + or_zero(c, gradient, i)
                / (config.batch_len as int as real);
            0 <= i < before.matrix(layer.weights).len() ==> {
                &&& or_zero(c, slot_terms(end.parameters@[0].velocity, after), i) == moved
                &&& c.value(after.matrix(layer.weights)[i]) == c.value(
                    before.matrix(layer.weights)[i],
                ) - c.scalar(config.learning_rate.expression()) * moved
            }
        }),
        layer.bias matches Some(b) ==> ({
            let gradient = slot_terms(start.parameters@[1].gradient, before);
            let velocity = slot_terms(start.parameters@[1].velocity, before);
            let moved = number(config.momentum) * or_zero(c, velocity, i) + or_zero(c, gradient, i)
                / (config.batch_len as int as real);
            0 <= i < before.vector(b).len() ==> {
                &&& or_zero(c, slot_terms(end.parameters@[1].velocity, after), i) == moved
                &&& c.value(after.vector(b)[i]) == c.value(before.vector(b)[i]) - c.scalar(
                    config.learning_rate.expression(),
                ) * moved
            }
        }),
{
    let g0 = slot_terms(start.parameters@[0].gradient, before);
    let v0 = slot_terms(start.parameters@[0].velocity, before);
    lemma_moved(
        c,
        before.matrix(layer.weights),
        g0->0,
        v0,
        slot_terms(end.parameters@[0].velocity, after)->0,
        after.matrix(layer.weights),
        config,
        i,
    );
    if let Some(b) = layer.bias {
        let g1 = slot_terms(start.parameters@[1].gradient, before);
        let v1 = slot_terms(start.parameters@[1].velocity, before);
        lemma_moved(
            c,
            before.vector(b),
            g1->0,
            v1,
            slot_terms(end.parameters@[1].velocity, after)->0,
            after.vector(b),
            config,
            i,
        );
    }
}

/// A batch and the step after it: the weights move against the mean of the samples'
/// gradients, and so does the bias. The velocity keeps its momentum.
pub proof fn law_learning_follows_the_samples(
    c: Exact,
    layer: Linear,
    befores: Seq<CudaRuntime>,
    afters: Seq<CudaRuntime>,
    states: Seq<NodeTrainState>,
    inputs: Seq<Seq<Term>>,
    gradients: Seq<Seq<Term>>,
    rows: Seq<nat>,
    before: CudaRuntime,
    after: CudaRuntime,
    end: NodeTrainState,
    config: LearnConfig,
    k: int,
    col: int,
)
    requires
        batch(layer, befores, afters, states, inputs, gradients, rows),
        forall|p: int|
            #![trigger states.last().parameters@[p]]
            0 <= p < 2 ==> slot_terms(states.last().parameters@[p].gradient, before) == slot_terms(
                states.last().parameters@[p].gradient,
                afters.last(),
            ),
        layer.moved(before, after, states.last(), end, config),
        layer.trains_with(before, states.last()),
        layer.batch_ready(states.last()),
        before.wf(),
        config.valid(),
        config.batch_len == inputs.len(),
        0 <= k < layer.weights.rows,
        0 <= col < layer.weights.cols,
    ensures
        ({
            let height = layer.weights.rows as int;
            let cols = layer.weights.cols as int;
            let i = k * cols + col;
            let velocity = or_zero(c, slot_terms(states.last().parameters@[0].velocity, before), i);
            let mean = sum(
                inputs.len(),
                |j: int|
                    sum(
                        rows[j],
                        |r: int|
                            c.entry(inputs[j], height, r, k) * c.entry(gradients[j], cols, r, col),
                    ),
            ) / (inputs.len() as int as real);
            c.entry(after.matrix(layer.weights), cols, k, col) == c.entry(
                before.matrix(layer.weights),
                cols,
                k,
                col,
            ) - c.scalar(config.learning_rate.expression()) * (number(config.momentum) * velocity
                + mean)
        }),
        layer.bias matches Some(b) ==> ({
            let cols = layer.weights.cols as int;
            let velocity = or_zero(
                c,
                slot_terms(states.last().parameters@[1].velocity, before),
                col,
            );
            let mean = sum(
                inputs.len(),
                |j: int| sum(rows[j], |r: int| c.entry(gradients[j], cols, r, col)),
            ) / (inputs.len() as int as real);
            c.value(after.vector(b)[col]) == c.value(before.vector(b)[col]) - c.scalar(
                config.learning_rate.expression(),
            ) * (number(config.momentum) * velocity + mean)
        }),
{
    law_batches_add_up(c, layer, befores, afters, states, inputs, gradients, rows, k, col);
    let cols = layer.weights.cols as int;
    let start = states.last();
    assert(slot_terms(start.parameters@[0].gradient, before) == slot_terms(
        start.parameters@[0].gradient,
        afters.last(),
    ));
    assert(slot_terms(start.parameters@[1].gradient, before) == slot_terms(
        start.parameters@[1].gradient,
        afters.last(),
    ));
    lemma_position_in_range(k, col, layer.weights.rows as int, cols);
    before.lemma_whole(layer.weights.buffer);
    law_steps_follow_the_mean_gradient(c, layer, before, after, start, end, config, k * cols + col);
    law_steps_follow_the_mean_gradient(c, layer, before, after, start, end, config, col);
    if let Some(b) = layer.bias {
        before.lemma_whole(b.buffer);
    }
}

/// The same for what one parameter and its velocity hold.
proof fn lemma_moved(
    c: Exact,
    parameter: Seq<Term>,
    gradient: Seq<Term>,
    velocity: Option<Seq<Term>>,
    end_velocity: Seq<Term>,
    end: Seq<Term>,
    config: LearnConfig,
    i: int,
)
    requires
        end_velocity == crate::net::linear::velocity_terms(gradient, velocity, config),
        end == crate::net::linear::descended(parameter, end_velocity, config),
        gradient.len() == parameter.len(),
        config.batch_len > 0,
        velocity matches Some(v) ==> v.len() == parameter.len(),
    ensures
        0 <= i < parameter.len() ==> ({
            let moved = number(config.momentum) * or_zero(c, velocity, i) + c.value(gradient[i]) / (
            config.batch_len as int as real);
            &&& c.value(end_velocity[i]) == moved
            &&& c.value(end[i]) == c.value(parameter[i]) - c.scalar(
                config.learning_rate.expression(),
            ) * moved
        }),
{
    if 0 <= i < parameter.len() {
        reveal_with_fuel(crate::cuda::meaning::Reading::read, 4);
        let n = config.batch_len as int as real;
        let one = 1int as real;
        let g = c.value(gradient[i]);
        let m = number(config.momentum);
        let v = or_zero(c, velocity, i);
        let share = one / n;
        let rate = c.scalar(config.learning_rate.expression());
        lemma_quotient(g, n);
        assert(v * m == m * v && m * (0int as real) == 0int as real) by (nonlinear_arith);
        let moved = c.value(end_velocity[i]);
        assert(moved * rate == rate * moved) by (nonlinear_arith);
        let mean = crate::net::linear::mean_terms(gradient, config.batch_len);
        assert(c.value(mean[i]) == g * share);
    }
}

/// Multiplying by a reciprocal is dividing.
pub proof fn lemma_quotient(a: real, n: real)
    requires
        n != 0int as real,
    ensures
        a * ((1int as real) / n) == a / n,
{
    let one = 1int as real;
    let share = one / n;
    let whole = a / n;
    assert(share * n == one && whole * n == a) by (nonlinear_arith)
        requires
            share == one / n,
            whole == a / n,
            n != 0int as real,
    ;
    assert(a * share == whole) by (nonlinear_arith)
        requires
            share * n == one,
            whole * n == a,
            one == 1int as real,
            n != 0int as real,
    ;
}

} // verus!
