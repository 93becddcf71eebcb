//! Every layer of a stack or block takes up samples and learns, in exact arithmetic.

use vstd::prelude::*;

use super::{
    law_bias_gradients_are_sums, law_steps_follow_the_mean_gradient, law_weight_gradients_are_sums,
    or_zero,
};
use crate::cuda::algebra::{zip, Term};
use crate::cuda::arith::lemma_position_in_range;
use crate::cuda::container::{values_of, Matrix};
use crate::cuda::exact::{lemma_sum_equal, sum, Exact};
use crate::cuda::meaning::number;
use crate::cuda::ops::BinaryFn;
use crate::cuda::runtime::CudaRuntime;
use crate::graph::config::LearnConfig;
use crate::graph::state::{NodeTrainState, ParameterBuffer};
use crate::net::linear::{bias_gradient_terms, slot_terms, weight_gradient_terms, Linear};
use crate::net::mlp::MlpExecutor;
use crate::net::transformer::training::TrainingTransformer;

verus! {

/// A layer's parameters moved against their velocities by the learning rate. A velocity keeps
/// its momentum and takes up the mean gradient of the batch.
pub open spec fn follows(
    c: Exact,
    layer: Linear,
    start: NodeTrainState,
    before: CudaRuntime,
    after: CudaRuntime,
    config: LearnConfig,
) -> bool {
    let rate = c.scalar(config.learning_rate.expression());
    let count = config.batch_len as int as real;
    let momentum = number(config.momentum);
    &&& forall|i: int|
        0 <= i < before.matrix(layer.weights).len() ==> #[trigger] c.value(
            after.matrix(layer.weights)[i],
        ) == c.value(before.matrix(layer.weights)[i]) - rate * (momentum * or_zero(
            c,
            slot_terms(start.parameters@[0].velocity, before),
            i,
        ) + or_zero(c, slot_terms(start.parameters@[0].gradient, before), i) / count)
    &&& layer.bias matches Some(b) ==> forall|i: int|
        0 <= i < before.vector(b).len() ==> #[trigger] c.value(after.vector(b)[i]) == c.value(
            before.vector(b)[i],
        ) - rate * (momentum * or_zero(
            c,
            slot_terms(start.parameters@[1].velocity, before),
            i,
        ) + or_zero(c, slot_terms(start.parameters@[1].gradient, before), i) / count)
}

/// A layer that has moved follows its mean gradient in all elements.
proof fn lemma_follows(
    c: Exact,
    layer: Linear,
    start: NodeTrainState,
    end: NodeTrainState,
    before: CudaRuntime,
    after: CudaRuntime,
    config: LearnConfig,
)
    requires
        layer.moved(before, after, start, end, config),
        layer.trains_with(before, start),
        layer.batch_ready(start),
        before.wf(),
        config.valid(),
    ensures
        follows(c, layer, start, before, after, config),
{
    assert forall|i: int| 0 <= i < before.matrix(layer.weights).len() implies #[trigger] c.value(
        after.matrix(layer.weights)[i],
    ) == c.value(before.matrix(layer.weights)[i]) - c.scalar(config.learning_rate.expression()) * (
    number(config.momentum) * or_zero(
        c,
        slot_terms(start.parameters@[0].velocity, before),
        i,
    ) + or_zero(c, slot_terms(start.parameters@[0].gradient, before), i) / (
    config.batch_len as int as real)) by {
        law_steps_follow_the_mean_gradient(c, layer, before, after, start, end, config, i);
    }
    if let Some(b) = layer.bias {
        assert forall|i: int| 0 <= i < before.vector(b).len() implies #[trigger] c.value(
            after.vector(b)[i],
        ) == c.value(before.vector(b)[i]) - c.scalar(config.learning_rate.expression()) * (number(
            config.momentum,
        ) * or_zero(c, slot_terms(start.parameters@[1].velocity, before), i) + or_zero(
            c,
            slot_terms(start.parameters@[1].gradient, before),
            i,
        ) / (config.batch_len as int as real)) by {
            law_steps_follow_the_mean_gradient(c, layer, before, after, start, end, config, i);
        }
    }
}

/// In an optimizer step every layer of a stack follows its mean gradient.
pub proof fn law_stacks_learn_in_every_layer(
    c: Exact,
    stack: MlpExecutor,
    before: CudaRuntime,
    after: CudaRuntime,
    start: Seq<NodeTrainState>,
    end: Seq<NodeTrainState>,
    config: LearnConfig,
    j: int,
)
    requires
        stack.learned(before, after, start, end, config),
        stack.trains_with(before, start),
        stack.layers@[j].batch_ready(start[j]),
        before.wf(),
        config.valid(),
        0 <= j < stack.layers@.len(),
    ensures
        follows(c, stack.layers@[j], start[j], before, after, config),
{
    assert(end[j] == end[j]);
    assert(stack.layers@[j].trains_with(before, start[j]));
    lemma_follows(c, stack.layers@[j], start[j], end[j], before, after, config);
}

/// In an optimizer step every layer of a block follows its mean gradient: those of queries,
/// keys and values, those of the stack, and the output layer.
pub proof fn law_blocks_learn_in_every_layer<const HEADS: usize, const MASKED: bool>(
    c: Exact,
    block: TrainingTransformer<HEADS, MASKED>,
    end: TrainingTransformer<HEADS, MASKED>,
    before: CudaRuntime,
    after: CudaRuntime,
    config: LearnConfig,
    j: int,
)
    requires
        block.moved(before, after, end, config),
        block.sound(before),
        block.batch_ready(),
        before.wf(),
        config.valid(),
    ensures
        ({
            let l = block.first.attention.attention.qkv.layers;
            let t = block.first.attention.training;
            let ex = block.second.fcs.executor;
            &&& follows(c, l.query, t.query, before, after, config)
            &&& follows(c, l.key, t.key, before, after, config)
            &&& follows(c, l.value, t.value, before, after, config)
            &&& 0 <= j < ex.layers@.len() ==> follows(
                c,
                ex.layers@[j],
                block.second.fcs.training@[j],
                before,
                after,
                config,
            )
            &&& follows(
                c,
                block.output_matrix,
                block.output_training,
                before,
                after,
                config,
            )
        }),
{
    let l = block.first.attention.attention.qkv.layers;
    let t = block.first.attention.training;
    let e = end.first.attention.training;
    let ex = block.second.fcs.executor;
    lemma_follows(c, l.query, t.query, e.query, before, after, config);
    lemma_follows(c, l.key, t.key, e.key, before, after, config);
    lemma_follows(c, l.value, t.value, e.value, before, after, config);
    lemma_follows(
        c,
        block.output_matrix,
        block.output_training,
        end.output_training,
        before,
        after,
        config,
    );
    if 0 <= j < ex.layers@.len() {
        let start = block.second.fcs.training@[j];
        let last = end.second.fcs.training@[j];
        assert(ex.layers@[j].trains_with(before, start));
        lemma_follows(c, ex.layers@[j], start, last, before, after, config);
    }
}

/// What a gradient slot holds for an element of a matrix; an empty one holds nothing.
pub open spec fn held(
    c: Exact,
    slot: Option<ParameterBuffer>,
    runtime: CudaRuntime,
    cols: int,
    row: int,
    col: int,
) -> real {
    or_zero(c, slot_terms(slot, runtime), row * cols + col)
}

/// A sample was added to a layer's gradients: to that of a weight, over all rows, the input
/// times the gradient; to that of a bias, over all rows, the gradient.
pub open spec fn gained(
    c: Exact,
    layer: Linear,
    start: NodeTrainState,
    end: NodeTrainState,
    before: CudaRuntime,
    after: CudaRuntime,
    x: Seq<Term>,
    g: Seq<Term>,
    rows: nat,
) -> bool {
    let height = layer.weights.rows as int;
    let cols = layer.weights.cols as int;
    &&& forall|k: int, col: int|
        0 <= k < height && 0 <= col < cols ==> #[trigger] held(
            c,
            end.parameters@[0].gradient,
            after,
            cols,
            k,
            col,
        ) == held(c, start.parameters@[0].gradient, before, cols, k, col) + sum(
            rows,
            |r: int| c.entry(x, height, r, k) * c.entry(g, cols, r, col),
        )
    &&& layer.bias is Some ==> forall|col: int|
        0 <= col < cols ==> #[trigger] held(c, end.parameters@[1].gradient, after, cols, 0, col)
            == held(c, start.parameters@[1].gradient, before, cols, 0, col) + sum(
            rows,
            |r: int| c.entry(g, cols, r, col),
        )
}

/// A layer that has absorbed a sample has gained it in all elements.
proof fn lemma_gained(
    c: Exact,
    layer: Linear,
    start: NodeTrainState,
    end: NodeTrainState,
    before: CudaRuntime,
    after: CudaRuntime,
    x: Seq<Term>,
    g: Seq<Term>,
    rows: nat,
)
    requires
        layer.absorbed(before, after, start, end, x, g, rows),
        layer.trains_with(before, start),
        before.wf(),
    ensures
        gained(c, layer, start, end, before, after, x, g, rows),
{
    let height = layer.weights.rows as int;
    let cols = layer.weights.cols as int;
    let sample = weight_gradient_terms(x, g, rows, height as nat, cols as nat);
    let shift = bias_gradient_terms(g, rows, cols as nat);
    let old0 = slot_terms(start.parameters@[0].gradient, before);
    let old1 = slot_terms(start.parameters@[1].gradient, before);
    assert forall|k: int, col: int| 0 <= k < height && 0 <= col < cols implies #[trigger] held(
        c,
        end.parameters@[0].gradient,
        after,
        cols,
        k,
        col,
    ) == held(c, start.parameters@[0].gradient, before, cols, k, col) + sum(
        rows,
        |r: int| c.entry(x, height, r, k) * c.entry(g, cols, r, col),
    ) by {
        law_weight_gradients_are_sums(c, x, g, rows, height as nat, cols as nat, k, col);
        lemma_sum_equal(
            rows,
            |r: int|
                c.entry(x, height as nat as int, r, k) * c.entry(g, cols as nat as int, r, col),
            |r: int| c.entry(x, height, r, k) * c.entry(g, cols, r, col),
        );
        lemma_position_in_range(k, col, height, cols);
        if old0 is Some {
            assert(old0->0.len() == height * cols);
            let more = zip(BinaryFn::Add, old0->0, sample);
            assert(more[k * cols + col] == Term::Zip(
                BinaryFn::Add,
                Box::new(old0->0[k * cols + col]),
                Box::new(sample[k * cols + col]),
            ));
        }
    }
    if layer.bias is Some {
        assert forall|col: int| 0 <= col < cols implies #[trigger] held(
            c,
            end.parameters@[1].gradient,
            after,
            cols,
            0,
            col,
        ) == held(c, start.parameters@[1].gradient, before, cols, 0, col) + sum(
            rows,
            |r: int| c.entry(g, cols, r, col),
        ) by {
            law_bias_gradients_are_sums(c, g, rows, cols as nat, col);
            lemma_sum_equal(
                rows,
                |r: int| c.entry(g, cols as nat as int, r, col),
                |r: int| c.entry(g, cols, r, col),
            );
            assert(0 * cols + col == col);
            if old1 is Some {
                assert(old1->0.len() == cols);
                let more = zip(BinaryFn::Add, old1->0, shift);
                assert(more[col] == Term::Zip(
                    BinaryFn::Add,
                    Box::new(old1->0[col]),
                    Box::new(shift[col]),
                ));
            }
        }
    }
}

/// A backward pass through a stack adds the sample to the gradients of every layer, with the
/// input that the layer had and the gradient before its activation.
pub proof fn law_stacks_gain_in_every_layer(
    c: Exact,
    stack: MlpExecutor,
    before: CudaRuntime,
    after: CudaRuntime,
    layer_inputs: Seq<Matrix>,
    output_gradient: Matrix,
    start: Seq<NodeTrainState>,
    end: Seq<NodeTrainState>,
    r: Matrix,
    j: int,
)
    requires
        stack.backpropagated(before, after, layer_inputs, output_gradient, start, end, r),
        stack.trains_with(before, start),
        before.wf(),
        0 <= j < stack.layers@.len(),
        layer_inputs.len() == stack.layers@.len(),
    ensures
        gained(
            c,
            stack.layers@[j],
            start[j],
            end[j],
            before,
            after,
            before.matrix(layer_inputs[j]),
            stack.inner_gradient(
                before,
                values_of(before, layer_inputs),
                output_gradient.rows as nat,
                before.matrix(output_gradient),
                j,
            ),
            output_gradient.rows as nat,
        ),
{
    assert(end[j] == end[j]);
    assert(stack.layers@[j].trains_with(before, start[j]));
    assert(values_of(before, layer_inputs)[j] == before.matrix(layer_inputs[j]));
    lemma_gained(
        c,
        stack.layers@[j],
        start[j],
        end[j],
        before,
        after,
        before.matrix(layer_inputs[j]),
        stack.inner_gradient(
            before,
            values_of(before, layer_inputs),
            output_gradient.rows as nat,
            before.matrix(output_gradient),
            j,
        ),
        output_gradient.rows as nat,
    );
}

/// A backward pass through a block adds the sample to the gradients of every layer: to the
/// output layer's with the encoded rows and the gradient that comes in, to the stack's with
/// the gradient at the second residual, to those of queries, keys and values with the gradient
/// at the first.
pub proof fn law_blocks_gain_in_every_layer<const HEADS: usize, const MASKED: bool>(
    c: Exact,
    block: TrainingTransformer<HEADS, MASKED>,
    end: TrainingTransformer<HEADS, MASKED>,
    before: CudaRuntime,
    after: CudaRuntime,
    gradient: Seq<Term>,
    rows: usize,
    j: int,
)
    requires
        block.absorbed(before, after, end, gradient, rows),
        block.sound(before),
        before.wf(),
        block.first.attention.state->0.input.rows == rows,
    ensures
        ({
            let l = block.first.attention.attention.qkv.layers;
            let t = block.first.attention.training;
            let e = end.first.attention.training;
            let input = block.first.attention.state->0.input;
            let first = block.first_gradient(before, gradient, rows);
            let back = block.first.attention.projection_gradients(before, first);
            let ex = block.second.fcs.executor;
            let inputs = values_of(before, block.second.fcs.layer_inputs@);
            let n = rows as nat;
            let x = before.matrix(input);
            let encoded = block.cache->0.encoded;
            &&& gained(
                c,
                l.query,
                t.query,
                e.query,
                before,
                after,
                x,
                l.query.inner_gradient(before, input, back.query),
                n,
            )
            &&& gained(
                c,
                l.key,
                t.key,
                e.key,
                before,
                after,
                x,
                l.key.inner_gradient(before, input, back.key),
                n,
            )
            &&& gained(
                c,
                l.value,
                t.value,
                e.value,
                before,
                after,
                x,
                l.value.inner_gradient(before, input, back.value),
                n,
            )
            &&& gained(
                c,
                block.output_matrix,
                block.output_training,
                end.output_training,
                before,
                after,
                before.matrix(encoded),
                block.output_matrix.inner_gradient(before, encoded, gradient),
                n,
            )
            &&& 0 <= j < ex.layers@.len() ==> gained(
                c,
                ex.layers@[j],
                block.second.fcs.training@[j],
                end.second.fcs.training@[j],
                before,
                after,
                inputs[j],
                ex.inner_gradient(
                    before,
                    inputs,
                    n,
                    block.second_gradient(before, gradient, rows),
                    j,
                ),
                n,
            )
        }),
{
    let l = block.first.attention.attention.qkv.layers;
    let t = block.first.attention.training;
    let e = end.first.attention.training;
    let input = block.first.attention.state->0.input;
    let first = block.first_gradient(before, gradient, rows);
    let back = block.first.attention.projection_gradients(before, first);
    let ex = block.second.fcs.executor;
    let inputs = values_of(before, block.second.fcs.layer_inputs@);
    let n = rows as nat;
    let x = before.matrix(input);
    let encoded = block.cache->0.encoded;
    let (q, k, v) = (
        l.query.inner_gradient(before, input, back.query),
        l.key.inner_gradient(before, input, back.key),
        l.value.inner_gradient(before, input, back.value),
    );
    lemma_gained(c, l.query, t.query, e.query, before, after, x, q, n);
    lemma_gained(c, l.key, t.key, e.key, before, after, x, k, n);
    lemma_gained(c, l.value, t.value, e.value, before, after, x, v, n);
    lemma_gained(
        c,
        block.output_matrix,
        block.output_training,
        end.output_training,
        before,
        after,
        before.matrix(encoded),
        block.output_matrix.inner_gradient(before, encoded, gradient),
        n,
    );
    if 0 <= j < ex.layers@.len() {
        let start = block.second.fcs.training@[j];
        let last = end.second.fcs.training@[j];
        assert(ex.layers@[j].trains_with(before, start));
        lemma_gained(
            c,
            ex.layers@[j],
            start,
            last,
            before,
            after,
            inputs[j],
            ex.inner_gradient(
                before,
                inputs,
                n,
                block.second_gradient(before, gradient, rows),
                j,
            ),
            n,
        );
    }
}

} // verus!
