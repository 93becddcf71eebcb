//! What stacks of layers compute and how gradients pass them, in exact arithmetic.

use vstd::prelude::*;

use super::{
    law_activations_apply_to_elements, law_affine_terms_are_sums, law_gradients_pass_activations,
    law_input_gradients_are_sums,
};
use crate::cuda::algebra::Term;
use crate::cuda::arith::lemma_position_in_range;
use crate::cuda::exact::{lemma_sum_equal, sum, Exact};
use crate::cuda::meaning::Reading;
use crate::cuda::runtime::CudaRuntime;
use crate::net::linear::{affine_terms, input_gradient_terms, Linear};
use crate::net::mlp::MlpExecutor;

verus! {

/// What a layer adds up for an element: products of the row and a column of weights, and the
/// bias.
pub open spec fn weighed(
    c: Exact,
    layer: Linear,
    runtime: CudaRuntime,
    x: Seq<Term>,
    row: int,
    col: int,
) -> real {
    sum(
        layer.weights.rows as nat,
        |k: int|
            c.entry(x, layer.weights.rows as int, row, k) * c.entry(
                runtime.matrix(layer.weights),
                layer.weights.cols as int,
                k,
                col,
            ),
    ) + (match layer.bias {
        Some(b) => c.value(runtime.vector(b)[col]),
        None => 0int as real,
    })
}

/// An element of a layer's sums with a residual.
proof fn lemma_affine(
    c: Exact,
    layer: Linear,
    runtime: CudaRuntime,
    x: Seq<Term>,
    residual: Option<Seq<Term>>,
    rows: nat,
    row: int,
    col: int,
)
    requires
        0 <= row < rows,
        0 <= col < layer.weights.cols,
    ensures
        affine_terms(
            x,
            runtime.matrix(layer.weights),
            layer.bias_terms(runtime),
            residual,
            rows,
            layer.weights.rows as nat,
            layer.weights.cols as nat,
        ).len() == rows * layer.weights.cols,
        c.entry(
            affine_terms(
                x,
                runtime.matrix(layer.weights),
                layer.bias_terms(runtime),
                residual,
                rows,
                layer.weights.rows as nat,
                layer.weights.cols as nat,
            ),
            layer.weights.cols as int,
            row,
            col,
        ) == weighed(c, layer, runtime, x, row, col) + (match residual {
            Some(r) => c.entry(r, layer.weights.cols as int, row, col),
            None => 0int as real,
        }),
{
    let inner = layer.weights.rows as nat;
    let cols = layer.weights.cols as nat;
    let w = runtime.matrix(layer.weights);
    law_affine_terms_are_sums(
        c,
        x,
        w,
        layer.bias_terms(runtime),
        residual,
        rows,
        inner,
        cols,
        row,
        col,
    );
    lemma_sum_equal(
        inner,
        |k: int| c.entry(x, inner as int, row, k) * c.entry(w, cols as int, k, col),
        |k: int|
            c.entry(x, layer.weights.rows as int, row, k) * c.entry(
                runtime.matrix(layer.weights),
                layer.weights.cols as int,
                k,
                col,
            ),
    );
}

/// A stack computes layer by layer: every layer activates what it adds up of the layer before.
/// The first one starts from the input. Where the residual ends, the value from which it
/// started is added before the activation; nowhere else.
pub proof fn law_stacks_compute_layer_by_layer(
    c: Exact,
    stack: MlpExecutor,
    runtime: CudaRuntime,
    input: Seq<Term>,
    rows: nat,
    i: int,
    row: int,
    col: int,
)
    requires
        stack.shaped(),
        0 <= i < stack.layers@.len(),
        0 <= row < rows,
        0 <= col < stack.layers@[i].weights.cols,
    ensures
        stack.stage(runtime, input, rows, 0) == input,
        c.entry(
            stack.stage(runtime, input, rows, i + 1),
            stack.layers@[i].weights.cols as int,
            row,
            col,
        ) == c.activation(
            stack.layers@[i].activation,
            weighed(
                c,
                stack.layers@[i],
                runtime,
                stack.stage(runtime, input, rows, i),
                row,
                col,
            ) + (match stack.res_range {
                Some(range) => if range.1 == i + 1 {
                    c.entry(
                        stack.stage(runtime, input, rows, range.0 as int),
                        stack.layers@[i].weights.cols as int,
                        row,
                        col,
                    )
                } else {
                    0int as real
                },
                None => 0int as real,
            }),
        ),
{
    let layer = stack.layers@[i];
    let residual = match stack.res_range {
        Some(range) => if range.1 == i + 1 {
            Some(stack.stage(runtime, input, rows, range.0 as int))
        } else {
            None
        },
        None => None,
    };
    let x = stack.stage(runtime, input, rows, i);
    lemma_affine(c, layer, runtime, x, residual, rows, row, col);
    let sums = affine_terms(
        x,
        runtime.matrix(layer.weights),
        layer.bias_terms(runtime),
        residual,
        rows,
        layer.weights.rows as nat,
        layer.weights.cols as nat,
    );
    lemma_position_in_range(row, col, rows as int, layer.weights.cols as int);
    law_activations_apply_to_elements(
        c,
        layer.activation,
        sums,
        row * layer.weights.cols + col,
    );
    assert(stack.stage(runtime, input, rows, i + 1) == crate::net::linear::activated(
        layer.activation,
        sums,
    ));
}

/// Layers that fit one another.
pub open spec fn linked(stack: MlpExecutor) -> bool {
    forall|i: int|
        #![trigger stack.layers@[i]]
        0 <= i < stack.layers@.len() - 1 ==> stack.layers@[i].weights.cols == stack.layers@[i
            + 1].weights.rows
}

/// The gradients between the layers have the shapes of the values there.
proof fn lemma_upstream_len(
    stack: MlpExecutor,
    runtime: CudaRuntime,
    inputs: Seq<Seq<Term>>,
    rows: nat,
    gradient: Seq<Term>,
    i: int,
)
    requires
        stack.shaped(),
        linked(stack),
        0 <= i < stack.layers@.len(),
        gradient.len() == rows * stack.layers@.last().weights.cols,
    ensures
        stack.upstream(runtime, inputs, rows, gradient, i).len() == rows
            * stack.layers@[i].weights.rows,
        stack.upstream(runtime, inputs, rows, gradient, i + 1).len() == rows
            * stack.layers@[i].weights.cols,
{
    assert(stack.layers@[i].weights.cols == stack.layers@[i].weights.cols);
    if i + 1 < stack.layers@.len() {
        assert(stack.layers@[i].weights.cols == stack.layers@[i + 1].weights.rows);
        assert(stack.upstream(runtime, inputs, rows, gradient, i + 1).len() == rows
            * stack.layers@[i + 1].weights.rows);
    }
}

/// Before a layer's activation the gradient is the one after it, times the activation's
/// derivative at what the layer added up of the input that it had, residual included.
pub proof fn law_stacks_pass_gradients_through_activations(
    c: Exact,
    stack: MlpExecutor,
    runtime: CudaRuntime,
    inputs: Seq<Seq<Term>>,
    rows: nat,
    gradient: Seq<Term>,
    i: int,
    row: int,
    col: int,
)
    requires
        stack.shaped(),
        linked(stack),
        0 <= i < stack.layers@.len(),
        gradient.len() == rows * stack.layers@.last().weights.cols,
        0 <= row < rows,
        0 <= col < stack.layers@[i].weights.cols,
    ensures
        stack.upstream(runtime, inputs, rows, gradient, stack.layers@.len() as int) == gradient,
        c.entry(
            stack.inner_gradient(runtime, inputs, rows, gradient, i),
            stack.layers@[i].weights.cols as int,
            row,
            col,
        ) == c.entry(
            stack.upstream(runtime, inputs, rows, gradient, i + 1),
            stack.layers@[i].weights.cols as int,
            row,
            col,
        ) * c.slope(
            stack.layers@[i].activation,
            weighed(c, stack.layers@[i], runtime, inputs[i], row, col) + (match stack.res_range {
                Some(range) => if range.1 == i + 1 {
                    c.entry(
                        inputs[range.0 as int],
                        stack.layers@[i].weights.cols as int,
                        row,
                        col,
                    )
                } else {
                    0int as real
                },
                None => 0int as real,
            }),
        ),
{
    let layer = stack.layers@[i];
    let residual = match stack.res_range {
        Some(range) => if range.1 == i + 1 {
            Some(inputs[range.0 as int])
        } else {
            None
        },
        None => None,
    };
    lemma_affine(c, layer, runtime, inputs[i], residual, rows, row, col);
    lemma_upstream_len(stack, runtime, inputs, rows, gradient, i);
    lemma_position_in_range(row, col, rows as int, layer.weights.cols as int);
    law_gradients_pass_activations(
        c,
        layer.activation,
        stack.pre_activation(runtime, inputs, rows, i),
        stack.upstream(runtime, inputs, rows, gradient, i + 1),
        row * layer.weights.cols + col,
    );
}

/// Before a layer the gradient of a value is what the weights that lead from it carry back.
/// Where the residual starts, the gradient at its end is added; nowhere else.
pub proof fn law_stacks_pass_gradients_through_weights(
    c: Exact,
    stack: MlpExecutor,
    runtime: CudaRuntime,
    inputs: Seq<Seq<Term>>,
    rows: nat,
    gradient: Seq<Term>,
    i: int,
    row: int,
    k: int,
)
    requires
        stack.shaped(),
        0 <= i < stack.layers@.len(),
        0 <= row < rows,
        0 <= k < stack.layers@[i].weights.rows,
    ensures
        c.entry(
            stack.upstream(runtime, inputs, rows, gradient, i),
            stack.layers@[i].weights.rows as int,
            row,
            k,
        ) == sum(
            stack.layers@[i].weights.cols as nat,
            |j: int|
                c.entry(
                    stack.inner_gradient(runtime, inputs, rows, gradient, i),
                    stack.layers@[i].weights.cols as int,
                    row,
                    j,
                ) * c.entry(
                    runtime.matrix(stack.layers@[i].weights),
                    stack.layers@[i].weights.cols as int,
                    k,
                    j,
                ),
        ) + (match stack.res_range {
            Some(range) => if range.0 == i {
                c.entry(
                    stack.inner_gradient(runtime, inputs, rows, gradient, range.1 - 1),
                    stack.layers@[i].weights.rows as int,
                    row,
                    k,
                )
            } else {
                0int as real
            },
            None => 0int as real,
        }),
{
    let layer = stack.layers@[i];
    let inner = layer.weights.rows as nat;
    let cols = layer.weights.cols as nat;
    let w = runtime.matrix(layer.weights);
    let g = stack.inner_gradient(runtime, inputs, rows, gradient, i);
    let through = input_gradient_terms(g, w, rows, inner, cols);
    law_input_gradients_are_sums(c, g, w, rows, inner, cols, row, k);
    lemma_sum_equal(
        cols,
        |j: int| c.entry(g, cols as int, row, j) * c.entry(w, cols as int, k, j),
        |j: int|
            c.entry(
                stack.inner_gradient(runtime, inputs, rows, gradient, i),
                stack.layers@[i].weights.cols as int,
                row,
                j,
            ) * c.entry(
                runtime.matrix(stack.layers@[i].weights),
                stack.layers@[i].weights.cols as int,
                k,
                j,
            ),
    );
    lemma_position_in_range(row, k, rows as int, inner as int);
    if let Some(range) = stack.res_range {
        if range.0 == i {
            let last = stack.inner_gradient(runtime, inputs, rows, gradient, range.1 - 1);
            let at = row * inner + k;
            assert(stack.upstream(runtime, inputs, rows, gradient, i)[at] == Term::Zip(
                crate::cuda::ops::BinaryFn::Add,
                Box::new(through[at]),
                Box::new(last[at]),
            ));
            reveal_with_fuel(Reading::read, 2);
        }
    }
}

} // verus!
