//! How parameters lie in a checkpoint.

use vstd::prelude::*;

use crate::cuda::algebra::sum_of;
use crate::cuda::runtime::CudaRuntime;
use crate::net::linear::{Linear, LinearMetadata};
use crate::net::mlp::MlpExecutor;
use crate::net::swiglu::Swiglu;
use crate::net::transformer::inference::InferenceTransformer;
use crate::net::transformer::position::PositionEncoding;

verus! {

/// Sizes one after the other add up.
proof fn lemma_sizes_append(a: Seq<usize>, b: Seq<usize>)
    ensures
        sum_of(a + b) == sum_of(a) + sum_of(b),
    decreases b.len(),
{
    if b.len() == 0 {
        assert(a + b =~= a);
    } else {
        lemma_sizes_append(a, b.drop_last());
        assert((a + b).drop_last() =~= a + b.drop_last());
        assert((a + b).last() == b.last());
    }
}

/// The sizes of a layer's parameters.
proof fn lemma_layer_sizes(layer: Linear)
    ensures
        sum_of(layer.parameter_sizes()) == layer.weights.buffer.len + match layer.bias {
            Some(b) => b.buffer.len as int,
            None => 0,
        },
{
    reveal_with_fuel(sum_of, 3);
    let sizes = layer.parameter_sizes();
    match layer.bias {
        Some(b) => {
            assert(sizes.drop_last() =~= seq![layer.weights.buffer.len]);
        },
        None => {
            assert(sizes.drop_last() =~= Seq::empty());
        },
    }
}

/// A layer takes four bytes for every value that it brings to the host: those of the weights
/// first, then those of the bias.
pub proof fn law_layers_take_four_bytes_for_a_value(layer: Linear, runtime: CudaRuntime)
    requires
        layer.wf(runtime),
    ensures
        layer.byte_len() == 4 * sum_of(layer.parameter_sizes()),
        layer.parameters(runtime).len() == layer.parameter_sizes().len(),
        layer.parameters(runtime)[0] == runtime.matrix(layer.weights),
        layer.parameter_sizes()[0] == layer.weights.buffer.len,
        layer.bias matches Some(b) ==> layer.parameters(runtime).len() == 2
            && layer.parameters(runtime)[1] == runtime.vector(b) && layer.parameter_sizes()[1]
            == b.buffer.len,
        layer.bias is None ==> layer.parameters(runtime).len() == 1,
{
    lemma_layer_sizes(layer);
    let n = layer.weights.buffer.len as int;
    assert(layer.weights.rows * layer.weights.cols == n);
}

/// In a layer's description the ranges follow one another without a gap: the weights from the
/// start on, the bias right behind them, up to the bytes that the layer takes.
pub proof fn law_descriptions_leave_no_gap(
    meta: LinearMetadata,
    layer: Linear,
    start: int,
    runtime: CudaRuntime,
)
    requires
        runtime.wf(),
        layer.wf(runtime),
        meta.describes(layer, start),
    ensures
        meta.weights.byte_start == start,
        meta.weights.byte_end - meta.weights.byte_start == 4 * runtime.matrix(layer.weights).len(),
        meta.bias is Some == layer.bias is Some,
        layer.bias matches Some(b) ==> {
            &&& meta.bias->0.byte_start == meta.weights.byte_end
            &&& meta.bias->0.byte_end - meta.bias->0.byte_start == 4 * runtime.vector(b).len()
            &&& meta.bias->0.byte_end == start + layer.byte_len()
        },
        layer.bias is None ==> meta.weights.byte_end == start + layer.byte_len(),
{
    runtime.lemma_whole(layer.weights.buffer);
    if let Some(b) = layer.bias {
        runtime.lemma_whole(b.buffer);
    }
}

/// A stack takes four bytes for every value of its layers.
pub proof fn law_stacks_take_four_bytes_for_a_value(stack: MlpExecutor, runtime: CudaRuntime, n: int)
    requires
        stack.wf(runtime),
        0 <= n <= stack.layers@.len(),
    ensures
        stack.byte_len_of(n) == 4 * sum_of(stack.sizes_of(n)),
    decreases n,
{
    if n > 0 {
        law_stacks_take_four_bytes_for_a_value(stack, runtime, n - 1);
        let layer = stack.layers@[n - 1];
        assert(layer.wf(runtime));
        law_layers_take_four_bytes_for_a_value(layer, runtime);
        lemma_sizes_append(stack.sizes_of(n - 1), layer.parameter_sizes());
    }
}

/// A positional encoding takes four bytes for every value.
pub proof fn law_encodings_take_four_bytes_for_a_value(
    encoding: PositionEncoding,
    runtime: CudaRuntime,
)
    requires
        encoding.wf(runtime),
    ensures
        encoding.byte_len() == 4 * sum_of(encoding.parameter_sizes()),
{
    reveal_with_fuel(sum_of, 2);
    match encoding {
        PositionEncoding::Identity => {},
        PositionEncoding::Additive(values) => {
            assert(encoding.parameter_sizes().drop_last() =~= Seq::empty());
            assert(values.rows * values.cols == values.buffer.len);
        },
    }
}

/// A block takes four bytes for every value: the query, key and value layers, the positional
/// encoding, the stack and the output layer, one after the other.
pub proof fn law_blocks_take_four_bytes_for_a_value<const HEADS: usize, const MASKED: bool>(
    block: InferenceTransformer<HEADS, MASKED>,
    runtime: CudaRuntime,
)
    requires
        block.wf(runtime),
    ensures
        block.offset(0) == 0,
        block.offset(1) == 4 * sum_of(block.attention.qkv.parameter_sizes()),
        block.offset(2) == block.offset(1) + 4 * sum_of(block.position_encoding.parameter_sizes()),
        block.offset(3) == block.offset(2) + 4 * sum_of(block.fcs.executor.parameter_sizes()),
        block.offset(4) == 4 * sum_of(block.parameter_sizes()),
{
    let l = block.attention.qkv.layers;
    let ex = block.fcs.executor;
    law_layers_take_four_bytes_for_a_value(l.query, runtime);
    law_layers_take_four_bytes_for_a_value(l.key, runtime);
    law_layers_take_four_bytes_for_a_value(l.value, runtime);
    law_layers_take_four_bytes_for_a_value(block.output_matrix, runtime);
    law_encodings_take_four_bytes_for_a_value(block.position_encoding, runtime);
    law_stacks_take_four_bytes_for_a_value(ex, runtime, ex.layers@.len() as int);
    let (q, k, v) = (
        l.query.parameter_sizes(),
        l.key.parameter_sizes(),
        l.value.parameter_sizes(),
    );
    lemma_sizes_append(q, k);
    lemma_sizes_append(q + k, v);
    let a = block.attention.qkv.parameter_sizes();
    let p = block.position_encoding.parameter_sizes();
    let f = ex.parameter_sizes();
    lemma_sizes_append(a, p);
    lemma_sizes_append(a + p, f);
    lemma_sizes_append(a + p + f, block.output_matrix.parameter_sizes());
}

/// A stack lists the parameters of its layers in order: after those of the layers before it
/// come a layer's weights, then its bias.
pub proof fn law_stacks_list_their_layers_in_order(
    stack: MlpExecutor,
    runtime: CudaRuntime,
    n: int,
    i: int,
)
    requires
        0 <= i < n <= stack.layers@.len(),
    ensures
        stack.parameters_of(runtime, n).len() == stack.parameter_count_of(n),
        stack.parameter_count_of(i) + stack.layers@[i].parameter_sizes().len()
            <= stack.parameter_count_of(n),
        stack.parameters_of(runtime, n)[stack.parameter_count_of(i) as int] == runtime.matrix(
            stack.layers@[i].weights,
        ),
        stack.layers@[i].bias matches Some(b) ==> stack.parameters_of(
            runtime,
            n,
        )[stack.parameter_count_of(i) as int + 1] == runtime.vector(b),
    decreases n,
{
    let fewer = stack.parameters_of(runtime, n - 1);
    let last = stack.layers@[n - 1].parameters(runtime);
    assert(stack.parameters_of(runtime, n) == fewer + last);
    assert(last.len() == stack.layers@[n - 1].parameter_sizes().len());
    if i < n - 1 {
        law_stacks_list_their_layers_in_order(stack, runtime, n - 1, i);
    } else if n > 1 {
        law_stacks_list_their_layers_in_order(stack, runtime, n - 1, n - 2);
    }
}

/// A block lists its parameters in order: those of the query, key and value layers, of the
/// positional encoding, of the stack and of the output layer.
pub proof fn law_blocks_list_their_parts_in_order<const HEADS: usize, const MASKED: bool>(
    block: InferenceTransformer<HEADS, MASKED>,
    runtime: CudaRuntime,
)
    ensures
        ({
            let l = block.attention.qkv.layers;
            let all = block.parameters(runtime);
            let q = l.query.parameters(runtime).len() as int;
            let k = q + l.key.parameters(runtime).len();
            let v = k + l.value.parameters(runtime).len();
            let p = v + block.position_encoding.parameters(runtime).len();
            let f = p + block.fcs.executor.parameters(runtime).len();
            &&& all.len() == f + block.output_matrix.parameters(runtime).len()
            &&& all.subrange(0, q) == l.query.parameters(runtime)
            &&& all.subrange(q, k) == l.key.parameters(runtime)
            &&& all.subrange(k, v) == l.value.parameters(runtime)
            &&& all.subrange(v, p) == block.position_encoding.parameters(runtime)
            &&& all.subrange(p, f) == block.fcs.executor.parameters(runtime)
            &&& all.subrange(f, all.len() as int) == block.output_matrix.parameters(runtime)
        }),
{
    let l = block.attention.qkv.layers;
    let all = block.parameters(runtime);
    let (a, b, c) = (
        l.query.parameters(runtime),
        l.key.parameters(runtime),
        l.value.parameters(runtime),
    );
    let d = block.position_encoding.parameters(runtime);
    let e = block.fcs.executor.parameters(runtime);
    let g = block.output_matrix.parameters(runtime);
    let q = a.len() as int;
    let k = q + b.len();
    let v = k + c.len();
    let p = v + d.len();
    let f = p + e.len();
    assert(all == (a + b + c) + d + e + g);
    assert(all.subrange(0, q) =~= a);
    assert(all.subrange(q, k) =~= b);
    assert(all.subrange(k, v) =~= c);
    assert(all.subrange(v, p) =~= d);
    assert(all.subrange(p, f) =~= e);
    assert(all.subrange(f, all.len() as int) =~= g);
}

/// A SwiGLU block lists the activated layer's weights first, then those that lead up and down.
pub proof fn law_swiglu_lists_its_layers_in_order(block: Swiglu, runtime: CudaRuntime)
    ensures
        block.parameters(runtime).len() == 3,
        block.parameters(runtime)[0] == runtime.matrix(block.gate.weights),
        block.parameters(runtime)[1] == runtime.matrix(block.up.weights),
        block.parameters(runtime)[2] == runtime.matrix(block.down.weights),
{
}

} // verus!
