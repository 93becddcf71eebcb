//! Blocks with parameters, at inference.

use vstd::prelude::*;

use super::{lemma_one, lemma_one_held, GraphNode};
use crate::cuda::algebra::Term;
use crate::cuda::container::{ids, Matrix};
use crate::cuda::runtime::CudaRuntime;
use crate::net::linear::{activated, loaded, single, take_single, Linear};
use crate::net::metadata::{HostDataCursor, HostRead};
use crate::net::mlp::InferenceMLP;
use crate::net::swiglu::Swiglu;
use crate::net::transformer::inference::InferenceTransformer;

verus! {

broadcast use crate::cuda::runtime::group_streams;

/// A block that makes its output and then gives its input back exchanges the one for
/// the other.
proof fn lemma_ran_once(
    before: CudaRuntime,
    middle: CudaRuntime,
    after: CudaRuntime,
    own: Set<usize>,
    input: Matrix,
    output: Matrix,
)
    requires
        before.wf(),
        own.subset_of(before.live@),
        before.holds(input),
        !own.contains(input.buffer.id),
        middle.replaced(before, Set::empty(), set![output.buffer.id]),
        middle.holds(output),
        after.shrunk(middle, input.buffer.id),
    ensures
        after.replaced(before, own.union(ids(seq![input])), own.union(ids(seq![output]))),
        own.disjoint(ids(seq![output])),
        after.holds_all(seq![output]),
        after.matrix(output) == middle.matrix(output),
        own.subset_of(after.live@),
        forall|id: usize| #[trigger] own.contains(id) ==> after.mem(id) == before.mem(id),
        before.buffers@.len() <= after.buffers@.len(),
        forall|id: usize|
            #![trigger after.buffers@[id as int]]
            id < before.buffers@.len() ==> after.buffers@[id as int] == before.buffers@[id as int],
{
    let i = input.buffer.id;
    let o = output.buffer.id;
    lemma_one(input);
    assert(set![o].contains(o));
    let taken = own.union(set![i]);
    before.lemma_replaced_nothing(taken);
    assert(Set::<usize>::empty().subset_of(taken));
    middle.lemma_replaced_again(before, before, taken, taken, Set::empty(), set![o]);
    let held1 = taken.difference(Set::empty()).union(set![o]);
    after.lemma_replaced_shrunk(middle, i);
    assert(set![i].subset_of(held1));
    after.lemma_replaced_again(middle, before, taken, held1, set![i], Set::empty());
    let held2 = held1.difference(set![i]).union(Set::empty());
    assert(held2 =~= own.union(set![o]));
    assert(after.buffers@[o as int] == output.buffer.len);
    lemma_one_held(output, after);
    assert forall|id: usize| #[trigger] own.contains(id) implies after.mem(id) == before.mem(id) by {
        assert(before.live@.contains(id));
        assert(middle.mem(id) == before.mem(id));
    }
}

impl GraphNode for Linear {
    open spec fn footprint(self) -> Set<usize> {
        Set::new(|id: usize| self.owns(id))
    }

    open spec fn in_order(self, runtime: CudaRuntime) -> bool {
        self.wf(runtime)
    }

    open spec fn takes(self, runtime: CudaRuntime, inputs: Seq<Matrix>) -> bool {
        inputs.len() == 1 && self.accepts(runtime, inputs[0])
    }

    open spec fn gives(
        self,
        end: Self,
        before: CudaRuntime,
        after: CudaRuntime,
        inputs: Seq<Matrix>,
        outputs: Seq<Matrix>,
    ) -> bool {
        &&& end == self
        &&& forall|id: usize| #[trigger] self.owns(id) ==> after.mem(id) == before.mem(id)
        &&& outputs.len() == 1
        &&& outputs[0].rows == inputs[0].rows
        &&& outputs[0].cols == self.weights.cols
        &&& after.matrix(outputs[0]) == activated(
            self.activation,
            self.affine_of(before, inputs[0], None),
        )
    }

    open spec fn forgets(self, end: Self, before: CudaRuntime, after: CudaRuntime) -> bool {
        end == self && after == before
    }

    open spec fn data(self, runtime: CudaRuntime) -> Seq<Seq<Term>> {
        self.parameters(runtime)
    }

    open spec fn data_sizes(self) -> Seq<usize> {
        self.parameter_sizes()
    }

    fn forward(&mut self, inputs: Vec<Matrix>, runtime: &mut CudaRuntime) -> (r: Vec<Matrix>) {
        let ghost before = *runtime;
        let ghost own = self.footprint();
        let input = take_single(inputs);
        proof {
            lemma_one(input);
        }
        let output = Linear::forward(self, &input, None, runtime, None);
        let ghost middle = *runtime;
        proof {
            middle.lemma_replaced_grown(before, output.buffer.id, None);
            assert(middle.buffers@[input.buffer.id as int] == input.buffer.len);
        }
        runtime.recycle_matrix(input);
        proof {
            lemma_ran_once(before, middle, *runtime, own, input, output);
            assert forall|id: usize| #[trigger] self.owns(id) implies runtime.live@.contains(id)
                && runtime.mem(id) == before.mem(id) by {
                assert(own.contains(id));
            }
            self.lemma_wf_kept(before, *runtime);
        }
        single(output)
    }

    fn clear_cache(&mut self, runtime: &mut CudaRuntime) {
        proof {
            runtime.lemma_replaced_nothing(self.footprint());
        }
    }

    fn get_data(&self, runtime: &mut CudaRuntime) -> (r: Vec<HostRead>) {
        Linear::get_data(self, runtime)
    }

    fn set_data(&mut self, data: &mut HostDataCursor, runtime: &mut CudaRuntime) {
        let ghost before = *runtime;
        let ghost source = *data;
        Linear::set_data(self, data, runtime);
        proof {
            self.lemma_restored(before, *runtime, source, *data);
            self.lemma_wf_kept(before, *runtime);
        }
    }
}

impl GraphNode for Swiglu {
    open spec fn footprint(self) -> Set<usize> {
        Set::new(|id: usize| self.owns(id))
    }

    open spec fn in_order(self, runtime: CudaRuntime) -> bool {
        self.wf(runtime)
    }

    open spec fn takes(self, runtime: CudaRuntime, inputs: Seq<Matrix>) -> bool {
        inputs.len() == 1 && self.accepts(runtime, inputs[0])
    }

    open spec fn gives(
        self,
        end: Self,
        before: CudaRuntime,
        after: CudaRuntime,
        inputs: Seq<Matrix>,
        outputs: Seq<Matrix>,
    ) -> bool {
        &&& end == self
        &&& forall|id: usize| #[trigger] self.owns(id) ==> after.mem(id) == before.mem(id)
        &&& outputs.len() == 1
        &&& outputs[0].rows == inputs[0].rows
        &&& outputs[0].cols == self.down.weights.cols
        &&& after.matrix(outputs[0]) == self.image(
            before,
            before.matrix(inputs[0]),
            inputs[0].rows as nat,
        )
    }

    open spec fn forgets(self, end: Self, before: CudaRuntime, after: CudaRuntime) -> bool {
        end == self && after == before
    }

    open spec fn data(self, runtime: CudaRuntime) -> Seq<Seq<Term>> {
        self.parameters(runtime)
    }

    open spec fn data_sizes(self) -> Seq<usize> {
        seq![
            self.gate.weights.buffer.len,
            self.up.weights.buffer.len,
            self.down.weights.buffer.len,
        ]
    }

    fn forward(&mut self, inputs: Vec<Matrix>, runtime: &mut CudaRuntime) -> (r: Vec<Matrix>) {
        let ghost before = *runtime;
        let ghost own = self.footprint();
        let input = take_single(inputs);
        proof {
            lemma_one(input);
        }
        let output = Swiglu::forward(self, &input, runtime);
        let ghost middle = *runtime;
        proof {
            middle.lemma_replaced_grown(before, output.buffer.id, None);
            assert(middle.buffers@[input.buffer.id as int] == input.buffer.len);
        }
        runtime.recycle_matrix(input);
        proof {
            lemma_ran_once(before, middle, *runtime, own, input, output);
            assert forall|id: usize| #[trigger] self.owns(id) implies runtime.live@.contains(id)
                && runtime.mem(id) == before.mem(id) by {
                assert(own.contains(id));
            }
            assert(self.owns(self.gate.weights.buffer.id));
            assert(self.owns(self.up.weights.buffer.id));
            assert(self.owns(self.down.weights.buffer.id));
            lemma_gate_kept(*self, before, *runtime);
        }
        single(output)
    }

    fn clear_cache(&mut self, runtime: &mut CudaRuntime) {
        proof {
            runtime.lemma_replaced_nothing(self.footprint());
        }
    }

    fn get_data(&self, runtime: &mut CudaRuntime) -> (r: Vec<HostRead>) {
        Swiglu::get_data(self, runtime)
    }

    fn set_data(&mut self, data: &mut HostDataCursor, runtime: &mut CudaRuntime) {
        let ghost before = *runtime;
        let ghost source = *data;
        proof {
            let sizes = self.data_sizes();
            assert(source.data@[0].values@.len() == sizes[0]);
            assert(source.data@[1].values@.len() == sizes[1]);
            assert(source.data@[2].values@.len() == sizes[2]);
        }
        Swiglu::set_data(self, data, runtime);
        proof {
            lemma_gate_kept(*self, before, *runtime);
            assert(self.parameters(*runtime) =~= loaded(source.data@, 3));
        }
    }
}

/// A gated block is in order while its buffers are alive.
pub proof fn lemma_gate_kept(block: Swiglu, before: CudaRuntime, after: CudaRuntime)
    requires
        before.wf(),
        block.wf(before),
        before.buffers@.len() <= after.buffers@.len(),
        forall|id: usize|
            #![trigger after.buffers@[id as int]]
            id < before.buffers@.len() ==> after.buffers@[id as int] == before.buffers@[id as int],
        forall|id: usize| #[trigger] block.owns(id) ==> after.live@.contains(id),
    ensures
        block.wf(after),
{
    let (g, u, d) = (block.gate.weights, block.up.weights, block.down.weights);
    assert(block.owns(g.buffer.id) && block.owns(u.buffer.id) && block.owns(d.buffer.id));
    assert(after.buffers@[g.buffer.id as int] == g.buffer.len);
    assert(after.buffers@[u.buffer.id as int] == u.buffer.len);
    assert(after.buffers@[d.buffer.id as int] == d.buffer.len);
}

impl GraphNode for InferenceMLP {
    open spec fn footprint(self) -> Set<usize> {
        Set::new(|id: usize| self.executor.owns(id))
    }

    open spec fn in_order(self, runtime: CudaRuntime) -> bool {
        self.executor.wf(runtime) && self.executor.separate()
    }

    open spec fn takes(self, runtime: CudaRuntime, inputs: Seq<Matrix>) -> bool {
        inputs.len() == 1 && self.executor.accepts(runtime, inputs[0])
    }

    open spec fn gives(
        self,
        end: Self,
        before: CudaRuntime,
        after: CudaRuntime,
        inputs: Seq<Matrix>,
        outputs: Seq<Matrix>,
    ) -> bool {
        &&& end == self
        &&& forall|id: usize| #[trigger] self.executor.owns(id) ==> after.mem(id) == before.mem(id)
        &&& outputs.len() == 1
        &&& outputs[0].rows == inputs[0].rows
        &&& outputs[0].cols == self.executor.width(
            self.executor.layers@.len() as int,
        )
        &&& after.matrix(outputs[0]) == self.executor.stage(
            before,
            before.matrix(inputs[0]),
            inputs[0].rows as nat,
            self.executor.layers@.len() as int,
        )
    }

    open spec fn forgets(self, end: Self, before: CudaRuntime, after: CudaRuntime) -> bool {
        end == self && after == before
    }

    open spec fn data(self, runtime: CudaRuntime) -> Seq<Seq<Term>> {
        self.executor.parameters(runtime)
    }

    open spec fn data_sizes(self) -> Seq<usize> {
        self.executor.parameter_sizes()
    }

    fn forward(&mut self, inputs: Vec<Matrix>, runtime: &mut CudaRuntime) -> (r: Vec<Matrix>) {
        let ghost before = *runtime;
        let ghost own = self.footprint();
        let input = take_single(inputs);
        proof {
            lemma_one(input);
            assert forall|id: usize| #[trigger] self.executor.owns(id) implies runtime.live@.contains(
                id,
            ) by {
                self.executor.lemma_owned_live(*runtime, id);
            }
        }
        let output = InferenceMLP::forward(self, &input, runtime);
        let ghost middle = *runtime;
        proof {
            middle.lemma_replaced_grown(before, output.buffer.id, None);
            assert(middle.buffers@[input.buffer.id as int] == input.buffer.len);
        }
        runtime.recycle_matrix(input);
        proof {
            lemma_ran_once(before, middle, *runtime, own, input, output);
            assert forall|id: usize| #[trigger] self.executor.owns(id) implies runtime.live@.contains(id)
                && runtime.mem(id) == before.mem(id) by {
                assert(own.contains(id));
            }
            self.executor.lemma_wf_kept(before, *runtime);
        }
        single(output)
    }

    fn clear_cache(&mut self, runtime: &mut CudaRuntime) {
        proof {
            assert forall|id: usize| #[trigger] self.executor.owns(id) implies runtime.live@.contains(
                id,
            ) by {
                self.executor.lemma_owned_live(*runtime, id);
            }
            runtime.lemma_replaced_nothing(self.footprint());
        }
    }

    fn get_data(&self, runtime: &mut CudaRuntime) -> (r: Vec<HostRead>) {
        InferenceMLP::get_data(self, runtime)
    }

    fn set_data(&mut self, data: &mut HostDataCursor, runtime: &mut CudaRuntime) {
        let ghost before = *runtime;
        let ghost source = *data;
        proof {
            assert forall|id: usize| #[trigger] self.executor.owns(id) implies runtime.live@.contains(
                id,
            ) by {
                self.executor.lemma_owned_live(*runtime, id);
            }
            self.executor.lemma_fits(source);
        }
        InferenceMLP::set_data(self, data, runtime);
        proof {
            self.executor.lemma_restored(before, *runtime, source, *data);
            self.executor.lemma_wf_kept(before, *runtime);
        }
    }
}

impl<const HEADS: usize, const MASKED: bool> GraphNode for InferenceTransformer<HEADS, MASKED> {
    open spec fn footprint(self) -> Set<usize> {
        Set::new(|id: usize| self.owns(id))
    }

    open spec fn in_order(self, runtime: CudaRuntime) -> bool {
        self.wf(runtime)
    }

    open spec fn takes(self, runtime: CudaRuntime, inputs: Seq<Matrix>) -> bool {
        inputs.len() == 1 && self.accepts(runtime, inputs[0])
    }

    open spec fn gives(
        self,
        end: Self,
        before: CudaRuntime,
        after: CudaRuntime,
        inputs: Seq<Matrix>,
        outputs: Seq<Matrix>,
    ) -> bool {
        &&& end.attention.qkv.layers == self.attention.qkv.layers
        &&& end.norm_type == self.norm_type
        &&& end.attention_residual == self.attention_residual
        &&& end.attention_normalization == self.attention_normalization
        &&& end.position_encoding == self.position_encoding
        &&& end.fcs == self.fcs
        &&& end.output_matrix == self.output_matrix
        &&& end.feed_forward_residual == self.feed_forward_residual
        &&& end.feed_forward_normalization == self.feed_forward_normalization
        &&& forall|id: usize| #[trigger] self.owns(id) ==> after.mem(id) == before.mem(id)
        &&& outputs.len() == 1
        &&& outputs[0].rows == inputs[0].rows
        &&& outputs[0].cols == self.output_matrix.weights.cols
        &&& after.matrix(outputs[0]) == self.image(
            before,
            before.matrix(inputs[0]),
            inputs[0].rows,
        )
    }

    open spec fn forgets(self, end: Self, before: CudaRuntime, after: CudaRuntime) -> bool {
        end == self && after == before
    }

    open spec fn data(self, runtime: CudaRuntime) -> Seq<Seq<Term>> {
        self.parameters(runtime)
    }

    open spec fn data_sizes(self) -> Seq<usize> {
        self.parameter_sizes()
    }

    fn forward(&mut self, inputs: Vec<Matrix>, runtime: &mut CudaRuntime) -> (r: Vec<Matrix>) {
        let ghost before = *runtime;
        let ghost start = *self;
        let ghost own = self.footprint();
        let input = take_single(inputs);
        proof {
            lemma_one(input);
            self.lemma_owns_live(*runtime);
        }
        let output = InferenceTransformer::forward(self, &input, runtime);
        let ghost middle = *runtime;
        proof {
            assert(set![output.buffer.id].contains(output.buffer.id));
            assert(middle.buffers@[input.buffer.id as int] == input.buffer.len);
        }
        runtime.recycle_matrix(input);
        proof {
            lemma_ran_once(before, middle, *runtime, own, input, output);
            assert forall|id: usize| #[trigger] start.owns(id) implies runtime.live@.contains(id)
                && runtime.mem(id) == before.mem(id) by {
                assert(own.contains(id));
            }
            start.lemma_wf_kept(before, *runtime);
            start.lemma_same_parts(*self, *runtime);
            assert(self.footprint() =~= own);
        }
        single(output)
    }

    fn clear_cache(&mut self, runtime: &mut CudaRuntime) {
        proof {
            self.lemma_owns_live(*runtime);
            runtime.lemma_replaced_nothing(self.footprint());
        }
    }

    fn get_data(&self, runtime: &mut CudaRuntime) -> (r: Vec<HostRead>) {
        InferenceTransformer::get_data(self, runtime)
    }

    fn set_data(&mut self, data: &mut HostDataCursor, runtime: &mut CudaRuntime) {
        let ghost before = *runtime;
        let ghost source = *data;
        proof {
            self.lemma_owns_live(before);
        }
        InferenceTransformer::set_data(self, data, runtime);
    }
}

} // verus!
