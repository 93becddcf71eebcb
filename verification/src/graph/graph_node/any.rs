//! Any block of a graph as one.

use vstd::prelude::*;

use super::layers::lemma_gate_kept;
use super::{lemma_took_nothing, supplies, GraphNode, TrainingNode};
use crate::cuda::algebra::Term;
use crate::cuda::container::Matrix;
use crate::cuda::runtime::CudaRuntime;
use crate::graph::config::{LearnConfig, MatrixConfig};
use crate::graph::node::{shapes, Node};
use crate::net::linear::{loaded, took, trainable};
use crate::net::metadata::{HostDataCursor, HostRead};
use crate::net::node::structural::shapes_of;

verus! {

broadcast use crate::cuda::runtime::group_streams;

impl GraphNode for Node {
    open spec fn footprint(self) -> Set<usize> {
        match self {
            Node::Linear(node) => node.footprint(),
            Node::TrainingLinear(node) => node.footprint(),
            Node::Single(node) => node.footprint(),
            Node::Binary(node) => node.footprint(),
            Node::RowReduce(node) => node.footprint(),
            Node::Concat(node) => node.footprint(),
            Node::TrainingConcat(node) => node.footprint(),
            Node::Split(node) => node.footprint(),
            Node::Copy(node) => node.footprint(),
            Node::TrainingCopy(node) => node.footprint(),
            Node::Swiglu(node) => node.footprint(),
            Node::Mlp(node) => node.footprint(),
        }
    }

    open spec fn in_order(self, runtime: CudaRuntime) -> bool {
        match self {
            Node::Linear(node) => node.in_order(runtime),
            Node::TrainingLinear(node) => node.in_order(runtime),
            Node::Single(node) => node.in_order(runtime),
            Node::Binary(node) => node.in_order(runtime),
            Node::RowReduce(node) => node.in_order(runtime),
            Node::Concat(node) => node.in_order(runtime),
            Node::TrainingConcat(node) => node.in_order(runtime),
            Node::Split(node) => node.in_order(runtime),
            Node::Copy(node) => node.in_order(runtime),
            Node::TrainingCopy(node) => node.in_order(runtime),
            Node::Swiglu(node) => node.in_order(runtime),
            Node::Mlp(node) => node.in_order(runtime),
        }
    }

    open spec fn takes(self, runtime: CudaRuntime, inputs: Seq<Matrix>) -> bool {
        match self {
            Node::Linear(node) => node.takes(runtime, inputs),
            Node::TrainingLinear(node) => node.takes(runtime, inputs),
            Node::Single(node) => node.takes(runtime, inputs),
            Node::Binary(node) => node.takes(runtime, inputs),
            Node::RowReduce(node) => node.takes(runtime, inputs),
            Node::Concat(node) => node.takes(runtime, inputs),
            Node::TrainingConcat(node) => node.takes(runtime, inputs),
            Node::Split(node) => node.takes(runtime, inputs),
            Node::Copy(node) => node.takes(runtime, inputs),
            Node::TrainingCopy(node) => node.takes(runtime, inputs),
            Node::Swiglu(node) => node.takes(runtime, inputs),
            Node::Mlp(node) => node.takes(runtime, inputs),
        }
    }

    open spec fn gives(
        self,
        end: Self,
        before: CudaRuntime,
        after: CudaRuntime,
        inputs: Seq<Matrix>,
        outputs: Seq<Matrix>,
    ) -> bool {
        match (self, end) {
            (Node::Linear(node), Node::Linear(last)) => node.gives(
                last,
                before,
                after,
                inputs,
                outputs,
            ),
            (Node::TrainingLinear(node), Node::TrainingLinear(last)) => node.gives(
                last,
                before,
                after,
                inputs,
                outputs,
            ),
            (Node::Single(node), Node::Single(last)) => node.gives(
                last,
                before,
                after,
                inputs,
                outputs,
            ),
            (Node::Binary(node), Node::Binary(last)) => node.gives(
                last,
                before,
                after,
                inputs,
                outputs,
            ),
            (Node::RowReduce(node), Node::RowReduce(last)) => node.gives(
                last,
                before,
                after,
                inputs,
                outputs,
            ),
            (Node::Concat(node), Node::Concat(last)) => node.gives(
                last,
                before,
                after,
                inputs,
                outputs,
            ),
            (Node::TrainingConcat(node), Node::TrainingConcat(last)) => node.gives(
                last,
                before,
                after,
                inputs,
                outputs,
            ),
            (Node::Split(node), Node::Split(last)) => node.gives(
                last,
                before,
                after,
                inputs,
                outputs,
            ),
            (Node::Copy(node), Node::Copy(last)) => node.gives(
                last,
                before,
                after,
                inputs,
                outputs,
            ),
            (Node::TrainingCopy(node), Node::TrainingCopy(last)) => node.gives(
                last,
                before,
                after,
                inputs,
                outputs,
            ),
            (Node::Swiglu(node), Node::Swiglu(last)) => node.gives(
                last,
                before,
                after,
                inputs,
                outputs,
            ),
            (Node::Mlp(node), Node::Mlp(last)) => node.gives(last, before, after, inputs, outputs),
            _ => false,
        }
    }

    open spec fn forgets(self, end: Self, before: CudaRuntime, after: CudaRuntime) -> bool {
        match (self, end) {
            (Node::Linear(node), Node::Linear(last)) => node.forgets(last, before, after),
            (Node::TrainingLinear(node), Node::TrainingLinear(last)) => node.forgets(
                last,
                before,
                after,
            ),
            (Node::Single(node), Node::Single(last)) => node.forgets(last, before, after),
            (Node::Binary(node), Node::Binary(last)) => node.forgets(last, before, after),
            (Node::RowReduce(node), Node::RowReduce(last)) => node.forgets(last, before, after),
            (Node::Concat(node), Node::Concat(last)) => node.forgets(last, before, after),
            (Node::TrainingConcat(node), Node::TrainingConcat(last)) => node.forgets(
                last,
                before,
                after,
            ),
            (Node::Split(node), Node::Split(last)) => node.forgets(last, before, after),
            (Node::Copy(node), Node::Copy(last)) => node.forgets(last, before, after),
            (Node::TrainingCopy(node), Node::TrainingCopy(last)) => node.forgets(
                last,
                before,
                after,
            ),
            (Node::Swiglu(node), Node::Swiglu(last)) => node.forgets(last, before, after),
            (Node::Mlp(node), Node::Mlp(last)) => node.forgets(last, before, after),
            _ => false,
        }
    }

    open spec fn data(self, runtime: CudaRuntime) -> Seq<Seq<Term>> {
        match self {
            Node::Linear(node) => node.data(runtime),
            Node::TrainingLinear(node) => node.data(runtime),
            Node::Single(node) => node.data(runtime),
            Node::Binary(node) => node.data(runtime),
            Node::RowReduce(node) => node.data(runtime),
            Node::Concat(node) => node.data(runtime),
            Node::TrainingConcat(node) => node.data(runtime),
            Node::Split(node) => node.data(runtime),
            Node::Copy(node) => node.data(runtime),
            Node::TrainingCopy(node) => node.data(runtime),
            Node::Swiglu(node) => node.data(runtime),
            Node::Mlp(node) => node.data(runtime),
        }
    }

    open spec fn data_sizes(self) -> Seq<usize> {
        match self {
            Node::Linear(node) => node.data_sizes(),
            Node::TrainingLinear(node) => node.data_sizes(),
            Node::Single(node) => node.data_sizes(),
            Node::Binary(node) => node.data_sizes(),
            Node::RowReduce(node) => node.data_sizes(),
            Node::Concat(node) => node.data_sizes(),
            Node::TrainingConcat(node) => node.data_sizes(),
            Node::Split(node) => node.data_sizes(),
            Node::Copy(node) => node.data_sizes(),
            Node::TrainingCopy(node) => node.data_sizes(),
            Node::Swiglu(node) => node.data_sizes(),
            Node::Mlp(node) => node.data_sizes(),
        }
    }

    fn forward(&mut self, inputs: Vec<Matrix>, runtime: &mut CudaRuntime) -> (r: Vec<Matrix>) {
        match self {
            Node::Linear(node) => GraphNode::forward(node, inputs, runtime),
            Node::TrainingLinear(node) => GraphNode::forward(node, inputs, runtime),
            Node::Single(node) => GraphNode::forward(node, inputs, runtime),
            Node::Binary(node) => GraphNode::forward(node, inputs, runtime),
            Node::RowReduce(node) => GraphNode::forward(node, inputs, runtime),
            Node::Concat(node) => GraphNode::forward(node, inputs, runtime),
            Node::TrainingConcat(node) => GraphNode::forward(node, inputs, runtime),
            Node::Split(node) => GraphNode::forward(node, inputs, runtime),
            Node::Copy(node) => GraphNode::forward(node, inputs, runtime),
            Node::TrainingCopy(node) => GraphNode::forward(node, inputs, runtime),
            Node::Swiglu(node) => GraphNode::forward(node, inputs, runtime),
            Node::Mlp(node) => GraphNode::forward(node, inputs, runtime),
        }
    }

    fn clear_cache(&mut self, runtime: &mut CudaRuntime) {
        match self {
            Node::Linear(node) => GraphNode::clear_cache(node, runtime),
            Node::TrainingLinear(node) => GraphNode::clear_cache(node, runtime),
            Node::Single(node) => GraphNode::clear_cache(node, runtime),
            Node::Binary(node) => GraphNode::clear_cache(node, runtime),
            Node::RowReduce(node) => GraphNode::clear_cache(node, runtime),
            Node::Concat(node) => GraphNode::clear_cache(node, runtime),
            Node::TrainingConcat(node) => GraphNode::clear_cache(node, runtime),
            Node::Split(node) => GraphNode::clear_cache(node, runtime),
            Node::Copy(node) => GraphNode::clear_cache(node, runtime),
            Node::TrainingCopy(node) => GraphNode::clear_cache(node, runtime),
            Node::Swiglu(node) => GraphNode::clear_cache(node, runtime),
            Node::Mlp(node) => GraphNode::clear_cache(node, runtime),
        }
    }

    fn get_data(&self, runtime: &mut CudaRuntime) -> (r: Vec<HostRead>) {
        match self {
            Node::Linear(node) => GraphNode::get_data(node, runtime),
            Node::TrainingLinear(node) => GraphNode::get_data(node, runtime),
            Node::Single(node) => GraphNode::get_data(node, runtime),
            Node::Binary(node) => GraphNode::get_data(node, runtime),
            Node::RowReduce(node) => GraphNode::get_data(node, runtime),
            Node::Concat(node) => GraphNode::get_data(node, runtime),
            Node::TrainingConcat(node) => GraphNode::get_data(node, runtime),
            Node::Split(node) => GraphNode::get_data(node, runtime),
            Node::Copy(node) => GraphNode::get_data(node, runtime),
            Node::TrainingCopy(node) => GraphNode::get_data(node, runtime),
            Node::Swiglu(node) => GraphNode::get_data(node, runtime),
            Node::Mlp(node) => GraphNode::get_data(node, runtime),
        }
    }

    fn set_data(&mut self, data: &mut HostDataCursor, runtime: &mut CudaRuntime) {
        self.load(data, runtime);
    }
}

impl TrainingNode for Node {
    open spec fn takes_gradients(self, runtime: CudaRuntime, gradients: Seq<Matrix>) -> bool {
        match self {
            Node::TrainingLinear(node) => node.takes_gradients(runtime, gradients),
            Node::TrainingConcat(node) => node.takes_gradients(runtime, gradients),
            Node::TrainingCopy(node) => node.takes_gradients(runtime, gradients),
            _ => false,
        }
    }

    open spec fn passes_back(
        self,
        end: Self,
        before: CudaRuntime,
        after: CudaRuntime,
        gradients: Seq<Matrix>,
        r: Seq<Matrix>,
    ) -> bool {
        match (self, end) {
            (Node::TrainingLinear(node), Node::TrainingLinear(last)) => node.passes_back(
                last,
                before,
                after,
                gradients,
                r,
            ),
            (Node::TrainingConcat(node), Node::TrainingConcat(last)) => node.passes_back(
                last,
                before,
                after,
                gradients,
                r,
            ),
            (Node::TrainingCopy(node), Node::TrainingCopy(last)) => node.passes_back(
                last,
                before,
                after,
                gradients,
                r,
            ),
            _ => false,
        }
    }

    open spec fn has_gradients(self) -> bool {
        match self {
            Node::TrainingLinear(node) => node.has_gradients(),
            Node::TrainingConcat(node) => node.has_gradients(),
            Node::TrainingCopy(node) => node.has_gradients(),
            _ => false,
        }
    }

    open spec fn improves(
        self,
        end: Self,
        before: CudaRuntime,
        after: CudaRuntime,
        config: LearnConfig,
    ) -> bool {
        match (self, end) {
            (Node::TrainingLinear(node), Node::TrainingLinear(last)) => node.improves(
                last,
                before,
                after,
                config,
            ),
            (Node::TrainingConcat(node), Node::TrainingConcat(last)) => node.improves(
                last,
                before,
                after,
                config,
            ),
            (Node::TrainingCopy(node), Node::TrainingCopy(last)) => node.improves(
                last,
                before,
                after,
                config,
            ),
            _ => false,
        }
    }

    fn backward(&mut self, gradients: Vec<Matrix>, runtime: &mut CudaRuntime) -> (r: Vec<Matrix>) {
        match self {
            Node::TrainingLinear(node) => TrainingNode::backward(node, gradients, runtime),
            Node::TrainingConcat(node) => TrainingNode::backward(node, gradients, runtime),
            Node::TrainingCopy(node) => TrainingNode::backward(node, gradients, runtime),
            _ => gradients,
        }
    }

    fn learn(&mut self, config: LearnConfig, runtime: &mut CudaRuntime) {
        match self {
            Node::TrainingLinear(node) => TrainingNode::learn(node, config, runtime),
            Node::TrainingConcat(node) => TrainingNode::learn(node, config, runtime),
            Node::TrainingCopy(node) => TrainingNode::learn(node, config, runtime),
            _ => {},
        }
    }
}

/// The shapes of matrices.
pub open spec fn configs_of(ms: Seq<Matrix>) -> Seq<MatrixConfig> {
    Seq::new(ms.len(), |k: int| MatrixConfig { rows: ms[k].rows, cols: ms[k].cols })
}

impl Node {
    /// The block takes all inputs of these shapes.
    pub open spec fn takes_all(self, inputs: Seq<MatrixConfig>) -> bool {
        forall|runtime: CudaRuntime, ms: Seq<Matrix>|
            #![trigger self.takes(runtime, ms)]
            runtime.holds_all(ms) && configs_of(ms) == inputs ==> self.takes(runtime, ms)
    }

    /// What a block takes, its check of shapes accepts.
    pub proof fn law_blocks_accept_what_they_take(self, runtime: CudaRuntime, inputs: Seq<Matrix>)
        requires
            self.in_order(runtime),
            self.takes(runtime, inputs),
        ensures
            self.fits(configs_of(inputs)),
    {
        let given = configs_of(inputs);
        assert(shapes(given) =~= shapes_of(inputs));
        assert forall|k: int| 0 <= k < inputs.len() implies #[trigger] given[k] == (MatrixConfig {
            rows: inputs[k].rows,
            cols: inputs[k].cols,
        }) by {}
        match self {
            Node::Binary(node) => {
                if !(node.op is MatMul) {
                    assert forall|k: int| #![trigger given[k]] 0 <= k < given.len() implies given[k]
                        == given[0] by {
                        assert(inputs[k].rows == inputs[0].rows);
                    }
                }
            },
            _ => {},
        }
    }

    /// The outputs have the shapes that the block announces.
    pub proof fn lemma_output_configs(
        self,
        end: Self,
        before: CudaRuntime,
        after: CudaRuntime,
        inputs: Seq<Matrix>,
        outputs: Seq<Matrix>,
    )
        requires
            self.takes(before, inputs),
            self.gives(end, before, after, inputs, outputs),
        ensures
            configs_of(outputs) == self.outputs(configs_of(inputs)),
    {
        let given = configs_of(inputs);
        assert(shapes(given) =~= shapes_of(inputs));
        match self {
            Node::Split(node) => {
                let parts = shapes_of(outputs);
                assert(parts.len() == outputs.len());
                assert forall|k: int| 0 <= k < outputs.len() implies #[trigger] configs_of(outputs)[k]
                    == self.outputs(given)[k] by {
                    assert(parts[k] == (outputs[k].rows, outputs[k].cols));
                }
                assert(configs_of(outputs) =~= self.outputs(given));
            },
            _ => {
                assert(configs_of(outputs) =~= self.outputs(given));
            },
        }
    }

    /// The block stays in order while other buffers are exchanged.
    pub proof fn lemma_spared(
        self,
        before: CudaRuntime,
        after: CudaRuntime,
        taken: Set<usize>,
        made: Set<usize>,
    )
        requires
            before.wf(),
            self.in_order(before),
            after.replaced(before, taken, made),
            taken.disjoint(self.footprint()),
        ensures
            self.in_order(after),
            made.disjoint(self.footprint()),
            self.footprint().subset_of(before.live@),
    {
        match self {
            Node::Linear(node) => {
                assert forall|id: usize| #[trigger] node.owns(id) implies after.live@.contains(id) by {
                    assert(self.footprint().contains(id));
                }
                node.lemma_wf_kept(before, after);
            },
            Node::TrainingLinear(node) => {
                node.lemma_node_spared(before, after, taken, made);
            },
            Node::Swiglu(node) => {
                assert forall|id: usize| #[trigger] node.owns(id) implies after.live@.contains(id) by {
                    assert(self.footprint().contains(id));
                }
                lemma_gate_kept(node, before, after);
            },
            Node::Mlp(node) => {
                assert forall|id: usize| #[trigger] node.executor.owns(id) implies after.live@.contains(
                    id,
                ) && before.live@.contains(id) by {
                    node.executor.lemma_owned_live(before, id);
                    assert(self.footprint().contains(id));
                }
                node.executor.lemma_wf_kept(before, after);
            },
            _ => {},
        }
        assert(self.footprint().subset_of(before.live@));
        assert forall|id: usize| made.contains(id) implies !self.footprint().contains(id) by {
            if self.footprint().contains(id) {
                assert(before.live@.contains(id));
            }
        }
    }

    /// The block stays in order while no buffer goes.
    pub proof fn lemma_kept(self, before: CudaRuntime, after: CudaRuntime)
        requires
            before.wf(),
            self.in_order(before),
            before.live@.subset_of(after.live@),
            before.buffers@.len() <= after.buffers@.len(),
            forall|id: usize|
                #![trigger after.buffers@[id as int]]
                id < before.buffers@.len() ==> after.buffers@[id as int]
                    == before.buffers@[id as int],
        ensures
            self.in_order(after),
            self.footprint().subset_of(before.live@),
    {
        before.lemma_replaced_nothing(Set::empty());
        self.lemma_spared(before, before, Set::empty(), Set::empty());
        match self {
            Node::Linear(node) => {
                assert forall|id: usize| #[trigger] node.owns(id) implies after.live@.contains(id) by {
                    assert(self.footprint().contains(id));
                }
                node.lemma_wf_kept(before, after);
            },
            Node::TrainingLinear(node) => {
                node.linear.lemma_trains_alive(node.training, before, after);
                if let Some(m) = node.input_cache {
                    assert(after.buffers@[m.buffer.id as int] == m.buffer.len);
                }
            },
            Node::Swiglu(node) => {
                assert forall|id: usize| #[trigger] node.owns(id) implies after.live@.contains(id) by {
                    assert(self.footprint().contains(id));
                }
                lemma_gate_kept(node, before, after);
            },
            Node::Mlp(node) => {
                assert forall|id: usize| #[trigger] node.executor.owns(id) implies after.live@.contains(
                    id,
                ) by {
                    assert(self.footprint().contains(id));
                }
                node.executor.lemma_wf_kept(before, after);
            },
            _ => {},
        }
    }

    /// The parameters stay while the block's buffers do.
    pub proof fn lemma_data_kept(self, before: CudaRuntime, after: CudaRuntime)
        requires
            forall|id: usize| #[trigger]
                self.footprint().contains(id) ==> after.mem(id) == before.mem(id),
        ensures
            self.data(after) == self.data(before),
    {
        match self {
            Node::Linear(node) => {
                assert forall|id: usize| #[trigger] node.owns(id) implies after.mem(id)
                    == before.mem(id) by {
                    assert(self.footprint().contains(id));
                }
                node.lemma_parameters_kept(before, after);
            },
            Node::TrainingLinear(node) => {
                assert forall|id: usize| #[trigger] node.linear.owns(id) implies after.mem(id)
                    == before.mem(id) by {
                    assert(self.footprint().contains(id));
                }
                node.linear.lemma_parameters_kept(before, after);
            },
            Node::Swiglu(node) => {
                assert forall|id: usize| #[trigger] node.owns(id) implies after.mem(id)
                    == before.mem(id) by {
                    assert(self.footprint().contains(id));
                }
                assert(node.owns(node.gate.weights.buffer.id));
                assert(node.owns(node.up.weights.buffer.id));
                assert(node.owns(node.down.weights.buffer.id));
                assert(node.parameters(after) =~= node.parameters(before));
            },
            Node::Mlp(node) => {
                assert forall|id: usize| #[trigger] node.executor.owns(id) implies after.mem(id)
                    == before.mem(id) by {
                    assert(self.footprint().contains(id));
                }
                node.executor.lemma_parameters_kept(
                    before,
                    after,
                    node.executor.layers@.len() as int,
                );
            },
            _ => {},
        }
    }

    /// Replaces the parameters by the next ones of a source: only device memory changes.
    pub(crate) fn load(&self, data: &mut HostDataCursor, runtime: &mut CudaRuntime)
        requires
            old(runtime).wf(),
            self.in_order(*old(runtime)),
            supplies(*old(data), self.data_sizes()),
        ensures
            self.in_order(*final(runtime)),
            took(
                *old(runtime),
                *final(runtime),
                *old(data),
                *final(data),
                self.data_sizes().len(),
                |id: usize| self.footprint().contains(id),
            ),
            self.data(*final(runtime)) == loaded(old(data).data@, self.data_sizes().len()),
    {
        let ghost before = *runtime;
        let ghost source = *data;
        match self {
            Node::Linear(node) => {
                node.restore(data, runtime);
                proof {
                    node.lemma_restored(before, *runtime, source, *data);
                }
            },
            Node::TrainingLinear(node) => {
                node.linear.restore(data, runtime);
                proof {
                    node.linear.lemma_restored(before, *runtime, source, *data);
                }
            },
            Node::Swiglu(node) => {
                proof {
                    let sizes = node.data_sizes();
                    assert(source.data@[0].values@.len() == sizes[0]);
                    assert(source.data@[1].values@.len() == sizes[1]);
                    assert(source.data@[2].values@.len() == sizes[2]);
                }
                node.restore(data, runtime);
                proof {
                    assert(node.parameters(*runtime) =~= loaded(source.data@, 3));
                }
            },
            Node::Mlp(node) => {
                proof {
                    node.executor.lemma_fits(source);
                }
                node.executor.restore(data, runtime);
                proof {
                    node.executor.lemma_restored(before, *runtime, source, *data);
                }
            },
            _ => {
                proof {
                    lemma_took_nothing(before, source, |id: usize| self.footprint().contains(id));
                }
            },
        }
        proof {
            self.lemma_kept(before, *runtime);
        }
    }

    /// Once it has run on inputs of these shapes, the block can pass gradients back.
    pub open spec fn trains_on(self, inputs: Seq<MatrixConfig>) -> bool {
        match self {
            Node::TrainingLinear(node) => trainable(
                inputs[0].rows as int,
                node.linear.weights.rows as int,
                node.linear.weights.cols as int,
            ),
            Node::TrainingConcat(node) => forall|k: int|
                #![trigger inputs[k]]
                0 <= k < inputs.len() ==> inputs[k].rows > 0 && inputs[k].cols > 0,
            Node::TrainingCopy(_) => true,
            _ => false,
        }
    }

    /// The block takes all gradients of these shapes.
    pub open spec fn awaits(self, outputs: Seq<MatrixConfig>) -> bool {
        forall|runtime: CudaRuntime, ms: Seq<Matrix>|
            #![trigger self.takes_gradients(runtime, ms)]
            runtime.holds_all(ms) && configs_of(ms) == outputs ==> self.takes_gradients(runtime, ms)
    }

    /// The shapes of the gradients that the block passes back.
    pub open spec fn returned(self, outputs: Seq<MatrixConfig>) -> Seq<MatrixConfig> {
        match self {
            Node::TrainingLinear(node) => seq![
                MatrixConfig { rows: outputs[0].rows, cols: node.linear.weights.rows },
            ],
            Node::TrainingConcat(node) => Seq::new(
                node.shapes().len(),
                |k: int| MatrixConfig { rows: node.shapes()[k].0, cols: node.shapes()[k].1 },
            ),
            Node::TrainingCopy(_) => seq![outputs[0]],
            _ => outputs,
        }
    }

    /// A block that has run waits for gradients of the shapes of its outputs, and passes
    /// back gradients of the shapes of its inputs.
    pub proof fn lemma_awaits(
        self,
        end: Self,
        before: CudaRuntime,
        after: CudaRuntime,
        inputs: Seq<Matrix>,
        outputs: Seq<Matrix>,
    )
        requires
            self.in_order(before),
            self.takes(before, inputs),
            self.gives(end, before, after, inputs, outputs),
            self.trains_on(configs_of(inputs)),
        ensures
            end.awaits(configs_of(outputs)),
            end.returned(configs_of(outputs)) == configs_of(inputs),
    {
        let given = configs_of(inputs);
        let wanted = configs_of(outputs);
        match (self, end) {
            (Node::TrainingLinear(node), Node::TrainingLinear(last)) => {
                assert(end.returned(wanted) =~= given);
            },
            (Node::TrainingConcat(node), Node::TrainingConcat(last)) => {
                let parts = shapes_of(inputs);
                assert(last.shapes() == parts);
                assert forall|k: int| 0 <= k < inputs.len() implies #[trigger] given[k]
                    == end.returned(wanted)[k] by {
                    assert(parts[k] == (inputs[k].rows, inputs[k].cols));
                }
                assert(end.returned(wanted) =~= given);
            },
            _ => {
                assert(outputs[0].rows == inputs[0].rows && outputs[0].cols == inputs[0].cols);
                assert(wanted[0] == given[0]);
                assert(end.returned(wanted) =~= given);
            },
        }
        assert forall|runtime: CudaRuntime, ms: Seq<Matrix>|
            #![trigger end.takes_gradients(runtime, ms)]
            runtime.holds_all(ms) && configs_of(ms) == wanted implies end.takes_gradients(
            runtime,
            ms,
        ) by {
            assert(configs_of(ms).len() == ms.len() && wanted.len() == outputs.len());
            assert forall|k: int| 0 <= k < ms.len() implies (#[trigger] ms[k]).rows == outputs[k].rows
                && ms[k].cols == outputs[k].cols by {
                assert(configs_of(ms)[k] == wanted[k]);
            }
            if let Node::TrainingConcat(node) = self {
                let shapes = shapes_of(inputs);
                let extents = node.node.axis.extents(shapes);
                assert forall|k: int| 0 <= k < extents.len() implies #[trigger] extents[k] > 0 by {
                    assert(given[k].rows > 0 && given[k].cols > 0);
                }
            }
        }
    }

    /// Gradients come back in the shapes that the block announces.
    pub proof fn lemma_returned_configs(
        self,
        end: Self,
        before: CudaRuntime,
        after: CudaRuntime,
        gradients: Seq<Matrix>,
        r: Seq<Matrix>,
    )
        requires
            self.in_order(before),
            self.takes_gradients(before, gradients),
            self.passes_back(end, before, after, gradients, r),
        ensures
            configs_of(r) == self.returned(configs_of(gradients)),
            end.has_gradients(),
    {
        let wanted = self.returned(configs_of(gradients));
        match self {
            Node::TrainingConcat(node) => {
                let parts = shapes_of(r);
                assert(parts == node.shapes());
                assert(parts.len() == r.len());
                assert forall|k: int| 0 <= k < r.len() implies #[trigger] configs_of(r)[k]
                    == wanted[k] by {
                    assert(parts[k] == (r[k].rows, r[k].cols));
                }
                assert(configs_of(r) =~= wanted);
            },
            Node::TrainingCopy(node) => {
                assert(gradients.len() == node.node.output_count);
                assert(configs_of(gradients)[0] == configs_of(r)[0]);
                assert(configs_of(r) =~= wanted);
            },
            _ => {
                assert(configs_of(r) =~= wanted);
            },
        }
    }
}

} // verus!
