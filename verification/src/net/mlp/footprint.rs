//! The buffers of a stack that is being trained.

use vstd::prelude::*;

use crate::cuda::algebra::Term;
use crate::cuda::container::{ids, values_of, Matrix};
use crate::cuda::runtime::{chosen, CudaRuntime};
use crate::graph::config::LearnConfig;
use crate::graph::state::{NodeTrainState, ParameterBuffer};
use crate::net::gradient::{lemma_matrix_spared, same_values};
use crate::net::linear::{slot_id, slot_terms, Linear};
use crate::net::mlp::training::TrainingMlp;
use crate::net::mlp::MlpExecutor;

verus! {

broadcast use crate::cuda::runtime::group_streams;

/// The buffers of the layers and their training states.
pub open spec fn stack_ids(executor: MlpExecutor, training: Seq<NodeTrainState>) -> Set<usize> {
    Set::new(|id: usize| executor.any_owns(training, id))
}

impl TrainingMlp {
    /// The buffers of the layers and their training states.
    pub open spec fn parts(self) -> Set<usize> {
        stack_ids(self.executor, self.training@)
    }

    /// All buffers of the stack.
    pub open spec fn owned(self) -> Set<usize> {
        self.parts().union(ids(self.layer_inputs@))
    }

    /// Gradients are among the buffers of the stack.
    pub proof fn lemma_gradients_owned(self, id: usize)
        requires
            !self.owned().contains(id),
        ensures
            !self.executor.later_gradient(self.training@, 0, id),
    {
        if self.executor.later_gradient(self.training@, 0, id) {
            let j = choose|j: int|
                0 <= j < self.executor.layers@.len() && #[trigger] Linear::gradient_slot(
                    self.training@[j],
                    id,
                );
            assert(self.executor.part_owns(self.training@, j, id));
            assert(self.parts().contains(id));
        }
    }

    /// Parameters, gradients and velocities are the same at two moments.
    pub open spec fn same_parts(self, before: CudaRuntime, after: CudaRuntime) -> bool {
        &&& forall|id: usize| #[trigger] self.executor.owns(id) ==> after.mem(id) == before.mem(id)
        &&& forall|j: int|
            #![trigger self.training@[j]]
            0 <= j < self.executor.layers@.len() ==> same_values(
                self.executor.layers@[j],
                self.training@[j],
                before,
                after,
            )
    }

    /// Parameters, gradients and velocities are the same while the buffers are.
    pub proof fn lemma_same_parts(self, before: CudaRuntime, after: CudaRuntime)
        requires
            before.wf(),
            self.executor.trains_with(before, self.training@),
            forall|id: usize| #[trigger]
                self.parts().contains(id) ==> after.mem(id) == before.mem(id),
        ensures
            self.same_parts(before, after),
    {
        let ex = self.executor;
        assert forall|j: int, id: usize|
            #![trigger ex.part_owns(self.training@, j, id)]
            0 <= j < ex.layers@.len() && ex.part_owns(self.training@, j, id) implies after.mem(id)
            == before.mem(id) by {
            assert(self.parts().contains(id));
        }
        assert forall|j: int| #![trigger self.training@[j]] 0 <= j < ex.layers@.len() implies same_values(
            ex.layers@[j],
            self.training@[j],
            before,
            after,
        ) by {
            let layer = ex.layers@[j];
            let state = self.training@[j];
            assert forall|id: usize| #[trigger] layer.owns(id) implies after.mem(id) == before.mem(id) by {
                assert(ex.part_owns(self.training@, j, id));
            }
            assert forall|id: usize| #[trigger] Linear::state_owns(state, id) implies after.mem(id)
                == before.mem(id) by {
                assert(ex.part_owns(self.training@, j, id));
            }
            assert(layer.owns(layer.weights.buffer.id));
            if let Some(bias) = layer.bias {
                assert(layer.owns(bias.buffer.id));
            }
            assert forall|k: int, slot: Option<ParameterBuffer>|
                #![trigger state.parameters@[k], slot_terms(slot, after)]
                0 <= k < 2 && (slot == state.parameters@[k].gradient || slot
                    == state.parameters@[k].velocity) implies slot_terms(slot, after) == slot_terms(
                slot,
                before,
            ) by {
                if let Some(id) = slot_id(slot) {
                    assert(Linear::state_owns(state, id));
                }
            }
            let first = state.parameters@[0];
            let second = state.parameters@[1];
        }
        assert forall|id: usize| #[trigger] ex.owns(id) implies after.mem(id) == before.mem(id) by {
            let j = choose|j: int| 0 <= j < ex.layers@.len() && #[trigger] ex.layers@[j].owns(id);
            assert(ex.part_owns(self.training@, j, id));
        }
    }

    /// The buffers of the stack are alive, and retained inputs are no parameters.
    pub proof fn lemma_owned_live(self, runtime: CudaRuntime)
        requires
            self.wf(runtime),
        ensures
            self.owned().subset_of(runtime.live@),
            self.parts().disjoint(ids(self.layer_inputs@)),
    {
        assert forall|id: usize| self.parts().contains(id) implies runtime.live@.contains(id)
            && !ids(self.layer_inputs@).contains(id) by {
            let j = choose|j: int|
                0 <= j < self.executor.layers@.len() && #[trigger] self.executor.part_owns(
                    self.training@,
                    j,
                    id,
                );
            self.executor.lemma_parts_live(runtime, self.training@, j, id);
            if ids(self.layer_inputs@).contains(id) {
                let k = choose|k: int|
                    0 <= k < self.layer_inputs@.len() && (
                    #[trigger] self.layer_inputs@[k]).buffer.id == id;
                let l = self.executor.layers@[j];
            }
        }
        assert forall|id: usize| ids(self.layer_inputs@).contains(id) implies runtime.live@.contains(
            id,
        ) by {
            let k = choose|k: int|
                0 <= k < self.layer_inputs@.len() && (#[trigger] self.layer_inputs@[k]).buffer.id
                    == id;
            assert(runtime.holds(self.layer_inputs@[k]));
        }
    }

    /// The stack stays as it is while other buffers are exchanged.
    pub proof fn lemma_spared(
        self,
        before: CudaRuntime,
        after: CudaRuntime,
        taken: Set<usize>,
        made: Set<usize>,
    )
        requires
            before.wf(),
            self.wf(before),
            after.replaced(before, taken, made),
            taken.disjoint(self.owned()),
        ensures
            self.wf(after),
            made.disjoint(self.owned()),
            self.owned().subset_of(before.live@),
            values_of(after, self.layer_inputs@) == values_of(before, self.layer_inputs@),
            self.same_parts(before, after),
    {
        let ex = self.executor;
        let inputs = self.layer_inputs@;
        self.lemma_owned_live(before);
        assert forall|j: int, id: usize|
            #![trigger ex.part_owns(self.training@, j, id)]
            0 <= j < ex.layers@.len() && ex.part_owns(self.training@, j, id) implies after.live@.contains(
            id,
        ) && after.mem(id) == before.mem(id) by {
            assert(self.parts().contains(id));
            assert(self.owned().contains(id));
        }
        ex.lemma_parts_kept(self.training@, before, after);
        assert forall|k: int| #![trigger inputs[k]] 0 <= k < inputs.len() implies after.holds(inputs[k])
            && after.matrix(inputs[k]) == before.matrix(inputs[k]) by {
            assert(ids(inputs).contains(inputs[k].buffer.id));
            assert(self.owned().contains(inputs[k].buffer.id));
            lemma_matrix_spared(inputs[k], before, after, taken, made);
        }
        assert(values_of(after, inputs) =~= values_of(before, inputs));
        assert forall|id: usize| made.contains(id) implies !self.owned().contains(id) by {
            if self.owned().contains(id) {
                assert(before.live@.contains(id));
            }
        }
        self.lemma_same_parts(before, after);
    }

    /// The stack is in order while its buffers are alive.
    pub proof fn lemma_alive(self, before: CudaRuntime, after: CudaRuntime)
        requires
            before.wf(),
            self.wf(before),
            after.live@ == before.live@,
            before.buffers@.len() <= after.buffers@.len(),
            forall|id: usize|
                #![trigger after.buffers@[id as int]]
                id < before.buffers@.len() ==> after.buffers@[id as int]
                    == before.buffers@[id as int],
        ensures
            self.wf(after),
    {
        let ex = self.executor;
        assert forall|k: int| 0 <= k < self.layer_inputs@.len() implies after.holds(
            #[trigger] self.layer_inputs@[k],
        ) by {
            let m = self.layer_inputs@[k];
            assert(before.holds(m));
            assert(after.buffers@[m.buffer.id as int] == before.buffers@[m.buffer.id as int]);
        }
        assert forall|j: int| #![trigger self.training@[j]] 0 <= j < ex.layers@.len() implies ex.layers@[j].trains_with(
            after,
            self.training@[j],
        ) by {
            ex.layers@[j].lemma_trains_alive(self.training@[j], before, after);
        }
    }

    /// The layers are in order and share no buffer.
    pub proof fn lemma_layers_in_order(self, runtime: CudaRuntime)
        requires
            self.wf(runtime),
        ensures
            self.executor.wf(runtime),
            self.executor.separate(),
            forall|id: usize| #[trigger] self.executor.owns(id) ==> self.owned().contains(id),
    {
        let ex = self.executor;
        let training = self.training@;
        ex.lemma_wf_from_training(runtime, training);
        assert forall|i: int, j: int, id: usize|
            #![trigger ex.layers@[i].owns(id), ex.layers@[j].owns(id)]
            0 <= i < ex.layers@.len() && 0 <= j < ex.layers@.len() && ex.layers@[i].owns(id)
                && ex.layers@[j].owns(id) implies i == j by {
            assert(ex.part_owns(training, i, id) && ex.part_owns(training, j, id));
        }
        assert forall|id: usize| #[trigger] ex.owns(id) implies self.owned().contains(id) by {
            let j = choose|j: int| 0 <= j < ex.layers@.len() && #[trigger] ex.layers@[j].owns(id);
            assert(ex.part_owns(training, j, id));
            assert(self.parts().contains(id));
        }
    }

    /// A forward pass stays inside the stack, its input and its output.
    pub proof fn lemma_ran(
        self,
        start: TrainingMlp,
        before: CudaRuntime,
        after: CudaRuntime,
        input: Matrix,
        r: Matrix,
    )
        requires
            before.wf(),
            start.wf(before),
            before.holds(input),
            !start.owned().contains(input.buffer.id),
            self.executor == start.executor,
            self.training == start.training,
            self.wf(after),
            self.layer_inputs@.len() > 0,
            self.layer_inputs@[0] == input,
            after.wf(),
            after.device@.downloads == before.device@.downloads,
            after.ran_on(before, chosen(None)),
            forall|id: usize|
                #![trigger after.live@.contains(id)]
                after.live@.contains(id) <==> {
                    ||| id == r.buffer.id
                    ||| ids(self.layer_inputs@).contains(id)
                    ||| before.live@.contains(id) && !ids(start.layer_inputs@).contains(id)
                },
            after.keeps(before, ids(start.layer_inputs@)),
            forall|id: usize|
                #![trigger ids(self.layer_inputs@).contains(id)]
                ids(self.layer_inputs@).contains(id) ==> id == input.buffer.id
                    || !before.live@.contains(id) || ids(start.layer_inputs@).contains(id),
            !before.live@.contains(r.buffer.id) || ids(start.layer_inputs@).contains(r.buffer.id),
        ensures
            after.exchanged(
                before,
                start.owned().insert(input.buffer.id),
                self.owned().insert(r.buffer.id),
            ),
            start.same_parts(before, after),
    {
        start.lemma_owned_live(before);
        let taken = start.owned().insert(input.buffer.id);
        let made = self.owned().insert(r.buffer.id);
        assert(self.parts() == start.parts());
        assert(ids(self.layer_inputs@).contains(self.layer_inputs@[0].buffer.id));
        assert forall|id: usize| #![trigger after.live@.contains(id)] after.live@.contains(id)
            <==> before.live@.difference(taken).union(made).contains(id) by {
            if start.parts().contains(id) {
                assert(!ids(start.layer_inputs@).contains(id));
            }
        }
        assert(after.live@ =~= before.live@.difference(taken).union(made));
        assert forall|id: usize| #![trigger made.contains(id)] made.contains(id) implies !before.live@.contains(
            id,
        ) || taken.contains(id) by {
            if ids(self.layer_inputs@).contains(id) {
            }
        }
        assert(after.keeps(before, taken));
        assert forall|id: usize| #[trigger] start.parts().contains(id) implies after.mem(id)
            == before.mem(id) by {
            assert(before.live@.contains(id) && !ids(start.layer_inputs@).contains(id));
        }
        start.lemma_same_parts(before, after);
    }
}

/// Retained inputs outlast a backward pass.
pub proof fn lemma_inputs_spared(
    start: TrainingMlp,
    end: TrainingMlp,
    before: CudaRuntime,
    after: CudaRuntime,
    made: Set<usize>,
)
    requires
        before.wf(),
        start.wf(before),
        end.executor == start.executor,
        end.layer_inputs == start.layer_inputs,
        end.executor.trains_with(after, end.training@),
        after.replaced(before, start.parts(), made),
        end.parts().subset_of(made),
    ensures
        end.wf(after),
        values_of(after, end.layer_inputs@) == values_of(before, start.layer_inputs@),
        made.disjoint(ids(end.layer_inputs@)),
{
    let inputs = start.layer_inputs@;
    start.lemma_owned_live(before);
    assert forall|k: int| #![trigger inputs[k]] 0 <= k < inputs.len() implies after.holds(inputs[k])
        && after.matrix(inputs[k]) == before.matrix(inputs[k]) && !made.contains(
        inputs[k].buffer.id,
    ) by {
        assert(ids(inputs).contains(inputs[k].buffer.id));
        lemma_matrix_spared(inputs[k], before, after, start.parts(), made);
    }
    assert(values_of(after, inputs) =~= values_of(before, inputs));
    assert forall|id: usize| made.contains(id) implies !ids(inputs).contains(id) by {
        if ids(inputs).contains(id) {
            let k = choose|k: int| 0 <= k < inputs.len() && (#[trigger] inputs[k]).buffer.id == id;
        }
    }
    assert forall|k: int, i: int|
        #![trigger inputs[k], end.executor.layers@[i]]
        0 <= k < inputs.len() && 0 <= i < end.executor.layers@.len() implies !end.executor.part_owns(
        end.training@,
        i,
        inputs[k].buffer.id,
    ) by {
        if end.executor.part_owns(end.training@, i, inputs[k].buffer.id) {
            assert(end.parts().contains(inputs[k].buffer.id));
        }
    }
}

impl MlpExecutor {
    /// A backward pass stays inside the layers and training states.
    pub proof fn lemma_backpropagated_exchanged(
        self,
        before: CudaRuntime,
        after: CudaRuntime,
        inputs: Seq<Matrix>,
        gradient: Matrix,
        start: Seq<NodeTrainState>,
        end: Seq<NodeTrainState>,
        r: Matrix,
    )
        requires
            self.trains_with(before, start),
            self.backpropagated(before, after, inputs, gradient, start, end, r),
        ensures
            after.exchanged(
                before,
                stack_ids(self, start),
                stack_ids(self, end).insert(r.buffer.id),
            ),
            !stack_ids(self, end).contains(r.buffer.id),
    {
        let n = self.layers@.len() as int;
        let taken = stack_ids(self, start);
        let made = stack_ids(self, end).insert(r.buffer.id);
        assert forall|id: usize| #[trigger] taken.contains(id) implies stack_ids(self, end).contains(id)
            && before.live@.contains(id) by {
            let j = choose|j: int| 0 <= j < n && #[trigger] self.part_owns(start, j, id);
            self.lemma_parts_live(before, start, j, id);
            assert(end[j].parameters@.len() == 2);
            assert(self.part_owns(end, j, id));
        }
        assert forall|id: usize| #[trigger] stack_ids(self, end).contains(id) implies (
        before.live@.contains(id) ==> taken.contains(id)) && after.live@.contains(id) && id
            != r.buffer.id by {
            let j = choose|j: int| 0 <= j < n && #[trigger] self.part_owns(end, j, id);
            self.lemma_parts_live(after, end, j, id);
            let l = end[j];
            if Linear::gradient_slot(end[j], id) && before.live@.contains(id) {
                assert(self.part_owns(start, j, id));
            } else if !Linear::gradient_slot(end[j], id) {
                assert(self.part_owns(start, j, id));
            }
        }
        assert forall|id: usize| self.later_gradient(start, 0, id) implies taken.contains(id) by {
            let j = choose|j: int| 0 <= j < n && #[trigger] Linear::gradient_slot(start[j], id);
            assert(self.part_owns(start, j, id));
        }
        assert forall|id: usize| self.later_gradient(end, 0, id) implies stack_ids(self, end).contains(
            id,
        ) by {
            let j = choose|j: int| 0 <= j < n && #[trigger] Linear::gradient_slot(end[j], id);
            assert(self.part_owns(end, j, id));
        }
        assert forall|id: usize| #![trigger after.live@.contains(id)] after.live@.contains(id)
            <==> before.live@.difference(taken).union(made).contains(id) by {}
        assert(after.live@ =~= before.live@.difference(taken).union(made));
        assert(after.keeps(before, taken));
    }

    /// An optimizer step stays inside the layers and training states.
    pub proof fn lemma_learned_exchanged(
        self,
        before: CudaRuntime,
        after: CudaRuntime,
        start: Seq<NodeTrainState>,
        end: Seq<NodeTrainState>,
        config: LearnConfig,
    )
        requires
            self.trains_with(before, start),
            self.batch_ready(start),
            self.learned(before, after, start, end, config),
        ensures
            after.exchanged(before, stack_ids(self, start), stack_ids(self, end)),
    {
        let n = self.layers@.len() as int;
        let taken = stack_ids(self, start);
        let made = stack_ids(self, end);
        assert forall|id: usize| #[trigger] made.contains(id) implies taken.contains(id)
            && after.live@.contains(id) by {
            let j = choose|j: int| 0 <= j < n && #[trigger] self.part_owns(end, j, id);
            self.lemma_parts_live(after, end, j, id);
            assert(self.part_owns(start, j, id));
        }
        assert forall|id: usize| #[trigger] taken.contains(id) implies before.live@.contains(id) && (
        after.live@.contains(id) ==> made.contains(id)) by {
            let j = choose|j: int| 0 <= j < n && #[trigger] self.part_owns(start, j, id);
            self.lemma_parts_live(before, start, j, id);
            if after.live@.contains(id) {
                assert(!Linear::gives_back(start[j], id)) by {
                    if Linear::gives_back(start[j], id) {
                        assert(self.freed(start, id));
                    }
                }
                assert(self.layers@[j].moved(before, after, start[j], end[j], config)) by {
                    let e = end[j];
                }
                assert(self.layers@[j].batch_ready(start[j])) by {
                    let s = start[j];
                }
                assert(self.part_owns(end, j, id));
            }
        }
        assert forall|id: usize| self.freed(start, id) implies taken.contains(id) by {
            let j = choose|j: int| 0 <= j < n && #[trigger] Linear::gives_back(start[j], id);
            assert(self.part_owns(start, j, id));
        }
        assert(after.live@ =~= before.live@.difference(taken).union(made));
        assert forall|id: usize| self.any_owns(start, id) implies taken.contains(id) by {}
        assert(after.keeps(before, taken));
    }
}

impl MlpExecutor {
    /// A layer's value before its activation depends on the layer's buffers alone.
    pub proof fn lemma_pre_activation_kept(
        self,
        before: CudaRuntime,
        after: CudaRuntime,
        inputs: Seq<Seq<Term>>,
        rows: nat,
        i: int,
    )
        requires
            0 <= i < self.layers@.len(),
            forall|id: usize| #[trigger] self.owns(id) ==> after.mem(id) == before.mem(id),
        ensures
            self.pre_activation(after, inputs, rows, i) == self.pre_activation(
                before,
                inputs,
                rows,
                i,
            ),
            after.matrix(self.layers@[i].weights) == before.matrix(self.layers@[i].weights),
    {
        let layer = self.layers@[i];
        assert(self.layers@[i].owns(layer.weights.buffer.id));
        assert(self.owns(layer.weights.buffer.id));
        if layer.bias is Some {
            assert(self.layers@[i].owns(layer.bias->0.buffer.id));
            assert(self.owns(layer.bias->0.buffer.id));
        }
    }

    /// Gradients depend on the layers' buffers alone.
    pub proof fn lemma_upstream_kept(
        self,
        before: CudaRuntime,
        after: CudaRuntime,
        inputs: Seq<Seq<Term>>,
        rows: nat,
        gradient: Seq<Term>,
        i: int,
    )
        requires
            0 <= i <= self.layers@.len(),
            forall|id: usize| #[trigger] self.owns(id) ==> after.mem(id) == before.mem(id),
        ensures
            self.upstream(after, inputs, rows, gradient, i) == self.upstream(
                before,
                inputs,
                rows,
                gradient,
                i,
            ),
        decreases self.layers@.len() - i,
    {
        if i < self.layers@.len() {
            self.lemma_upstream_kept(before, after, inputs, rows, gradient, i + 1);
            self.lemma_pre_activation_kept(before, after, inputs, rows, i);
            if self.res_range is Some && self.res_start() == i && i < self.res_end()
                <= self.layers@.len() {
                self.lemma_upstream_kept(before, after, inputs, rows, gradient, self.res_end());
                self.lemma_pre_activation_kept(before, after, inputs, rows, self.res_end() - 1);
            }
        }
    }

    /// What a backward pass adds to the training states.
    pub open spec fn all_absorbed(
        self,
        before: CudaRuntime,
        after: CudaRuntime,
        start: Seq<NodeTrainState>,
        end: Seq<NodeTrainState>,
        inputs: Seq<Seq<Term>>,
        rows: nat,
        gradient: Seq<Term>,
    ) -> bool {
        forall|j: int|
            #![trigger end[j]]
            0 <= j < self.layers@.len() ==> self.layers@[j].absorbed(
                before,
                after,
                start[j],
                end[j],
                inputs[j],
                self.inner_gradient(before, inputs, rows, gradient, j),
                rows,
            )
    }

    /// What a backward pass adds counts from and to any moment at which the values
    /// are the same.
    pub proof fn lemma_all_absorbed_moved(
        self,
        before: CudaRuntime,
        from: CudaRuntime,
        to: CudaRuntime,
        after: CudaRuntime,
        start: Seq<NodeTrainState>,
        end: Seq<NodeTrainState>,
        inputs: Seq<Seq<Term>>,
        rows: nat,
        gradient: Seq<Term>,
    )
        requires
            start.len() == self.layers@.len(),
            end.len() == self.layers@.len(),
            self.all_absorbed(from, to, start, end, inputs, rows, gradient),
            forall|id: usize| #[trigger] self.owns(id) ==> from.mem(id) == before.mem(id),
            forall|j: int|
                #![trigger start[j]]
                0 <= j < self.layers@.len() ==> MlpExecutor::slots_kept(start[j], before, from),
            forall|j: int|
                #![trigger end[j]]
                0 <= j < self.layers@.len() ==> MlpExecutor::slots_kept(end[j], to, after),
        ensures
            self.all_absorbed(before, after, start, end, inputs, rows, gradient),
    {
        assert forall|j: int|
            #![trigger end[j]]
            0 <= j < self.layers@.len() implies self.layers@[j].absorbed(
            before,
            after,
            start[j],
            end[j],
            inputs[j],
            self.inner_gradient(before, inputs, rows, gradient, j),
            rows,
        ) by {
            let s = start[j];
            self.lemma_pre_activation_kept(before, from, inputs, rows, j);
            self.lemma_upstream_kept(before, from, inputs, rows, gradient, j + 1);
        }
    }

    /// An optimizer step moved every layer.
    pub open spec fn all_moved(
        self,
        before: CudaRuntime,
        after: CudaRuntime,
        start: Seq<NodeTrainState>,
        end: Seq<NodeTrainState>,
        config: LearnConfig,
    ) -> bool {
        forall|j: int|
            #![trigger end[j]]
            0 <= j < self.layers@.len() ==> self.layers@[j].moved(
                before,
                after,
                start[j],
                end[j],
                config,
            )
    }
}

} // verus!
