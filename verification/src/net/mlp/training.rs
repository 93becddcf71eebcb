//! Training of stacks of layers.

use vstd::prelude::*;

use super::{Loss, MlpExecutor, MlpMetadata, ResidualMetadata};
use crate::cuda::algebra::{apply, zip, Term};
use crate::cuda::container::{ids, lemma_ids_push, values_of, Matrix, Vector};
use crate::cuda::ops::{BinaryFn, MapFn};
use crate::cuda::runtime::{chosen, CudaRuntime};
use crate::cuda::scalar::F32;
use crate::graph::config::LearnConfig;
use crate::graph::schedule::Rate;
use crate::graph::state::{recycle_all, NodeTrainState};
use crate::net::linear::{
    activated, affine_terms, input_gradient_terms, optional_terms, pre_activation_gradient,
    slot_terms, trainable, Linear,
};
use crate::net::loss::comparable;
use crate::net::metadata::{HostDataCursor, HostRead, MetadataCursor};

verus! {

broadcast use crate::cuda::runtime::group_streams;

impl MlpExecutor {
    /// What a layer computed before its activation, from the retained inputs.
    pub open spec fn pre_activation(
        self,
        runtime: CudaRuntime,
        inputs: Seq<Seq<Term>>,
        rows: nat,
        i: int,
    ) -> Seq<Term> {
        let layer = self.layers@[i];
        affine_terms(
            inputs[i],
            runtime.matrix(layer.weights),
            layer.bias_terms(runtime),
            if self.res_range is Some && self.res_end() == i + 1 {
                Some(inputs[self.res_start()])
            } else {
                None
            },
            rows,
            layer.weights.rows as nat,
            layer.weights.cols as nat,
        )
    }

    /// The gradient before a layer's activation.
    pub open spec fn inner_gradient(
        self,
        runtime: CudaRuntime,
        inputs: Seq<Seq<Term>>,
        rows: nat,
        gradient: Seq<Term>,
        i: int,
    ) -> Seq<Term> {
        pre_activation_gradient(
            self.layers@[i].activation,
            self.pre_activation(runtime, inputs, rows, i),
            self.upstream(runtime, inputs, rows, gradient, i + 1),
        )
    }

    /// The gradient by the value between two layers. Where the residual
    /// starts, its gradient is added.
    pub open spec fn upstream(
        self,
        runtime: CudaRuntime,
        inputs: Seq<Seq<Term>>,
        rows: nat,
        gradient: Seq<Term>,
        i: int,
    ) -> Seq<Term>
        decreases self.layers@.len() - i,
    {
        if i >= self.layers@.len() {
            gradient
        } else {
            let layer = self.layers@[i];
            let through = input_gradient_terms(
                pre_activation_gradient(
                    layer.activation,
                    self.pre_activation(runtime, inputs, rows, i),
                    self.upstream(runtime, inputs, rows, gradient, i + 1),
                ),
                runtime.matrix(layer.weights),
                rows,
                layer.weights.rows as nat,
                layer.weights.cols as nat,
            );
            if self.res_range is Some && self.res_start() == i && i < self.res_end()
                <= self.layers@.len() {
                let last = self.res_end() - 1;
                zip(
                    BinaryFn::Add,
                    through,
                    pre_activation_gradient(
                        self.layers@[last].activation,
                        self.pre_activation(runtime, inputs, rows, last),
                        self.upstream(runtime, inputs, rows, gradient, self.res_end()),
                    ),
                )
            } else {
                through
            }
        }
    }

    /// Whether a buffer belongs to a layer or its training state.
    pub open spec fn part_owns(self, training: Seq<NodeTrainState>, i: int, id: usize) -> bool {
        self.layers@[i].owns(id) || Linear::state_owns(training[i], id)
    }

    /// Whether layers and training states fit together and share no buffers.
    pub open spec fn trains_with(self, runtime: CudaRuntime, training: Seq<NodeTrainState>) -> bool {
        &&& self.shaped()
        &&& training.len() == self.layers@.len()
        &&& forall|i: int|
            #![trigger training[i]]
            0 <= i < self.layers@.len() ==> self.layers@[i].trains_with(runtime, training[i])
        &&& forall|i: int, j: int, id: usize|
            #![trigger self.part_owns(training, i, id), self.part_owns(training, j, id)]
            0 <= i < self.layers@.len() && 0 <= j < self.layers@.len() && self.part_owns(
                training,
                i,
                id,
            ) && self.part_owns(training, j, id) ==> i == j
    }

    /// Whether batches of this many rows can train the stack.
    pub open spec fn trains_rows(self, rows: int) -> bool {
        &&& self.accepts_rows(rows)
        &&& forall|i: int|
            #![trigger self.layers@[i]]
            0 <= i < self.layers@.len() ==> trainable(
                rows,
                self.layers@[i].weights.rows as int,
                self.layers@[i].weights.cols as int,
            )
    }

    /// Whether retained inputs are alive and are those of the layers.
    pub open spec fn retains(
        self,
        runtime: CudaRuntime,
        inputs: Seq<Matrix>,
        rows: usize,
        count: int,
    ) -> bool {
        &&& inputs.len() == count
        &&& runtime.holds_all(inputs)
        &&& forall|i: int|
            #![trigger inputs[i]]
            0 <= i < count ==> inputs[i].rows == rows && inputs[i].cols == self.width(i)
    }

    /// Buffers of a trained stack are alive.
    pub proof fn lemma_parts_live(
        self,
        runtime: CudaRuntime,
        training: Seq<NodeTrainState>,
        i: int,
        id: usize,
    )
        requires
            self.trains_with(runtime, training),
            0 <= i < self.layers@.len(),
            self.part_owns(training, i, id),
        ensures
            runtime.live@.contains(id),
    {
        assert(self.layers@[i].trains_with(runtime, training[i]));
    }

    /// Whether a buffer holds a gradient of one of the layers from `first` on.
    pub open spec fn later_gradient(
        self,
        training: Seq<NodeTrainState>,
        first: int,
        id: usize,
    ) -> bool {
        exists|j: int|
            first <= j < self.layers@.len() && #[trigger] Linear::gradient_slot(training[j], id)
    }

    /// The gradients of a state hold the same in two device states.
    pub open spec fn slots_kept(state: NodeTrainState, before: CudaRuntime, after: CudaRuntime) -> bool {
        &&& slot_terms(state.parameters@[0].gradient, after) == slot_terms(
            state.parameters@[0].gradient,
            before,
        )
        &&& slot_terms(state.parameters@[1].gradient, after) == slot_terms(
            state.parameters@[1].gradient,
            before,
        )
    }

    /// Every layer and its training state keep their buffers and contents.
    pub open spec fn parts_kept(
        self,
        training: Seq<NodeTrainState>,
        before: CudaRuntime,
        after: CudaRuntime,
    ) -> bool {
        &&& before.buffers@.len() <= after.buffers@.len()
        &&& forall|id: usize|
            #![trigger after.buffers@[id as int]]
            id < before.buffers@.len() ==> after.buffers@[id as int] == before.buffers@[id as int]
        &&& forall|j: int, id: usize|
            #![trigger self.part_owns(training, j, id)]
            0 <= j < self.layers@.len() && self.part_owns(training, j, id) ==> after.live@.contains(
                id,
            ) && after.mem(id) == before.mem(id)
    }

    /// A stack trains on while its buffers stay.
    pub proof fn lemma_parts_kept(
        self,
        training: Seq<NodeTrainState>,
        before: CudaRuntime,
        after: CudaRuntime,
    )
        requires
            before.wf(),
            self.trains_with(before, training),
            self.parts_kept(training, before, after),
        ensures
            self.trains_with(after, training),
            forall|j: int|
                #![trigger training[j]]
                0 <= j < self.layers@.len() ==> MlpExecutor::slots_kept(training[j], before, after)
                    && after.matrix(self.layers@[j].weights) == before.matrix(
                    self.layers@[j].weights,
                ) && self.layers@[j].bias_terms(after) == self.layers@[j].bias_terms(before),
    {
        assert forall|j: int|
            #![trigger training[j]]
            0 <= j < self.layers@.len() implies self.layers@[j].trains_with(after, training[j])
            && MlpExecutor::slots_kept(training[j], before, after) && after.matrix(
            self.layers@[j].weights,
        ) == before.matrix(self.layers@[j].weights) && self.layers@[j].bias_terms(after)
            == self.layers@[j].bias_terms(before) by {
            let layer = self.layers@[j];
            assert forall|id: usize| #[trigger] layer.owns(id) implies after.live@.contains(id)
                && after.mem(id) == before.mem(id) by {
                assert(self.part_owns(training, j, id));
            }
            assert forall|id: usize| #[trigger] Linear::state_owns(
                training[j],
                id,
            ) implies after.live@.contains(id) && after.mem(id) == before.mem(id) by {
                assert(self.part_owns(training, j, id));
            }
            layer.lemma_trains_kept(training[j], before, after);
        }
    }

    /// One layer took in a sample: what the training states own now.
    proof fn lemma_parts_after_layer(
        self,
        before: CudaRuntime,
        after: CudaRuntime,
        old_training: Seq<NodeTrainState>,
        training: Seq<NodeTrainState>,
        i: int,
    )
        requires
            0 <= i < self.layers@.len(),
            before.wf(),
            self.trains_with(before, old_training),
            training == old_training.update(i, training[i]),
            self.layers@[i].trains_with(after, training[i]),
            training[i].parameters@[0].velocity == old_training[i].parameters@[0].velocity,
            training[i].parameters@[1].velocity == old_training[i].parameters@[1].velocity,
            forall|id: usize|
                #![trigger Linear::gradient_slot(training[i], id)]
                Linear::gradient_slot(training[i], id) ==> Linear::gradient_slot(
                    old_training[i],
                    id,
                ) || !before.live@.contains(id),
        ensures
            forall|j: int, id: usize|
                #![trigger self.part_owns(training, j, id)]
                0 <= j < self.layers@.len() && self.part_owns(training, j, id)
                    ==> before.live@.contains(id) && self.part_owns(old_training, j, id) || j == i
                    && Linear::gradient_slot(training[i], id) && !before.live@.contains(id),
            forall|j: int, k: int, id: usize|
                #![trigger self.part_owns(training, j, id), self.part_owns(training, k, id)]
                0 <= j < self.layers@.len() && 0 <= k < self.layers@.len() && self.part_owns(
                    training,
                    j,
                    id,
                ) && self.part_owns(training, k, id) ==> j == k,
    {
        assert forall|j: int, id: usize|
            #![trigger self.part_owns(training, j, id)]
            0 <= j < self.layers@.len() && self.part_owns(training, j, id) implies (
        before.live@.contains(id) && self.part_owns(old_training, j, id) || j == i
            && Linear::gradient_slot(training[i], id) && !before.live@.contains(id)) by {
            if j != i {
                assert(self.part_owns(old_training, j, id));
                self.lemma_parts_live(before, old_training, j, id);
            } else {
                if self.layers@[i].owns(id) {
                    assert(self.part_owns(old_training, i, id));
                    self.lemma_parts_live(before, old_training, i, id);
                } else if Linear::gradient_slot(training[i], id) {
                    if before.live@.contains(id) {
                        assert(Linear::gradient_slot(old_training[i], id));
                        assert(self.part_owns(old_training, i, id));
                    }
                } else {
                    assert(Linear::state_owns(old_training[i], id));
                    assert(self.part_owns(old_training, i, id));
                    self.lemma_parts_live(before, old_training, i, id);
                }
            }
        }
        assert forall|j: int, k: int, id: usize|
            #![trigger self.part_owns(training, j, id), self.part_owns(training, k, id)]
            0 <= j < self.layers@.len() && 0 <= k < self.layers@.len() && self.part_owns(
                training,
                j,
                id,
            ) && self.part_owns(training, k, id) implies j == k by {
            if before.live@.contains(id) {
                assert(self.part_owns(old_training, j, id));
                assert(self.part_owns(old_training, k, id));
            }
        }
    }

    /// No retained input belongs to a layer or its training state.
    pub open spec fn inputs_apart(self, inputs: Seq<Matrix>, training: Seq<NodeTrainState>) -> bool {
        forall|k: int, i: int|
            #![trigger inputs[k], self.layers@[i]]
            0 <= k < inputs.len() && 0 <= i < self.layers@.len() ==> !self.part_owns(
                training,
                i,
                inputs[k].buffer.id,
            )
    }

    /// A retained input stays while only later gradients change.
    proof fn lemma_input_kept(
        self,
        before: CudaRuntime,
        now: CudaRuntime,
        inputs: Seq<Matrix>,
        start: Seq<NodeTrainState>,
        first: int,
        k: int,
    )
        requires
            before.wf(),
            now.keeps_but(before, |id: usize| self.later_gradient(start, first, id)),
            forall|id: usize| before.live@.contains(id) ==> #[trigger] now.live@.contains(id),
            before.holds_all(inputs),
            self.inputs_apart(inputs, start),
            0 <= k < inputs.len(),
            0 <= first,
        ensures
            now.holds(inputs[k]),
            now.matrix(inputs[k]) == before.matrix(inputs[k]),
    {
        let id = inputs[k].buffer.id;
        assert(before.holds(inputs[k]));
        assert(now.live@.contains(id));
        assert(now.buffers@[id as int] == inputs[k].buffer.len);
        assert(!self.later_gradient(start, first, id)) by {
            if self.later_gradient(start, first, id) {
                let j = choose|j: int|
                    first <= j < self.layers@.len() && #[trigger] Linear::gradient_slot(
                        start[j],
                        id,
                    );
                assert(!self.part_owns(start, j, id)) by {
                    let l = self.layers@[j];
                }
            }
        }
    }

    /// A layer's parameters stay while only later gradients change.
    proof fn lemma_values_kept(
        self,
        before: CudaRuntime,
        now: CudaRuntime,
        start: Seq<NodeTrainState>,
        first: int,
        i: int,
    )
        requires
            before.wf(),
            self.trains_with(before, start),
            now.keeps_but(before, |id: usize| self.later_gradient(start, first, id)),
            0 <= i < first <= self.layers@.len(),
        ensures
            now.matrix(self.layers@[i].weights) == before.matrix(self.layers@[i].weights),
            self.layers@[i].bias_terms(now) == self.layers@[i].bias_terms(before),
    {
        let layer = self.layers@[i];
        assert(layer.trains_with(before, start[i]));
        assert forall|id: usize| layer.owns(id) implies !self.later_gradient(start, first, id) by {
            if self.later_gradient(start, first, id) {
                let j = choose|j: int|
                    first <= j < self.layers@.len() && #[trigger] Linear::gradient_slot(
                        start[j],
                        id,
                    );
                assert(self.part_owns(start, j, id));
                assert(self.part_owns(start, i, id));
            }
        }
        assert(layer.owns(layer.weights.buffer.id));
        if layer.bias is Some {
            assert(layer.owns(layer.bias->0.buffer.id));
        }
    }

    /// The training states after one more layer took in its sample.
    proof fn lemma_layer_done(
        self,
        before: CudaRuntime,
        s0: CudaRuntime,
        s1: CudaRuntime,
        s6: CudaRuntime,
        start: Seq<NodeTrainState>,
        t0: Seq<NodeTrainState>,
        t1: Seq<NodeTrainState>,
        inputs: Seq<Seq<Term>>,
        rows: nat,
        g: Seq<Term>,
        was: int,
    )
        requires
            0 < was <= self.layers@.len(),
            before.wf(),
            s0.wf(),
            s1.wf(),
            self.trains_with(before, start),
            self.trains_with(s0, t0),
            t1 == t0.update(was - 1, t1[was - 1]),
            self.layers@[was - 1].trains_with(s1, t1[was - 1]),
            forall|j: int, k: int, id: usize|
                #![trigger self.part_owns(t1, j, id), self.part_owns(t1, k, id)]
                0 <= j < self.layers@.len() && 0 <= k < self.layers@.len() && self.part_owns(
                    t1,
                    j,
                    id,
                ) && self.part_owns(t1, k, id) ==> j == k,
            forall|j: int|
                #![trigger t0[j]]
                0 <= j < was ==> t0[j] == start[j] && MlpExecutor::slots_kept(start[j], before, s0),
            forall|j: int|
                #![trigger t0[j]]
                was <= j < self.layers@.len() ==> self.layers@[j].absorbed(
                    before,
                    s0,
                    start[j],
                    t0[j],
                    inputs[j],
                    self.inner_gradient(before, inputs, rows, g, j),
                    rows,
                ),
            self.layers@[was - 1].absorbed(
                s0,
                s1,
                t0[was - 1],
                t1[was - 1],
                inputs[was - 1],
                self.inner_gradient(before, inputs, rows, g, was - 1),
                rows,
            ),
            s1.keeps_but(s0, |id: usize| Linear::gradient_slot(t0[was - 1], id)),
            forall|id: usize| s0.live@.contains(id) ==> #[trigger] s1.live@.contains(id),
            self.parts_kept(t1, s1, s6),
        ensures
            self.trains_with(s6, t1),
            forall|j: int|
                #![trigger t1[j]]
                0 <= j < was - 1 ==> t1[j] == start[j] && MlpExecutor::slots_kept(
                    start[j],
                    before,
                    s6,
                ),
            forall|j: int|
                #![trigger t1[j]]
                was - 1 <= j < self.layers@.len() ==> self.layers@[j].absorbed(
                    before,
                    s6,
                    start[j],
                    t1[j],
                    inputs[j],
                    self.inner_gradient(before, inputs, rows, g, j),
                    rows,
                ),
    {
        let i = was - 1;
        assert forall|j: int|
            #![trigger t1[j]]
            0 <= j < self.layers@.len() implies self.layers@[j].trains_with(s1, t1[j]) && (j != i
            ==> t1[j] == t0[j] && MlpExecutor::slots_kept(t0[j], s0, s1)) by {
            if j != i {
                let layer = self.layers@[j];
                assert(t1[j] == t0[j]);
                assert(layer.trains_with(s0, t0[j]));
                assert forall|id: usize| self.part_owns(t0, j, id) implies s1.live@.contains(id)
                    && s1.mem(id) == s0.mem(id) by {
                    self.lemma_parts_live(s0, t0, j, id);
                    if Linear::gradient_slot(t0[i], id) {
                        assert(self.part_owns(t0, i, id));
                    }
                }
                assert forall|id: usize| #[trigger] layer.owns(id) implies s1.live@.contains(id)
                    && s1.mem(id) == s0.mem(id) by {
                    assert(self.part_owns(t0, j, id));
                }
                assert forall|id: usize| #[trigger] Linear::state_owns(
                    t0[j],
                    id,
                ) implies s1.live@.contains(id) && s1.mem(id) == s0.mem(id) by {
                    assert(self.part_owns(t0, j, id));
                }
                layer.lemma_trains_kept(t0[j], s0, s1);
            }
        }
        assert(self.trains_with(s1, t1));
        self.lemma_parts_kept(t1, s1, s6);
        assert forall|j: int|
            #![trigger t1[j]]
            0 <= j < i implies t1[j] == start[j] && MlpExecutor::slots_kept(start[j], before, s6) by {
            assert(t0[j] == start[j]);
        }
        assert forall|j: int|
            #![trigger t1[j]]
            i <= j < self.layers@.len() implies self.layers@[j].absorbed(
            before,
            s6,
            start[j],
            t1[j],
            inputs[j],
            self.inner_gradient(before, inputs, rows, g, j),
            rows,
        ) by {
            assert(MlpExecutor::slots_kept(t1[j], s1, s6));
            if j == i {
                assert(t0[i] == start[i]);
            } else {
                assert(t0[j] == t1[j]);
            }
        }
    }

    /// What a backward pass leaves behind.
    pub open spec fn backpropagated(
        self,
        before: CudaRuntime,
        after: CudaRuntime,
        layer_inputs: Seq<Matrix>,
        output_gradient: Matrix,
        start: Seq<NodeTrainState>,
        end: Seq<NodeTrainState>,
        r: Matrix,
    ) -> bool {
        let rows = output_gradient.rows as nat;
        let inputs = values_of(before, layer_inputs);
        let g = before.matrix(output_gradient);
        &&& after.wf()
        &&& self.trains_with(after, end)
        &&& after.holds(r)
        &&& !before.live@.contains(r.buffer.id)
        &&& r.rows == output_gradient.rows
        &&& r.cols == self.width(0)
        &&& after.matrix(r) == self.upstream(before, inputs, rows, g, 0)
        &&& forall|j: int|
            #![trigger end[j]]
            0 <= j < self.layers@.len() ==> self.layers@[j].absorbed(
                before,
                after,
                start[j],
                end[j],
                inputs[j],
                self.inner_gradient(before, inputs, rows, g, j),
                rows,
            )
        &&& forall|j: int, id: usize|
            #![trigger self.part_owns(end, j, id)]
            0 <= j < self.layers@.len() && self.part_owns(end, j, id) ==> id != r.buffer.id
        &&& forall|j: int, id: usize|
            #![trigger Linear::gradient_slot(end[j], id)]
            0 <= j < self.layers@.len() && Linear::gradient_slot(end[j], id)
                ==> Linear::gradient_slot(start[j], id) || !before.live@.contains(id)
        &&& after.device@.downloads == before.device@.downloads
        &&& after.ran_on(before, chosen(None))
        &&& forall|id: usize|
            #![trigger after.live@.contains(id)]
            after.live@.contains(id) <==> {
                ||| before.live@.contains(id)
                ||| id == r.buffer.id
                ||| self.later_gradient(end, 0, id)
            }
        &&& after.keeps_but(before, |id: usize| self.later_gradient(start, 0, id))
    }

    /// The training states when the layers from `left` on have taken in their
    /// sample and the others have not.
    #[verifier::opaque]
    pub open spec fn sums(
        self,
        before: CudaRuntime,
        now: CudaRuntime,
        start: Seq<NodeTrainState>,
        training: Seq<NodeTrainState>,
        inputs: Seq<Seq<Term>>,
        rows: nat,
        g: Seq<Term>,
        left: int,
    ) -> bool {
        &&& self.trains_with(now, training)
        &&& forall|j: int|
            #![trigger training[j]]
            0 <= j < left ==> training[j] == start[j] && MlpExecutor::slots_kept(
                start[j],
                before,
                now,
            )
        &&& forall|j: int|
            #![trigger training[j]]
            left <= j < self.layers@.len() ==> self.layers@[j].absorbed(
                before,
                now,
                start[j],
                training[j],
                inputs[j],
                self.inner_gradient(before, inputs, rows, g, j),
                rows,
            )
        &&& forall|j: int, id: usize|
            #![trigger Linear::gradient_slot(training[j], id)]
            left <= j < self.layers@.len() && Linear::gradient_slot(training[j], id)
                ==> Linear::gradient_slot(start[j], id) || !before.live@.contains(id)
    }

    /// The sums stay while all parts do.
    proof fn lemma_sums_kept(
        self,
        before: CudaRuntime,
        now: CudaRuntime,
        later: CudaRuntime,
        start: Seq<NodeTrainState>,
        training: Seq<NodeTrainState>,
        inputs: Seq<Seq<Term>>,
        rows: nat,
        g: Seq<Term>,
        left: int,
    )
        requires
            now.wf(),
            0 <= left <= self.layers@.len(),
            self.sums(before, now, start, training, inputs, rows, g, left),
            self.parts_kept(training, now, later),
        ensures
            self.sums(before, later, start, training, inputs, rows, g, left),
    {
        reveal(MlpExecutor::sums);
        self.lemma_parts_kept(training, now, later);
        assert forall|j: int|
            #![trigger training[j]]
            0 <= j < left implies training[j] == start[j] && MlpExecutor::slots_kept(
            start[j],
            before,
            later,
        ) by {
            assert(MlpExecutor::slots_kept(training[j], now, later));
        }
        assert forall|j: int|
            #![trigger training[j]]
            left <= j < self.layers@.len() implies self.layers@[j].absorbed(
            before,
            later,
            start[j],
            training[j],
            inputs[j],
            self.inner_gradient(before, inputs, rows, g, j),
            rows,
        ) by {
            assert(MlpExecutor::slots_kept(training[j], now, later));
        }
    }

    /// A matrix that came to life during the pass and belongs to no part.
    pub open spec fn loose(
        self,
        before: CudaRuntime,
        now: CudaRuntime,
        training: Seq<NodeTrainState>,
        m: Matrix,
    ) -> bool {
        &&& now.holds(m)
        &&& !before.live@.contains(m.buffer.id)
        &&& forall|j: int, id: usize|
            #![trigger self.part_owns(training, j, id)]
            0 <= j < self.layers@.len() && self.part_owns(training, j, id) ==> id != m.buffer.id
    }

    /// The gradient of the residual is waiting for the layer that it skips to.
    pub open spec fn skip_waits(
        self,
        before: CudaRuntime,
        now: CudaRuntime,
        training: Seq<NodeTrainState>,
        inputs: Seq<Seq<Term>>,
        rows: usize,
        g: Seq<Term>,
        skip: Option<Matrix>,
        left: int,
    ) -> bool {
        &&& skip is Some == (self.res_range is Some && self.res_start() < left && left
            < self.res_end())
        &&& skip matches Some(m) ==> self.loose(before, now, training, m) && m.rows == rows
            && m.cols == self.width(self.res_end()) && now.matrix(m) == self.inner_gradient(
            before,
            inputs,
            rows as nat,
            g,
            self.res_end() - 1,
        )
    }

    /// What holds of the device beside the training states.
    pub open spec fn passing(
        self,
        before: CudaRuntime,
        now: CudaRuntime,
        start: Seq<NodeTrainState>,
        training: Seq<NodeTrainState>,
        left: int,
        extra: Set<usize>,
    ) -> bool {
        &&& now.wf()
        &&& training.len() == self.layers@.len()
        &&& now.device@.downloads == before.device@.downloads
        &&& now.ran_on(before, chosen(None))
        &&& now.keeps_but(before, |id: usize| self.later_gradient(start, left, id))
        &&& forall|id: usize|
            #![trigger now.live@.contains(id)]
            now.live@.contains(id) <==> {
                ||| before.live@.contains(id)
                ||| extra.contains(id)
                ||| self.later_gradient(training, left, id)
            }
        &&& forall|j: int, id: usize|
            #![trigger self.part_owns(training, j, id)]
            0 <= j < self.layers@.len() && self.part_owns(training, j, id) ==> now.live@.contains(
                id,
            )
    }

    /// What the pass starts from.
    pub open spec fn departs(
        self,
        before: CudaRuntime,
        layer_inputs: Seq<Matrix>,
        start: Seq<NodeTrainState>,
        rows: usize,
    ) -> bool {
        &&& before.wf()
        &&& self.trains_with(before, start)
        &&& self.trains_rows(rows as int)
        &&& self.retains(before, layer_inputs, rows, self.layers@.len() as int)
        &&& self.inputs_apart(layer_inputs, start)
    }

    /// What a layer needs to take a gradient back.
    proof fn lemma_before_absorb(
        self,
        before: CudaRuntime,
        s0: CudaRuntime,
        layer_inputs: Seq<Matrix>,
        rows: usize,
        start: Seq<NodeTrainState>,
        t0: Seq<NodeTrainState>,
        g: Seq<Term>,
        i: int,
        residual: Option<&Matrix>,
        extra: Set<usize>,
    )
        requires
            0 <= i < self.layers@.len(),
            self.departs(before, layer_inputs, start, rows),
            self.passing(before, s0, start, t0, i + 1, extra),
            self.sums(
                before,
                s0,
                start,
                t0,
                values_of(before, layer_inputs),
                rows as nat,
                g,
                i + 1,
            ),
            residual is Some == (self.res_range is Some && self.res_end() == i + 1),
            residual is Some ==> *residual->0 == layer_inputs[self.res_start()],
        ensures
            self.layers@[i].trains_with(s0, t0[i]),
            self.layers@[i].accepts(s0, layer_inputs[i]),
            self.layers@[i].accepts_residual(s0, layer_inputs[i], residual),
            layer_inputs[i].rows == rows,
            s0.matrix(layer_inputs[i]) == before.matrix(layer_inputs[i]),
            s0.matrix(self.layers@[i].weights) == before.matrix(self.layers@[i].weights),
            self.layers@[i].affine_of(s0, layer_inputs[i], optional_terms(s0, residual))
                == self.pre_activation(before, values_of(before, layer_inputs), rows as nat, i),
    {
        reveal(MlpExecutor::sums);
        let layer = self.layers@[i];
        assert(t0[i] == start[i]);
        assert(layer.trains_with(s0, t0[i]));
        assert forall|id: usize| before.live@.contains(id) implies #[trigger] s0.live@.contains(
            id,
        ) by {}
        self.lemma_input_kept(before, s0, layer_inputs, start, i + 1, i);
        self.lemma_values_kept(before, s0, start, i + 1, i);
        if residual is Some {
            self.lemma_input_kept(before, s0, layer_inputs, start, i + 1, self.res_start());
        }
    }

    /// The sums reach one layer further once that layer has taken a gradient back.
    proof fn lemma_sums_extended(
        self,
        before: CudaRuntime,
        s0: CudaRuntime,
        s1: CudaRuntime,
        start: Seq<NodeTrainState>,
        t0: Seq<NodeTrainState>,
        t1: Seq<NodeTrainState>,
        inputs: Seq<Seq<Term>>,
        rows: nat,
        g: Seq<Term>,
        i: int,
    )
        requires
            0 <= i < self.layers@.len(),
            before.wf(),
            s0.wf(),
            s1.wf(),
            self.trains_with(before, start),
            self.sums(before, s0, start, t0, inputs, rows, g, i + 1),
            t1 == t0.update(i, t1[i]),
            self.layers@[i].trains_with(s1, t1[i]),
            forall|j: int, k: int, id: usize|
                #![trigger self.part_owns(t1, j, id), self.part_owns(t1, k, id)]
                0 <= j < self.layers@.len() && 0 <= k < self.layers@.len() && self.part_owns(
                    t1,
                    j,
                    id,
                ) && self.part_owns(t1, k, id) ==> j == k,
            forall|j: int, id: usize|
                #![trigger self.part_owns(t1, j, id)]
                0 <= j < self.layers@.len() && self.part_owns(t1, j, id) ==> s1.live@.contains(id),
            self.layers@[i].absorbed(
                s0,
                s1,
                t0[i],
                t1[i],
                inputs[i],
                self.inner_gradient(before, inputs, rows, g, i),
                rows,
            ),
            forall|id: usize|
                #![trigger Linear::gradient_slot(t1[i], id)]
                Linear::gradient_slot(t1[i], id) ==> Linear::gradient_slot(t0[i], id)
                    || !s0.live@.contains(id),
            s1.keeps_but(s0, |id: usize| Linear::gradient_slot(t0[i], id)),
            forall|id: usize| before.live@.contains(id) ==> #[trigger] s0.live@.contains(id),
            forall|id: usize| s0.live@.contains(id) ==> #[trigger] s1.live@.contains(id),
        ensures
            self.sums(before, s1, start, t1, inputs, rows, g, i),
    {
        reveal(MlpExecutor::sums);
        let n = self.layers@.len() as int;
        assert(self.parts_kept(t1, s1, s1));
        self.lemma_layer_done(before, s0, s1, s1, start, t0, t1, inputs, rows, g, i + 1);
        assert(t0[i] == start[i]);
        assert forall|j: int, id: usize|
            #![trigger Linear::gradient_slot(t1[j], id)]
            i <= j < n && Linear::gradient_slot(t1[j], id) implies Linear::gradient_slot(start[j], id)
            || !before.live@.contains(id) by {
            if j > i {
                assert(t1[j] == t0[j]);
                assert(Linear::gradient_slot(t0[j], id));
            } else {
                assert(before.live@.contains(id) ==> s0.live@.contains(id));
            }
        }
    }

    /// What is true once a layer has taken a gradient back.
    #[verifier::rlimit(60)]
    proof fn lemma_after_absorb(
        self,
        before: CudaRuntime,
        s0: CudaRuntime,
        s1: CudaRuntime,
        inputs: Seq<Seq<Term>>,
        rows: nat,
        start: Seq<NodeTrainState>,
        t0: Seq<NodeTrainState>,
        t1: Seq<NodeTrainState>,
        g: Seq<Term>,
        i: int,
        gradient: Matrix,
        skip: Option<Matrix>,
        input_gradient: Matrix,
        layer_gradient: Matrix,
    )
        requires
            0 <= i < self.layers@.len(),
            before.wf(),
            self.trains_with(before, start),
            self.passing(before, s0, start, t0, i + 1, waiting(gradient, skip)),
            self.sums(before, s0, start, t0, inputs, rows, g, i + 1),
            self.loose(before, s0, t0, gradient),
            skip matches Some(m) ==> self.loose(before, s0, t0, m) && m.buffer.id
                != gradient.buffer.id,
            s1.wf(),
            t1 == t0.update(i, t1[i]),
            self.layers@[i].trains_with(s1, t1[i]),
            s1.holds(input_gradient),
            s1.holds(layer_gradient),
            !s0.live@.contains(input_gradient.buffer.id),
            !s0.live@.contains(layer_gradient.buffer.id),
            input_gradient.buffer.id != layer_gradient.buffer.id,
            !Linear::state_owns(t1[i], input_gradient.buffer.id),
            !Linear::state_owns(t1[i], layer_gradient.buffer.id),
            self.layers@[i].absorbed(
                s0,
                s1,
                t0[i],
                t1[i],
                inputs[i],
                self.inner_gradient(before, inputs, rows, g, i),
                rows,
            ),
            s1.device@.downloads == s0.device@.downloads,
            s1.ran_on(s0, chosen(None)),
            forall|id: usize|
                #![trigger s1.live@.contains(id)]
                s1.live@.contains(id) <==> {
                    ||| id == input_gradient.buffer.id
                    ||| id == layer_gradient.buffer.id
                    ||| Linear::gradient_slot(t1[i], id)
                    ||| s0.live@.contains(id)
                },
            forall|id: usize|
                #![trigger Linear::gradient_slot(t1[i], id)]
                Linear::gradient_slot(t1[i], id) ==> Linear::gradient_slot(t0[i], id)
                    || !s0.live@.contains(id),
            s1.keeps_but(s0, |id: usize| Linear::gradient_slot(t0[i], id)),
        ensures
            self.passing(
                before,
                s1,
                start,
                t1,
                i,
                waiting(gradient, skip).insert(input_gradient.buffer.id).insert(
                    layer_gradient.buffer.id,
                ),
            ),
            self.sums(before, s1, start, t1, inputs, rows, g, i),
            self.loose(before, s1, t1, gradient),
            skip matches Some(m) ==> self.loose(before, s1, t1, m) && s1.matrix(m) == s0.matrix(m)
                && m.buffer.id != input_gradient.buffer.id && m.buffer.id
                != layer_gradient.buffer.id,
            self.loose(before, s1, t1, input_gradient),
            self.loose(before, s1, t1, layer_gradient),
            input_gradient.buffer.id != gradient.buffer.id,
            layer_gradient.buffer.id != gradient.buffer.id,
    {
        let n = self.layers@.len() as int;
        let was = i + 1;
        assert(self.trains_with(s0, t0) && t0[i] == start[i]) by {
            reveal(MlpExecutor::sums);
        }
        self.lemma_parts_after_layer(s0, s1, t0, t1, i);
        assert(s0.live@.contains(gradient.buffer.id));
        assert(s1.live@.contains(gradient.buffer.id));
        assert(s1.buffers@[gradient.buffer.id as int] == gradient.buffer.len);
        if skip is Some {
            let id = skip->0.buffer.id;
            assert(s0.live@.contains(id));
            assert(s1.live@.contains(id));
            assert(s1.buffers@[id as int] == skip->0.buffer.len);
            assert(!Linear::gradient_slot(t0[i], id)) by {
                if Linear::gradient_slot(t0[i], id) {
                    assert(self.part_owns(t0, i, id));
                }
            }
            assert(s1.mem(id) == s0.mem(id));
        }
        assert forall|j: int, id: usize|
            #![trigger self.part_owns(t1, j, id)]
            0 <= j < n && self.part_owns(t1, j, id) implies s1.live@.contains(id) && id
            != gradient.buffer.id && id != input_gradient.buffer.id && id
            != layer_gradient.buffer.id && (skip is Some ==> id != skip->0.buffer.id) by {
            if s0.live@.contains(id) {
                assert(self.part_owns(t0, j, id));
            }
        }
        self.lemma_sums_extended(before, s0, s1, start, t0, t1, inputs, rows, g, i);
        self.lemma_later_split(t0, t1, i);
        assert(start =~= start.update(i, start[i]));
        self.lemma_later_split(start, start, i);
        let extra = waiting(gradient, skip).insert(input_gradient.buffer.id).insert(
            layer_gradient.buffer.id,
        );
        assert forall|id: usize|
            #![trigger s1.live@.contains(id)]
            s1.live@.contains(id) <==> {
                ||| before.live@.contains(id)
                ||| extra.contains(id)
                ||| self.later_gradient(t1, i, id)
            } by {
            assert(s0.live@.contains(id) <==> {
                ||| before.live@.contains(id)
                ||| waiting(gradient, skip).contains(id)
                ||| self.later_gradient(t0, was, id)
            });
        }
        assert forall|id: usize|
            #![trigger s1.mem(id)]
            before.live@.contains(id) && !self.later_gradient(start, i, id) implies s1.mem(id)
            == before.mem(id) by {
            assert(s0.live@.contains(id));
            assert(s0.mem(id) == before.mem(id));
        }
    }

    /// Takes a gradient back through one layer. The gradient that came in and
    /// a waiting residual are left alone.
    #[verifier::rlimit(60)]
    fn absorb(
        &self,
        index: usize,
        layer_inputs: &Vec<Matrix>,
        gradient: &Matrix,
        skip: &Option<Matrix>,
        training: &mut Vec<NodeTrainState>,
        runtime: &mut CudaRuntime,
        Ghost(before): Ghost<CudaRuntime>,
        Ghost(start): Ghost<Seq<NodeTrainState>>,
        Ghost(g): Ghost<Seq<Term>>,
    ) -> (r: (Matrix, Matrix))
        requires
            index < self.layers@.len(),
            self.departs(before, layer_inputs@, start, gradient.rows),
            self.passing(
                before,
                *old(runtime),
                start,
                old(training)@,
                index + 1,
                waiting(*gradient, *skip),
            ),
            self.sums(
                before,
                *old(runtime),
                start,
                old(training)@,
                values_of(before, layer_inputs@),
                gradient.rows as nat,
                g,
                index + 1,
            ),
            self.loose(before, *old(runtime), old(training)@, *gradient),
            gradient.cols == self.width(index + 1),
            old(runtime).matrix(*gradient) == self.upstream(
                before,
                values_of(before, layer_inputs@),
                gradient.rows as nat,
                g,
                index + 1,
            ),
            *skip matches Some(m) ==> self.loose(before, *old(runtime), old(training)@, m)
                && m.buffer.id != gradient.buffer.id,
        ensures
            self.passing(
                before,
                *final(runtime),
                start,
                final(training)@,
                index as int,
                waiting(*gradient, *skip).insert(r.0.buffer.id).insert(r.1.buffer.id),
            ),
            self.sums(
                before,
                *final(runtime),
                start,
                final(training)@,
                values_of(before, layer_inputs@),
                gradient.rows as nat,
                g,
                index as int,
            ),
            self.loose(before, *final(runtime), final(training)@, *gradient),
            *skip matches Some(m) ==> self.loose(before, *final(runtime), final(training)@, m)
                && final(runtime).matrix(m) == old(runtime).matrix(m) && m.buffer.id
                != r.0.buffer.id && m.buffer.id != r.1.buffer.id,
            self.loose(before, *final(runtime), final(training)@, r.0),
            self.loose(before, *final(runtime), final(training)@, r.1),
            r.0.buffer.id != r.1.buffer.id,
            r.0.buffer.id != gradient.buffer.id,
            r.1.buffer.id != gradient.buffer.id,
            r.0.rows == gradient.rows,
            r.1.rows == gradient.rows,
            r.0.cols == self.layers@[index as int].weights.rows,
            r.1.cols == self.layers@[index as int].weights.cols,
            final(runtime).matrix(r.1) == self.inner_gradient(
                before,
                values_of(before, layer_inputs@),
                gradient.rows as nat,
                g,
                index as int,
            ),
            final(runtime).matrix(r.0) == input_gradient_terms(
                final(runtime).matrix(r.1),
                before.matrix(self.layers@[index as int].weights),
                gradient.rows as nat,
                self.layers@[index as int].weights.rows as nat,
                self.layers@[index as int].weights.cols as nat,
            ),
    {
        let ghost n = self.layers@.len() as int;
        let ghost i = index as int;
        let ghost was = i + 1;
        let ghost layer = self.layers@[i];
        let ghost s0 = *runtime;
        let ghost t0 = training@;
        let ghost rows = gradient.rows as nat;
        let ghost inputs = values_of(before, layer_inputs@);
        let done: usize = self.layers.len() - index - 1;
        let residual: Option<&Matrix> = match self.res_range {
            Some((start, end)) => if self.layers.len() - end == done {
                Some(&layer_inputs[start])
            } else {
                None
            },
            None => None,
        };
        proof {
            self.lemma_before_absorb(
                before,
                s0,
                layer_inputs@,
                gradient.rows,
                start,
                t0,
                g,
                i,
                residual,
                waiting(*gradient, *skip),
            );
        }
        let (input_gradient, layer_gradient) = self.layers[index].backward_through(
            &layer_inputs[index],
            residual,
            gradient,
            &mut training[index],
            runtime,
        );
        let ghost s1 = *runtime;
        let ghost t1 = training@;
        proof {
            assert(t1 =~= t0.update(i, t1[i]));
            self.lemma_after_absorb(
                before,
                s0,
                s1,
                inputs,
                rows,
                start,
                t0,
                t1,
                g,
                i,
                *gradient,
                *skip,
                input_gradient,
                layer_gradient,
            );
        }
        (input_gradient, layer_gradient)
    }

    /// The gradients from one layer on are its own and those of later layers.
    proof fn lemma_later_split(self, t0: Seq<NodeTrainState>, t1: Seq<NodeTrainState>, i: int)
        requires
            0 <= i < self.layers@.len(),
            t0.len() == self.layers@.len(),
            t1 == t0.update(i, t1[i]),
        ensures
            forall|id: usize| #[trigger]
                self.later_gradient(t1, i, id) <==> Linear::gradient_slot(t1[i], id)
                    || self.later_gradient(t0, i + 1, id),
    {
        assert forall|id: usize| #[trigger] self.later_gradient(t1, i, id) <==> Linear::gradient_slot(
            t1[i],
            id,
        ) || self.later_gradient(t0, i + 1, id) by {
            if self.later_gradient(t0, i + 1, id) {
                let j = choose|j: int|
                    i + 1 <= j < self.layers@.len() && #[trigger] Linear::gradient_slot(t0[j], id);
                assert(Linear::gradient_slot(t1[j], id));
            }
            if self.later_gradient(t1, i, id) {
                let j = choose|j: int|
                    i <= j < self.layers@.len() && #[trigger] Linear::gradient_slot(t1[j], id);
                if j != i {
                    assert(Linear::gradient_slot(t0[j], id));
                }
            }
        }
    }

    /// Backpropagates one sample through all layers and adds its parameter
    /// gradients to the batch.
    #[verifier::rlimit(100)]
    pub fn backward_accumulate(
        &self,
        layer_inputs: &Vec<Matrix>,
        output_gradient: &Matrix,
        training: &mut Vec<NodeTrainState>,
        runtime: &mut CudaRuntime,
    ) -> (r: Matrix)
        requires
            self.departs(*old(runtime), layer_inputs@, old(training)@, output_gradient.rows),
            old(runtime).holds(*output_gradient),
            output_gradient.cols == self.width(self.layers@.len() as int),
            !self.later_gradient(old(training)@, 0, output_gradient.buffer.id),
        ensures
            final(runtime).holds(*output_gradient),
            final(runtime).matrix(*output_gradient) == old(runtime).matrix(*output_gradient),
            self.backpropagated(
                *old(runtime),
                *final(runtime),
                layer_inputs@,
                *output_gradient,
                old(training)@,
                final(training)@,
                r,
            ),
    {
        let ghost before = *runtime;
        let ghost start = training@;
        let ghost n = self.layers@.len() as int;
        let ghost rows = output_gradient.rows as nat;
        let ghost inputs = values_of(before, layer_inputs@);
        let ghost g = before.matrix(*output_gradient);
        let mut gradient = runtime.clone_matrix(output_gradient, None);
        let mut skip: Option<Matrix> = None;
        let mut left: usize = self.layers.len();
        proof {
            assert forall|j: int, id: usize|
                #![trigger self.part_owns(start, j, id)]
                0 <= j < n && self.part_owns(start, j, id) implies runtime.live@.contains(id)
                && runtime.mem(id) == before.mem(id) && id != gradient.buffer.id by {
                self.lemma_parts_live(before, start, j, id);
            }
            self.lemma_parts_kept(start, before, *runtime);
            reveal(MlpExecutor::sums);
        }
        while left > 0
            invariant
                0 <= left <= n,
                n == self.layers@.len(),
                self.departs(before, layer_inputs@, start, output_gradient.rows),
                rows == output_gradient.rows,
                inputs == values_of(before, layer_inputs@),
                self.passing(before, *runtime, start, training@, left as int, waiting(gradient, skip)),
                self.sums(before, *runtime, start, training@, inputs, rows, g, left as int),
                self.loose(before, *runtime, training@, gradient),
                gradient.rows == output_gradient.rows,
                gradient.cols == self.width(left as int),
                runtime.matrix(gradient) == self.upstream(before, inputs, rows, g, left as int),
                self.skip_waits(
                    before,
                    *runtime,
                    training@,
                    inputs,
                    output_gradient.rows,
                    g,
                    skip,
                    left as int,
                ),
                skip matches Some(m) ==> m.buffer.id != gradient.buffer.id,
            decreases left,
        {
            left = left - 1;
            let index: usize = left;
            let ghost i = index as int;
            let ends = match self.res_range {
                Some((_, end)) => index + 1 == end,
                None => false,
            };
            let starts = match self.res_range {
                Some((start, _)) => index == start,
                None => false,
            };
            let (mut input_gradient, layer_gradient) = self.absorb(
                index,
                layer_inputs,
                &gradient,
                &skip,
                training,
                runtime,
                Ghost(before),
                Ghost(start),
                Ghost(g),
            );
            let ghost s1 = *runtime;
            let ghost t1 = training@;
            let ghost waited = skip;
            if ends {
                skip = Some(runtime.clone_matrix(&layer_gradient, None));
            }
            let ghost s2 = *runtime;
            let ghost held = skip;
            if starts {
                if let Some(m) = skip.take() {
                    input_gradient.binary_assign(&m, BinaryFn::Add, runtime, None);
                    let ghost s3 = *runtime;
                    runtime.drop_matrix(m);
                    assert(runtime.ran_on(s3, chosen(None)));
                }
            }
            let ghost s4 = *runtime;
            runtime.drop_matrix(layer_gradient);
            let ghost s5 = *runtime;
            runtime.drop_matrix(gradient);
            proof {
                assert(s5.ran_on(s4, chosen(None)));
                assert(runtime.ran_on(s5, chosen(None)));
                assert(self.parts_kept(t1, s1, *runtime)) by {
                    assert forall|j: int, id: usize|
                        #![trigger self.part_owns(t1, j, id)]
                        0 <= j < n && self.part_owns(t1, j, id) implies runtime.live@.contains(id)
                        && runtime.mem(id) == s1.mem(id) by {
                        assert(s1.live@.contains(id));
                    }
                }
                self.lemma_sums_kept(before, s1, *runtime, start, t1, inputs, rows, g, i);
                assert(self.passing(
                    before,
                    *runtime,
                    start,
                    t1,
                    i,
                    waiting(input_gradient, skip),
                )) by {
                    assert forall|id: usize| self.later_gradient(t1, i, id) implies s1.live@.contains(
                        id,
                    ) && id != gradient.buffer.id && id != layer_gradient.buffer.id && id
                        != input_gradient.buffer.id && (waited is Some ==> id
                        != waited->0.buffer.id) by {
                        let j = choose|j: int|
                            i <= j < self.layers@.len() && #[trigger] Linear::gradient_slot(
                                t1[j],
                                id,
                            );
                        assert(self.part_owns(t1, j, id));
                    }
                }
            }
            gradient = input_gradient;
        }
        proof {
            reveal(MlpExecutor::sums);
        }
        gradient
    }
}

/// The buffers of a gradient and of a waiting residual.
pub open spec fn waiting(gradient: Matrix, skip: Option<Matrix>) -> Set<usize> {
    match skip {
        Some(m) => set![gradient.buffer.id, m.buffer.id],
        None => set![gradient.buffer.id],
    }
}

/// A stack with the state that training needs.
pub struct TrainingMlp {
    /// `layer_inputs[i]` owns the input consumed by layer `i`.
    pub layer_inputs: Vec<Matrix>,
    pub executor: MlpExecutor,
    pub training: Vec<NodeTrainState>,
}

impl TrainingMlp {
    /// The invariant: layers and training states fit together, and everything
    /// has its own buffers.
    pub open spec fn wf(self, runtime: CudaRuntime) -> bool {
        &&& self.executor.trains_with(runtime, self.training@)
        &&& runtime.holds_all(self.layer_inputs@)
        &&& self.executor.inputs_apart(self.layer_inputs@, self.training@)
    }

    /// Whether a buffer belongs to the layers or their training states.
    pub open spec fn parts_own(self, id: usize) -> bool {
        exists|i: int|
            0 <= i < self.executor.layers@.len() && #[trigger] self.executor.part_owns(
                self.training@,
                i,
                id,
            )
    }

    pub fn new(layers: Vec<Linear>, res_range: Option<(usize, usize)>) -> (r: TrainingMlp)
        requires
            layers@.len() > 0,
            res_range matches Some(range) ==> range.0 < range.1 && range.1 <= layers@.len(),
        ensures
            r.executor == (MlpExecutor { layers, res_range, loss: Loss::MeanSquaredError }),
            r.executor.shaped(),
            r.layer_inputs@.len() == 0,
            r.training@.len() == layers@.len(),
            forall|i: int|
                0 <= i < r.training@.len() ==> (#[trigger] r.training@[i]).is_fresh(2),
    {
        TrainingMlp::with_loss(layers, res_range, Loss::MeanSquaredError)
    }

    pub fn with_loss(layers: Vec<Linear>, res_range: Option<(usize, usize)>, loss: Loss) -> (r:
        TrainingMlp)
        requires
            layers@.len() > 0,
            res_range matches Some(range) ==> range.0 < range.1 && range.1 <= layers@.len(),
        ensures
            r.executor == (MlpExecutor { layers, res_range, loss }),
            r.executor.shaped(),
            r.layer_inputs@.len() == 0,
            r.training@.len() == layers@.len(),
            forall|i: int|
                0 <= i < r.training@.len() ==> (#[trigger] r.training@[i]).is_fresh(2),
    {
        let count: usize = layers.len();
        let mut training: Vec<NodeTrainState> = Vec::new();
        let mut i: usize = 0;
        while i < count
            invariant
                i <= count,
                training@.len() == i,
                forall|k: int| 0 <= k < i ==> (#[trigger] training@[k]).is_fresh(2),
            decreases count - i,
        {
            training.push(NodeTrainState::with_parameter_count(2));
            i = i + 1;
        }
        TrainingMlp {
            layer_inputs: Vec::new(),
            executor: MlpExecutor::with_loss(layers, res_range, loss),
            training,
        }
    }

    /// Reserves the stack's place in a checkpoint.
    pub fn get_meta_data(&self, cursor: &mut MetadataCursor) -> (r: MlpMetadata)
        requires
            forall|i: int|
                #![trigger self.executor.layers@[i]]
                0 <= i < self.executor.layers@.len() ==> self.executor.layers@[i].weights.rows
                    * self.executor.layers@[i].weights.cols <= usize::MAX,
            old(cursor).position + self.executor.byte_len_of(self.executor.layers@.len() as int)
                <= u64::MAX,
        ensures
            r.layer_count == self.executor.layers@.len(),
            r.loss == self.executor.loss,
            r.residual == match self.executor.res_range {
                Some(range) => Some(ResidualMetadata { start: range.0, end: range.1 }),
                None => None,
            },
            r.layers@.len() == self.executor.layers@.len(),
            forall|i: int|
                0 <= i < r.layers@.len() ==> (#[trigger] r.layers@[i]).describes(
                    self.executor.layers@[i],
                    old(cursor).position + self.executor.byte_len_of(i),
                ),
            final(cursor).position == old(cursor).position + self.executor.byte_len_of(
                self.executor.layers@.len() as int,
            ),
    {
        self.executor.get_meta_data(cursor)
    }

    /// Brings all parameters to the host in checkpoint order.
    pub fn get_data(&self, runtime: &mut CudaRuntime) -> (r: Vec<HostRead>)
        requires
            old(runtime).wf(),
            self.executor.wf(*old(runtime)),
        ensures
            final(runtime).read_out(*old(runtime), r@, self.executor.parameters(*old(runtime))),
    {
        self.executor.get_data(runtime)
    }

    /// Replaces all parameters by the next ones of a source.
    pub fn set_data(&mut self, data: &mut HostDataCursor, runtime: &mut CudaRuntime)
        requires
            old(runtime).wf(),
            old(self).executor.wf(*old(runtime)),
            old(self).executor.separate(),
            old(self).executor.fits(*old(data)),
        ensures
            *final(self) == *old(self),
            old(self).executor.restored(*old(runtime), *final(runtime), *old(data), *final(data)),
    {
        self.executor.set_data(data, runtime);
    }

    pub fn loss(&self) -> (r: Loss)
        ensures
            r == self.executor.loss,
    {
        self.executor.loss()
    }

    /// Turns outputs into predictions.
    pub fn activate_output(&self, output: &mut Matrix, runtime: &mut CudaRuntime)
        requires
            old(runtime).wf(),
            old(runtime).holds(*old(output)),
        ensures
            *final(output) == *old(output),
            self.executor.loss is MeanSquaredError ==> *final(runtime) == *old(runtime),
            self.executor.loss is BinaryCrossEntropyWithLogits ==> final(runtime).changed(
                *old(runtime),
                old(output).buffer.id,
                None,
            ) && final(runtime).matrix(*old(output)) == apply(
                MapFn::Sigmoid,
                old(runtime).matrix(*old(output)),
            ),
    {
        self.executor.activate_output(output, runtime);
    }

    /// The mean loss of every row.
    pub fn loss_rows(&self, output: &Matrix, target: &Matrix, positive_weight: F32, runtime: &mut CudaRuntime) -> (r:
        Vector)
        requires
            old(runtime).wf(),
            comparable(*old(runtime), *output, *target, positive_weight),
            output.rows <= u32::MAX,
            output.rows > 0 ==> output.cols > 0,
        ensures
            final(runtime).grown(*old(runtime), r.buffer.id, None),
            final(runtime).holds_vector(r),
            r.buffer.len == output.rows,
            final(runtime).vector(r) == self.executor.loss.row_losses(
                old(runtime).matrix(*output),
                old(runtime).matrix(*target),
                positive_weight,
                output.rows,
                output.cols,
            ),
    {
        self.executor.loss_rows(output, target, positive_weight, runtime)
    }

    /// The gradient of the mean loss by the output.
    pub fn output_gradient(
        &self,
        output: &Matrix,
        target: &Matrix,
        positive_weight: F32,
        runtime: &mut CudaRuntime,
    ) -> (r: Matrix)
        requires
            old(runtime).wf(),
            comparable(*old(runtime), *output, *target, positive_weight),
        ensures
            final(runtime).grown(*old(runtime), r.buffer.id, None),
            final(runtime).holds(r),
            r.rows == output.rows,
            r.cols == output.cols,
            final(runtime).matrix(r) == self.executor.loss.gradient(
                old(runtime).matrix(*output),
                old(runtime).matrix(*target),
                positive_weight,
                output.buffer.len,
            ),
    {
        self.executor.output_gradient(output, target, positive_weight, runtime)
    }

    /// The mean loss of every row and the gradient by the output, with a
    /// Dice term where its weight is above zero.
    pub fn loss_and_output_gradient(
        &self,
        output: &Matrix,
        target: &Matrix,
        positive_weight: F32,
        dice_weight: F32,
        runtime: &mut CudaRuntime,
    ) -> (r: (Vector, Matrix))
        requires
            old(runtime).wf(),
            comparable(*old(runtime), *output, *target, positive_weight),
            output.rows <= u32::MAX,
            output.rows > 0 ==> output.cols > 0,
            dice_weight.finite(),
            dice_weight.value() >= 0,
            dice_weight.value() > 0 ==> self.executor.loss is BinaryCrossEntropyWithLogits,
        ensures
            self.executor.loss.scored(
                *old(runtime),
                *final(runtime),
                *output,
                *target,
                positive_weight,
                dice_weight,
                r,
            ),
    {
        self.executor.loss_and_output_gradient(output, target, positive_weight, dice_weight, runtime)
    }

    /// The input of the last forward pass, while it is retained.
    pub fn input(&self) -> (r: Option<&Matrix>)
        ensures
            r is Some == (self.layer_inputs@.len() > 0),
            r matches Some(m) ==> *m == self.layer_inputs@[0],
    {
        if self.layer_inputs.len() > 0 {
            Some(&self.layer_inputs[0])
        } else {
            None
        }
    }

    /// Gives back all retained inputs.
    pub fn clear_cache(&mut self, runtime: &mut CudaRuntime)
        requires
            old(runtime).wf(),
            old(self).wf(*old(runtime)),
        ensures
            final(self).layer_inputs@.len() == 0,
            final(self).executor == old(self).executor,
            final(self).training == old(self).training,
            final(self).wf(*final(runtime)),
            final(runtime).released(*old(runtime), old(self).layer_inputs@),
    {
        let ghost before = *runtime;
        let ghost start = *self;
        let mut inputs: Vec<Matrix> = Vec::new();
        std::mem::swap(&mut inputs, &mut self.layer_inputs);
        recycle_all(inputs, runtime);
        proof {
            let held = start.layer_inputs@;
            assert(start.executor.parts_kept(start.training@, before, *runtime)) by {
                assert forall|j: int, id: usize|
                    #![trigger start.executor.part_owns(start.training@, j, id)]
                    0 <= j < start.executor.layers@.len() && start.executor.part_owns(
                        start.training@,
                        j,
                        id,
                    ) implies runtime.live@.contains(id) && runtime.mem(id) == before.mem(id) by {
                    start.executor.lemma_parts_live(before, start.training@, j, id);
                    if ids(held).contains(id) {
                        let k = choose|k: int|
                            0 <= k < held.len() && (#[trigger] held[k]).buffer.id == id;
                        let l = start.executor.layers@[j];
                    }
                }
            }
            start.executor.lemma_parts_kept(start.training@, before, *runtime);
        }
    }

    /// Runs all layers and retains the input of each.
    #[verifier::rlimit(60)]
    pub fn forward(&mut self, input: Matrix, runtime: &mut CudaRuntime) -> (r: Matrix)
        requires
            old(runtime).wf(),
            old(self).wf(*old(runtime)),
            old(self).executor.accepts(*old(runtime), input),
            !old(self).parts_own(input.buffer.id),
            !ids(old(self).layer_inputs@).contains(input.buffer.id),
        ensures
            final(self).executor == old(self).executor,
            final(self).training == old(self).training,
            final(self).wf(*final(runtime)),
            old(self).executor.retains(
                *final(runtime),
                final(self).layer_inputs@,
                input.rows,
                old(self).executor.layers@.len() as int,
            ),
            final(self).layer_inputs@[0] == input,
            forall|i: int|
                0 <= i < old(self).executor.layers@.len() ==> final(runtime).matrix(
                    #[trigger] final(self).layer_inputs@[i],
                ) == old(self).executor.stage(
                    *old(runtime),
                    old(runtime).matrix(input),
                    input.rows as nat,
                    i,
                ),
            final(runtime).holds(r),
            r.rows == input.rows,
            r.cols == old(self).executor.width(old(self).executor.layers@.len() as int),
            final(runtime).matrix(r) == old(self).executor.stage(
                *old(runtime),
                old(runtime).matrix(input),
                input.rows as nat,
                old(self).executor.layers@.len() as int,
            ),
            !final(self).parts_own(r.buffer.id),
            !ids(final(self).layer_inputs@).contains(r.buffer.id),
            final(runtime).wf(),
            final(runtime).device@.downloads == old(runtime).device@.downloads,
            final(runtime).ran_on(*old(runtime), chosen(None)),
            forall|id: usize|
                #![trigger final(runtime).live@.contains(id)]
                final(runtime).live@.contains(id) <==> {
                    ||| id == r.buffer.id
                    ||| ids(final(self).layer_inputs@).contains(id)
                    ||| old(runtime).live@.contains(id) && !ids(
                        old(self).layer_inputs@,
                    ).contains(id)
                },
            final(runtime).keeps(*old(runtime), ids(old(self).layer_inputs@)),
            forall|id: usize|
                #![trigger ids(final(self).layer_inputs@).contains(id)]
                ids(final(self).layer_inputs@).contains(id) ==> id == input.buffer.id || !old(
                    runtime,
                ).live@.contains(id) || ids(old(self).layer_inputs@).contains(id),
            !old(runtime).live@.contains(r.buffer.id) || ids(old(self).layer_inputs@).contains(
                r.buffer.id,
            ),
    {
        let ghost before = *runtime;
        let ghost start = *self;
        let ghost ex = self.executor;
        let ghost n = ex.layers@.len() as int;
        let ghost x = before.matrix(input);
        let row_count: usize = input.rows;
        let ghost rows = input.rows as nat;
        self.clear_cache(runtime);
        let ghost cleared = *runtime;
        self.layer_inputs.push(input);
        proof {
            assert(cleared.ran_on(before, chosen(None)));
            assert(cleared.live@.contains(input.buffer.id));
            assert(cleared.buffers@[input.buffer.id as int] == input.buffer.len);
            assert(cleared.matrix(input) == x);
            assert(self.layer_inputs@ =~= seq![input]);
            self.executor.lemma_wf_from_training(before, start.training@);
        }
        let mut index: usize = 0;
        proof {
            cleared.lemma_ran_on_nothing(chosen(None));
            assert forall|id: usize| #[trigger] ids(self.layer_inputs@).contains(id) <==> id
                == input.buffer.id by {
                if id == input.buffer.id {
                    assert(self.layer_inputs@[0].buffer.id == id);
                }
            }
        }
        while index < self.executor.layers.len() - 1
            invariant
                index < n,
                start.executor == ex,
                n == ex.layers@.len(),
                self.executor == ex,
                self.training == start.training,
                before.wf(),
                cleared.wf(),
                ex.wf(before),
                ex.accepts_rows(input.rows as int),
                input.cols == ex.width(0),
                rows == input.rows,
                row_count == input.rows,
                ex.trains_with(cleared, start.training@),
                cleared.keeps(before, ids(start.layer_inputs@)),
                forall|id: usize|
                    #![trigger cleared.live@.contains(id)]
                    cleared.live@.contains(id) <==> before.live@.contains(id) && !ids(
                        start.layer_inputs@,
                    ).contains(id),
                ex.inputs_apart(start.layer_inputs@, start.training@),
                ex.trains_with(before, start.training@),
                runtime.wf(),
                runtime.device@.downloads == before.device@.downloads,
                cleared.ran_on(before, chosen(None)),
                runtime.ran_on(cleared, chosen(None)),
                runtime.keeps(cleared, Set::empty()),
                ex.retains(*runtime, self.layer_inputs@, input.rows, index + 1),
                self.layer_inputs@[0] == input,
                cleared.live@.contains(input.buffer.id),
                !start.parts_own(input.buffer.id),
                forall|k: int|
                    0 <= k <= index ==> runtime.matrix(#[trigger] self.layer_inputs@[k])
                        == ex.stage(before, x, rows, k),
                forall|k: int|
                    1 <= k <= index ==> !cleared.live@.contains(
                        (#[trigger] self.layer_inputs@[k]).buffer.id,
                    ),
                forall|id: usize|
                    #![trigger runtime.live@.contains(id)]
                    runtime.live@.contains(id) <==> cleared.live@.contains(id) || ids(
                        self.layer_inputs@,
                    ).contains(id),
            decreases n - index,
        {
            let ghost s0 = *runtime;
            let ghost held = self.layer_inputs@;
            let output = self.step(
                index,
                runtime,
                Ghost(before),
                Ghost(cleared),
                Ghost(start),
                Ghost(x),
                row_count,
            );
            proof {
                let all = held.push(output);
                lemma_ids_push(held, output);
                assert forall|k: int| 0 <= k < all.len() implies runtime.holds(#[trigger] all[k]) by {
                    if k < held.len() {
                        assert(s0.holds(held[k]));
                        assert(runtime.live@.contains(held[k].buffer.id));
                        assert(runtime.buffers@[held[k].buffer.id as int] == held[k].buffer.len);
                    }
                }
                assert forall|a: int, b: int| 0 <= a < b < all.len() implies (#[trigger]
                all[a]).buffer.id != (#[trigger] all[b]).buffer.id by {
                    if b == held.len() {
                        assert(ids(held).contains(held[a].buffer.id));
                        assert(s0.live@.contains(held[a].buffer.id));
                    }
                }
                assert forall|k: int| 0 <= k <= index + 1 implies runtime.matrix(#[trigger] all[k])
                    == ex.stage(before, x, rows, k) by {
                    if k <= index {
                        assert(all[k] == held[k]);
                        assert(s0.live@.contains(held[k].buffer.id)) by {
                            assert(ids(held).contains(held[k].buffer.id));
                        }
                    }
                }
                assert forall|k: int| 1 <= k <= index + 1 implies !cleared.live@.contains(
                    (#[trigger] all[k]).buffer.id,
                ) by {
                    if k <= index {
                        assert(all[k] == held[k]);
                    } else {
                        assert(!s0.live@.contains(output.buffer.id));
                    }
                }
            }
            self.layer_inputs.push(output);
            index = index + 1;
        }
        let ghost s0 = *runtime;
        let ghost held = self.layer_inputs@;
        let output = self.step(
            index,
            runtime,
            Ghost(before),
            Ghost(cleared),
            Ghost(start),
            Ghost(x),
            row_count,
        );
        proof {
            assert forall|k: int| 0 <= k < n implies runtime.holds(#[trigger] held[k])
                && runtime.matrix(held[k]) == ex.stage(before, x, rows, k) by {
                assert(s0.holds(held[k]));
                assert(ids(held).contains(held[k].buffer.id));
                assert(s0.live@.contains(held[k].buffer.id));
                assert(runtime.buffers@[held[k].buffer.id as int] == held[k].buffer.len);
            }
            assert forall|j: int, id: usize|
                #![trigger ex.part_owns(start.training@, j, id)]
                0 <= j < n && ex.part_owns(start.training@, j, id) implies runtime.live@.contains(id)
                && runtime.mem(id) == cleared.mem(id) && id != output.buffer.id && !ids(
                held,
            ).contains(id) by {
                ex.lemma_parts_live(cleared, start.training@, j, id);
                assert(s0.live@.contains(id));
                if ids(held).contains(id) {
                    let k = choose|k: int|
                        0 <= k < held.len() && (#[trigger] held[k]).buffer.id == id;
                    if k == 0 {
                        assert(start.parts_own(id));
                    }
                }
            }
            ex.lemma_parts_kept(start.training@, cleared, *runtime);
            assert(self.wf(*runtime)) by {
                assert forall|k: int, i: int|
                    #![trigger held[k], ex.layers@[i]]
                    0 <= k < held.len() && 0 <= i < n implies !ex.part_owns(
                    start.training@,
                    i,
                    held[k].buffer.id,
                ) by {
                    assert(ids(held).contains(held[k].buffer.id));
                }
            }
            assert(!self.parts_own(output.buffer.id));
            assert forall|id: usize| #![trigger ids(held).contains(id)] ids(held).contains(
                id,
            ) implies id == input.buffer.id || !before.live@.contains(id) || ids(
                start.layer_inputs@,
            ).contains(id) by {
                let k = choose|k: int|
                    0 <= k < held.len() && (#[trigger] held[k]).buffer.id == id;
                if k >= 1 {
                    assert(!cleared.live@.contains(id));
                }
            }
            assert(!s0.live@.contains(output.buffer.id));
            assert(!cleared.live@.contains(output.buffer.id));
        }
        output
    }

    /// Runs one layer on its retained input.
    #[verifier::rlimit(40)]
    fn step(
        &self,
        index: usize,
        runtime: &mut CudaRuntime,
        Ghost(before): Ghost<CudaRuntime>,
        Ghost(cleared): Ghost<CudaRuntime>,
        Ghost(start): Ghost<TrainingMlp>,
        Ghost(x): Ghost<Seq<Term>>,
        rows: usize,
    ) -> (r: Matrix)
        requires
            index < self.executor.layers@.len(),
            before.wf(),
            cleared.wf(),
            old(runtime).wf(),
            self.executor == start.executor,
            self.executor.wf(before),
            self.executor.accepts_rows(rows as int),
            self.executor.trains_with(before, start.training@),
            self.executor.inputs_apart(start.layer_inputs@, start.training@),
            cleared.keeps(before, ids(start.layer_inputs@)),
            forall|id: usize|
                #![trigger cleared.live@.contains(id)]
                cleared.live@.contains(id) <==> before.live@.contains(id) && !ids(
                    start.layer_inputs@,
                ).contains(id),
            old(runtime).keeps(cleared, Set::empty()),
            forall|id: usize|
                #![trigger old(runtime).live@.contains(id)]
                cleared.live@.contains(id) ==> old(runtime).live@.contains(id),
            self.executor.retains(*old(runtime), self.layer_inputs@, rows, index + 1),
            forall|k: int|
                0 <= k <= index ==> old(runtime).matrix(#[trigger] self.layer_inputs@[k])
                    == self.executor.stage(before, x, rows as nat, k),
        ensures
            final(runtime).grown(*old(runtime), r.buffer.id, None),
            final(runtime).holds(r),
            r.rows == rows,
            r.cols == self.executor.width(index + 1),
            final(runtime).matrix(r) == self.executor.stage(before, x, rows as nat, index + 1),
    {
        let ghost s0 = *runtime;
        let ghost i = index as int;
        let ghost ex = self.executor;
        let ghost layer = ex.layers@[i];
        let layer_input: &Matrix = &self.layer_inputs[index];
        let left: usize = self.executor.layers.len() - index - 1;
        let residual: Option<&Matrix> = match self.executor.res_range {
            Some((source, end)) => if self.executor.layers.len() - end == left {
                Some(&self.layer_inputs[source])
            } else {
                None
            },
            None => None,
        };
        proof {
            assert(layer.wf(before));
            assert forall|id: usize| layer.owns(id) implies s0.live@.contains(id) && s0.mem(id)
                == before.mem(id) && s0.buffers@[id as int] == before.buffers@[id as int] by {
                assert(ex.part_owns(start.training@, i, id));
                ex.lemma_parts_live(before, start.training@, i, id);
                if ids(start.layer_inputs@).contains(id) {
                    let k = choose|k: int|
                        0 <= k < start.layer_inputs@.len() && (
                        #[trigger] start.layer_inputs@[k]).buffer.id == id;
                    let l = ex.layers@[i];
                }
                assert(cleared.live@.contains(id));
                assert(cleared.buffers@[id as int] == before.buffers@[id as int]);
            }
            assert(layer.owns(layer.weights.buffer.id));
            if layer.bias is Some {
                assert(layer.owns(layer.bias->0.buffer.id));
            }
            assert(layer.wf(s0));
            assert(s0.holds(self.layer_inputs@[i]));
            if residual is Some {
                assert(s0.holds(self.layer_inputs@[ex.res_start()]));
            }
            assert(layer.accepts(s0, *layer_input));
            assert(activated(
                layer.activation,
                layer.affine_of(s0, *layer_input, optional_terms(s0, residual)),
            ) == ex.stage(before, x, rows as nat, i + 1));
        }
        self.executor.layers[index].forward(layer_input, residual, runtime, None)
    }

    /// Backpropagates one sample and accumulates its parameter gradients into
    /// the current mini-batch without changing any parameters.
    pub fn backward_accumulate(&mut self, output_gradient: &Matrix, runtime: &mut CudaRuntime) -> (r: Matrix)
        requires
            old(self).executor.departs(
                *old(runtime),
                old(self).layer_inputs@,
                old(self).training@,
                output_gradient.rows,
            ),
            old(runtime).holds(*output_gradient),
            output_gradient.cols == old(self).executor.width(
                old(self).executor.layers@.len() as int,
            ),
            !old(self).executor.later_gradient(
                old(self).training@,
                0,
                output_gradient.buffer.id,
            ),
        ensures
            final(self).executor == old(self).executor,
            final(self).layer_inputs == old(self).layer_inputs,
            final(runtime).holds(*output_gradient),
            final(runtime).matrix(*output_gradient) == old(runtime).matrix(*output_gradient),
            old(self).executor.backpropagated(
                *old(runtime),
                *final(runtime),
                old(self).layer_inputs@,
                *output_gradient,
                old(self).training@,
                final(self).training@,
                r,
            ),
    {
        self.executor.backward_accumulate(
            &self.layer_inputs,
            output_gradient,
            &mut self.training,
            runtime,
        )
    }

    /// The same as [`TrainingMlp::backward_accumulate`].
    pub fn backward(&mut self, output_gradient: &Matrix, runtime: &mut CudaRuntime) -> (r: Matrix)
        requires
            old(self).executor.departs(
                *old(runtime),
                old(self).layer_inputs@,
                old(self).training@,
                output_gradient.rows,
            ),
            old(runtime).holds(*output_gradient),
            output_gradient.cols == old(self).executor.width(
                old(self).executor.layers@.len() as int,
            ),
            !old(self).executor.later_gradient(
                old(self).training@,
                0,
                output_gradient.buffer.id,
            ),
        ensures
            final(self).executor == old(self).executor,
            final(self).layer_inputs == old(self).layer_inputs,
            final(runtime).holds(*output_gradient),
            final(runtime).matrix(*output_gradient) == old(runtime).matrix(*output_gradient),
            old(self).executor.backpropagated(
                *old(runtime),
                *final(runtime),
                old(self).layer_inputs@,
                *output_gradient,
                old(self).training@,
                final(self).training@,
                r,
            ),
    {
        self.backward_accumulate(output_gradient, runtime)
    }

    /// Applies the mean gradient of the accumulated batch with momentum, and
    /// clears the gradients.
    pub fn learn(
        &mut self,
        learning_rate: Rate,
        momentum: F32,
        batch_len: usize,
        runtime: &mut CudaRuntime,
    )
        requires
            old(runtime).wf(),
            old(self).wf(*old(runtime)),
            (LearnConfig { learning_rate, momentum, batch_len }).valid(),
            old(self).executor.batch_ready(old(self).training@),
        ensures
            final(self).executor == old(self).executor,
            final(self).layer_inputs == old(self).layer_inputs,
            final(self).wf(*final(runtime)),
            old(self).executor.learned(
                *old(runtime),
                *final(runtime),
                old(self).training@,
                final(self).training@,
                (LearnConfig { learning_rate, momentum, batch_len }),
            ),
    {
        let ghost before = *runtime;
        let ghost start = *self;
        self.executor.descend(
            &mut self.training,
            LearnConfig { learning_rate, momentum, batch_len },
            runtime,
        );
        proof {
            let inputs = start.layer_inputs@;
            let ex = start.executor;
            assert forall|k: int| 0 <= k < inputs.len() implies runtime.holds(#[trigger] inputs[k]) by {
                assert(before.holds(inputs[k]));
                let id = inputs[k].buffer.id;
                if ex.freed(start.training@, id) {
                    let j = choose|j: int|
                        0 <= j < ex.layers@.len() && #[trigger] Linear::gives_back(
                            start.training@[j],
                            id,
                        );
                    let l = ex.layers@[j];
                    assert(ex.part_owns(start.training@, j, id));
                }
                assert(runtime.live@.contains(id));
                assert(runtime.buffers@[id as int] == before.buffers@[id as int]);
            }
            assert forall|k: int, i: int|
                #![trigger inputs[k], ex.layers@[i]]
                0 <= k < inputs.len() && 0 <= i < ex.layers@.len() implies !ex.part_owns(
                self.training@,
                i,
                inputs[k].buffer.id,
            ) by {
                if ex.part_owns(self.training@, i, inputs[k].buffer.id) {
                    assert(ex.part_owns(start.training@, i, inputs[k].buffer.id));
                }
            }
        }
    }
}

impl MlpExecutor {
    /// Whether every layer has a gradient to apply.
    pub open spec fn batch_ready(self, training: Seq<NodeTrainState>) -> bool {
        forall|i: int|
            #![trigger training[i]]
            0 <= i < self.layers@.len() ==> self.layers@[i].batch_ready(training[i])
    }

    /// Whether an optimizer step gives a buffer back.
    pub open spec fn freed(self, training: Seq<NodeTrainState>, id: usize) -> bool {
        self.freed_before(training, self.layers@.len() as int, id)
    }

    /// Whether one of the first layers gives a buffer back.
    pub open spec fn freed_before(self, training: Seq<NodeTrainState>, n: int, id: usize) -> bool {
        exists|j: int| 0 <= j < n && #[trigger] Linear::gives_back(training[j], id)
    }

    /// Whether a buffer belongs to one of the layers or training states.
    pub open spec fn any_owns(self, training: Seq<NodeTrainState>, id: usize) -> bool {
        exists|j: int| 0 <= j < self.layers@.len() && #[trigger] self.part_owns(training, j, id)
    }

    /// The state after an optimizer step on every layer.
    pub open spec fn learned(
        self,
        before: CudaRuntime,
        after: CudaRuntime,
        start: Seq<NodeTrainState>,
        end: Seq<NodeTrainState>,
        config: LearnConfig,
    ) -> bool {
        &&& end.len() == start.len()
        &&& forall|j: int|
            #![trigger end[j]]
            0 <= j < self.layers@.len() ==> self.layers@[j].moved(
                before,
                after,
                start[j],
                end[j],
                config,
            )
        &&& after.wf()
        &&& self.trains_with(after, end)
        &&& forall|j: int, id: usize|
            #![trigger self.part_owns(end, j, id)]
            0 <= j < self.layers@.len() && self.part_owns(end, j, id) ==> self.part_owns(
                start,
                j,
                id,
            )
        &&& after.device@.downloads == before.device@.downloads
        &&& after.ran_on(before, chosen(None))
        &&& after.keeps_but(before, |id: usize| self.any_owns(start, id))
        &&& forall|id: usize|
            #![trigger after.live@.contains(id)]
            after.live@.contains(id) <==> before.live@.contains(id) && !self.freed(start, id)
    }

    /// A layer's move stands while its buffers stay.
    proof fn lemma_moved_kept(
        self,
        j: int,
        before: CudaRuntime,
        middle: CudaRuntime,
        after: CudaRuntime,
        start: NodeTrainState,
        end: NodeTrainState,
        config: LearnConfig,
    )
        requires
            0 <= j < self.layers@.len(),
            self.layers@[j].moved(before, middle, start, end, config),
            self.layers@[j].trains_with(middle, end),
            forall|id: usize|
                #![trigger after.mem(id)]
                self.layers@[j].owns(id) || Linear::state_owns(end, id) ==> after.mem(id)
                    == middle.mem(id),
        ensures
            self.layers@[j].moved(before, after, start, end, config),
    {
        let layer = self.layers@[j];
        assert(layer.owns(layer.weights.buffer.id));
        if layer.bias is Some {
            assert(layer.owns(layer.bias->0.buffer.id));
        }
    }

    /// Applies the accumulated batch of every layer.
    #[verifier::rlimit(60)]
    pub(crate) fn descend(
        &self,
        training: &mut Vec<NodeTrainState>,
        config: LearnConfig,
        runtime: &mut CudaRuntime,
    )
        requires
            old(runtime).wf(),
            self.trains_with(*old(runtime), old(training)@),
            config.valid(),
            self.batch_ready(old(training)@),
        ensures
            self.learned(*old(runtime), *final(runtime), old(training)@, final(training)@, config),
    {
        let ghost before = *runtime;
        let ghost start = training@;
        proof {
            runtime.lemma_ran_on_nothing(chosen(None));
        }
        let mut index: usize = 0;
        while index < self.layers.len()
            invariant
                index <= self.layers@.len(),
                before.wf(),
                runtime.wf(),
                self.trains_with(before, start),
                self.trains_with(*runtime, training@),
                config.valid(),
                self.batch_ready(start),
                training@.len() == start.len(),
                forall|j: int|
                    #![trigger training@[j]]
                    index <= j < self.layers@.len() ==> training@[j] == start[j],
                forall|j: int|
                    #![trigger training@[j]]
                    0 <= j < index ==> self.layers@[j].moved(
                        before,
                        *runtime,
                        start[j],
                        training@[j],
                        config,
                    ),
                forall|j: int, id: usize|
                    #![trigger self.part_owns(training@, j, id)]
                    0 <= j < self.layers@.len() && self.part_owns(training@, j, id)
                        ==> self.part_owns(start, j, id),
                forall|j: int, id: usize|
                    #![trigger self.part_owns(start, j, id)]
                    index <= j < self.layers@.len() && self.part_owns(start, j, id)
                        ==> runtime.mem(id) == before.mem(id),
                runtime.device@.downloads == before.device@.downloads,
                runtime.ran_on(before, chosen(None)),
                runtime.keeps_but(before, |id: usize| self.any_owns(start, id)),
                forall|id: usize|
                    #![trigger runtime.live@.contains(id)]
                    runtime.live@.contains(id) <==> before.live@.contains(id)
                        && !self.freed_before(start, index as int, id),
            decreases self.layers@.len() - index,
        {
            let ghost s0 = *runtime;
            let ghost t0 = training@;
            let ghost i = index as int;
            assert(t0[i] == start[i]);
            self.layers[index].descend(&mut training[index], config, runtime);
            proof {
                self.lemma_descended(before, s0, *runtime, start, t0, training@, i, config);
            }
            index = index + 1;
        }
    }

    /// One more layer has taken its step.
    #[verifier::rlimit(60)]
    proof fn lemma_descended(
        self,
        before: CudaRuntime,
        s0: CudaRuntime,
        s1: CudaRuntime,
        start: Seq<NodeTrainState>,
        t0: Seq<NodeTrainState>,
        t1: Seq<NodeTrainState>,
        i: int,
        config: LearnConfig,
    )
        requires
            0 <= i < self.layers@.len(),
            before.wf(),
            s0.wf(),
            self.trains_with(before, start),
            self.trains_with(s0, t0),
            t0.len() == start.len(),
            t1 == t0.update(i, t1[i]),
            self.layers@[i].learned(s0, s1, t0[i], t1[i], config),
            self.layers@[i].batch_ready(t0[i]),
            forall|j: int|
                #![trigger t0[j]]
                i <= j < self.layers@.len() ==> t0[j] == start[j],
            forall|j: int|
                #![trigger t0[j]]
                0 <= j < i ==> self.layers@[j].moved(before, s0, start[j], t0[j], config),
            forall|j: int, id: usize|
                #![trigger self.part_owns(t0, j, id)]
                0 <= j < self.layers@.len() && self.part_owns(t0, j, id) ==> self.part_owns(
                    start,
                    j,
                    id,
                ),
            forall|j: int, id: usize|
                #![trigger self.part_owns(start, j, id)]
                i <= j < self.layers@.len() && self.part_owns(start, j, id) ==> s0.mem(id)
                    == before.mem(id),
            s0.keeps_but(before, |id: usize| self.any_owns(start, id)),
            forall|id: usize|
                #![trigger s0.live@.contains(id)]
                s0.live@.contains(id) <==> before.live@.contains(id) && !self.freed_before(
                    start,
                    i,
                    id,
                ),
        ensures
            self.trains_with(s1, t1),
            forall|j: int|
                #![trigger t1[j]]
                i < j < self.layers@.len() ==> t1[j] == start[j],
            forall|j: int|
                #![trigger t1[j]]
                0 <= j <= i ==> self.layers@[j].moved(before, s1, start[j], t1[j], config),
            forall|j: int, id: usize|
                #![trigger self.part_owns(t1, j, id)]
                0 <= j < self.layers@.len() && self.part_owns(t1, j, id) ==> self.part_owns(
                    start,
                    j,
                    id,
                ),
            forall|j: int, id: usize|
                #![trigger self.part_owns(start, j, id)]
                i < j < self.layers@.len() && self.part_owns(start, j, id) ==> s1.mem(id)
                    == before.mem(id),
            s1.keeps_but(before, |id: usize| self.any_owns(start, id)),
            forall|id: usize|
                #![trigger s1.live@.contains(id)]
                s1.live@.contains(id) <==> before.live@.contains(id) && !self.freed_before(
                    start,
                    i + 1,
                    id,
                ),
    {
        let layer = self.layers@[i];
        assert forall|id: usize| layer.owns(id) || Linear::state_owns(t1[i], id) implies (
        #[trigger] self.part_owns(t0, i, id)) by {}
        assert forall|j: int, id: usize|
            #![trigger self.part_owns(t1, j, id)]
            0 <= j < self.layers@.len() && self.part_owns(t1, j, id) implies self.part_owns(
            t0,
            j,
            id,
        ) && self.part_owns(start, j, id) by {
            if j == i {
                assert(self.part_owns(t0, i, id));
            } else {
                assert(t1[j] == t0[j]);
                assert(self.part_owns(t0, j, id));
            }
        }
        // What another layer owns is neither changed nor given back.
        assert forall|j: int, id: usize|
            #![trigger self.part_owns(t0, j, id)]
            0 <= j < self.layers@.len() && j != i && self.part_owns(t0, j, id) implies s1.mem(id)
            == s0.mem(id) && s1.live@.contains(id) by {
            self.lemma_parts_live(s0, t0, j, id);
            if layer.owns(id) || Linear::state_owns(t0[i], id) {
                assert(self.part_owns(t0, i, id));
            }
        }
        assert forall|j: int| #![trigger t1[j]] 0 <= j < self.layers@.len() && j != i implies self.layers@[j].trains_with(
            s1,
            t1[j],
        ) by {
            assert(t1[j] == t0[j]);
            assert(self.layers@[j].trains_with(s0, t0[j]));
            assert forall|id: usize| #[trigger] self.layers@[j].owns(id) implies s1.live@.contains(id)
                && s1.mem(id) == s0.mem(id) by {
                assert(self.part_owns(t0, j, id));
            }
            assert forall|id: usize| #[trigger] Linear::state_owns(
                t0[j],
                id,
            ) implies s1.live@.contains(id) && s1.mem(id) == s0.mem(id) by {
                assert(self.part_owns(t0, j, id));
            }
            self.layers@[j].lemma_trains_kept(t0[j], s0, s1);
        }
        assert forall|j: int| #![trigger t1[j]] 0 <= j < i implies self.layers@[j].moved(
            before,
            s1,
            start[j],
            t1[j],
            config,
        ) by {
            assert(t1[j] == t0[j]);
            assert forall|id: usize|
                #![trigger s1.mem(id)]
                self.layers@[j].owns(id) || Linear::state_owns(t0[j], id) implies s1.mem(id)
                == s0.mem(id) by {
                assert(self.part_owns(t0, j, id));
            }
            assert(self.layers@[j].trains_with(s0, t0[j]));
            self.lemma_moved_kept(j, before, s0, s1, start[j], t0[j], config);
        }
        assert(layer.moved(before, s1, start[i], t1[i], config)) by {
            assert forall|id: usize|
                #![trigger s0.mem(id)]
                layer.owns(id) || Linear::state_owns(start[i], id) implies s0.mem(id) == before.mem(
                id,
            ) by {
                assert(self.part_owns(start, i, id));
            }
            assert(layer.owns(layer.weights.buffer.id));
            if layer.bias is Some {
                assert(layer.owns(layer.bias->0.buffer.id));
            }
            assert(layer.moved(s0, s1, start[i], t1[i], config));
        }
        assert forall|j: int, id: usize|
            #![trigger self.part_owns(start, j, id)]
            i < j < self.layers@.len() && self.part_owns(start, j, id) implies s1.mem(id)
            == before.mem(id) by {
            assert(t0[j] == start[j]);
            assert(self.part_owns(t0, j, id));
        }
        assert forall|id: usize|
            #![trigger s1.mem(id)]
            before.live@.contains(id) && !self.any_owns(start, id) implies s1.mem(id) == before.mem(
            id,
        ) by {
            assert(s0.mem(id) == before.mem(id));
            if layer.owns(id) || Linear::state_owns(t0[i], id) {
                assert(self.part_owns(start, i, id));
            }
            if self.freed_before(start, i, id) {
                let j = choose|j: int| 0 <= j < i && #[trigger] Linear::gives_back(start[j], id);
                assert(self.part_owns(start, j, id));
            }
        }
        assert forall|id: usize|
            #![trigger s1.live@.contains(id)]
            s1.live@.contains(id) <==> before.live@.contains(id) && !self.freed_before(
            start,
            i + 1,
            id,
        ) by {
            assert(s1.live@.contains(id) <==> s0.live@.contains(id) && !Linear::gives_back(
                t0[i],
                id,
            ));
            if self.freed_before(start, i, id) {
                let j = choose|j: int| 0 <= j < i && #[trigger] Linear::gives_back(start[j], id);
                assert(Linear::gives_back(start[j], id));
            }
            if Linear::gives_back(start[i], id) {
                assert(self.freed_before(start, i + 1, id));
            }
        }
    }
}

impl MlpExecutor {
    /// Layers that can train are alive.
    pub proof fn lemma_wf_from_training(self, runtime: CudaRuntime, training: Seq<NodeTrainState>)
        requires
            self.trains_with(runtime, training),
        ensures
            self.wf(runtime),
    {
        assert forall|i: int| 0 <= i < self.layers@.len() implies (
        #[trigger] self.layers@[i]).wf(runtime) by {
            assert(self.layers@[i].trains_with(runtime, training[i]));
        }
    }
}

} // verus!
