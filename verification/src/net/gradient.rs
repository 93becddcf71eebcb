//! Passing a gradient back through one layer.

use vstd::prelude::*;

use crate::cuda::algebra::{zip, Term};
use crate::cuda::command::Stream;
use crate::cuda::container::{ids, Matrix, Vector};
use crate::cuda::ops::BinaryFn;
use crate::cuda::runtime::{chosen, CudaRuntime};
use crate::graph::config::LearnConfig;
use crate::graph::state::{NodeTrainState, ParameterBuffer};
use crate::net::linear::{
    input_gradient_terms, pre_activation_gradient, slot_id, slot_terms, trainable, Linear,
};
use crate::net::node::binary::sum_of_first;
use crate::net::node::{BinaryNode, BinaryOp};

verus! {

broadcast use crate::cuda::runtime::group_streams;

impl CudaRuntime {
    /// One exchange after another is an exchange.
    pub proof fn lemma_replaced_again(
        self,
        middle: CudaRuntime,
        before: CudaRuntime,
        taken: Set<usize>,
        held: Set<usize>,
        part: Set<usize>,
        made: Set<usize>,
    )
        requires
            middle.replaced(before, taken, held),
            self.replaced(middle, part, made),
            part.subset_of(held),
        ensures
            self.replaced(before, taken, held.difference(part).union(made)),
    {
        let all = held.difference(part).union(made);
        assert forall|id: usize| #![trigger self.live@.contains(id)] self.live@.contains(id)
            <==> before.live@.difference(taken).union(all).contains(id) by {
            if before.live@.contains(id) && !taken.contains(id) {
                assert(!held.contains(id));
            }
        }
        assert(self.live@ =~= before.live@.difference(taken).union(all));
        assert forall|id: usize| #![trigger all.contains(id)] all.contains(id) implies !before.live@.contains(
            id,
        ) || taken.contains(id) by {
            if made.contains(id) && before.live@.contains(id) && !taken.contains(id) {
                assert(middle.live@.contains(id));
                assert(part.contains(id));
            }
        }
        assert forall|id: usize| #![trigger self.mem(id)] before.live@.contains(id)
            && !taken.contains(id) implies self.mem(id) == before.mem(id) by {
            assert(!held.contains(id));
            assert(middle.live@.contains(id));
            assert(middle.mem(id) == before.mem(id));
        }
        assert forall|id: usize| #![trigger self.buffers@[id as int]] id < before.buffers@.len() implies id
            < self.buffers@.len() && self.buffers@[id as int] == before.buffers@[id as int] by {
            assert(middle.buffers@[id as int] == before.buffers@[id as int]);
        }
    }

    /// What is not touched can be counted as exchanged for itself.
    pub proof fn lemma_replaced_more(
        self,
        before: CudaRuntime,
        taken: Set<usize>,
        made: Set<usize>,
        more: Set<usize>,
    )
        requires
            self.replaced(before, taken, made),
            more.subset_of(before.live@),
            more.disjoint(taken),
        ensures
            self.replaced(before, taken.union(more), made.union(more)),
    {
        assert(self.live@ =~= before.live@.difference(taken.union(more)).union(made.union(more)));
        assert(self.keeps(before, taken.union(more)));
    }

    /// Nothing done is an exchange of live buffers for themselves.
    pub proof fn lemma_replaced_nothing(self, held: Set<usize>)
        requires
            self.wf(),
            held.subset_of(self.live@),
        ensures
            self.replaced(self, held, held),
    {
        assert(self.live@ =~= self.live@.difference(held).union(held));
    }

    /// A buffer less.
    pub proof fn lemma_replaced_shrunk(self, before: CudaRuntime, id: usize)
        requires
            self.shrunk(before, id),
        ensures
            self.replaced(before, set![id], Set::empty()),
    {
        assert(self.live@ =~= before.live@.difference(set![id]).union(Set::empty()));
    }

    /// A buffer more.
    pub proof fn lemma_replaced_grown(self, before: CudaRuntime, id: usize, stream: Option<Stream>)
        requires
            self.grown(before, id, stream),
            stream is None,
        ensures
            self.replaced(before, Set::empty(), set![id]),
    {
        assert(self.live@ =~= before.live@.difference(Set::empty()).union(set![id]));
        assert(self.keeps(before, Set::empty()));
    }
}

/// The buffers of the gradients of a training state.
pub open spec fn gradient_ids(state: NodeTrainState) -> Set<usize> {
    Set::new(|id: usize| Linear::gradient_slot(state, id))
}

/// What passing a gradient back through a layer leaves.
pub struct PassedBack {
    /// The gradient of the layer's input.
    pub input_gradient: Matrix,
    /// The gradient before the activation.
    pub gradient: Matrix,
    /// The gradient of the bias.
    pub bias_gradient: Option<Vector>,
    /// The layer's value before the activation, if it was needed.
    pub pre_activation: Option<Matrix>,
}

impl PassedBack {
    /// The buffers that are of no further use.
    pub open spec fn leftovers(self) -> Set<usize> {
        let bias = match self.bias_gradient {
            Some(b) => set![b.buffer.id],
            None => Set::empty(),
        };
        let pre = match self.pre_activation {
            Some(m) => set![m.buffer.id],
            None => Set::empty(),
        };
        bias.union(pre).insert(self.gradient.buffer.id)
    }

    /// Everything is alive and nothing shares a buffer.
    pub open spec fn wf(self, runtime: CudaRuntime) -> bool {
        &&& runtime.holds(self.input_gradient)
        &&& self.leftovers_wf(runtime)
        &&& !self.leftovers().contains(self.input_gradient.buffer.id)
    }

    /// The same for what is of no further use.
    pub open spec fn leftovers_wf(self, runtime: CudaRuntime) -> bool {
        &&& runtime.holds(self.gradient)
        &&& self.bias_gradient matches Some(b) ==> runtime.holds_vector(b) && b.buffer.id
            != self.gradient.buffer.id
        &&& self.pre_activation matches Some(m) ==> runtime.holds(m) && m.buffer.id
            != self.gradient.buffer.id
        &&& self.bias_gradient is Some && self.pre_activation is Some
            ==> self.bias_gradient->0.buffer.id != self.pre_activation->0.buffer.id
    }

    /// Gives back what is of no further use and keeps the input's gradient.
    pub fn recycle(self, runtime: &mut CudaRuntime) -> (r: Matrix)
        requires
            old(runtime).wf(),
            self.wf(*old(runtime)),
        ensures
            r == self.input_gradient,
            final(runtime).exchanged(*old(runtime), self.leftovers(), Set::empty()),
            final(runtime).holds(r),
            final(runtime).matrix(r) == old(runtime).matrix(r),
    {
        let ghost before = *runtime;
        let ghost all = self;
        let PassedBack { input_gradient, gradient, bias_gradient, pre_activation } = self;
        proof {
            runtime.lemma_ran_on_nothing(chosen(None));
        }
        if let Some(m) = pre_activation {
            runtime.recycle_matrix(m);
            assert(runtime.ran_on(before, chosen(None)));
        }
        let ghost s1 = *runtime;
        if let Some(b) = bias_gradient {
            assert(s1.buffers@[b.buffer.id as int] == b.buffer.len);
            runtime.recycle_vector(b);
            assert(runtime.ran_on(s1, chosen(None)));
        }
        let ghost s2 = *runtime;
        assert(s2.buffers@[gradient.buffer.id as int] == gradient.buffer.len);
        runtime.recycle_matrix(gradient);
        proof {
            assert(runtime.ran_on(s2, chosen(None)));
            assert(runtime.live@ =~= before.live@.difference(all.leftovers()).union(Set::empty()));
            assert(runtime.keeps(before, all.leftovers()));
            assert(runtime.buffers@[input_gradient.buffer.id as int] == input_gradient.buffer.len);
        }
        input_gradient
    }

    /// What is left over stays as it is while other buffers are exchanged.
    pub proof fn lemma_leftovers_spared(
        self,
        before: CudaRuntime,
        after: CudaRuntime,
        taken: Set<usize>,
        made: Set<usize>,
    )
        requires
            before.wf(),
            self.leftovers_wf(before),
            after.replaced(before, taken, made),
            taken.disjoint(self.leftovers()),
        ensures
            self.leftovers_wf(after),
            made.disjoint(self.leftovers()),
    {
        assert(self.leftovers().contains(self.gradient.buffer.id));
        lemma_matrix_spared(self.gradient, before, after, taken, made);
        if let Some(m) = self.pre_activation {
            assert(self.leftovers().contains(m.buffer.id));
            lemma_matrix_spared(m, before, after, taken, made);
        }
        if let Some(b) = self.bias_gradient {
            assert(self.leftovers().contains(b.buffer.id));
            assert(after.live@.contains(b.buffer.id));
            assert(after.buffers@[b.buffer.id as int] == b.buffer.len);
        }
        assert forall|id: usize| made.contains(id) implies !self.leftovers().contains(id) by {
            if self.leftovers().contains(id) {
                assert(before.live@.contains(id));
            }
        }
    }

    /// Frees what is of no further use.
    pub(crate) fn discard(
        gradient: Matrix,
        bias_gradient: Option<Vector>,
        pre_activation: Option<Matrix>,
        runtime: &mut CudaRuntime,
        Ghost(all): Ghost<PassedBack>,
    )
        requires
            old(runtime).wf(),
            all.gradient == gradient,
            all.bias_gradient == bias_gradient,
            all.pre_activation == pre_activation,
            all.leftovers_wf(*old(runtime)),
        ensures
            final(runtime).exchanged(*old(runtime), all.leftovers(), Set::empty()),
    {
        let ghost before = *runtime;
        proof {
            runtime.lemma_ran_on_nothing(chosen(None));
        }
        if let Some(b) = bias_gradient {
            runtime.drop_vector(b);
            assert(runtime.ran_on(before, chosen(None)));
        }
        let ghost s1 = *runtime;
        assert(s1.buffers@[gradient.buffer.id as int] == gradient.buffer.len);
        runtime.drop_matrix(gradient);
        let ghost s2 = *runtime;
        assert(s2.ran_on(s1, chosen(None)));
        if let Some(m) = pre_activation {
            assert(s2.buffers@[m.buffer.id as int] == m.buffer.len);
            runtime.drop_matrix(m);
            assert(runtime.ran_on(s2, chosen(None)));
        }
        proof {
            assert(runtime.live@ =~= before.live@.difference(all.leftovers()).union(Set::empty()));
            assert(runtime.keeps(before, all.leftovers()));
        }
    }
}

impl Linear {
    /// The gradient before the activation that an upstream gradient leads to.
    pub open spec fn inner_gradient(self, runtime: CudaRuntime, input: Matrix, upstream: Seq<Term>) -> Seq<
        Term,
    > {
        pre_activation_gradient(self.activation, self.affine_of(runtime, input, None), upstream)
    }

    /// Passes a gradient back: adds the sample's parameter gradients to the
    /// batch and makes the gradient of the input. The value before the
    /// activation is computed again where it is needed.
    #[verifier::rlimit(40)]
    pub fn pass_back(
        &self,
        state: &mut NodeTrainState,
        input: &Matrix,
        upstream: &Matrix,
        runtime: &mut CudaRuntime,
    ) -> (r: PassedBack)
        requires
            old(runtime).wf(),
            self.trains_with(*old(runtime), *old(state)),
            old(runtime).holds(*input),
            old(runtime).holds(*upstream),
            input.cols == self.weights.rows,
            upstream.rows == input.rows,
            upstream.cols == self.weights.cols,
            trainable(input.rows as int, input.cols as int, upstream.cols as int),
            self.bias is None ==> old(state).parameters@[1].gradient is None,
            !gradient_ids(*old(state)).contains(input.buffer.id),
            !gradient_ids(*old(state)).contains(upstream.buffer.id),
        ensures
            self.trains_with(*final(runtime), *final(state)),
            self.absorbed(
                *old(runtime),
                *final(runtime),
                *old(state),
                *final(state),
                old(runtime).matrix(*input),
                self.inner_gradient(*old(runtime), *input, old(runtime).matrix(*upstream)),
                input.rows as nat,
            ),
            r.wf(*final(runtime)),
            r.input_gradient.rows == input.rows,
            r.input_gradient.cols == input.cols,
            final(runtime).matrix(r.input_gradient) == input_gradient_terms(
                self.inner_gradient(*old(runtime), *input, old(runtime).matrix(*upstream)),
                old(runtime).matrix(self.weights),
                input.rows as nat,
                self.weights.rows as nat,
                self.weights.cols as nat,
            ),
            final(runtime).exchanged(
                *old(runtime),
                gradient_ids(*old(state)),
                gradient_ids(*final(state)).union(r.leftovers()).insert(
                    r.input_gradient.buffer.id,
                ),
            ),
            forall|id: usize|
                #![trigger r.leftovers().contains(id)]
                r.leftovers().contains(id) ==> !old(runtime).live@.contains(id) && !gradient_ids(
                    *final(state),
                ).contains(id),
            !old(runtime).live@.contains(r.input_gradient.buffer.id),
            !gradient_ids(*final(state)).contains(r.input_gradient.buffer.id),
    {
        let ghost before = *runtime;
        let ghost start = *state;
        let pre_activation = if self.needs_pre_activation() {
            Some(self.affine(input, None, runtime, None))
        } else {
            proof {
                runtime.lemma_ran_on_nothing(chosen(None));
            }
            None
        };
        let ghost s1 = *runtime;
        let (gradient, bias_gradient) = self.backward(
            match &pre_activation {
                Some(m) => Some(m),
                None => None,
            },
            upstream,
            runtime,
            None,
        );
        let ghost s2 = *runtime;
        let ghost inner = self.inner_gradient(before, *input, before.matrix(*upstream));
        proof {
            assert(s2.matrix(gradient) == inner);
            assert(s2.matrix(self.weights) == before.matrix(self.weights));
        }
        let input_gradient = self.input_gradient(&gradient, runtime, None);
        let ghost s3 = *runtime;
        proof {
            assert(s3.matrix(*input) == before.matrix(*input));
            assert(s3.matrix(gradient) == s2.matrix(gradient));
        }
        self.accumulate_training(
            state,
            input,
            &gradient,
            match &bias_gradient {
                Some(b) => Some(b),
                None => None,
            },
            runtime,
        );
        let r = PassedBack { input_gradient, gradient, bias_gradient, pre_activation };
        proof {
            let taken = gradient_ids(start);
            let made = gradient_ids(*state).union(r.leftovers()).insert(input_gradient.buffer.id);
            assert forall|id: usize| #![trigger runtime.live@.contains(id)] runtime.live@.contains(id)
                <==> before.live@.difference(taken).union(made).contains(id) by {
                assert(taken.contains(id) <==> Linear::gradient_slot(start, id));
                assert(gradient_ids(*state).contains(id) <==> Linear::gradient_slot(*state, id));
            }
            assert(runtime.live@ =~= before.live@.difference(taken).union(made));
            assert(runtime.keeps(before, taken));
        }
        r
    }
}

/// The buffers of a layer and its training state.
pub open spec fn trained_ids(layer: Linear, state: NodeTrainState) -> Set<usize> {
    Set::new(|id: usize| layer.owns(id) || Linear::state_owns(state, id))
}

impl Linear {
    /// What passing a gradient back through the layer makes of it.
    pub open spec fn through(self, runtime: CudaRuntime, input: Matrix, upstream: Seq<Term>) -> Seq<Term> {
        input_gradient_terms(
            self.inner_gradient(runtime, input, upstream),
            runtime.matrix(self.weights),
            input.rows as nat,
            self.weights.rows as nat,
            self.weights.cols as nat,
        )
    }

    /// Inputs and gradients that can be passed back.
    pub open spec fn trains_on(self, runtime: CudaRuntime, state: NodeTrainState, input: Matrix) -> bool {
        &&& self.trains_with(runtime, state)
        &&& runtime.holds(input)
        &&& input.cols == self.weights.rows
        &&& trainable(input.rows as int, input.cols as int, self.weights.cols as int)
        &&& self.bias is None ==> state.parameters@[1].gradient is None
        &&& !trained_ids(self, state).contains(input.buffer.id)
    }

    /// The layer, its training state and a retained input stay as they are while
    /// their buffers do.
    pub proof fn lemma_trains_on_kept(
        self,
        state: NodeTrainState,
        input: Matrix,
        before: CudaRuntime,
        after: CudaRuntime,
        touched: Set<usize>,
    )
        requires
            before.wf(),
            self.trains_on(before, state, input),
            after.keeps(before, touched),
            forall|id: usize|
                #![trigger after.live@.contains(id)]
                before.live@.contains(id) && !touched.contains(id) ==> after.live@.contains(id),
            touched.disjoint(trained_ids(self, state)),
            !touched.contains(input.buffer.id),
        ensures
            self.trains_on(after, state, input),
            after.matrix(input) == before.matrix(input),
            after.matrix(self.weights) == before.matrix(self.weights),
            self.bias_terms(after) == self.bias_terms(before),
            self.affine_of(after, input, None) == self.affine_of(before, input, None),
            slot_terms(state.parameters@[0].gradient, after) == slot_terms(
                state.parameters@[0].gradient,
                before,
            ),
            slot_terms(state.parameters@[1].gradient, after) == slot_terms(
                state.parameters@[1].gradient,
                before,
            ),
    {
        self.lemma_trains_kept_outside(state, before, after, touched);
        assert(after.live@.contains(input.buffer.id));
        assert(after.buffers@[input.buffer.id as int] == input.buffer.len);
        assert(after.mem(input.buffer.id) == before.mem(input.buffer.id));
    }

    /// The same without an input.
    pub proof fn lemma_trains_kept_outside(
        self,
        state: NodeTrainState,
        before: CudaRuntime,
        after: CudaRuntime,
        touched: Set<usize>,
    )
        requires
            before.wf(),
            self.trains_with(before, state),
            after.keeps(before, touched),
            forall|id: usize|
                #![trigger after.live@.contains(id)]
                before.live@.contains(id) && !touched.contains(id) ==> after.live@.contains(id),
            touched.disjoint(trained_ids(self, state)),
        ensures
            self.trains_with(after, state),
            after.matrix(self.weights) == before.matrix(self.weights),
            self.bias_terms(after) == self.bias_terms(before),
            slot_terms(state.parameters@[0].gradient, after) == slot_terms(
                state.parameters@[0].gradient,
                before,
            ),
            slot_terms(state.parameters@[1].gradient, after) == slot_terms(
                state.parameters@[1].gradient,
                before,
            ),
            slot_terms(state.parameters@[0].velocity, after) == slot_terms(
                state.parameters@[0].velocity,
                before,
            ),
            slot_terms(state.parameters@[1].velocity, after) == slot_terms(
                state.parameters@[1].velocity,
                before,
            ),
            trained_ids(self, state).subset_of(before.live@),
            trained_ids(self, state).subset_of(after.live@),
    {
        self.lemma_trained_ids_live(state, before);
        let own = trained_ids(self, state);
        assert forall|id: usize| #[trigger] self.owns(id) implies after.live@.contains(id)
            && after.mem(id) == before.mem(id) by {
            assert(own.contains(id));
            assert(!touched.contains(id));
        }
        assert forall|id: usize| #[trigger] Linear::state_owns(state, id) implies after.live@.contains(
            id,
        ) && after.mem(id) == before.mem(id) by {
            assert(own.contains(id));
            assert(!touched.contains(id));
        }
        self.lemma_trains_kept(state, before, after);
        self.lemma_trained_ids_live(state, after);
    }

    /// The buffers of a layer and its training state are alive.
    pub proof fn lemma_trained_ids_live(self, state: NodeTrainState, runtime: CudaRuntime)
        requires
            self.trains_with(runtime, state),
        ensures
            trained_ids(self, state).subset_of(runtime.live@),
    {
    }

    /// What a step adds counts from and to any moment at which the gradients are
    /// the same.
    pub proof fn lemma_absorbed_between(
        self,
        before: CudaRuntime,
        from: CudaRuntime,
        to: CudaRuntime,
        after: CudaRuntime,
        start: NodeTrainState,
        end: NodeTrainState,
        input: Seq<Term>,
        gradient: Seq<Term>,
        rows: nat,
    )
        requires
            self.absorbed(from, to, start, end, input, gradient, rows),
            slot_terms(start.parameters@[0].gradient, from) == slot_terms(
                start.parameters@[0].gradient,
                before,
            ),
            slot_terms(start.parameters@[1].gradient, from) == slot_terms(
                start.parameters@[1].gradient,
                before,
            ),
            slot_terms(end.parameters@[0].gradient, after) == slot_terms(
                end.parameters@[0].gradient,
                to,
            ),
            slot_terms(end.parameters@[1].gradient, after) == slot_terms(
                end.parameters@[1].gradient,
                to,
            ),
        ensures
            self.absorbed(before, after, start, end, input, gradient, rows),
    {
    }

    /// A layer and its training state are in order while their buffers are alive.
    pub proof fn lemma_trains_alive(
        self,
        state: NodeTrainState,
        before: CudaRuntime,
        after: CudaRuntime,
    )
        requires
            before.wf(),
            self.trains_with(before, state),
            before.live@.subset_of(after.live@),
            before.buffers@.len() <= after.buffers@.len(),
            forall|id: usize|
                #![trigger after.buffers@[id as int]]
                id < before.buffers@.len() ==> after.buffers@[id as int]
                    == before.buffers@[id as int],
        ensures
            self.trains_with(after, state),
    {
        self.lemma_trained_ids_live(state, before);
        assert forall|id: usize| trained_ids(self, state).contains(id) implies after.buffers@[id as int]
            == before.buffers@[id as int] by {}
        self.lemma_wf_kept(before, after);
        assert forall|slot: Option<ParameterBuffer>|
            (slot == state.parameters@[0].gradient || slot == state.parameters@[0].velocity || slot
                == state.parameters@[1].gradient || slot == state.parameters@[1].velocity)
                && #[trigger] slot_id(slot) is Some implies after.buffers@[slot_id(slot)->0 as int]
            == before.buffers@[slot_id(slot)->0 as int] by {
            assert(trained_ids(self, state).contains(slot_id(slot)->0));
        }
    }

    /// A backward pass stays inside the layer, its training state and what it hands on.
    pub proof fn lemma_passed_exchanged(
        self,
        before: CudaRuntime,
        after: CudaRuntime,
        start: NodeTrainState,
        end: NodeTrainState,
        passed: PassedBack,
    )
        requires
            self.trains_with(before, start),
            self.trains_with(after, end),
            end.parameters@[0].velocity == start.parameters@[0].velocity,
            end.parameters@[1].velocity == start.parameters@[1].velocity,
            after.exchanged(
                before,
                gradient_ids(start),
                gradient_ids(end).union(passed.leftovers()).insert(
                    passed.input_gradient.buffer.id,
                ),
            ),
            forall|id: usize|
                #![trigger passed.leftovers().contains(id)]
                passed.leftovers().contains(id) ==> !before.live@.contains(id) && !gradient_ids(
                    end,
                ).contains(id),
            !before.live@.contains(passed.input_gradient.buffer.id),
            !gradient_ids(end).contains(passed.input_gradient.buffer.id),
        ensures
            after.exchanged(
                before,
                trained_ids(self, start),
                trained_ids(self, end).union(passed.leftovers()).insert(
                    passed.input_gradient.buffer.id,
                ),
            ),
            trained_ids(self, end).disjoint(passed.leftovers()),
            !trained_ids(self, end).contains(passed.input_gradient.buffer.id),
            after.matrix(self.weights) == before.matrix(self.weights),
            self.bias_terms(after) == self.bias_terms(before),
    {
        let ig = passed.input_gradient.buffer.id;
        let few = gradient_ids(end).union(passed.leftovers()).insert(ig);
        let taken = trained_ids(self, start);
        let made = trained_ids(self, end).union(passed.leftovers()).insert(ig);
        self.lemma_trained_ids_live(start, before);
        self.lemma_trained_ids_live(end, after);
        assert(gradient_ids(start).subset_of(taken));
        assert(gradient_ids(end).subset_of(trained_ids(self, end)));
        assert forall|id: usize| #[trigger] trained_ids(self, end).contains(id) && !gradient_ids(
            end,
        ).contains(id) implies taken.contains(id) && before.live@.contains(id) by {}
        assert forall|id: usize| #[trigger] taken.contains(id) && !gradient_ids(start).contains(
            id,
        ) implies trained_ids(self, end).contains(id) by {}
        assert(after.live@ =~= before.live@.difference(taken).union(made));
        assert forall|id: usize| #![trigger made.contains(id)] made.contains(id) implies !before.live@.contains(
            id,
        ) || taken.contains(id) by {
            if gradient_ids(end).contains(id) {
                assert(few.contains(id));
            }
        }
        assert(after.keeps(before, taken));
        assert(self.owns(self.weights.buffer.id));
        if let Some(bias) = self.bias {
            assert(self.owns(bias.buffer.id));
        }
    }

    /// Passes a gradient back and gives back everything but the input's gradient.
    pub(crate) fn consume_gradient(
        &self,
        state: &mut NodeTrainState,
        input: &Matrix,
        upstream: Matrix,
        runtime: &mut CudaRuntime,
    ) -> (r: Matrix)
        requires
            old(runtime).wf(),
            self.trains_on(*old(runtime), *old(state), *input),
            old(runtime).holds(upstream),
            upstream.rows == input.rows,
            upstream.cols == self.weights.cols,
            !trained_ids(*self, *old(state)).contains(upstream.buffer.id),
            input.buffer.id != upstream.buffer.id,
        ensures
            self.trains_on(*final(runtime), *final(state), *input),
            self.absorbed(
                *old(runtime),
                *final(runtime),
                *old(state),
                *final(state),
                old(runtime).matrix(*input),
                self.inner_gradient(*old(runtime), *input, old(runtime).matrix(upstream)),
                input.rows as nat,
            ),
            final(runtime).exchanged(
                *old(runtime),
                trained_ids(*self, *old(state)).insert(upstream.buffer.id),
                trained_ids(*self, *final(state)).insert(r.buffer.id),
            ),
            final(runtime).holds(r),
            !old(runtime).live@.contains(r.buffer.id),
            !trained_ids(*self, *final(state)).contains(r.buffer.id),
            r.rows == input.rows,
            r.cols == input.cols,
            final(runtime).matrix(r) == self.through(
                *old(runtime),
                *input,
                old(runtime).matrix(upstream),
            ),
            final(runtime).matrix(*input) == old(runtime).matrix(*input),
            final(runtime).matrix(self.weights) == old(runtime).matrix(self.weights),
            self.bias_terms(*final(runtime)) == self.bias_terms(*old(runtime)),
    {
        let ghost before = *runtime;
        let ghost start = *state;
        proof {
            self.lemma_trained_ids_live(start, before);
            assert(gradient_ids(start).subset_of(trained_ids(*self, start)));
        }
        let passed = self.pass_back(state, input, &upstream, runtime);
        let ghost s1 = *runtime;
        let ghost end = *state;
        proof {
            self.lemma_trained_ids_live(end, s1);
            assert(gradient_ids(end).subset_of(trained_ids(*self, end)));
            assert(trained_ids(*self, end).disjoint(passed.leftovers())) by {
                assert forall|id: usize| trained_ids(*self, end).contains(id) implies !passed.leftovers().contains(
                    id,
                ) by {
                    if !gradient_ids(end).contains(id) {
                        assert(trained_ids(*self, start).contains(id));
                    }
                }
            }
            assert(!trained_ids(*self, end).contains(passed.input_gradient.buffer.id)) by {
                let id = passed.input_gradient.buffer.id;
                if trained_ids(*self, end).contains(id) && !gradient_ids(end).contains(id) {
                    assert(trained_ids(*self, start).contains(id));
                }
            }
            assert(s1.buffers@[input.buffer.id as int] == input.buffer.len);
            assert(s1.mem(input.buffer.id) == before.mem(input.buffer.id));
            assert(!passed.leftovers().contains(input.buffer.id));
            assert(!passed.leftovers().contains(upstream.buffer.id));
            assert(!trained_ids(*self, end).contains(input.buffer.id)) by {
                if trained_ids(*self, end).contains(input.buffer.id) {
                    assert(gradient_ids(end).union(passed.leftovers()).insert(
                        passed.input_gradient.buffer.id,
                    ).contains(input.buffer.id) || !gradient_ids(end).contains(input.buffer.id));
                    assert(gradient_ids(end).contains(input.buffer.id) || trained_ids(
                        *self,
                        start,
                    ).contains(input.buffer.id));
                }
            }
            assert(!trained_ids(*self, end).contains(upstream.buffer.id)) by {
                if trained_ids(*self, end).contains(upstream.buffer.id) {
                    assert(gradient_ids(end).union(passed.leftovers()).insert(
                        passed.input_gradient.buffer.id,
                    ).contains(upstream.buffer.id) || !gradient_ids(end).contains(upstream.buffer.id));
                    assert(gradient_ids(end).contains(upstream.buffer.id) || trained_ids(
                        *self,
                        start,
                    ).contains(upstream.buffer.id));
                }
            }
            assert(self.owns(self.weights.buffer.id));
            assert(s1.matrix(self.weights) == before.matrix(self.weights));
            assert(self.bias_terms(s1) == self.bias_terms(before)) by {
                if self.bias is Some {
                    assert(self.owns(self.bias->0.buffer.id));
                    assert(s1.mem(self.bias->0.buffer.id) == before.mem(self.bias->0.buffer.id));
                }
            }
        }
        let ghost leftovers = passed.leftovers();
        let r = passed.recycle(runtime);
        let ghost s2 = *runtime;
        proof {
            self.lemma_trains_on_kept(end, *input, s1, s2, leftovers);
            assert(s2.live@.contains(upstream.buffer.id));
            assert(s2.buffers@[upstream.buffer.id as int] == upstream.buffer.len);
        }
        runtime.recycle_matrix(upstream);
        proof {
            self.lemma_trains_on_kept(end, *input, s2, *runtime, set![upstream.buffer.id]);
            assert(runtime.ran_on(s2, chosen(None)));
            assert(runtime.buffers@[r.buffer.id as int] == r.buffer.len);
            assert(runtime.matrix(r) == s2.matrix(r));
            let taken = trained_ids(*self, start).insert(upstream.buffer.id);
            let made = trained_ids(*self, end).insert(r.buffer.id);
            assert forall|id: usize| #![trigger runtime.live@.contains(id)] runtime.live@.contains(id)
                <==> before.live@.difference(taken).union(made).contains(id) by {
                if trained_ids(*self, start).contains(id) && !gradient_ids(start).contains(id) {
                    assert(trained_ids(*self, end).contains(id));
                }
                if trained_ids(*self, end).contains(id) && !gradient_ids(end).contains(id) {
                    assert(trained_ids(*self, start).contains(id));
                }
            }
            assert(runtime.live@ =~= before.live@.difference(taken).union(made));
            assert forall|id: usize| #![trigger made.contains(id)] made.contains(id) implies !before.live@.contains(
                id,
            ) || taken.contains(id) by {
                if trained_ids(*self, end).contains(id) && !gradient_ids(end).contains(id) {
                    assert(trained_ids(*self, start).contains(id));
                }
                if gradient_ids(end).contains(id) {
                    assert(gradient_ids(end).union(leftovers).insert(r.buffer.id).contains(id));
                }
            }
            assert(runtime.keeps(before, taken));
            self.lemma_absorbed_between(
                before,
                before,
                s1,
                *runtime,
                start,
                end,
                before.matrix(*input),
                self.inner_gradient(before, *input, before.matrix(upstream)),
                input.rows as nat,
            );
        }
        r
    }
}

/// Adds two matrices of one shape; the second is given back.
pub(crate) fn add_pair(first: Matrix, second: Matrix, runtime: &mut CudaRuntime) -> (r: Matrix)
    requires
        old(runtime).wf(),
        old(runtime).holds(first),
        old(runtime).holds(second),
        first.buffer.id != second.buffer.id,
        first.rows == second.rows,
        first.cols == second.cols,
    ensures
        r == first,
        final(runtime).exchanged(
            *old(runtime),
            set![first.buffer.id, second.buffer.id],
            set![r.buffer.id],
        ),
        final(runtime).holds(r),
        final(runtime).matrix(r) == zip(
            BinaryFn::Add,
            old(runtime).matrix(first),
            old(runtime).matrix(second),
        ),
{
    let ghost before = *runtime;
    let mut inputs: Vec<Matrix> = Vec::new();
    inputs.push(first);
    inputs.push(second);
    proof {
        let ms = inputs@;
        assert(ms[0] == first && ms[1] == second && ms.len() == 2);
        reveal_with_fuel(sum_of_first, 3);
        assert forall|id: usize| #[trigger] ids(ms).contains(id) <==> set![
            first.buffer.id,
            second.buffer.id,
        ].contains(id) by {
            if id == first.buffer.id {
                assert(ms[0].buffer.id == id);
            }
            if id == second.buffer.id {
                assert(ms[1].buffer.id == id);
            }
        }
        assert(ids(ms) =~= set![first.buffer.id, second.buffer.id]);
    }
    BinaryNode::new(BinaryOp::Add).forward_owned(inputs, runtime)
}

impl Linear {
    /// A layer and its training state are left alone by an exchange of other
    /// buffers, and share none with what is made.
    pub proof fn lemma_spared(
        self,
        state: NodeTrainState,
        before: CudaRuntime,
        after: CudaRuntime,
        taken: Set<usize>,
        made: Set<usize>,
    )
        requires
            before.wf(),
            self.trains_with(before, state),
            after.replaced(before, taken, made),
            taken.disjoint(trained_ids(self, state)),
        ensures
            self.trains_with(after, state),
            made.disjoint(trained_ids(self, state)),
            same_values(self, state, before, after),
    {
        self.lemma_trains_kept_outside(state, before, after, taken);
        assert forall|id: usize| made.contains(id) implies !trained_ids(self, state).contains(id) by {
            if trained_ids(self, state).contains(id) {
                assert(before.live@.contains(id));
            }
        }
    }

    /// An optimizer step stays inside the layer and its training state.
    pub proof fn lemma_learned_exchanged(
        self,
        before: CudaRuntime,
        after: CudaRuntime,
        start: NodeTrainState,
        end: NodeTrainState,
        config: LearnConfig,
    )
        requires
            self.trains_with(before, start),
            self.batch_ready(start),
            self.learned(before, after, start, end, config),
        ensures
            after.exchanged(before, trained_ids(self, start), trained_ids(self, end)),
    {
        let taken = trained_ids(self, start);
        let made = trained_ids(self, end);
        self.lemma_trained_ids_live(start, before);
        self.lemma_trained_ids_live(end, after);
        assert forall|id: usize| #![trigger after.live@.contains(id)] after.live@.contains(id)
            <==> before.live@.difference(taken).union(made).contains(id) by {
            if taken.contains(id) && !Linear::gives_back(start, id) {
                assert(made.contains(id));
            }
        }
        assert(after.live@ =~= before.live@.difference(taken).union(made));
        assert(after.keeps(before, taken));
    }
}

/// A matrix is left alone by an exchange of other buffers.
pub proof fn lemma_matrix_spared(
    m: Matrix,
    before: CudaRuntime,
    after: CudaRuntime,
    taken: Set<usize>,
    made: Set<usize>,
)
    requires
        before.wf(),
        before.holds(m),
        after.swapped(before, taken, made),
        !taken.contains(m.buffer.id),
    ensures
        after.holds(m),
        after.matrix(m) == before.matrix(m),
        !made.contains(m.buffer.id),
{
    assert(after.live@.contains(m.buffer.id));
    assert(after.buffers@[m.buffer.id as int] == m.buffer.len);
    assert(after.mem(m.buffer.id) == before.mem(m.buffer.id));
}

/// A layer's parameters and training state have the same values at two moments.
pub open spec fn same_values(
    layer: Linear,
    state: NodeTrainState,
    before: CudaRuntime,
    after: CudaRuntime,
) -> bool {
    &&& after.matrix(layer.weights) == before.matrix(layer.weights)
    &&& layer.bias_terms(after) == layer.bias_terms(before)
    &&& slot_terms(state.parameters@[0].gradient, after) == slot_terms(
        state.parameters@[0].gradient,
        before,
    )
    &&& slot_terms(state.parameters@[1].gradient, after) == slot_terms(
        state.parameters@[1].gradient,
        before,
    )
    &&& slot_terms(state.parameters@[0].velocity, after) == slot_terms(
        state.parameters@[0].velocity,
        before,
    )
    &&& slot_terms(state.parameters@[1].velocity, after) == slot_terms(
        state.parameters@[1].velocity,
        before,
    )
}

/// An optimizer step counts from and to any moment at which the values are the
/// same.
pub proof fn lemma_moved_between(
    layer: Linear,
    before: CudaRuntime,
    from: CudaRuntime,
    to: CudaRuntime,
    after: CudaRuntime,
    start: NodeTrainState,
    end: NodeTrainState,
    config: LearnConfig,
)
    requires
        layer.moved(from, to, start, end, config),
        same_values(layer, start, before, from),
        same_values(layer, end, to, after),
    ensures
        layer.moved(before, after, start, end, config),
{
    if let Some(b) = layer.bias {
        assert(layer.bias_terms(from) == Some(from.vector(b)));
        assert(layer.bias_terms(before) == Some(before.vector(b)));
        assert(layer.bias_terms(to) == Some(to.vector(b)));
        assert(layer.bias_terms(after) == Some(after.vector(b)));
    }
}

} // verus!
