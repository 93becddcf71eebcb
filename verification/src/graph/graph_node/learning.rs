//! Blocks with parameters that learn.

use vstd::prelude::*;

use super::{lemma_one, lemma_one_held, GraphNode, TrainingNode};
use crate::cuda::algebra::Term;
use crate::cuda::container::{ids, values_of, Matrix};
use crate::cuda::runtime::{chosen, CudaRuntime};
use crate::graph::config::LearnConfig;
use crate::net::gradient::{lemma_matrix_spared, same_values, trained_ids};
use crate::net::linear::{activated, single, take_single, trainable, Linear, LinearTrainingNode};
use crate::net::metadata::{HostDataCursor, HostRead};
use crate::net::mlp::footprint::{lemma_inputs_spared, stack_ids};
use crate::net::mlp::training::TrainingMlp;
use crate::net::transformer::training::TrainingTransformer;

verus! {

broadcast use crate::cuda::runtime::group_streams;

impl GraphNode for LinearTrainingNode {
    open spec fn footprint(self) -> Set<usize> {
        Set::new(|id: usize| self.owns(id))
    }

    open spec fn in_order(self, runtime: CudaRuntime) -> bool {
        self.wf(runtime)
    }

    open spec fn takes(self, runtime: CudaRuntime, inputs: Seq<Matrix>) -> bool {
        inputs.len() == 1 && self.linear.accepts(runtime, inputs[0])
    }

    open spec fn gives(
        self,
        end: Self,
        before: CudaRuntime,
        after: CudaRuntime,
        inputs: Seq<Matrix>,
        outputs: Seq<Matrix>,
    ) -> bool {
        &&& end.linear == self.linear
        &&& end.training == self.training
        &&& same_values(self.linear, self.training, before, after)
        &&& end.input_cache == Some(inputs[0])
        &&& after.matrix(inputs[0]) == before.matrix(inputs[0])
        &&& outputs.len() == 1
        &&& outputs[0].rows == inputs[0].rows
        &&& outputs[0].cols == self.linear.weights.cols
        &&& after.matrix(outputs[0]) == activated(
            self.linear.activation,
            self.linear.affine_of(before, inputs[0], None),
        )
    }

    open spec fn forgets(self, end: Self, before: CudaRuntime, after: CudaRuntime) -> bool {
        &&& end.linear == self.linear
        &&& end.training == self.training
        &&& same_values(self.linear, self.training, before, after)
        &&& end.input_cache is None
    }

    open spec fn data(self, runtime: CudaRuntime) -> Seq<Seq<Term>> {
        self.linear.parameters(runtime)
    }

    open spec fn data_sizes(self) -> Seq<usize> {
        self.linear.parameter_sizes()
    }

    fn forward(&mut self, inputs: Vec<Matrix>, runtime: &mut CudaRuntime) -> (r: Vec<Matrix>) {
        let ghost before = *runtime;
        let ghost start = *self;
        let ghost given = inputs@;
        proof {
            assert(given =~= seq![given[0]]);
            lemma_one(given[0]);
            assert(ids(given).contains(given[0].buffer.id));
            assert(!start.footprint().contains(given[0].buffer.id));
        }
        let outputs = LinearTrainingNode::forward(self, inputs, runtime);
        proof {
            let o = outputs@[0];
            assert(outputs@ =~= seq![o]);
            lemma_one_held(o, *runtime);
            let taken = start.footprint().union(ids(given));
            let made = self.footprint().union(ids(outputs@));
            start.lemma_owns_live(before);
            assert(runtime.live@ =~= before.live@.difference(taken).union(made));
            assert(runtime.keeps(before, taken));
            start.lemma_same_values(before, *runtime);
        }
        outputs
    }

    fn clear_cache(&mut self, runtime: &mut CudaRuntime) {
        let ghost before = *runtime;
        let ghost start = *self;
        LinearTrainingNode::clear_cache(self, runtime);
        proof {
            start.lemma_owns_live(before);
            assert(runtime.live@ =~= before.live@.difference(start.footprint()).union(
                self.footprint(),
            ));
            assert(runtime.keeps(before, start.footprint()));
            start.lemma_same_values(before, *runtime);
        }
    }

    fn get_data(&self, runtime: &mut CudaRuntime) -> (r: Vec<HostRead>) {
        LinearTrainingNode::get_data(self, runtime)
    }

    fn set_data(&mut self, data: &mut HostDataCursor, runtime: &mut CudaRuntime) {
        let ghost before = *runtime;
        let ghost source = *data;
        let ghost start = *self;
        LinearTrainingNode::set_data(self, data, runtime);
        proof {
            self.linear.lemma_restored(before, *runtime, source, *data);
            self.linear.lemma_trains_alive(self.training, before, *runtime);
            if let Some(m) = start.input_cache {
                assert(runtime.buffers@[m.buffer.id as int] == m.buffer.len);
            }
        }
    }
}

impl LinearTrainingNode {
    /// The buffers of the block are alive.
    proof fn lemma_owns_live(self, runtime: CudaRuntime)
        requires
            self.wf(runtime),
        ensures
            self.footprint().subset_of(runtime.live@),
            trained_ids(self.linear, self.training).subset_of(self.footprint()),
    {
        self.linear.lemma_trained_ids_live(self.training, runtime);
        assert forall|id: usize| self.footprint().contains(id) implies runtime.live@.contains(id) by {
            if self.cache_id() != Some(id) {
                assert(trained_ids(self.linear, self.training).contains(id));
            }
        }
    }

    /// The block stays in order while other buffers are exchanged.
    pub proof fn lemma_node_spared(
        self,
        before: CudaRuntime,
        after: CudaRuntime,
        taken: Set<usize>,
        made: Set<usize>,
    )
        requires
            before.wf(),
            self.wf(before),
            after.replaced(before, taken, made),
            taken.disjoint(self.footprint()),
        ensures
            self.wf(after),
            self.footprint().subset_of(before.live@),
    {
        self.lemma_owns_live(before);
        assert(taken.disjoint(trained_ids(self.linear, self.training)));
        self.linear.lemma_spared(self.training, before, after, taken, made);
        if let Some(m) = self.input_cache {
            assert(self.footprint().contains(m.buffer.id));
            lemma_matrix_spared(m, before, after, taken, made);
        }
    }

    /// Parameters, gradients and velocities stay while only the retained input goes.
    proof fn lemma_same_values(self, before: CudaRuntime, after: CudaRuntime)
        requires
            before.wf(),
            self.wf(before),
            after.keeps_but(before, |id: usize| self.cache_id() == Some(id)),
            forall|id: usize|
                #![trigger after.live@.contains(id)]
                before.live@.contains(id) && self.cache_id() != Some(id) ==> after.live@.contains(
                    id,
                ),
        ensures
            same_values(self.linear, self.training, before, after),
    {
        let touched = match self.input_cache {
            Some(m) => set![m.buffer.id],
            None => Set::empty(),
        };
        assert(after.keeps(before, touched));
        assert(touched.disjoint(trained_ids(self.linear, self.training)));
        self.linear.lemma_trains_kept_outside(self.training, before, after, touched);
    }
}

impl TrainingNode for LinearTrainingNode {
    open spec fn takes_gradients(self, runtime: CudaRuntime, gradients: Seq<Matrix>) -> bool {
        &&& gradients.len() == 1
        &&& self.input_cache is Some
        &&& gradients[0].rows == self.input_cache->0.rows
        &&& gradients[0].cols == self.linear.weights.cols
        &&& trainable(
            gradients[0].rows as int,
            self.linear.weights.rows as int,
            gradients[0].cols as int,
        )
    }

    open spec fn passes_back(
        self,
        end: Self,
        before: CudaRuntime,
        after: CudaRuntime,
        gradients: Seq<Matrix>,
        r: Seq<Matrix>,
    ) -> bool {
        &&& end.linear == self.linear
        &&& end.input_cache is None
        &&& self.linear.absorbed(
            before,
            after,
            self.training,
            end.training,
            before.matrix(self.input_cache->0),
            self.inner_gradient(before, gradients[0]),
            gradients[0].rows as nat,
        )
        &&& r.len() == 1
        &&& r[0].rows == gradients[0].rows
        &&& r[0].cols == self.linear.weights.rows
        &&& after.matrix(r[0]) == self.linear.through(
            before,
            self.input_cache->0,
            before.matrix(gradients[0]),
        )
    }

    open spec fn has_gradients(self) -> bool {
        self.linear.batch_ready(self.training)
    }

    open spec fn improves(
        self,
        end: Self,
        before: CudaRuntime,
        after: CudaRuntime,
        config: LearnConfig,
    ) -> bool {
        &&& end.linear == self.linear
        &&& end.input_cache == self.input_cache
        &&& self.linear.moved(before, after, self.training, end.training, config)
    }

    fn backward(&mut self, gradients: Vec<Matrix>, runtime: &mut CudaRuntime) -> (r: Vec<Matrix>) {
        let ghost before = *runtime;
        let ghost start = *self;
        let ghost given = gradients@;
        proof {
            assert(given =~= seq![given[0]]);
            lemma_one(given[0]);
            assert(ids(given).contains(given[0].buffer.id));
            assert(!start.footprint().contains(given[0].buffer.id));
        }
        let passed = LinearTrainingNode::backward(self, gradients, runtime);
        proof {
            let p = passed@[0];
            assert(passed@ =~= seq![p]);
            lemma_one_held(p, *runtime);
            let taken = start.footprint().union(ids(given));
            let made = self.footprint().union(ids(passed@));
            start.lemma_owns_live(before);
            self.lemma_owns_live(*runtime);
            assert forall|id: usize| #![trigger made.contains(id)] made.contains(id) implies !before.live@.contains(
                id,
            ) || taken.contains(id) by {
                if Linear::gradient_slot(self.training, id) {
                    assert(Linear::gradient_slot(start.training, id) || !before.live@.contains(id));
                }
            }
            assert(runtime.live@ =~= before.live@.difference(taken).union(made));
            assert(runtime.keeps(before, taken));
        }
        passed
    }

    fn learn(&mut self, config: LearnConfig, runtime: &mut CudaRuntime) {
        let ghost before = *runtime;
        let ghost start = *self;
        proof {
            start.lemma_owns_live(before);
        }
        LinearTrainingNode::learn(self, config, runtime);
        proof {
            start.linear.lemma_learned_exchanged(
                before,
                *runtime,
                start.training,
                self.training,
                config,
            );
            let more = match start.input_cache {
                Some(m) => set![m.buffer.id],
                None => Set::empty(),
            };
            let own = trained_ids(start.linear, start.training);
            let now = trained_ids(self.linear, self.training);
            runtime.lemma_replaced_more(before, own, now, more);
            assert(start.footprint() =~= own.union(more));
            assert(self.footprint() =~= now.union(more));
        }
    }
}

impl GraphNode for TrainingMlp {
    open spec fn footprint(self) -> Set<usize> {
        self.owned()
    }

    open spec fn in_order(self, runtime: CudaRuntime) -> bool {
        self.wf(runtime)
    }

    open spec fn takes(self, runtime: CudaRuntime, inputs: Seq<Matrix>) -> bool {
        inputs.len() == 1 && self.executor.accepts(runtime, inputs[0])
    }

    open spec fn gives(
        self,
        end: Self,
        before: CudaRuntime,
        after: CudaRuntime,
        inputs: Seq<Matrix>,
        outputs: Seq<Matrix>,
    ) -> bool {
        let ex = self.executor;
        let n = ex.layers@.len() as int;
        let rows = inputs[0].rows;
        &&& end.executor == self.executor
        &&& end.training == self.training
        &&& self.same_parts(before, after)
        &&& ex.retains(after, end.layer_inputs@, rows, n)
        &&& forall|i: int|
            0 <= i < n ==> after.matrix(#[trigger] end.layer_inputs@[i]) == ex.stage(
                before,
                before.matrix(inputs[0]),
                rows as nat,
                i,
            )
        &&& outputs.len() == 1
        &&& outputs[0].rows == rows
        &&& outputs[0].cols == ex.width(n)
        &&& after.matrix(outputs[0]) == ex.stage(before, before.matrix(inputs[0]), rows as nat, n)
    }

    open spec fn forgets(self, end: Self, before: CudaRuntime, after: CudaRuntime) -> bool {
        &&& end.executor == self.executor
        &&& end.training == self.training
        &&& self.same_parts(before, after)
        &&& end.layer_inputs@.len() == 0
    }

    open spec fn data(self, runtime: CudaRuntime) -> Seq<Seq<Term>> {
        self.executor.parameters(runtime)
    }

    open spec fn data_sizes(self) -> Seq<usize> {
        self.executor.parameter_sizes()
    }

    fn forward(&mut self, inputs: Vec<Matrix>, runtime: &mut CudaRuntime) -> (r: Vec<Matrix>) {
        let ghost before = *runtime;
        let ghost start = *self;
        let input = take_single(inputs);
        proof {
            lemma_one(input);
            start.lemma_owned_live(before);
            assert(!start.owned().contains(input.buffer.id));
            assert(!start.parts_own(input.buffer.id)) by {
                if start.parts_own(input.buffer.id) {
                    assert(start.parts().contains(input.buffer.id));
                }
            }
        }
        let output = TrainingMlp::forward(self, input, runtime);
        proof {
            let o = output.buffer.id;
            self.lemma_ran(start, before, *runtime, input, output);
            assert(!self.owned().contains(o)) by {
                if self.parts().contains(o) {
                    assert(self.parts_own(o));
                }
            }
            lemma_one_held(output, *runtime);
            assert(start.owned().union(ids(seq![input])) =~= start.owned().insert(input.buffer.id));
            assert(self.owned().union(ids(seq![output])) =~= self.owned().insert(o));
        }
        single(output)
    }

    fn clear_cache(&mut self, runtime: &mut CudaRuntime) {
        let ghost before = *runtime;
        let ghost start = *self;
        TrainingMlp::clear_cache(self, runtime);
        proof {
            start.lemma_emptied(*self, before, *runtime);
        }
    }

    fn get_data(&self, runtime: &mut CudaRuntime) -> (r: Vec<HostRead>) {
        proof {
            self.lemma_layers_in_order(*runtime);
        }
        TrainingMlp::get_data(self, runtime)
    }

    fn set_data(&mut self, data: &mut HostDataCursor, runtime: &mut CudaRuntime) {
        let ghost before = *runtime;
        let ghost source = *data;
        let ghost ex = self.executor;
        proof {
            self.lemma_layers_in_order(before);
            ex.lemma_fits(source);
        }
        TrainingMlp::set_data(self, data, runtime);
        proof {
            ex.lemma_restored(before, *runtime, source, *data);
            self.lemma_alive(before, *runtime);
        }
    }
}

impl TrainingMlp {
    /// What clearing gives back is what was retained.
    proof fn lemma_emptied(self, end: Self, before: CudaRuntime, after: CudaRuntime)
        requires
            before.wf(),
            self.wf(before),
            end.executor == self.executor,
            end.training == self.training,
            end.layer_inputs@.len() == 0,
            after.released(before, self.layer_inputs@),
        ensures
            after.exchanged(before, self.owned(), end.owned()),
            self.same_parts(before, after),
    {
        self.lemma_owned_live(before);
        assert(end.parts() == self.parts());
        assert(end.owned() =~= self.parts()) by {
            assert(ids(end.layer_inputs@) =~= Set::empty());
        }
        assert(after.live@ =~= before.live@.difference(self.owned()).union(end.owned()));
        assert(after.keeps(before, self.owned()));
        assert(after.ran_on(before, chosen(None)));
        assert forall|id: usize| #[trigger] self.parts().contains(id) implies after.mem(id)
            == before.mem(id) by {
            assert(before.live@.contains(id) && !ids(self.layer_inputs@).contains(id));
        }
        self.lemma_same_parts(before, after);
    }
}

impl TrainingMlp {
    /// Passes a gradient back and gives it back.
    #[verifier::rlimit(60)]
    fn take_in(&mut self, gradient: Matrix, runtime: &mut CudaRuntime) -> (r: Matrix)
        requires
            old(self).executor.departs(
                *old(runtime),
                old(self).layer_inputs@,
                old(self).training@,
                gradient.rows,
            ),
            old(self).wf(*old(runtime)),
            old(runtime).holds(gradient),
            gradient.cols == old(self).executor.width(old(self).executor.layers@.len() as int),
            !old(self).owned().contains(gradient.buffer.id),
        ensures
            final(self).executor == old(self).executor,
            final(self).layer_inputs == old(self).layer_inputs,
            final(self).wf(*final(runtime)),
            old(self).executor.all_absorbed(
                *old(runtime),
                *final(runtime),
                old(self).training@,
                final(self).training@,
                values_of(*old(runtime), old(self).layer_inputs@),
                gradient.rows as nat,
                old(runtime).matrix(gradient),
            ),
            final(runtime).replaced(
                *old(runtime),
                old(self).owned().insert(gradient.buffer.id),
                final(self).owned().insert(r.buffer.id),
            ),
            !final(self).owned().contains(r.buffer.id),
            final(runtime).holds(r),
            r.rows == gradient.rows,
            r.cols == old(self).executor.width(0),
            final(runtime).matrix(r) == old(self).executor.upstream(
                *old(runtime),
                values_of(*old(runtime), old(self).layer_inputs@),
                gradient.rows as nat,
                old(runtime).matrix(gradient),
                0,
            ),
    {
        let ghost before = *runtime;
        let ghost start = *self;
        let ghost ex = self.executor;
        let ghost gid = gradient.buffer.id;
        proof {
            start.lemma_owned_live(before);
            start.lemma_gradients_owned(gid);
        }
        let passed = self.backward_accumulate(&gradient, runtime);
        let ghost s1 = *runtime;
        let ghost f1 = *self;
        let ghost p = passed.buffer.id;
        let ghost made1 = stack_ids(ex, f1.training@).insert(p);
        proof {
            ex.lemma_backpropagated_exchanged(
                before,
                s1,
                start.layer_inputs@,
                gradient,
                start.training@,
                f1.training@,
                passed,
            );
            assert(made1.contains(p));
            lemma_matrix_spared(gradient, before, s1, start.parts(), made1);
            lemma_inputs_spared(start, f1, before, s1, made1);
            f1.lemma_owned_live(s1);
            s1.lemma_replaced_more(before, start.parts(), made1, ids(start.layer_inputs@));
        }
        runtime.recycle_matrix(gradient);
        proof {
            let s2 = *runtime;
            s2.lemma_replaced_shrunk(s1, gid);
            f1.lemma_spared(s1, s2, set![gid], Set::empty());
            lemma_matrix_spared(passed, s1, s2, set![gid], Set::empty());
            ex.lemma_all_absorbed_moved(
                before,
                before,
                s1,
                s2,
                start.training@,
                f1.training@,
                values_of(before, start.layer_inputs@),
                gradient.rows as nat,
                before.matrix(gradient),
            );
            let inputs = ids(start.layer_inputs@);
            let taken = start.parts().union(inputs);
            let held = made1.union(inputs);
            s1.lemma_replaced_more(before, taken, held, set![gid]);
            let all = held.union(set![gid]);
            assert(set![gid].subset_of(all));
            s2.lemma_replaced_again(s1, before, taken.union(set![gid]), all, set![gid], Set::empty());
            assert(taken.union(set![gid]) =~= start.owned().insert(gid));
            assert(all.difference(set![gid]).union(Set::empty()) =~= f1.owned().insert(p));
        }
        passed
    }
}

impl TrainingNode for TrainingMlp {
    open spec fn takes_gradients(self, runtime: CudaRuntime, gradients: Seq<Matrix>) -> bool {
        let n = self.executor.layers@.len() as int;
        &&& gradients.len() == 1
        &&& self.executor.trains_rows(gradients[0].rows as int)
        &&& self.executor.retains(runtime, self.layer_inputs@, gradients[0].rows, n)
        &&& gradients[0].cols == self.executor.width(n)
    }

    open spec fn passes_back(
        self,
        end: Self,
        before: CudaRuntime,
        after: CudaRuntime,
        gradients: Seq<Matrix>,
        r: Seq<Matrix>,
    ) -> bool {
        let ex = self.executor;
        let rows = gradients[0].rows;
        let inputs = values_of(before, self.layer_inputs@);
        let g = before.matrix(gradients[0]);
        &&& end.executor == self.executor
        &&& end.layer_inputs@.len() == 0
        &&& ex.all_absorbed(before, after, self.training@, end.training@, inputs, rows as nat, g)
        &&& r.len() == 1
        &&& r[0].rows == rows
        &&& r[0].cols == ex.width(0)
        &&& after.matrix(r[0]) == ex.upstream(before, inputs, rows as nat, g, 0)
    }

    open spec fn has_gradients(self) -> bool {
        self.executor.batch_ready(self.training@)
    }

    open spec fn improves(
        self,
        end: Self,
        before: CudaRuntime,
        after: CudaRuntime,
        config: LearnConfig,
    ) -> bool {
        &&& end.executor == self.executor
        &&& end.layer_inputs == self.layer_inputs
        &&& self.executor.all_moved(before, after, self.training@, end.training@, config)
    }

    fn backward(&mut self, gradients: Vec<Matrix>, runtime: &mut CudaRuntime) -> (r: Vec<Matrix>) {
        let ghost before = *runtime;
        let ghost start = *self;
        let ghost ex = self.executor;
        let gradient = take_single(gradients);
        let ghost gid = gradient.buffer.id;
        proof {
            lemma_one(gradient);
            start.lemma_owned_live(before);
            assert(!start.owned().contains(gid));
        }
        let passed = self.take_in(gradient, runtime);
        let ghost s1 = *runtime;
        let ghost f1 = *self;
        let ghost p = passed.buffer.id;
        proof {
            f1.lemma_owned_live(s1);
        }
        TrainingMlp::clear_cache(self, runtime);
        proof {
            f1.lemma_emptied(*self, s1, *runtime);
            lemma_matrix_spared(passed, s1, *runtime, f1.owned(), self.owned());
            lemma_one_held(passed, *runtime);
            ex.lemma_all_absorbed_moved(
                before,
                before,
                s1,
                *runtime,
                start.training@,
                f1.training@,
                values_of(before, start.layer_inputs@),
                gradient.rows as nat,
                before.matrix(gradient),
            );
            let taken = start.owned().insert(gid);
            let held = f1.owned().insert(p);
            assert(f1.owned().subset_of(held));
            runtime.lemma_replaced_again(s1, before, taken, held, f1.owned(), self.owned());
            assert(held.difference(f1.owned()).union(self.owned()) =~= self.owned().insert(p));
            assert(start.owned().union(ids(seq![gradient])) =~= taken);
            assert(self.owned().union(ids(seq![passed])) =~= self.owned().insert(p));
        }
        single(passed)
    }

    fn learn(&mut self, config: LearnConfig, runtime: &mut CudaRuntime) {
        let ghost before = *runtime;
        let ghost start = *self;
        let ghost more = ids(start.layer_inputs@);
        proof {
            start.lemma_owned_live(before);
        }
        TrainingMlp::learn(
            self,
            config.learning_rate,
            config.momentum,
            config.batch_len,
            runtime,
        );
        proof {
            start.executor.lemma_learned_exchanged(
                before,
                *runtime,
                start.training@,
                self.training@,
                config,
            );
            runtime.lemma_replaced_more(before, start.parts(), self.parts(), more);
        }
    }
}

impl<const HEADS: usize, const MASKED: bool> GraphNode for TrainingTransformer<HEADS, MASKED> {
    open spec fn footprint(self) -> Set<usize> {
        self.owned()
    }

    open spec fn in_order(self, runtime: CudaRuntime) -> bool {
        self.wf(runtime)
    }

    open spec fn takes(self, runtime: CudaRuntime, inputs: Seq<Matrix>) -> bool {
        inputs.len() == 1 && self.accepts(runtime, inputs[0])
    }

    open spec fn gives(
        self,
        end: Self,
        before: CudaRuntime,
        after: CudaRuntime,
        inputs: Seq<Matrix>,
        outputs: Seq<Matrix>,
    ) -> bool {
        let x = before.matrix(inputs[0]);
        let rows = inputs[0].rows;
        &&& end.continues(self)
        &&& end.same_training(self)
        &&& end.pending(after, rows)
        &&& end.remembers(self, before, after, x, rows)
        &&& self.unchanged(before, after)
        &&& outputs.len() == 1
        &&& outputs[0].rows == rows
        &&& outputs[0].cols == self.output_matrix.weights.cols
        &&& after.matrix(outputs[0]) == self.image(before, x, rows)
    }

    open spec fn forgets(self, end: Self, before: CudaRuntime, after: CudaRuntime) -> bool {
        &&& end.continues(self)
        &&& end.same_training(self)
        &&& end.cleared()
        &&& self.unchanged(before, after)
    }

    open spec fn data(self, runtime: CudaRuntime) -> Seq<Seq<Term>> {
        self.inference().parameters(runtime)
    }

    open spec fn data_sizes(self) -> Seq<usize> {
        self.inference().parameter_sizes()
    }

    fn forward(&mut self, inputs: Vec<Matrix>, runtime: &mut CudaRuntime) -> (r: Vec<Matrix>) {
        let ghost before = *runtime;
        let ghost start = *self;
        let input = take_single(inputs);
        let ghost iid = input.buffer.id;
        proof {
            lemma_one(input);
            start.lemma_owned_live(before);
            assert(!start.owned().contains(iid));
        }
        let output = TrainingTransformer::forward(self, &input, runtime);
        let ghost s1 = *runtime;
        let ghost o = output.buffer.id;
        let ghost made = self.owned().insert(o);
        proof {
            assert(made.contains(o));
            lemma_matrix_spared(input, before, s1, start.owned(), made);
            s1.lemma_replaced_more(before, start.owned(), made, set![iid]);
        }
        runtime.recycle_matrix(input);
        proof {
            let s2 = *runtime;
            s2.lemma_replaced_shrunk(s1, iid);
            self.lemma_spared(s1, s2, set![iid], Set::empty());
            self.lemma_pass_kept(
                start,
                before,
                s1,
                s2,
                set![iid],
                Set::empty(),
                before.matrix(input),
                input.rows,
            );
            lemma_matrix_spared(output, s1, s2, set![iid], Set::empty());
            lemma_one_held(output, s2);
            start.lemma_unchanged_again(*self, before, s1, s2);
            let taken = start.owned().union(set![iid]);
            let held = made.union(set![iid]);
            assert(set![iid].subset_of(held));
            s2.lemma_replaced_again(s1, before, taken, held, set![iid], Set::empty());
            assert(held.difference(set![iid]).union(Set::empty()) =~= self.owned().union(
                ids(seq![output]),
            ));
        }
        single(output)
    }

    fn clear_cache(&mut self, runtime: &mut CudaRuntime) {
        TrainingTransformer::clear_cache(self, runtime);
    }

    fn get_data(&self, runtime: &mut CudaRuntime) -> (r: Vec<HostRead>) {
        TrainingTransformer::get_data(self, runtime)
    }

    fn set_data(&mut self, data: &mut HostDataCursor, runtime: &mut CudaRuntime) {
        let ghost before = *runtime;
        let ghost start = *self;
        proof {
            start.lemma_inference_wf(before);
        }
        TrainingTransformer::set_data(self, data, runtime);
        proof {
            assert(runtime.keeps_but(before, |id: usize| start.footprint().contains(id)));
        }
    }
}

impl<const HEADS: usize, const MASKED: bool> TrainingTransformer<HEADS, MASKED> {
    /// What a forward pass retains stays while other buffers are exchanged.
    proof fn lemma_pass_kept(
        self,
        start: Self,
        before: CudaRuntime,
        middle: CudaRuntime,
        after: CudaRuntime,
        taken: Set<usize>,
        made: Set<usize>,
        x: Seq<Term>,
        rows: usize,
    )
        requires
            middle.wf(),
            self.wf(middle),
            self.pending(middle, rows),
            self.remembers(start, before, middle, x, rows),
            self.continues(start),
            after.replaced(middle, taken, made),
            taken.disjoint(self.owned()),
        ensures
            self.pending(after, rows),
            self.remembers(start, before, after, x, rows),
    {
        assert(taken.disjoint(self.first.owned()));
        assert(taken.disjoint(self.second.owned()));
        self.first.lemma_spared(middle, after, taken, made);
        self.second.lemma_spared(middle, after, taken, made);
        assert(self.second.pending(after, rows, self.width()));
        let encoded = self.cache->0.encoded;
        assert(self.cache_ids().contains(encoded.buffer.id));
        assert(self.owned().contains(encoded.buffer.id));
        lemma_matrix_spared(encoded, middle, after, taken, made);
        let ex = start.second.fcs.executor;
        let inputs = self.second.fcs.layer_inputs@;
        let p = start.position_encoding.image(before, x);
        let m = start.first.image(before, p, rows, MASKED);
        assert forall|i: int| 0 <= i < ex.layers@.len() implies after.matrix(#[trigger] inputs[i])
            == ex.stage(before, m, rows as nat, i) by {
            assert(values_of(after, inputs)[i] == values_of(middle, inputs)[i]);
        }
    }

    /// What is the same from one moment to a second and on to a third is the same
    /// throughout.
    proof fn lemma_unchanged_again(
        self,
        end: Self,
        before: CudaRuntime,
        middle: CudaRuntime,
        after: CudaRuntime,
    )
        requires
            end.continues(self),
            end.same_training(self),
            self.unchanged(before, middle),
            end.unchanged(middle, after),
        ensures
            self.unchanged(before, after),
    {
        assert forall|x: Seq<Term>| #[trigger]
            self.position_encoding.image(after, x) == self.position_encoding.image(before, x) by {
            assert(end.position_encoding.image(after, x) == end.position_encoding.image(middle, x));
            assert(self.position_encoding.image(middle, x) == self.position_encoding.image(
                before,
                x,
            ));
        }
        let fcs = self.second.fcs;
        assert forall|id: usize| #[trigger] fcs.executor.owns(id) implies after.mem(id) == before.mem(
            id,
        ) by {
            assert(end.second.fcs.executor.owns(id));
        }
        assert forall|j: int| #![trigger fcs.training@[j]] 0 <= j < fcs.executor.layers@.len() implies same_values(
            fcs.executor.layers@[j],
            fcs.training@[j],
            before,
            after,
        ) by {
            let now = end.second.fcs.training@[j];
        }
    }
}

impl<const HEADS: usize, const MASKED: bool> TrainingNode for TrainingTransformer<HEADS, MASKED> {
    open spec fn takes_gradients(self, runtime: CudaRuntime, gradients: Seq<Matrix>) -> bool {
        &&& gradients.len() == 1
        &&& self.pending(runtime, gradients[0].rows)
        &&& self.trains_rows(gradients[0].rows as int)
        &&& gradients[0].cols == self.output_matrix.weights.cols
    }

    open spec fn passes_back(
        self,
        end: Self,
        before: CudaRuntime,
        after: CudaRuntime,
        gradients: Seq<Matrix>,
        r: Seq<Matrix>,
    ) -> bool {
        let g = before.matrix(gradients[0]);
        let rows = gradients[0].rows;
        &&& end.continues(self)
        &&& end.cleared()
        &&& self.absorbed(before, after, end, g, rows)
        &&& r.len() == 1
        &&& r[0].rows == rows
        &&& r[0].cols == self.width()
        &&& after.matrix(r[0]) == self.input_gradient(before, g, rows)
    }

    open spec fn has_gradients(self) -> bool {
        self.batch_ready()
    }

    open spec fn improves(
        self,
        end: Self,
        before: CudaRuntime,
        after: CudaRuntime,
        config: LearnConfig,
    ) -> bool {
        end.continues(self) && self.moved(before, after, end, config)
    }

    #[verifier::rlimit(40)]
    fn backward(&mut self, gradients: Vec<Matrix>, runtime: &mut CudaRuntime) -> (r: Vec<Matrix>) {
        let ghost before = *runtime;
        let ghost start = *self;
        let gradient = take_single(gradients);
        let ghost gid = gradient.buffer.id;
        let ghost g = before.matrix(gradient);
        let ghost rows = gradient.rows;
        proof {
            lemma_one(gradient);
            start.lemma_owned_live(before);
            assert(!start.owned().contains(gid));
        }
        let passed = self.backward_accumulate(&gradient, runtime);
        let ghost s1 = *runtime;
        let ghost b1 = *self;
        let ghost p = passed.buffer.id;
        let ghost made1 = b1.owned().insert(p);
        proof {
            assert(made1.contains(p));
            lemma_matrix_spared(gradient, before, s1, start.owned(), made1);
            s1.lemma_replaced_more(before, start.owned(), made1, set![gid]);
        }
        runtime.recycle_matrix(gradient);
        let ghost s2 = *runtime;
        proof {
            s2.lemma_replaced_shrunk(s1, gid);
            b1.lemma_spared(s1, s2, set![gid], Set::empty());
            lemma_matrix_spared(passed, s1, s2, set![gid], Set::empty());
        }
        TrainingTransformer::clear_cache(self, runtime);
        proof {
            let s3 = *runtime;
            lemma_matrix_spared(passed, s2, s3, b1.owned(), self.owned());
            lemma_one_held(passed, s3);
            b1.lemma_unchanged_again(b1, s1, s2, s3);
            start.lemma_absorbed_kept(before, s1, s3, b1, *self, g, rows);
            let taken = start.owned().union(set![gid]);
            let held1 = made1.union(set![gid]);
            assert(set![gid].subset_of(held1));
            s2.lemma_replaced_again(s1, before, taken, held1, set![gid], Set::empty());
            let held2 = held1.difference(set![gid]).union(Set::empty());
            assert(b1.owned().subset_of(held2));
            s3.lemma_replaced_again(s2, before, taken, held2, b1.owned(), self.owned());
            assert(held2.difference(b1.owned()).union(self.owned()) =~= self.owned().union(
                ids(seq![passed]),
            ));
        }
        single(passed)
    }

    fn learn(&mut self, config: LearnConfig, runtime: &mut CudaRuntime) {
        TrainingTransformer::learn(
            self,
            config.learning_rate,
            config.momentum,
            config.batch_len,
            runtime,
        );
    }
}

} // verus!
