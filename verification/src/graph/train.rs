//! Complete training steps of a graph.

use vstd::prelude::*;

use crate::cuda::container::{ids, values_of, Matrix, Vector};
use crate::cuda::runtime::CudaRuntime;
use crate::cuda::scalar::F32;
use crate::graph::compile::{Graph, Step};
use crate::graph::config::LearnConfig;
use crate::graph::graph_node::any::configs_of;
use crate::graph::graph_node::{lemma_one, lemma_one_held};
use crate::graph::run::alike::{
    lemma_chain_alike_again, lemma_chain_improved_alike, lemma_chain_passed_alike,
    lemma_chain_ran_alike, law_shapes_last,
};
use crate::graph::run::backward::{back_chain, chain_passed, chain_trains, lemma_chain_awaits};
use crate::graph::run::data::lemma_chain_kept;
use crate::graph::run::forward::{chain_ran, lemma_inputs_live, run_chain};
use crate::graph::run::image::{chain_image, law_graphs_compute_their_steps};
use crate::graph::run::learn::{chain_improved, learn_chain};
use crate::graph::run::{
    chain_footprint, chain_in_order, chain_outputs, chain_takes, lemma_chain_spared,
};
use crate::graph::schedule::{law_a_step_has_one_rate, Rate};
use crate::graph::state::recycle_all;
use crate::net::linear::{single, take_single};

verus! {

broadcast use crate::cuda::runtime::group_streams;

/// Buffers were exchanged for others, and nothing else was touched; numbers may have been
/// brought to the host. Work that was in order still is.
pub open spec fn traded(
    before: CudaRuntime,
    after: CudaRuntime,
    taken: Set<usize>,
    made: Set<usize>,
) -> bool {
    &&& after.wf()
    &&& after.live@ == before.live@.difference(taken).union(made)
    &&& forall|id: usize|
        #![trigger made.contains(id)]
        made.contains(id) ==> !before.live@.contains(id) || taken.contains(id)
    &&& after.keeps(before, taken)
    &&& after.keeps_order(before)
}

/// One trade after another is a trade.
proof fn lemma_traded_again(
    before: CudaRuntime,
    middle: CudaRuntime,
    after: CudaRuntime,
    taken: Set<usize>,
    held: Set<usize>,
    part: Set<usize>,
    made: Set<usize>,
)
    requires
        traded(before, middle, taken, held),
        traded(middle, after, part, made),
        part.subset_of(held),
    ensures
        traded(before, after, taken, held.difference(part).union(made)),
{
    let all = held.difference(part).union(made);
    assert forall|id: usize| #![trigger after.live@.contains(id)] after.live@.contains(id)
        <==> before.live@.difference(taken).union(all).contains(id) by {
        if before.live@.contains(id) && !taken.contains(id) {
            assert(!held.contains(id));
        }
    }
    assert(after.live@ =~= before.live@.difference(taken).union(all));
    assert forall|id: usize| #![trigger all.contains(id)] all.contains(id) implies !before.live@.contains(
        id,
    ) || taken.contains(id) by {
        if made.contains(id) && before.live@.contains(id) && !taken.contains(id) {
            assert(middle.live@.contains(id));
            assert(part.contains(id));
        }
    }
    assert forall|id: usize| #![trigger after.mem(id)] before.live@.contains(id)
        && !taken.contains(id) implies after.mem(id) == before.mem(id) by {
        assert(!held.contains(id));
        assert(middle.live@.contains(id));
        assert(middle.mem(id) == before.mem(id));
    }
    assert forall|id: usize| #![trigger after.buffers@[id as int]] id < before.buffers@.len() implies id
        < after.buffers@.len() && after.buffers@[id as int] == before.buffers@[id as int] by {
        assert(middle.buffers@[id as int] == before.buffers@[id as int]);
    }
}

/// The moments of a training step.
pub ghost struct TrainingStep {
    /// After the forward pass.
    pub ran: CudaRuntime,
    pub run_steps: Seq<Step<true>>,
    pub output: Matrix,
    /// After the loss and its gradient.
    pub scored: CudaRuntime,
    pub gradient: Matrix,
    /// After the output is given back.
    pub ready: CudaRuntime,
    /// After the backward pass.
    pub passed: CudaRuntime,
    pub passed_steps: Seq<Step<true>>,
    pub returned: Seq<Matrix>,
    /// After the input's gradient is given back.
    pub settled: CudaRuntime,
}

impl Graph<true> {
    /// The graph takes an input of its announced shape, can pass a gradient back through
    /// every step, and has an output of its announced shape.
    pub open spec fn trainable(self) -> bool {
        let inputs = seq![self.input_config];
        &&& chain_takes(self.steps@, inputs)
        &&& chain_trains(self.steps@, inputs)
        &&& chain_outputs(self.steps@, inputs) == seq![self.output_config]
    }

    /// A training step went through these moments: a forward pass, the loss, a backward
    /// pass and an optimizer step.
    pub open spec fn stepped(
        self,
        end: Self,
        moments: TrainingStep,
        before: CudaRuntime,
        after: CudaRuntime,
        input: Matrix,
        target: Matrix,
        positive_weight: F32,
        dice_weight: F32,
        config: LearnConfig,
        loss: Vector,
    ) -> bool {
        &&& chain_ran(
            self.steps@,
            moments.run_steps,
            before,
            moments.ran,
            seq![input],
            seq![moments.output],
        )
        &&& moments.ran.matrix(moments.output) == chain_image(
            self.steps@,
            before,
            seq![before.matrix(input)],
            seq![self.input_config],
        )[0]
        &&& self.loss.scored(
            moments.ran,
            moments.scored,
            moments.output,
            target,
            positive_weight,
            dice_weight,
            (loss, moments.gradient),
        )
        &&& moments.ready.shrunk(moments.scored, moments.output.buffer.id)
        &&& chain_passed(
            moments.run_steps,
            moments.passed_steps,
            moments.ready,
            moments.passed,
            seq![moments.gradient],
            moments.returned,
        )
        &&& moments.settled.released(moments.passed, moments.returned)
        &&& chain_improved(moments.passed_steps, end.steps@, moments.settled, after, config)
        &&& after.vector(loss) == moments.scored.vector(loss)
    }

    /// One training step: runs the graph on an input that it takes over, scores the output
    /// against a target, passes the gradient back, applies it, and advances the schedule.
    /// The loss of every row comes back. The step is as long as the schedule says.
    pub fn train_step(
        &mut self,
        input: Matrix,
        target: &Matrix,
        positive_weight: F32,
        dice_weight: F32,
        momentum: F32,
        runtime: &mut CudaRuntime,
    ) -> (r: Vector)
        requires
            old(runtime).wf(),
            chain_in_order(old(self).steps@, *old(runtime)),
            old(self).trainable(),
            old(runtime).holds(input),
            input.rows == old(self).input_config.rows,
            input.cols == old(self).input_config.cols,
            old(runtime).holds(*target),
            target.rows == old(self).output_config.rows,
            target.cols == old(self).output_config.cols,
            target.rows > 0 ==> target.cols > 0,
            target.rows <= u32::MAX,
            input.buffer.id != target.buffer.id,
            !chain_footprint(old(self).steps@).contains(input.buffer.id),
            !chain_footprint(old(self).steps@).contains(target.buffer.id),
            positive_weight.finite(),
            positive_weight.value() > 0,
            dice_weight.finite(),
            dice_weight.value() >= 0,
            dice_weight.value() > 0 ==> old(self).loss is BinaryCrossEntropyWithLogits,
            old(self).learning_rate.wf(),
            forall|rate: Rate|
                #[trigger] old(self).learning_rate.describes(
                    old(self).learning_rate.step as int,
                    rate,
                ) ==> (LearnConfig { learning_rate: rate, momentum, batch_len: 1 }).valid(),
        ensures
            chain_in_order(final(self).steps@, *final(runtime)),
            final(self).trainable(),
            final(self).input_config == old(self).input_config,
            final(self).output_config == old(self).output_config,
            final(self).loss == old(self).loss,
            final(self).training == old(self).training,
            final(self).learning_rate.initial_rate == old(self).learning_rate.initial_rate,
            final(self).learning_rate.stages == old(self).learning_rate.stages,
            final(self).learning_rate.step == if old(self).learning_rate.step == usize::MAX {
                usize::MAX
            } else {
                (old(self).learning_rate.step + 1) as usize
            },
            final(runtime).holds_vector(r),
            r.buffer.len == target.rows,
            !chain_footprint(final(self).steps@).contains(r.buffer.id),
            traded(
                *old(runtime),
                *final(runtime),
                chain_footprint(old(self).steps@).insert(input.buffer.id),
                chain_footprint(final(self).steps@).insert(r.buffer.id),
            ),
            forall|rate: Rate|
                #[trigger] old(self).learning_rate.describes(
                    old(self).learning_rate.step as int,
                    rate,
                ) ==> exists|moments: TrainingStep| #[trigger]
                    old(self).stepped(
                        *final(self),
                        moments,
                        *old(runtime),
                        *final(runtime),
                        input,
                        *target,
                        positive_weight,
                        dice_weight,
                        LearnConfig { learning_rate: rate, momentum, batch_len: 1 },
                        r,
                    ),
    {
        let ghost start = *self;
        let ghost s0 = *runtime;
        let ghost f0 = chain_footprint(start.steps@);
        let ghost shape = seq![start.input_config];
        let ghost taken = f0.insert(input.buffer.id);
        let learning_rate = self.learning_rate.current();
        let config = LearnConfig { learning_rate, momentum, batch_len: 1 };
        proof {
            s0.lemma_replaced_nothing(Set::empty());
            lemma_chain_spared(start.steps@, s0, s0, Set::empty(), Set::empty());
            lemma_one_held(input, s0);
            assert(configs_of(seq![input]) =~= shape);
            assert(f0.union(ids(seq![input])) =~= taken);
        }
        let steps = self.take_steps();
        let (steps, outputs) = run_chain(steps, single(input), runtime);
        let ghost s1 = *runtime;
        let ghost steps1 = steps@;
        let ghost f1 = chain_footprint(steps1);
        proof {
            assert(configs_of(outputs@) == seq![start.output_config]);
            assert(configs_of(outputs@).len() == 1);
            lemma_chain_awaits(start.steps@, steps1, s0, s1, seq![input], outputs@);
            lemma_chain_ran_alike(start.steps@, steps1, s0, s1, seq![input], outputs@);
            law_graphs_compute_their_steps(start.steps@, steps1, s0, s1, seq![input], outputs@);
            assert(values_of(s0, seq![input]) =~= seq![s0.matrix(input)]);
            assert(values_of(s1, outputs@)[0] == s1.matrix(outputs@[0]));
        }
        let output = take_single(outputs);
        let ghost o = output;
        proof {
            assert(seq![o][0] == o);
            assert(s1.holds(o));
            assert(configs_of(seq![o])[0] == start.output_config);
            lemma_one(o);
            assert(f1.union(ids(seq![o])) =~= f1.insert(o.buffer.id));
            assert(!f1.contains(o.buffer.id));
            lemma_scored_ready(s0, s1, *target, taken, f1.union(ids(seq![o])));
        }
        let (loss, gradient) = self.loss.loss_and_output_gradient(
            &output,
            target,
            positive_weight,
            dice_weight,
            runtime,
        );
        let ghost s2 = *runtime;
        let ghost g = gradient;
        let ghost l = loss;
        proof {
            lemma_chain_kept(steps1, s1, s2);
            assert(s2.buffers@[o.buffer.id as int] == o.buffer.len);
        }
        runtime.recycle_matrix(output);
        let ghost s3 = *runtime;
        proof {
            s3.lemma_replaced_shrunk(s2, o.buffer.id);
            lemma_chain_spared(steps1, s2, s3, set![o.buffer.id], Set::empty());
            assert(s3.buffers@[g.buffer.id as int] == g.buffer.len);
            lemma_one_held(g, s3);
            assert(configs_of(seq![g]) =~= configs_of(seq![o]));
            assert(f1.union(ids(seq![g])) =~= f1.insert(g.buffer.id));
            assert(!f1.contains(g.buffer.id) && !f1.contains(l.buffer.id));
        }
        let (steps, returned) = back_chain(steps, single(gradient), runtime);
        let ghost s4 = *runtime;
        let ghost steps2 = steps@;
        let ghost back = returned@;
        let ghost f2 = chain_footprint(steps2);
        proof {
            lemma_chain_passed_alike(steps1, steps2, s3, s4, seq![g], back);
            lemma_inputs_live(back, s4);
        }
        recycle_all(returned, runtime);
        let ghost s5 = *runtime;
        proof {
            assert(s5.live@ =~= s4.live@.difference(ids(back)).union(Set::empty()));
            assert(s5.replaced(s4, ids(back), Set::empty()));
            lemma_chain_spared(steps2, s4, s5, ids(back), Set::empty());
        }
        let steps = learn_chain(steps, config, runtime);
        let ghost s6 = *runtime;
        proof {
            lemma_chain_improved_alike(steps2, steps@, s5, s6, config);
            lemma_chain_alike_again(start.steps@, steps1, steps2);
            lemma_chain_alike_again(start.steps@, steps2, steps@);
            law_shapes_last(start.steps@, steps@, shape);
            let f3 = chain_footprint(steps@);
            lemma_step_trades(
                s0,
                s1,
                s2,
                s3,
                s4,
                s5,
                s6,
                taken,
                f1,
                f2,
                f3,
                o.buffer.id,
                l.buffer.id,
                g.buffer.id,
                ids(back),
            );
            assert(s3.buffers@[l.buffer.id as int] == l.buffer.len);
            assert(s4.buffers@[l.buffer.id as int] == l.buffer.len);
            assert(s5.buffers@[l.buffer.id as int] == l.buffer.len);
            assert(s6.buffers@[l.buffer.id as int] == l.buffer.len);
            assert(s6.vector(l) == s2.vector(l));
        }
        self.steps = steps;
        self.learning_rate.advance();
        proof {
            let moments = TrainingStep {
                ran: s1,
                run_steps: steps1,
                output: o,
                scored: s2,
                gradient: g,
                ready: s3,
                passed: s4,
                passed_steps: steps2,
                returned: back,
                settled: s5,
            };
            assert(start.stepped(
                *self,
                moments,
                s0,
                s6,
                input,
                *target,
                positive_weight,
                dice_weight,
                config,
                l,
            ));
            assert forall|rate: Rate|
                #[trigger] start.learning_rate.describes(
                    start.learning_rate.step as int,
                    rate,
                ) implies rate == learning_rate by {
                law_a_step_has_one_rate(
                    start.learning_rate,
                    start.learning_rate.step as int,
                    rate,
                    learning_rate,
                );
            }
        }
        loss
    }
}

/// The target is still there when the output is.
proof fn lemma_scored_ready(
    before: CudaRuntime,
    after: CudaRuntime,
    target: Matrix,
    taken: Set<usize>,
    made: Set<usize>,
)
    requires
        before.wf(),
        before.holds(target),
        after.replaced(before, taken, made),
        !taken.contains(target.buffer.id),
    ensures
        after.holds(target),
{
    assert(after.live@.contains(target.buffer.id));
    assert(after.buffers@[target.buffer.id as int] == target.buffer.len);
}

/// What a training step takes and makes from first to last, and what happens to the loss
/// meanwhile.
proof fn lemma_step_trades(
    s0: CudaRuntime,
    s1: CudaRuntime,
    s2: CudaRuntime,
    s3: CudaRuntime,
    s4: CudaRuntime,
    s5: CudaRuntime,
    s6: CudaRuntime,
    taken: Set<usize>,
    f1: Set<usize>,
    f2: Set<usize>,
    f3: Set<usize>,
    output: usize,
    loss: usize,
    gradient: usize,
    back: Set<usize>,
)
    requires
        s0.wf(),
        s1.wf(),
        s2.wf(),
        taken.subset_of(s0.live@),
        s1.replaced(s0, taken, f1.insert(output)),
        !f1.contains(output),
        s2.keeps(s1, Set::empty()),
        s2.keeps_order(s1),
        s2.live@ == s1.live@.insert(loss).insert(gradient),
        loss != gradient,
        !s1.live@.contains(loss),
        !s1.live@.contains(gradient),
        s3.replaced(s2, set![output], Set::empty()),
        s4.replaced(s3, f1.insert(gradient), f2.union(back)),
        f2.disjoint(back),
        s5.replaced(s4, back, Set::empty()),
        s6.replaced(s5, f2, f3),
    ensures
        traded(s0, s6, taken, f3.insert(loss)),
        !f3.contains(loss),
        s6.live@.contains(loss),
        s6.mem(loss) == s2.mem(loss),
{
    assert(s0.live@ =~= s0.live@.difference(taken).union(taken));
    assert(s1.live@.contains(output));
    let h1 = f1.insert(output);
    let made = set![loss, gradient];
    assert(s2.live@ =~= s1.live@.difference(Set::empty()).union(made));
    lemma_traded_again(s0, s1, s2, taken, h1, Set::empty(), made);
    let h2 = h1.difference(Set::empty()).union(made);
    assert(h2.contains(output));
    lemma_traded_again(s0, s2, s3, taken, h2, set![output], Set::empty());
    let h3 = h2.difference(set![output]).union(Set::empty());
    assert(h3 =~= f1.insert(loss).insert(gradient));
    assert(f1.subset_of(s1.live@));
    assert(!f1.contains(loss) && !f1.contains(gradient));
    let p3 = f1.insert(gradient);
    assert(p3.subset_of(h3));
    lemma_traded_again(s0, s3, s4, taken, h3, p3, f2.union(back));
    let h4 = h3.difference(p3).union(f2.union(back));
    assert(h4 =~= f2.union(back).insert(loss));
    assert(s2.live@.contains(loss) && s3.live@.contains(loss));
    assert(!p3.contains(loss));
    assert(!f2.union(back).contains(loss));
    assert(!f2.contains(loss) && !back.contains(loss));
    assert(s4.live@.contains(loss));
    assert(back.subset_of(h4));
    lemma_traded_again(s0, s4, s5, taken, h4, back, Set::empty());
    let h5 = h4.difference(back).union(Set::empty());
    assert(h5 =~= f2.insert(loss));
    assert(s5.live@.contains(loss));
    lemma_traded_again(s0, s5, s6, taken, h5, f2, f3);
    assert(h5.difference(f2).union(f3) =~= f3.insert(loss));
    assert(s6.mem(loss) == s5.mem(loss));
    assert(s5.mem(loss) == s4.mem(loss));
    assert(s4.mem(loss) == s3.mem(loss));
    assert(s3.mem(loss) == s2.mem(loss));
    if f3.contains(loss) {
        assert(!s5.live@.contains(loss) || f2.contains(loss));
    }
}

} // verus!
