//! Forward passes.

use vstd::prelude::*;

use super::{
    branches_footprint, branches_in_order, branches_outputs, branches_take, chain_footprint,
    chain_in_order, chain_outputs, chain_takes, lemma_branches_spared, lemma_chain_spared,
    lemma_step_spared, moment, same_branch,
};
use crate::cuda::container::{ids, Matrix};
use crate::cuda::runtime::CudaRuntime;
use crate::graph::compile::{Branch, Step};
use crate::graph::graph_node::any::configs_of;
use crate::graph::graph_node::{lemma_one, lemma_one_held, GraphNode};
use crate::net::gradient::lemma_matrix_spared;
use crate::net::linear::{single, take_single};

verus! {

broadcast use crate::cuda::runtime::group_streams;

impl<const TRAINING: bool> Step<TRAINING> {
    /// A forward pass made these outputs of these inputs.
    pub open spec fn ran(
        self,
        end: Self,
        before: CudaRuntime,
        after: CudaRuntime,
        inputs: Seq<Matrix>,
        outputs: Seq<Matrix>,
    ) -> bool
        decreases self,
    {
        &&& self.in_order(before)
        &&& before.holds_all(inputs)
        &&& after.replaced(
            before,
            self.footprint().union(ids(inputs)),
            end.footprint().union(ids(outputs)),
        )
        &&& match (self, end) {
            (Step::Node(node), Step::Node(last)) => node.gives(
                last,
                before,
                after,
                inputs,
                outputs,
            ),
            (Step::Branches(branches), Step::Branches(ends)) => branches_ran(
                branches@,
                ends@,
                before,
                after,
                inputs,
                outputs,
            ),
            _ => false,
        }
    }
}

/// A forward pass through steps made these outputs of these inputs: there are moments
/// in between at which each step took over what the one before it gave.
pub open spec fn chain_ran<const TRAINING: bool>(
    steps: Seq<Step<TRAINING>>,
    ends: Seq<Step<TRAINING>>,
    before: CudaRuntime,
    after: CudaRuntime,
    inputs: Seq<Matrix>,
    outputs: Seq<Matrix>,
) -> bool
    decreases steps,
{
    &&& ends.len() == steps.len()
    &&& if steps.len() == 0 {
        after == before && outputs == inputs
    } else {
        exists|middle: CudaRuntime, flow: Seq<Matrix>|
            {
                &&& #[trigger] moment(middle, flow)
                &&& chain_ran(steps.drop_last(), ends.drop_last(), before, middle, inputs, flow)
                &&& steps.last().ran(ends.last(), middle, after, flow, outputs)
            }
    }
}

/// A forward pass through branches, one after the other, made one output of each input.
pub open spec fn branches_ran<const TRAINING: bool>(
    branches: Seq<Branch<TRAINING>>,
    ends: Seq<Branch<TRAINING>>,
    before: CudaRuntime,
    after: CudaRuntime,
    inputs: Seq<Matrix>,
    outputs: Seq<Matrix>,
) -> bool
    decreases branches,
{
    &&& ends.len() == branches.len()
    &&& inputs.len() == branches.len()
    &&& outputs.len() == branches.len()
    &&& if branches.len() == 0 {
        after == before
    } else {
        &&& same_branch(branches.last(), ends.last())
        &&& exists|middle: CudaRuntime|
            {
                &&& #[trigger] moment(middle, seq![inputs.last()])
                &&& branches_ran(
                    branches.drop_last(),
                    ends.drop_last(),
                    before,
                    middle,
                    inputs.drop_last(),
                    outputs.drop_last(),
                )
                &&& chain_ran(
                    branches.last().steps@,
                    ends.last().steps@,
                    middle,
                    after,
                    seq![inputs.last()],
                    seq![outputs.last()],
                )
            }
    }
}

/// Runs steps on inputs that they take over.
pub fn run_chain<const TRAINING: bool>(
    steps: Vec<Step<TRAINING>>,
    inputs: Vec<Matrix>,
    runtime: &mut CudaRuntime,
) -> (r: (Vec<Step<TRAINING>>, Vec<Matrix>))
    requires
        old(runtime).wf(),
        chain_in_order(steps@, *old(runtime)),
        old(runtime).holds_all(inputs@),
        chain_footprint(steps@).disjoint(ids(inputs@)),
        chain_takes(steps@, configs_of(inputs@)),
    ensures
        chain_in_order(r.0@, *final(runtime)),
        final(runtime).holds_all(r.1@),
        chain_footprint(r.0@).disjoint(ids(r.1@)),
        final(runtime).replaced(
            *old(runtime),
            chain_footprint(steps@).union(ids(inputs@)),
            chain_footprint(r.0@).union(ids(r.1@)),
        ),
        configs_of(r.1@) == chain_outputs(steps@, configs_of(inputs@)),
        chain_ran(steps@, r.0@, *old(runtime), *final(runtime), inputs@, r.1@),
    decreases steps@, 0nat,
{
    let ghost before = *runtime;
    let ghost all = steps@;
    let ghost given = inputs@;
    let mut steps = steps;
    let last = match steps.pop() {
        Some(last) => last,
        None => {
            proof {
                lemma_nothing_run(all, before, given);
            }
            return (steps, inputs);
        },
    };
    let ghost front = steps@;
    let ghost step = last;
    proof {
        assert(front =~= all.drop_last());
        assert(step == all.last());
        assert(chain_footprint(all) =~= chain_footprint(front).union(step.footprint()));
        lemma_inputs_live(given, before);
        before.lemma_replaced_nothing(Set::empty());
        lemma_step_spared(step, before, before, Set::empty(), Set::empty());
        lemma_chain_spared(front, before, before, Set::empty(), Set::empty());
        assert(decreases_to!(all => front));
        assert(decreases_to!(all => all[all.len() - 1]));
    }
    let (mut done, flow) = run_chain(steps, inputs, runtime);
    let ghost s1 = *runtime;
    let ghost front_end = done@;
    let ghost mids = flow@;
    let ghost taken1 = chain_footprint(front).union(ids(given));
    let ghost made1 = chain_footprint(front_end).union(ids(mids));
    proof {
        assert(taken1.disjoint(step.footprint()));
        lemma_step_spared(step, before, s1, taken1, made1);
        assert(step.takes_all(configs_of(mids)));
    }
    let (last, outputs) = match last {
        Step::Node(node) => {
            let mut node = node;
            let ghost start = node;
            let outputs = GraphNode::forward(&mut node, flow, runtime);
            proof {
                start.lemma_output_configs(node, s1, *runtime, mids, outputs@);
                assert(step.outputs(configs_of(mids)) == configs_of(outputs@));
                let end = Step::<TRAINING>::Node(node);
                assert(end.in_order(*runtime));
                assert(step.ran(end, s1, *runtime, mids, outputs@));
            }
            (Step::Node(node), outputs)
        },
        Step::Branches(branches) => {
            proof {
                assert(decreases_to!(step => branches));
                assert(decreases_to!(branches => branches@));
            }
            let (branches, outputs) = run_branches(branches, flow, runtime);
            proof {
                assert(step.outputs(configs_of(mids)) == configs_of(outputs@));
                let end = Step::<TRAINING>::Branches(branches);
                assert(end.in_order(*runtime));
                assert(step.ran(end, s1, *runtime, mids, outputs@));
            }
            (Step::Branches(branches), outputs)
        },
    };
    let ghost end = last;
    done.push(last);
    proof {
        let s2 = *runtime;
        let taken2 = step.footprint().union(ids(mids));
        let made2 = end.footprint().union(ids(outputs@));
        assert(done@.drop_last() =~= front_end);
        assert(done@.last() == end);
        assert(taken2.disjoint(chain_footprint(front_end)));
        lemma_chain_spared(front_end, s1, s2, taken2, made2);
        assert(front_end.len() == front.len());
        assert(step.ran(end, s1, s2, mids, outputs@));
        assert(chain_ran(all.drop_last(), done@.drop_last(), before, s1, given, mids));
        assert(moment(s1, mids));
        assert(chain_ran(all, done@, before, s2, given, outputs@));
        assert(chain_footprint(done@) =~= chain_footprint(front_end).union(end.footprint()));
        lemma_two_passes(
            before,
            s1,
            s2,
            chain_footprint(front),
            chain_footprint(front_end),
            step.footprint(),
            end.footprint(),
            ids(given),
            ids(mids),
            ids(outputs@),
        );
    }
    (done, outputs)
}

/// Runs branches on one input each.
pub fn run_branches<const TRAINING: bool>(
    branches: Vec<Branch<TRAINING>>,
    inputs: Vec<Matrix>,
    runtime: &mut CudaRuntime,
) -> (r: (Vec<Branch<TRAINING>>, Vec<Matrix>))
    requires
        old(runtime).wf(),
        branches_in_order(branches@, *old(runtime)),
        old(runtime).holds_all(inputs@),
        branches_footprint(branches@).disjoint(ids(inputs@)),
        branches_take(branches@, configs_of(inputs@)),
    ensures
        branches_in_order(r.0@, *final(runtime)),
        final(runtime).holds_all(r.1@),
        branches_footprint(r.0@).disjoint(ids(r.1@)),
        final(runtime).replaced(
            *old(runtime),
            branches_footprint(branches@).union(ids(inputs@)),
            branches_footprint(r.0@).union(ids(r.1@)),
        ),
        configs_of(r.1@) == branches_outputs(branches@, configs_of(inputs@)),
        branches_ran(branches@, r.0@, *old(runtime), *final(runtime), inputs@, r.1@),
    decreases branches@, 0nat,
{
    let ghost before = *runtime;
    let ghost all = branches@;
    let ghost given = inputs@;
    let mut branches = branches;
    let mut inputs = inputs;
    let branch = match branches.pop() {
        Some(branch) => branch,
        None => {
            proof {
                lemma_no_branches(all, before, given);
            }
            return (branches, inputs);
        },
    };
    let input = inputs.pop().unwrap();
    let ghost front = branches@;
    let ghost rest = inputs@;
    let ghost last = branch;
    let ghost f0 = chain_footprint(last.steps@);
    proof {
        assert(front =~= all.drop_last());
        assert(last == all.last());
        assert(rest =~= given.drop_last());
        assert(input == given.last());
        assert(configs_of(rest) =~= configs_of(given).drop_last());
        assert(configs_of(seq![input]) =~= seq![configs_of(given).last()]);
        lemma_last_input(given, before);
        assert(branches_footprint(all) =~= branches_footprint(front).union(f0));
        assert(ids(rest).subset_of(ids(given)) && ids(given).contains(input.buffer.id));
        assert(branches_footprint(front).disjoint(ids(rest)));
        assert(f0.disjoint(ids(rest)));
        assert(branches_take(front, configs_of(rest)));
        assert(chain_takes(last.steps@, configs_of(seq![input])));
        before.lemma_replaced_nothing(Set::empty());
        lemma_chain_spared(last.steps@, before, before, Set::empty(), Set::empty());
        lemma_branches_spared(front, before, before, Set::empty(), Set::empty());
        assert(decreases_to!(all => front));
        assert(decreases_to!(all => all[all.len() - 1]));
        assert(decreases_to!(last => last.steps));
        assert(decreases_to!(last.steps => last.steps@));
    }
    let (mut done, mut outputs) = run_branches(branches, inputs, runtime);
    let ghost s1 = *runtime;
    let ghost front_end = done@;
    let ghost outs = outputs@;
    let ghost taken1 = branches_footprint(front).union(ids(rest));
    let ghost made1 = branches_footprint(front_end).union(ids(outs));
    let ghost iid = input.buffer.id;
    proof {
        assert(taken1.disjoint(f0));
        lemma_chain_spared(last.steps@, before, s1, taken1, made1);
        assert(!taken1.contains(iid));
        lemma_matrix_spared(input, before, s1, taken1, made1);
        lemma_one_held(input, s1);
    }
    let Branch { input_config, output_config, loss, learning_rate, steps, training } = branch;
    let (steps, made) = run_chain(steps, single(input), runtime);
    let ghost f1 = chain_footprint(steps@);
    proof {
        assert(configs_of(made@).len() == 1);
    }
    let output = take_single(made);
    let branch = Branch { input_config, output_config, loss, learning_rate, steps, training };
    let ghost end = branch;
    done.push(branch);
    outputs.push(output);
    proof {
        let s2 = *runtime;
        let taken2 = f0.union(ids(seq![input]));
        let made2 = f1.union(ids(seq![output]));
        lemma_one(input);
        lemma_one(output);
        assert(done@.drop_last() =~= front_end);
        assert(done@.last() == end);
        assert(outputs@.drop_last() =~= outs);
        assert(outputs@.last() == output);
        assert(taken2.disjoint(branches_footprint(front_end)));
        assert(taken2.disjoint(ids(outs)));
        lemma_branches_spared(front_end, s1, s2, taken2, made2);
        assert(front_end.len() == front.len() && outs.len() == front.len());
        assert(same_branch(last, end));
        assert(chain_ran(last.steps@, end.steps@, s1, s2, seq![input], seq![output]));
        assert(branches_ran(
            all.drop_last(),
            done@.drop_last(),
            before,
            s1,
            given.drop_last(),
            outputs@.drop_last(),
        ));
        assert(moment(s1, seq![given.last()]));
        assert(branches_ran(all, done@, before, s2, given, outputs@));
        lemma_one_more(outs, output, s1, s2, taken2, made2);
        assert(branches_footprint(done@) =~= branches_footprint(front_end).union(f1));
        assert(configs_of(outputs@) =~= configs_of(outs).push(configs_of(seq![output])[0]));
        lemma_side_by_side(
            before,
            s1,
            s2,
            branches_footprint(front),
            branches_footprint(front_end),
            f0,
            f1,
            ids(rest),
            ids(outs),
            ids(seq![input]),
            ids(seq![output]),
        );
        assert(ids(given) =~= ids(rest).union(ids(seq![input])));
        assert(ids(outputs@) =~= ids(outs).union(ids(seq![output])));
    }
    (done, outputs)
}

/// Live matrices have live buffers.
pub proof fn lemma_inputs_live(ms: Seq<Matrix>, runtime: CudaRuntime)
    requires
        runtime.holds_all(ms),
    ensures
        ids(ms).subset_of(runtime.live@),
{
    assert forall|id: usize| ids(ms).contains(id) implies runtime.live@.contains(id) by {
        let k = choose|k: int| 0 <= k < ms.len() && (#[trigger] ms[k]).buffer.id == id;
        assert(runtime.holds(ms[k]));
    }
}

/// No steps make nothing of their inputs.
proof fn lemma_nothing_run<const TRAINING: bool>(
    steps: Seq<Step<TRAINING>>,
    runtime: CudaRuntime,
    inputs: Seq<Matrix>,
)
    requires
        runtime.wf(),
        steps.len() == 0,
        runtime.holds_all(inputs),
    ensures
        chain_ran(steps, steps, runtime, runtime, inputs, inputs),
        runtime.replaced(
            runtime,
            chain_footprint(steps).union(ids(inputs)),
            chain_footprint(steps).union(ids(inputs)),
        ),
        chain_in_order(steps, runtime),
{
    lemma_inputs_live(inputs, runtime);
    assert(chain_footprint(steps).union(ids(inputs)) =~= ids(inputs));
    runtime.lemma_replaced_nothing(ids(inputs));
}

/// No branches take nothing and give nothing.
proof fn lemma_no_branches<const TRAINING: bool>(
    branches: Seq<Branch<TRAINING>>,
    runtime: CudaRuntime,
    inputs: Seq<Matrix>,
)
    requires
        runtime.wf(),
        branches.len() == 0,
        inputs.len() == 0,
    ensures
        branches_ran(branches, branches, runtime, runtime, inputs, inputs),
        runtime.holds_all(inputs),
        runtime.replaced(
            runtime,
            branches_footprint(branches).union(ids(inputs)),
            branches_footprint(branches).union(ids(inputs)),
        ),
{
    assert(branches_footprint(branches).union(ids(inputs)) =~= Set::empty());
    runtime.lemma_replaced_nothing(Set::empty());
}

/// The last of some live matrices is live and shares nothing with the others.
pub proof fn lemma_last_input(ms: Seq<Matrix>, runtime: CudaRuntime)
    requires
        runtime.holds_all(ms),
        ms.len() > 0,
    ensures
        runtime.holds_all(ms.drop_last()),
        runtime.holds(ms.last()),
        !ids(ms.drop_last()).contains(ms.last().buffer.id),
        ids(ms) == ids(ms.drop_last()).insert(ms.last().buffer.id),
        ids(ms).subset_of(runtime.live@),
{
    let front = ms.drop_last();
    let n = ms.len() - 1;
    lemma_inputs_live(ms, runtime);
    assert(ms[n] == ms.last());
    assert forall|k: int| 0 <= k < front.len() implies #[trigger] front[k] == ms[k] by {}
    assert forall|id: usize| #[trigger] ids(ms).contains(id) <==> ids(front).contains(id) || id
        == ms.last().buffer.id by {
        if ids(ms).contains(id) {
            let k = choose|k: int| 0 <= k < ms.len() && (#[trigger] ms[k]).buffer.id == id;
            if k < n {
                assert(front[k].buffer.id == id);
            }
        }
        if ids(front).contains(id) {
            let k = choose|k: int| 0 <= k < front.len() && (#[trigger] front[k]).buffer.id == id;
            assert(ms[k].buffer.id == id);
        }
        if id == ms.last().buffer.id {
            assert(ms[n].buffer.id == id);
        }
    }
    assert(ids(ms) =~= ids(front).insert(ms.last().buffer.id));
    if ids(front).contains(ms.last().buffer.id) {
        let k = choose|k: int|
            0 <= k < front.len() && (#[trigger] front[k]).buffer.id == ms.last().buffer.id;
        assert(ms[k].buffer.id == ms[n].buffer.id);
    }
}

/// Live matrices and one more, made since, are live together.
pub proof fn lemma_one_more(
    ms: Seq<Matrix>,
    m: Matrix,
    before: CudaRuntime,
    after: CudaRuntime,
    taken: Set<usize>,
    made: Set<usize>,
)
    requires
        before.wf(),
        before.holds_all(ms),
        after.replaced(before, taken, made),
        taken.disjoint(ids(ms)),
        made.contains(m.buffer.id),
        after.holds(m),
    ensures
        after.holds_all(ms.push(m)),
        ids(ms.push(m)) == ids(ms).insert(m.buffer.id),
        made.disjoint(ids(ms)),
{
    let all = ms.push(m);
    lemma_inputs_live(ms, before);
    assert forall|k: int| #![trigger ms[k]] 0 <= k < ms.len() implies after.holds(ms[k])
        && !made.contains(ms[k].buffer.id) by {
        assert(ids(ms).contains(ms[k].buffer.id));
        lemma_matrix_spared(ms[k], before, after, taken, made);
    }
    assert forall|k: int| #![trigger all[k]] 0 <= k < all.len() implies after.holds(all[k]) by {
        if k < ms.len() {
            assert(all[k] == ms[k]);
        }
    }
    assert forall|i: int, j: int|
        #![trigger all[i], all[j]]
        0 <= i < j < all.len() implies all[i].buffer.id != all[j].buffer.id by {
        assert(all[i] == ms[i]);
        if j < ms.len() {
            assert(all[j] == ms[j]);
        }
    }
    assert forall|id: usize| #[trigger] ids(all).contains(id) <==> ids(ms).contains(id) || id
        == m.buffer.id by {
        if ids(all).contains(id) {
            let k = choose|k: int| 0 <= k < all.len() && (#[trigger] all[k]).buffer.id == id;
            if k < ms.len() {
                assert(ms[k].buffer.id == id);
            }
        }
        if ids(ms).contains(id) {
            let k = choose|k: int| 0 <= k < ms.len() && (#[trigger] ms[k]).buffer.id == id;
            assert(all[k].buffer.id == id);
        }
        if id == m.buffer.id {
            assert(all[ms.len() as int].buffer.id == id);
        }
    }
    assert(ids(all) =~= ids(ms).insert(m.buffer.id));
    assert forall|id: usize| made.contains(id) implies !ids(ms).contains(id) by {
        if ids(ms).contains(id) {
            let k = choose|k: int| 0 <= k < ms.len() && (#[trigger] ms[k]).buffer.id == id;
        }
    }
}

/// One pass and then another on what it gave.
pub proof fn lemma_two_passes(
    before: CudaRuntime,
    middle: CudaRuntime,
    after: CudaRuntime,
    front: Set<usize>,
    front_end: Set<usize>,
    last: Set<usize>,
    last_end: Set<usize>,
    inputs: Set<usize>,
    flow: Set<usize>,
    outputs: Set<usize>,
)
    requires
        before.wf(),
        front.union(last).union(inputs).subset_of(before.live@),
        middle.replaced(before, front.union(inputs), front_end.union(flow)),
        after.replaced(middle, last.union(flow), last_end.union(outputs)),
        last.disjoint(front) && last.disjoint(inputs),
        last.disjoint(front_end) && last.disjoint(flow),
        front_end.disjoint(flow),
    ensures
        after.replaced(
            before,
            front.union(last).union(inputs),
            front_end.union(last_end).union(outputs),
        ),
{
    let taken = front.union(last).union(inputs);
    let part1 = front.union(inputs);
    let made1 = front_end.union(flow);
    before.lemma_replaced_nothing(taken);
    assert(part1.subset_of(taken));
    middle.lemma_replaced_again(before, before, taken, taken, part1, made1);
    let held = taken.difference(part1).union(made1);
    assert(held =~= last.union(front_end).union(flow));
    let part2 = last.union(flow);
    assert(part2.subset_of(held));
    after.lemma_replaced_again(middle, before, taken, held, part2, last_end.union(outputs));
    assert(held.difference(part2).union(last_end.union(outputs)) =~= front_end.union(
        last_end,
    ).union(outputs));
}

/// One pass and then another on something else.
pub proof fn lemma_side_by_side(
    before: CudaRuntime,
    middle: CudaRuntime,
    after: CudaRuntime,
    front: Set<usize>,
    front_end: Set<usize>,
    last: Set<usize>,
    last_end: Set<usize>,
    rest: Set<usize>,
    outs: Set<usize>,
    input: Set<usize>,
    output: Set<usize>,
)
    requires
        before.wf(),
        front.union(last).union(rest).union(input).subset_of(before.live@),
        middle.replaced(before, front.union(rest), front_end.union(outs)),
        after.replaced(middle, last.union(input), last_end.union(output)),
        last.union(input).disjoint(front.union(rest)),
        last.union(input).disjoint(front_end.union(outs)),
    ensures
        after.replaced(
            before,
            front.union(last).union(rest.union(input)),
            front_end.union(last_end).union(outs.union(output)),
        ),
{
    let taken = front.union(last).union(rest.union(input));
    let part1 = front.union(rest);
    let made1 = front_end.union(outs);
    before.lemma_replaced_nothing(taken);
    assert(part1.subset_of(taken));
    middle.lemma_replaced_again(before, before, taken, taken, part1, made1);
    let held = taken.difference(part1).union(made1);
    assert(held =~= last.union(input).union(front_end).union(outs));
    let part2 = last.union(input);
    assert(part2.subset_of(held));
    after.lemma_replaced_again(middle, before, taken, held, part2, last_end.union(output));
    assert(held.difference(part2).union(last_end.union(output)) =~= front_end.union(
        last_end,
    ).union(outs.union(output)));
}

} // verus!
