//! Backward passes.

use vstd::prelude::*;

use super::forward::{
    branches_ran, chain_ran, lemma_inputs_live, lemma_last_input, lemma_one_more,
    lemma_side_by_side,
};
use super::{
    branches_footprint, branches_in_order, branches_outputs, branches_take, chain_footprint,
    chain_in_order, chain_outputs, chain_takes, lemma_branches_spared, lemma_chain_spared,
    lemma_step_spared, moment, same_branch,
};
use crate::cuda::container::{ids, Matrix};
use crate::cuda::runtime::CudaRuntime;
use crate::graph::compile::{Branch, Step};
use crate::graph::config::MatrixConfig;
use crate::graph::graph_node::any::configs_of;
use crate::graph::graph_node::{lemma_one, lemma_one_held, GraphNode, TrainingNode};
use crate::net::gradient::lemma_matrix_spared;
use crate::net::linear::{single, take_single};

verus! {

broadcast use crate::cuda::runtime::group_streams;

impl<const TRAINING: bool> Step<TRAINING> {
    /// Once it has run on inputs of these shapes, the step can pass gradients back.
    pub open spec fn trains_on(self, inputs: Seq<MatrixConfig>) -> bool
        decreases self,
    {
        match self {
            Step::Node(node) => node.trains_on(inputs),
            Step::Branches(branches) => branches_train(branches@, inputs),
        }
    }

    /// The step takes all gradients of these shapes.
    pub open spec fn awaits(self, outputs: Seq<MatrixConfig>) -> bool
        decreases self,
    {
        match self {
            Step::Node(node) => node.awaits(outputs),
            Step::Branches(branches) => branches_await(branches@, outputs),
        }
    }

    /// The shapes of the gradients that the step passes back.
    pub open spec fn returned(self, outputs: Seq<MatrixConfig>) -> Seq<MatrixConfig>
        decreases self,
    {
        match self {
            Step::Node(node) => node.returned(outputs),
            Step::Branches(branches) => branches_returned(branches@, outputs),
        }
    }

    /// Every parameter of the step has a gradient.
    pub open spec fn has_gradients(self) -> bool
        decreases self,
    {
        match self {
            Step::Node(node) => node.has_gradients(),
            Step::Branches(branches) => branches_ready(branches@),
        }
    }

    /// A backward pass made these gradients of those.
    pub open spec fn passed(
        self,
        end: Self,
        before: CudaRuntime,
        after: CudaRuntime,
        gradients: Seq<Matrix>,
        r: Seq<Matrix>,
    ) -> bool
        decreases self,
    {
        &&& after.replaced(
            before,
            self.footprint().union(ids(gradients)),
            end.footprint().union(ids(r)),
        )
        &&& match (self, end) {
            (Step::Node(node), Step::Node(last)) => node.passes_back(
                last,
                before,
                after,
                gradients,
                r,
            ),
            (Step::Branches(branches), Step::Branches(ends)) => branches_passed(
                branches@,
                ends@,
                before,
                after,
                gradients,
                r,
            ),
            _ => false,
        }
    }
}

/// Once they have run on inputs of these shapes, steps can pass gradients back.
pub open spec fn chain_trains<const TRAINING: bool>(
    steps: Seq<Step<TRAINING>>,
    inputs: Seq<MatrixConfig>,
) -> bool
    decreases steps,
{
    steps.len() > 0 ==> {
        &&& chain_trains(steps.drop_last(), inputs)
        &&& steps.last().trains_on(chain_outputs(steps.drop_last(), inputs))
    }
}

/// The same for branches.
pub open spec fn branches_train<const TRAINING: bool>(
    branches: Seq<Branch<TRAINING>>,
    inputs: Seq<MatrixConfig>,
) -> bool
    decreases branches,
{
    branches.len() > 0 ==> {
        &&& branches_train(branches.drop_last(), inputs.drop_last())
        &&& chain_trains(branches.last().steps@, seq![inputs.last()])
    }
}

/// Steps take gradients of these shapes, each what the one behind it passes back.
pub open spec fn chain_awaits<const TRAINING: bool>(
    steps: Seq<Step<TRAINING>>,
    outputs: Seq<MatrixConfig>,
) -> bool
    decreases steps,
{
    steps.len() > 0 ==> {
        &&& steps.last().awaits(outputs)
        &&& chain_awaits(steps.drop_last(), steps.last().returned(outputs))
    }
}

/// The shapes of the gradients that steps pass back.
pub open spec fn chain_returned<const TRAINING: bool>(
    steps: Seq<Step<TRAINING>>,
    outputs: Seq<MatrixConfig>,
) -> Seq<MatrixConfig>
    decreases steps,
{
    if steps.len() == 0 {
        outputs
    } else {
        chain_returned(steps.drop_last(), steps.last().returned(outputs))
    }
}

/// Branches take one gradient each and pass one back each.
pub open spec fn branches_await<const TRAINING: bool>(
    branches: Seq<Branch<TRAINING>>,
    outputs: Seq<MatrixConfig>,
) -> bool
    decreases branches,
{
    &&& outputs.len() == branches.len()
    &&& branches.len() > 0 ==> {
        &&& branches_await(branches.drop_last(), outputs.drop_last())
        &&& chain_awaits(branches.last().steps@, seq![outputs.last()])
        &&& chain_returned(branches.last().steps@, seq![outputs.last()]).len() == 1
    }
}

/// The shapes of the gradients that branches pass back.
pub open spec fn branches_returned<const TRAINING: bool>(
    branches: Seq<Branch<TRAINING>>,
    outputs: Seq<MatrixConfig>,
) -> Seq<MatrixConfig>
    decreases branches,
{
    if branches.len() == 0 {
        Seq::empty()
    } else {
        branches_returned(branches.drop_last(), outputs.drop_last()).push(
            chain_returned(branches.last().steps@, seq![outputs.last()])[0],
        )
    }
}

/// Every parameter of steps has a gradient.
pub open spec fn chain_ready<const TRAINING: bool>(steps: Seq<Step<TRAINING>>) -> bool
    decreases steps,
{
    steps.len() > 0 ==> chain_ready(steps.drop_last()) && steps.last().has_gradients()
}

/// Every parameter of branches has a gradient.
pub open spec fn branches_ready<const TRAINING: bool>(branches: Seq<Branch<TRAINING>>) -> bool
    decreases branches,
{
    branches.len() > 0 ==> branches_ready(branches.drop_last()) && chain_ready(
        branches.last().steps@,
    )
}

/// A backward pass through steps made these gradients of those: there are moments in
/// between at which each step took over what the one behind it passed back.
pub open spec fn chain_passed<const TRAINING: bool>(
    steps: Seq<Step<TRAINING>>,
    ends: Seq<Step<TRAINING>>,
    before: CudaRuntime,
    after: CudaRuntime,
    gradients: Seq<Matrix>,
    r: Seq<Matrix>,
) -> bool
    decreases steps,
{
    &&& ends.len() == steps.len()
    &&& if steps.len() == 0 {
        after == before && r == gradients
    } else {
        exists|middle: CudaRuntime, flow: Seq<Matrix>|
            {
                &&& #[trigger] moment(middle, flow)
                &&& steps.last().passed(ends.last(), before, middle, gradients, flow)
                &&& chain_passed(steps.drop_last(), ends.drop_last(), middle, after, flow, r)
            }
    }
}

/// A backward pass through branches, one after the other, made one gradient of each.
pub open spec fn branches_passed<const TRAINING: bool>(
    branches: Seq<Branch<TRAINING>>,
    ends: Seq<Branch<TRAINING>>,
    before: CudaRuntime,
    after: CudaRuntime,
    gradients: Seq<Matrix>,
    r: Seq<Matrix>,
) -> bool
    decreases branches,
{
    &&& ends.len() == branches.len()
    &&& gradients.len() == branches.len()
    &&& r.len() == branches.len()
    &&& if branches.len() == 0 {
        after == before
    } else {
        &&& same_branch(branches.last(), ends.last())
        &&& exists|middle: CudaRuntime|
            {
                &&& #[trigger] moment(middle, seq![gradients.last()])
                &&& branches_passed(
                    branches.drop_last(),
                    ends.drop_last(),
                    before,
                    middle,
                    gradients.drop_last(),
                    r.drop_last(),
                )
                &&& chain_passed(
                    branches.last().steps@,
                    ends.last().steps@,
                    middle,
                    after,
                    seq![gradients.last()],
                    seq![r.last()],
                )
            }
    }
}

/// Gradients pass steps in reverse: what the later ones pass back is what the earlier ones take.
pub proof fn law_gradients_pass_steps_in_reverse<const TRAINING: bool>(
    earlier: Seq<Step<TRAINING>>,
    later: Seq<Step<TRAINING>>,
    earlier_ends: Seq<Step<TRAINING>>,
    later_ends: Seq<Step<TRAINING>>,
    before: CudaRuntime,
    after: CudaRuntime,
    gradients: Seq<Matrix>,
    r: Seq<Matrix>,
)
    requires
        before.wf(),
        before.holds_all(gradients),
        earlier.len() == earlier_ends.len(),
        later.len() == later_ends.len(),
        chain_passed(
            earlier + later,
            earlier_ends + later_ends,
            before,
            after,
            gradients,
            r,
        ),
    ensures
        exists|middle: CudaRuntime, flow: Seq<Matrix>|
            {
                &&& #[trigger] moment(middle, flow)
                &&& chain_passed(later, later_ends, before, middle, gradients, flow)
                &&& chain_passed(earlier, earlier_ends, middle, after, flow, r)
            },
    decreases later.len(),
{
    let steps = earlier + later;
    let ends = earlier_ends + later_ends;
    if later.len() == 0 {
        assert(steps =~= earlier);
        assert(ends =~= earlier_ends);
        assert(moment(before, gradients));
    } else {
        assert(steps.last() == later.last());
        assert(ends.last() == later_ends.last());
        assert(steps.drop_last() =~= earlier + later.drop_last());
        assert(ends.drop_last() =~= earlier_ends + later_ends.drop_last());
        let (first, flow) = choose|middle: CudaRuntime, flow: Seq<Matrix>|
            {
                &&& #[trigger] moment(middle, flow)
                &&& steps.last().passed(ends.last(), before, middle, gradients, flow)
                &&& chain_passed(steps.drop_last(), ends.drop_last(), middle, after, flow, r)
            };
        law_gradients_pass_steps_in_reverse(
            earlier,
            later.drop_last(),
            earlier_ends,
            later_ends.drop_last(),
            first,
            after,
            flow,
            r,
        );
        let (second, rest) = choose|middle: CudaRuntime, rest: Seq<Matrix>|
            {
                &&& #[trigger] moment(middle, rest)
                &&& chain_passed(
                    later.drop_last(),
                    later_ends.drop_last(),
                    first,
                    middle,
                    flow,
                    rest,
                )
                &&& chain_passed(earlier, earlier_ends, middle, after, rest, r)
            };
        assert(moment(first, flow));
        assert(chain_passed(later, later_ends, before, second, gradients, rest));
        assert(moment(second, rest));
    }
}

/// Branches pass gradients back each on its own: the one with a number makes the gradient with
/// that number of the one that came with that number.
pub proof fn law_branches_pass_gradients_each_on_its_own<const TRAINING: bool>(
    branches: Seq<Branch<TRAINING>>,
    ends: Seq<Branch<TRAINING>>,
    before: CudaRuntime,
    after: CudaRuntime,
    gradients: Seq<Matrix>,
    r: Seq<Matrix>,
    k: int,
)
    requires
        branches_passed(branches, ends, before, after, gradients, r),
        0 <= k < branches.len(),
    ensures
        gradients.len() == branches.len(),
        r.len() == branches.len(),
        exists|start: CudaRuntime, end: CudaRuntime| #[trigger]
            chain_passed(
                branches[k].steps@,
                ends[k].steps@,
                start,
                end,
                seq![gradients[k]],
                seq![r[k]],
            ),
    decreases branches.len(),
{
    let middle = choose|middle: CudaRuntime|
        {
            &&& #[trigger] moment(middle, seq![gradients.last()])
            &&& branches_passed(
                branches.drop_last(),
                ends.drop_last(),
                before,
                middle,
                gradients.drop_last(),
                r.drop_last(),
            )
            &&& chain_passed(
                branches.last().steps@,
                ends.last().steps@,
                middle,
                after,
                seq![gradients.last()],
                seq![r.last()],
            )
        };
    if k < branches.len() - 1 {
        law_branches_pass_gradients_each_on_its_own(
            branches.drop_last(),
            ends.drop_last(),
            before,
            middle,
            gradients.drop_last(),
            r.drop_last(),
            k,
        );
    } else {
        assert(chain_passed(
            branches[k].steps@,
            ends[k].steps@,
            middle,
            after,
            seq![gradients[k]],
            seq![r[k]],
        ));
    }
}

/// Steps that have run wait for gradients of the shapes of their outputs, and pass back
/// gradients of the shapes of their inputs.
pub proof fn lemma_chain_awaits<const TRAINING: bool>(
    steps: Seq<Step<TRAINING>>,
    ends: Seq<Step<TRAINING>>,
    before: CudaRuntime,
    after: CudaRuntime,
    inputs: Seq<Matrix>,
    outputs: Seq<Matrix>,
)
    requires
        chain_takes(steps, configs_of(inputs)),
        chain_trains(steps, configs_of(inputs)),
        chain_ran(steps, ends, before, after, inputs, outputs),
    ensures
        configs_of(outputs) == chain_outputs(steps, configs_of(inputs)),
        chain_awaits(ends, configs_of(outputs)),
        chain_returned(ends, configs_of(outputs)) == configs_of(inputs),
    decreases steps,
{
    if steps.len() > 0 {
        let front = steps.drop_last();
        let last = steps.last();
        let front_end = ends.drop_last();
        let end = ends.last();
        let (middle, flow) = choose|middle: CudaRuntime, flow: Seq<Matrix>|
            {
                &&& #[trigger] moment(middle, flow)
                &&& chain_ran(front, front_end, before, middle, inputs, flow)
                &&& last.ran(end, middle, after, flow, outputs)
            };
        lemma_chain_awaits(front, front_end, before, middle, inputs, flow);
        assert(decreases_to!(steps => steps[steps.len() - 1]));
        assert(last.takes_all(configs_of(flow)));
        assert(last.trains_on(configs_of(flow)));
        lemma_step_awaits(last, end, middle, after, flow, outputs);
        assert(end.returned(configs_of(outputs)) == configs_of(flow));
        assert(chain_awaits(front_end, configs_of(flow)));
        assert(chain_returned(front_end, configs_of(flow)) == configs_of(inputs));
    }
}

/// The same for a step.
pub proof fn lemma_step_awaits<const TRAINING: bool>(
    step: Step<TRAINING>,
    end: Step<TRAINING>,
    before: CudaRuntime,
    after: CudaRuntime,
    inputs: Seq<Matrix>,
    outputs: Seq<Matrix>,
)
    requires
        step.takes_all(configs_of(inputs)),
        step.trains_on(configs_of(inputs)),
        step.ran(end, before, after, inputs, outputs),
    ensures
        configs_of(outputs) == step.outputs(configs_of(inputs)),
        end.awaits(configs_of(outputs)),
        end.returned(configs_of(outputs)) == configs_of(inputs),
    decreases step,
{
    match (step, end) {
        (Step::Node(node), Step::Node(last)) => {
            assert(node.takes_all(configs_of(inputs)));
            assert(node.in_order(before));
            assert(node.takes(before, inputs));
            node.lemma_output_configs(last, before, after, inputs, outputs);
            node.lemma_awaits(last, before, after, inputs, outputs);
        },
        (Step::Branches(branches), Step::Branches(ends)) => {
            assert(decreases_to!(step => branches));
            assert(decreases_to!(branches => branches@));
            lemma_branches_await(branches@, ends@, before, after, inputs, outputs);
        },
        _ => {},
    }
}

/// The same for branches.
pub proof fn lemma_branches_await<const TRAINING: bool>(
    branches: Seq<Branch<TRAINING>>,
    ends: Seq<Branch<TRAINING>>,
    before: CudaRuntime,
    after: CudaRuntime,
    inputs: Seq<Matrix>,
    outputs: Seq<Matrix>,
)
    requires
        branches_take(branches, configs_of(inputs)),
        branches_train(branches, configs_of(inputs)),
        branches_ran(branches, ends, before, after, inputs, outputs),
    ensures
        configs_of(outputs) == branches_outputs(branches, configs_of(inputs)),
        branches_await(ends, configs_of(outputs)),
        branches_returned(ends, configs_of(outputs)) == configs_of(inputs),
    decreases branches,
{
    let given = configs_of(inputs);
    let wanted = configs_of(outputs);
    if branches.len() == 0 {
        assert(wanted =~= branches_outputs(branches, given));
        assert(branches_returned(ends, wanted) =~= given);
    } else {
        let front = branches.drop_last();
        let last = branches.last();
        let front_end = ends.drop_last();
        let end = ends.last();
        let ins = inputs.drop_last();
        let outs = outputs.drop_last();
        let middle = choose|middle: CudaRuntime|
            {
                &&& #[trigger] moment(middle, seq![inputs.last()])
                &&& branches_ran(front, front_end, before, middle, ins, outs)
                &&& chain_ran(
                    last.steps@,
                    end.steps@,
                    middle,
                    after,
                    seq![inputs.last()],
                    seq![outputs.last()],
                )
            };
        assert(configs_of(ins) =~= given.drop_last());
        assert(configs_of(outs) =~= wanted.drop_last());
        assert(configs_of(seq![inputs.last()]) =~= seq![given.last()]);
        assert(configs_of(seq![outputs.last()]) =~= seq![wanted.last()]);
        lemma_branches_await(front, front_end, before, middle, ins, outs);
        assert(decreases_to!(branches => branches[branches.len() - 1]));
        assert(decreases_to!(last => last.steps));
        assert(decreases_to!(last.steps => last.steps@));
        assert(chain_trains(last.steps@, seq![given.last()]));
        lemma_chain_awaits(
            last.steps@,
            end.steps@,
            middle,
            after,
            seq![inputs.last()],
            seq![outputs.last()],
        );
        assert(chain_outputs(last.steps@, seq![given.last()])[0] == wanted.last());
        assert(chain_returned(end.steps@, seq![wanted.last()])[0] == given.last());
        assert(branches_outputs(front, given.drop_last()) == wanted.drop_last());
        assert(wanted =~= branches_outputs(branches, given));
        assert(branches_returned(front_end, wanted.drop_last()) == given.drop_last());
        assert(branches_returned(ends, wanted) =~= given);
    }
}

/// Passes gradients back through steps, from the last to the first.
pub fn back_chain<const TRAINING: bool>(
    steps: Vec<Step<TRAINING>>,
    gradients: Vec<Matrix>,
    runtime: &mut CudaRuntime,
) -> (r: (Vec<Step<TRAINING>>, Vec<Matrix>))
    requires
        old(runtime).wf(),
        chain_in_order(steps@, *old(runtime)),
        old(runtime).holds_all(gradients@),
        chain_footprint(steps@).disjoint(ids(gradients@)),
        chain_awaits(steps@, configs_of(gradients@)),
    ensures
        chain_in_order(r.0@, *final(runtime)),
        chain_ready(r.0@),
        final(runtime).holds_all(r.1@),
        chain_footprint(r.0@).disjoint(ids(r.1@)),
        final(runtime).replaced(
            *old(runtime),
            chain_footprint(steps@).union(ids(gradients@)),
            chain_footprint(r.0@).union(ids(r.1@)),
        ),
        configs_of(r.1@) == chain_returned(steps@, configs_of(gradients@)),
        chain_passed(steps@, r.0@, *old(runtime), *final(runtime), gradients@, r.1@),
    decreases steps@, 0nat,
{
    let ghost before = *runtime;
    let ghost all = steps@;
    let ghost given = gradients@;
    let mut steps = steps;
    let last = match steps.pop() {
        Some(last) => last,
        None => {
            proof {
                lemma_inputs_live(given, before);
                assert(chain_footprint(all).union(ids(given)) =~= ids(given));
                before.lemma_replaced_nothing(ids(given));
                assert(steps@ =~= all);
            }
            return (steps, gradients);
        },
    };
    let ghost front = steps@;
    let ghost step = last;
    proof {
        assert(front =~= all.drop_last());
        assert(step == all.last());
        assert(chain_footprint(all) =~= chain_footprint(front).union(step.footprint()));
        lemma_inputs_live(given, before);
        before.lemma_replaced_nothing(Set::empty());
        lemma_step_spared(step, before, before, Set::empty(), Set::empty());
        lemma_chain_spared(front, before, before, Set::empty(), Set::empty());
        assert(decreases_to!(all => front));
        assert(decreases_to!(all => all[all.len() - 1]));
        assert(step.awaits(configs_of(given)));
        assert(chain_awaits(front, step.returned(configs_of(given))));
    }
    let (last, flow) = match last {
        Step::Node(node) => {
            let mut node = node;
            let ghost start = node;
            let flow = TrainingNode::backward(&mut node, gradients, runtime);
            proof {
                start.lemma_returned_configs(node, before, *runtime, given, flow@);
                assert(step.returned(configs_of(given)) == configs_of(flow@));
                let end = Step::<TRAINING>::Node(node);
                assert(end.in_order(*runtime));
                assert(end.has_gradients());
                assert(step.passed(end, before, *runtime, given, flow@));
            }
            (Step::Node(node), flow)
        },
        Step::Branches(branches) => {
            proof {
                assert(decreases_to!(step => branches));
                assert(decreases_to!(branches => branches@));
            }
            let (branches, flow) = back_branches(branches, gradients, runtime);
            proof {
                assert(step.returned(configs_of(given)) == configs_of(flow@));
                let end = Step::<TRAINING>::Branches(branches);
                assert(end.in_order(*runtime));
                assert(end.has_gradients());
                assert(step.passed(end, before, *runtime, given, flow@));
            }
            (Step::Branches(branches), flow)
        },
    };
    let ghost s1 = *runtime;
    let ghost end = last;
    let ghost mids = flow@;
    let ghost taken1 = step.footprint().union(ids(given));
    let ghost made1 = end.footprint().union(ids(mids));
    proof {
        assert(taken1.disjoint(chain_footprint(front)));
        lemma_chain_spared(front, before, s1, taken1, made1);
        lemma_inputs_live(mids, s1);
        s1.lemma_replaced_nothing(Set::empty());
        lemma_step_spared(end, s1, s1, Set::empty(), Set::empty());
    }
    let (mut done, passed) = back_chain(steps, flow, runtime);
    let ghost front_end = done@;
    done.push(last);
    proof {
        let s2 = *runtime;
        let taken2 = chain_footprint(front).union(ids(mids));
        let made2 = chain_footprint(front_end).union(ids(passed@));
        assert(front_end.len() == front.len());
        assert(done@.drop_last() =~= front_end);
        assert(done@.last() == end);
        assert(taken2.disjoint(end.footprint()));
        lemma_step_spared(end, s1, s2, taken2, made2);
        assert(step.passed(end, before, s1, given, mids));
        assert(chain_passed(all.drop_last(), done@.drop_last(), s1, s2, mids, passed@));
        assert(moment(s1, mids));
        assert(chain_passed(all, done@, before, s2, given, passed@));
        assert(chain_footprint(done@) =~= chain_footprint(front_end).union(end.footprint()));
        lemma_two_returns(
            before,
            s1,
            s2,
            chain_footprint(front),
            chain_footprint(front_end),
            step.footprint(),
            end.footprint(),
            ids(given),
            ids(mids),
            ids(passed@),
        );
    }
    (done, passed)
}

/// Passes one gradient back through each branch.
pub fn back_branches<const TRAINING: bool>(
    branches: Vec<Branch<TRAINING>>,
    gradients: Vec<Matrix>,
    runtime: &mut CudaRuntime,
) -> (r: (Vec<Branch<TRAINING>>, Vec<Matrix>))
    requires
        old(runtime).wf(),
        branches_in_order(branches@, *old(runtime)),
        old(runtime).holds_all(gradients@),
        branches_footprint(branches@).disjoint(ids(gradients@)),
        branches_await(branches@, configs_of(gradients@)),
    ensures
        branches_in_order(r.0@, *final(runtime)),
        branches_ready(r.0@),
        final(runtime).holds_all(r.1@),
        branches_footprint(r.0@).disjoint(ids(r.1@)),
        final(runtime).replaced(
            *old(runtime),
            branches_footprint(branches@).union(ids(gradients@)),
            branches_footprint(r.0@).union(ids(r.1@)),
        ),
        configs_of(r.1@) == branches_returned(branches@, configs_of(gradients@)),
        branches_passed(branches@, r.0@, *old(runtime), *final(runtime), gradients@, r.1@),
    decreases branches@, 0nat,
{
    let ghost before = *runtime;
    let ghost all = branches@;
    let ghost given = gradients@;
    let mut branches = branches;
    let mut gradients = gradients;
    let branch = match branches.pop() {
        Some(branch) => branch,
        None => {
            proof {
                assert(branches_footprint(all).union(ids(given)) =~= Set::empty());
                before.lemma_replaced_nothing(Set::empty());
                assert(branches@ =~= all);
                assert(configs_of(given) =~= branches_returned(all, configs_of(given)));
            }
            return (branches, gradients);
        },
    };
    let gradient = gradients.pop().unwrap();
    let ghost front = branches@;
    let ghost rest = gradients@;
    let ghost last = branch;
    let ghost f0 = chain_footprint(last.steps@);
    proof {
        assert(front =~= all.drop_last());
        assert(last == all.last());
        assert(rest =~= given.drop_last());
        assert(gradient == given.last());
        assert(configs_of(rest) =~= configs_of(given).drop_last());
        assert(configs_of(seq![gradient]) =~= seq![configs_of(given).last()]);
        lemma_last_input(given, before);
        assert(branches_footprint(all) =~= branches_footprint(front).union(f0));
        assert(ids(rest).subset_of(ids(given)) && ids(given).contains(gradient.buffer.id));
        assert(branches_footprint(front).disjoint(ids(rest)));
        assert(f0.disjoint(ids(rest)));
        assert(branches_await(front, configs_of(rest)));
        assert(chain_awaits(last.steps@, configs_of(seq![gradient])));
        before.lemma_replaced_nothing(Set::empty());
        lemma_chain_spared(last.steps@, before, before, Set::empty(), Set::empty());
        lemma_branches_spared(front, before, before, Set::empty(), Set::empty());
        assert(decreases_to!(all => front));
        assert(decreases_to!(all => all[all.len() - 1]));
        assert(decreases_to!(last => last.steps));
        assert(decreases_to!(last.steps => last.steps@));
    }
    let (mut done, mut passed) = back_branches(branches, gradients, runtime);
    let ghost s1 = *runtime;
    let ghost front_end = done@;
    let ghost outs = passed@;
    let ghost taken1 = branches_footprint(front).union(ids(rest));
    let ghost made1 = branches_footprint(front_end).union(ids(outs));
    proof {
        assert(taken1.disjoint(f0));
        lemma_chain_spared(last.steps@, before, s1, taken1, made1);
        assert(!taken1.contains(gradient.buffer.id));
        lemma_matrix_spared(gradient, before, s1, taken1, made1);
        lemma_one_held(gradient, s1);
    }
    let Branch { input_config, output_config, loss, learning_rate, steps, training } = branch;
    let (steps, made) = back_chain(steps, single(gradient), runtime);
    let ghost f1 = chain_footprint(steps@);
    proof {
        assert(configs_of(made@).len() == 1);
    }
    let back = take_single(made);
    let branch = Branch { input_config, output_config, loss, learning_rate, steps, training };
    let ghost end = branch;
    done.push(branch);
    passed.push(back);
    proof {
        let s2 = *runtime;
        let taken2 = f0.union(ids(seq![gradient]));
        let made2 = f1.union(ids(seq![back]));
        lemma_one(gradient);
        lemma_one(back);
        assert(done@.drop_last() =~= front_end);
        assert(done@.last() == end);
        assert(passed@.drop_last() =~= outs);
        assert(passed@.last() == back);
        assert(taken2.disjoint(branches_footprint(front_end)));
        assert(taken2.disjoint(ids(outs)));
        lemma_branches_spared(front_end, s1, s2, taken2, made2);
        assert(front_end.len() == front.len() && outs.len() == front.len());
        assert(same_branch(last, end));
        assert(chain_passed(last.steps@, end.steps@, s1, s2, seq![gradient], seq![back]));
        assert(branches_passed(
            all.drop_last(),
            done@.drop_last(),
            before,
            s1,
            given.drop_last(),
            passed@.drop_last(),
        ));
        assert(moment(s1, seq![given.last()]));
        assert(branches_passed(all, done@, before, s2, given, passed@));
        lemma_one_more(outs, back, s1, s2, taken2, made2);
        assert(branches_footprint(done@) =~= branches_footprint(front_end).union(f1));
        assert(configs_of(passed@) =~= configs_of(outs).push(configs_of(seq![back])[0]));
        lemma_side_by_side(
            before,
            s1,
            s2,
            branches_footprint(front),
            branches_footprint(front_end),
            f0,
            f1,
            ids(rest),
            ids(outs),
            ids(seq![gradient]),
            ids(seq![back]),
        );
        assert(ids(given) =~= ids(rest).union(ids(seq![gradient])));
        assert(ids(passed@) =~= ids(outs).union(ids(seq![back])));
    }
    (done, passed)
}

/// One backward pass and then another on what it gave.
proof fn lemma_two_returns(
    before: CudaRuntime,
    middle: CudaRuntime,
    after: CudaRuntime,
    front: Set<usize>,
    front_end: Set<usize>,
    last: Set<usize>,
    last_end: Set<usize>,
    gradients: Set<usize>,
    flow: Set<usize>,
    r: Set<usize>,
)
    requires
        before.wf(),
        front.union(last).union(gradients).subset_of(before.live@),
        middle.replaced(before, last.union(gradients), last_end.union(flow)),
        after.replaced(middle, front.union(flow), front_end.union(r)),
        front.disjoint(last) && front.disjoint(gradients),
        front.disjoint(last_end) && front.disjoint(flow),
        last_end.disjoint(flow),
    ensures
        after.replaced(
            before,
            front.union(last).union(gradients),
            front_end.union(last_end).union(r),
        ),
{
    let taken = front.union(last).union(gradients);
    let part1 = last.union(gradients);
    let made1 = last_end.union(flow);
    before.lemma_replaced_nothing(taken);
    assert(part1.subset_of(taken));
    middle.lemma_replaced_again(before, before, taken, taken, part1, made1);
    let held = taken.difference(part1).union(made1);
    assert(held =~= front.union(last_end).union(flow));
    let part2 = front.union(flow);
    assert(part2.subset_of(held));
    after.lemma_replaced_again(middle, before, taken, held, part2, front_end.union(r));
    assert(held.difference(part2).union(front_end.union(r)) =~= front_end.union(last_end).union(r));
}

} // verus!
