//! What training leaves as it is.

use vstd::prelude::*;

use super::backward::{branches_passed, branches_train, chain_passed, chain_trains};
use super::clear::{branches_forgot, chain_forgot};
use super::forward::{branches_ran, chain_ran};
use super::learn::{branches_improved, chain_improved};
use super::{
    branches_outputs, branches_take, chain_outputs, chain_takes, moment, same_branch,
};
use crate::cuda::container::Matrix;
use crate::cuda::runtime::CudaRuntime;
use crate::graph::compile::{Branch, Step};
use crate::graph::config::{LearnConfig, MatrixConfig};
use crate::graph::graph_node::any::configs_of;
use crate::graph::graph_node::{GraphNode, TrainingNode};
use crate::graph::node::Node;

verus! {

impl Node {
    /// The same block at another moment.
    pub open spec fn alike(self, end: Self) -> bool {
        match (self, end) {
            (Node::TrainingLinear(node), Node::TrainingLinear(last)) => last.linear == node.linear,
            (Node::TrainingConcat(node), Node::TrainingConcat(last)) => last.node == node.node,
            (Node::TrainingCopy(node), Node::TrainingCopy(last)) => last.node == node.node,
            _ => end == self,
        }
    }

    /// No forward pass waits for its gradients.
    pub open spec fn rested(self) -> bool {
        match self {
            Node::TrainingCopy(node) => !node.forward_pending,
            _ => true,
        }
    }

    /// A block at rest takes what it took before.
    pub proof fn lemma_alike(self, end: Self, inputs: Seq<MatrixConfig>)
        requires
            self.alike(end),
        ensures
            end.outputs(inputs) == self.outputs(inputs),
            end.trains_on(inputs) == self.trains_on(inputs),
            self.takes_all(inputs) && end.rested() ==> end.takes_all(inputs),
    {
        if self.takes_all(inputs) && end.rested() {
            assert forall|runtime: CudaRuntime, ms: Seq<Matrix>|
                #![trigger end.takes(runtime, ms)]
                runtime.holds_all(ms) && configs_of(ms) == inputs implies end.takes(runtime, ms) by {
                assert(self.takes(runtime, ms));
            }
        }
    }
}

impl<const TRAINING: bool> Step<TRAINING> {
    /// The same step at another moment.
    pub open spec fn alike(self, end: Self) -> bool
        decreases self,
    {
        match (self, end) {
            (Step::Node(node), Step::Node(last)) => node.alike(last),
            (Step::Branches(branches), Step::Branches(ends)) => branches_alike(branches@, ends@),
            _ => false,
        }
    }

    /// No forward pass waits for its gradients.
    pub open spec fn rested(self) -> bool
        decreases self,
    {
        match self {
            Step::Node(node) => node.rested(),
            Step::Branches(branches) => branches_rested(branches@),
        }
    }
}

/// The same steps at another moment.
pub open spec fn chain_alike<const TRAINING: bool>(
    steps: Seq<Step<TRAINING>>,
    ends: Seq<Step<TRAINING>>,
) -> bool
    decreases steps,
{
    &&& ends.len() == steps.len()
    &&& steps.len() > 0 ==> chain_alike(steps.drop_last(), ends.drop_last())
        && steps.last().alike(ends.last())
}

/// The same branches at another moment.
pub open spec fn branches_alike<const TRAINING: bool>(
    branches: Seq<Branch<TRAINING>>,
    ends: Seq<Branch<TRAINING>>,
) -> bool
    decreases branches,
{
    &&& ends.len() == branches.len()
    &&& branches.len() > 0 ==> {
        &&& branches_alike(branches.drop_last(), ends.drop_last())
        &&& same_branch(branches.last(), ends.last())
        &&& chain_alike(branches.last().steps@, ends.last().steps@)
    }
}

/// No forward pass through steps waits for its gradients.
pub open spec fn chain_rested<const TRAINING: bool>(steps: Seq<Step<TRAINING>>) -> bool
    decreases steps,
{
    steps.len() > 0 ==> chain_rested(steps.drop_last()) && steps.last().rested()
}

/// The same for branches.
pub open spec fn branches_rested<const TRAINING: bool>(branches: Seq<Branch<TRAINING>>) -> bool
    decreases branches,
{
    branches.len() > 0 ==> branches_rested(branches.drop_last()) && chain_rested(
        branches.last().steps@,
    )
}

/// Steps at rest take what they took before, and always give the same shapes.
pub proof fn law_shapes_last<const TRAINING: bool>(
    steps: Seq<Step<TRAINING>>,
    ends: Seq<Step<TRAINING>>,
    inputs: Seq<MatrixConfig>,
)
    requires
        chain_alike(steps, ends),
    ensures
        chain_outputs(ends, inputs) == chain_outputs(steps, inputs),
        chain_trains(ends, inputs) == chain_trains(steps, inputs),
        chain_takes(steps, inputs) && chain_rested(ends) ==> chain_takes(ends, inputs),
    decreases steps,
{
    if steps.len() > 0 {
        let front = steps.drop_last();
        let given = chain_outputs(front, inputs);
        law_shapes_last(front, ends.drop_last(), inputs);
        assert(decreases_to!(steps => steps[steps.len() - 1]));
        lemma_step_shapes_last(steps.last(), ends.last(), given);
        if chain_takes(steps, inputs) && chain_rested(ends) {
            assert(steps.last().takes_all(given));
            assert(ends.last().rested());
        }
    }
}

/// The same for a step.
proof fn lemma_step_shapes_last<const TRAINING: bool>(
    step: Step<TRAINING>,
    end: Step<TRAINING>,
    inputs: Seq<MatrixConfig>,
)
    requires
        step.alike(end),
    ensures
        end.outputs(inputs) == step.outputs(inputs),
        end.trains_on(inputs) == step.trains_on(inputs),
        step.takes_all(inputs) && end.rested() ==> end.takes_all(inputs),
    decreases step,
{
    match (step, end) {
        (Step::Node(node), Step::Node(last)) => {
            node.lemma_alike(last, inputs);
        },
        (Step::Branches(branches), Step::Branches(ends)) => {
            assert(decreases_to!(step => branches));
            assert(decreases_to!(branches => branches@));
            lemma_branches_shapes_last(branches@, ends@, inputs);
        },
        _ => {},
    }
}

/// The same for branches.
proof fn lemma_branches_shapes_last<const TRAINING: bool>(
    branches: Seq<Branch<TRAINING>>,
    ends: Seq<Branch<TRAINING>>,
    inputs: Seq<MatrixConfig>,
)
    requires
        branches_alike(branches, ends),
    ensures
        branches_outputs(ends, inputs) == branches_outputs(branches, inputs),
        branches_train(ends, inputs) == branches_train(branches, inputs),
        branches_take(branches, inputs) && branches_rested(ends) ==> branches_take(ends, inputs),
    decreases branches,
{
    if branches.len() > 0 {
        let last = branches.last();
        lemma_branches_shapes_last(branches.drop_last(), ends.drop_last(), inputs.drop_last());
        assert(decreases_to!(branches => branches[branches.len() - 1]));
        assert(decreases_to!(last => last.steps));
        assert(decreases_to!(last.steps => last.steps@));
        law_shapes_last(last.steps@, ends.last().steps@, seq![inputs.last()]);
    }
}

/// What is the same at a second moment and again at a third is the same at the third.
pub proof fn lemma_chain_alike_again<const TRAINING: bool>(
    steps: Seq<Step<TRAINING>>,
    middle: Seq<Step<TRAINING>>,
    ends: Seq<Step<TRAINING>>,
)
    requires
        chain_alike(steps, middle),
        chain_alike(middle, ends),
    ensures
        chain_alike(steps, ends),
    decreases steps,
{
    if steps.len() > 0 {
        lemma_chain_alike_again(steps.drop_last(), middle.drop_last(), ends.drop_last());
        assert(decreases_to!(steps => steps[steps.len() - 1]));
        lemma_step_alike_again(steps.last(), middle.last(), ends.last());
    }
}

/// The same for a step.
proof fn lemma_step_alike_again<const TRAINING: bool>(
    step: Step<TRAINING>,
    middle: Step<TRAINING>,
    end: Step<TRAINING>,
)
    requires
        step.alike(middle),
        middle.alike(end),
    ensures
        step.alike(end),
    decreases step,
{
    match (step, middle, end) {
        (Step::Branches(branches), Step::Branches(between), Step::Branches(ends)) => {
            assert(decreases_to!(step => branches));
            assert(decreases_to!(branches => branches@));
            lemma_branches_alike_again(branches@, between@, ends@);
        },
        _ => {},
    }
}

/// The same for branches.
proof fn lemma_branches_alike_again<const TRAINING: bool>(
    branches: Seq<Branch<TRAINING>>,
    middle: Seq<Branch<TRAINING>>,
    ends: Seq<Branch<TRAINING>>,
)
    requires
        branches_alike(branches, middle),
        branches_alike(middle, ends),
    ensures
        branches_alike(branches, ends),
    decreases branches,
{
    if branches.len() > 0 {
        let last = branches.last();
        lemma_branches_alike_again(branches.drop_last(), middle.drop_last(), ends.drop_last());
        assert(decreases_to!(branches => branches[branches.len() - 1]));
        assert(decreases_to!(last => last.steps));
        assert(decreases_to!(last.steps => last.steps@));
        lemma_chain_alike_again(last.steps@, middle.last().steps@, ends.last().steps@);
    }
}

/// A forward pass leaves the blocks what they are.
pub proof fn lemma_chain_ran_alike<const TRAINING: bool>(
    steps: Seq<Step<TRAINING>>,
    ends: Seq<Step<TRAINING>>,
    before: CudaRuntime,
    after: CudaRuntime,
    inputs: Seq<Matrix>,
    outputs: Seq<Matrix>,
)
    requires
        chain_ran(steps, ends, before, after, inputs, outputs),
    ensures
        chain_alike(steps, ends),
    decreases steps,
{
    if steps.len() > 0 {
        let front = steps.drop_last();
        let last = steps.last();
        let front_end = ends.drop_last();
        let end = ends.last();
        let (middle, flow) = choose|middle: CudaRuntime, flow: Seq<Matrix>|
            {
                &&& #[trigger] moment(middle, flow)
                &&& chain_ran(front, front_end, before, middle, inputs, flow)
                &&& last.ran(end, middle, after, flow, outputs)
            };
        lemma_chain_ran_alike(front, front_end, before, middle, inputs, flow);
        assert(decreases_to!(steps => steps[steps.len() - 1]));
        lemma_step_ran_alike(last, end, middle, after, flow, outputs);
    }
}

/// The same for a step.
proof fn lemma_step_ran_alike<const TRAINING: bool>(
    step: Step<TRAINING>,
    end: Step<TRAINING>,
    before: CudaRuntime,
    after: CudaRuntime,
    inputs: Seq<Matrix>,
    outputs: Seq<Matrix>,
)
    requires
        step.ran(end, before, after, inputs, outputs),
    ensures
        step.alike(end),
    decreases step,
{
    match (step, end) {
        (Step::Node(node), Step::Node(last)) => {
            assert(node.gives(last, before, after, inputs, outputs));
            assert(node.alike(last));
        },
        (Step::Branches(branches), Step::Branches(ends)) => {
            assert(decreases_to!(step => branches));
            assert(decreases_to!(branches => branches@));
            lemma_branches_ran_alike(branches@, ends@, before, after, inputs, outputs);
        },
        _ => {},
    }
}

/// The same for branches.
proof fn lemma_branches_ran_alike<const TRAINING: bool>(
    branches: Seq<Branch<TRAINING>>,
    ends: Seq<Branch<TRAINING>>,
    before: CudaRuntime,
    after: CudaRuntime,
    inputs: Seq<Matrix>,
    outputs: Seq<Matrix>,
)
    requires
        branches_ran(branches, ends, before, after, inputs, outputs),
    ensures
        branches_alike(branches, ends),
    decreases branches,
{
    if branches.len() > 0 {
        let front = branches.drop_last();
        let last = branches.last();
        let front_end = ends.drop_last();
        let end = ends.last();
        let middle = choose|middle: CudaRuntime|
            {
                &&& #[trigger] moment(middle, seq![inputs.last()])
                &&& branches_ran(
                    front,
                    front_end,
                    before,
                    middle,
                    inputs.drop_last(),
                    outputs.drop_last(),
                )
                &&& chain_ran(
                    last.steps@,
                    end.steps@,
                    middle,
                    after,
                    seq![inputs.last()],
                    seq![outputs.last()],
                )
            };
        lemma_branches_ran_alike(
            front,
            front_end,
            before,
            middle,
            inputs.drop_last(),
            outputs.drop_last(),
        );
        assert(decreases_to!(branches => branches[branches.len() - 1]));
        assert(decreases_to!(last => last.steps));
        assert(decreases_to!(last.steps => last.steps@));
        lemma_chain_ran_alike(
            last.steps@,
            end.steps@,
            middle,
            after,
            seq![inputs.last()],
            seq![outputs.last()],
        );
    }
}

/// A backward pass leaves the blocks what they are, and at rest.
pub proof fn lemma_chain_passed_alike<const TRAINING: bool>(
    steps: Seq<Step<TRAINING>>,
    ends: Seq<Step<TRAINING>>,
    before: CudaRuntime,
    after: CudaRuntime,
    gradients: Seq<Matrix>,
    r: Seq<Matrix>,
)
    requires
        chain_passed(steps, ends, before, after, gradients, r),
    ensures
        chain_alike(steps, ends),
        chain_rested(ends),
    decreases steps,
{
    if steps.len() > 0 {
        let front = steps.drop_last();
        let last = steps.last();
        let front_end = ends.drop_last();
        let end = ends.last();
        let (middle, flow) = choose|middle: CudaRuntime, flow: Seq<Matrix>|
            {
                &&& #[trigger] moment(middle, flow)
                &&& last.passed(end, before, middle, gradients, flow)
                &&& chain_passed(front, front_end, middle, after, flow, r)
            };
        lemma_chain_passed_alike(front, front_end, middle, after, flow, r);
        assert(decreases_to!(steps => steps[steps.len() - 1]));
        lemma_step_passed_alike(last, end, before, middle, gradients, flow);
    }
}

/// The same for a step.
proof fn lemma_step_passed_alike<const TRAINING: bool>(
    step: Step<TRAINING>,
    end: Step<TRAINING>,
    before: CudaRuntime,
    after: CudaRuntime,
    gradients: Seq<Matrix>,
    r: Seq<Matrix>,
)
    requires
        step.passed(end, before, after, gradients, r),
    ensures
        step.alike(end),
        end.rested(),
    decreases step,
{
    match (step, end) {
        (Step::Node(node), Step::Node(last)) => {
            assert(node.passes_back(last, before, after, gradients, r));
            assert(node.alike(last));
        },
        (Step::Branches(branches), Step::Branches(ends)) => {
            assert(decreases_to!(step => branches));
            assert(decreases_to!(branches => branches@));
            lemma_branches_passed_alike(branches@, ends@, before, after, gradients, r);
        },
        _ => {},
    }
}

/// The same for branches.
proof fn lemma_branches_passed_alike<const TRAINING: bool>(
    branches: Seq<Branch<TRAINING>>,
    ends: Seq<Branch<TRAINING>>,
    before: CudaRuntime,
    after: CudaRuntime,
    gradients: Seq<Matrix>,
    r: Seq<Matrix>,
)
    requires
        branches_passed(branches, ends, before, after, gradients, r),
    ensures
        branches_alike(branches, ends),
        branches_rested(ends),
    decreases branches,
{
    if branches.len() > 0 {
        let front = branches.drop_last();
        let last = branches.last();
        let front_end = ends.drop_last();
        let end = ends.last();
        let middle = choose|middle: CudaRuntime|
            {
                &&& #[trigger] moment(middle, seq![gradients.last()])
                &&& branches_passed(
                    front,
                    front_end,
                    before,
                    middle,
                    gradients.drop_last(),
                    r.drop_last(),
                )
                &&& chain_passed(
                    last.steps@,
                    end.steps@,
                    middle,
                    after,
                    seq![gradients.last()],
                    seq![r.last()],
                )
            };
        lemma_branches_passed_alike(
            front,
            front_end,
            before,
            middle,
            gradients.drop_last(),
            r.drop_last(),
        );
        assert(decreases_to!(branches => branches[branches.len() - 1]));
        assert(decreases_to!(last => last.steps));
        assert(decreases_to!(last.steps => last.steps@));
        lemma_chain_passed_alike(
            last.steps@,
            end.steps@,
            middle,
            after,
            seq![gradients.last()],
            seq![r.last()],
        );
    }
}

/// An optimizer step leaves the blocks what they are; those at rest stay so.
pub proof fn lemma_chain_improved_alike<const TRAINING: bool>(
    steps: Seq<Step<TRAINING>>,
    ends: Seq<Step<TRAINING>>,
    before: CudaRuntime,
    after: CudaRuntime,
    config: LearnConfig,
)
    requires
        chain_improved(steps, ends, before, after, config),
    ensures
        chain_alike(steps, ends),
        chain_rested(steps) ==> chain_rested(ends),
    decreases steps,
{
    if steps.len() > 0 {
        let front = steps.drop_last();
        let last = steps.last();
        let front_end = ends.drop_last();
        let end = ends.last();
        let middle = choose|middle: CudaRuntime|
            {
                &&& #[trigger] moment(middle, Seq::empty())
                &&& chain_improved(front, front_end, before, middle, config)
                &&& last.improved(end, middle, after, config)
            };
        lemma_chain_improved_alike(front, front_end, before, middle, config);
        assert(decreases_to!(steps => steps[steps.len() - 1]));
        lemma_step_improved_alike(last, end, middle, after, config);
    }
}

/// The same for a step.
proof fn lemma_step_improved_alike<const TRAINING: bool>(
    step: Step<TRAINING>,
    end: Step<TRAINING>,
    before: CudaRuntime,
    after: CudaRuntime,
    config: LearnConfig,
)
    requires
        step.improved(end, before, after, config),
    ensures
        step.alike(end),
        step.rested() ==> end.rested(),
    decreases step,
{
    match (step, end) {
        (Step::Node(node), Step::Node(last)) => {
            assert(node.improves(last, before, after, config));
            assert(node.alike(last));
        },
        (Step::Branches(branches), Step::Branches(ends)) => {
            assert(decreases_to!(step => branches));
            assert(decreases_to!(branches => branches@));
            lemma_branches_improved_alike(branches@, ends@, before, after, config);
        },
        _ => {},
    }
}

/// The same for branches.
proof fn lemma_branches_improved_alike<const TRAINING: bool>(
    branches: Seq<Branch<TRAINING>>,
    ends: Seq<Branch<TRAINING>>,
    before: CudaRuntime,
    after: CudaRuntime,
    config: LearnConfig,
)
    requires
        branches_improved(branches, ends, before, after, config),
    ensures
        branches_alike(branches, ends),
        branches_rested(branches) ==> branches_rested(ends),
    decreases branches,
{
    if branches.len() > 0 {
        let front = branches.drop_last();
        let last = branches.last();
        let front_end = ends.drop_last();
        let end = ends.last();
        let middle = choose|middle: CudaRuntime|
            {
                &&& #[trigger] moment(middle, Seq::empty())
                &&& branches_improved(front, front_end, before, middle, config)
                &&& chain_improved(last.steps@, end.steps@, middle, after, config)
            };
        lemma_branches_improved_alike(front, front_end, before, middle, config);
        assert(decreases_to!(branches => branches[branches.len() - 1]));
        assert(decreases_to!(last => last.steps));
        assert(decreases_to!(last.steps => last.steps@));
        lemma_chain_improved_alike(last.steps@, end.steps@, middle, after, config);
    }
}

/// Forgetting leaves the blocks what they are, and at rest.
pub proof fn lemma_chain_forgot_alike<const TRAINING: bool>(
    steps: Seq<Step<TRAINING>>,
    ends: Seq<Step<TRAINING>>,
    before: CudaRuntime,
    after: CudaRuntime,
)
    requires
        chain_forgot(steps, ends, before, after),
    ensures
        chain_alike(steps, ends),
        chain_rested(ends),
    decreases steps,
{
    if steps.len() > 0 {
        let front = steps.drop_last();
        let last = steps.last();
        let front_end = ends.drop_last();
        let end = ends.last();
        let middle = choose|middle: CudaRuntime|
            {
                &&& #[trigger] moment(middle, Seq::empty())
                &&& chain_forgot(front, front_end, before, middle)
                &&& last.forgot(end, middle, after)
            };
        lemma_chain_forgot_alike(front, front_end, before, middle);
        assert(decreases_to!(steps => steps[steps.len() - 1]));
        lemma_step_forgot_alike(last, end, middle, after);
    }
}

/// The same for a step.
proof fn lemma_step_forgot_alike<const TRAINING: bool>(
    step: Step<TRAINING>,
    end: Step<TRAINING>,
    before: CudaRuntime,
    after: CudaRuntime,
)
    requires
        step.forgot(end, before, after),
    ensures
        step.alike(end),
        end.rested(),
    decreases step,
{
    match (step, end) {
        (Step::Node(node), Step::Node(last)) => {
            assert(node.forgets(last, before, after));
            assert(node.alike(last));
        },
        (Step::Branches(branches), Step::Branches(ends)) => {
            assert(decreases_to!(step => branches));
            assert(decreases_to!(branches => branches@));
            lemma_branches_forgot_alike(branches@, ends@, before, after);
        },
        _ => {},
    }
}

/// The same for branches.
proof fn lemma_branches_forgot_alike<const TRAINING: bool>(
    branches: Seq<Branch<TRAINING>>,
    ends: Seq<Branch<TRAINING>>,
    before: CudaRuntime,
    after: CudaRuntime,
)
    requires
        branches_forgot(branches, ends, before, after),
    ensures
        branches_alike(branches, ends),
        branches_rested(ends),
    decreases branches,
{
    if branches.len() > 0 {
        let front = branches.drop_last();
        let last = branches.last();
        let front_end = ends.drop_last();
        let end = ends.last();
        let middle = choose|middle: CudaRuntime|
            {
                &&& #[trigger] moment(middle, Seq::empty())
                &&& branches_forgot(front, front_end, before, middle)
                &&& chain_forgot(last.steps@, end.steps@, middle, after)
            };
        lemma_branches_forgot_alike(front, front_end, before, middle);
        assert(decreases_to!(branches => branches[branches.len() - 1]));
        assert(decreases_to!(last => last.steps));
        assert(decreases_to!(last.steps => last.steps@));
        lemma_chain_forgot_alike(last.steps@, end.steps@, middle, after);
    }
}

} // verus!
