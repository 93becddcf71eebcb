//! Running the steps of a graph one after the other.

pub mod alike;
pub mod backward;
pub mod clear;
pub mod data;
pub mod forward;
pub mod fresh;
pub mod image;
pub mod learn;

use vstd::prelude::*;

use crate::cuda::container::Matrix;
use crate::cuda::runtime::CudaRuntime;
use crate::graph::compile::{Branch, Step};
use crate::graph::config::MatrixConfig;
use crate::graph::graph_node::GraphNode;

verus! {

broadcast use crate::cuda::runtime::group_streams;

impl<const TRAINING: bool> Step<TRAINING> {
    /// The buffers that the step owns.
    pub open spec fn footprint(self) -> Set<usize>
        decreases self,
    {
        match self {
            Step::Node(node) => node.footprint(),
            Step::Branches(branches) => branches_footprint(branches@),
        }
    }

    /// The invariant.
    pub open spec fn in_order(self, runtime: CudaRuntime) -> bool
        decreases self,
    {
        match self {
            Step::Node(node) => node.in_order(runtime),
            Step::Branches(branches) => branches_in_order(branches@, runtime),
        }
    }

    /// The step takes all inputs of these shapes.
    pub open spec fn takes_all(self, inputs: Seq<MatrixConfig>) -> bool
        decreases self,
    {
        match self {
            Step::Node(node) => node.takes_all(inputs),
            Step::Branches(branches) => branches_take(branches@, inputs),
        }
    }

    /// The shapes of the step's outputs.
    pub open spec fn outputs(self, inputs: Seq<MatrixConfig>) -> Seq<MatrixConfig>
        decreases self,
    {
        match self {
            Step::Node(node) => node.outputs(inputs),
            Step::Branches(branches) => branches_outputs(branches@, inputs),
        }
    }
}

/// The buffers that steps own.
pub open spec fn chain_footprint<const TRAINING: bool>(steps: Seq<Step<TRAINING>>) -> Set<usize>
    decreases steps,
{
    if steps.len() == 0 {
        Set::empty()
    } else {
        chain_footprint(steps.drop_last()).union(steps.last().footprint())
    }
}

/// The buffers that branches own.
pub open spec fn branches_footprint<const TRAINING: bool>(branches: Seq<Branch<TRAINING>>) -> Set<
    usize,
>
    decreases branches,
{
    if branches.len() == 0 {
        Set::empty()
    } else {
        branches_footprint(branches.drop_last()).union(chain_footprint(branches.last().steps@))
    }
}

/// Every step is in order, and no two share a buffer.
pub open spec fn chain_in_order<const TRAINING: bool>(
    steps: Seq<Step<TRAINING>>,
    runtime: CudaRuntime,
) -> bool
    decreases steps,
{
    steps.len() > 0 ==> {
        &&& chain_in_order(steps.drop_last(), runtime)
        &&& steps.last().in_order(runtime)
        &&& chain_footprint(steps.drop_last()).disjoint(steps.last().footprint())
    }
}

/// Every branch is in order, and no two share a buffer.
pub open spec fn branches_in_order<const TRAINING: bool>(
    branches: Seq<Branch<TRAINING>>,
    runtime: CudaRuntime,
) -> bool
    decreases branches,
{
    branches.len() > 0 ==> {
        &&& branches_in_order(branches.drop_last(), runtime)
        &&& chain_in_order(branches.last().steps@, runtime)
        &&& branches_footprint(branches.drop_last()).disjoint(
            chain_footprint(branches.last().steps@),
        )
    }
}

/// Steps take inputs of these shapes, each what the one before it gives.
pub open spec fn chain_takes<const TRAINING: bool>(
    steps: Seq<Step<TRAINING>>,
    inputs: Seq<MatrixConfig>,
) -> bool
    decreases steps,
{
    steps.len() > 0 ==> {
        &&& chain_takes(steps.drop_last(), inputs)
        &&& steps.last().takes_all(chain_outputs(steps.drop_last(), inputs))
    }
}

/// The shapes that come out of steps.
pub open spec fn chain_outputs<const TRAINING: bool>(
    steps: Seq<Step<TRAINING>>,
    inputs: Seq<MatrixConfig>,
) -> Seq<MatrixConfig>
    decreases steps,
{
    if steps.len() == 0 {
        inputs
    } else {
        steps.last().outputs(chain_outputs(steps.drop_last(), inputs))
    }
}

/// Branches take one input each and have one output each.
pub open spec fn branches_take<const TRAINING: bool>(
    branches: Seq<Branch<TRAINING>>,
    inputs: Seq<MatrixConfig>,
) -> bool
    decreases branches,
{
    &&& inputs.len() == branches.len()
    &&& branches.len() > 0 ==> {
        &&& branches_take(branches.drop_last(), inputs.drop_last())
        &&& chain_takes(branches.last().steps@, seq![inputs.last()])
        &&& chain_outputs(branches.last().steps@, seq![inputs.last()]).len() == 1
    }
}

/// The shapes that come out of branches.
pub open spec fn branches_outputs<const TRAINING: bool>(
    branches: Seq<Branch<TRAINING>>,
    inputs: Seq<MatrixConfig>,
) -> Seq<MatrixConfig>
    decreases branches,
{
    if branches.len() == 0 {
        Seq::empty()
    } else {
        branches_outputs(branches.drop_last(), inputs.drop_last()).push(
            chain_outputs(branches.last().steps@, seq![inputs.last()])[0],
        )
    }
}

/// A moment between two steps: the runtime is in order, and what flows from one to the other
/// is there.
pub open spec fn moment(runtime: CudaRuntime, flow: Seq<Matrix>) -> bool {
    runtime.wf() && runtime.holds_all(flow)
}

/// Nothing but the steps of a branch is another.
pub open spec fn same_branch<const TRAINING: bool>(
    branch: Branch<TRAINING>,
    end: Branch<TRAINING>,
) -> bool {
    &&& end.input_config == branch.input_config
    &&& end.output_config == branch.output_config
    &&& end.loss == branch.loss
    &&& end.learning_rate == branch.learning_rate
    &&& end.training == branch.training
}

/// Steps stay in order while other buffers are exchanged.
pub proof fn lemma_chain_spared<const TRAINING: bool>(
    steps: Seq<Step<TRAINING>>,
    before: CudaRuntime,
    after: CudaRuntime,
    taken: Set<usize>,
    made: Set<usize>,
)
    requires
        before.wf(),
        chain_in_order(steps, before),
        after.replaced(before, taken, made),
        taken.disjoint(chain_footprint(steps)),
    ensures
        chain_in_order(steps, after),
        made.disjoint(chain_footprint(steps)),
        chain_footprint(steps).subset_of(before.live@),
    decreases steps,
{
    if steps.len() > 0 {
        let front = steps.drop_last();
        let last = steps.last();
        assert(taken.disjoint(chain_footprint(front)));
        assert(taken.disjoint(last.footprint()));
        lemma_chain_spared(front, before, after, taken, made);
        assert(decreases_to!(steps => steps[steps.len() - 1]));
        lemma_step_spared(last, before, after, taken, made);
    }
}

/// A step stays in order while other buffers are exchanged.
pub proof fn lemma_step_spared<const TRAINING: bool>(
    step: Step<TRAINING>,
    before: CudaRuntime,
    after: CudaRuntime,
    taken: Set<usize>,
    made: Set<usize>,
)
    requires
        before.wf(),
        step.in_order(before),
        after.replaced(before, taken, made),
        taken.disjoint(step.footprint()),
    ensures
        step.in_order(after),
        made.disjoint(step.footprint()),
        step.footprint().subset_of(before.live@),
    decreases step,
{
    match step {
        Step::Node(node) => {
            node.lemma_spared(before, after, taken, made);
        },
        Step::Branches(branches) => {
            assert(decreases_to!(step => branches));
            assert(decreases_to!(branches => branches@));
            lemma_branches_spared(branches@, before, after, taken, made);
        },
    }
}

/// Branches stay in order while other buffers are exchanged.
pub proof fn lemma_branches_spared<const TRAINING: bool>(
    branches: Seq<Branch<TRAINING>>,
    before: CudaRuntime,
    after: CudaRuntime,
    taken: Set<usize>,
    made: Set<usize>,
)
    requires
        before.wf(),
        branches_in_order(branches, before),
        after.replaced(before, taken, made),
        taken.disjoint(branches_footprint(branches)),
    ensures
        branches_in_order(branches, after),
        made.disjoint(branches_footprint(branches)),
        branches_footprint(branches).subset_of(before.live@),
    decreases branches,
{
    if branches.len() > 0 {
        let front = branches.drop_last();
        let last = branches.last();
        assert(taken.disjoint(branches_footprint(front)));
        assert(taken.disjoint(chain_footprint(last.steps@)));
        lemma_branches_spared(front, before, after, taken, made);
        assert(decreases_to!(branches => branches[branches.len() - 1]));
        assert(decreases_to!(last => last.steps));
        assert(decreases_to!(last.steps => last.steps@));
        lemma_chain_spared(last.steps@, before, after, taken, made);
    }
}

/// One part exchanges its buffers and then another does.
pub proof fn lemma_in_turn(
    before: CudaRuntime,
    middle: CudaRuntime,
    after: CudaRuntime,
    front: Set<usize>,
    front_end: Set<usize>,
    last: Set<usize>,
    last_end: Set<usize>,
)
    requires
        before.wf(),
        front.union(last).subset_of(before.live@),
        front.disjoint(last) && front_end.disjoint(last),
        middle.replaced(before, front, front_end),
        after.replaced(middle, last, last_end),
    ensures
        after.replaced(before, front.union(last), front_end.union(last_end)),
{
    let taken = front.union(last);
    before.lemma_replaced_nothing(taken);
    assert(front.subset_of(taken));
    middle.lemma_replaced_again(before, before, taken, taken, front, front_end);
    let held = taken.difference(front).union(front_end);
    assert(held =~= last.union(front_end));
    assert(last.subset_of(held));
    after.lemma_replaced_again(middle, before, taken, held, last, last_end);
    assert(held.difference(last).union(last_end) =~= front_end.union(last_end));
}

} // verus!
