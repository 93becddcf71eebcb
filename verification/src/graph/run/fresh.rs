//! Freshly made graphs.

use vstd::prelude::*;

use super::backward::{branches_train, chain_trains};
use super::{
    branches_footprint, branches_in_order, branches_outputs, branches_take, chain_footprint,
    chain_in_order, chain_outputs, chain_takes,
};
use crate::cuda::container::matrix::multipliable;
use crate::cuda::container::Matrix;
use crate::cuda::runtime::{addressable, CudaRuntime};
use crate::graph::compile::{
    acquired, all_compile, compiles, layer_of, made_for, made_for_all, made_for_branches, Branch, Settings,
    Step,
};
use crate::graph::config::MatrixConfig;
use crate::graph::draft;
use crate::graph::draft::{BranchDraft, DraftStep};
use crate::graph::graph_node::any::configs_of;
use crate::graph::graph_node::GraphNode;
use crate::graph::node::{shapes, Node};
use crate::net::linear::trainable;
use crate::net::node::structural::shapes_of;

verus! {

impl DraftStep {
    /// The device can run what is made of the step on inputs of these shapes, and train it
    /// if that is wanted.
    pub open spec fn workable(self, training: bool, inputs: Seq<MatrixConfig>) -> bool
        decreases self,
    {
        match self {
            DraftStep::Node(node) => {
                &&& node.takes_all(inputs)
                &&& training ==> node.trains_on(inputs)
            },
            DraftStep::MapBranches(branches) => branches_workable(branches@, training, inputs),
            DraftStep::Copy(count) => inputs.len() == 1 && count >= 2,
            DraftStep::Concat(axis) => {
                &&& axis.joinable(shapes(inputs))
                &&& training ==> forall|k: int|
                    #![trigger inputs[k]]
                    0 <= k < inputs.len() ==> inputs[k].rows > 0 && inputs[k].cols > 0
            },
            DraftStep::Linear(config) => {
                let (rows, inner, cols) = (
                    inputs[0].rows as int,
                    config.weights.rows as int,
                    config.weights.cols as int,
                );
                &&& inputs.len() == 1
                &&& inputs[0].cols == inner
                &&& multipliable(rows, inner, cols)
                &&& addressable(rows * cols)
                &&& training ==> trainable(rows, inner, cols)
            },
        }
    }

    /// The buffers of the blocks that the step brings along ready-made.
    pub open spec fn brought(self) -> Set<usize>
        decreases self,
    {
        match self {
            DraftStep::Node(node) => node.footprint(),
            DraftStep::MapBranches(branches) => branches_brought(branches@),
            _ => Set::empty(),
        }
    }

    /// The blocks that the step brings along are in order and share no buffer.
    pub open spec fn ready(self, runtime: CudaRuntime) -> bool
        decreases self,
    {
        match self {
            DraftStep::Node(node) => node.in_order(runtime),
            DraftStep::MapBranches(branches) => branches_ready(branches@, runtime),
            _ => true,
        }
    }
}

/// The buffers of all blocks that steps bring along.
pub open spec fn chain_brought(steps: Seq<DraftStep>) -> Set<usize>
    decreases steps,
{
    if steps.len() == 0 {
        Set::empty()
    } else {
        chain_brought(steps.drop_last()).union(steps.last().brought())
    }
}

/// The same for branches.
pub open spec fn branches_brought(branches: Seq<BranchDraft>) -> Set<usize>
    decreases branches,
{
    if branches.len() == 0 {
        Set::empty()
    } else {
        branches_brought(branches.drop_last()).union(chain_brought(branches.last().steps@))
    }
}

/// The blocks that steps bring along are in order and share no buffer.
pub open spec fn chain_ready(steps: Seq<DraftStep>, runtime: CudaRuntime) -> bool
    decreases steps,
{
    steps.len() > 0 ==> {
        &&& chain_ready(steps.drop_last(), runtime)
        &&& steps.last().ready(runtime)
        &&& chain_brought(steps.drop_last()).disjoint(steps.last().brought())
    }
}

/// The same for branches.
pub open spec fn branches_ready(branches: Seq<BranchDraft>, runtime: CudaRuntime) -> bool
    decreases branches,
{
    branches.len() > 0 ==> {
        &&& branches_ready(branches.drop_last(), runtime)
        &&& chain_ready(branches.last().steps@, runtime)
        &&& branches_brought(branches.drop_last()).disjoint(
            chain_brought(branches.last().steps@),
        )
    }
}

/// Blocks that were brought along stay in order while buffers are made.
proof fn lemma_chain_kept(
    drafts: Seq<DraftStep>,
    before: CudaRuntime,
    after: CudaRuntime,
    made: Seq<usize>,
)
    requires
        before.wf(),
        acquired(after, before, made),
        chain_ready(drafts, before),
    ensures
        chain_ready(drafts, after),
        chain_brought(drafts).subset_of(before.live@),
    decreases drafts,
{
    if drafts.len() > 0 {
        lemma_chain_kept(drafts.drop_last(), before, after, made);
        assert(decreases_to!(drafts => drafts[drafts.len() - 1]));
        let last = drafts.last();
        assert(last.ready(before));
        match last {
            DraftStep::Node(node) => {
                node.lemma_kept(before, after);
            },
            DraftStep::MapBranches(branches) => {
                assert(decreases_to!(last => branches));
                assert(decreases_to!(branches => branches@));
                lemma_branches_kept(branches@, before, after, made);
            },
            _ => {},
        }
        assert(last.ready(after));
    }
}

/// The same for branches.
proof fn lemma_branches_kept(
    drafts: Seq<BranchDraft>,
    before: CudaRuntime,
    after: CudaRuntime,
    made: Seq<usize>,
)
    requires
        before.wf(),
        acquired(after, before, made),
        branches_ready(drafts, before),
    ensures
        branches_ready(drafts, after),
        branches_brought(drafts).subset_of(before.live@),
    decreases drafts,
{
    if drafts.len() > 0 {
        lemma_branches_kept(drafts.drop_last(), before, after, made);
        assert(decreases_to!(drafts => drafts[drafts.len() - 1]));
        let last = drafts.last();
        assert(decreases_to!(last => last.steps));
        assert(decreases_to!(last.steps => last.steps@));
        lemma_chain_kept(last.steps@, before, after, made);
    }
}

/// The same for steps, each on what the one before it gives.
pub open spec fn chain_workable(
    steps: Seq<DraftStep>,
    training: bool,
    inputs: Seq<MatrixConfig>,
) -> bool
    decreases steps,
{
    steps.len() > 0 ==> {
        &&& chain_workable(steps.drop_last(), training, inputs)
        &&& steps.last().workable(training, draft::chain_outputs(steps.drop_last(), inputs))
    }
}

/// The same for branches, each on one input and with one output.
pub open spec fn branches_workable(
    branches: Seq<BranchDraft>,
    training: bool,
    inputs: Seq<MatrixConfig>,
) -> bool
    decreases branches,
{
    &&& inputs.len() == branches.len()
    &&& branches.len() > 0 ==> {
        &&& branches_workable(branches.drop_last(), training, inputs.drop_last())
        &&& chain_workable(branches.last().steps@, training, seq![inputs.last()])
        &&& draft::chain_outputs(branches.last().steps@, seq![inputs.last()]).len() == 1
    }
}

/// What is made from a description is in order, owns just the buffers made for it and those
/// of the blocks that the description brings along in order, takes the described shapes, can
/// be trained on them if it is made for that, and gives the described shapes.
pub proof fn law_made_graphs_run<const TRAINING: bool>(
    drafts: Seq<DraftStep>,
    steps: Seq<Step<TRAINING>>,
    settings: Settings,
    before: CudaRuntime,
    after: CudaRuntime,
    inputs: Seq<MatrixConfig>,
)
    requires
        before.wf(),
        chain_ready(drafts, before),
        chain_workable(drafts, TRAINING, inputs),
        all_compile(drafts, steps, settings, after),
        acquired(after, before, made_for_all(drafts, steps)),
    ensures
        chain_in_order(steps, after),
        chain_footprint(steps) == made_for_all(drafts, steps).to_set().union(
            chain_brought(drafts),
        ),
        chain_takes(steps, inputs),
        TRAINING ==> chain_trains(steps, inputs),
        chain_outputs(steps, inputs) == draft::chain_outputs(drafts, inputs),
{
    let made = made_for_all(drafts, steps);
    lemma_chain_kept(drafts, before, after, made);
    assert forall|id: usize| made.to_set().contains(id) implies !chain_brought(drafts).contains(
        id,
    ) by {
        assert(made.contains(id));
    }
    lemma_made_chain_runs(drafts, steps, settings, after, inputs);
}

/// The same for steps whose own buffers and those brought along differ.
proof fn lemma_made_chain_runs<const TRAINING: bool>(
    drafts: Seq<DraftStep>,
    steps: Seq<Step<TRAINING>>,
    settings: Settings,
    runtime: CudaRuntime,
    inputs: Seq<MatrixConfig>,
)
    requires
        all_compile(drafts, steps, settings, runtime),
        made_for_all(drafts, steps).no_duplicates(),
        chain_ready(drafts, runtime),
        made_for_all(drafts, steps).to_set().disjoint(chain_brought(drafts)),
        chain_workable(drafts, TRAINING, inputs),
    ensures
        chain_in_order(steps, runtime),
        chain_footprint(steps) == made_for_all(drafts, steps).to_set().union(
            chain_brought(drafts),
        ),
        chain_takes(steps, inputs),
        TRAINING ==> chain_trains(steps, inputs),
        chain_outputs(steps, inputs) == draft::chain_outputs(drafts, inputs),
    decreases drafts,
{
    if drafts.len() > 0 {
        let front = drafts.drop_last();
        let last = drafts.last();
        let front_steps = steps.drop_last();
        let step = steps.last();
        let a = made_for_all(front, front_steps);
        let b = made_for(last, step);
        let given = draft::chain_outputs(front, inputs);
        assert(last == drafts[drafts.len() - 1]);
        assert(compiles(last, step, settings, runtime));
        assert forall|i: int| #![trigger front[i]] 0 <= i < front.len() implies compiles(
            front[i],
            front_steps[i],
            settings,
            runtime,
        ) by {
            assert(front[i] == drafts[i]);
        }
        lemma_two_lists(a, b);
        let p = chain_brought(front);
        let q = last.brought();
        assert(made_for_all(drafts, steps) == a + b);
        assert(chain_brought(drafts) == p.union(q));
        lemma_apart(a.to_set(), b.to_set(), p, q);
        lemma_made_chain_runs(front, front_steps, settings, runtime, inputs);
        assert(decreases_to!(drafts => drafts[drafts.len() - 1]));
        assert(last.workable(TRAINING, given));
        lemma_made_step_runs(last, step, settings, runtime, given);
        assert(chain_footprint(steps) =~= made_for_all(drafts, steps).to_set().union(
            chain_brought(drafts),
        ));
    } else {
        assert(made_for_all(drafts, steps).to_set() =~= Set::empty());
        assert(chain_footprint(steps) =~= Set::empty().union(chain_brought(drafts)));
    }
}

/// The same for a step.
proof fn lemma_made_step_runs<const TRAINING: bool>(
    draft: DraftStep,
    step: Step<TRAINING>,
    settings: Settings,
    runtime: CudaRuntime,
    inputs: Seq<MatrixConfig>,
)
    requires
        compiles(draft, step, settings, runtime),
        made_for(draft, step).no_duplicates(),
        draft.ready(runtime),
        made_for(draft, step).to_set().disjoint(draft.brought()),
        draft.workable(TRAINING, inputs),
    ensures
        step.in_order(runtime),
        step.footprint() == made_for(draft, step).to_set().union(draft.brought()),
        step.takes_all(inputs),
        TRAINING ==> step.trains_on(inputs),
        step.outputs(inputs) == draft.outputs(inputs),
    decreases draft,
{
    match (draft, step) {
        (DraftStep::MapBranches(drafts), Step::Branches(branches)) => {
            assert(decreases_to!(draft => drafts));
            assert(decreases_to!(drafts => drafts@));
            lemma_made_branches_run(drafts@, branches@, settings, runtime, inputs);
            assert(step.outputs(inputs) =~= draft.outputs(inputs));
        },
        (_, Step::Node(node)) => {
            lemma_made_node_runs::<TRAINING>(draft, node, settings, runtime, inputs);
            assert(made_for(draft, step).to_set().union(draft.brought()) =~= node.footprint());
        },
        _ => {},
    }
}

/// The same for a single block.
proof fn lemma_made_node_runs<const TRAINING: bool>(
    draft: DraftStep,
    node: Node,
    settings: Settings,
    runtime: CudaRuntime,
    inputs: Seq<MatrixConfig>,
)
    requires
        compiles(draft, Step::<TRAINING>::Node(node), settings, runtime),
        draft.ready(runtime),
        draft.workable(TRAINING, inputs),
    ensures
        node.in_order(runtime),
        node.footprint() == made_for(draft, Step::<TRAINING>::Node(node)).to_set().union(
            draft.brought(),
        ),
        node.takes_all(inputs),
        TRAINING ==> node.trains_on(inputs),
        node.outputs(inputs) == draft.outputs(inputs),
{
    let made = made_for(draft, Step::<TRAINING>::Node(node));
    match draft {
        DraftStep::Linear(_) => {
            let layer = layer_of(node);
            let w = layer.weights.buffer.id;
            assert(made[0] == w);
            if let Some(bias) = layer.bias {
                assert(made[1] == bias.buffer.id);
            }
            assert forall|id: usize| #[trigger] made.contains(id) <==> layer.owns(id) by {
                if layer.owns(id) && id != w {
                    assert(made[1] == id);
                }
            }
            if let Node::TrainingLinear(training) = node {
                assert(training.training.parameters@[0].gradient is None);
                assert(training.training.parameters@[1].gradient is None);
                assert(training.training.parameters@[0].velocity is None);
                assert(training.training.parameters@[1].velocity is None);
            }
        },
        _ => {},
    }
    assert(made.to_set().union(draft.brought()) =~= node.footprint());
    assert(node.outputs(inputs) =~= draft.outputs(inputs));
    assert forall|rt: CudaRuntime, ms: Seq<Matrix>|
        #![trigger node.takes(rt, ms)]
        !(draft is Node) && rt.holds_all(ms) && configs_of(ms)
            == inputs implies node.takes(rt, ms) by {
        assert(configs_of(ms).len() == ms.len());
        assert(shapes(inputs) =~= shapes_of(ms));
        if ms.len() > 0 {
            assert(configs_of(ms)[0] == inputs[0]);
            assert(rt.holds(ms[0]));
        }
    }
}

/// The same for branches.
proof fn lemma_made_branches_run<const TRAINING: bool>(
    drafts: Seq<BranchDraft>,
    branches: Seq<Branch<TRAINING>>,
    settings: Settings,
    runtime: CudaRuntime,
    inputs: Seq<MatrixConfig>,
)
    requires
        branches.len() == drafts.len(),
        forall|k: int|
            #![trigger drafts[k]]
            0 <= k < drafts.len() ==> all_compile(
                drafts[k].steps@,
                branches[k].steps@,
                settings,
                runtime,
            ),
        made_for_branches(drafts, branches).no_duplicates(),
        branches_ready(drafts, runtime),
        made_for_branches(drafts, branches).to_set().disjoint(branches_brought(drafts)),
        branches_workable(drafts, TRAINING, inputs),
    ensures
        branches_in_order(branches, runtime),
        branches_footprint(branches) == made_for_branches(drafts, branches).to_set().union(
            branches_brought(drafts),
        ),
        branches_take(branches, inputs),
        TRAINING ==> branches_train(branches, inputs),
        branches_outputs(branches, inputs).len() == drafts.len(),
        forall|k: int|
            #![trigger branches_outputs(branches, inputs)[k]]
            0 <= k < drafts.len() ==> branches_outputs(branches, inputs)[k] == drafts[k].resolved(
                inputs[k],
            ),
    decreases drafts,
{
    if drafts.len() > 0 {
        let front = drafts.drop_last();
        let last = drafts.last();
        let front_branches = branches.drop_last();
        let branch = branches.last();
        let a = made_for_branches(front, front_branches);
        let b = made_for_all(last.steps@, branch.steps@);
        let given = seq![inputs.last()];
        let n = drafts.len() - 1;
        assert(last == drafts[n]);
        assert forall|k: int| #![trigger front[k]] 0 <= k < front.len() implies all_compile(
            front[k].steps@,
            front_branches[k].steps@,
            settings,
            runtime,
        ) by {
            assert(front[k] == drafts[k]);
        }
        lemma_two_lists(a, b);
        let p = branches_brought(front);
        let q = chain_brought(last.steps@);
        assert(made_for_branches(drafts, branches) == a + b);
        assert(branches_brought(drafts) == p.union(q));
        lemma_apart(a.to_set(), b.to_set(), p, q);
        lemma_made_branches_run(front, front_branches, settings, runtime, inputs.drop_last());
        assert(decreases_to!(drafts => drafts[drafts.len() - 1]));
        assert(decreases_to!(last => last.steps));
        assert(decreases_to!(last.steps => last.steps@));
        lemma_made_chain_runs(last.steps@, branch.steps@, settings, runtime, given);
        assert(branches_footprint(branches) =~= made_for_branches(drafts, branches).to_set().union(
            branches_brought(drafts),
        ));
        let all = branches_outputs(branches, inputs);
        let fewer = branches_outputs(front_branches, inputs.drop_last());
        assert(all == fewer.push(chain_outputs(branch.steps@, given)[0]));
        assert forall|k: int| #![trigger all[k]] 0 <= k < drafts.len() implies all[k]
            == drafts[k].resolved(inputs[k]) by {
            if k < n {
                assert(all[k] == fewer[k]);
                assert(front[k] == drafts[k]);
                assert(inputs.drop_last()[k] == inputs[k]);
            } else {
                assert(inputs[k] == inputs.last());
            }
        }
    } else {
        assert(made_for_branches(drafts, branches).to_set() =~= Set::empty());
        assert(branches_footprint(branches) =~= Set::empty().union(branches_brought(drafts)));
    }
}

/// Two pairs of sets without a common element.
proof fn lemma_apart(a: Set<usize>, b: Set<usize>, p: Set<usize>, q: Set<usize>)
    requires
        a.disjoint(b),
        p.disjoint(q),
        a.union(b).disjoint(p.union(q)),
    ensures
        a.disjoint(p),
        b.disjoint(q),
        a.union(p).disjoint(b.union(q)),
        a.union(p).union(b.union(q)) == a.union(b).union(p.union(q)),
{
    assert forall|id: usize| a.contains(id) || b.contains(id) implies !p.contains(id)
        && !q.contains(id) by {
        assert(a.union(b).contains(id));
        if p.contains(id) || q.contains(id) {
            assert(p.union(q).contains(id));
        }
    }
    assert(a.union(p).union(b.union(q)) =~= a.union(b).union(p.union(q)));
}

/// Two lists without repetition, one after the other, have no element in common.
proof fn lemma_two_lists(a: Seq<usize>, b: Seq<usize>)
    requires
        (a + b).no_duplicates(),
    ensures
        a.no_duplicates(),
        b.no_duplicates(),
        a.to_set().disjoint(b.to_set()),
        (a + b).to_set() == a.to_set().union(b.to_set()),
{
    let both = a + b;
    assert forall|i: int, j: int| 0 <= i < j < a.len() implies a[i] != a[j] by {
        assert(both[i] == a[i] && both[j] == a[j]);
    }
    assert forall|i: int, j: int| 0 <= i < j < b.len() implies b[i] != b[j] by {
        assert(both[a.len() + i] == b[i] && both[a.len() + j] == b[j]);
    }
    assert forall|id: usize| a.contains(id) && b.contains(id) implies false by {
        let i = choose|i: int| 0 <= i < a.len() && a[i] == id;
        let j = choose|j: int| 0 <= j < b.len() && b[j] == id;
        assert(both[i] == both[a.len() + j]);
    }
    assert forall|id: usize| #[trigger] both.contains(id) <==> a.contains(id) || b.contains(id) by {
        if a.contains(id) {
            let i = choose|i: int| 0 <= i < a.len() && a[i] == id;
            assert(both[i] == id);
        }
        if b.contains(id) {
            let j = choose|j: int| 0 <= j < b.len() && b[j] == id;
            assert(both[a.len() + j] == id);
        }
    }
    assert(both.to_set() =~= a.to_set().union(b.to_set()));
}

} // verus!
