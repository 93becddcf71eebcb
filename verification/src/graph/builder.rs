//! Consuming builders for drafts.

use vstd::prelude::*;

use crate::graph::config::MatrixConfig;
use crate::graph::draft::{chain_fits, chain_outputs, BranchDraft, DraftStep, GraphDraft};
use crate::graph::node::{joins, one_config, Node};
use crate::net::linear::LinearConfig;
use crate::net::node::MatrixAxis;

verus! {

/// Consuming builder for a branch.
pub struct BranchBuilder {
    pub draft: BranchDraft,
}

/// Whether a branch still has one output after one step more.
pub open spec fn extends(draft: BranchDraft, step: DraftStep) -> bool {
    draft.input_config matches Some(input) ==> chain_fits(draft.steps@.push(step), seq![input])
        && chain_outputs(draft.steps@.push(step), seq![input]).len() == 1
}

impl BranchBuilder {
    /// Nothing is built yet.
    pub open spec fn fresh(self) -> bool {
        &&& self.draft.input_config is None
        &&& self.draft.output_config is None
        &&& self.draft.steps@.len() == 0
        &&& self.draft.wf()
    }

    /// One step more than another builder.
    pub open spec fn extended(self, before: BranchBuilder, step: DraftStep) -> bool {
        &&& self.draft.steps@ == before.draft.steps@.push(step)
        &&& self.draft.input_config == before.draft.input_config
        &&& self.draft.wf()
    }

    /// A branch without steps that is attached to nothing.
    pub fn start() -> (r: BranchBuilder)
        ensures
            r.fresh(),
    {
        BranchBuilder {
            draft: BranchDraft { input_config: None, output_config: None, steps: Vec::new() },
        }
    }

    pub fn continue_from(draft: BranchDraft) -> (r: BranchBuilder)
        ensures
            r.draft == draft,
    {
        BranchBuilder { draft }
    }

    /// Adds a layer.
    pub fn then(self, config: LinearConfig) -> (r: BranchBuilder)
        requires
            self.draft.wf(),
            extends(self.draft, DraftStep::Linear(config)),
        ensures
            r.extended(self, DraftStep::Linear(config)),
    {
        self.append(DraftStep::Linear(config))
    }

    /// Adds a block.
    pub fn then_node(self, node: Node) -> (r: BranchBuilder)
        requires
            self.draft.wf(),
            extends(self.draft, DraftStep::Node(node)),
        ensures
            r.extended(self, DraftStep::Node(node)),
    {
        self.append(DraftStep::Node(node))
    }

    fn append(self, step: DraftStep) -> (r: BranchBuilder)
        requires
            self.draft.wf(),
            extends(self.draft, step),
        ensures
            r.extended(self, step),
    {
        let mut draft = self.draft;
        draft.steps.push(step);
        if let Some(input) = draft.input_config {
            draft.attach(input);
        }
        BranchBuilder { draft }
    }

    pub fn end(self) -> (r: BranchDraft)
        ensures
            r == self.draft,
    {
        self.draft
    }
}

/// Ending a branch and going on from it is the same as going on: `first` and `last` are added
/// to `ended`, which is continued after the first of them, and to `whole`, which is not.
pub proof fn law_continuing_is_going_on(
    begun: BranchBuilder,
    ended: BranchDraft,
    continued: BranchBuilder,
    one: BranchBuilder,
    other_begun: BranchBuilder,
    other: BranchBuilder,
    whole: BranchBuilder,
    first: DraftStep,
    last: DraftStep,
)
    requires
        begun.fresh(),
        continued.draft == ended,
        exists|b: BranchBuilder| #[trigger] b.extended(begun, first) && b.draft == ended,
        one.extended(continued, last),
        other_begun.fresh(),
        other.extended(other_begun, first),
        whole.extended(other, last),
    ensures
        one.draft.steps@ == whole.draft.steps@,
        one.draft.steps@ == seq![first, last],
        one.draft.input_config == whole.draft.input_config,
        one.draft.output_config == whole.draft.output_config,
{
    assert(one.draft.steps@ =~= seq![first, last]);
    assert(whole.draft.steps@ =~= seq![first, last]);
}

/// Consuming builder for a complete graph.
pub struct GraphBuilder {
    pub input_config: MatrixConfig,
    /// The shapes that come out of the steps so far.
    pub outputs: Vec<MatrixConfig>,
    pub steps: Vec<DraftStep>,
}

impl GraphBuilder {
    /// The steps fit one another.
    pub open spec fn wf(self) -> bool {
        &&& chain_fits(self.steps@, seq![self.input_config])
        &&& self.outputs@ == chain_outputs(self.steps@, seq![self.input_config])
    }

    /// A graph without steps.
    pub fn start(input: MatrixConfig) -> (r: GraphBuilder)
        ensures
            r.input_config == input,
            r.outputs@ == seq![input],
            r.steps@.len() == 0,
            r.wf(),
    {
        GraphBuilder {
            input_config: input,
            outputs: one_config(input.rows, input.cols),
            steps: Vec::new(),
        }
    }

    pub fn continue_from(draft: GraphDraft) -> (r: GraphBuilder)
        requires
            draft.wf(),
        ensures
            r.input_config == draft.input_config,
            r.outputs@ == seq![draft.output_config],
            r.steps == draft.steps,
            r.wf(),
    {
        GraphBuilder {
            input_config: draft.input_config,
            outputs: one_config(draft.output_config.rows, draft.output_config.cols),
            steps: draft.steps,
        }
    }

    /// Adds a step that accepts what the graph puts out.
    fn append(self, step: DraftStep) -> (r: GraphBuilder)
        requires
            self.wf(),
            step.fits(self.outputs@),
        ensures
            r.input_config == self.input_config,
            r.outputs@ == step.outputs(self.outputs@),
            r.steps@ == self.steps@.push(step),
            r.wf(),
    {
        let mut outputs: Vec<MatrixConfig> = Vec::new();
        match step.output_configs(&self.outputs) {
            Some(configs) => {
                outputs = configs;
            },
            None => {},
        }
        let ghost before = self.steps@;
        let mut steps = self.steps;
        steps.push(step);
        proof {
            assert(steps@.drop_last() =~= before);
            assert(steps@.last() == step);
        }
        GraphBuilder { input_config: self.input_config, outputs, steps }
    }

    /// Adds a layer.
    pub fn then(self, config: LinearConfig) -> (r: GraphBuilder)
        requires
            self.wf(),
            self.outputs@.len() == 1,
            self.outputs@[0].cols == config.weights.rows,
        ensures
            r.input_config == self.input_config,
            r.outputs@ == seq![
                MatrixConfig { rows: self.outputs@[0].rows, cols: config.weights.cols },
            ],
            r.steps@ == self.steps@.push(DraftStep::Linear(config)),
            r.wf(),
    {
        self.append(DraftStep::Linear(config))
    }

    /// Adds a block.
    pub fn then_node(self, node: Node) -> (r: GraphBuilder)
        requires
            self.wf(),
            node.fits(self.outputs@),
        ensures
            r.input_config == self.input_config,
            r.outputs@ == node.outputs(self.outputs@),
            r.steps@ == self.steps@.push(DraftStep::Node(node)),
            r.wf(),
    {
        self.append(DraftStep::Node(node))
    }

    /// Hands the output out several times.
    pub fn copy(self, count: usize) -> (r: GraphBuilder)
        requires
            self.wf(),
            self.outputs@.len() == 1,
        ensures
            r.input_config == self.input_config,
            r.outputs@ == Seq::new(count as nat, |k: int| self.outputs@[0]),
            r.steps@ == self.steps@.push(DraftStep::Copy(count)),
            r.wf(),
    {
        self.append(DraftStep::Copy(count))
    }

    /// Sends every output through a branch of its own, to which the branch is
    /// attached.
    pub fn map(self, branches: Vec<BranchDraft>) -> (r: GraphBuilder)
        requires
            self.wf(),
            branches@.len() == self.outputs@.len(),
            forall|k: int|
                #![trigger branches@[k]]
                0 <= k < branches@.len() ==> branches@[k].resolves(self.outputs@[k]),
        ensures
            r.input_config == self.input_config,
            r.outputs@.len() == branches@.len(),
            forall|k: int|
                #![trigger r.outputs@[k]]
                0 <= k < branches@.len() ==> r.outputs@[k] == branches@[k].resolved(
                    self.outputs@[k],
                ),
            r.steps@.len() == self.steps@.len() + 1,
            r.steps@.drop_last() == self.steps@,
            r.steps@.last() is MapBranches,
            r.steps@.last()->MapBranches_0@.len() == branches@.len(),
            forall|k: int|
                #![trigger r.steps@.last()->MapBranches_0@[k]]
                0 <= k < branches@.len() ==> {
                    let branch = r.steps@.last()->MapBranches_0@[k];
                    &&& branch.steps == branches@[k].steps
                    &&& branch.input_config == Some(self.outputs@[k])
                    &&& branch.output_config == Some(r.outputs@[k])
                },
            r.wf(),
    {
        let ghost given = branches@;
        let mut branches = branches;
        let mut i: usize = 0;
        while i < branches.len()
            invariant
                i <= branches@.len(),
                branches@.len() == given.len(),
                given.len() == self.outputs@.len(),
                forall|k: int|
                    #![trigger given[k]]
                    0 <= k < given.len() ==> given[k].resolves(self.outputs@[k]),
                forall|k: int|
                    #![trigger branches@[k]]
                    0 <= k < i ==> branches@[k].steps == given[k].steps
                        && branches@[k].input_config == Some(self.outputs@[k])
                        && branches@[k].output_config == Some(given[k].resolved(self.outputs@[k])),
                forall|k: int| #![trigger branches@[k]] i <= k < given.len() ==> branches@[k] == given[k],
            decreases branches@.len() - i,
        {
            let input = self.outputs[i];
            assert(given[i as int].resolves(input));
            assert(branches@[i as int] == given[i as int]);
            branches[i].attach(input);
            i = i + 1;
        }
        proof {
            assert forall|k: int| #![trigger branches@[k]] 0 <= k < branches@.len() implies branches@[k].resolves(
                self.outputs@[k],
            ) && branches@[k].resolved(self.outputs@[k]) == given[k].resolved(self.outputs@[k]) by {
                assert(given[k].resolves(self.outputs@[k]));
            }
        }
        let ghost attached = branches@;
        let ghost before = self.steps@;
        let ghost outputs = self.outputs@;
        let next = self.append(DraftStep::MapBranches(branches));
        proof {
            assert(next.steps@.drop_last() =~= before);
            assert forall|k: int| #![trigger next.outputs@[k]] 0 <= k < given.len() implies next.outputs@[k]
                == given[k].resolved(outputs[k]) by {
                let b = attached[k];
            }
            assert forall|k: int|
                #![trigger next.steps@.last()->MapBranches_0@[k]]
                0 <= k < given.len() implies {
                let branch = next.steps@.last()->MapBranches_0@[k];
                &&& branch.steps == given[k].steps
                &&& branch.input_config == Some(outputs[k])
                &&& branch.output_config == Some(next.outputs@[k])
            } by {
                let b = attached[k];
            }
        }
        next
    }

    /// Joins all outputs.
    pub fn concat(self, axis: MatrixAxis) -> (r: GraphBuilder)
        requires
            self.wf(),
            joins(axis, self.outputs@),
        ensures
            r.input_config == self.input_config,
            r.outputs@ == seq![crate::graph::node::joined_config(axis, self.outputs@)],
            r.steps@ == self.steps@.push(DraftStep::Concat(axis)),
            r.wf(),
    {
        self.append(DraftStep::Concat(axis))
    }

    /// The finished description.
    pub fn end(self) -> (r: GraphDraft)
        requires
            self.wf(),
            self.outputs@.len() == 1,
        ensures
            r.input_config == self.input_config,
            r.output_config == self.outputs@[0],
            r.steps == self.steps,
            r.wf(),
    {
        proof {
            assert(self.outputs@ =~= seq![self.outputs@[0]]);
        }
        GraphDraft {
            input_config: self.input_config,
            output_config: self.outputs[0],
            steps: self.steps,
        }
    }
}

} // verus!
