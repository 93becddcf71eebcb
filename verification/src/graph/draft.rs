//! Device-independent descriptions of graphs and branches.

use vstd::prelude::*;

use crate::graph::config::MatrixConfig;
use crate::graph::node::{join_configs, joined_config, joins, one_config, repeat_config, Node};
use crate::net::linear::LinearConfig;
use crate::net::node::MatrixAxis;

verus! {

/// One step of a description.
pub enum DraftStep {
    /// A block that already exists.
    Node(Node),
    /// Every output of the step before goes through a branch of its own.
    MapBranches(Vec<BranchDraft>),
    /// The output is handed out this many times.
    Copy(usize),
    /// All outputs are joined.
    Concat(MatrixAxis),
    /// A layer whose parameters are yet to be made.
    Linear(LinearConfig),
}

/// Device-independent description of a reusable graph branch. The shapes are
/// known once the branch is attached to something.
pub struct BranchDraft {
    pub input_config: Option<MatrixConfig>,
    pub output_config: Option<MatrixConfig>,
    pub steps: Vec<DraftStep>,
}

/// Device-independent description of a whole graph.
pub struct GraphDraft {
    pub input_config: MatrixConfig,
    pub output_config: MatrixConfig,
    pub steps: Vec<DraftStep>,
}

impl DraftStep {
    /// Whether the step accepts inputs of these shapes.
    pub open spec fn fits(self, inputs: Seq<MatrixConfig>) -> bool
        decreases self,
    {
        match self {
            DraftStep::Node(node) => node.fits(inputs),
            DraftStep::MapBranches(branches) => {
                &&& inputs.len() == branches@.len()
                &&& forall|k: int|
                    #![trigger branches@[k]]
                    0 <= k < branches@.len() ==> branches@[k].resolves(inputs[k])
            },
            DraftStep::Copy(_) => inputs.len() == 1,
            DraftStep::Concat(axis) => joins(axis, inputs),
            DraftStep::Linear(config) => inputs.len() == 1 && inputs[0].cols
                == config.weights.rows,
        }
    }

    /// The shapes of the step's outputs.
    pub open spec fn outputs(self, inputs: Seq<MatrixConfig>) -> Seq<MatrixConfig>
        decreases self,
    {
        match self {
            DraftStep::Node(node) => node.outputs(inputs),
            DraftStep::MapBranches(branches) => Seq::new(
                branches@.len(),
                |k: int|
                    if 0 <= k < branches@.len() {
                        branches@[k].resolved(inputs[k])
                    } else {
                        MatrixConfig { rows: 0, cols: 0 }
                    },
            ),
            DraftStep::Copy(count) => Seq::new(count as nat, |k: int| inputs[0]),
            DraftStep::Concat(axis) => seq![joined_config(axis, inputs)],
            DraftStep::Linear(config) => seq![
                MatrixConfig { rows: inputs[0].rows, cols: config.weights.cols },
            ],
        }
    }
}

/// Whether steps accept inputs of these shapes, one after the other.
pub open spec fn chain_fits(steps: Seq<DraftStep>, inputs: Seq<MatrixConfig>) -> bool
    decreases steps,
{
    if steps.len() == 0 {
        true
    } else {
        chain_fits(steps.drop_last(), inputs) && steps.last().fits(
            chain_outputs(steps.drop_last(), inputs),
        )
    }
}

/// The shapes that come out of steps.
pub open spec fn chain_outputs(steps: Seq<DraftStep>, inputs: Seq<MatrixConfig>) -> Seq<MatrixConfig>
    decreases steps,
{
    if steps.len() == 0 {
        inputs
    } else {
        steps.last().outputs(chain_outputs(steps.drop_last(), inputs))
    }
}

impl BranchDraft {
    /// Whether the branch accepts an input of this shape and has one output.
    pub open spec fn resolves(self, input: MatrixConfig) -> bool
        decreases self,
    {
        chain_fits(self.steps@, seq![input]) && chain_outputs(self.steps@, seq![input]).len() == 1
    }

    /// The shape of the branch's output.
    pub open spec fn resolved(self, input: MatrixConfig) -> MatrixConfig
        decreases self,
    {
        chain_outputs(self.steps@, seq![input])[0]
    }
}

/// Whether the shapes of all branches inside steps are known.
pub open spec fn chain_attached(steps: Seq<DraftStep>) -> bool
    decreases steps,
{
    forall|i: int| #![trigger steps[i]] 0 <= i < steps.len() ==> steps[i].attached()
}

impl DraftStep {
    /// Whether the shapes of all branches inside the step are known.
    pub open spec fn attached(self) -> bool
        decreases self,
    {
        match self {
            DraftStep::MapBranches(branches) => forall|k: int|
                #![trigger branches@[k]]
                0 <= k < branches@.len() ==> branches@[k].attached(),
            _ => true,
        }
    }
}

/// Steps that fit do so up to any point.
pub proof fn lemma_chain_prefix(steps: Seq<DraftStep>, inputs: Seq<MatrixConfig>, n: int)
    requires
        0 <= n <= steps.len(),
        chain_fits(steps, inputs),
    ensures
        chain_fits(steps.take(n), inputs),
    decreases steps.len() - n,
{
    if n == steps.len() {
        assert(steps.take(n) =~= steps);
    } else {
        lemma_chain_prefix(steps, inputs, n + 1);
        assert(steps.take(n + 1).drop_last() =~= steps.take(n));
    }
}

/// Steps after steps: the second ones take what comes out of the first.
pub proof fn law_chains_compose(a: Seq<DraftStep>, b: Seq<DraftStep>, inputs: Seq<MatrixConfig>)
    ensures
        chain_fits(a + b, inputs) <==> chain_fits(a, inputs) && chain_fits(
            b,
            chain_outputs(a, inputs),
        ),
        chain_outputs(a + b, inputs) == chain_outputs(b, chain_outputs(a, inputs)),
    decreases b.len(),
{
    if b.len() == 0 {
        assert(a + b =~= a);
    } else {
        law_chains_compose(a, b.drop_last(), inputs);
        assert((a + b).drop_last() =~= a + b.drop_last());
        assert((a + b).last() == b.last());
    }
}

impl DraftStep {
    /// The shapes of the step's outputs, if it accepts inputs of these shapes.
    pub fn output_configs(&self, inputs: &Vec<MatrixConfig>) -> (r: Option<Vec<MatrixConfig>>)
        ensures
            r is Some <==> self.fits(inputs@),
            r matches Some(configs) ==> configs@ == self.outputs(inputs@),
        decreases self,
    {
        match self {
            DraftStep::Node(node) => node.output_configs(inputs),
            DraftStep::MapBranches(branches) => {
                if inputs.len() != branches.len() {
                    return None;
                }
                let mut configs: Vec<MatrixConfig> = Vec::new();
                let mut i: usize = 0;
                while i < branches.len()
                    invariant
                        i <= branches@.len(),
                        inputs@.len() == branches@.len(),
                        *self == DraftStep::MapBranches(*branches),
                        configs@.len() == i,
                        forall|k: int|
                            #![trigger branches@[k]]
                            0 <= k < i ==> branches@[k].resolves(inputs@[k]),
                        forall|k: int|
                            #![trigger configs@[k]]
                            0 <= k < i ==> configs@[k] == branches@[k].resolved(inputs@[k]),
                    decreases branches@.len() - i,
                {
                    proof {
                        assert(decreases_to!(*self => self->MapBranches_0));
                        assert(decreases_to!(branches@ => branches@[i as int]));
                    }
                    match branches[i].resolve_output(inputs[i]) {
                        Some(config) => {
                            configs.push(config);
                        },
                        None => {
                            let ghost branch = branches@[i as int];
                            return None;
                        },
                    }
                    i = i + 1;
                }
                assert(configs@ =~= self.outputs(inputs@));
                Some(configs)
            },
            DraftStep::Copy(count) => if inputs.len() == 1 {
                let configs = repeat_config(inputs[0], *count);
                assert(configs@ =~= self.outputs(inputs@));
                Some(configs)
            } else {
                None
            },
            DraftStep::Concat(axis) => match join_configs(*axis, inputs) {
                Some(config) => Some(one_config(config.rows, config.cols)),
                None => None,
            },
            DraftStep::Linear(config) => if inputs.len() == 1 && inputs[0].cols
                == config.weights.rows {
                Some(one_config(inputs[0].rows, config.weights.cols))
            } else {
                None
            },
        }
    }
}

impl BranchDraft {
    /// The shape of the branch's output for an input of this shape, if there is
    /// one.
    pub fn resolve_output(&self, input: MatrixConfig) -> (r: Option<MatrixConfig>)
        ensures
            r is Some <==> self.resolves(input),
            r matches Some(config) ==> config == self.resolved(input),
        decreases self,
    {
        let ghost all = self.steps@;
        let mut configs = one_config(input.rows, input.cols);
        let mut i: usize = 0;
        assert(all.take(0) =~= Seq::empty());
        while i < self.steps.len()
            invariant
                i <= all.len(),
                all == self.steps@,
                chain_fits(all.take(i as int), seq![input]),
                configs@ == chain_outputs(all.take(i as int), seq![input]),
            decreases all.len() - i,
        {
            proof {
                assert(all.take(i + 1).drop_last() =~= all.take(i as int));
                assert(all.take(i + 1).last() == all[i as int]);
                assert(decreases_to!(*self => self.steps));
                assert(decreases_to!(self.steps@ => self.steps@[i as int]));
            }
            match self.steps[i].output_configs(&configs) {
                Some(next) => {
                    configs = next;
                },
                None => {
                    proof {
                        if chain_fits(all, seq![input]) {
                            lemma_chain_prefix(all, seq![input], i + 1);
                        }
                    }
                    return None;
                },
            }
            i = i + 1;
        }
        assert(all.take(i as int) =~= all);
        if configs.len() == 1 {
            Some(configs[0])
        } else {
            None
        }
    }

    /// Whether the shapes of the branch, and of all branches inside it, are
    /// known.
    pub open spec fn attached(self) -> bool
        decreases self,
    {
        &&& self.input_config is Some
        &&& self.output_config is Some
        &&& chain_attached(self.steps@)
    }

    /// Shapes are known together, and the output's is what the steps make of the
    /// input's.
    pub open spec fn wf(self) -> bool {
        match self.input_config {
            Some(input) => self.resolves(input) && self.output_config == Some(self.resolved(input)),
            None => self.output_config is None,
        }
    }

    pub fn get_input_config(&self) -> (r: Option<MatrixConfig>)
        ensures
            r == self.input_config,
    {
        self.input_config
    }

    pub fn get_output_config(&self) -> (r: Option<MatrixConfig>)
        ensures
            r == self.output_config,
    {
        self.output_config
    }

    /// Fixes the shape of the input, and with it that of the output.
    pub fn attach(&mut self, input: MatrixConfig)
        requires
            old(self).resolves(input),
        ensures
            final(self).steps == old(self).steps,
            final(self).input_config == Some(input),
            final(self).output_config == Some(old(self).resolved(input)),
            final(self).wf(),
    {
        let output = self.resolve_output(input);
        self.input_config = Some(input);
        self.output_config = output;
    }

    /// This branch and another one after it.
    pub fn then(self, next: BranchDraft) -> (r: BranchDraft)
        requires
            self.wf(),
            self.input_config matches Some(input) ==> chain_fits(
                self.steps@ + next.steps@,
                seq![input],
            ) && chain_outputs(self.steps@ + next.steps@, seq![input]).len() == 1,
        ensures
            r.steps@ == self.steps@ + next.steps@,
            r.input_config == self.input_config,
            r.wf(),
    {
        let ghost first = self.steps@;
        let ghost second = next.steps@;
        let input_config = self.input_config;
        let mut steps = self.steps;
        let mut more = next.steps;
        steps.append(&mut more);
        assert(steps@ =~= first + second);
        let mut draft = BranchDraft { input_config: None, output_config: None, steps };
        if let Some(input) = input_config {
            draft.attach(input);
        }
        draft
    }

    /// The branch as a graph of its own.
    pub fn into_graph(self) -> (r: GraphDraft)
        requires
            self.wf(),
            self.input_config is Some,
        ensures
            Some(r.input_config) == self.input_config,
            Some(r.output_config) == self.output_config,
            r.steps == self.steps,
            r.wf(),
    {
        match (self.input_config, self.output_config) {
            (Some(input_config), Some(output_config)) => {
                let draft = GraphDraft { input_config, output_config, steps: self.steps };
                proof {
                    assert(chain_outputs(draft.steps@, seq![input_config]) =~= seq![output_config]);
                }
                draft
            },
            _ => {
                proof {
                    assert(false);
                }
                GraphDraft {
                    input_config: MatrixConfig::new(0, 0),
                    output_config: MatrixConfig::new(0, 0),
                    steps: self.steps,
                }
            },
        }
    }
}

impl GraphDraft {
    /// The steps turn the input's shape into the output's.
    pub open spec fn wf(self) -> bool {
        &&& chain_fits(self.steps@, seq![self.input_config])
        &&& chain_outputs(self.steps@, seq![self.input_config]) == seq![self.output_config]
    }

    pub fn get_input_config(&self) -> (r: MatrixConfig)
        ensures
            r == self.input_config,
    {
        self.input_config
    }

    pub fn get_output_config(&self) -> (r: MatrixConfig)
        ensures
            r == self.output_config,
    {
        self.output_config
    }

    /// A graph and another one after it.
    pub open spec fn joins(self, first: GraphDraft, next: GraphDraft) -> bool {
        &&& self.input_config == first.input_config
        &&& self.output_config == next.output_config
        &&& self.steps@ == first.steps@ + next.steps@
    }

    /// This graph and another one after it.
    pub fn then(self, next: GraphDraft) -> (r: GraphDraft)
        requires
            self.output_config == next.input_config,
        ensures
            r.joins(self, next),
            self.wf() && next.wf() ==> r.wf(),
    {
        let ghost first = self.steps@;
        let ghost second = next.steps@;
        let mut steps = self.steps;
        let mut more = next.steps;
        steps.append(&mut more);
        proof {
            assert(steps@ =~= first + second);
            law_chains_compose(first, second, seq![self.input_config]);
        }
        GraphDraft {
            input_config: self.input_config,
            output_config: next.output_config,
            steps,
        }
    }
}

} // verus!
