//! Initialized graphs: descriptions whose parameters have been made.

use vstd::prelude::*;

use crate::cuda::algebra::{initial, Term};
use crate::cuda::container::matrix::shapeable;
use crate::cuda::meaning::{can_be, number_of};
use crate::cuda::ops::InitFn;
use crate::cuda::runtime::{addressable, chosen, CudaRuntime, InitType};
use crate::cuda::scalar::F32;
use crate::graph::config::MatrixConfig;
use crate::graph::draft::{
    chain_attached, chain_outputs, law_chains_compose, BranchDraft, DraftStep, GraphDraft,
};
use crate::graph::node::Node;
use crate::graph::schedule::{DecayStage, LearningRateScheduler};
use crate::graph::state::{NodeTrainState, TrainState};
use crate::net::linear::{Linear, LinearConfig, LinearTrainingNode};
use crate::net::loss::Loss;
use crate::net::node::{
    ConcatNode, FanOutMode, FanOutNode, TrainingConcatNode, TrainingFanOutNode,
};

verus! {

broadcast use crate::cuda::runtime::group_streams;

/// Where the parameters of a graph come from.
pub enum InitConfig {
    Random { loss: Loss, learning_rate: LearningRateScheduler },
    /// A checkpoint at this path.
    Load(String),
}

/// Why a graph could not be initialized.
#[derive(Debug, PartialEq, Eq)]
pub enum InitError {
    /// Loading is not available for graphs of any shape; the path is the one
    /// that was asked for.
    LoadingNotImplemented(String),
}

/// One step of an initialized graph.
pub enum Step<const TRAINING: bool> {
    Node(Node),
    Branches(Vec<Branch<TRAINING>>),
}

/// Initialized executable graph. `TRAINING` controls whether backward and
/// optimizer phases are available.
pub struct Graph<const TRAINING: bool> {
    pub input_config: MatrixConfig,
    pub output_config: MatrixConfig,
    pub loss: Loss,
    pub learning_rate: LearningRateScheduler,
    pub steps: Vec<Step<TRAINING>>,
    pub training: Option<TrainState>,
}

/// Initialized executable branch, primarily used as a reusable graph segment.
pub struct Branch<const TRAINING: bool> {
    pub input_config: MatrixConfig,
    pub output_config: MatrixConfig,
    pub loss: Loss,
    pub learning_rate: LearningRateScheduler,
    pub steps: Vec<Step<TRAINING>>,
    pub training: Option<TrainState>,
}

impl<const TRAINING: bool> Graph<TRAINING> {
    pub fn get_input_config(&self) -> (r: MatrixConfig)
        ensures
            r == self.input_config,
    {
        self.input_config
    }

    pub fn get_output_config(&self) -> (r: MatrixConfig)
        ensures
            r == self.output_config,
    {
        self.output_config
    }

    pub fn learning_rate(&self) -> (r: &LearningRateScheduler)
        ensures
            *r == self.learning_rate,
    {
        &self.learning_rate
    }
}

impl<const TRAINING: bool> Branch<TRAINING> {
    pub fn get_input_config(&self) -> (r: MatrixConfig)
        ensures
            r == self.input_config,
    {
        self.input_config
    }

    pub fn get_output_config(&self) -> (r: MatrixConfig)
        ensures
            r == self.output_config,
    {
        self.output_config
    }
}

impl DraftStep {
    /// Whether the device can hold what the step needs, and copies go to two
    /// places at least.
    pub open spec fn makeable(self) -> bool
        decreases self,
    {
        match self {
            DraftStep::Node(_) => true,
            DraftStep::MapBranches(branches) => forall|k: int|
                #![trigger branches@[k]]
                0 <= k < branches@.len() ==> chain_makeable(branches@[k].steps@),
            DraftStep::Copy(count) => count >= 2,
            DraftStep::Concat(_) => true,
            DraftStep::Linear(config) => shapeable(
                config.weights.rows as int,
                config.weights.cols as int,
            ) && addressable(config.weights.cols as int),
        }
    }
}

/// The same for several steps.
pub open spec fn chain_makeable(steps: Seq<DraftStep>) -> bool
    decreases steps,
{
    forall|i: int| #![trigger steps[i]] 0 <= i < steps.len() ==> steps[i].makeable()
}

/// Weights filled by one of the random draws.
pub open spec fn drawn(runtime: CudaRuntime, linear: Linear) -> bool {
    exists|draw: usize|
        runtime.matrix(linear.weights) == #[trigger] initial(
            InitFn::Random(draw),
            linear.weights.buffer.len as nat,
        )
}

/// A layer made from its description: random weights, a bias of zeros.
pub open spec fn built(config: LinearConfig, linear: Linear, runtime: CudaRuntime) -> bool {
    &&& linear.wf(runtime)
    &&& linear.weights.rows == config.weights.rows
    &&& linear.weights.cols == config.weights.cols
    &&& linear.activation == config.activation
    &&& linear.bias is Some == config.bias
    &&& drawn(runtime, linear)
    &&& linear.bias matches Some(bias) ==> runtime.vector(bias) == initial(
        InitFn::Zero,
        config.weights.cols as nat,
    )
}

/// A new layer starts with weights between zero and one and with a bias of zero.
pub proof fn law_new_layers_start_between_zero_and_one(
    config: LinearConfig,
    linear: Linear,
    runtime: CudaRuntime,
    i: int,
    x: real,
)
    requires
        runtime.wf(),
        built(config, linear, runtime),
    ensures
        0 <= i < config.weights.rows * config.weights.cols && can_be(
            runtime.matrix(linear.weights)[i],
            x,
        ) ==> 0int as real <= x && x <= 1int as real,
        config.bias && 0 <= i < config.weights.cols ==> number_of(
            runtime.vector(linear.bias->0)[i],
        ) == Some(0int as real),
        config.bias == linear.bias is Some,
        linear.activation == config.activation,
{
    let draw = choose|draw: usize|
        runtime.matrix(linear.weights) == #[trigger] initial(
            InitFn::Random(draw),
            linear.weights.buffer.len as nat,
        );
    if 0 <= i < config.weights.rows * config.weights.cols {
        let term = runtime.matrix(linear.weights)[i];
        assert(term == Term::Init(InitFn::Random(draw), i));
        if can_be(term, x) {
            InitFn::Random(draw).lemma_draws(i, x);
        }
    }
}

/// The buffers of a layer, in the order in which they are made.
pub open spec fn layer_ids(linear: Linear) -> Seq<usize> {
    match linear.bias {
        Some(bias) => seq![linear.weights.buffer.id, bias.buffer.id],
        None => seq![linear.weights.buffer.id],
    }
}

/// The layer inside a block that a layer's description was made into.
pub open spec fn layer_of(node: Node) -> Linear {
    match node {
        Node::TrainingLinear(training) => training.linear,
        Node::Linear(linear) => linear,
        _ => arbitrary(),
    }
}

/// What all parts of a graph are trained with.
pub ghost struct Settings {
    pub loss: Loss,
    pub initial_rate: F32,
    pub stages: Seq<DecayStage>,
    pub step: usize,
}

/// A loss together with a schedule.
pub open spec fn settings_of(loss: Loss, learning_rate: LearningRateScheduler) -> Settings {
    Settings {
        loss,
        initial_rate: learning_rate.initial_rate,
        stages: learning_rate.stages@,
        step: learning_rate.step,
    }
}

impl<const TRAINING: bool> Branch<TRAINING> {
    /// Whether the branch has the shapes of its description, the training
    /// settings of the graph, and a state for every step if it is to be trained.
    pub open spec fn framed(self, draft: BranchDraft, settings: Settings) -> bool {
        &&& Some(self.input_config) == draft.input_config
        &&& Some(self.output_config) == draft.output_config
        &&& settings_of(self.loss, self.learning_rate) == settings
        &&& self.training is Some == TRAINING
        &&& self.training matches Some(training) ==> states_for(draft.steps@, training.nodes@)
    }
}

/// Whether a step was made from its description.
pub open spec fn compiles<const TRAINING: bool>(
    draft: DraftStep,
    step: Step<TRAINING>,
    settings: Settings,
    runtime: CudaRuntime,
) -> bool
    decreases draft,
{
    match (draft, step) {
        (DraftStep::Node(node), Step::Node(made)) => made == node,
        (DraftStep::Copy(count), Step::Node(made)) => {
            let fan_out = FanOutNode { mode: FanOutMode::Copy, output_count: count };
            if TRAINING {
                made == Node::TrainingCopy(
                    TrainingFanOutNode { node: fan_out, forward_pending: false },
                )
            } else {
                made == Node::Copy(fan_out)
            }
        },
        (DraftStep::Concat(axis), Step::Node(made)) => if TRAINING {
            made == Node::TrainingConcat(
                TrainingConcatNode { node: ConcatNode { axis }, input_shapes: None },
            )
        } else {
            made == Node::Concat(ConcatNode { axis })
        },
        (DraftStep::Linear(config), Step::Node(made)) => {
            &&& if TRAINING {
                made matches Node::TrainingLinear(training) && training.input_cache is None
                    && training.training.is_fresh(2)
            } else {
                made is Linear
            }
            &&& built(config, layer_of(made), runtime)
        },
        (DraftStep::MapBranches(branches), Step::Branches(made)) => {
            &&& made@.len() == branches@.len()
            &&& forall|k: int|
                #![trigger branches@[k]]
                0 <= k < branches@.len() ==> {
                    &&& made@[k].framed(branches@[k], settings)
                    &&& all_compile(branches@[k].steps@, made@[k].steps@, settings, runtime)
                }
        },
        _ => false,
    }
}

/// The same for several steps.
pub open spec fn all_compile<const TRAINING: bool>(
    drafts: Seq<DraftStep>,
    steps: Seq<Step<TRAINING>>,
    settings: Settings,
    runtime: CudaRuntime,
) -> bool
    decreases drafts,
{
    &&& steps.len() == drafts.len()
    &&& forall|i: int|
        #![trigger drafts[i]]
        0 <= i < drafts.len() ==> compiles(
            drafts[i],
            steps[i],
            settings,
            runtime,
        )
}

/// The buffers that were made for a step, in order.
pub open spec fn made_for<const TRAINING: bool>(draft: DraftStep, step: Step<TRAINING>) -> Seq<usize>
    decreases draft,
{
    match (draft, step) {
        (DraftStep::Linear(_), Step::Node(made)) => layer_ids(layer_of(made)),
        (DraftStep::MapBranches(branches), Step::Branches(made)) => made_for_branches(
            branches@,
            made@,
        ),
        _ => Seq::empty(),
    }
}

/// The buffers that were made for branches, in order.
pub open spec fn made_for_branches<const TRAINING: bool>(
    drafts: Seq<BranchDraft>,
    branches: Seq<Branch<TRAINING>>,
) -> Seq<usize>
    decreases drafts,
{
    if drafts.len() == 0 {
        Seq::empty()
    } else {
        made_for_branches(drafts.drop_last(), branches.drop_last()) + made_for_all(
            drafts.last().steps@,
            branches.last().steps@,
        )
    }
}

/// The buffers that were made for several steps, in order.
pub open spec fn made_for_all<const TRAINING: bool>(
    drafts: Seq<DraftStep>,
    steps: Seq<Step<TRAINING>>,
) -> Seq<usize>
    decreases drafts,
{
    if drafts.len() == 0 {
        Seq::empty()
    } else {
        made_for_all(drafts.drop_last(), steps.drop_last()) + made_for(drafts.last(), steps.last())
    }
}

/// A later state that differs only by these new live buffers.
pub open spec fn acquired(after: CudaRuntime, before: CudaRuntime, made: Seq<usize>) -> bool {
    &&& after.wf()
    &&& made.no_duplicates()
    &&& forall|id: usize|
        #![trigger made.contains(id)]
        made.contains(id) ==> !before.live@.contains(id)
    &&& forall|id: usize|
        #![trigger after.live@.contains(id)]
        after.live@.contains(id) <==> before.live@.contains(id) || made.contains(id)
    &&& after.keeps(before, Set::empty())
    &&& after.device@.downloads == before.device@.downloads
    &&& after.ran_on(before, chosen(None))
}

proof fn lemma_acquired_append(
    after: CudaRuntime,
    middle: CudaRuntime,
    before: CudaRuntime,
    first: Seq<usize>,
    second: Seq<usize>,
)
    requires
        acquired(middle, before, first),
        acquired(after, middle, second),
    ensures
        acquired(after, before, first + second),
{
    let made = first + second;
    assert forall|id: usize| #[trigger] made.contains(id) <==> first.contains(id)
        || second.contains(id) by {
        if first.contains(id) {
            let i = choose|i: int| 0 <= i < first.len() && first[i] == id;
            assert(made[i] == id);
        }
        if second.contains(id) {
            let i = choose|i: int| 0 <= i < second.len() && second[i] == id;
            assert(made[first.len() + i] == id);
        }
    }
    assert forall|i: int, j: int| 0 <= i < j < made.len() implies made[i] != made[j] by {
        if i < first.len() && first.len() <= j {
            assert(first.contains(first[i]));
            assert(second.contains(second[j - first.len()]));
            assert(middle.live@.contains(first[i]));
        }
    }
    assert forall|id: usize| #![trigger made.contains(id)] made.contains(id) implies !before.live@.contains(
        id,
    ) by {
        if second.contains(id) {
            assert(!middle.live@.contains(id));
        }
    }
    assert forall|id: usize| #![trigger after.live@.contains(id)] after.live@.contains(id)
        <==> before.live@.contains(id) || made.contains(id) by {
        assert(middle.live@.contains(id) <==> before.live@.contains(id) || first.contains(id));
    }
    assert forall|id: usize| #![trigger after.mem(id)] before.live@.contains(id) implies after.mem(id)
        == before.mem(id) by {
        assert(middle.live@.contains(id));
        assert(middle.mem(id) == before.mem(id));
    }
    assert forall|id: usize| #![trigger after.buffers@[id as int]] id < before.buffers@.len() implies id
        < after.buffers@.len() && after.buffers@[id as int] == before.buffers@[id as int] by {
        assert(middle.buffers@[id as int] == before.buffers@[id as int]);
    }
}

/// What is made once stays as it is while more is made.
proof fn lemma_still_compiles<const TRAINING: bool>(
    draft: DraftStep,
    step: Step<TRAINING>,
    settings: Settings,
    before: CudaRuntime,
    after: CudaRuntime,
    made: Seq<usize>,
)
    requires
        compiles(draft, step, settings, before),
        acquired(after, before, made),
    ensures
        compiles(draft, step, settings, after),
    decreases draft,
{
    match (draft, step) {
        (DraftStep::Linear(config), Step::Node(node)) => {
            let linear = layer_of(node);
            assert(before.live@.contains(linear.weights.buffer.id));
            assert(after.live@.contains(linear.weights.buffer.id));
            assert(after.buffers@[linear.weights.buffer.id as int] == linear.weights.buffer.len);
            assert(after.mem(linear.weights.buffer.id) == before.mem(linear.weights.buffer.id));
            if let Some(bias) = linear.bias {
                assert(after.live@.contains(bias.buffer.id));
                assert(after.buffers@[bias.buffer.id as int] == bias.buffer.len);
                assert(after.mem(bias.buffer.id) == before.mem(bias.buffer.id));
            }
            let draw = choose|draw: usize|
                before.matrix(linear.weights) == #[trigger] initial(
                    InitFn::Random(draw),
                    linear.weights.buffer.len as nat,
                );
            assert(after.matrix(linear.weights) == initial(
                InitFn::Random(draw),
                linear.weights.buffer.len as nat,
            ));
        },
        (DraftStep::MapBranches(branches), Step::Branches(built)) => {
            assert forall|k: int| #![trigger branches@[k]] 0 <= k < branches@.len() implies all_compile(
                branches@[k].steps@,
                built@[k].steps@,
                settings,
                after,
            ) by {
                assert(decreases_to!(draft => branches));
                assert(decreases_to!(branches => branches@));
                assert(decreases_to!(branches@ => branches@[k]));
                assert(decreases_to!(branches@[k] => branches@[k].steps));
                assert(decreases_to!(branches@[k].steps => branches@[k].steps@));
                lemma_all_still_compile(
                    branches@[k].steps@,
                    built@[k].steps@,
                    settings,
                    before,
                    after,
                    made,
                );
            }
        },
        _ => {},
    }
}

proof fn lemma_all_still_compile<const TRAINING: bool>(
    drafts: Seq<DraftStep>,
    steps: Seq<Step<TRAINING>>,
    settings: Settings,
    before: CudaRuntime,
    after: CudaRuntime,
    made: Seq<usize>,
)
    requires
        all_compile(drafts, steps, settings, before),
        acquired(after, before, made),
    ensures
        all_compile(drafts, steps, settings, after),
    decreases drafts,
{
    assert forall|i: int| #![trigger drafts[i]] 0 <= i < drafts.len() implies compiles(
        drafts[i],
        steps[i],
        settings,
        after,
    ) by {
        assert(decreases_to!(drafts => drafts[i]));
        lemma_still_compiles(drafts[i], steps[i], settings, before, after, made);
    }
}

/// The training state that goes with a step.
pub open spec fn state_for(draft: DraftStep, state: NodeTrainState) -> bool {
    match draft {
        DraftStep::Node(node) => node.starts_with(state),
        _ => state.is_fresh(0) && state.children@.len() == 0,
    }
}

/// The training states of several steps, one each.
pub open spec fn states_for(drafts: Seq<DraftStep>, states: Seq<NodeTrainState>) -> bool {
    &&& states.len() == drafts.len()
    &&& forall|i: int|
        #![trigger states[i]]
        0 <= i < states.len() ==> state_for(drafts[i], states[i])
}

/// Makes a layer from its description.
fn build_linear(config: LinearConfig, runtime: &mut CudaRuntime) -> (r: Linear)
    requires
        old(runtime).wf(),
        DraftStep::Linear(config).makeable(),
    ensures
        built(config, r, *final(runtime)),
        acquired(*final(runtime), *old(runtime), layer_ids(r)),
{
    let ghost before = *runtime;
    let weights = runtime.new_matrix(
        InitType::Random,
        config.weights.rows,
        config.weights.cols,
        None,
    );
    let ghost middle = *runtime;
    let ghost id = weights.buffer.id;
    proof {
        assert(seq![id][0] == id);
        assert(acquired(middle, before, seq![id]));
    }
    let bias = if config.bias {
        let bias = runtime.new_vector(InitType::Zero, config.weights.cols, None);
        proof {
            let bias_id = bias.buffer.id;
            assert(seq![bias_id][0] == bias_id);
            assert(acquired(*runtime, middle, seq![bias_id]));
            lemma_acquired_append(*runtime, middle, before, seq![id], seq![bias_id]);
            assert(seq![id] + seq![bias_id] =~= seq![id, bias_id]);
            assert(middle.live@.contains(id));
            assert(runtime.buffers@[id as int] == weights.buffer.len);
            assert(runtime.mem(id) == middle.mem(id));
        }
        Some(bias)
    } else {
        None
    };
    let linear = Linear::new(weights, bias, config.activation);
    proof {
        let draw = before.draws@.len() as usize;
        assert(runtime.matrix(linear.weights) == initial(
            InitFn::Random(draw),
            linear.weights.buffer.len as nat,
        ));
    }
    linear
}

/// Makes one step from its description.
fn compile_step<const TRAINING: bool>(
    draft: DraftStep,
    runtime: &mut CudaRuntime,
    loss: Loss,
    learning_rate: &LearningRateScheduler,
) -> (r: (Step<TRAINING>, NodeTrainState))
    requires
        old(runtime).wf(),
        draft.attached(),
        draft.makeable(),
    ensures
        compiles(draft, r.0, settings_of(loss, *learning_rate), *final(runtime)),
        acquired(*final(runtime), *old(runtime), made_for(draft, r.0)),
        state_for(draft, r.1),
    decreases draft, 0nat,
{
    let ghost before = *runtime;
    proof {
        before.lemma_ran_on_nothing(chosen(None));
        assert(acquired(before, before, Seq::<usize>::empty()));
    }
    match draft {
        DraftStep::Node(node) => {
            let state = node.create_train_state();
            (Step::Node(node), state)
        },
        DraftStep::MapBranches(branches) => {
            proof {
                assert(decreases_to!(draft => branches));
            }
            let made = compile_branches::<TRAINING>(branches, runtime, loss, learning_rate);
            (Step::Branches(made), NodeTrainState::default())
        },
        DraftStep::Copy(count) => {
            let node = if TRAINING {
                Node::TrainingCopy(TrainingFanOutNode::new(FanOutMode::Copy, count))
            } else {
                Node::Copy(FanOutNode::new(FanOutMode::Copy, count))
            };
            let state = node.create_train_state();
            (Step::Node(node), state)
        },
        DraftStep::Concat(axis) => {
            let node = if TRAINING {
                Node::TrainingConcat(TrainingConcatNode::new(axis))
            } else {
                Node::Concat(ConcatNode::new(axis))
            };
            let state = node.create_train_state();
            (Step::Node(node), state)
        },
        DraftStep::Linear(config) => {
            let linear = build_linear(config, runtime);
            let node = if TRAINING {
                Node::TrainingLinear(LinearTrainingNode::new(linear))
            } else {
                Node::Linear(linear)
            };
            (Step::Node(node), NodeTrainState::with_parameter_count(0))
        },
    }
}

/// Makes branches from their descriptions.
fn compile_branches<const TRAINING: bool>(
    drafts: Vec<BranchDraft>,
    runtime: &mut CudaRuntime,
    loss: Loss,
    learning_rate: &LearningRateScheduler,
) -> (r: Vec<Branch<TRAINING>>)
    requires
        old(runtime).wf(),
        forall|k: int|
            #![trigger drafts@[k]]
            0 <= k < drafts@.len() ==> drafts@[k].attached() && chain_makeable(
                drafts@[k].steps@,
            ),
    ensures
        r@.len() == drafts@.len(),
        forall|k: int|
            #![trigger drafts@[k]]
            0 <= k < drafts@.len() ==> {
                let settings = settings_of(loss, *learning_rate);
                &&& r@[k].framed(drafts@[k], settings)
                &&& all_compile(drafts@[k].steps@, r@[k].steps@, settings, *final(runtime))
            },
        acquired(*final(runtime), *old(runtime), made_for_branches(drafts@, r@)),
    decreases drafts, 0nat,
{
    let ghost before = *runtime;
    let ghost given = drafts;
    let ghost settings = settings_of(loss, *learning_rate);
    let mut left = drafts;
    let mut made: Vec<Branch<TRAINING>> = Vec::new();
    proof {
        before.lemma_ran_on_nothing(chosen(None));
        assert(acquired(before, before, Seq::<usize>::empty()));
        assert(given@.take(0).len() == 0);
        assert(given@.skip(0) =~= given@);
    }
    while left.len() > 0
        invariant
            given == drafts,
            runtime.wf(),
            settings == settings_of(loss, *learning_rate),
            made@.len() + left@.len() == given@.len(),
            left@ == given@.skip(made@.len() as int),
            forall|k: int|
                #![trigger given@[k]]
                0 <= k < given@.len() ==> given@[k].attached() && chain_makeable(
                    given@[k].steps@,
                ),
            forall|k: int|
                #![trigger given@[k]]
                0 <= k < made@.len() ==> made@[k].framed(given@[k], settings) && all_compile(
                    given@[k].steps@,
                    made@[k].steps@,
                    settings,
                    *runtime,
                ),
            acquired(
                *runtime,
                before,
                made_for_branches(given@.take(made@.len() as int), made@),
            ),
        decreases left@.len(),
    {
        let ghost s_0 = *runtime;
        let ghost done = made@;
        let ghost n = made@.len() as int;
        let branch = left.remove(0);
        proof {
            assert(branch == given@[n]);
            assert(left@ =~= given@.skip(n + 1));
            assert(decreases_to!(given => given@));
            assert(decreases_to!(given@ => given@[n]));
        }
        let next = branch.compile::<TRAINING>(runtime, loss, learning_rate.clone());
        proof {
            assert forall|k: int| #![trigger given@[k]] 0 <= k < n implies all_compile(
                given@[k].steps@,
                done[k].steps@,
                settings,
                *runtime,
            ) by {
                lemma_all_still_compile(
                    given@[k].steps@,
                    done[k].steps@,
                    settings,
                    s_0,
                    *runtime,
                    made_for_all(branch.steps@, next.steps@),
                );
            }
            let so_far = given@.take(n + 1);
            assert(so_far.drop_last() =~= given@.take(n));
            assert(done.push(next).drop_last() =~= done);
            lemma_acquired_append(
                *runtime,
                s_0,
                before,
                made_for_branches(given@.take(n), done),
                made_for_all(branch.steps@, next.steps@),
            );
        }
        made.push(next);
    }
    assert(given@.take(made@.len() as int) =~= given@);
    made
}

impl BranchDraft {
    /// Makes the branch.
    pub(crate) fn compile<const TRAINING: bool>(
        self,
        runtime: &mut CudaRuntime,
        loss: Loss,
        learning_rate: LearningRateScheduler,
    ) -> (r: Branch<TRAINING>)
        requires
            old(runtime).wf(),
            self.attached(),
            chain_makeable(self.steps@),
        ensures
            r.framed(self, settings_of(loss, learning_rate)),
            all_compile(
                self.steps@,
                r.steps@,
                settings_of(loss, learning_rate),
                *final(runtime),
            ),
            acquired(*final(runtime), *old(runtime), made_for_all(self.steps@, r.steps@)),
        decreases self, 0nat,
    {
        let ghost given = self;
        proof {
            assert(decreases_to!(self => self.steps));
        }
        let (steps, states) = compile_steps::<TRAINING>(
            self.steps,
            runtime,
            loss,
            &learning_rate,
        );
        Branch {
            input_config: self.input_config.unwrap(),
            output_config: self.output_config.unwrap(),
            loss,
            learning_rate,
            steps,
            training: if TRAINING {
                Some(TrainState::new(states))
            } else {
                None
            },
        }
    }
}

impl BranchDraft {
    /// Makes a branch on its own: random weights, biases of zeros. Loading a
    /// checkpoint into a branch of any shape is not implemented.
    pub fn init<const TRAINING: bool>(self, runtime: &mut CudaRuntime, config: InitConfig) -> (r:
        Result<Branch<TRAINING>, InitError>)
        requires
            old(runtime).wf(),
            self.attached(),
            chain_makeable(self.steps@),
        ensures
            match config {
                InitConfig::Random { loss, learning_rate } => {
                    &&& r matches Ok(branch)
                    &&& branch.framed(self, settings_of(loss, learning_rate))
                    &&& all_compile(
                        self.steps@,
                        branch.steps@,
                        settings_of(loss, learning_rate),
                        *final(runtime),
                    )
                    &&& acquired(
                        *final(runtime),
                        *old(runtime),
                        made_for_all(self.steps@, branch.steps@),
                    )
                },
                InitConfig::Load(path) => {
                    &&& r == Err::<Branch<TRAINING>, _>(InitError::LoadingNotImplemented(path))
                    &&& *final(runtime) == *old(runtime)
                },
            },
    {
        match config {
            InitConfig::Random { loss, learning_rate } => Ok(
                self.compile::<TRAINING>(runtime, loss, learning_rate),
            ),
            InitConfig::Load(path) => Err(InitError::LoadingNotImplemented(path)),
        }
    }
}

/// Makes steps from their descriptions, and the training states that go with
/// them.
pub(crate) fn compile_steps<const TRAINING: bool>(
    drafts: Vec<DraftStep>,
    runtime: &mut CudaRuntime,
    loss: Loss,
    learning_rate: &LearningRateScheduler,
) -> (r: (Vec<Step<TRAINING>>, Vec<NodeTrainState>))
    requires
        old(runtime).wf(),
        chain_attached(drafts@),
        chain_makeable(drafts@),
    ensures
        all_compile(
            drafts@,
            r.0@,
            settings_of(loss, *learning_rate),
            *final(runtime),
        ),
        acquired(*final(runtime), *old(runtime), made_for_all(drafts@, r.0@)),
        if TRAINING {
            states_for(drafts@, r.1@)
        } else {
            r.1@.len() == 0
        },
    decreases drafts, 0nat,
{
    let ghost before = *runtime;
    let ghost given = drafts;
    let ghost settings = settings_of(loss, *learning_rate);
    let mut left = drafts;
    let mut steps: Vec<Step<TRAINING>> = Vec::new();
    let mut states: Vec<NodeTrainState> = Vec::new();
    proof {
        before.lemma_ran_on_nothing(chosen(None));
        assert(acquired(before, before, Seq::<usize>::empty()));
        assert(given@.take(0).len() == 0);
        assert(given@.skip(0) =~= given@);
    }
    while left.len() > 0
        invariant
            given == drafts,
            runtime.wf(),
            settings == settings_of(loss, *learning_rate),
            steps@.len() + left@.len() == given@.len(),
            left@ == given@.skip(steps@.len() as int),
            chain_attached(given@),
            chain_makeable(given@),
            all_compile(given@.take(steps@.len() as int), steps@, settings, *runtime),
            acquired(*runtime, before, made_for_all(given@.take(steps@.len() as int), steps@)),
            if TRAINING {
                states_for(given@.take(steps@.len() as int), states@)
            } else {
                states@.len() == 0
            },
        decreases left@.len(),
    {
        let ghost s_0 = *runtime;
        let ghost done = steps@;
        let ghost old_states = states@;
        let ghost n = steps@.len() as int;
        let draft = left.remove(0);
        proof {
            assert(draft == given@[n]);
            assert(left@ =~= given@.skip(n + 1));
            assert(decreases_to!(given => given@));
            assert(decreases_to!(given@ => given@[n]));
        }
        let ghost taken = draft;
        let (step, state) = compile_step::<TRAINING>(draft, runtime, loss, learning_rate);
        let ghost made = step;
        proof {
            lemma_all_still_compile(
                given@.take(n),
                done,
                settings,
                s_0,
                *runtime,
                made_for(taken, made),
            );
            let so_far = given@.take(n + 1);
            assert(so_far.drop_last() =~= given@.take(n));
            assert(done.push(made).drop_last() =~= done);
            lemma_acquired_append(
                *runtime,
                s_0,
                before,
                made_for_all(given@.take(n), done),
                made_for(taken, made),
            );
            assert forall|i: int| #![trigger so_far[i]] 0 <= i < so_far.len() implies compiles(
                so_far[i],
                done.push(made)[i],
                settings,
                *runtime,
            ) by {
                if i < n {
                    assert(given@.take(n)[i] == so_far[i]);
                }
            }
            if TRAINING {
                assert forall|i: int| #![trigger old_states.push(state)[i]] 0 <= i
                    < old_states.push(state).len() implies state_for(
                    so_far[i],
                    old_states.push(state)[i],
                ) by {
                    if i < n {
                        assert(state_for(given@.take(n)[i], old_states[i]));
                    }
                }
            }
        }
        if TRAINING {
            states.push(state);
        }
        steps.push(step);
    }
    assert(given@.take(steps@.len() as int) =~= given@);
    (steps, states)
}

impl GraphDraft {
    /// A graph that was made from the draft.
    pub open spec fn becomes<const TRAINING: bool>(
        self,
        graph: Graph<TRAINING>,
        loss: Loss,
        learning_rate: LearningRateScheduler,
        before: CudaRuntime,
        after: CudaRuntime,
    ) -> bool {
        &&& graph.input_config == self.input_config
        &&& graph.output_config == self.output_config
        &&& graph.loss == loss
        &&& graph.learning_rate == learning_rate
        &&& all_compile(self.steps@, graph.steps@, settings_of(loss, learning_rate), after)
        &&& acquired(after, before, made_for_all(self.steps@, graph.steps@))
        &&& graph.training is Some == TRAINING
        &&& graph.training matches Some(training) ==> states_for(self.steps@, training.nodes@)
    }

    /// Makes the graph: random weights, biases of zeros. Loading a checkpoint
    /// into a graph of any shape is not implemented.
    pub fn init<const TRAINING: bool>(self, runtime: &mut CudaRuntime, config: InitConfig) -> (r:
        Result<Graph<TRAINING>, InitError>)
        requires
            old(runtime).wf(),
            chain_attached(self.steps@),
            chain_makeable(self.steps@),
        ensures
            match config {
                InitConfig::Random { loss, learning_rate } => {
                    &&& r matches Ok(graph)
                    &&& self.becomes(graph, loss, learning_rate, *old(runtime), *final(runtime))
                },
                InitConfig::Load(path) => {
                    &&& r == Err::<Graph<TRAINING>, _>(InitError::LoadingNotImplemented(path))
                    &&& *final(runtime) == *old(runtime)
                },
            },
    {
        match config {
            InitConfig::Random { loss, learning_rate } => {
                let (steps, states) = compile_steps::<TRAINING>(
                    self.steps,
                    runtime,
                    loss,
                    &learning_rate,
                );
                Ok(
                    Graph {
                        input_config: self.input_config,
                        output_config: self.output_config,
                        loss,
                        learning_rate,
                        steps,
                        training: if TRAINING {
                            Some(TrainState::new(states))
                        } else {
                            None
                        },
                    },
                )
            },
            InitConfig::Load(path) => Err(InitError::LoadingNotImplemented(path)),
        }
    }
}

/// A graph made from two drafts, one after the other, leads from the first one's input to
/// the second one's output, and has a step for every step of either.
pub proof fn law_joined_drafts_lead_from_first_to_last<const TRAINING: bool>(
    first: GraphDraft,
    next: GraphDraft,
    both: GraphDraft,
    graph: Graph<TRAINING>,
    loss: Loss,
    learning_rate: LearningRateScheduler,
    before: CudaRuntime,
    after: CudaRuntime,
)
    requires
        first.wf(),
        next.wf(),
        first.output_config == next.input_config,
        both.joins(first, next),
        both.becomes(graph, loss, learning_rate, before, after),
    ensures
        both.wf(),
        graph.input_config == first.input_config,
        graph.output_config == next.output_config,
        graph.steps@.len() == first.steps@.len() + next.steps@.len(),
        chain_outputs(first.steps@ + next.steps@, seq![graph.input_config]) == seq![
            graph.output_config,
        ],
{
    law_chains_compose(first.steps@, next.steps@, seq![first.input_config]);
}

} // verus!
