//! Whole graphs and branches as blocks.

use vstd::prelude::*;

use super::any::configs_of;
use super::{GraphNode, TrainingNode};
use crate::cuda::algebra::Term;
use crate::cuda::container::{values_of, Matrix};
use crate::cuda::runtime::CudaRuntime;
use crate::graph::compile::{Branch, Graph, Step};
use crate::graph::config::LearnConfig;
use crate::graph::run::backward::{
    back_chain, chain_awaits, chain_passed, chain_ready, chain_returned,
};
use crate::graph::run::clear::{chain_forgot, clear_chain};
use crate::graph::run::data::{chain_data, chain_sizes, lemma_chain_kept, load_chain, read_chain};
use crate::graph::run::forward::{chain_ran, run_chain};
use crate::graph::run::image::{chain_image, law_graphs_compute_their_steps};
use crate::graph::run::learn::{chain_improved, learn_chain};
use crate::graph::run::{chain_footprint, chain_in_order, chain_outputs, chain_takes};
use crate::net::metadata::{HostDataCursor, HostRead};

verus! {
impl<const TRAINING: bool> Graph<TRAINING> {
    /// Nothing but the steps is another.
    pub open spec fn same_but_steps(self, end: Self) -> bool {
        &&& end.input_config == self.input_config
        &&& end.output_config == self.output_config
        &&& end.loss == self.loss
        &&& end.learning_rate == self.learning_rate
        &&& end.training == self.training
    }

    /// Takes the steps out, to be put back once they have run.
    pub(crate) fn take_steps(&mut self) -> (r: Vec<Step<TRAINING>>)
        ensures
            r == old(self).steps,
            old(self).same_but_steps(*final(self)),
    {
        let mut steps: Vec<Step<TRAINING>> = Vec::new();
        core::mem::swap(&mut steps, &mut self.steps);
        steps
    }
}

impl<const TRAINING: bool> GraphNode for Graph<TRAINING> {
    open spec fn footprint(self) -> Set<usize> {
        chain_footprint(self.steps@)
    }

    open spec fn in_order(self, runtime: CudaRuntime) -> bool {
        chain_in_order(self.steps@, runtime)
    }

    open spec fn takes(self, runtime: CudaRuntime, inputs: Seq<Matrix>) -> bool {
        chain_takes(self.steps@, configs_of(inputs))
    }

    open spec fn gives(
        self,
        end: Self,
        before: CudaRuntime,
        after: CudaRuntime,
        inputs: Seq<Matrix>,
        outputs: Seq<Matrix>,
    ) -> bool {
        &&& self.same_but_steps(end)
        &&& configs_of(outputs) == chain_outputs(self.steps@, configs_of(inputs))
        &&& values_of(after, outputs) == chain_image(
            self.steps@,
            before,
            values_of(before, inputs),
            configs_of(inputs),
        )
        &&& chain_ran(self.steps@, end.steps@, before, after, inputs, outputs)
    }

    open spec fn forgets(self, end: Self, before: CudaRuntime, after: CudaRuntime) -> bool {
        self.same_but_steps(end) && chain_forgot(self.steps@, end.steps@, before, after)
    }

    open spec fn data(self, runtime: CudaRuntime) -> Seq<Seq<Term>> {
        chain_data(self.steps@, runtime)
    }

    open spec fn data_sizes(self) -> Seq<usize> {
        chain_sizes(self.steps@)
    }

    fn forward(&mut self, inputs: Vec<Matrix>, runtime: &mut CudaRuntime) -> (r: Vec<Matrix>) {
        let ghost before = *runtime;
        let ghost start = self.steps@;
        let ghost given = inputs@;
        let steps = self.take_steps();
        let (steps, outputs) = run_chain(steps, inputs, runtime);
        proof {
            law_graphs_compute_their_steps(start, steps@, before, *runtime, given, outputs@);
        }
        self.steps = steps;
        outputs
    }

    fn clear_cache(&mut self, runtime: &mut CudaRuntime) {
        let steps = self.take_steps();
        self.steps = clear_chain(steps, runtime);
    }

    fn get_data(&self, runtime: &mut CudaRuntime) -> (r: Vec<HostRead>) {
        proof {
            assert(self.steps@.take(self.steps@.len() as int) =~= self.steps@);
        }
        read_chain(&self.steps, self.steps.len(), runtime)
    }

    fn set_data(&mut self, data: &mut HostDataCursor, runtime: &mut CudaRuntime) {
        let ghost before = *runtime;
        proof {
            assert(self.steps@.take(self.steps@.len() as int) =~= self.steps@);
        }
        load_chain(&self.steps, self.steps.len(), data, runtime);
        proof {
            lemma_chain_kept(self.steps@, before, *runtime);
        }
    }
}

impl TrainingNode for Graph<true> {
    open spec fn takes_gradients(self, runtime: CudaRuntime, gradients: Seq<Matrix>) -> bool {
        chain_awaits(self.steps@, configs_of(gradients))
    }

    open spec fn passes_back(
        self,
        end: Self,
        before: CudaRuntime,
        after: CudaRuntime,
        gradients: Seq<Matrix>,
        r: Seq<Matrix>,
    ) -> bool {
        &&& self.same_but_steps(end)
        &&& end.has_gradients()
        &&& configs_of(r) == chain_returned(self.steps@, configs_of(gradients))
        &&& chain_passed(self.steps@, end.steps@, before, after, gradients, r)
    }

    open spec fn has_gradients(self) -> bool {
        chain_ready(self.steps@)
    }

    open spec fn improves(
        self,
        end: Self,
        before: CudaRuntime,
        after: CudaRuntime,
        config: LearnConfig,
    ) -> bool {
        self.same_but_steps(end) && chain_improved(self.steps@, end.steps@, before, after, config)
    }

    fn backward(&mut self, gradients: Vec<Matrix>, runtime: &mut CudaRuntime) -> (r: Vec<Matrix>) {
        let steps = self.take_steps();
        let (steps, passed) = back_chain(steps, gradients, runtime);
        self.steps = steps;
        passed
    }

    fn learn(&mut self, config: LearnConfig, runtime: &mut CudaRuntime) {
        let steps = self.take_steps();
        self.steps = learn_chain(steps, config, runtime);
    }
}

impl<const TRAINING: bool> Branch<TRAINING> {
    /// Nothing but the steps is another.
    pub open spec fn same_but_steps(self, end: Self) -> bool {
        &&& end.input_config == self.input_config
        &&& end.output_config == self.output_config
        &&& end.loss == self.loss
        &&& end.learning_rate == self.learning_rate
        &&& end.training == self.training
    }

    /// Takes the steps out, to be put back once they have run.
    pub(crate) fn take_steps(&mut self) -> (r: Vec<Step<TRAINING>>)
        ensures
            r == old(self).steps,
            old(self).same_but_steps(*final(self)),
    {
        let mut steps: Vec<Step<TRAINING>> = Vec::new();
        core::mem::swap(&mut steps, &mut self.steps);
        steps
    }
}

impl<const TRAINING: bool> GraphNode for Branch<TRAINING> {
    open spec fn footprint(self) -> Set<usize> {
        chain_footprint(self.steps@)
    }

    open spec fn in_order(self, runtime: CudaRuntime) -> bool {
        chain_in_order(self.steps@, runtime)
    }

    open spec fn takes(self, runtime: CudaRuntime, inputs: Seq<Matrix>) -> bool {
        chain_takes(self.steps@, configs_of(inputs))
    }

    open spec fn gives(
        self,
        end: Self,
        before: CudaRuntime,
        after: CudaRuntime,
        inputs: Seq<Matrix>,
        outputs: Seq<Matrix>,
    ) -> bool {
        &&& self.same_but_steps(end)
        &&& configs_of(outputs) == chain_outputs(self.steps@, configs_of(inputs))
        &&& values_of(after, outputs) == chain_image(
            self.steps@,
            before,
            values_of(before, inputs),
            configs_of(inputs),
        )
        &&& chain_ran(self.steps@, end.steps@, before, after, inputs, outputs)
    }

    open spec fn forgets(self, end: Self, before: CudaRuntime, after: CudaRuntime) -> bool {
        self.same_but_steps(end) && chain_forgot(self.steps@, end.steps@, before, after)
    }

    open spec fn data(self, runtime: CudaRuntime) -> Seq<Seq<Term>> {
        chain_data(self.steps@, runtime)
    }

    open spec fn data_sizes(self) -> Seq<usize> {
        chain_sizes(self.steps@)
    }

    fn forward(&mut self, inputs: Vec<Matrix>, runtime: &mut CudaRuntime) -> (r: Vec<Matrix>) {
        let ghost before = *runtime;
        let ghost start = self.steps@;
        let ghost given = inputs@;
        let steps = self.take_steps();
        let (steps, outputs) = run_chain(steps, inputs, runtime);
        proof {
            law_graphs_compute_their_steps(start, steps@, before, *runtime, given, outputs@);
        }
        self.steps = steps;
        outputs
    }

    fn clear_cache(&mut self, runtime: &mut CudaRuntime) {
        let steps = self.take_steps();
        self.steps = clear_chain(steps, runtime);
    }

    fn get_data(&self, runtime: &mut CudaRuntime) -> (r: Vec<HostRead>) {
        proof {
            assert(self.steps@.take(self.steps@.len() as int) =~= self.steps@);
        }
        read_chain(&self.steps, self.steps.len(), runtime)
    }

    fn set_data(&mut self, data: &mut HostDataCursor, runtime: &mut CudaRuntime) {
        let ghost before = *runtime;
        proof {
            assert(self.steps@.take(self.steps@.len() as int) =~= self.steps@);
        }
        load_chain(&self.steps, self.steps.len(), data, runtime);
        proof {
            lemma_chain_kept(self.steps@, before, *runtime);
        }
    }
}

impl TrainingNode for Branch<true> {
    open spec fn takes_gradients(self, runtime: CudaRuntime, gradients: Seq<Matrix>) -> bool {
        chain_awaits(self.steps@, configs_of(gradients))
    }

    open spec fn passes_back(
        self,
        end: Self,
        before: CudaRuntime,
        after: CudaRuntime,
        gradients: Seq<Matrix>,
        r: Seq<Matrix>,
    ) -> bool {
        &&& self.same_but_steps(end)
        &&& end.has_gradients()
        &&& configs_of(r) == chain_returned(self.steps@, configs_of(gradients))
        &&& chain_passed(self.steps@, end.steps@, before, after, gradients, r)
    }

    open spec fn has_gradients(self) -> bool {
        chain_ready(self.steps@)
    }

    open spec fn improves(
        self,
        end: Self,
        before: CudaRuntime,
        after: CudaRuntime,
        config: LearnConfig,
    ) -> bool {
        self.same_but_steps(end) && chain_improved(self.steps@, end.steps@, before, after, config)
    }

    fn backward(&mut self, gradients: Vec<Matrix>, runtime: &mut CudaRuntime) -> (r: Vec<Matrix>) {
        let steps = self.take_steps();
        let (steps, passed) = back_chain(steps, gradients, runtime);
        self.steps = steps;
        passed
    }

    fn learn(&mut self, config: LearnConfig, runtime: &mut CudaRuntime) {
        let steps = self.take_steps();
        self.steps = learn_chain(steps, config, runtime);
    }
}

} // verus!
