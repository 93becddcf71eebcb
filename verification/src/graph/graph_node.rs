//! What every block of a graph does.

pub mod any;
pub mod graphs;
pub mod inference;
pub mod layers;
pub mod learning;
pub mod training;

use vstd::prelude::*;

use crate::cuda::algebra::{literals, Term};
use crate::cuda::container::{ids, Matrix};
use crate::cuda::runtime::{chosen, CudaRuntime};
use crate::graph::config::LearnConfig;
use crate::net::linear::{loaded, took};
use crate::net::metadata::{HostDataCursor, HostRead};

verus! {

broadcast use crate::cuda::runtime::group_streams;

/// A block that takes matrices in and gives matrices out.
///
/// A block owns buffers: its parameters, its training state and what it retains
/// between two passes. Whatever it does, it exchanges its own buffers and those
/// handed to it for its own buffers and those it hands out, and touches no other.
pub trait GraphNode: Sized {
    /// The buffers that the block owns.
    spec fn footprint(self) -> Set<usize>;

    /// The invariant.
    spec fn in_order(self, runtime: CudaRuntime) -> bool;

    /// Inputs of a forward pass.
    spec fn takes(self, runtime: CudaRuntime, inputs: Seq<Matrix>) -> bool;

    /// What a forward pass makes of its inputs, and what the block becomes.
    spec fn gives(
        self,
        end: Self,
        before: CudaRuntime,
        after: CudaRuntime,
        inputs: Seq<Matrix>,
        outputs: Seq<Matrix>,
    ) -> bool;

    /// What the block becomes when it forgets what it retains.
    spec fn forgets(self, end: Self, before: CudaRuntime, after: CudaRuntime) -> bool;

    /// The parameters in checkpoint order.
    spec fn data(self, runtime: CudaRuntime) -> Seq<Seq<Term>>;

    /// The sizes of the parameters in checkpoint order.
    spec fn data_sizes(self) -> Seq<usize>;

    /// Runs the block on inputs that it takes over.
    fn forward(&mut self, inputs: Vec<Matrix>, runtime: &mut CudaRuntime) -> (r: Vec<Matrix>)
        requires
            old(runtime).wf(),
            old(self).in_order(*old(runtime)),
            old(runtime).holds_all(inputs@),
            old(self).footprint().disjoint(ids(inputs@)),
            old(self).takes(*old(runtime), inputs@),
        ensures
            final(self).in_order(*final(runtime)),
            final(runtime).holds_all(r@),
            final(self).footprint().disjoint(ids(r@)),
            final(runtime).replaced(
                *old(runtime),
                old(self).footprint().union(ids(inputs@)),
                final(self).footprint().union(ids(r@)),
            ),
            old(self).gives(*final(self), *old(runtime), *final(runtime), inputs@, r@),
    ;

    /// Gives back what the block retains.
    fn clear_cache(&mut self, runtime: &mut CudaRuntime)
        requires
            old(runtime).wf(),
            old(self).in_order(*old(runtime)),
        ensures
            final(self).in_order(*final(runtime)),
            final(runtime).replaced(
                *old(runtime),
                old(self).footprint(),
                final(self).footprint(),
            ),
            old(self).forgets(*final(self), *old(runtime), *final(runtime)),
    ;

    /// Brings the parameters to the host in checkpoint order.
    fn get_data(&self, runtime: &mut CudaRuntime) -> (r: Vec<HostRead>)
        requires
            old(runtime).wf(),
            self.in_order(*old(runtime)),
        ensures
            final(runtime).read_out(*old(runtime), r@, self.data(*old(runtime))),
    ;

    /// Replaces the parameters by the next ones of a source.
    fn set_data(&mut self, data: &mut HostDataCursor, runtime: &mut CudaRuntime)
        requires
            old(runtime).wf(),
            old(self).in_order(*old(runtime)),
            supplies(*old(data), old(self).data_sizes()),
        ensures
            *final(self) == *old(self),
            final(self).in_order(*final(runtime)),
            took(
                *old(runtime),
                *final(runtime),
                *old(data),
                *final(data),
                old(self).data_sizes().len(),
                |id: usize| old(self).footprint().contains(id),
            ),
            final(self).data(*final(runtime)) == loaded(
                old(data).data@,
                old(self).data_sizes().len(),
            ),
    ;
}

/// A block that can also pass gradients back and learn from them.
pub trait TrainingNode: GraphNode {
    /// Gradients that a backward pass accepts.
    spec fn takes_gradients(self, runtime: CudaRuntime, gradients: Seq<Matrix>) -> bool;

    /// What a backward pass makes of its gradients, and what the block becomes.
    spec fn passes_back(
        self,
        end: Self,
        before: CudaRuntime,
        after: CudaRuntime,
        gradients: Seq<Matrix>,
        r: Seq<Matrix>,
    ) -> bool;

    /// Every parameter has a gradient.
    spec fn has_gradients(self) -> bool;

    /// What an optimizer step does.
    spec fn improves(
        self,
        end: Self,
        before: CudaRuntime,
        after: CudaRuntime,
        config: LearnConfig,
    ) -> bool;

    /// Passes gradients of the outputs back to the inputs.
    fn backward(&mut self, gradients: Vec<Matrix>, runtime: &mut CudaRuntime) -> (r: Vec<Matrix>)
        requires
            old(runtime).wf(),
            old(self).in_order(*old(runtime)),
            old(runtime).holds_all(gradients@),
            old(self).footprint().disjoint(ids(gradients@)),
            old(self).takes_gradients(*old(runtime), gradients@),
        ensures
            final(self).in_order(*final(runtime)),
            final(runtime).holds_all(r@),
            final(self).footprint().disjoint(ids(r@)),
            final(runtime).replaced(
                *old(runtime),
                old(self).footprint().union(ids(gradients@)),
                final(self).footprint().union(ids(r@)),
            ),
            old(self).passes_back(*final(self), *old(runtime), *final(runtime), gradients@, r@),
    ;

    /// Applies the gradients of the preceding backward passes. A graph calls this only
    /// once every block has completed its backward pass.
    fn learn(&mut self, config: LearnConfig, runtime: &mut CudaRuntime)
        requires
            old(runtime).wf(),
            old(self).in_order(*old(runtime)),
            config.valid(),
            old(self).has_gradients(),
        ensures
            final(self).in_order(*final(runtime)),
            final(runtime).replaced(
                *old(runtime),
                old(self).footprint(),
                final(self).footprint(),
            ),
            old(self).improves(*final(self), *old(runtime), *final(runtime), config),
    ;
}

/// Whether a source goes on with values of these sizes.
pub open spec fn supplies(source: HostDataCursor, sizes: Seq<usize>) -> bool {
    &&& source.wf()
    &&& source.data@.len() >= sizes.len()
    &&& forall|k: int|
        0 <= k < sizes.len() ==> (#[trigger] source.data@[k]).values@.len() == sizes[k]
}

/// Parameters that were loaded come back as they were: what a block reads out afterwards
/// are the loaded values, in the same order.
pub proof fn law_data_comes_back<T: GraphNode>(
    block: T,
    before: CudaRuntime,
    stored: CudaRuntime,
    after: CudaRuntime,
    source: HostDataCursor,
    rest: HostDataCursor,
    reads: Seq<HostRead>,
)
    requires
        took(
            before,
            stored,
            source,
            rest,
            block.data_sizes().len(),
            |id: usize| block.footprint().contains(id),
        ),
        block.data(stored) == loaded(source.data@, block.data_sizes().len()),
        after.read_out(stored, reads, block.data(stored)),
    ensures
        reads.len() == block.data_sizes().len(),
        forall|k: int|
            #![trigger reads[k]]
            0 <= k < reads.len() ==> {
                &&& reads[k].len == source.data@[k].values@.len()
                &&& after.device@.downloads[reads[k].download as int] == literals(
                    source.data@[k].values@,
                )
            },
{
    assert forall|k: int| #![trigger reads[k]] 0 <= k < reads.len() implies reads[k].len
        == source.data@[k].values@.len() && after.device@.downloads[reads[k].download as int]
        == literals(source.data@[k].values@) by {
        assert(block.data(stored)[k] == literals(source.data@[k].values@));
    }
}

/// One matrix makes a list of one buffer.
pub proof fn lemma_one(m: Matrix)
    ensures
        ids(seq![m]) == set![m.buffer.id],
{
    let one = seq![m];
    assert(one[0] == m);
    assert(ids(one) =~= set![m.buffer.id]);
}

/// A list of one live matrix is live, and nothing in it shares a buffer.
pub proof fn lemma_one_held(m: Matrix, runtime: CudaRuntime)
    requires
        runtime.holds(m),
    ensures
        runtime.holds_all(seq![m]),
        ids(seq![m]) == set![m.buffer.id],
{
    lemma_one(m);
    let one = seq![m];
    assert forall|i: int| 0 <= i < one.len() implies runtime.holds(#[trigger] one[i]) by {}
}

/// The parameters of a block that has none.
pub(crate) fn read_nothing(runtime: &mut CudaRuntime) -> (r: Vec<HostRead>)
    requires
        old(runtime).wf(),
    ensures
        *final(runtime) == *old(runtime),
        final(runtime).read_out(*old(runtime), r@, Seq::empty()),
{
    proof {
        runtime.lemma_ran_on_nothing(chosen(None));
        assert(runtime.device@.downloads + Seq::<Seq<Term>>::empty() =~= runtime.device@.downloads);
    }
    Vec::new()
}

/// Loading no parameters leaves everything as it is.
pub proof fn lemma_took_nothing(
    runtime: CudaRuntime,
    source: HostDataCursor,
    changed: spec_fn(usize) -> bool,
)
    requires
        runtime.wf(),
        source.wf(),
    ensures
        took(runtime, runtime, source, source, 0, changed),
        loaded(source.data@, 0) == Seq::<Seq<Term>>::empty(),
{
    runtime.lemma_ran_on_nothing(chosen(None));
    assert(source.data@.skip(0) =~= source.data@);
    assert(loaded(source.data@, 0) =~= Seq::<Seq<Term>>::empty());
}

} // verus!
