//! The parameters of a graph in checkpoint order.

use vstd::prelude::*;

use super::{branches_footprint, branches_in_order, chain_footprint, chain_in_order};
use crate::cuda::algebra::Term;
use crate::cuda::runtime::CudaRuntime;
use crate::graph::compile::{Branch, Step};
use crate::graph::graph_node::{lemma_took_nothing, read_nothing, supplies, GraphNode};
use crate::net::linear::{lemma_read_out_append, lemma_took_append, loaded, took};
use crate::net::metadata::{HostDataCursor, HostRead};

verus! {

impl<const TRAINING: bool> Step<TRAINING> {
    /// The parameters of the step.
    pub open spec fn data(self, runtime: CudaRuntime) -> Seq<Seq<Term>>
        decreases self,
    {
        match self {
            Step::Node(node) => node.data(runtime),
            Step::Branches(branches) => branches_data(branches@, runtime),
        }
    }

    /// The sizes of the step's parameters.
    pub open spec fn data_sizes(self) -> Seq<usize>
        decreases self,
    {
        match self {
            Step::Node(node) => node.data_sizes(),
            Step::Branches(branches) => branches_sizes(branches@),
        }
    }
}

/// The parameters of steps.
pub open spec fn chain_data<const TRAINING: bool>(
    steps: Seq<Step<TRAINING>>,
    runtime: CudaRuntime,
) -> Seq<Seq<Term>>
    decreases steps,
{
    if steps.len() == 0 {
        Seq::empty()
    } else {
        chain_data(steps.drop_last(), runtime) + steps.last().data(runtime)
    }
}

/// The parameters of branches.
pub open spec fn branches_data<const TRAINING: bool>(
    branches: Seq<Branch<TRAINING>>,
    runtime: CudaRuntime,
) -> Seq<Seq<Term>>
    decreases branches,
{
    if branches.len() == 0 {
        Seq::empty()
    } else {
        branches_data(branches.drop_last(), runtime) + chain_data(branches.last().steps@, runtime)
    }
}

/// The sizes of the parameters of steps.
pub open spec fn chain_sizes<const TRAINING: bool>(steps: Seq<Step<TRAINING>>) -> Seq<usize>
    decreases steps,
{
    if steps.len() == 0 {
        Seq::empty()
    } else {
        chain_sizes(steps.drop_last()) + steps.last().data_sizes()
    }
}

/// The sizes of the parameters of branches.
pub open spec fn branches_sizes<const TRAINING: bool>(branches: Seq<Branch<TRAINING>>) -> Seq<usize>
    decreases branches,
{
    if branches.len() == 0 {
        Seq::empty()
    } else {
        branches_sizes(branches.drop_last()) + chain_sizes(branches.last().steps@)
    }
}

/// No buffer went between two moments.
pub open spec fn keeps_buffers(before: CudaRuntime, after: CudaRuntime) -> bool {
    &&& before.live@.subset_of(after.live@)
    &&& before.buffers@.len() <= after.buffers@.len()
    &&& forall|id: usize|
        #![trigger after.buffers@[id as int]]
        id < before.buffers@.len() ==> after.buffers@[id as int] == before.buffers@[id as int]
}

/// Steps stay in order while no buffer goes.
pub proof fn lemma_chain_kept<const TRAINING: bool>(
    steps: Seq<Step<TRAINING>>,
    before: CudaRuntime,
    after: CudaRuntime,
)
    requires
        before.wf(),
        chain_in_order(steps, before),
        keeps_buffers(before, after),
    ensures
        chain_in_order(steps, after),
        chain_footprint(steps).subset_of(before.live@),
    decreases steps,
{
    if steps.len() > 0 {
        lemma_chain_kept(steps.drop_last(), before, after);
        assert(decreases_to!(steps => steps[steps.len() - 1]));
        lemma_step_kept(steps.last(), before, after);
    }
}

/// A step stays in order while no buffer goes.
pub proof fn lemma_step_kept<const TRAINING: bool>(
    step: Step<TRAINING>,
    before: CudaRuntime,
    after: CudaRuntime,
)
    requires
        before.wf(),
        step.in_order(before),
        keeps_buffers(before, after),
    ensures
        step.in_order(after),
        step.footprint().subset_of(before.live@),
    decreases step,
{
    match step {
        Step::Node(node) => {
            node.lemma_kept(before, after);
        },
        Step::Branches(branches) => {
            assert(decreases_to!(step => branches));
            assert(decreases_to!(branches => branches@));
            lemma_branches_kept(branches@, before, after);
        },
    }
}

/// Branches stay in order while no buffer goes.
pub proof fn lemma_branches_kept<const TRAINING: bool>(
    branches: Seq<Branch<TRAINING>>,
    before: CudaRuntime,
    after: CudaRuntime,
)
    requires
        before.wf(),
        branches_in_order(branches, before),
        keeps_buffers(before, after),
    ensures
        branches_in_order(branches, after),
        branches_footprint(branches).subset_of(before.live@),
    decreases branches,
{
    if branches.len() > 0 {
        let last = branches.last();
        lemma_branches_kept(branches.drop_last(), before, after);
        assert(decreases_to!(branches => branches[branches.len() - 1]));
        assert(decreases_to!(last => last.steps));
        assert(decreases_to!(last.steps => last.steps@));
        lemma_chain_kept(last.steps@, before, after);
    }
}

/// The parameters of steps stay while their buffers do.
pub proof fn lemma_chain_data_kept<const TRAINING: bool>(
    steps: Seq<Step<TRAINING>>,
    before: CudaRuntime,
    after: CudaRuntime,
)
    requires
        forall|id: usize| #[trigger]
            chain_footprint(steps).contains(id) ==> after.mem(id) == before.mem(id),
    ensures
        chain_data(steps, after) == chain_data(steps, before),
    decreases steps,
{
    if steps.len() > 0 {
        let front = steps.drop_last();
        let last = steps.last();
        assert forall|id: usize| #[trigger] chain_footprint(front).contains(id) implies after.mem(id)
            == before.mem(id) by {
            assert(chain_footprint(steps).contains(id));
        }
        assert forall|id: usize| #[trigger] last.footprint().contains(id) implies after.mem(id)
            == before.mem(id) by {
            assert(chain_footprint(steps).contains(id));
        }
        lemma_chain_data_kept(front, before, after);
        assert(decreases_to!(steps => steps[steps.len() - 1]));
        lemma_step_data_kept(last, before, after);
    }
}

/// The parameters of a step stay while its buffers do.
pub proof fn lemma_step_data_kept<const TRAINING: bool>(
    step: Step<TRAINING>,
    before: CudaRuntime,
    after: CudaRuntime,
)
    requires
        forall|id: usize| #[trigger]
            step.footprint().contains(id) ==> after.mem(id) == before.mem(id),
    ensures
        step.data(after) == step.data(before),
    decreases step,
{
    match step {
        Step::Node(node) => {
            assert(step.footprint() == node.footprint());
            node.lemma_data_kept(before, after);
        },
        Step::Branches(branches) => {
            assert(step.footprint() == branches_footprint(branches@));
            assert(decreases_to!(step => branches));
            assert(decreases_to!(branches => branches@));
            lemma_branches_data_kept(branches@, before, after);
        },
    }
}

/// The parameters of branches stay while their buffers do.
pub proof fn lemma_branches_data_kept<const TRAINING: bool>(
    branches: Seq<Branch<TRAINING>>,
    before: CudaRuntime,
    after: CudaRuntime,
)
    requires
        forall|id: usize| #[trigger]
            branches_footprint(branches).contains(id) ==> after.mem(id) == before.mem(id),
    ensures
        branches_data(branches, after) == branches_data(branches, before),
    decreases branches,
{
    if branches.len() > 0 {
        let front = branches.drop_last();
        let last = branches.last();
        assert forall|id: usize| #[trigger]
            branches_footprint(front).contains(id) implies after.mem(id) == before.mem(id) by {
            assert(branches_footprint(branches).contains(id));
        }
        assert forall|id: usize| #[trigger]
            chain_footprint(last.steps@).contains(id) implies after.mem(id) == before.mem(id) by {
            assert(branches_footprint(branches).contains(id));
        }
        lemma_branches_data_kept(front, before, after);
        assert(decreases_to!(branches => branches[branches.len() - 1]));
        assert(decreases_to!(last => last.steps));
        assert(decreases_to!(last.steps => last.steps@));
        lemma_chain_data_kept(last.steps@, before, after);
    }
}

/// Brings the parameters of the first steps to the host in checkpoint order.
pub(crate) fn read_chain<const TRAINING: bool>(
    steps: &Vec<Step<TRAINING>>,
    count: usize,
    runtime: &mut CudaRuntime,
) -> (r: Vec<HostRead>)
    requires
        old(runtime).wf(),
        count <= steps@.len(),
        chain_in_order(steps@.take(count as int), *old(runtime)),
    ensures
        final(runtime).read_out(
            *old(runtime),
            r@,
            chain_data(steps@.take(count as int), *old(runtime)),
        ),
    decreases steps@.take(count as int), 0nat,
{
    if count == 0 {
        return read_nothing(runtime);
    }
    let ghost before = *runtime;
    let ghost all = steps@.take(count as int);
    let ghost front = steps@.take(count - 1);
    let ghost step = steps@[count - 1];
    proof {
        assert(all.drop_last() =~= front);
        assert(all.last() == step);
        assert(front =~= all.subrange(0, count - 1));
        assert(decreases_to!(all => all.subrange(0, count - 1)));
        assert(decreases_to!(all => all[count - 1]));
        assert(step.in_order(before));
    }
    let mut reads = read_chain(steps, count - 1, runtime);
    let ghost s1 = *runtime;
    let ghost first = reads@;
    proof {
        lemma_step_kept(step, before, s1);
        assert forall|id: usize| #[trigger] step.footprint().contains(id) implies s1.mem(id)
            == before.mem(id) by {
            assert(before.live@.contains(id));
        }
        lemma_step_data_kept(step, before, s1);
    }
    let mut next = match &steps[count - 1] {
        Step::Node(node) => {
            assert(node.in_order(s1));
            GraphNode::get_data(node, runtime)
        },
        Step::Branches(branches) => {
            proof {
                assert(decreases_to!(step => branches));
                assert(decreases_to!(branches => branches@));
                assert(branches@.take(branches@.len() as int) =~= branches@);
                assert(branches_in_order(branches@, s1));
            }
            read_branches(branches, branches.len(), runtime)
        },
    };
    proof {
        assert(runtime.read_out(s1, next@, step.data(s1)));
        lemma_read_out_append(
            before,
            s1,
            *runtime,
            first,
            next@,
            chain_data(front, before),
            step.data(before),
        );
        assert(chain_data(all, before) == chain_data(front, before) + step.data(before));
    }
    reads.append(&mut next);
    reads
}

/// The same for the first branches.
pub(crate) fn read_branches<const TRAINING: bool>(
    branches: &Vec<Branch<TRAINING>>,
    count: usize,
    runtime: &mut CudaRuntime,
) -> (r: Vec<HostRead>)
    requires
        old(runtime).wf(),
        count <= branches@.len(),
        branches_in_order(branches@.take(count as int), *old(runtime)),
    ensures
        final(runtime).read_out(
            *old(runtime),
            r@,
            branches_data(branches@.take(count as int), *old(runtime)),
        ),
    decreases branches@.take(count as int), 0nat,
{
    if count == 0 {
        return read_nothing(runtime);
    }
    let ghost before = *runtime;
    let ghost all = branches@.take(count as int);
    let ghost front = branches@.take(count - 1);
    let ghost last = branches@[count - 1];
    proof {
        assert(all.drop_last() =~= front);
        assert(all.last() == last);
        assert(front =~= all.subrange(0, count - 1));
        assert(decreases_to!(all => all.subrange(0, count - 1)));
        assert(decreases_to!(all => all[count - 1]));
        assert(decreases_to!(last => last.steps));
        assert(decreases_to!(last.steps => last.steps@));
        assert(last.steps@.take(last.steps@.len() as int) =~= last.steps@);
    }
    let mut reads = read_branches(branches, count - 1, runtime);
    let ghost s1 = *runtime;
    let ghost first = reads@;
    proof {
        lemma_chain_kept(last.steps@, before, s1);
        assert forall|id: usize| #[trigger] chain_footprint(last.steps@).contains(id) implies s1.mem(
            id,
        ) == before.mem(id) by {
            assert(before.live@.contains(id));
        }
        lemma_chain_data_kept(last.steps@, before, s1);
    }
    let branch = &branches[count - 1];
    let mut next = read_chain(&branch.steps, branch.steps.len(), runtime);
    proof {
        lemma_read_out_append(
            before,
            s1,
            *runtime,
            first,
            next@,
            branches_data(front, before),
            chain_data(last.steps@, before),
        );
    }
    reads.append(&mut next);
    reads
}

/// A source that goes on with two lists of values goes on with the first, and then with
/// the second.
proof fn lemma_supplies_both(
    source: HostDataCursor,
    here: HostDataCursor,
    first: Seq<usize>,
    second: Seq<usize>,
)
    requires
        supplies(source, first + second),
        here.wf(),
        here.data@ == source.data@.skip(first.len() as int),
    ensures
        supplies(source, first),
        supplies(here, second),
{
    let both = first + second;
    assert forall|k: int| 0 <= k < first.len() implies (#[trigger] source.data@[k]).values@.len()
        == first[k] by {
        assert(both[k] == first[k]);
    }
    assert forall|k: int| 0 <= k < second.len() implies (#[trigger] here.data@[k]).values@.len()
        == second[k] by {
        assert(here.data@[k] == source.data@[first.len() + k]);
        assert(both[first.len() + k] == second[k]);
    }
}

/// The first of two lists of values.
proof fn lemma_supplies_first(source: HostDataCursor, first: Seq<usize>, second: Seq<usize>)
    requires
        supplies(source, first + second),
    ensures
        supplies(source, first),
{
    let both = first + second;
    assert forall|k: int| 0 <= k < first.len() implies (#[trigger] source.data@[k]).values@.len()
        == first[k] by {
        assert(both[k] == first[k]);
    }
}

/// Replaces the parameters of the first steps by the next ones of a source: only device
/// memory changes.
pub(crate) fn load_chain<const TRAINING: bool>(
    steps: &Vec<Step<TRAINING>>,
    count: usize,
    data: &mut HostDataCursor,
    runtime: &mut CudaRuntime,
)
    requires
        old(runtime).wf(),
        count <= steps@.len(),
        chain_in_order(steps@.take(count as int), *old(runtime)),
        supplies(*old(data), chain_sizes(steps@.take(count as int))),
    ensures
        took(
            *old(runtime),
            *final(runtime),
            *old(data),
            *final(data),
            chain_sizes(steps@.take(count as int)).len(),
            |id: usize| chain_footprint(steps@.take(count as int)).contains(id),
        ),
        chain_data(steps@.take(count as int), *final(runtime)) == loaded(
            old(data).data@,
            chain_sizes(steps@.take(count as int)).len(),
        ),
    decreases steps@.take(count as int), 0nat,
{
    let ghost before = *runtime;
    let ghost source = *data;
    let ghost all = steps@.take(count as int);
    let ghost own = chain_footprint(all);
    if count == 0 {
        proof {
            lemma_took_nothing(before, source, |id: usize| own.contains(id));
        }
        return;
    }
    let ghost front = steps@.take(count - 1);
    let ghost step = steps@[count - 1];
    let ghost f0 = chain_footprint(front);
    let ghost f1 = step.footprint();
    let ghost n0 = chain_sizes(front).len();
    let ghost n1 = step.data_sizes().len();
    proof {
        assert(all.drop_last() =~= front);
        assert(all.last() == step);
        assert(front =~= all.subrange(0, count - 1));
        assert(decreases_to!(all => all.subrange(0, count - 1)));
        assert(decreases_to!(all => all[count - 1]));
        assert(step.in_order(before));
        lemma_supplies_first(source, chain_sizes(front), step.data_sizes());
    }
    load_chain(steps, count - 1, data, runtime);
    let ghost s1 = *runtime;
    let ghost here = *data;
    proof {
        lemma_step_kept(step, before, s1);
        lemma_chain_kept(front, before, s1);
        lemma_supplies_both(source, here, chain_sizes(front), step.data_sizes());
    }
    match &steps[count - 1] {
        Step::Node(node) => {
            assert(node.in_order(s1));
            node.load(data, runtime);
        },
        Step::Branches(branches) => {
            proof {
                assert(decreases_to!(step => branches));
                assert(decreases_to!(branches => branches@));
                assert(branches@.take(branches@.len() as int) =~= branches@);
                assert(branches_in_order(branches@, s1));
            }
            load_branches(branches, branches.len(), data, runtime);
        },
    }
    proof {
        let s2 = *runtime;
        assert(took(s1, s2, here, *data, n1, |id: usize| f1.contains(id)));
        assert(step.data(s2) == loaded(here.data@, n1));
        lemma_took_append(
            before,
            s1,
            s2,
            source,
            here,
            *data,
            n0,
            n1,
            |id: usize| f0.contains(id),
            |id: usize| f1.contains(id),
            |id: usize| own.contains(id),
        );
        assert forall|id: usize| #[trigger] f0.contains(id) implies s2.mem(id) == s1.mem(id) by {
            assert(before.live@.contains(id));
            assert(!f1.contains(id));
        }
        lemma_chain_data_kept(front, s1, s2);
        assert(chain_data(all, s2) == chain_data(front, s2) + step.data(s2));
    }
}

/// The same for the first branches.
pub(crate) fn load_branches<const TRAINING: bool>(
    branches: &Vec<Branch<TRAINING>>,
    count: usize,
    data: &mut HostDataCursor,
    runtime: &mut CudaRuntime,
)
    requires
        old(runtime).wf(),
        count <= branches@.len(),
        branches_in_order(branches@.take(count as int), *old(runtime)),
        supplies(*old(data), branches_sizes(branches@.take(count as int))),
    ensures
        took(
            *old(runtime),
            *final(runtime),
            *old(data),
            *final(data),
            branches_sizes(branches@.take(count as int)).len(),
            |id: usize| branches_footprint(branches@.take(count as int)).contains(id),
        ),
        branches_data(branches@.take(count as int), *final(runtime)) == loaded(
            old(data).data@,
            branches_sizes(branches@.take(count as int)).len(),
        ),
    decreases branches@.take(count as int), 0nat,
{
    let ghost before = *runtime;
    let ghost source = *data;
    let ghost all = branches@.take(count as int);
    let ghost own = branches_footprint(all);
    if count == 0 {
        proof {
            lemma_took_nothing(before, source, |id: usize| own.contains(id));
        }
        return;
    }
    let ghost front = branches@.take(count - 1);
    let ghost last = branches@[count - 1];
    let ghost f0 = branches_footprint(front);
    let ghost f1 = chain_footprint(last.steps@);
    let ghost n0 = branches_sizes(front).len();
    let ghost n1 = chain_sizes(last.steps@).len();
    proof {
        assert(all.drop_last() =~= front);
        assert(all.last() == last);
        assert(front =~= all.subrange(0, count - 1));
        assert(decreases_to!(all => all.subrange(0, count - 1)));
        assert(decreases_to!(all => all[count - 1]));
        assert(decreases_to!(last => last.steps));
        assert(decreases_to!(last.steps => last.steps@));
        assert(last.steps@.take(last.steps@.len() as int) =~= last.steps@);
        lemma_supplies_first(source, branches_sizes(front), chain_sizes(last.steps@));
    }
    load_branches(branches, count - 1, data, runtime);
    let ghost s1 = *runtime;
    let ghost here = *data;
    proof {
        lemma_chain_kept(last.steps@, before, s1);
        lemma_branches_kept(front, before, s1);
        lemma_supplies_both(source, here, branches_sizes(front), chain_sizes(last.steps@));
    }
    let branch = &branches[count - 1];
    load_chain(&branch.steps, branch.steps.len(), data, runtime);
    proof {
        let s2 = *runtime;
        assert(took(s1, s2, here, *data, n1, |id: usize| f1.contains(id)));
        lemma_took_append(
            before,
            s1,
            s2,
            source,
            here,
            *data,
            n0,
            n1,
            |id: usize| f0.contains(id),
            |id: usize| f1.contains(id),
            |id: usize| own.contains(id),
        );
        assert forall|id: usize| #[trigger] f0.contains(id) implies s2.mem(id) == s1.mem(id) by {
            assert(before.live@.contains(id));
            assert(!f1.contains(id));
        }
        lemma_branches_data_kept(front, s1, s2);
    }
}

/// Steps list their data in order: first what the earlier ones hold, then the later ones.
pub proof fn law_steps_list_their_data_in_order<const TRAINING: bool>(
    earlier: Seq<Step<TRAINING>>,
    later: Seq<Step<TRAINING>>,
    runtime: CudaRuntime,
)
    ensures
        chain_data(earlier + later, runtime) == chain_data(earlier, runtime) + chain_data(
            later,
            runtime,
        ),
        later.len() == 1 ==> chain_data(later, runtime) == later[0].data(runtime),
    decreases later.len(),
{
    let all = earlier + later;
    if later.len() == 0 {
        assert(all =~= earlier);
        assert(chain_data(later, runtime) =~= Seq::empty());
        assert(chain_data(earlier, runtime) + chain_data(later, runtime) =~= chain_data(
            earlier,
            runtime,
        ));
    } else {
        law_steps_list_their_data_in_order(earlier, later.drop_last(), runtime);
        assert(all.drop_last() =~= earlier + later.drop_last());
        assert(all.last() == later.last());
        assert(chain_data(all, runtime) =~= chain_data(earlier, runtime) + chain_data(
            later,
            runtime,
        ));
        if later.len() == 1 {
            assert(chain_data(later.drop_last(), runtime) =~= Seq::empty());
            assert(chain_data(later, runtime) =~= later[0].data(runtime));
        }
    }
}

} // verus!
