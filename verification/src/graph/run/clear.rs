//! Forgetting what steps retain.

use vstd::prelude::*;

use super::{
    branches_footprint, branches_in_order, chain_footprint, chain_in_order, lemma_branches_spared,
    lemma_chain_spared, lemma_in_turn, lemma_step_spared, moment, same_branch,
};
use crate::cuda::runtime::CudaRuntime;
use crate::graph::compile::{Branch, Step};
use crate::graph::graph_node::GraphNode;

verus! {

broadcast use crate::cuda::runtime::group_streams;

impl<const TRAINING: bool> Step<TRAINING> {
    /// The step gave back what it retained.
    pub open spec fn forgot(
        self,
        end: Self,
        before: CudaRuntime,
        after: CudaRuntime,
    ) -> bool
        decreases self,
    {
        &&& after.replaced(before, self.footprint(), end.footprint())
        &&& match (self, end) {
            (Step::Node(node), Step::Node(last)) => node.forgets(last, before, after),
            (Step::Branches(branches), Step::Branches(ends)) => branches_forgot(
                branches@,
                ends@,
                before,
                after,
            ),
            _ => false,
        }
    }
}

/// Steps gave back what they retained, one after the other.
pub open spec fn chain_forgot<const TRAINING: bool>(
    steps: Seq<Step<TRAINING>>,
    ends: Seq<Step<TRAINING>>,
    before: CudaRuntime,
    after: CudaRuntime,
) -> bool
    decreases steps,
{
    &&& ends.len() == steps.len()
    &&& if steps.len() == 0 {
        after == before
    } else {
        exists|middle: CudaRuntime|
            {
                &&& #[trigger] moment(middle, Seq::empty())
                &&& chain_forgot(steps.drop_last(), ends.drop_last(), before, middle)
                &&& steps.last().forgot(ends.last(), middle, after)
            }
    }
}

/// The same for branches.
pub open spec fn branches_forgot<const TRAINING: bool>(
    branches: Seq<Branch<TRAINING>>,
    ends: Seq<Branch<TRAINING>>,
    before: CudaRuntime,
    after: CudaRuntime,
) -> bool
    decreases branches,
{
    &&& ends.len() == branches.len()
    &&& if branches.len() == 0 {
        after == before
    } else {
        &&& same_branch(branches.last(), ends.last())
        &&& exists|middle: CudaRuntime|
            {
                &&& #[trigger] moment(middle, Seq::empty())
                &&& branches_forgot(
                    branches.drop_last(),
                    ends.drop_last(),
                    before,
                    middle,
                )
                &&& chain_forgot(
                    branches.last().steps@,
                    ends.last().steps@,
                    middle,
                    after,
                )
            }
    }
}

/// Gives back what steps retain, one step after the other.
pub fn clear_chain<const TRAINING: bool>(
    steps: Vec<Step<TRAINING>>,
    runtime: &mut CudaRuntime,
) -> (r: Vec<Step<TRAINING>>)
    requires
        old(runtime).wf(),
        chain_in_order(steps@, *old(runtime)),
    ensures
        chain_in_order(r@, *final(runtime)),
        final(runtime).replaced(*old(runtime), chain_footprint(steps@), chain_footprint(r@)),
        chain_forgot(steps@, r@, *old(runtime), *final(runtime)),
    decreases steps@, 0nat,
{
    let ghost before = *runtime;
    let ghost all = steps@;
    let mut steps = steps;
    let last = match steps.pop() {
        Some(last) => last,
        None => {
            proof {
                before.lemma_replaced_nothing(Set::empty());
                assert(steps@ =~= all);
            }
            return steps;
        },
    };
    let ghost front = steps@;
    let ghost step = last;
    proof {
        assert(front =~= all.drop_last());
        assert(step == all.last());
        before.lemma_replaced_nothing(Set::empty());
        lemma_step_spared(step, before, before, Set::empty(), Set::empty());
        lemma_chain_spared(front, before, before, Set::empty(), Set::empty());
        assert(decreases_to!(all => front));
        assert(decreases_to!(all => all[all.len() - 1]));
    }
    let mut done = clear_chain(steps, runtime);
    let ghost s1 = *runtime;
    let ghost front_end = done@;
    proof {
        lemma_step_spared(step, before, s1, chain_footprint(front), chain_footprint(front_end));
    }
    let last = match last {
        Step::Node(node) => {
            let mut node = node;
            let ghost start = node;
            GraphNode::clear_cache(&mut node, runtime);
            proof {
                let end = Step::<TRAINING>::Node(node);
                assert(step == Step::<TRAINING>::Node(start));
                assert(end.in_order(*runtime));
                assert(step.forgot(end, s1, *runtime));
            }
            Step::Node(node)
        },
        Step::Branches(branches) => {
            proof {
                assert(decreases_to!(step => branches));
                assert(decreases_to!(branches => branches@));
            }
            let branches = clear_branches(branches, runtime);
            proof {
                let end = Step::<TRAINING>::Branches(branches);
                assert(end.in_order(*runtime));
                assert(step.forgot(end, s1, *runtime));
            }
            Step::Branches(branches)
        },
    };
    let ghost end = last;
    done.push(last);
    proof {
        let s2 = *runtime;
        assert(front_end.len() == front.len());
        assert(done@.drop_last() =~= front_end);
        assert(done@.last() == end);
        lemma_chain_spared(front_end, s1, s2, step.footprint(), end.footprint());
        assert(chain_forgot(all.drop_last(), done@.drop_last(), before, s1));
        assert(step.forgot(end, s1, s2));
        assert(moment(s1, Seq::empty()));
        assert(chain_forgot(all, done@, before, s2));
        lemma_in_turn(
            before,
            s1,
            s2,
            chain_footprint(front),
            chain_footprint(front_end),
            step.footprint(),
            end.footprint(),
        );
    }
    done
}

/// The same for branches.
pub fn clear_branches<const TRAINING: bool>(
    branches: Vec<Branch<TRAINING>>,
    runtime: &mut CudaRuntime,
) -> (r: Vec<Branch<TRAINING>>)
    requires
        old(runtime).wf(),
        branches_in_order(branches@, *old(runtime)),
    ensures
        branches_in_order(r@, *final(runtime)),
        final(runtime).replaced(
            *old(runtime),
            branches_footprint(branches@),
            branches_footprint(r@),
        ),
        branches_forgot(branches@, r@, *old(runtime), *final(runtime)),
    decreases branches@, 0nat,
{
    let ghost before = *runtime;
    let ghost all = branches@;
    let mut branches = branches;
    let branch = match branches.pop() {
        Some(branch) => branch,
        None => {
            proof {
                before.lemma_replaced_nothing(Set::empty());
                assert(branches@ =~= all);
            }
            return branches;
        },
    };
    let ghost front = branches@;
    let ghost last = branch;
    let ghost f0 = chain_footprint(last.steps@);
    proof {
        assert(front =~= all.drop_last());
        assert(last == all.last());
        before.lemma_replaced_nothing(Set::empty());
        lemma_chain_spared(last.steps@, before, before, Set::empty(), Set::empty());
        lemma_branches_spared(front, before, before, Set::empty(), Set::empty());
        assert(decreases_to!(all => front));
        assert(decreases_to!(all => all[all.len() - 1]));
        assert(decreases_to!(last => last.steps));
        assert(decreases_to!(last.steps => last.steps@));
    }
    let mut done = clear_branches(branches, runtime);
    let ghost s1 = *runtime;
    let ghost front_end = done@;
    proof {
        lemma_chain_spared(
            last.steps@,
            before,
            s1,
            branches_footprint(front),
            branches_footprint(front_end),
        );
    }
    let Branch { input_config, output_config, loss, learning_rate, steps, training } = branch;
    let steps = clear_chain(steps, runtime);
    let ghost f1 = chain_footprint(steps@);
    let branch = Branch { input_config, output_config, loss, learning_rate, steps, training };
    let ghost end = branch;
    done.push(branch);
    proof {
        let s2 = *runtime;
        assert(front_end.len() == front.len());
        assert(done@.drop_last() =~= front_end);
        assert(done@.last() == end);
        lemma_branches_spared(front_end, s1, s2, f0, f1);
        assert(same_branch(last, end));
        assert(branches_forgot(all.drop_last(), done@.drop_last(), before, s1));
        assert(chain_forgot(last.steps@, end.steps@, s1, s2));
        assert(moment(s1, Seq::empty()));
        assert(branches_forgot(all, done@, before, s2));
        lemma_in_turn(
            before,
            s1,
            s2,
            branches_footprint(front),
            branches_footprint(front_end),
            f0,
            f1,
        );
    }
    done
}

} // verus!
