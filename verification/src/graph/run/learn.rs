//! Optimizer steps.

use vstd::prelude::*;

use super::backward::{branches_ready, chain_ready};
use super::{
    branches_footprint, branches_in_order, chain_footprint, chain_in_order, lemma_branches_spared,
    lemma_chain_spared, lemma_in_turn, lemma_step_spared, moment, same_branch,
};
use crate::cuda::runtime::CudaRuntime;
use crate::graph::compile::{Branch, Step};
use crate::graph::config::LearnConfig;
use crate::graph::graph_node::{GraphNode, TrainingNode};

verus! {

broadcast use crate::cuda::runtime::group_streams;

impl<const TRAINING: bool> Step<TRAINING> {
    /// An optimizer step made this of the step.
    pub open spec fn improved(
        self,
        end: Self,
        before: CudaRuntime,
        after: CudaRuntime,
        config: LearnConfig,
    ) -> bool
        decreases self,
    {
        &&& after.replaced(before, self.footprint(), end.footprint())
        &&& match (self, end) {
            (Step::Node(node), Step::Node(last)) => node.improves(last, before, after, config),
            (Step::Branches(branches), Step::Branches(ends)) => branches_improved(
                branches@,
                ends@,
                before,
                after,
                config,
            ),
            _ => false,
        }
    }
}

/// An optimizer step made these of steps, one after the other.
pub open spec fn chain_improved<const TRAINING: bool>(
    steps: Seq<Step<TRAINING>>,
    ends: Seq<Step<TRAINING>>,
    before: CudaRuntime,
    after: CudaRuntime,
    config: LearnConfig,
) -> bool
    decreases steps,
{
    &&& ends.len() == steps.len()
    &&& if steps.len() == 0 {
        after == before
    } else {
        exists|middle: CudaRuntime|
            {
                &&& #[trigger] moment(middle, Seq::empty())
                &&& chain_improved(steps.drop_last(), ends.drop_last(), before, middle, config)
                &&& steps.last().improved(ends.last(), middle, after, config)
            }
    }
}

/// The same for branches.
pub open spec fn branches_improved<const TRAINING: bool>(
    branches: Seq<Branch<TRAINING>>,
    ends: Seq<Branch<TRAINING>>,
    before: CudaRuntime,
    after: CudaRuntime,
    config: LearnConfig,
) -> bool
    decreases branches,
{
    &&& ends.len() == branches.len()
    &&& if branches.len() == 0 {
        after == before
    } else {
        &&& same_branch(branches.last(), ends.last())
        &&& exists|middle: CudaRuntime|
            {
                &&& #[trigger] moment(middle, Seq::empty())
                &&& branches_improved(
                    branches.drop_last(),
                    ends.drop_last(),
                    before,
                    middle,
                    config,
                )
                &&& chain_improved(
                    branches.last().steps@,
                    ends.last().steps@,
                    middle,
                    after,
                    config,
                )
            }
    }
}

/// Every step learns, by the same settings.
pub proof fn law_every_step_learns<const TRAINING: bool>(
    steps: Seq<Step<TRAINING>>,
    ends: Seq<Step<TRAINING>>,
    before: CudaRuntime,
    after: CudaRuntime,
    config: LearnConfig,
    k: int,
)
    requires
        chain_improved(steps, ends, before, after, config),
        0 <= k < steps.len(),
    ensures
        ends.len() == steps.len(),
        exists|start: CudaRuntime, end: CudaRuntime| #[trigger]
            steps[k].improved(ends[k], start, end, config),
    decreases steps.len(),
{
    let middle = choose|middle: CudaRuntime|
        {
            &&& #[trigger] moment(middle, Seq::empty())
            &&& chain_improved(steps.drop_last(), ends.drop_last(), before, middle, config)
            &&& steps.last().improved(ends.last(), middle, after, config)
        };
    if k < steps.len() - 1 {
        law_every_step_learns(steps.drop_last(), ends.drop_last(), before, middle, config, k);
    } else {
        assert(steps[k].improved(ends[k], middle, after, config));
    }
}

/// Every branch learns, by the same settings.
pub proof fn law_every_branch_learns<const TRAINING: bool>(
    branches: Seq<Branch<TRAINING>>,
    ends: Seq<Branch<TRAINING>>,
    before: CudaRuntime,
    after: CudaRuntime,
    config: LearnConfig,
    k: int,
)
    requires
        branches_improved(branches, ends, before, after, config),
        0 <= k < branches.len(),
    ensures
        ends.len() == branches.len(),
        exists|start: CudaRuntime, end: CudaRuntime| #[trigger]
            chain_improved(branches[k].steps@, ends[k].steps@, start, end, config),
    decreases branches.len(),
{
    let middle = choose|middle: CudaRuntime|
        {
            &&& #[trigger] moment(middle, Seq::empty())
            &&& branches_improved(
                branches.drop_last(),
                ends.drop_last(),
                before,
                middle,
                config,
            )
            &&& chain_improved(
                branches.last().steps@,
                ends.last().steps@,
                middle,
                after,
                config,
            )
        };
    if k < branches.len() - 1 {
        law_every_branch_learns(
            branches.drop_last(),
            ends.drop_last(),
            before,
            middle,
            config,
            k,
        );
    } else {
        assert(chain_improved(branches[k].steps@, ends[k].steps@, middle, after, config));
    }
}

/// Applies the gradients of steps, one step after the other.
pub fn learn_chain<const TRAINING: bool>(
    steps: Vec<Step<TRAINING>>,
    config: LearnConfig,
    runtime: &mut CudaRuntime,
) -> (r: Vec<Step<TRAINING>>)
    requires
        old(runtime).wf(),
        chain_in_order(steps@, *old(runtime)),
        config.valid(),
        chain_ready(steps@),
    ensures
        chain_in_order(r@, *final(runtime)),
        final(runtime).replaced(*old(runtime), chain_footprint(steps@), chain_footprint(r@)),
        chain_improved(steps@, r@, *old(runtime), *final(runtime), config),
    decreases steps@, 0nat,
{
    let ghost before = *runtime;
    let ghost all = steps@;
    let mut steps = steps;
    let last = match steps.pop() {
        Some(last) => last,
        None => {
            proof {
                before.lemma_replaced_nothing(Set::empty());
                assert(steps@ =~= all);
            }
            return steps;
        },
    };
    let ghost front = steps@;
    let ghost step = last;
    proof {
        assert(front =~= all.drop_last());
        assert(step == all.last());
        before.lemma_replaced_nothing(Set::empty());
        lemma_step_spared(step, before, before, Set::empty(), Set::empty());
        lemma_chain_spared(front, before, before, Set::empty(), Set::empty());
        assert(decreases_to!(all => front));
        assert(decreases_to!(all => all[all.len() - 1]));
        assert(step.has_gradients());
    }
    let mut done = learn_chain(steps, config, runtime);
    let ghost s1 = *runtime;
    let ghost front_end = done@;
    proof {
        lemma_step_spared(step, before, s1, chain_footprint(front), chain_footprint(front_end));
    }
    let last = match last {
        Step::Node(node) => {
            let mut node = node;
            let ghost start = node;
            TrainingNode::learn(&mut node, config, runtime);
            proof {
                let end = Step::<TRAINING>::Node(node);
                assert(step == Step::<TRAINING>::Node(start));
                assert(end.in_order(*runtime));
                assert(step.improved(end, s1, *runtime, config));
            }
            Step::Node(node)
        },
        Step::Branches(branches) => {
            proof {
                assert(decreases_to!(step => branches));
                assert(decreases_to!(branches => branches@));
            }
            let branches = learn_branches(branches, config, runtime);
            proof {
                let end = Step::<TRAINING>::Branches(branches);
                assert(end.in_order(*runtime));
                assert(step.improved(end, s1, *runtime, config));
            }
            Step::Branches(branches)
        },
    };
    let ghost end = last;
    done.push(last);
    proof {
        let s2 = *runtime;
        assert(front_end.len() == front.len());
        assert(done@.drop_last() =~= front_end);
        assert(done@.last() == end);
        lemma_chain_spared(front_end, s1, s2, step.footprint(), end.footprint());
        assert(chain_improved(all.drop_last(), done@.drop_last(), before, s1, config));
        assert(step.improved(end, s1, s2, config));
        assert(moment(s1, Seq::empty()));
        assert(chain_improved(all, done@, before, s2, config));
        lemma_in_turn(
            before,
            s1,
            s2,
            chain_footprint(front),
            chain_footprint(front_end),
            step.footprint(),
            end.footprint(),
        );
    }
    done
}

/// The same for branches.
pub fn learn_branches<const TRAINING: bool>(
    branches: Vec<Branch<TRAINING>>,
    config: LearnConfig,
    runtime: &mut CudaRuntime,
) -> (r: Vec<Branch<TRAINING>>)
    requires
        old(runtime).wf(),
        branches_in_order(branches@, *old(runtime)),
        config.valid(),
        branches_ready(branches@),
    ensures
        branches_in_order(r@, *final(runtime)),
        final(runtime).replaced(
            *old(runtime),
            branches_footprint(branches@),
            branches_footprint(r@),
        ),
        branches_improved(branches@, r@, *old(runtime), *final(runtime), config),
    decreases branches@, 0nat,
{
    let ghost before = *runtime;
    let ghost all = branches@;
    let mut branches = branches;
    let branch = match branches.pop() {
        Some(branch) => branch,
        None => {
            proof {
                before.lemma_replaced_nothing(Set::empty());
                assert(branches@ =~= all);
            }
            return branches;
        },
    };
    let ghost front = branches@;
    let ghost last = branch;
    let ghost f0 = chain_footprint(last.steps@);
    proof {
        assert(front =~= all.drop_last());
        assert(last == all.last());
        before.lemma_replaced_nothing(Set::empty());
        lemma_chain_spared(last.steps@, before, before, Set::empty(), Set::empty());
        lemma_branches_spared(front, before, before, Set::empty(), Set::empty());
        assert(decreases_to!(all => front));
        assert(decreases_to!(all => all[all.len() - 1]));
        assert(decreases_to!(last => last.steps));
        assert(decreases_to!(last.steps => last.steps@));
    }
    let mut done = learn_branches(branches, config, runtime);
    let ghost s1 = *runtime;
    let ghost front_end = done@;
    proof {
        lemma_chain_spared(
            last.steps@,
            before,
            s1,
            branches_footprint(front),
            branches_footprint(front_end),
        );
    }
    let Branch { input_config, output_config, loss, learning_rate, steps, training } = branch;
    let steps = learn_chain(steps, config, runtime);
    let ghost f1 = chain_footprint(steps@);
    let branch = Branch { input_config, output_config, loss, learning_rate, steps, training };
    let ghost end = branch;
    done.push(branch);
    proof {
        let s2 = *runtime;
        assert(front_end.len() == front.len());
        assert(done@.drop_last() =~= front_end);
        assert(done@.last() == end);
        lemma_branches_spared(front_end, s1, s2, f0, f1);
        assert(same_branch(last, end));
        assert(branches_improved(all.drop_last(), done@.drop_last(), before, s1, config));
        assert(chain_improved(last.steps@, end.steps@, s1, s2, config));
        assert(moment(s1, Seq::empty()));
        assert(branches_improved(all, done@, before, s2, config));
        lemma_in_turn(
            before,
            s1,
            s2,
            branches_footprint(front),
            branches_footprint(front_end),
            f0,
            f1,
        );
    }
    done
}

} // verus!
