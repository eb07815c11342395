use vstd::prelude::*;
use vstd::arithmetic::power::{lemma_pow0, pow};
use vstd::arithmetic::power2::{lemma_pow2, lemma_pow2_unfold, pow2};
use crate::growth::{split, Growth, Shape, SubdivisionTask};
use crate::limits::SubdivisionLimits;

verus! {

/// Halvings still ahead of `task`.
pub open spec fn levels_left(limits: SubdivisionLimits, task: SubdivisionTask) -> nat {
    if task.depth < limits.max_depth {
        (limits.max_depth - task.depth) as nat
    } else {
        0
    }
}

/// Levels of nesting still open below `task`.
pub open spec fn nesting_left(limits: SubdivisionLimits, task: SubdivisionTask) -> nat {
    if task.branch_depth < limits.max_branch_depth {
        (limits.max_branch_depth - task.branch_depth) as nat
    } else {
        0
    }
}

/// The most segments that an edge can end in when it is halved `levels`
/// times and branches may nest `nesting` levels deep: every halving gives
/// two halves and at most one branch.
pub open spec fn leaf_bound(levels: nat, nesting: nat) -> nat
    decreases levels,
{
    if levels == 0 {
        1
    } else if nesting == 0 {
        2 * leaf_bound((levels - 1) as nat, 0)
    } else {
        2 * leaf_bound((levels - 1) as nat, nesting) + leaf_bound(
            (levels - 1) as nat,
            (nesting - 1) as nat,
        )
    }
}

/// The most segments that `task` can end in.
pub open spec fn max_leaves(limits: SubdivisionLimits, task: SubdivisionTask) -> nat {
    leaf_bound(levels_left(limits, task), nesting_left(limits, task))
}

/// The most segments that the whole work list can end in.
pub open spec fn capacity(limits: SubdivisionLimits, pending: Seq<SubdivisionTask>) -> nat
    decreases pending.len(),
{
    if pending.len() == 0 {
        0
    } else {
        capacity(limits, pending.drop_last()) + max_leaves(limits, pending.last())
    }
}

/// The fewest segments that `task` can end in: those of an edge that is
/// halved to full depth and never branches.
pub open spec fn min_leaves(limits: SubdivisionLimits, task: SubdivisionTask) -> nat {
    pow2(levels_left(limits, task))
}

/// The fewest segments that the whole work list can end in.
pub open spec fn least_yield(limits: SubdivisionLimits, pending: Seq<SubdivisionTask>) -> nat
    decreases pending.len(),
{
    if pending.len() == 0 {
        0
    } else {
        least_yield(limits, pending.drop_last()) + min_leaves(limits, pending.last())
    }
}

/// An upper bound on the number of tasks still to be served: a task that
/// ends in `n` segments is halved fewer than `n` times on the way. Serving a
/// task makes this smaller, which is why every generation ends.
pub open spec fn remaining_work(limits: SubdivisionLimits, pending: Seq<SubdivisionTask>) -> nat {
    (2 * capacity(limits, pending) - pending.len()) as nat
}

/// Every edge ends in at least one segment.
pub proof fn lemma_leaf_bound_positive(levels: nat, nesting: nat)
    ensures
        leaf_bound(levels, nesting) >= 1,
    decreases levels,
{
    if levels > 0 {
        lemma_leaf_bound_positive((levels - 1) as nat, nesting);
        lemma_leaf_bound_positive((levels - 1) as nat, 0);
    }
}

/// A task that joins the work list adds what it can end in.
pub proof fn lemma_capacity_push(
    limits: SubdivisionLimits,
    pending: Seq<SubdivisionTask>,
    task: SubdivisionTask,
)
    ensures
        capacity(limits, pending.push(task)) == capacity(limits, pending) + max_leaves(
            limits,
            task,
        ),
{
    assert(pending.push(task).drop_last() =~= pending);
}

/// A task that joins the work list adds what it must end in.
pub proof fn lemma_least_yield_push(
    limits: SubdivisionLimits,
    pending: Seq<SubdivisionTask>,
    task: SubdivisionTask,
)
    ensures
        least_yield(limits, pending.push(task)) == least_yield(limits, pending) + min_leaves(
            limits,
            task,
        ),
{
    assert(pending.push(task).drop_last() =~= pending);
}

/// Without branches an edge halved `levels` times ends in exactly
/// `2^levels` segments.
pub proof fn lemma_leaf_bound_unbranched(levels: nat)
    ensures
        leaf_bound(levels, 0) == pow2(levels),
    decreases levels,
{
    if levels == 0 {
        lemma_pow2(0);
        lemma_pow0(2);
    } else {
        lemma_leaf_bound_unbranched((levels - 1) as nat);
        lemma_pow2_unfold(levels);
    }
}

/// However deep branches may nest, an edge halved `levels` times ends in at
/// most `3^levels` segments.
pub proof fn lemma_leaf_bound_within_power_of_three(levels: nat, nesting: nat)
    ensures
        leaf_bound(levels, nesting) <= pow(3, levels),
    decreases levels,
{
    reveal(pow);
    if levels > 0 {
        lemma_leaf_bound_within_power_of_three((levels - 1) as nat, nesting);
        lemma_leaf_bound_within_power_of_three((levels - 1) as nat, 0);
        if nesting > 0 {
            lemma_leaf_bound_within_power_of_three((levels - 1) as nat, (nesting - 1) as nat);
        }
        lemma_leaf_bound_positive((levels - 1) as nat, 0);
    }
}

/// Every task on the work list ends in a segment of its own.
pub proof fn lemma_capacity_covers_length(limits: SubdivisionLimits, pending: Seq<SubdivisionTask>)
    ensures
        capacity(limits, pending) >= pending.len(),
    decreases pending.len(),
{
    if pending.len() > 0 {
        lemma_capacity_covers_length(limits, pending.drop_last());
        lemma_leaf_bound_positive(
            levels_left(limits, pending.last()),
            nesting_left(limits, pending.last()),
        );
    }
}

/// Halving a task never raises what the work list can end in, never lowers
/// what it must end in, and lowers the remaining work.
pub proof fn lemma_split_pending<P, E>(
    limits: SubdivisionLimits,
    rest: Growth<P, E>,
    task: SubdivisionTask,
    shape: Shape<P, E>,
)
    requires
        task.depth < limits.max_depth,
    ensures
        capacity(limits, split(limits, rest, task, shape).pending) <= capacity(
            limits,
            rest.pending,
        ) + max_leaves(limits, task),
        remaining_work(limits, split(limits, rest, task, shape).pending) < remaining_work(
            limits,
            rest.pending.push(task),
        ),
        least_yield(limits, split(limits, rest, task, shape).pending) >= least_yield(
            limits,
            rest.pending,
        ) + min_leaves(limits, task),
{
    let mid_idx = rest.nodes.len() as usize;
    let depth = (task.depth + 1) as u32;
    let near = SubdivisionTask {
        start_idx: task.start_idx,
        end_idx: mid_idx,
        depth,
        branch_depth: task.branch_depth,
    };
    let far = SubdivisionTask {
        start_idx: mid_idx,
        end_idx: task.end_idx,
        depth,
        branch_depth: task.branch_depth,
    };
    let halves = rest.pending.push(near).push(far);
    lemma_capacity_push(limits, rest.pending, task);
    lemma_capacity_push(limits, rest.pending, near);
    lemma_capacity_push(limits, rest.pending.push(near), far);
    lemma_capacity_covers_length(limits, rest.pending);
    lemma_least_yield_push(limits, rest.pending, near);
    lemma_least_yield_push(limits, rest.pending.push(near), far);
    let levels = levels_left(limits, task);
    lemma_pow2_unfold(levels);
    let nesting = nesting_left(limits, task);
    assert(levels_left(limits, near) == levels - 1);
    assert(levels_left(limits, far) == levels - 1);
    lemma_leaf_bound_positive((levels - 1) as nat, nesting);
    lemma_leaf_bound_positive((levels - 1) as nat, 0);
    if task.branch_depth < limits.max_branch_depth {
        lemma_leaf_bound_positive((levels - 1) as nat, (nesting - 1) as nat);
        if let Some(tip) = shape.branch {
            let side = SubdivisionTask {
                start_idx: mid_idx,
                end_idx: (rest.nodes.len() + 1) as usize,
                depth,
                branch_depth: (task.branch_depth + 1) as u32,
            };
            assert(split(limits, rest, task, shape).pending == halves.push(side));
            lemma_capacity_push(limits, halves, side);
            lemma_least_yield_push(limits, halves, side);
            assert(levels_left(limits, side) == levels - 1);
            assert(nesting_left(limits, side) == nesting - 1);
        }
    }
}

} // verus!
