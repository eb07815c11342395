use vstd::prelude::*;
use crate::bounds::{
    lemma_capacity_covers_length, lemma_leaf_bound_positive, lemma_split_pending, nesting_left,
    remaining_work,
};
use crate::limits::SubdivisionLimits;
use crate::tree::LightningNode;

verus! {

/// One entry of the work list: an edge that is still to be refined.
#[derive(Clone, Copy, Debug)]
pub struct SubdivisionTask {
    /// Index of the node the edge starts at.
    pub start_idx: usize,
    /// Index of the node the edge ends at.
    pub end_idx: usize,
    /// How often the edge has been halved already.
    pub depth: u32,
    /// Nesting of the sub-path the edge belongs to.
    pub branch_depth: u32,
}

/// A position together with the energy found there.
#[derive(Clone, Copy, Debug)]
pub struct Placement<P, E> {
    pub position: P,
    pub energy: E,
}

/// What the shaper is shown when an edge is halved.
#[derive(Clone, Copy, Debug)]
pub struct Subdivision<P, E> {
    /// The node the edge starts at.
    pub start: LightningNode<P, E>,
    /// The node the edge ends at.
    pub end: LightningNode<P, E>,
    /// How often the edge has been halved already.
    pub depth: u32,
    /// Nesting of the sub-path the edge belongs to.
    pub branch_depth: u32,
    /// Whether a branch may leave the new midpoint: its nesting would still
    /// be within the limit.
    pub may_branch: bool,
}

/// What the shaper answers: where the displaced midpoint lies and, if a
/// branch leaves it, where that branch ends.
#[derive(Clone, Copy, Debug)]
pub struct Shape<P, E> {
    pub mid: Placement<P, E>,
    pub branch: Option<Placement<P, E>>,
}

/// A generation under way: the nodes and segments made so far and the work
/// list, whose last entry is served next.
pub struct Growth<P, E> {
    pub nodes: Seq<LightningNode<P, E>>,
    pub segments: Seq<(usize, usize)>,
    pub pending: Seq<SubdivisionTask>,
}

/// The state every generation starts from: the two seed nodes and the one
/// edge between them.
pub open spec fn seeded<P, E>(start: Placement<P, E>, end: Placement<P, E>) -> Growth<P, E> {
    Growth {
        nodes: seq![
            LightningNode { position: start.position, branch_depth: 0, energy: start.energy },
            LightningNode { position: end.position, branch_depth: 0, energy: end.energy },
        ],
        segments: Seq::empty(),
        pending: seq![SubdivisionTask { start_idx: 0, end_idx: 1, depth: 0, branch_depth: 0 }],
    }
}

/// What the shaper is shown for `task`.
pub open spec fn subdivision_of<P, E>(
    limits: SubdivisionLimits,
    nodes: Seq<LightningNode<P, E>>,
    task: SubdivisionTask,
) -> Subdivision<P, E> {
    Subdivision {
        start: nodes[task.start_idx as int],
        end: nodes[task.end_idx as int],
        depth: task.depth,
        branch_depth: task.branch_depth,
        may_branch: task.branch_depth < limits.max_branch_depth,
    }
}

/// A task at full depth becomes a segment.
pub open spec fn emit_leaf<P, E>(rest: Growth<P, E>, task: SubdivisionTask) -> Growth<P, E> {
    Growth {
        nodes: rest.nodes,
        segments: rest.segments.push((task.start_idx, task.end_idx)),
        pending: rest.pending,
    }
}

/// A task above full depth is halved at a new node. Its two halves join the
/// work list, first the half at the start, and after them the branch, if the
/// shaper gave one and the limit allows it; the branch ends in a second new
/// node, one level deeper nested, and is therefore served first.
pub open spec fn split<P, E>(
    limits: SubdivisionLimits,
    rest: Growth<P, E>,
    task: SubdivisionTask,
    shape: Shape<P, E>,
) -> Growth<P, E> {
    let mid_idx = rest.nodes.len() as usize;
    let depth = (task.depth + 1) as u32;
    let nodes = rest.nodes.push(
        LightningNode {
            position: shape.mid.position,
            branch_depth: task.branch_depth,
            energy: shape.mid.energy,
        },
    );
    let pending = rest.pending.push(
        SubdivisionTask {
            start_idx: task.start_idx,
            end_idx: mid_idx,
            depth,
            branch_depth: task.branch_depth,
        },
    ).push(
        SubdivisionTask {
            start_idx: mid_idx,
            end_idx: task.end_idx,
            depth,
            branch_depth: task.branch_depth,
        },
    );
    match shape.branch {
        Some(tip) if task.branch_depth < limits.max_branch_depth => Growth {
            nodes: nodes.push(
                LightningNode {
                    position: tip.position,
                    branch_depth: (task.branch_depth + 1) as u32,
                    energy: tip.energy,
                },
            ),
            segments: rest.segments,
            pending: pending.push(
                SubdivisionTask {
                    start_idx: mid_idx,
                    end_idx: nodes.len() as usize,
                    depth,
                    branch_depth: (task.branch_depth + 1) as u32,
                },
            ),
        },
        _ => Growth { nodes, segments: rest.segments, pending },
    }
}

/// The whole generation from `growth` on, with the shaper given as a
/// function: serve the last task of the work list until none is left.
pub open spec fn grow<P, E, S>(
    limits: SubdivisionLimits,
    growth: Growth<P, E>,
    stream: S,
    shaper: spec_fn(S, Subdivision<P, E>) -> (S, Shape<P, E>),
) -> Growth<P, E>
    decreases remaining_work(limits, growth.pending),
{
    if growth.pending.len() == 0 {
        growth
    } else {
        let task = growth.pending.last();
        let rest = Growth {
            nodes: growth.nodes,
            segments: growth.segments,
            pending: growth.pending.drop_last(),
        };
        if task.depth >= limits.max_depth {
            proof {
                lemma_leaf_bound_positive(0, nesting_left(limits, task));
                lemma_capacity_covers_length(limits, rest.pending);
            }
            grow(limits, emit_leaf(rest, task), stream, shaper)
        } else {
            let shaped = shaper(stream, subdivision_of(limits, growth.nodes, task));
            proof {
                assert(rest.pending.push(task) =~= growth.pending);
                lemma_split_pending(limits, rest, task, shaped.1);
            }
            grow(limits, split(limits, rest, task, shaped.1), shaped.0, shaper)
        }
    }
}

} // verus!
