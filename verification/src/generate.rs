use vstd::prelude::*;
use vstd::arithmetic::power::{lemma_pow0, pow};
use vstd::arithmetic::power2::{lemma_pow2, lemma_pow2_pos, pow2};
use crate::bounds::{
    capacity, leaf_bound, least_yield, lemma_capacity_covers_length, lemma_capacity_push,
    lemma_leaf_bound_positive, lemma_leaf_bound_unbranched,
    lemma_leaf_bound_within_power_of_three, lemma_least_yield_push, lemma_split_pending,
    nesting_left, remaining_work,
};
use crate::growth::{
    emit_leaf, grow, seeded, split, subdivision_of, Growth, Placement, Shape, Subdivision,
    SubdivisionTask,
};
use crate::limits::{LightningConfig, SubdivisionLimits};
use crate::stream::{seed_stream, seeded_stream};
use crate::tree::{LightningNode, LightningTree, TreeModel};
use rand_chacha::ChaCha8Rng;

verus! {

/// The shaper computes the function `shaper`: whatever it answers is what
/// the function gives for the same stream and the same subdivision.
pub open spec fn follows<P, E, S, F: Fn(S, Subdivision<P, E>) -> (S, Shape<P, E>)>(
    shape: F,
    shaper: spec_fn(S, Subdivision<P, E>) -> (S, Shape<P, E>),
) -> bool {
    forall|stream: S, sub: Subdivision<P, E>, answer: (S, Shape<P, E>)|
        call_ensures(shape, (stream, sub), answer) ==> answer == shaper(stream, sub)
}

/// A node's position and energy.
pub open spec fn placement_of<P, E>(node: LightningNode<P, E>) -> Placement<P, E> {
    Placement { position: node.position, energy: node.energy }
}

/// The shaper maintains `kept`: shown an edge whose two ends have the
/// property, it answers only with placements that have it too.
pub open spec fn maintains<P, E, S, F: Fn(S, Subdivision<P, E>) -> (S, Shape<P, E>)>(
    shape: F,
    kept: spec_fn(Placement<P, E>) -> bool,
) -> bool {
    forall|stream: S, sub: Subdivision<P, E>, answer: (S, Shape<P, E>)|
        #![trigger call_ensures(shape, (stream, sub), answer)]
        call_ensures(shape, (stream, sub), answer) && kept(placement_of(sub.start)) && kept(
            placement_of(sub.end),
        ) ==> kept(answer.1.mid) && (answer.1.branch matches Some(tip) ==> kept(tip))
}

/// The bolt that grows between `start` and `end` when the shaper is the
/// function `shaper` and starts from `stream`.
pub open spec fn generated<P, E, S>(
    start: Placement<P, E>,
    end: Placement<P, E>,
    limits: SubdivisionLimits,
    stream: S,
    shaper: spec_fn(S, Subdivision<P, E>) -> (S, Shape<P, E>),
) -> TreeModel<P, E> {
    let grown = grow(limits, seeded(start, end), stream, shaper);
    TreeModel { root: start.position, nodes: grown.nodes, segments: grown.segments }
}

/// What holds of every bolt that `shape` grows between `start` and `end`
/// within `limits`, beginning with `stream`.
pub open spec fn grown_by<P, E, S, F: Fn(S, Subdivision<P, E>) -> (S, Shape<P, E>)>(
    tree: TreeModel<P, E>,
    start: Placement<P, E>,
    end: Placement<P, E>,
    limits: SubdivisionLimits,
    stream: S,
    shape: F,
) -> bool {
    // The bolt starts at `start`; its first two nodes are the two ends, on
    // the main path, in this order.
    &&& tree.well_formed()
    &&& tree.root == start.position
    &&& tree.nodes[0] == (LightningNode {
        position: start.position,
        branch_depth: 0,
        energy: start.energy,
    })
    &&& tree.nodes[1] == (LightningNode {
        position: end.position,
        branch_depth: 0,
        energy: end.energy,
    })
    // Size: one node more than segments; at least the segments of the
    // unbranched path, at most those of a bolt that branches wherever it
    // may, which is never more than three to the power of the depth.
    &&& tree.nodes.len() == tree.segments.len() + 1
    &&& pow2(limits.max_depth as nat) <= tree.segments.len() <= leaf_bound(
        limits.max_depth as nat,
        limits.max_branch_depth as nat,
    )
    &&& 1 <= tree.segments.len() <= pow(3, limits.max_depth as nat)
    &&& limits.max_branch_depth == 0 ==> tree.segments.len() == pow2(limits.max_depth as nat)
    // Nesting stays within its limit; without nesting all is main path.
    &&& forall|i: int|
        0 <= i < tree.nodes.len() ==> (#[trigger] tree.nodes[i]).branch_depth
            <= limits.max_branch_depth
    &&& limits.max_branch_depth == 0 ==> forall|i: int|
        0 <= i < tree.nodes.len() ==> (#[trigger] tree.nodes[i]).branch_depth == 0
    // Without halving the bolt is the one segment between its ends.
    &&& limits.max_depth == 0 ==> tree.nodes.len() == 2 && tree.segments == seq![
        (0usize, 1usize),
    ]
    // A shaper that computes a function leaves no choice: the bolt is the
    // one that the work list gives for that function.
    &&& forall|shaper: spec_fn(S, Subdivision<P, E>) -> (S, Shape<P, E>)| #[trigger]
        follows(shape, shaper) ==> tree == generated(start, end, limits, stream, shaper)
    // What the shaper maintains and both ends have, every node has.
    &&& forall|kept: spec_fn(Placement<P, E>) -> bool| #[trigger]
        maintains(shape, kept) && kept(start) && kept(end) ==> forall|i: int|
            0 <= i < tree.nodes.len() ==> kept(placement_of(#[trigger] tree.nodes[i]))
}

/// What holds of the work list and of what has been made so far, at every
/// moment of a generation.
spec fn growing<P, E>(limits: SubdivisionLimits, growth: Growth<P, E>) -> bool {
    &&& growth.nodes.len() >= 2
    &&& growth.nodes.len() == growth.segments.len() + growth.pending.len() + 1
    &&& growth.segments.len() + capacity(limits, growth.pending) <= leaf_bound(
        limits.max_depth as nat,
        limits.max_branch_depth as nat,
    )
    &&& growth.segments.len() + least_yield(limits, growth.pending) >= pow2(
        limits.max_depth as nat,
    )
    &&& forall|i: int|
        0 <= i < growth.nodes.len() ==> (#[trigger] growth.nodes[i]).branch_depth
            <= limits.max_branch_depth
    &&& forall|k: int|
        0 <= k < growth.segments.len() ==> {
            &&& (#[trigger] growth.segments[k]).0 < growth.nodes.len()
            &&& growth.segments[k].1 < growth.nodes.len()
            &&& growth.segments[k].0 != growth.segments[k].1
        }
    &&& forall|k: int|
        0 <= k < growth.pending.len() ==> {
            &&& (#[trigger] growth.pending[k]).start_idx < growth.nodes.len()
            &&& growth.pending[k].end_idx < growth.nodes.len()
            &&& growth.pending[k].start_idx != growth.pending[k].end_idx
            &&& growth.pending[k].depth <= limits.max_depth
            &&& growth.pending[k].branch_depth <= limits.max_branch_depth
        }
}

impl<P: Copy, E: Copy> LightningTree<P, E> {
    /// Grows a bolt from `start` to `end`, drawing from the random stream of
    /// `config.seed`.
    ///
    /// This is [`LightningTree::generate_from`] with the ChaCha stream that
    /// the seed starts.
    pub fn generate<F>(
        start: Placement<P, E>,
        end: Placement<P, E>,
        config: &LightningConfig,
        shape: F,
    ) -> (tree: Self) where F: Fn(ChaCha8Rng, Subdivision<P, E>) -> (ChaCha8Rng, Shape<P, E>)
        requires
            forall|s: ChaCha8Rng, sub: Subdivision<P, E>| call_requires(shape, (s, sub)),
        ensures
            grown_by(tree@, start, end, config.limits(), seeded_stream(config.seed), shape),
    {
        let limits = config.limits();
        Self::generate_from(start, end, &limits, seed_stream(config.seed), shape)
    }

    /// Grows a bolt from `start` to `end`.
    ///
    /// The work list holds edges to refine and is served last in, first out.
    /// An edge that has been halved `limits.max_depth` times becomes a
    /// segment. Any other edge is shown to `shape`, which places the displaced
    /// midpoint and decides whether a branch leaves it; the two halves and
    /// then the branch join the work list. `stream` is handed through the
    /// calls of `shape` in the order in which they are made, so a shaper that
    /// draws random numbers draws them in that order.
    pub fn generate_from<S, F>(
        start: Placement<P, E>,
        end: Placement<P, E>,
        limits: &SubdivisionLimits,
        stream: S,
        shape: F,
    ) -> (tree: Self) where F: Fn(S, Subdivision<P, E>) -> (S, Shape<P, E>)
        requires
            forall|s: S, sub: Subdivision<P, E>| call_requires(shape, (s, sub)),
        ensures
            grown_by(tree@, start, end, *limits, stream, shape),
    {
        let start_node = LightningNode {
            position: start.position,
            branch_depth: 0,
            energy: start.energy,
        };
        let end_node = LightningNode { position: end.position, branch_depth: 0, energy: end.energy };
        let mut nodes: Vec<LightningNode<P, E>> = Vec::new();
        nodes.push(start_node);
        nodes.push(end_node);
        let mut segments: Vec<(usize, usize)> = Vec::new();
        let mut pending: Vec<SubdivisionTask> = Vec::new();
        pending.push(SubdivisionTask { start_idx: 0, end_idx: 1, depth: 0, branch_depth: 0 });
        let mut stream = stream;
        let ghost first_stream = stream;
        proof {
            let first = seeded(start, end);
            assert(nodes@ =~= first.nodes);
            assert(segments@ =~= first.segments);
            assert(pending@ =~= first.pending);
            let nothing = Seq::<SubdivisionTask>::empty();
            assert(first.pending =~= nothing.push(first.pending[0]));
            assert(capacity(*limits, nothing) == 0);
            lemma_capacity_push(*limits, nothing, first.pending[0]);
            assert(least_yield(*limits, nothing) == 0);
            lemma_least_yield_push(*limits, nothing, first.pending[0]);
            assert(placement_of(nodes@[0]) == start);
            assert(placement_of(nodes@[1]) == end);
        }
        while pending.len() > 0
            invariant
                forall|s: S, sub: Subdivision<P, E>| call_requires(shape, (s, sub)),
                growing(*limits, Growth { nodes: nodes@, segments: segments@, pending: pending@ }),
                nodes@[0] == start_node,
                nodes@[1] == end_node,
                limits.max_depth == 0 ==> nodes@.len() == 2 && (segments@.len() == 0 || (
                segments@ == seq![(0usize, 1usize)] && pending@.len() == 0)),
                limits.max_depth == 0 && pending@.len() > 0 ==> pending@ == seq![
                    SubdivisionTask { start_idx: 0, end_idx: 1, depth: 0, branch_depth: 0 },
                ],
                forall|shaper: spec_fn(S, Subdivision<P, E>) -> (S, Shape<P, E>)| #[trigger]
                    follows(shape, shaper) ==> grow(
                        *limits,
                        Growth { nodes: nodes@, segments: segments@, pending: pending@ },
                        stream,
                        shaper,
                    ) == grow(*limits, seeded(start, end), first_stream, shaper),
                forall|kept: spec_fn(Placement<P, E>) -> bool| #[trigger]
                    maintains(shape, kept) && kept(start) && kept(end) ==> forall|i: int|
                        0 <= i < nodes@.len() ==> kept(placement_of(#[trigger] nodes@[i])),
            decreases remaining_work(*limits, pending@),
        {
            let ghost before = Growth { nodes: nodes@, segments: segments@, pending: pending@ };
            let ghost stream_before = stream;
            let task = pending.pop().unwrap();
            let ghost rest = Growth { nodes: nodes@, segments: segments@, pending: pending@ };
            proof {
                assert(rest.pending =~= before.pending.drop_last());
                assert(task == before.pending.last());
                assert(rest.pending.push(task) =~= before.pending);
                lemma_capacity_push(*limits, rest.pending, task);
                lemma_least_yield_push(*limits, rest.pending, task);
                lemma_pow2(0);
                lemma_pow0(2);
                lemma_capacity_covers_length(*limits, rest.pending);
                lemma_leaf_bound_positive(0, nesting_left(*limits, task));
            }
            if task.depth >= limits.max_depth {
                segments.push((task.start_idx, task.end_idx));
                proof {
                    let after = Growth { nodes: nodes@, segments: segments@, pending: pending@ };
                    assert(after == emit_leaf(rest, task));
                    assert forall|shaper: spec_fn(S, Subdivision<P, E>) -> (S, Shape<P, E>)| #[trigger]
                        follows(shape, shaper) implies grow(*limits, after, stream, shaper) == grow(
                        *limits,
                        seeded(start, end),
                        first_stream,
                        shaper,
                    ) by {
                        assert(grow(*limits, before, stream, shaper) == grow(
                            *limits,
                            after,
                            stream,
                            shaper,
                        ));
                    }
                    if limits.max_depth == 0 {
                        assert(segments@ =~= seq![(0usize, 1usize)]);
                        assert(pending@.len() == 0);
                    }
                }
            } else {
                let may_branch = task.branch_depth < limits.max_branch_depth;
                let sub = Subdivision {
                    start: nodes[task.start_idx],
                    end: nodes[task.end_idx],
                    depth: task.depth,
                    branch_depth: task.branch_depth,
                    may_branch,
                };
                assert(sub == subdivision_of(*limits, before.nodes, task));
                let (next_stream, shaped) = shape(stream, sub);
                stream = next_stream;
                let mid_idx = nodes.len();
                nodes.push(
                    LightningNode {
                        position: shaped.mid.position,
                        branch_depth: task.branch_depth,
                        energy: shaped.mid.energy,
                    },
                );
                pending.push(
                    SubdivisionTask {
                        start_idx: task.start_idx,
                        end_idx: mid_idx,
                        depth: task.depth + 1,
                        branch_depth: task.branch_depth,
                    },
                );
                pending.push(
                    SubdivisionTask {
                        start_idx: mid_idx,
                        end_idx: task.end_idx,
                        depth: task.depth + 1,
                        branch_depth: task.branch_depth,
                    },
                );
                if may_branch {
                    if let Some(tip) = shaped.branch {
                        let tip_idx = nodes.len();
                        nodes.push(
                            LightningNode {
                                position: tip.position,
                                branch_depth: task.branch_depth + 1,
                                energy: tip.energy,
                            },
                        );
                        pending.push(
                            SubdivisionTask {
                                start_idx: mid_idx,
                                end_idx: tip_idx,
                                depth: task.depth + 1,
                                branch_depth: task.branch_depth + 1,
                            },
                        );
                    }
                }
                proof {
                    let after = Growth { nodes: nodes@, segments: segments@, pending: pending@ };
                    let model = split(*limits, rest, task, shaped);
                    assert(after.nodes =~= model.nodes);
                    assert(after.pending =~= model.pending);
                    assert(after == model);
                    lemma_split_pending(*limits, rest, task, shaped);
                    assert(call_ensures(shape, (stream_before, sub), (stream, shaped)));
                    assert forall|kept: spec_fn(Placement<P, E>) -> bool| #[trigger]
                        maintains(shape, kept) && kept(start) && kept(end) implies forall|i: int|
                        0 <= i < nodes@.len() ==> kept(placement_of(#[trigger] nodes@[i])) by {
                        assert(kept(placement_of(before.nodes[task.start_idx as int])));
                        assert(kept(placement_of(before.nodes[task.end_idx as int])));
                        assert(kept(shaped.mid));
                        assert forall|i: int| 0 <= i < nodes@.len() implies kept(
                            placement_of(#[trigger] nodes@[i]),
                        ) by {
                            if i < before.nodes.len() {
                                assert(nodes@[i] == before.nodes[i]);
                            } else if i == before.nodes.len() {
                                assert(placement_of(nodes@[i]) == shaped.mid);
                            } else {
                                assert(shaped.branch is Some);
                                assert(placement_of(nodes@[i]) == shaped.branch->0);
                            }
                        }
                    }
                    assert forall|shaper: spec_fn(S, Subdivision<P, E>) -> (S, Shape<P, E>)| #[trigger]
                        follows(shape, shaper) implies grow(*limits, after, stream, shaper) == grow(
                        *limits,
                        seeded(start, end),
                        first_stream,
                        shaper,
                    ) by {
                        assert(shaper(stream_before, sub) == (stream, shaped));
                        assert(grow(*limits, before, stream_before, shaper) == grow(
                            *limits,
                            after,
                            stream,
                            shaper,
                        ));
                    }
                }
            }
        }
        proof {
            let grown = Growth { nodes: nodes@, segments: segments@, pending: pending@ };
            assert forall|shaper: spec_fn(S, Subdivision<P, E>) -> (S, Shape<P, E>)| #[trigger]
                follows(shape, shaper) implies grow(*limits, grown, stream, shaper) == grown by {}
            assert(capacity(*limits, pending@) == 0);
            assert(least_yield(*limits, pending@) == 0);
            lemma_leaf_bound_unbranched(limits.max_depth as nat);
            lemma_leaf_bound_within_power_of_three(
                limits.max_depth as nat,
                limits.max_branch_depth as nat,
            );
            lemma_pow2_pos(limits.max_depth as nat);
        }
        LightningTree { root: start.position, nodes, segments }
    }
}

/// Reproducibility: two bolts grown between the same ends, within the same
/// limits and from the same stream, by shapers that compute the same
/// function, have the same nodes, with their positions and energies, in the
/// same order, and the same segments.
pub proof fn lemma_same_inputs_same_bolt<
    P,
    E,
    S,
    F: Fn(S, Subdivision<P, E>) -> (S, Shape<P, E>),
    G: Fn(S, Subdivision<P, E>) -> (S, Shape<P, E>),
>(
    first: TreeModel<P, E>,
    second: TreeModel<P, E>,
    start: Placement<P, E>,
    end: Placement<P, E>,
    limits: SubdivisionLimits,
    stream: S,
    first_shape: F,
    second_shape: G,
    shaper: spec_fn(S, Subdivision<P, E>) -> (S, Shape<P, E>),
)
    requires
        follows(first_shape, shaper),
        follows(second_shape, shaper),
        grown_by(first, start, end, limits, stream, first_shape),
        grown_by(second, start, end, limits, stream, second_shape),
    ensures
        first.nodes.len() == second.nodes.len(),
        first.segments.len() == second.segments.len(),
        first.nodes == second.nodes,
        first.segments == second.segments,
        first == second,
{
}

} // verus!
