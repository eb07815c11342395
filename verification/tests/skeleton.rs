use procedural_lightning::{
    LightningNode, LightningTree, Placement, Shape, Subdivision, SubdivisionLimits,
};

/// A shaper without geometry. The stream counts the calls; a midpoint is
/// named 1000 + call, a branch tip 2000 + call, and the energy records the
/// two ends that were shown.
fn numbered(branching: bool) -> impl Fn(u64, Subdivision<u64, (u64, u64)>) -> (u64, Shape<u64, (u64, u64)>) {
    move |call, sub| {
        let seen = (sub.start.position, sub.end.position);
        let branch = if branching {
            Some(Placement { position: 2000 + call, energy: seen })
        } else {
            None
        };
        (call + 1, Shape { mid: Placement { position: 1000 + call, energy: seen }, branch })
    }
}

fn grow(max_depth: u32, max_branch_depth: u32, branching: bool) -> LightningTree<u64, (u64, u64)> {
    LightningTree::generate_from(
        Placement { position: 1, energy: (0, 0) },
        Placement { position: 2, energy: (0, 0) },
        &SubdivisionLimits { max_depth, max_branch_depth },
        0,
        numbered(branching),
    )
}

fn leaf_bound(levels: u32, nesting: u32) -> usize {
    if levels == 0 {
        1
    } else if nesting == 0 {
        2 * leaf_bound(levels - 1, 0)
    } else {
        2 * leaf_bound(levels - 1, nesting) + leaf_bound(levels - 1, nesting - 1)
    }
}

#[test]
fn default_limits_are_eight_and_three() {
    let limits = SubdivisionLimits::default();
    assert_eq!(limits.max_depth, 8);
    assert_eq!(limits.max_branch_depth, 3);
}

#[test]
fn first_node_is_the_start() {
    for depth in 0..5 {
        let tree = grow(depth, 2, true);
        assert_eq!(tree.root, 1);
        assert_eq!(tree.nodes[0].position, 1);
        assert_eq!(tree.nodes[0].branch_depth, 0);
        assert_eq!(tree.nodes[1].position, 2);
        assert_eq!(tree.nodes[1].branch_depth, 0);
    }
}

#[test]
fn depth_zero_never_asks_the_shaper() {
    let tree = LightningTree::generate_from(
        Placement { position: 1u64, energy: 5u8 },
        Placement { position: 2u64, energy: 4u8 },
        &SubdivisionLimits { max_depth: 0, max_branch_depth: 3 },
        (),
        |_: (), _: Subdivision<u64, u8>| -> ((), Shape<u64, u8>) { unreachable!() },
    );
    assert_eq!(tree.nodes.len(), 2);
    assert_eq!(tree.segments, vec![(0, 1)]);
    assert_eq!(tree.nodes[0].energy, 5);
    assert_eq!(tree.nodes[1].energy, 4);
    assert_eq!(tree.segment_count(), 1);
}

#[test]
fn one_halving_with_a_branch_serves_the_branch_first() {
    let tree = grow(1, 1, true);
    let positions: Vec<u64> = tree.nodes.iter().map(|n| n.position).collect();
    assert_eq!(positions, vec![1, 2, 1000, 2000]);
    assert_eq!(tree.segments, vec![(2, 3), (2, 1), (0, 2)]);
    assert_eq!(tree.nodes[2].branch_depth, 0);
    assert_eq!(tree.nodes[3].branch_depth, 1);
}

#[test]
fn two_halvings_follow_the_work_list_last_in_first_out() {
    let tree = grow(2, 1, true);
    let positions: Vec<u64> = tree.nodes.iter().map(|n| n.position).collect();
    assert_eq!(positions, vec![1, 2, 1000, 2000, 1001, 1002, 2002, 1003, 2003]);
    assert_eq!(
        tree.segments,
        vec![(4, 3), (2, 4), (5, 6), (5, 1), (2, 5), (7, 8), (7, 2), (0, 7)]
    );
    let nesting: Vec<u32> = tree.nodes.iter().map(|n| n.branch_depth).collect();
    assert_eq!(nesting, vec![0, 0, 0, 1, 1, 0, 1, 0, 1]);
    // which edge each call was shown
    assert_eq!(tree.nodes[2].energy, (1, 2));
    assert_eq!(tree.nodes[4].energy, (1000, 2000));
    assert_eq!(tree.nodes[5].energy, (1000, 2));
    assert_eq!(tree.nodes[7].energy, (1, 1000));
}

#[test]
fn shaper_is_told_whether_a_branch_may_leave() {
    let tree = LightningTree::generate_from(
        Placement { position: 0u32, energy: false },
        Placement { position: 0u32, energy: false },
        &SubdivisionLimits { max_depth: 3, max_branch_depth: 1 },
        (),
        |_: (), sub: Subdivision<u32, bool>| {
            let told = Placement { position: sub.depth * 10 + sub.branch_depth, energy: sub.may_branch };
            ((), Shape { mid: told, branch: Some(told) })
        },
    );
    for node in &tree.nodes[2..] {
        if node.branch_depth == 0 {
            // a midpoint of the main path: a branch was allowed there
            assert!(node.energy);
            assert_eq!(node.position % 10, 0);
        }
        assert!(node.branch_depth <= 1);
        assert!(node.position / 10 < 3);
    }
    let denied = tree.nodes[2..].iter().filter(|n| !n.energy).count();
    assert!(denied > 0);
    for node in tree.nodes[2..].iter().filter(|n| !n.energy) {
        assert_eq!(node.branch_depth, 1);
        assert_eq!(node.position % 10, 1);
    }
}

#[test]
fn branch_offered_beyond_the_limit_is_dropped() {
    let tree = grow(5, 0, true);
    assert_eq!(tree.segments.len(), 32);
    assert_eq!(tree.nodes.len(), 33);
    for node in &tree.nodes {
        assert_eq!(node.branch_depth, 0);
        assert!(node.position < 2000);
    }
}

#[test]
fn unbranched_bolt_has_two_to_the_depth_segments() {
    for depth in 0..10u32 {
        let tree = grow(depth, 3, false);
        assert_eq!(tree.segments.len(), 1usize << depth);
        assert_eq!(tree.nodes.len(), (1usize << depth) + 1);
    }
}

#[test]
fn always_branching_reaches_the_bound() {
    assert_eq!(leaf_bound(4, 2), 72);
    for depth in 0..7u32 {
        for nesting in 0..4u32 {
            let tree = grow(depth, nesting, true);
            assert_eq!(tree.segments.len(), leaf_bound(depth, nesting));
            assert_eq!(tree.nodes.len(), tree.segments.len() + 1);
            assert!(tree.segments.len() <= 3usize.pow(depth));
            assert!(tree.segments.len() >= 1usize << depth);
            for node in &tree.nodes {
                assert!(node.branch_depth <= nesting);
            }
        }
    }
}

#[test]
fn every_segment_joins_two_different_nodes() {
    let tree = grow(6, 3, true);
    assert!(tree.has_segments_in_range());
    for &(a, b) in &tree.segments {
        assert!(a < tree.nodes.len());
        assert!(b < tree.nodes.len());
        assert_ne!(a, b);
    }
}

#[test]
fn path_from_start_to_end_is_unbroken() {
    let tree = grow(4, 0, false);
    // without branches the segments, read backwards, lead from node 0 to node 1
    let mut at = 0usize;
    for &(a, b) in tree.segments.iter().rev() {
        assert_eq!(a, at);
        at = b;
    }
    assert_eq!(at, 1);
}

#[test]
fn stream_is_handed_from_call_to_call() {
    let tree = grow(3, 0, false);
    let mut mids: Vec<u64> = tree.nodes[2..].iter().map(|n| n.position).collect();
    assert_eq!(mids, vec![1000, 1001, 1002, 1003, 1004, 1005, 1006]);
    mids.dedup();
    assert_eq!(mids.len(), 7);
}

#[test]
fn two_runs_of_one_shaper_agree() {
    let first = grow(5, 2, true);
    let second = grow(5, 2, true);
    assert_eq!(first.segments, second.segments);
    assert_eq!(first.nodes.len(), second.nodes.len());
    for (a, b) in first.nodes.iter().zip(second.nodes.iter()) {
        assert_eq!(a.position, b.position);
        assert_eq!(a.energy, b.energy);
        assert_eq!(a.branch_depth, b.branch_depth);
    }
}

#[test]
fn nodes_can_be_copied_and_trees_cloned() {
    let tree = grow(2, 1, true);
    let copy: LightningNode<u64, (u64, u64)> = tree.nodes[2];
    assert_eq!(copy.position, tree.nodes[2].position);
    let twin = tree.clone();
    assert_eq!(twin.segments, tree.segments);
    assert_eq!(twin.root, tree.root);
    assert_eq!(twin.nodes.len(), tree.nodes.len());
}
