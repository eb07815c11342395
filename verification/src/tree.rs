use vstd::prelude::*;

verus! {

/// A node of the bolt.
#[derive(Clone, Copy, Debug)]
pub struct LightningNode<P, E> {
    /// Where the node lies.
    pub position: P,
    /// Nesting of the sub-path the node belongs to; 0 is the main path.
    pub branch_depth: u32,
    /// Energy density at the node.
    pub energy: E,
}

/// A finished bolt: its nodes in creation order and the edges to draw, each
/// a pair of node indices.
#[derive(Clone, Debug)]
pub struct LightningTree<P, E> {
    /// Position the bolt starts from.
    pub root: P,
    /// All nodes, main path and branches; an index never changes its node.
    pub nodes: Vec<LightningNode<P, E>>,
    /// The edges, as pairs of indices into `nodes`.
    pub segments: Vec<(usize, usize)>,
}

/// The mathematical content of a [`LightningTree`].
pub struct TreeModel<P, E> {
    pub root: P,
    pub nodes: Seq<LightningNode<P, E>>,
    pub segments: Seq<(usize, usize)>,
}

impl<P, E> View for LightningTree<P, E> {
    type V = TreeModel<P, E>;

    open spec fn view(&self) -> TreeModel<P, E> {
        TreeModel { root: self.root, nodes: self.nodes@, segments: self.segments@ }
    }
}

impl<P, E> TreeModel<P, E> {
    /// Both ends of every segment name an existing node.
    pub open spec fn segments_in_range(self) -> bool {
        forall|k: int|
            0 <= k < self.segments.len() ==> (#[trigger] self.segments[k]).0 < self.nodes.len()
                && self.segments[k].1 < self.nodes.len()
    }

    /// The invariants of a bolt: the two seed nodes exist, the bolt starts at
    /// its root, and every segment joins two different existing nodes.
    pub open spec fn well_formed(self) -> bool {
        &&& self.nodes.len() >= 2
        &&& self.nodes[0].position == self.root
        &&& self.segments_in_range()
        &&& forall|k: int|
            0 <= k < self.segments.len() ==> (#[trigger] self.segments[k]).0 != self.segments[k].1
    }
}

impl<P: Copy, E: Copy> LightningTree<P, E> {
    /// Number of segments of the bolt.
    pub fn segment_count(&self) -> (count: usize)
        ensures
            count == self@.segments.len(),
    {
        self.segments.len()
    }

    /// Whether every segment names two existing nodes, which is what reading
    /// the bolt's segments asks for.
    pub fn has_segments_in_range(&self) -> (ok: bool)
        ensures
            ok == self@.segments_in_range(),
    {
        let node_count: usize = self.nodes.len();
        let mut k: usize = 0;
        while k < self.segments.len()
            invariant
                k <= self.segments@.len(),
                node_count == self.nodes@.len(),
                forall|j: int|
                    0 <= j < k ==> (#[trigger] self.segments@[j]).0 < node_count
                        && self.segments@[j].1 < node_count,
            decreases self.segments@.len() - k,
        {
            let segment = self.segments[k];
            assert(segment == self@.segments[k as int]);
            if segment.0 >= node_count || segment.1 >= node_count {
                return false;
            }
            k += 1;
        }
        true
    }

    /// The end points of all segments, two positions per segment, in segment
    /// order: the vertex list of a line drawing.
    pub fn get_line_positions(&self) -> (positions: Vec<P>)
        requires
            self@.segments_in_range(),
        ensures
            positions@.len() == 2 * self@.segments.len(),
            forall|k: int|
                0 <= k < self@.segments.len() ==> {
                    &&& positions@[2 * k] == self@.nodes[(#[trigger] self@.segments[k]).0 as int].position
                    &&& positions@[2 * k + 1] == self@.nodes[self@.segments[k].1 as int].position
                },
    {
        let mut positions: Vec<P> = Vec::new();
        let mut k: usize = 0;
        while k < self.segments.len()
            invariant
                k <= self.segments@.len(),
                self@.segments_in_range(),
                positions@.len() == 2 * k,
                forall|j: int|
                    0 <= j < k ==> {
                        &&& positions@[2 * j] == self@.nodes[(#[trigger] self@.segments[j]).0 as int].position
                        &&& positions@[2 * j + 1] == self@.nodes[self@.segments[j].1 as int].position
                    },
            decreases self.segments@.len() - k,
        {
            let segment = self.segments[k];
            assert(segment == self@.segments[k as int]);
            positions.push(self.nodes[segment.0].position);
            positions.push(self.nodes[segment.1].position);
            k += 1;
        }
        positions
    }
}

} // verus!
