use vstd::prelude::*;
use crate::tree::{LightningNode, LightningTree, TreeModel};

verus! {

/// Distance between two sampled segments when `particle_count` samples are
/// asked of `segment_count` segments: the whole quotient, and never less
/// than one.
pub open spec fn sample_stride(segment_count: nat, particle_count: nat) -> nat {
    if particle_count == 0 || segment_count / particle_count == 0 {
        1
    } else {
        segment_count / particle_count
    }
}

/// Number of samples taken: as many as asked for, unless the segments run
/// out first.
pub open spec fn sample_count(segment_count: nat, particle_count: nat) -> nat {
    if segment_count <= particle_count {
        segment_count
    } else {
        particle_count
    }
}

impl<P, E> TreeModel<P, E> {
    /// The two nodes joined by the segment that gives sample number `k`.
    pub open spec fn sampled_ends(self, particle_count: nat, k: int) -> (
        LightningNode<P, E>,
        LightningNode<P, E>,
    ) {
        let segment = self.segments[k * sample_stride(self.segments.len(), particle_count)];
        (self.nodes[segment.0 as int], self.nodes[segment.1 as int])
    }
}

proof fn lemma_multiple_in_window(i: int, len: int, stride: int)
    requires
        stride > 0,
        i >= 0,
        len >= 0,
        i % stride == 0,
        (len - 1) * stride < i || len == 0,
        i <= len * stride,
    ensures
        i == len * stride,
{
    let m = i / stride;
    assert(i == stride * m) by (nonlinear_arith)
        requires
            stride > 0,
            i % stride == 0,
            m == i / stride,
    ;
    assert(m == len) by (nonlinear_arith)
        requires
            stride > 0,
            i == stride * m,
            i >= 0,
            len >= 0,
            (len - 1) * stride < i || len == 0,
            i <= len * stride,
    ;
    assert(stride * m == len * stride) by (nonlinear_arith)
        requires
            m == len,
    ;
}

proof fn lemma_not_multiple_in_window(i: int, len: int, stride: int)
    requires
        stride > 0,
        len >= 0,
        i % stride != 0,
        i <= len * stride,
    ensures
        i + 1 <= len * stride,
{
    assert((len * stride) % stride == 0) by (nonlinear_arith)
        requires
            stride > 0,
    ;
}

proof fn lemma_walk_ends(count: int, wanted: int, len: int, stride: int)
    requires
        count > 0,
        wanted > 0,
        stride == sample_stride(count as nat, wanted as nat),
        0 <= len <= wanted,
        len == 0 || (len - 1) * stride < count,
        len < wanted ==> count <= len * stride,
    ensures
        len == sample_count(count as nat, wanted as nat),
{
    if count >= wanted {
        assert(count / wanted >= 1 && wanted * (count / wanted) <= count) by (nonlinear_arith)
            requires
                count >= wanted,
                wanted > 0,
        ;
        if len < wanted {
            assert(len * stride <= wanted * stride - stride) by (nonlinear_arith)
                requires
                    len <= wanted - 1,
                    stride > 0,
            ;
        }
    } else {
        assert(count / wanted == 0) by (nonlinear_arith)
            requires
                0 < count < wanted,
        ;
        assert(stride == 1);
    }
}

/// Segment `i` gives sample number `k`.
pub open spec fn gives_sample(segment_count: nat, particle_count: nat, i: int, k: int) -> bool {
    0 <= k < sample_count(segment_count, particle_count) && i == k * sample_stride(
        segment_count,
        particle_count,
    )
}

/// A segment gives a sample exactly when its index is a multiple of the
/// stride and fewer than `particle_count` such segments come before it.
pub proof fn lemma_sampled_are_the_first_multiples(
    segment_count: nat,
    particle_count: nat,
    i: int,
)
    requires
        0 <= i < segment_count,
    ensures
        (exists|k: int| gives_sample(segment_count, particle_count, i, k)) <==> {
            let stride = sample_stride(segment_count, particle_count) as int;
            i % stride == 0 && i / stride < particle_count
        },
{
    let stride = sample_stride(segment_count, particle_count) as int;
    let m = i / stride;
    assert(i == stride * m + i % stride && 0 <= i % stride < stride && 0 <= m <= i)
        by (nonlinear_arith)
        requires
            stride > 0,
            i >= 0,
            m == i / stride,
    ;
    if i % stride == 0 && m < particle_count {
        assert(i == m * stride) by (nonlinear_arith)
            requires
                i == stride * m,
        ;
        assert(gives_sample(segment_count, particle_count, i, m));
    }
    if exists|k: int| gives_sample(segment_count, particle_count, i, k) {
        let k = choose|k: int| gives_sample(segment_count, particle_count, i, k);
        assert(i % stride == 0 && i / stride == k) by (nonlinear_arith)
            requires
                i == k * stride,
                stride > 0,
                k >= 0,
        ;
    }
}

/// The segments that give the samples, by their indices: segments are
/// walked in order, every one whose index is a multiple of the stride is
/// taken, and the walk is over after `particle_count` of them.
pub fn sampled_segment_indices(segment_count: usize, particle_count: usize) -> (indices: Vec<usize>)
    ensures
        indices@.len() == sample_count(segment_count as nat, particle_count as nat),
        forall|k: int|
            0 <= k < indices@.len() ==> #[trigger] indices@[k] == k * sample_stride(
                segment_count as nat,
                particle_count as nat,
            ),
        forall|k: int| 0 <= k < indices@.len() ==> #[trigger] indices@[k] < segment_count,
{
    let mut indices: Vec<usize> = Vec::new();
    if segment_count == 0 || particle_count == 0 {
        return indices;
    }
    let quotient: usize = segment_count / particle_count;
    let stride: usize = if quotient == 0 {
        1
    } else {
        quotient
    };
    let mut i: usize = 0;
    while i < segment_count
        invariant
            i <= segment_count,
            stride > 0,
            stride == sample_stride(segment_count as nat, particle_count as nat),
            indices@.len() <= particle_count,
            indices@.len() == 0 || (indices@.len() - 1) * stride < i,
            indices@.len() < particle_count ==> i <= indices@.len() * stride,
            forall|k: int| 0 <= k < indices@.len() ==> #[trigger] indices@[k] == k * stride,
            forall|k: int| 0 <= k < indices@.len() ==> #[trigger] indices@[k] < i,
        decreases segment_count - i,
    {
        if indices.len() < particle_count {
            if i % stride == 0 {
                proof {
                    lemma_multiple_in_window(i as int, indices@.len() as int, stride as int);
                }
                indices.push(i);
                assert((indices@.len() - 1) * stride == i);
                assert(i + 1 <= indices@.len() * stride) by (nonlinear_arith)
                    requires
                        (indices@.len() - 1) * stride == i,
                        stride > 0,
                ;
            } else {
                proof {
                    lemma_not_multiple_in_window(i as int, indices@.len() as int, stride as int);
                }
            }
        }
        i += 1;
    }
    proof {
        lemma_walk_ends(
            segment_count as int,
            particle_count as int,
            indices@.len() as int,
            stride as int,
        );
    }
    indices
}

impl<P: Copy, E: Copy> LightningTree<P, E> {
    /// Positions along the bolt for seeding particles: one per sampled
    /// segment, found by `midpoint` from the positions of its two ends.
    pub fn sample_particle_positions<F>(&self, particle_count: usize, midpoint: F) -> (positions:
        Vec<P>) where F: Fn(P, P) -> P
        requires
            self@.segments_in_range(),
            forall|k: int|
                0 <= k < sample_count(self@.segments.len(), particle_count as nat)
                    ==> call_requires(
                    midpoint,
                    (
                        (#[trigger] self@.sampled_ends(particle_count as nat, k)).0.position,
                        self@.sampled_ends(particle_count as nat, k).1.position,
                    ),
                ),
        ensures
            positions@.len() == sample_count(self@.segments.len(), particle_count as nat),
            positions@.len() <= particle_count,
            particle_count == 0 ==> positions@ == Seq::<P>::empty(),
            self@.segments.len() < particle_count ==> positions@.len() < particle_count,
            forall|k: int|
                0 <= k < positions@.len() ==> call_ensures(
                    midpoint,
                    (
                        self@.sampled_ends(particle_count as nat, k).0.position,
                        self@.sampled_ends(particle_count as nat, k).1.position,
                    ),
                    #[trigger] positions@[k],
                ),
    {
        let indices = sampled_segment_indices(self.segments.len(), particle_count);
        let mut positions: Vec<P> = Vec::new();
        let mut k: usize = 0;
        while k < indices.len()
            invariant
                k <= indices@.len(),
                positions@.len() == k,
                self@.segments_in_range(),
                indices@.len() == sample_count(self@.segments.len(), particle_count as nat),
                forall|j: int|
                    0 <= j < indices@.len() ==> #[trigger] indices@[j] == j * sample_stride(
                        self@.segments.len(),
                        particle_count as nat,
                    ),
                forall|j: int| 0 <= j < indices@.len() ==> #[trigger] indices@[j] < self@.segments.len(),
                forall|j: int|
                    0 <= j < sample_count(self@.segments.len(), particle_count as nat)
                        ==> call_requires(
                        midpoint,
                        (
                            (#[trigger] self@.sampled_ends(particle_count as nat, j)).0.position,
                            self@.sampled_ends(particle_count as nat, j).1.position,
                        ),
                    ),
                forall|j: int|
                    0 <= j < k ==> call_ensures(
                        midpoint,
                        (
                            self@.sampled_ends(particle_count as nat, j).0.position,
                            self@.sampled_ends(particle_count as nat, j).1.position,
                        ),
                        #[trigger] positions@[j],
                    ),
            decreases indices@.len() - k,
        {
            let index = indices[k];
            let segment = self.segments[index];
            assert(segment == self@.segments[index as int]);
            let start = self.nodes[segment.0];
            let end = self.nodes[segment.1];
            assert((start, end) == self@.sampled_ends(particle_count as nat, k as int));
            let position = midpoint(start.position, end.position);
            positions.push(position);
            k += 1;
        }
        proof {
            if particle_count == 0 {
                assert(positions@ =~= Seq::<P>::empty());
            }
        }
        positions
    }

    /// Position and energy along the bolt for seeding particles: one pair
    /// per sampled segment, found by `blend` from the two nodes it joins.
    pub fn get_particle_data<F>(&self, particle_count: usize, blend: F) -> (data: Vec<(P, E)>) where
        F: Fn(LightningNode<P, E>, LightningNode<P, E>) -> (P, E),

        requires
            self@.segments_in_range(),
            forall|k: int|
                0 <= k < sample_count(self@.segments.len(), particle_count as nat)
                    ==> call_requires(
                    blend,
                    #[trigger] self@.sampled_ends(particle_count as nat, k),
                ),
        ensures
            data@.len() == sample_count(self@.segments.len(), particle_count as nat),
            data@.len() <= particle_count,
            particle_count == 0 ==> data@ == Seq::<(P, E)>::empty(),
            self@.segments.len() < particle_count ==> data@.len() < particle_count,
            forall|k: int|
                0 <= k < data@.len() ==> call_ensures(
                    blend,
                    self@.sampled_ends(particle_count as nat, k),
                    #[trigger] data@[k],
                ),
    {
        let indices = sampled_segment_indices(self.segments.len(), particle_count);
        let mut data: Vec<(P, E)> = Vec::new();
        let mut k: usize = 0;
        while k < indices.len()
            invariant
                k <= indices@.len(),
                data@.len() == k,
                self@.segments_in_range(),
                indices@.len() == sample_count(self@.segments.len(), particle_count as nat),
                forall|j: int|
                    0 <= j < indices@.len() ==> #[trigger] indices@[j] == j * sample_stride(
                        self@.segments.len(),
                        particle_count as nat,
                    ),
                forall|j: int| 0 <= j < indices@.len() ==> #[trigger] indices@[j] < self@.segments.len(),
                forall|j: int|
                    0 <= j < sample_count(self@.segments.len(), particle_count as nat)
                        ==> call_requires(
                        blend,
                        #[trigger] self@.sampled_ends(particle_count as nat, j),
                    ),
                forall|j: int|
                    0 <= j < k ==> call_ensures(
                        blend,
                        self@.sampled_ends(particle_count as nat, j),
                        #[trigger] data@[j],
                    ),
            decreases indices@.len() - k,
        {
            let index = indices[k];
            let segment = self.segments[index];
            assert(segment == self@.segments[index as int]);
            let start = self.nodes[segment.0];
            let end = self.nodes[segment.1];
            assert((start, end) == self@.sampled_ends(particle_count as nat, k as int));
            let pair = blend(start, end);
            data.push(pair);
            k += 1;
        }
        proof {
            if particle_count == 0 {
                assert(data@ =~= Seq::<(P, E)>::empty());
            }
        }
        data
    }
}

} // verus!
