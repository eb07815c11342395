use vstd::prelude::*;

verus! {

/// The two limits of a generation: how often an edge is halved, and how
/// deeply branches may nest.
#[derive(Clone, Copy, Debug)]
pub struct SubdivisionLimits {
    /// Number of times every edge of the bolt is halved.
    pub max_depth: u32,
    /// Deepest nesting of a branch; the main path has nesting 0.
    pub max_branch_depth: u32,
}

impl Default for SubdivisionLimits {
    fn default() -> (limits: Self)
        ensures
            limits.max_depth == 8,
            limits.max_branch_depth == 3,
    {
        SubdivisionLimits { max_depth: 8, max_branch_depth: 3 }
    }
}

/// What a generation is configured with, apart from the numbers that only
/// the shaper reads: the seed of the random stream and the two limits.
#[derive(Clone, Copy, Debug)]
pub struct LightningConfig {
    /// Seed of the random stream; the same seed gives the same bolt.
    pub seed: u64,
    /// Number of times every edge of the bolt is halved.
    pub max_depth: u32,
    /// Deepest nesting of a branch; the main path has nesting 0.
    pub max_branch_depth: u32,
}

impl LightningConfig {
    /// The limits named by the configuration.
    pub open spec fn spec_limits(&self) -> SubdivisionLimits {
        SubdivisionLimits { max_depth: self.max_depth, max_branch_depth: self.max_branch_depth }
    }

    /// The limits named by the configuration.
    #[verifier::when_used_as_spec(spec_limits)]
    pub fn limits(&self) -> (limits: SubdivisionLimits)
        ensures
            limits == self.spec_limits(),
    {
        SubdivisionLimits { max_depth: self.max_depth, max_branch_depth: self.max_branch_depth }
    }
}

impl Default for LightningConfig {
    fn default() -> (config: Self)
        ensures
            config.seed == 0,
            config.max_depth == 8,
            config.max_branch_depth == 3,
    {
        LightningConfig { seed: 0, max_depth: 8, max_branch_depth: 3 }
    }
}

} // verus!
