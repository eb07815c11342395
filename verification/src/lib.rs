//! Branching fractal bolts as an arena of nodes and index pairs.
//!
//! The crate verifies the combinatorial core of a midpoint-displacement
//! lightning generator: the last-in-first-out work list, the validity of
//! every node index, termination, size bounds, and stride-based sampling.
//! Coordinates and energies are type parameters: the verified code stores
//! them and hands them back but never computes with them, so the caller
//! supplies the geometry as plain closures. The random stream of a seed is
//! started here and handed through those closures, which draw from it.

pub mod limits;
pub mod stream;
pub mod tree;
pub mod growth;
pub mod bounds;
pub mod generate;
pub mod sampling;

pub use generate::{follows, generated, grown_by, maintains};
pub use growth::{Placement, Shape, Subdivision, SubdivisionTask};
pub use limits::{LightningConfig, SubdivisionLimits};
pub use sampling::sampled_segment_indices;
pub use tree::{LightningNode, LightningTree, TreeModel};
