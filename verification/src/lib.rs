//! Spatial-distance queries and bounded nearest-neighbor candidate lists for
//! a fixed set of locations.
//!
//! Distances enter the crate as plain unsigned keys whose numeric order
//! mirrors the order of the underlying distances (for non-negative IEEE
//! doubles, the raw bit pattern is such a key). On top of those keys the
//! crate offers a flat row-major matrix, a dual-mode distance matrix that
//! either materializes the full pairwise table or answers each query from
//! the per-pair rows, and a per-node candidate list of the nearest other
//! nodes, sorted by distance with ties broken by ascending index.

pub mod correlation;
pub mod distance;
pub mod matrix;
pub mod provider;

pub use correlation::CorrelationMatrix;
pub use distance::DistanceMatrix;
pub use distance::DistanceMatrixBuilder;
pub use matrix::Matrix;
pub use provider::MatrixProvider;
