//! Lattice vectors, matrices, and norm bounds.
pub mod params;
pub mod problems;
pub mod sampling;
pub mod types;

pub use params::{
    CanonicalNormEmbedding, LargeNormBound, LargeNormStats, LargeNormValue, LargeNormedRing, NormBound,
    NormStats, NormedRing,
};
pub use types::{RingMat, RingVec};
