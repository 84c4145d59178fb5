//! A spatial index over a fixed set of point-like records ("photons").
//!
//! The index is a k-d tree over four-lane integer coordinates, built once
//! from a flat record sequence and serving read-only k-nearest-neighbor
//! queries by branch-and-bound traversal with provably admissible
//! distance bounds.

pub mod photon_map;
pub mod vector4;

pub use photon_map::KDTreeNode;
pub use photon_map::NodeWithKnownBoundsAndMinDistance;
pub use photon_map::Photon;
pub use photon_map::PhotonMap;
pub use vector4::Vector4;
