//! Voxel occupancy stores, boundary-mesh extraction, and a distance-ordered
//! material injector over an integer lattice.

pub mod bbox;
pub mod generate;
pub mod inject;
pub mod laws;
pub mod model;
pub mod monotonicvoxel;
pub mod rangesetvoxel;
pub mod toolpath;
pub mod voxel;
pub mod voxelidx;

pub use bbox::BoundingBox;
pub use model::Model;
pub use voxelidx::VoxelIdx;
