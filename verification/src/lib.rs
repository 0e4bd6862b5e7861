//! Voxel terrain meshing: voxel sources, a dense voxel chunk and the
//! surface-net, blocky and marching-cubes topology builders.

pub mod blocky;
pub mod chunk;
pub mod lattice;
pub mod marching_cubes;
pub mod mesh;
pub mod surface;
pub mod surfnet;
pub mod voxel_source;

pub use voxel_source::{SphereSource, VoxelSource};
