//! Sparse, coloured voxel grids from surface meshes and point clouds.
//!
//! The library holds the rules of voxelisation: how a coordinate is brought
//! onto the grid, which rays a shell scan casts and in what order, when a
//! ray-triangle hit counts, where a hit lies and which texel it samples, how
//! samples that share a cell are reduced to one, and how the result is laid
//! out in bytes.
//!
//! A binary32 number is carried as its bit pattern, and its arithmetic is
//! carried out on integers: every number is a whole multiple of `2^-149`, and
//! sum, product and quotient are the exact results rounded as IEEE 754 rounds
//! them. So every rule here is stated, and proved, over the integers.
use vstd::prelude::*;

pub mod arithmetic;
pub mod bbox;
pub mod dedup;
pub mod formats;
pub mod grid;
pub mod mesh;
pub mod pointcloud;
pub mod rotation;
pub mod rounding;
pub mod scalar;
pub mod vector;

verus! {

} // verus!
