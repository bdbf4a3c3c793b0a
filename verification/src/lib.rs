//! A maze-generation core: perfect mazes on 2D and 3D grids via a randomized
//! hunt-and-kill walk, plus voxelization, box-collider extraction, and greedy
//! quad meshing of the resulting occupancy grid.

use vstd::prelude::*;

mod direction;
mod maze2d;
mod maze3d;
mod mesh;
mod voxel;

pub use direction::Direction2D;
pub use direction::Direction3D;
pub use maze2d::Maze2D;
pub use maze3d::Maze3D;
pub use voxel::BoxCollider;
pub use voxel::VoxelGrid;
pub use mesh::FaceDir;
pub use mesh::MeshBuffers;
pub use mesh::Quad;
pub use mesh::build_mesh;
pub use mesh::greedy_quads;
pub use mesh::quads_to_buffers;
pub use voxel::voxelize2d;
pub use voxel::voxelize3d;

verus! {

/// The one rejected input class: a grid dimension of zero.
#[derive(Clone, Copy, PartialEq, Eq, Structural, Debug)]
pub enum MazeError {
    ZeroDimension,
}

} // verus!
