//! Voxel grids stored as a sparse set of cubic chunks, and the boundary of
//! unloaded chunks that surrounds the loaded ones.
//!
//! - `ivec`: integer 3-vectors and their component-wise Euclidean division.
//! - `chunk`: a cube of `N * N * N` cells.
//! - `grid`: a grid of chunks, allocated on first write.
//! - `boundary`: the unloaded chunks adjacent to loaded ones, kept in sync as
//!   chunks are loaded.
//! - `key`: packing of chunk coordinates into integer keys.

pub mod boundary;
pub mod chunk;
pub mod grid;
pub mod ivec;
pub mod key;

pub use boundary::{faces, sync_boundary_collider, BoundaryCollider, ColliderUpdate};
pub use chunk::{dims, Chunk, CELLS, N};
pub use grid::Grid;
pub use ivec::IVec3;
