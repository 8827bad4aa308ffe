//! A CPU voxelizer for triangulated surface meshes.
//!
//! Coordinates are fixed-point: every world position is an integer number of
//! units, and the grid step is a positive integer number of units.  All
//! geometry is therefore exact, and every function of the crate is verified
//! against the mathematical statement of what it computes.  A grid cell
//! `(i, j, k)` addresses the world-space cube whose minimum corner is
//! `(i*step, j*step, k*step)` and whose edge length is `step`; this
//! minimum-corner convention is used uniformly.
//!
//! The pipeline: [`Voxels::voxelize`] turns vertices, face indices and a
//! step into the set of grid cells touching the surface;
//! [`Voxels::fill`] solidifies the enclosed interior by three scan-line
//! parity sweeps; [`Voxels::vertices_indices`] rebuilds a face-culled
//! surface mesh, and [`Voxels::point_cloud`] exports one representative
//! point per cell.

pub mod sat;
pub mod vector;
pub mod voxelize;

pub use sat::triangle_aabb_intersects;
pub use vector::{Vec3i, Vector3};
pub use voxelize::{Cell, CellI, Triangle, Voxels, VoxelizeError, AABB, COORD_LIMIT, GRID_LIMIT};
