//! Narrow-band signed distance fields on a sparse voxel lattice.
//!
//! A solid is described by the signed distance to its surface, sampled at the
//! points of an integer lattice and stored only near the surface.  Distances
//! and world coordinates are fixed-point integers, so that every operation is
//! exact: negative values lie inside the solid, positive values outside, and
//! zero on the surface.
//!
//! A `Volume` owns one `Grid` and a voxel size.  It is built by sampling a
//! distance function, combined with another volume by union, intersection
//! or subtraction, and offset to grow or shrink the solid.  Underneath, a
//! grid is flood filled to give every lattice point a side, trimmed to the
//! voxels that bracket the surface, and swept to rebuild distances in a
//! wider band.

pub mod arith;
pub mod point;
pub mod cell;
pub mod leaf;
pub mod grid;
pub mod flood;
pub mod csg;
pub mod trim;
pub mod eikonal;
pub mod sweep;
pub mod offset;
pub mod export;
pub mod volume;
pub mod laws;
