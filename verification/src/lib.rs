//! Building footprints on an integer lattice: rasterising them onto a
//! uniform grid and flooding that grid cell by cell, and raising them into
//! closed solid meshes.
//!
//! All coordinates are integers in a unit of the caller's choosing, so every
//! geometric decision in this crate is exact.
//!
//! - `geometry`: points, rectangles and polygons.
//! - `grid`, with `raster` and `spread`: the grid, how polygons are laid onto
//!   it, and how the flood moves through it; `engine`: the flood with its
//!   pause switch and its saved state.
//! - `model` and `wave`: the flood as a function on matrices of cells, and
//!   what is proved of it.
//! - `mesh`, `earcut`, `flat` and `buildings`: triangle meshes, the input of
//!   a triangulator, flat drawings, and solids raised over footprints.
//! - `store` and `containment`: the two places where this crate relies on
//!   other crates without proof.

pub mod buildings;
pub mod containment;
pub mod earcut;
pub mod engine;
pub mod flat;
pub mod geometry;
pub mod grid;
pub mod mesh;
pub mod model;
pub mod raster;
pub mod spread;
pub mod store;
pub mod wave;
