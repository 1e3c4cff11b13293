//! Ball-pivoting surface reconstruction: the combinatorial core.
//!
//! Points are handled by index. The floating-point geometry (distances,
//! in-circle radii, angles, fold-over tests) is supplied by the caller as
//! functions returning plain values; everything that decides what the mesh
//! becomes is verified here.
pub mod bpa;
pub mod cell;
pub mod edge;
pub mod grid;
pub mod shortlist;
