//! Domain-decomposed surface reconstruction of particle clouds: the integer
//! lattice, the octree decomposition with ghost margins, and the bookkeeping
//! that moves particle data in and out of subdomains and merges their meshes.

pub mod grid;
pub mod mesh;
pub mod octree;
pub mod reconstruction;
pub mod stitching;
