//! Removal of normal-quality geometry where high-quality geometry covers
//! it.
//!
//! * `grid`: a sparse grid that buckets the triangles of a mesh by the
//!   cells of their corners, and its box queries.
//! * `mesh`: indexed triangle meshes and their invariant.
//! * `overlap`: which triangles are tested for a point, which vertices of a
//!   mesh are tested at all, and how the findings are gathered.
//! * `carve`: what marking and carving mean, as mathematics.
//! * `model`: meshes with their carving state, models, and the marking and
//!   carving themselves.
//! * `world`: the decisions of the pipeline around them.
//! * `files`: rules about the files read and written.
//! * `messages`: what loaders and their driver say to each other.
//! * `outside`: the types and functions of other crates that the library
//!   relies on without proof.
//!
//! Coordinates are floating-point numbers, about which nothing is proved
//! here: the library stores and hands on positions, asks the crate that
//! defines them for bounding boxes, and takes the test of a point against a
//! single triangle, the grid cell of a point and the mean edge length of a
//! mesh from its caller.

pub mod carve;
pub mod files;
pub mod grid;
pub mod mesh;
pub mod messages;
pub mod model;
pub mod outside;
pub mod overlap;
pub mod world;
