//! The verified core of a path-tracing renderer: pixel grids and their PPM text, the face
//! octree that prunes triangle tests, mesh face indexing and the nearest-face reduction,
//! the scene's nearest-hit search, albedo lookups, texture unpacking, low-discrepancy
//! sample sets and the bounce rules of the integrator.
pub mod albedo;
pub mod color;
pub mod image;
pub mod integrator;
pub mod mesh;
pub mod octree;
pub mod picture;
pub mod sampling;
pub mod text;
pub mod world;
