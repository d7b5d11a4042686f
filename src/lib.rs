//! Spatial core of a 2D tile simulation: a sparse chunked tile grid, a
//! dynamic collider index over it, and a per-axis swept movement resolver.
//!
//! Continuous ("actor") positions are fixed-point integers: one unit is one
//! hundredth of a world unit.
pub mod geometry;
pub mod config;
pub mod ray;
pub mod notify;
pub mod material;
pub mod chunk_index;
pub mod name_index;
pub mod handle_set;
pub mod small;
pub mod world;
pub mod colliders;
pub mod listen;
pub mod kinematic;

