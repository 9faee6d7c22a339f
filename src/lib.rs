//! Spatial index over a bounded plane for an agent-based epidemic model,
//! together with the small pieces of bookkeeping that surround it.

pub mod agent;
pub mod disease;
pub mod geometry;
pub mod quadtree;
pub mod render;
pub mod transmission;
pub mod world;
