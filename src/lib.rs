//! Global illumination for a voxel world: breadth-first light flooding,
//! light removal with boundary refill, and whole-region propagation with a
//! straight-down sun.

mod darken;
mod lights;
mod steady;
mod sweep;
mod world;

pub use lights::{LightNode, Lights};
pub use world::{Block, LightCell, LightColor, Registry, Space, Vec2, Vec3, WorldConfig};
