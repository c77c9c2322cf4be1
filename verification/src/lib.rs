//! A chunked voxel world: block storage, dirty-region tracking, face-culled
//! mesh generation, grid ray casting and swept box collision.

pub mod block;
pub mod coords;
pub mod shapes;
mod random;
pub mod chunk;
pub mod block_texture_sides;
pub mod world;
pub mod chunk_manager;
pub mod tracking;
pub mod raycast;
pub mod ray_path;
pub mod aabb;
pub mod physics;
pub mod terrain;
