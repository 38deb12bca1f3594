//! Voxel world streaming and greedy meshing, with machine-checked contracts.

pub mod asset;
pub mod chunk;
pub mod chunk_area;
pub mod chunker;
pub mod greedy_meshing;
pub mod mesh;
pub mod registry;
pub mod sliding_vec3d;
pub mod solid;
pub mod tiling;
pub mod vox;
pub mod vox3d;
pub mod voxheightmap;
pub mod world;
pub mod world_window;
