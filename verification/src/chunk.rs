//! What the streamer keeps of a chunk, and the states that a chunk goes through.

use vstd::prelude::*;

verus! {

/// The name under which a registry of meshes keeps a mesh.
#[derive(Clone, Copy, Debug, PartialEq, Eq, Structural)]
pub struct MeshHandle {
    /// The number that the registry gave to the mesh.
    pub id: usize,
}

/// The entry of a chunk in the sliding grid.
#[derive(Clone, Copy, Debug)]
pub struct Chunk {
    /// The chunk that the entry stands for.
    pub location: [i32; 3],
    /// The mesh of the chunk, once it has arrived.
    pub mesh_handle: Option<MeshHandle>,
    /// Whether the mesh was asked for.
    pub requested: bool,
}

/// Where a chunk is on its way into the world and out of it.
#[derive(Clone, Copy, Debug, PartialEq, Eq, Structural)]
pub enum ChunkState {
    /// Nothing is kept of the chunk.
    Absent,
    /// The mesh was asked for and has not arrived.
    Requested,
    /// The mesh is there, under this handle.
    Resident(MeshHandle),
}

/// Whether two chunk coordinates are the same chunk.
pub open spec fn same_location(a: [i32; 3], b: [i32; 3]) -> bool {
    a[0] == b[0] && a[1] == b[1] && a[2] == b[2]
}

/// The state of chunk `coord` as a cell of the grid shows it. A cell that
/// stands for another chunk says nothing of this one: cells are shared by all
/// chunks that wrap around to them.
pub open spec fn chunk_state(cell: Option<Chunk>, coord: [i32; 3]) -> ChunkState {
    match cell {
        Some(chunk) => if same_location(chunk.location, coord) {
            match chunk.mesh_handle {
                Some(handle) => ChunkState::Resident(handle),
                None => ChunkState::Requested,
            }
        } else {
            ChunkState::Absent
        },
        None => ChunkState::Absent,
    }
}

impl Chunk {
    /// The entry of a chunk whose mesh was just asked for.
    pub fn new(x: i32, y: i32, z: i32) -> (chunk: Self)
        ensures
            chunk.location == [x, y, z],
            chunk.mesh_handle is None,
            chunk.requested,
            chunk_state(Some(chunk), [x, y, z]) == ChunkState::Requested,
    {
        Self { location: [x, y, z], mesh_handle: None, requested: true }
    }

    /// Whether the entry stands for chunk `coord`.
    pub fn is_at(&self, coord: &[i32; 3]) -> (r: bool)
        ensures
            r == same_location(self.location, *coord),
    {
        self.location[0] == coord[0] && self.location[1] == coord[1] && self.location[2]
            == coord[2]
    }
}

/// The state of chunk `coord` as a cell of the grid shows it.
pub fn state_of(cell: &Option<Chunk>, coord: &[i32; 3]) -> (state: ChunkState)
    ensures
        state == chunk_state(*cell, *coord),
{
    match cell {
        Some(chunk) => {
            if chunk.is_at(coord) {
                match chunk.mesh_handle {
                    Some(handle) => ChunkState::Resident(handle),
                    None => ChunkState::Requested,
                }
            } else {
                ChunkState::Absent
            }
        },
        None => ChunkState::Absent,
    }
}

} // verus!
