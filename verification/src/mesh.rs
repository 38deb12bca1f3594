//! Triangle meshes in voxel units.

use vstd::prelude::*;

verus! {

/// A corner of a triangle: where it is, which way its face looks, and its colour.
#[derive(Clone, Copy, Debug, PartialEq, Eq)]
pub struct Vertex {
    /// The position, in voxels from the origin of the volume.
    pub position: [usize; 3],
    /// The outward normal of the face.
    pub normal: [i32; 3],
    /// The colour as red, green and blue.
    pub color: [u8; 3],
}

impl Vertex {
    /// A vertex with the given position, normal and colour.
    pub fn new(position: [usize; 3], normal: [i32; 3], color: [u8; 3]) -> (v: Self)
        ensures
            v == (Vertex { position, normal, color }),
    {
        Vertex { position, normal, color }
    }
}

/// Vertices and the triangles over them, three indices each.
#[derive(Debug)]
pub struct MeshData {
    /// The vertices, four per quad.
    pub vertices: Vec<Vertex>,
    /// The corners of the triangles as positions in `vertices`.
    pub indices: Vec<usize>,
}

impl MeshData {
    /// The invariant of a mesh: whole triangles, over vertices that exist.
    pub open spec fn wf(&self) -> bool {
        &&& self.indices@.len() % 3 == 0
        &&& forall|i: int|
            0 <= i < self.indices@.len() ==> (#[trigger] self.indices@[i]) < self.vertices@.len()
    }

    /// The number of quads: every quad has four vertices.
    pub fn quad_count(&self) -> (n: usize)
        ensures
            n == self.vertices@.len() / 4,
    {
        self.vertices.len() / 4
    }

    /// The number of triangles.
    pub fn triangle_count(&self) -> (n: usize)
        ensures
            n == self.indices@.len() / 3,
    {
        self.indices.len() / 3
    }
}

} // verus!
