//! The messages between the streamer and the worker that builds chunks, and
//! what the worker does with each of them.

use crate::chunker::{meets, overlaid, overlays_id, placed, Chunker, Placement};
use crate::greedy_meshing::is_mesh_of;
use crate::mesh::MeshData;
use crate::registry::{Handle, Registry};
use crate::vox::{Vox, VoxError};
use crate::vox3d::{
    load_error, load_vox, loaded_cells, loaded_palette, model_dims, Vox3d, VoxData,
};
use vstd::prelude::*;

verus! {

/// What the worker is asked to do.
#[derive(Clone, Copy, Debug, PartialEq, Eq)]
pub enum Command {
    /// Stop.
    Quit,
    /// Build the chunk at these chunk coordinates.
    Load(i32, i32, i32),
    /// Read the voxel model at this path and place it in the world.
    LoadVox(&'static str),
}

/// What the worker sends back: the mesh of a chunk, the position of the
/// chunk in the world in voxels, and the coordinates of the chunk.
#[derive(Debug)]
pub enum Reply {
    /// A chunk that was built.
    Chunk(MeshData, [i128; 3], (i32, i32, i32)),
}

/// Where a model that was read is placed, in voxels, in this order: a model
/// placed later takes the chunks that it shares with one placed before.
pub open spec fn model_positions() -> Seq<[i32; 3]> {
    seq![
        [0i32, 0i32, 0i32],
        [0i32, 0i32, 128i32],
        [128i32, 0i32, 128i32],
        [128i32, 0i32, 0i32],
        [128i32, 0i32, 0i32],
        [128i32, 0i32, 128i32],
        [256i32, 0i32, 128i32],
        [256i32, 0i32, 0i32],
        [0i32, 0i32, 128i32],
        [0i32, 0i32, 256i32],
        [128i32, 0i32, 256i32],
        [128i32, 0i32, 128i32],
        [128i32, 0i32, 128i32],
        [128i32, 0i32, 256i32],
        [256i32, 0i32, 256i32],
        [256i32, 0i32, 128i32],
    ]
}

/// The greatest extent of a model that can be placed at every position.
pub const MAX_MODEL_EXTENT: usize = 0x7fff_ff00;

/// Whether the first model of a file is too large to place it at every position.
pub open spec fn too_large(data: VoxData) -> bool {
    &&& data.models@.len() > 0
    &&& (model_dims(data.models@[0].size)[0] > MAX_MODEL_EXTENT || model_dims(
        data.models@[0].size,
    )[1] > MAX_MODEL_EXTENT || model_dims(data.models@[0].size)[2] > MAX_MODEL_EXTENT)
}

/// Why the first model of a file cannot be placed, if it cannot: it is too
/// large, or it cannot be loaded.
pub open spec fn place_error(data: VoxData) -> Option<VoxError> {
    if too_large(data) {
        Some(VoxError::IndexOutOfRange)
    } else {
        load_error(data)
    }
}

/// What chunk `chunk` holds after a model of extents `size` was placed at
/// the first `k` positions, as the models number `first`, `first + 1` and so
/// on: the part of the model placed last among those that meet the chunk,
/// and otherwise what it held before.
pub open spec fn placement_after(
    before: Chunker,
    first: int,
    size: [usize; 3],
    k: int,
    chunk: (i32, i32, i32),
) -> Option<Placement>
    decreases k,
{
    if k <= 0 {
        before.placement(chunk)
    } else if meets(size, model_positions()[k - 1], before.chunk_size() as int, chunk) {
        Some(
            placed(
                (first + k - 1) as usize,
                size,
                model_positions()[k - 1],
                before.chunk_size() as int,
                chunk,
            ),
        )
    } else {
        placement_after(before, first, size, k - 1, chunk)
    }
}

/// The state of the worker: the models that were read, and where they stand.
pub struct Worker {
    vox_models: Registry<Vox3d>,
    chunker: Chunker,
}

impl Worker {
    /// The models that were read.
    pub closed spec fn models(&self) -> Registry<Vox3d> {
        self.vox_models
    }

    /// The placements of the models.
    pub closed spec fn chunker(&self) -> Chunker {
        self.chunker
    }

    /// The invariant of the worker: every placed model is among the models
    /// that were read.
    pub open spec fn wf(&self) -> bool {
        &&& self.chunker().wf()
        &&& self.chunker().models_in(&self.models())
    }

    /// A worker for chunks of `chunk_size` voxels along each edge, with no model.
    pub fn new(chunk_size: usize) -> (worker: Self)
        requires
            chunk_size > 0,
            chunk_size * chunk_size * chunk_size <= usize::MAX,
        ensures
            worker.wf(),
            worker.chunker().chunk_size() == chunk_size,
            worker.models().items() == Seq::<Vox3d>::empty(),
            forall|chunk: (i32, i32, i32)| worker.chunker().placement(chunk) is None,
    {
        Self { vox_models: Registry::new(), chunker: Chunker::new(chunk_size) }
    }

    /// The number of voxels along the edge of a chunk.
    pub fn get_chunk_size(&self) -> (n: usize)
        ensures
            n == self.chunker().chunk_size(),
    {
        self.chunker.get_chunk_size()
    }

    /// Answers a request for chunk `chunk`, whose ground is `vox_to_gen`: the
    /// part of a model that lies in the chunk is copied over the ground and
    /// the result is meshed. There is a reply exactly if the chunk holds a
    /// voxel; it carries the mesh, the position of the chunk in voxels and
    /// the coordinates of the chunk.
    pub fn load(&self, chunk: (i32, i32, i32), vox_to_gen: &mut Vox3d) -> (reply: Option<Reply>)
        requires
            self.wf(),
            old(vox_to_gen).well_formed(),
            old(vox_to_gen).dims() == [
                self.chunker().chunk_size(),
                self.chunker().chunk_size(),
                self.chunker().chunk_size(),
            ],
        ensures
            final(vox_to_gen).well_formed(),
            final(vox_to_gen).dims() == old(vox_to_gen).dims(),
            self.chunker().placement(chunk) is None ==> *final(vox_to_gen) == *old(vox_to_gen),
            self.chunker().placement(chunk) is Some ==> {
                &&& forall|x: int, y: int, z: int|
                    (#[trigger] final(vox_to_gen).cell(x, y, z)) == (match overlaid(
                        &self.chunker().model_in(&self.models(), chunk),
                        self.chunker().placement(chunk).unwrap(),
                        x,
                        y,
                        z,
                    ) {
                        Some(id) => Some(id),
                        None => old(vox_to_gen).cell(x, y, z),
                    })
                &&& forall|id: u8|
                    (#[trigger] final(vox_to_gen).color(id)) == (if overlays_id(
                        &self.chunker().model_in(&self.models(), chunk),
                        self.chunker().placement(chunk).unwrap(),
                        id,
                    ) {
                        self.chunker().model_in(&self.models(), chunk).color(id)
                    } else {
                        old(vox_to_gen).color(id)
                    })
            },
            reply is Some <==> final(vox_to_gen).touched(),
            match reply {
                Some(Reply::Chunk(mesh, origin, location)) => {
                    &&& is_mesh_of(mesh, final(vox_to_gen))
                    &&& mesh.wf()
                    &&& origin[0] == chunk.0 * self.chunker().chunk_size()
                    &&& origin[1] == chunk.1 * self.chunker().chunk_size()
                    &&& origin[2] == chunk.2 * self.chunker().chunk_size()
                    &&& location == chunk
                },
                None => true,
            },
    {
        let (mesh, origin) = self.chunker.generate_chunk(&self.vox_models, chunk, vox_to_gen);
        match mesh {
            Some(mesh) => Some(Reply::Chunk(mesh, origin, chunk)),
            None => None,
        }
    }

    /// Takes a file of voxel models that was read: its first model becomes a
    /// volume among the models and is placed at every one of the positions
    /// for models, in their order. A model that is too large to place it, or
    /// that cannot be loaded, is refused, and the worker keeps its models and
    /// placements as they were.
    pub fn load_vox(&mut self, data: &VoxData) -> (r: Result<Handle, VoxError>)
        requires
            old(self).wf(),
        ensures
            final(self).wf(),
            final(self).chunker().chunk_size() == old(self).chunker().chunk_size(),
            match r {
                Ok(handle) => {
                    &&& place_error(*data) is None
                    &&& handle.index == old(self).models().items().len()
                    &&& final(self).models().items().drop_last() == old(self).models().items()
                    &&& final(self).models().items().len() == old(self).models().items().len() + 1
                    &&& final(self).models().items().last().well_formed()
                    &&& final(self).models().items().last().dims() == model_dims(
                        data.models@[0].size,
                    )
                    &&& final(self).models().items().last().cells() == loaded_cells(
                        model_dims(data.models@[0].size),
                        data.models@[0].voxels@,
                        data.models@[0].voxels@.len() as int,
                    )
                    &&& final(self).models().items().last().palette() == loaded_palette(
                        data.palette@,
                        data.models@[0].voxels@,
                        data.models@[0].voxels@.len() as int,
                    )
                    &&& forall|chunk: (i32, i32, i32)|
                        (#[trigger] final(self).chunker().placement(chunk)) == placement_after(
                            old(self).chunker(),
                            old(self).chunker().entities().len() as int,
                            model_dims(data.models@[0].size),
                            16,
                            chunk,
                        )
                },
                Err(e) => {
                    &&& place_error(*data) == Some(e)
                    &&& final(self).models().items() == old(self).models().items()
                    &&& final(self).chunker() == old(self).chunker()
                },
            },
    {
        if data.models.len() > 0 {
            let size = data.models[0].size;
            if size.x as usize > MAX_MODEL_EXTENT || size.y as usize > MAX_MODEL_EXTENT
                || size.z as usize > MAX_MODEL_EXTENT {
                return Err(VoxError::IndexOutOfRange);
            }
        }
        let handle = match load_vox(data, &mut self.vox_models) {
            Ok(handle) => handle,
            Err(e) => {
                return Err(e);
            },
        };
        let positions = model_positions_list();
        let ghost loaded = self.vox_models;
        let ghost before = old(self).chunker;
        let ghost first = before.entities().len() as int;
        let ghost size = model_dims(data.models@[0].size);
        proof {
            assert(self.vox_models.items().last() == self.vox_models.items()[handle.index as int]);
            assert forall|e: int| 0 <= e < self.chunker.entities().len() implies {
                &&& self.vox_models.contains((#[trigger] self.chunker.entities()[e]).0)
                &&& self.vox_models.items()[self.chunker.entities()[e].0.index as int].well_formed()
                &&& self.vox_models.items()[self.chunker.entities()[e].0.index as int].dims()
                    == self.chunker.entities()[e].1
            } by {
                let h = old(self).chunker.entities()[e].0;
                assert(old(self).vox_models.contains(h));
                assert(self.vox_models.items().drop_last()[h.index as int]
                    == self.vox_models.items()[h.index as int]);
            }
        }
        let mut k: usize = 0;
        while k < positions.len()
            invariant
                k <= 16,
                positions@ == model_positions(),
                before.wf(),
                before == old(self).chunker,
                first == before.entities().len(),
                self.chunker.wf(),
                self.chunker.models_in(&self.vox_models),
                self.chunker.chunk_size() == before.chunk_size(),
                self.chunker.entities().len() == first + k,
                self.vox_models == loaded,
                self.vox_models.contains(handle),
                self.vox_models.items()[handle.index as int].well_formed(),
                self.vox_models.items()[handle.index as int].dims() == size,
                size[0] <= MAX_MODEL_EXTENT && size[1] <= MAX_MODEL_EXTENT && size[2]
                    <= MAX_MODEL_EXTENT,
                handle.index == old(self).vox_models.items().len(),
                self.vox_models.items().drop_last() == old(self).vox_models.items(),
                self.vox_models.items().len() == old(self).vox_models.items().len() + 1,
                forall|chunk: (i32, i32, i32)|
                    (#[trigger] self.chunker.placement(chunk)) == placement_after(
                        before,
                        first,
                        size,
                        k as int,
                        chunk,
                    ),
            decreases 16 - k,
        {
            let position = positions[k];
            proof {
                assert(0 <= position[0] <= 256 && 0 <= position[1] <= 256 && 0 <= position[2]
                    <= 256);
            }
            self.chunker.add(handle, position, &self.vox_models);
            k += 1;
        }
        Ok(handle)
    }
}

/// The positions for models, in their order.
fn model_positions_list() -> (positions: Vec<[i32; 3]>)
    ensures
        positions@ == model_positions(),
{
    let mut positions: Vec<[i32; 3]> = Vec::new();
    positions.push([0, 0, 0]);
    positions.push([0, 0, 128]);
    positions.push([128, 0, 128]);
    positions.push([128, 0, 0]);
    positions.push([128, 0, 0]);
    positions.push([128, 0, 128]);
    positions.push([256, 0, 128]);
    positions.push([256, 0, 0]);
    positions.push([0, 0, 128]);
    positions.push([0, 0, 256]);
    positions.push([128, 0, 256]);
    positions.push([128, 0, 128]);
    positions.push([128, 0, 128]);
    positions.push([128, 0, 256]);
    positions.push([256, 0, 256]);
    positions.push([256, 0, 128]);
    assert(positions@ =~= model_positions());
    positions
}

} // verus!
