//! The chunker places voxel models in the world, cuts them along the borders
//! of the chunks, and builds the mesh of a chunk from its ground and the
//! part of a model that lies in it.

use crate::greedy_meshing::{greedy_mesh, greedy_mesh_base, is_mesh_of};
use crate::mesh::MeshData;
use crate::registry::{Handle, Registry};
use crate::vox::Vox;
use crate::vox3d::Vox3d;
use crate::voxheightmap::VoxHeightMap;
use crate::world_window::lemma_floor_division;
use std::collections::HashMap;
use vstd::prelude::*;

verus! {

broadcast use vstd::std_specs::hash::group_hash_axioms;

/// The part of a model that lies in one chunk, along one axis.
#[derive(Clone, Copy, Debug, PartialEq, Eq)]
pub struct Segment {
    /// The number of the chunk.
    pub number: i32,
    /// Where the part starts in the model.
    pub source_offset: usize,
    /// Where the part starts in the chunk.
    pub target_offset: usize,
    /// The length of the part.
    pub size: usize,
}

/// The first position of the world that is both in the model, which starts
/// at `start`, and in chunk `number`, if the two meet.
pub open spec fn overlap_low(start: int, chunk_size: int, number: int) -> int {
    if start > number * chunk_size {
        start
    } else {
        number * chunk_size
    }
}

/// The position behind the last that is both in the model, which is `size`
/// long from `start`, and in chunk `number`, if the two meet.
pub open spec fn overlap_high(start: int, size: int, chunk_size: int, number: int) -> int {
    if start + size < (number + 1) * chunk_size {
        start + size
    } else {
        (number + 1) * chunk_size
    }
}

/// Whether the model meets chunk `number` along the axis.
pub open spec fn overlaps(start: int, size: int, chunk_size: int, number: int) -> bool {
    overlap_low(start, chunk_size, number) < overlap_high(start, size, chunk_size, number)
}

/// The part of the model that lies in chunk `number` along the axis.
pub open spec fn overlap(start: int, size: int, chunk_size: int, number: int) -> Segment {
    Segment {
        number: number as i32,
        source_offset: (overlap_low(start, chunk_size, number) - start) as usize,
        target_offset: (overlap_low(start, chunk_size, number) - number * chunk_size) as usize,
        size: (overlap_high(start, size, chunk_size, number) - overlap_low(
            start,
            chunk_size,
            number,
        )) as usize,
    }
}

/// The number of the chunk that holds position `start`, and the offset of the
/// position in that chunk.
pub fn chunk_number_and_offset(start: i32, chunk_size: usize) -> (r: (i32, usize))
    requires
        chunk_size > 0,
    ensures
        r.0 == start as int / chunk_size as int,
        r.1 == start as int % chunk_size as int,
        r.0 * chunk_size + r.1 == start,
        r.1 < chunk_size,
{
    let s: i128 = start as i128;
    let c: i128 = chunk_size as i128;
    proof {
        lemma_floor_division(s as int, c as int);
        crate::world_window::lemma_floor_division_bounds(s as int, c as int);
        vstd::arithmetic::div_mod::lemma_fundamental_div_mod(s as int, c as int);
        vstd::arithmetic::div_mod::lemma_mod_bound(s as int, c as int);
        assert(c * (s / c) == (s / c) * c) by (nonlinear_arith);
    }
    if s >= 0 {
        ((s / c) as i32, (s % c) as usize)
    } else {
        let n: i128 = -s;
        let q: i128 = n / c;
        let r: i128 = n % c;
        proof {
            vstd::arithmetic::div_mod::lemma_mod_bound(n as int, c as int);
        }
        if r == 0 {
            ((-q) as i32, 0)
        } else {
            ((-q - 1) as i32, (c - r) as usize)
        }
    }
}

/// The number of the chunk that holds position `start`.
pub open spec fn first_chunk(start: int, chunk_size: int) -> int {
    start / chunk_size
}

/// The chunks that a model meets along an axis are those from the chunk of
/// its first position on, as far as the model reaches.
pub proof fn lemma_overlaps_from_first(start: int, size: int, chunk_size: int, number: int)
    requires
        chunk_size > 0,
        size >= 0,
    ensures
        overlaps(start, size, chunk_size, number) <==> (size > 0 && first_chunk(start, chunk_size)
            <= number && number * chunk_size < start + size),
{
    let first = first_chunk(start, chunk_size);
    vstd::arithmetic::div_mod::lemma_fundamental_div_mod(start, chunk_size);
    vstd::arithmetic::div_mod::lemma_mod_bound(start, chunk_size);
    assert(chunk_size * first == first * chunk_size) by (nonlinear_arith);
    assert((number + 1) * chunk_size == number * chunk_size + chunk_size) by (nonlinear_arith);
    if number < first {
        assert((number + 1) * chunk_size <= first * chunk_size) by (nonlinear_arith)
            requires
                number + 1 <= first,
                chunk_size > 0,
        ;
    } else {
        assert((number + 1) * chunk_size >= (first + 1) * chunk_size) by (nonlinear_arith)
            requires
                number >= first,
                chunk_size > 0,
        ;
        assert((first + 1) * chunk_size == first * chunk_size + chunk_size) by (nonlinear_arith);
    }
}

/// Cuts a model along the borders of the chunks: the parts of the `size`
/// positions from `start` on, chunk by chunk.
pub fn axis_segments(start: i32, size: usize, chunk_size: usize) -> (segments: Vec<Segment>)
    requires
        chunk_size > 0,
        start + size <= i32::MAX + 1,
    ensures
        forall|i: int|
            0 <= i < segments@.len() ==> (#[trigger] segments@[i]) == overlap(
                start as int,
                size as int,
                chunk_size as int,
                first_chunk(start as int, chunk_size as int) + i,
            ),
        forall|number: int|
            overlaps(start as int, size as int, chunk_size as int, number) <==> first_chunk(
                start as int,
                chunk_size as int,
            ) <= number < first_chunk(start as int, chunk_size as int) + segments@.len(),
{
    let ghost p = start as int;
    let ghost cs = chunk_size as int;
    let ghost first = first_chunk(p, cs);
    let mut segments: Vec<Segment> = Vec::new();
    let mut size_left = size;
    let (first_number, first_offset) = chunk_number_and_offset(start, chunk_size);
    let mut number: i64 = first_number as i64;
    let mut target_offset = first_offset;
    let mut source_offset: usize = 0;
    proof {
        crate::world_window::lemma_floor_division_bounds(p, cs);
    }
    while size_left != 0
        invariant
            chunk_size > 0,
            p == start,
            cs == chunk_size,
            first == first_chunk(p, cs),
            p + size <= i32::MAX + 1,
            number == first + segments@.len(),
            i32::MIN <= number,
            source_offset + size_left == size,
            target_offset < chunk_size,
            source_offset == 0 || target_offset == 0,
            segments@.len() <= source_offset,
            first * cs <= p,
            size_left > 0 ==> p + source_offset == number * cs + target_offset,
            size_left == 0 && size > 0 ==> p + size <= number * cs,
            size_left == 0 && size > 0 ==> segments@.len() > 0,
            forall|i: int|
                0 <= i < segments@.len() ==> (#[trigger] segments@[i]) == overlap(
                    p,
                    size as int,
                    cs,
                    first + i,
                ),
            segments@.len() > 0 ==> (number - 1) * cs < p + size,
        decreases size_left,
    {
        let room = chunk_size - target_offset;
        let current_size = if size_left < room {
            size_left
        } else {
            room
        };
        proof {
            let n = number as int;
            assert((n + 1) * cs == n * cs + cs) by (nonlinear_arith);
            assert(n * cs <= p + source_offset);
            assert(n >= 0 ==> n <= n * cs) by (nonlinear_arith)
                requires
                    cs >= 1,
            ;
            assert(first * cs <= n * cs) by (nonlinear_arith)
                requires
                    first <= n,
                    cs >= 1,
            ;
            assert(overlap_low(p, cs, n) == p + source_offset);
            assert(overlap_high(p, size as int, cs, n) == p + source_offset + current_size);
        }
        segments.push(
            Segment { number: number as i32, source_offset, target_offset, size: current_size },
        );
        number += 1;
        source_offset += current_size;
        target_offset = 0;
        size_left -= current_size;
    }
    proof {
        assert forall|number: int|
            overlaps(p, size as int, cs, number) <==> first <= number < first
                + segments@.len() by {
            lemma_overlaps_from_first(p, size as int, cs, number);
            if size > 0 {
                let end = first + segments@.len();
                if first <= number < end {
                    assert(number * cs <= (end - 1) * cs) by (nonlinear_arith)
                        requires
                            number <= end - 1,
                            cs > 0,
                    ;
                } else if number >= end {
                    assert(number * cs >= end * cs) by (nonlinear_arith)
                        requires
                            number >= end,
                            cs > 0,
                    ;
                }
            }
        }
    }
    segments
}

/// The part of a model that lies in one chunk.
#[derive(Clone, Copy, Debug, PartialEq, Eq)]
pub struct Placement {
    /// The number of the placed model among the placed models.
    pub entity: usize,
    /// Where the part starts in the model, along x, y and z.
    pub source_offset: [usize; 3],
    /// Where the part starts in the chunk, along x, y and z.
    pub target_offset: [usize; 3],
    /// The extents of the part.
    pub size: [usize; 3],
}

/// The number under which the map of placements keeps a chunk: each chunk
/// has its own.
pub open spec fn chunk_key(chunk: (i32, i32, i32)) -> u128 {
    (((chunk.0 + 0x8000_0000) * 0x1_0000_0000 + (chunk.1 + 0x8000_0000)) * 0x1_0000_0000 + (chunk.2
        + 0x8000_0000)) as u128
}

/// Chunks with the same key are the same chunk.
pub proof fn lemma_chunk_key_injective(a: (i32, i32, i32), b: (i32, i32, i32))
    requires
        chunk_key(a) == chunk_key(b),
    ensures
        a == b,
{
}

/// Computes the key of a chunk.
fn key_of(chunk: (i32, i32, i32)) -> (key: u128)
    ensures
        key == chunk_key(chunk),
{
    let x: u128 = (chunk.0 as i64 + 0x8000_0000) as u128;
    let y: u128 = (chunk.1 as i64 + 0x8000_0000) as u128;
    let z: u128 = (chunk.2 as i64 + 0x8000_0000) as u128;
    (x * 0x1_0000_0000 + y) * 0x1_0000_0000 + z
}

/// Whether a model of extents `size` at `position` meets chunk `chunk`.
pub open spec fn meets(size: [usize; 3], position: [i32; 3], chunk_size: int, chunk: (
    i32,
    i32,
    i32,
)) -> bool {
    &&& overlaps(position[0] as int, size[0] as int, chunk_size, chunk.0 as int)
    &&& overlaps(position[1] as int, size[1] as int, chunk_size, chunk.1 as int)
    &&& overlaps(position[2] as int, size[2] as int, chunk_size, chunk.2 as int)
}

/// The part of the model number `entity`, of extents `size` at `position`,
/// that lies in chunk `chunk`.
pub open spec fn placed(
    entity: usize,
    size: [usize; 3],
    position: [i32; 3],
    chunk_size: int,
    chunk: (i32, i32, i32),
) -> Placement {
    let x = overlap(position[0] as int, size[0] as int, chunk_size, chunk.0 as int);
    let y = overlap(position[1] as int, size[1] as int, chunk_size, chunk.1 as int);
    let z = overlap(position[2] as int, size[2] as int, chunk_size, chunk.2 as int);
    Placement {
        entity,
        source_offset: [x.source_offset, y.source_offset, z.source_offset],
        target_offset: [x.target_offset, y.target_offset, z.target_offset],
        size: [x.size, y.size, z.size],
    }
}

/// Whether a placement lies inside a model of extents `size` and inside a
/// chunk of `chunk_size` voxels along each edge.
pub open spec fn placement_fits(placement: Placement, size: [usize; 3], chunk_size: int) -> bool {
    forall|i: int|
        0 <= i < 3 ==> {
            &&& (#[trigger] placement.source_offset[i]) + placement.size[i] <= size[i]
            &&& placement.target_offset[i] + placement.size[i] <= chunk_size
        }
}

/// The models that were placed in the world, and for every chunk the part of
/// a model that lies in it.
pub struct Chunker {
    entities: Vec<(Handle, [usize; 3], [i32; 3])>,
    chunk_entity_map: HashMap<u128, Placement>,
    chunk_size: usize,
}

impl Chunker {
    /// The placed models: the handle, the extents and the position of each.
    pub closed spec fn entities(&self) -> Seq<(Handle, [usize; 3], [i32; 3])> {
        self.entities@
    }

    /// The number of voxels along the edge of a chunk.
    pub closed spec fn chunk_size(&self) -> usize {
        self.chunk_size
    }

    /// The part of a model that lies in chunk `chunk`, if one does.
    pub closed spec fn placement(&self, chunk: (i32, i32, i32)) -> Option<Placement> {
        if self.chunk_entity_map@.contains_key(chunk_key(chunk)) {
            Some(self.chunk_entity_map@[chunk_key(chunk)])
        } else {
            None
        }
    }

    /// The invariant of the chunker: chunks whose cells can be counted, and
    /// placements that lie inside their models and inside a chunk.
    pub open spec fn wf(&self) -> bool {
        &&& self.chunk_size() > 0
        &&& self.chunk_size() * self.chunk_size() * self.chunk_size() <= usize::MAX
        &&& forall|chunk: (i32, i32, i32)|
            (#[trigger] self.placement(chunk)) is Some ==> {
                &&& self.placement(chunk).unwrap().entity < self.entities().len()
                &&& placement_fits(
                    self.placement(chunk).unwrap(),
                    self.entities()[self.placement(chunk).unwrap().entity as int].1,
                    self.chunk_size() as int,
                )
            }
    }

    /// A chunker for chunks of `chunk_size` voxels along each edge, with no
    /// model placed.
    pub fn new(chunk_size: usize) -> (chunker: Self)
        requires
            chunk_size > 0,
            chunk_size * chunk_size * chunk_size <= usize::MAX,
        ensures
            chunker.wf(),
            chunker.chunk_size() == chunk_size,
            chunker.entities() == Seq::<(Handle, [usize; 3], [i32; 3])>::empty(),
            forall|chunk: (i32, i32, i32)| chunker.placement(chunk) is None,
    {
        Self { entities: Vec::new(), chunk_entity_map: HashMap::new(), chunk_size }
    }

    /// The number of voxels along the edge of a chunk.
    pub fn get_chunk_size(&self) -> (n: usize)
        ensures
            n == self.chunk_size(),
    {
        self.chunk_size
    }

    /// The part of a model that lies in chunk `chunk`, if one does.
    pub fn get_placement(&self, chunk: (i32, i32, i32)) -> (r: Option<Placement>)
        ensures
            r == self.placement(chunk),
    {
        match self.chunk_entity_map.get(&key_of(chunk)) {
            Some(placement) => Some(*placement),
            None => None,
        }
    }

    /// Places the model that `handle` names with its corner at `position`.
    /// The model is added to the placed models, and every chunk that it meets
    /// gets the part of it that lies in the chunk, in place of what the chunk
    /// had from a model placed before. The other chunks keep what they had.
    pub fn add(&mut self, handle: Handle, position: [i32; 3], registry: &Registry<Vox3d>)
        requires
            old(self).wf(),
            registry.contains(handle),
            registry.items()[handle.index as int].well_formed(),
            forall|i: int|
                0 <= i < 3 ==> (#[trigger] position[i]) + registry.items()[handle.index as int].dims()[i]
                    <= i32::MAX + 1,
        ensures
            final(self).wf(),
            final(self).chunk_size() == old(self).chunk_size(),
            final(self).entities() == old(self).entities().push(
                (handle, registry.items()[handle.index as int].dims(), position),
            ),
            forall|chunk: (i32, i32, i32)|
                (#[trigger] final(self).placement(chunk)) == (if meets(
                    registry.items()[handle.index as int].dims(),
                    position,
                    old(self).chunk_size() as int,
                    chunk,
                ) {
                    Some(
                        placed(
                            old(self).entities().len() as usize,
                            registry.items()[handle.index as int].dims(),
                            position,
                            old(self).chunk_size() as int,
                            chunk,
                        ),
                    )
                } else {
                    old(self).placement(chunk)
                }),
    {
        let vox = match registry.get(&handle) {
            Some(vox) => vox,
            None => vstd::pervasive::unreached(),
        };
        let size = vox.get_size();
        assert(position[0] + size[0] <= i32::MAX + 1 && position[1] + size[1] <= i32::MAX + 1
            && position[2] + size[2] <= i32::MAX + 1);
        self.entities.push((handle, size, position));
        let entity = self.entities.len() - 1;
        let xs = axis_segments(position[0], size[0], self.chunk_size);
        let ys = axis_segments(position[1], size[1], self.chunk_size);
        let zs = axis_segments(position[2], size[2], self.chunk_size);
        let ghost before = *old(self);
        let ghost cs = self.chunk_size as int;
        let ghost fx = first_chunk(position[0] as int, cs);
        let ghost fy = first_chunk(position[1] as int, cs);
        let ghost fz = first_chunk(position[2] as int, cs);
        proof {
            assert forall|chunk: (i32, i32, i32)| (#[trigger] self.placement(chunk)) is Some implies {
                &&& self.placement(chunk).unwrap().entity < self.entities().len()
                &&& placement_fits(
                    self.placement(chunk).unwrap(),
                    self.entities()[self.placement(chunk).unwrap().entity as int].1,
                    self.chunk_size() as int,
                )
            } by {
                assert(self.placement(chunk) == before.placement(chunk));
            }
        }
        let mut k: usize = 0;
        while k < zs.len()
            invariant
                self.chunk_size() == cs,
                before.wf(),
                before.chunk_size() == cs,
                self.entities() == before.entities().push((handle, size, position)),
                entity == before.entities().len(),
                self.wf(),
                k <= zs@.len(),
                position[0] + size[0] <= i32::MAX + 1,
                position[1] + size[1] <= i32::MAX + 1,
                position[2] + size[2] <= i32::MAX + 1,
                segments_of(xs@, position[0] as int, size[0] as int, cs),
                segments_of(ys@, position[1] as int, size[1] as int, cs),
                segments_of(zs@, position[2] as int, size[2] as int, cs),
                fx == first_chunk(position[0] as int, cs),
                fy == first_chunk(position[1] as int, cs),
                fz == first_chunk(position[2] as int, cs),
                forall|chunk: (i32, i32, i32)|
                    (#[trigger] self.placement(chunk)) == (if meets(size, position, cs, chunk)
                        && chunk.2 - fz < k {
                        Some(placed(entity, size, position, cs, chunk))
                    } else {
                        before.placement(chunk)
                    }),
            decreases zs@.len() - k,
        {
            let mut j: usize = 0;
            while j < ys.len()
                invariant
                    self.chunk_size() == cs,
                    before.wf(),
                    before.chunk_size() == cs,
                    self.entities() == before.entities().push((handle, size, position)),
                    entity == before.entities().len(),
                    self.wf(),
                    k < zs@.len(),
                    j <= ys@.len(),
                    position[0] + size[0] <= i32::MAX + 1,
                position[1] + size[1] <= i32::MAX + 1,
                position[2] + size[2] <= i32::MAX + 1,
                segments_of(xs@, position[0] as int, size[0] as int, cs),
                    segments_of(ys@, position[1] as int, size[1] as int, cs),
                    segments_of(zs@, position[2] as int, size[2] as int, cs),
                    fx == first_chunk(position[0] as int, cs),
                    fy == first_chunk(position[1] as int, cs),
                    fz == first_chunk(position[2] as int, cs),
                    forall|chunk: (i32, i32, i32)|
                        (#[trigger] self.placement(chunk)) == (if meets(size, position, cs, chunk)
                            && (chunk.2 - fz < k || (chunk.2 - fz == k && chunk.1 - fy < j)) {
                            Some(placed(entity, size, position, cs, chunk))
                        } else {
                            before.placement(chunk)
                        }),
                decreases ys@.len() - j,
            {
                let mut i: usize = 0;
                while i < xs.len()
                    invariant
                        self.chunk_size() == cs,
                        before.wf(),
                        before.chunk_size() == cs,
                        self.entities() == before.entities().push((handle, size, position)),
                        entity == before.entities().len(),
                        self.wf(),
                        k < zs@.len(),
                        j < ys@.len(),
                        i <= xs@.len(),
                        position[0] + size[0] <= i32::MAX + 1,
                position[1] + size[1] <= i32::MAX + 1,
                position[2] + size[2] <= i32::MAX + 1,
                segments_of(xs@, position[0] as int, size[0] as int, cs),
                        segments_of(ys@, position[1] as int, size[1] as int, cs),
                        segments_of(zs@, position[2] as int, size[2] as int, cs),
                        fx == first_chunk(position[0] as int, cs),
                        fy == first_chunk(position[1] as int, cs),
                        fz == first_chunk(position[2] as int, cs),
                        forall|chunk: (i32, i32, i32)|
                            (#[trigger] self.placement(chunk)) == (if meets(
                                size,
                                position,
                                cs,
                                chunk,
                            ) && (chunk.2 - fz < k || (chunk.2 - fz == k && (chunk.1 - fy < j || (
                            chunk.1 - fy == j && chunk.0 - fx < i)))) {
                                Some(placed(entity, size, position, cs, chunk))
                            } else {
                                before.placement(chunk)
                            }),
                    decreases xs@.len() - i,
                {
                    let x = xs[i];
                    let y = ys[j];
                    let z = zs[k];
                    let here = (x.number, y.number, z.number);
                    let placement = Placement {
                        entity,
                        source_offset: [x.source_offset, y.source_offset, z.source_offset],
                        target_offset: [x.target_offset, y.target_offset, z.target_offset],
                        size: [x.size, y.size, z.size],
                    };
                    let ghost prior = *self;
                    proof {
                        lemma_segment(xs@, position[0] as int, size[0] as int, cs, i as int);
                        lemma_segment(ys@, position[1] as int, size[1] as int, cs, j as int);
                        lemma_segment(zs@, position[2] as int, size[2] as int, cs, k as int);
                        assert(meets(size, position, cs, here));
                        assert(placement == placed(entity, size, position, cs, here));
                        assert(placement_fits(placement, size, cs));
                    }
                    self.chunk_entity_map.insert(key_of(here), placement);
                    proof {
                        assert forall|chunk: (i32, i32, i32)|
                            (#[trigger] self.placement(chunk)) == (if chunk == here {
                                Some(placement)
                            } else {
                                prior.placement(chunk)
                            }) by {
                            if chunk_key(chunk) == chunk_key(here) {
                                lemma_chunk_key_injective(chunk, here);
                            }
                        }
                    }
                    i += 1;
                }
                j += 1;
            }
            k += 1;
        }
        proof {
            assert forall|chunk: (i32, i32, i32)| meets(size, position, cs, chunk) implies chunk.2
                - fz < zs@.len() by {}
        }
    }

    /// Whether the registry holds every placed model, with the extents that
    /// it had when it was placed.
    pub open spec fn models_in(&self, registry: &Registry<Vox3d>) -> bool {
        forall|e: int|
            0 <= e < self.entities().len() ==> {
                &&& registry.contains((#[trigger] self.entities()[e]).0)
                &&& registry.items()[self.entities()[e].0.index as int].well_formed()
                &&& registry.items()[self.entities()[e].0.index as int].dims()
                    == self.entities()[e].1
            }
    }

    /// The model whose part lies in chunk `chunk`, if one does.
    pub open spec fn model_in(&self, registry: &Registry<Vox3d>, chunk: (i32, i32, i32)) -> Vox3d {
        registry.items()[self.entities()[self.placement(chunk).unwrap().entity as int].0.index as int]
    }

    /// Builds chunk `chunk` from its ground `vox_to_gen`: the part of a model
    /// that lies in the chunk is copied over the ground, and the result is
    /// meshed. Returns the mesh, or nothing if the chunk holds no voxel, and
    /// the position of the chunk in the world, in voxels.
    pub fn generate_chunk(
        &self,
        registry: &Registry<Vox3d>,
        chunk: (i32, i32, i32),
        vox_to_gen: &mut Vox3d,
    ) -> (r: (Option<MeshData>, [i128; 3]))
        requires
            self.wf(),
            self.models_in(registry),
            old(vox_to_gen).well_formed(),
            old(vox_to_gen).dims() == [self.chunk_size(), self.chunk_size(), self.chunk_size()],
        ensures
            final(vox_to_gen).well_formed(),
            final(vox_to_gen).dims() == old(vox_to_gen).dims(),
            self.placement(chunk) is None ==> *final(vox_to_gen) == *old(vox_to_gen),
            self.placement(chunk) is Some ==> {
                &&& forall|x: int, y: int, z: int|
                    (#[trigger] final(vox_to_gen).cell(x, y, z)) == (match overlaid(
                        &self.model_in(registry, chunk),
                        self.placement(chunk).unwrap(),
                        x,
                        y,
                        z,
                    ) {
                        Some(id) => Some(id),
                        None => old(vox_to_gen).cell(x, y, z),
                    })
                &&& forall|id: u8|
                    (#[trigger] final(vox_to_gen).color(id)) == (if overlays_id(
                        &self.model_in(registry, chunk),
                        self.placement(chunk).unwrap(),
                        id,
                    ) {
                        self.model_in(registry, chunk).color(id)
                    } else {
                        old(vox_to_gen).color(id)
                    })
            },
            r.0 is Some <==> final(vox_to_gen).touched(),
            r.0 is Some ==> is_mesh_of(r.0.unwrap(), final(vox_to_gen)) && r.0.unwrap().wf(),
            r.1[0] == chunk.0 * self.chunk_size(),
            r.1[1] == chunk.1 * self.chunk_size(),
            r.1[2] == chunk.2 * self.chunk_size(),
    {
        if let Some(placement) = self.get_placement(chunk) {
            assert(self.placement(chunk) is Some);
            let (handle, _, _) = self.entities[placement.entity];
            let vox = match registry.get(&handle) {
                Some(vox) => vox,
                None => vstd::pervasive::unreached(),
            };
            assert(self.entities()[placement.entity as int].0 == handle);
            assert(*vox == self.model_in(registry, chunk));
            assert(placement_fits(placement, vox.dims(), self.chunk_size() as int));
            overlay(vox_to_gen, vox, &placement);
        }
        let mesh = greedy_mesh(vox_to_gen);
        let size = self.chunk_size as i128;
        proof {
            assert(-0x8000_0000 * size <= chunk.0 * size <= 0x8000_0000 * size && -0x8000_0000
                * size <= chunk.1 * size <= 0x8000_0000 * size && -0x8000_0000 * size <= chunk.2
                * size <= 0x8000_0000 * size) by (nonlinear_arith)
                requires
                    size >= 0,
                    -0x8000_0000 <= chunk.0 <= 0x8000_0000,
                    -0x8000_0000 <= chunk.1 <= 0x8000_0000,
                    -0x8000_0000 <= chunk.2 <= 0x8000_0000,
            ;
        }
        (mesh, [chunk.0 as i128 * size, chunk.1 as i128 * size, chunk.2 as i128 * size])
    }
}

/// Whether `segments` are the parts of a model along an axis, chunk by chunk.
pub open spec fn segments_of(segments: Seq<Segment>, start: int, size: int, chunk_size: int) -> bool {
    &&& forall|i: int|
        0 <= i < segments.len() ==> (#[trigger] segments[i]) == overlap(
            start,
            size,
            chunk_size,
            first_chunk(start, chunk_size) + i,
        )
    &&& forall|number: int|
        overlaps(start, size, chunk_size, number) <==> first_chunk(start, chunk_size) <= number
            < first_chunk(start, chunk_size) + segments.len()
}

/// The `i`-th part of a model lies in the `i`-th chunk that the model meets.
proof fn lemma_segment(segments: Seq<Segment>, start: int, size: int, chunk_size: int, i: int)
    requires
        chunk_size > 0,
        0 <= size,
        i32::MIN <= start,
        start + size <= i32::MAX + 1,
        segments_of(segments, start, size, chunk_size),
        0 <= i < segments.len(),
    ensures
        segments[i] == overlap(start, size, chunk_size, first_chunk(start, chunk_size) + i),
        overlaps(start, size, chunk_size, first_chunk(start, chunk_size) + i),
        segments[i].number == first_chunk(start, chunk_size) + i,
        segments[i].source_offset + segments[i].size <= size,
        segments[i].target_offset + segments[i].size <= chunk_size,
{
    let n = first_chunk(start, chunk_size) + i;
    assert(overlaps(start, size, chunk_size, n));
    assert((n + 1) * chunk_size == n * chunk_size + chunk_size) by (nonlinear_arith);
    crate::world_window::lemma_floor_division_bounds(start, chunk_size);
    assert(n >= 0 ==> n <= n * chunk_size) by (nonlinear_arith)
        requires
            chunk_size >= 1,
    ;
}

/// Whether position `(x, y, z)` of a chunk lies in the part of the chunk
/// that a placement covers.
pub open spec fn in_placement(placement: Placement, x: int, y: int, z: int) -> bool {
    &&& placement.target_offset[0] <= x < placement.target_offset[0] + placement.size[0]
    &&& placement.target_offset[1] <= y < placement.target_offset[1] + placement.size[1]
    &&& placement.target_offset[2] <= z < placement.target_offset[2] + placement.size[2]
}

/// The voxel that the overlay of a model puts at `(x, y, z)` of the chunk:
/// the voxel of the model that comes to lie there, if there is one.
pub open spec fn overlaid(source: &Vox3d, placement: Placement, x: int, y: int, z: int) -> Option<
    u8,
> {
    if in_placement(placement, x, y, z) {
        source.cell(
            x - placement.target_offset[0] + placement.source_offset[0],
            y - placement.target_offset[1] + placement.source_offset[1],
            z - placement.target_offset[2] + placement.source_offset[2],
        )
    } else {
        None
    }
}

/// Whether the overlay of a model puts a voxel of palette id `id` somewhere.
pub open spec fn overlays_id(source: &Vox3d, placement: Placement, id: u8) -> bool {
    exists|x: int, y: int, z: int| #[trigger] overlaid(source, placement, x, y, z) == Some(id)
}

/// What the overlay has put at `(x, y, z)` when it has passed the layers
/// before `cz`, in layer `cz` the rows before `cy`, and in row `cy` the cells
/// before `cx`.
pub open spec fn overlaid_upto(
    source: &Vox3d,
    placement: Placement,
    x: int,
    y: int,
    z: int,
    cx: int,
    cy: int,
    cz: int,
) -> Option<u8> {
    let dx = x - placement.target_offset[0];
    let dy = y - placement.target_offset[1];
    let dz = z - placement.target_offset[2];
    if dz < cz || (dz == cz && (dy < cy || (dy == cy && dx < cx))) {
        overlaid(source, placement, x, y, z)
    } else {
        None
    }
}

/// Copies the part of a model that a placement describes into a chunk. Where
/// the model has a voxel, the chunk gets it with the model's colour for its
/// palette id; where the model is empty, the chunk keeps what it has.
pub fn overlay(target: &mut Vox3d, source: &Vox3d, placement: &Placement)
    requires
        old(target).well_formed(),
        source.well_formed(),
        forall|i: int|
            0 <= i < 3 ==> {
                &&& (#[trigger] placement.source_offset[i]) + placement.size[i] <= source.dims()[i]
                &&& placement.target_offset[i] + placement.size[i] <= old(target).dims()[i]
            },
    ensures
        final(target).well_formed(),
        final(target).dims() == old(target).dims(),
        forall|x: int, y: int, z: int|
            (#[trigger] final(target).cell(x, y, z)) == (match overlaid(
                source,
                *placement,
                x,
                y,
                z,
            ) {
                Some(id) => Some(id),
                None => old(target).cell(x, y, z),
            }),
        forall|id: u8|
            (#[trigger] final(target).color(id)) == (if overlays_id(source, *placement, id) {
                source.color(id)
            } else {
                old(target).color(id)
            }),
{
    let ghost before = *target;
    let ghost pl = *placement;
    let size = placement.size;
    let so = placement.source_offset;
    let to = placement.target_offset;
    assert(so[0] + size[0] <= source.dims()[0] && so[1] + size[1] <= source.dims()[1] && so[2]
        + size[2] <= source.dims()[2]);
    assert(to[0] + size[0] <= target.dims()[0] && to[1] + size[1] <= target.dims()[1] && to[2]
        + size[2] <= target.dims()[2]);
    let mut z: usize = 0;
    while z < size[2]
        invariant
            target.well_formed(),
            source.well_formed(),
            target.dims() == before.dims(),
            pl == *placement,
            size == pl.size && so == pl.source_offset && to == pl.target_offset,
            so[0] + size[0] <= source.dims()[0] && so[1] + size[1] <= source.dims()[1] && so[2]
                + size[2] <= source.dims()[2],
            to[0] + size[0] <= target.dims()[0] && to[1] + size[1] <= target.dims()[1] && to[2]
                + size[2] <= target.dims()[2],
            z <= size[2],
            swept(*target, before, source, pl, 0, 0, z as int),
        decreases size[2] - z,
    {
        let mut y: usize = 0;
        while y < size[1]
            invariant
                target.well_formed(),
                source.well_formed(),
                target.dims() == before.dims(),
                pl == *placement,
                size == pl.size && so == pl.source_offset && to == pl.target_offset,
                so[0] + size[0] <= source.dims()[0] && so[1] + size[1] <= source.dims()[1]
                    && so[2] + size[2] <= source.dims()[2],
                to[0] + size[0] <= target.dims()[0] && to[1] + size[1] <= target.dims()[1]
                    && to[2] + size[2] <= target.dims()[2],
                z < size[2],
                y <= size[1],
                swept(*target, before, source, pl, 0, y as int, z as int),
            decreases size[1] - y,
        {
            let mut x: usize = 0;
            while x < size[0]
                invariant
                    target.well_formed(),
                    source.well_formed(),
                    target.dims() == before.dims(),
                    pl == *placement,
                    size == pl.size && so == pl.source_offset && to == pl.target_offset,
                    so[0] + size[0] <= source.dims()[0] && so[1] + size[1] <= source.dims()[1]
                        && so[2] + size[2] <= source.dims()[2],
                    to[0] + size[0] <= target.dims()[0] && to[1] + size[1] <= target.dims()[1]
                        && to[2] + size[2] <= target.dims()[2],
                    z < size[2],
                    y < size[1],
                    x <= size[0],
                    swept(*target, before, source, pl, x as int, y as int, z as int),
                decreases size[0] - x,
            {
                let ghost prior = *target;
                let found = source.get(so[0] + x, so[1] + y, so[2] + z);
                if let Some(color_id) = found {
                    proof {
                        source.lemma_wf();
                    }
                    let color = match source.get_color(color_id) {
                        Ok(color) => color,
                        Err(_) => vstd::pervasive::unreached(),
                    };
                    let done = target.set(to[0] + x, to[1] + y, to[2] + z, color_id, color);
                    assert(done is Ok);
                }
                proof {
                    lemma_sweep_cell(
                        *target,
                        prior,
                        before,
                        source,
                        pl,
                        x as int,
                        y as int,
                        z as int,
                    );
                }
                x += 1;
            }
            proof {
                lemma_sweep_row(*target, before, source, pl, x as int, y as int, z as int);
            }
            y += 1;
        }
        proof {
            lemma_sweep_layer(*target, before, source, pl, y as int, z as int);
        }
        z += 1;
    }
    proof {
        lemma_sweep_done(*target, before, source, pl, z as int);
    }
}

/// How far an overlay has come: the chunk `target` is the chunk `before`
/// with what the overlay has put so far.
pub open spec fn swept(
    target: Vox3d,
    before: Vox3d,
    source: &Vox3d,
    placement: Placement,
    cx: int,
    cy: int,
    cz: int,
) -> bool {
    &&& forall|x: int, y: int, z: int|
        (#[trigger] target.cell(x, y, z)) == (match overlaid_upto(
            source,
            placement,
            x,
            y,
            z,
            cx,
            cy,
            cz,
        ) {
            Some(id) => Some(id),
            None => before.cell(x, y, z),
        })
    &&& forall|x: int, y: int, z: int|
        (#[trigger] overlaid_upto(source, placement, x, y, z, cx, cy, cz)) is Some ==> target.color(
            overlaid_upto(source, placement, x, y, z, cx, cy, cz).unwrap(),
        ) == source.color(overlaid_upto(source, placement, x, y, z, cx, cy, cz).unwrap())
    &&& forall|id: u8|
        (forall|x: int, y: int, z: int|
            (#[trigger] overlaid_upto(source, placement, x, y, z, cx, cy, cz)) != Some(id))
            ==> (#[trigger] target.color(id)) == before.color(id)
}

/// One step of an overlay: the cell at `(cx, cy, cz)` of the part was copied.
proof fn lemma_sweep_cell(
    target: Vox3d,
    prior: Vox3d,
    before: Vox3d,
    source: &Vox3d,
    placement: Placement,
    cx: int,
    cy: int,
    cz: int,
)
    requires
        swept(prior, before, source, placement, cx, cy, cz),
        0 <= cx < placement.size[0],
        0 <= cy < placement.size[1],
        0 <= cz < placement.size[2],
        source.well_formed(),
        ({
            let tx = placement.target_offset[0] + cx;
            let ty = placement.target_offset[1] + cy;
            let tz = placement.target_offset[2] + cz;
            match overlaid(source, placement, tx, ty, tz) {
                Some(id) => {
                    &&& target.palette() == prior.palette().insert(id, source.palette()[id])
                    &&& source.palette().contains_key(id)
                    &&& forall|a: int, b: int, c: int|
                        (#[trigger] target.cell(a, b, c)) == (if a == tx && b == ty && c == tz {
                            Some(id)
                        } else {
                            prior.cell(a, b, c)
                        })
                },
                None => target == prior,
            }
        }),
    ensures
        swept(target, before, source, placement, cx + 1, cy, cz),
{
    let tx = placement.target_offset[0] + cx;
    let ty = placement.target_offset[1] + cy;
    let tz = placement.target_offset[2] + cz;
    let here = overlaid(source, placement, tx, ty, tz);
    assert(overlaid_upto(source, placement, tx, ty, tz, cx + 1, cy, cz) == here);
    assert forall|x: int, y: int, z: int|
        (#[trigger] overlaid_upto(source, placement, x, y, z, cx + 1, cy, cz)) == (if x == tx && y
            == ty && z == tz {
            here
        } else {
            overlaid_upto(source, placement, x, y, z, cx, cy, cz)
        }) by {}
    assert forall|x: int, y: int, z: int|
        (#[trigger] target.cell(x, y, z)) == (match overlaid_upto(
            source,
            placement,
            x,
            y,
            z,
            cx + 1,
            cy,
            cz,
        ) {
            Some(id) => Some(id),
            None => before.cell(x, y, z),
        }) by {
        assert(prior.cell(x, y, z) == (match overlaid_upto(
            source,
            placement,
            x,
            y,
            z,
            cx,
            cy,
            cz,
        ) {
            Some(id) => Some(id),
            None => before.cell(x, y, z),
        }));
    }
    assert forall|x: int, y: int, z: int|
        (#[trigger] overlaid_upto(source, placement, x, y, z, cx + 1, cy, cz)) is Some implies target.color(
        overlaid_upto(source, placement, x, y, z, cx + 1, cy, cz).unwrap(),
    ) == source.color(overlaid_upto(source, placement, x, y, z, cx + 1, cy, cz).unwrap()) by {
        let id = overlaid_upto(source, placement, x, y, z, cx + 1, cy, cz).unwrap();
        if !(x == tx && y == ty && z == tz) {
            assert(overlaid_upto(source, placement, x, y, z, cx, cy, cz) is Some);
            assert(prior.color(id) == source.color(id));
        }
    }
    assert forall|id: u8|
        (forall|x: int, y: int, z: int|
            (#[trigger] overlaid_upto(source, placement, x, y, z, cx + 1, cy, cz)) != Some(
                id,
            )) implies (#[trigger] target.color(id)) == before.color(id) by {
        assert(overlaid_upto(source, placement, tx, ty, tz, cx + 1, cy, cz) != Some(id));
        assert forall|x: int, y: int, z: int|
            (#[trigger] overlaid_upto(source, placement, x, y, z, cx, cy, cz)) != Some(id) by {
            assert(overlaid_upto(source, placement, x, y, z, cx + 1, cy, cz) != Some(id));
        }
        assert(prior.color(id) == before.color(id));
    }
}

/// The end of a row of an overlay is the start of the next row.
proof fn lemma_sweep_row(
    target: Vox3d,
    before: Vox3d,
    source: &Vox3d,
    placement: Placement,
    cx: int,
    cy: int,
    cz: int,
)
    requires
        swept(target, before, source, placement, cx, cy, cz),
        cx == placement.size[0],
    ensures
        swept(target, before, source, placement, 0, cy + 1, cz),
{
    assert forall|x: int, y: int, z: int|
        (#[trigger] overlaid_upto(source, placement, x, y, z, 0, cy + 1, cz)) == overlaid_upto(
            source,
            placement,
            x,
            y,
            z,
            cx,
            cy,
            cz,
        ) by {}
    lemma_sweep_same(target, before, source, placement, cx, cy, cz, 0, cy + 1, cz);
}

/// The end of a layer of an overlay is the start of the next layer.
proof fn lemma_sweep_layer(
    target: Vox3d,
    before: Vox3d,
    source: &Vox3d,
    placement: Placement,
    cy: int,
    cz: int,
)
    requires
        swept(target, before, source, placement, 0, cy, cz),
        cy == placement.size[1],
    ensures
        swept(target, before, source, placement, 0, 0, cz + 1),
{
    assert forall|x: int, y: int, z: int|
        (#[trigger] overlaid_upto(source, placement, x, y, z, 0, 0, cz + 1)) == overlaid_upto(
            source,
            placement,
            x,
            y,
            z,
            0,
            cy,
            cz,
        ) by {}
    lemma_sweep_same(target, before, source, placement, 0, cy, cz, 0, 0, cz + 1);
}

/// Two ways to say how far an overlay has come that cover the same cells
/// say the same of the chunk.
proof fn lemma_sweep_same(
    target: Vox3d,
    before: Vox3d,
    source: &Vox3d,
    placement: Placement,
    cx: int,
    cy: int,
    cz: int,
    dx: int,
    dy: int,
    dz: int,
)
    requires
        swept(target, before, source, placement, cx, cy, cz),
        forall|x: int, y: int, z: int|
            (#[trigger] overlaid_upto(source, placement, x, y, z, dx, dy, dz)) == overlaid_upto(
                source,
                placement,
                x,
                y,
                z,
                cx,
                cy,
                cz,
            ),
    ensures
        swept(target, before, source, placement, dx, dy, dz),
{
    assert forall|x: int, y: int, z: int|
        (#[trigger] target.cell(x, y, z)) == (match overlaid_upto(
            source,
            placement,
            x,
            y,
            z,
            dx,
            dy,
            dz,
        ) {
            Some(id) => Some(id),
            None => before.cell(x, y, z),
        }) by {
        assert(overlaid_upto(source, placement, x, y, z, dx, dy, dz) == overlaid_upto(
            source,
            placement,
            x,
            y,
            z,
            cx,
            cy,
            cz,
        ));
    }
    assert forall|x: int, y: int, z: int|
        (#[trigger] overlaid_upto(source, placement, x, y, z, dx, dy, dz)) is Some implies target.color(
        overlaid_upto(source, placement, x, y, z, dx, dy, dz).unwrap(),
    ) == source.color(overlaid_upto(source, placement, x, y, z, dx, dy, dz).unwrap()) by {
        assert(overlaid_upto(source, placement, x, y, z, cx, cy, cz) is Some);
    }
    assert forall|id: u8|
        (forall|x: int, y: int, z: int|
            (#[trigger] overlaid_upto(source, placement, x, y, z, dx, dy, dz)) != Some(
                id,
            )) implies (#[trigger] target.color(id)) == before.color(id) by {
        assert forall|x: int, y: int, z: int|
            (#[trigger] overlaid_upto(source, placement, x, y, z, cx, cy, cz)) != Some(id) by {
            assert(overlaid_upto(source, placement, x, y, z, dx, dy, dz) != Some(id));
        }
    }
}

/// An overlay that has passed all layers has put all that it puts.
proof fn lemma_sweep_done(
    target: Vox3d,
    before: Vox3d,
    source: &Vox3d,
    placement: Placement,
    cz: int,
)
    requires
        swept(target, before, source, placement, 0, 0, cz),
        cz == placement.size[2],
    ensures
        forall|x: int, y: int, z: int|
            (#[trigger] target.cell(x, y, z)) == (match overlaid(source, placement, x, y, z) {
                Some(id) => Some(id),
                None => before.cell(x, y, z),
            }),
        forall|id: u8|
            (#[trigger] target.color(id)) == (if overlays_id(source, placement, id) {
                source.color(id)
            } else {
                before.color(id)
            }),
{
    assert forall|x: int, y: int, z: int|
        (#[trigger] overlaid_upto(source, placement, x, y, z, 0, 0, cz)) == overlaid(
            source,
            placement,
            x,
            y,
            z,
        ) by {}
    assert forall|x: int, y: int, z: int|
        (#[trigger] target.cell(x, y, z)) == (match overlaid(source, placement, x, y, z) {
            Some(id) => Some(id),
            None => before.cell(x, y, z),
        }) by {
        assert(overlaid_upto(source, placement, x, y, z, 0, 0, cz) == overlaid(
            source,
            placement,
            x,
            y,
            z,
        ));
    }
    assert forall|id: u8|
        (#[trigger] target.color(id)) == (if overlays_id(source, placement, id) {
            source.color(id)
        } else {
            before.color(id)
        }) by {
        if overlays_id(source, placement, id) {
            let (x, y, z) = choose|x: int, y: int, z: int|
                #[trigger] overlaid(source, placement, x, y, z) == Some(id);
            assert(overlaid_upto(source, placement, x, y, z, 0, 0, cz) == Some(id));
        } else {
            assert forall|x: int, y: int, z: int|
                (#[trigger] overlaid_upto(source, placement, x, y, z, 0, 0, cz)) != Some(id) by {
                assert(overlaid(source, placement, x, y, z) != Some(id));
            }
        }
    }
}

/// The number of voxels along the edge of a chunk of ground.
pub const CHUNK_SIZE_IN_VOXELS: usize = 32;

/// The palette id of the vegetation on a chunk of ground.
pub const VEGETATION_ID: u8 = 1;

/// Whether `vox` is the vegetation on a chunk of ground: one red voxel.
pub open spec fn is_vegetation(vox: Vox3d) -> bool {
    &&& vox.well_formed()
    &&& vox.dims() == [1usize, 1usize, 1usize]
    &&& vox.cell(0, 0, 0) == Some(VEGETATION_ID)
    &&& vox.color(VEGETATION_ID) == Some([255u8, 0u8, 0u8])
}

/// Builds the two meshes of a chunk of ground, each with its position in the
/// world in voxels: first the vegetation, which stands on the highest ground,
/// then the ground under the height map, which starts at the lowest ground.
pub fn generate_ground_chunk(chunk: [i32; 2], ground_vox: &VoxHeightMap) -> (r: Vec<
    (Option<MeshData>, [i128; 3]),
>)
    requires
        ground_vox.well_formed(),
    ensures
        r@.len() == 2,
        r@[0].0 is Some,
        exists|vegetation: Vox3d|
            is_vegetation(vegetation) && is_mesh_of(r@[0].0.unwrap(), &vegetation),
        r@[0].0.unwrap().vertices@.len() == 24,
        r@[0].1[0] == chunk[0] * CHUNK_SIZE_IN_VOXELS,
        r@[0].1[1] == ground_vox.y_max() + 1,
        r@[0].1[2] == chunk[1] * CHUNK_SIZE_IN_VOXELS,
        r@[1].0 is Some,
        is_mesh_of(r@[1].0.unwrap(), ground_vox),
        r@[1].1[0] == chunk[0] * CHUNK_SIZE_IN_VOXELS,
        r@[1].1[1] == ground_vox.y_min(),
        r@[1].1[2] == chunk[1] * CHUNK_SIZE_IN_VOXELS,
{
    let mut vegetation = Vox3d::new(1, 1, 1);
    let done = vegetation.set(0, 0, 0, VEGETATION_ID, [255, 0, 0]);
    assert(done is Ok);
    let vegetation_mesh_data = greedy_mesh(&vegetation);
    proof {
        assert(vegetation.dims() =~= [1usize, 1usize, 1usize]);
        assert(is_vegetation(vegetation));
        assert(crate::solid::is_solid(&vegetation, VEGETATION_ID));
        crate::solid::lemma_solid_volume_mesh(
            &vegetation,
            VEGETATION_ID,
            vegetation_mesh_data.unwrap(),
        );
    }
    let x = chunk[0] as i128 * CHUNK_SIZE_IN_VOXELS as i128;
    let z = chunk[1] as i128 * CHUNK_SIZE_IN_VOXELS as i128;
    let mut meshes: Vec<(Option<MeshData>, [i128; 3])> = Vec::new();
    meshes.push((vegetation_mesh_data, [x, ground_vox.get_y_max_offset(), z]));
    meshes.push((greedy_mesh_base(ground_vox), [x, ground_vox.get_y_min_offset(), z]));
    meshes
}

} // verus!
