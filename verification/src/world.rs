//! The streamer: which chunks are wanted around the observer, which are
//! asked for, which are there, and which have to go.

use crate::asset::Command;
use crate::chunk::{chunk_state, same_location, state_of, Chunk, ChunkState, MeshHandle};
use crate::chunk_area::{
    box_coordinates, box_len, box_position, chunk_box, in_box, lemma_box_coordinate,
    lemma_box_position, within_distance_1d, within_distance_3d,
};
use crate::sliding_vec3d::{lemma_physical_index_is_remainder, Vec3dSliding};
use crate::world_window::{chunk_index, moved_center_3d, WorldWindow};
use vstd::prelude::*;

verus! {

/// The capacity of the grid of chunks along every axis.
pub const GRID_SIZE: usize = 100;

/// The length of a voxel in world units.
pub const VOXEL_SIZE: i32 = 100;

/// The extent of the walking window along every axis, in world units.
pub const WALKING_WINDOW: i32 = 10000;

/// How many chunks beyond the centre chunk are wanted along every axis.
pub const RADIUS_IN_CHUNKS: usize = 2;

/// The state of a chunk after it was asked for: a chunk of which nothing was
/// kept is now requested, and any other chunk is as before.
pub open spec fn after_request(state: ChunkState) -> ChunkState {
    if state is Absent {
        ChunkState::Requested
    } else {
        state
    }
}

/// The state of a chunk after it was let go: nothing is kept of it.
pub open spec fn after_evict(state: ChunkState) -> ChunkState {
    ChunkState::Absent
}

/// Whether asking for a chunk in this state sends a request to the worker.
pub open spec fn sends_load(state: ChunkState) -> bool {
    state is Absent
}

/// The state of a chunk after its mesh has arrived under `handle`: the mesh
/// is installed if the chunk was requested and is still wanted, and otherwise
/// nothing changes.
pub open spec fn after_result(state: ChunkState, wanted: bool, handle: MeshHandle) -> ChunkState {
    if state == ChunkState::Requested && wanted {
        ChunkState::Resident(handle)
    } else {
        state
    }
}

/// The handle that has to be given back when a chunk in this state goes.
pub open spec fn released_handle(state: ChunkState) -> Option<MeshHandle> {
    match state {
        ChunkState::Resident(handle) => Some(handle),
        _ => None,
    }
}

/// At most one request is in flight for a chunk: once a chunk was asked for,
/// asking again sends nothing, whatever its state was before.
pub proof fn lemma_at_most_one_in_flight(state: ChunkState)
    ensures
        !sends_load(after_request(state)),
        after_request(after_request(state)) == after_request(state),
{
}

/// A result that comes too late is dropped: a chunk that was asked for and
/// then let go stays absent when its mesh arrives, whatever its state was at
/// first and wanted or not; no handle is installed, and none has to be given
/// back when the chunk is let go again.
pub proof fn lemma_stale_result_rejected(state: ChunkState, wanted: bool, handle: MeshHandle)
    ensures
        after_result(after_evict(after_request(state)), wanted, handle) == ChunkState::Absent,
        released_handle(after_result(after_evict(after_request(state)), wanted, handle)) is None,
{
}

/// The chunk that holds `position`.
pub open spec fn chunk_of(position: [i32; 3], chunk_length: int) -> [i32; 3] {
    [
        chunk_index(position[0] as int, chunk_length) as i32,
        chunk_index(position[1] as int, chunk_length) as i32,
        chunk_index(position[2] as int, chunk_length) as i32,
    ]
}

/// Cells of the grid with the same position have the same coordinates.
proof fn lemma_cells_apart(x: int, y: int, z: int, u: int, v: int, w: int)
    requires
        0 <= x < 100 && 0 <= y < 100 && 0 <= z < 100,
        0 <= u < 100 && 0 <= v < 100 && 0 <= w < 100,
        (z * 100 + y) * 100 + x == (w * 100 + v) * 100 + u,
    ensures
        x == u && y == v && z == w,
{
}

/// Two coordinates within `r` of `c` that wrap around to the same index of a
/// grid wider than `2 * r` are equal.
proof fn lemma_axis_apart(a: int, b: int, c: int, r: int)
    requires
        -r <= c - a <= r,
        -r <= c - b <= r,
        2 * r + 1 <= 100,
        a % 100 == b % 100,
    ensures
        a == b,
{
}

/// Equal coordinates are one chunk.
proof fn lemma_same_state(world: World, a: [i32; 3], b: [i32; 3])
    requires
        same_location(a, b),
    ensures
        a == b,
        world.state(a) == world.state(b),
{
    assert(a =~= b);
}

/// The chunks around an observer and what is known of each.
pub struct World {
    chunks: Vec3dSliding<Option<Chunk>>,
    center: Option<[i32; 3]>,
    previous_center: Option<[i32; 3]>,
    voxel_size: i32,
    chunk_size_in_voxels: u32,
    walking_window: [i32; 3],
    world_size_in_chunks_radius: [usize; 3],
}

/// The requests that go out for the first `k` chunks of `coords`: one for
/// each chunk that enters the box and of which nothing is kept.
pub open spec fn loads_upto(world: World, coords: Seq<[i32; 3]>, k: int) -> Seq<Command>
    decreases k,
{
    if k <= 0 {
        Seq::empty()
    } else {
        let c = coords[k - 1];
        if world.entering(c) && sends_load(world.state(c)) {
            loads_upto(world, coords, k - 1).push(Command::Load(c[0], c[1], c[2]))
        } else {
            loads_upto(world, coords, k - 1)
        }
    }
}

/// The handles that are given back for the first `k` chunks of `coords`: one
/// for each chunk that leaves the box while its mesh is there.
pub open spec fn released_upto(world: World, coords: Seq<[i32; 3]>, k: int) -> Seq<MeshHandle>
    decreases k,
{
    if k <= 0 {
        Seq::empty()
    } else {
        let c = coords[k - 1];
        if world.leaving(c) && released_handle(world.state(c)) is Some {
            released_upto(world, coords, k - 1).push(released_handle(world.state(c)).unwrap())
        } else {
            released_upto(world, coords, k - 1)
        }
    }
}

/// Streamers that keep the same window and the same of every entering chunk
/// send the same requests.
proof fn lemma_loads_same(a: World, b: World, coords: Seq<[i32; 3]>, k: int)
    requires
        a.same_window(&b),
        forall|coord: [i32; 3]| a.entering(coord) ==> a.state(coord) == b.state(coord),
    ensures
        loads_upto(a, coords, k) == loads_upto(b, coords, k),
    decreases k,
{
    if k > 0 {
        lemma_loads_same(a, b, coords, k - 1);
    }
}

/// The meshes of the first `k` chunks of `coords` that are there, each with
/// its chunk.
pub open spec fn resident_upto(world: World, coords: Seq<[i32; 3]>, k: int) -> Seq<
    ([i32; 3], MeshHandle),
>
    decreases k,
{
    if k <= 0 {
        Seq::empty()
    } else {
        match world.state(coords[k - 1]) {
            ChunkState::Resident(handle) => resident_upto(world, coords, k - 1).push(
                (coords[k - 1], handle),
            ),
            _ => resident_upto(world, coords, k - 1),
        }
    }
}

impl World {
    /// The invariant of the streamer: a grid of the fixed capacity that is
    /// wider than the box of wanted chunks, and a chunk length that can be
    /// counted.
    pub closed spec fn wf(&self) -> bool {
        &&& self.chunks.wf()
        &&& self.chunks.size() =~= seq![GRID_SIZE, GRID_SIZE, GRID_SIZE]
        &&& self.voxel_size > 0
        &&& self.chunk_size_in_voxels > 0
        &&& self.voxel_size * self.chunk_size_in_voxels <= i32::MAX
        &&& self.walking_window[0] >= 0
        &&& self.walking_window[1] >= 0
        &&& self.walking_window[2] >= 0
        &&& 2 * self.world_size_in_chunks_radius[0] + 1 <= GRID_SIZE
        &&& 2 * self.world_size_in_chunks_radius[1] + 1 <= GRID_SIZE
        &&& 2 * self.world_size_in_chunks_radius[2] + 1 <= GRID_SIZE
        &&& self.previous_center is Some ==> self.center is Some
    }

    /// The hysteretic centre, once the observer was seen.
    pub closed spec fn center(&self) -> Option<[i32; 3]> {
        self.center
    }

    /// The centre before the last update.
    pub closed spec fn previous_center(&self) -> Option<[i32; 3]> {
        self.previous_center
    }

    /// The extent of the walking window along each axis.
    pub closed spec fn walking_window(&self) -> [i32; 3] {
        self.walking_window
    }

    /// How many chunks beyond the centre chunk are wanted along each axis.
    pub closed spec fn radius(&self) -> [usize; 3] {
        self.world_size_in_chunks_radius
    }

    /// The length of a chunk in world units.
    pub closed spec fn chunk_length(&self) -> int {
        self.voxel_size * self.chunk_size_in_voxels
    }

    /// The cell of the grid that chunk `coord` wraps around to.
    pub closed spec fn cell(&self, coord: [i32; 3]) -> Option<Chunk> {
        self.chunks.cells()[self.chunks.cell_index(coord)]
    }

    /// Whether two chunks wrap around to the same cell of the grid.
    pub closed spec fn shares_cell(&self, a: [i32; 3], b: [i32; 3]) -> bool {
        self.chunks.cell_index(a) == self.chunks.cell_index(b)
    }

    /// The state of chunk `coord`.
    pub open spec fn state(&self, coord: [i32; 3]) -> ChunkState {
        chunk_state(self.cell(coord), coord)
    }

    /// The chunk of the centre.
    pub open spec fn center_chunk(&self) -> Option<[i32; 3]> {
        match self.center() {
            Some(c) => Some(chunk_of(c, self.chunk_length())),
            None => None,
        }
    }

    /// The chunk of the centre before the last update.
    pub open spec fn previous_chunk(&self) -> Option<[i32; 3]> {
        match self.previous_center() {
            Some(c) => Some(chunk_of(c, self.chunk_length())),
            None => None,
        }
    }

    /// Whether chunk `coord` lies in the box around the centre.
    pub open spec fn wanted(&self, coord: [i32; 3]) -> bool {
        self.center_chunk() is Some && in_box(self.center_chunk().unwrap(), self.radius(), coord)
    }

    /// Whether chunk `coord` lay in the box around the centre before the last update.
    pub open spec fn was_wanted(&self, coord: [i32; 3]) -> bool {
        self.previous_chunk() is Some && in_box(
            self.previous_chunk().unwrap(),
            self.radius(),
            coord,
        )
    }

    /// Whether chunk `coord` has left the box with the last update.
    pub open spec fn leaving(&self, coord: [i32; 3]) -> bool {
        self.was_wanted(coord) && !self.wanted(coord)
    }

    /// Whether chunk `coord` has come into the box with the last update.
    pub open spec fn entering(&self, coord: [i32; 3]) -> bool {
        self.wanted(coord) && !self.was_wanted(coord)
    }

    /// The streamer after it has followed the observer to `position`: the
    /// first position becomes the centre, a later one moves the centre with
    /// hysteresis, and the centre before becomes the previous centre. What is
    /// kept of the chunks stays.
    pub closed spec fn moved_to(&self, position: [i32; 3]) -> World {
        World {
            center: Some(
                match self.center {
                    Some(c) => moved_center_3d(position, c, self.walking_window),
                    None => position,
                },
            ),
            previous_center: self.center,
            ..*self
        }
    }

    /// What following the observer changes: the centres, and nothing else.
    pub proof fn lemma_moved_to(&self, position: [i32; 3])
        ensures
            self.moved_to(position).previous_center() == self.center(),
            self.moved_to(position).center() == Some(
                match self.center() {
                    Some(c) => moved_center_3d(position, c, self.walking_window()),
                    None => position,
                },
            ),
            self.moved_to(position).walking_window() == self.walking_window(),
            self.moved_to(position).radius() == self.radius(),
            self.moved_to(position).chunk_length() == self.chunk_length(),
            forall|coord: [i32; 3]|
                (#[trigger] self.moved_to(position).state(coord)) == self.state(coord),
    {
    }

    /// Whether something is kept of wanted chunks only.
    pub open spec fn tidy(&self) -> bool {
        forall|coord: [i32; 3]|
            (#[trigger] self.state(coord)) != ChunkState::Absent ==> self.wanted(coord)
    }

    /// Whether asking for the entering chunks takes the cell of chunk `coord`
    /// for another chunk: one that enters the box, of which nothing is kept,
    /// and that wraps around to the same cell.
    pub open spec fn displaced(&self, coord: [i32; 3]) -> bool {
        exists|e: [i32; 3]|
            self.takes_cell(coord, e)
    }

    /// Whether asking for chunk `e` takes the cell of chunk `coord`.
    pub open spec fn takes_cell(&self, coord: [i32; 3], e: [i32; 3]) -> bool {
        &&& self.shares_cell(coord, e)
        &&& self.entering(e)
        &&& sends_load(self.state(e))
        &&& !same_location(coord, e)
    }

    /// Whether asking for one of the first `k` chunks of the box takes the
    /// cell of chunk `coord`.
    pub open spec fn displaced_upto(&self, coord: [i32; 3], k: int) -> bool {
        exists|e: [i32; 3]| #[trigger]
            self.takes_cell(coord, e) && box_position(
                self.center_chunk().unwrap(),
                self.radius(),
                e,
            ) < k
    }

    /// Whether two streamers keep the same centres and sizes.
    pub open spec fn same_window(&self, other: &World) -> bool {
        &&& self.center() == other.center()
        &&& self.previous_center() == other.previous_center()
        &&& self.walking_window() == other.walking_window()
        &&& self.radius() == other.radius()
        &&& self.chunk_length() == other.chunk_length()
    }

    /// Two wanted chunks that share a cell are one chunk: the grid is wider
    /// than the box.
    pub proof fn lemma_wanted_chunks_apart(&self, a: [i32; 3], b: [i32; 3])
        requires
            self.wf(),
            self.wanted(a),
            self.wanted(b),
            self.shares_cell(a, b),
        ensures
            same_location(a, b),
    {
        let n = GRID_SIZE as int;
        let c = self.center_chunk().unwrap();
        let r = self.world_size_in_chunks_radius;
        lemma_physical_index_is_remainder(a[0] as int, n);
        lemma_physical_index_is_remainder(a[1] as int, n);
        lemma_physical_index_is_remainder(a[2] as int, n);
        lemma_physical_index_is_remainder(b[0] as int, n);
        lemma_physical_index_is_remainder(b[1] as int, n);
        lemma_physical_index_is_remainder(b[2] as int, n);
        lemma_cells_apart(
            a[0] as int % n,
            a[1] as int % n,
            a[2] as int % n,
            b[0] as int % n,
            b[1] as int % n,
            b[2] as int % n,
        );
        lemma_axis_apart(a[0] as int, b[0] as int, c[0] as int, r[0] as int);
        lemma_axis_apart(a[1] as int, b[1] as int, c[1] as int, r[1] as int);
        lemma_axis_apart(a[2] as int, b[2] as int, c[2] as int, r[2] as int);
    }

    /// A streamer for chunks of `chunk_size` voxels along each edge, before
    /// the observer was seen: nothing is kept of any chunk.
    pub fn new(chunk_size: usize) -> (world: Self)
        requires
            0 < chunk_size,
            chunk_size * VOXEL_SIZE <= i32::MAX,
        ensures
            world.wf(),
            world.center() is None,
            world.previous_center() is None,
            world.walking_window() == [WALKING_WINDOW, WALKING_WINDOW, WALKING_WINDOW],
            world.radius() == [RADIUS_IN_CHUNKS, RADIUS_IN_CHUNKS, RADIUS_IN_CHUNKS],
            world.chunk_length() == chunk_size * VOXEL_SIZE,
            forall|coord: [i32; 3]| world.state(coord) == ChunkState::Absent,
            world.tidy(),
    {
        assert(GRID_SIZE * GRID_SIZE == 10000 && GRID_SIZE * GRID_SIZE * GRID_SIZE == 1000000);
        let chunks: Vec3dSliding<Option<Chunk>> = Vec3dSliding::new(
            [GRID_SIZE, GRID_SIZE, GRID_SIZE],
        );
        let world = Self {
            chunks,
            center: None,
            previous_center: None,
            voxel_size: VOXEL_SIZE,
            chunk_size_in_voxels: chunk_size as u32,
            walking_window: [WALKING_WINDOW, WALKING_WINDOW, WALKING_WINDOW],
            world_size_in_chunks_radius: [RADIUS_IN_CHUNKS, RADIUS_IN_CHUNKS, RADIUS_IN_CHUNKS],
        };
        proof {
            assert(world.voxel_size * world.chunk_size_in_voxels == chunk_size * VOXEL_SIZE)
                by (nonlinear_arith)
                requires
                    world.voxel_size == VOXEL_SIZE,
                    world.chunk_size_in_voxels == chunk_size,
            ;
            assert forall|coord: [i32; 3]| world.state(coord) == ChunkState::Absent by {
                world.chunks.lemma_cell_index_in_range(coord);
                assert(world.cell(coord) is None);
            }
        }
        world
    }

    /// The hysteretic centre, once the observer was seen.
    pub fn get_center(&self) -> (c: Option<[i32; 3]>)
        ensures
            c == self.center(),
    {
        self.center
    }

    /// The state of chunk `coord`.
    pub fn get_state(&self, coord: [i32; 3]) -> (state: ChunkState)
        requires
            self.wf(),
        ensures
            state == self.state(coord),
    {
        let cell = self.chunks.get(coord);
        state_of(&cell, &coord)
    }

    /// The chunk that holds `position` along one axis.
    pub fn position_to_chunk_index_1d(position: i32, chunk_length: i32) -> (index: i32)
        requires
            chunk_length > 0,
        ensures
            index == chunk_index(position as int, chunk_length as int),
    {
        WorldWindow::position_to_chunk_index_1d(position, chunk_length)
    }

    /// The chunk that holds `position`.
    pub fn position_to_chunk_index_3d(position: [i32; 3], chunk_length: i32) -> (index: [i32; 3])
        requires
            chunk_length > 0,
        ensures
            index == chunk_of(position, chunk_length as int),
    {
        [
            Self::position_to_chunk_index_1d(position[0], chunk_length),
            Self::position_to_chunk_index_1d(position[1], chunk_length),
            Self::position_to_chunk_index_1d(position[2], chunk_length),
        ]
    }

    /// Whether `first` and `second` are at most `distance` apart.
    pub fn within_distance_1d(first: i32, second: i32, distance: usize) -> (r: bool)
        ensures
            r == crate::chunk_area::within_distance(first as int, second as int, distance as int),
    {
        within_distance_1d(first, second, distance)
    }

    /// Whether two chunks are at most `distance[i]` apart along every axis `i`.
    pub fn within_distance_3d(first: [i32; 3], second: [i32; 3], distance: [usize; 3]) -> (r: bool)
        ensures
            r == in_box(first, distance, second),
    {
        within_distance_3d(first, second, distance)
    }

    /// Whether two chunks are more than `distance[i]` apart along some axis `i`.
    pub fn outside_distance_3d(first: [i32; 3], second: [i32; 3], distance: [usize; 3]) -> (r:
        bool)
        ensures
            r == !in_box(first, distance, second),
    {
        !within_distance_3d(first, second, distance)
    }

    /// The length of a chunk in world units.
    fn chunk_length_in_units(&self) -> (length: i32)
        requires
            self.wf(),
        ensures
            length == self.chunk_length(),
            length > 0,
    {
        proof {
            assert(self.voxel_size * self.chunk_size_in_voxels > 0) by (nonlinear_arith)
                requires
                    self.voxel_size > 0,
                    self.chunk_size_in_voxels > 0,
            ;
        }
        (self.voxel_size as i64 * self.chunk_size_in_voxels as i64) as i32
    }

    /// Follows the observer to `position`. The first position becomes the
    /// centre; from then on the centre moves with hysteresis. The centre
    /// before the update is kept as the previous centre.
    pub fn update_center(&mut self, position: [i32; 3])
        requires
            old(self).wf(),
        ensures
            final(self).wf(),
            final(self).previous_center() == old(self).center(),
            final(self).center() == Some(
                match old(self).center() {
                    Some(c) => moved_center_3d(position, c, old(self).walking_window()),
                    None => position,
                },
            ),
            final(self).walking_window() == old(self).walking_window(),
            final(self).radius() == old(self).radius(),
            final(self).chunk_length() == old(self).chunk_length(),
            forall|coord: [i32; 3]| final(self).state(coord) == old(self).state(coord),
            *final(self) == old(self).moved_to(position),
    {
        let next = match self.center {
            Some(c) => {
                [
                    WorldWindow::move_to_position_1d(position[0], c[0], self.walking_window[0]),
                    WorldWindow::move_to_position_1d(position[1], c[1], self.walking_window[1]),
                    WorldWindow::move_to_position_1d(position[2], c[2], self.walking_window[2]),
                ]
            },
            None => position,
        };
        self.previous_center = self.center;
        self.center = Some(next);
    }

    /// Asks for chunk `coord`: if nothing is kept of it, it is marked as
    /// requested and the request for the worker is returned; a chunk that is
    /// requested or there already is left alone and nothing is sent. Another
    /// chunk changes only if it shares the cell that is taken: then nothing is
    /// kept of it any more.
    pub fn request(&mut self, coord: [i32; 3]) -> (load: Option<Command>)
        requires
            old(self).wf(),
        ensures
            final(self).wf(),
            final(self).same_window(old(self)),
            load is Some <==> sends_load(old(self).state(coord)),
            load is Some ==> load == Some(Command::Load(coord[0], coord[1], coord[2])),
            final(self).state(coord) == after_request(old(self).state(coord)),
            forall|other: [i32; 3]|
                !same_location(other, coord) ==>
                    (#[trigger] final(self).state(other)) == (if load is Some
                    && old(self).shares_cell(other, coord) {
                    ChunkState::Absent
                } else {
                    old(self).state(other)
                }),
    {
        let cell = self.chunks.get(coord);
        match state_of(&cell, &coord) {
            ChunkState::Absent => {
                proof {
                    self.chunks.lemma_cell_index_in_range(coord);
                    assert forall|other: [i32; 3]|
                        0 <= #[trigger] self.chunks.cell_index(other) < self.chunks.cells().len() by {
                        self.chunks.lemma_cell_index_in_range(other);
                    }
                }
                self.chunks.set(coord, Some(Chunk::new(coord[0], coord[1], coord[2])));
                Some(Command::Load(coord[0], coord[1], coord[2]))
            },
            _ => None,
        }
    }

    /// Lets go of chunk `coord`: nothing is kept of it afterwards, and the
    /// handle of its mesh, if the mesh was there, is returned to be given
    /// back. No other chunk changes.
    pub fn delete_chunk(&mut self, coord: [i32; 3]) -> (released: Option<MeshHandle>)
        requires
            old(self).wf(),
        ensures
            final(self).wf(),
            final(self).same_window(old(self)),
            released == released_handle(old(self).state(coord)),
            final(self).state(coord) == after_evict(old(self).state(coord)),
            forall|other: [i32; 3]|
                !same_location(other, coord) ==>
                    (#[trigger] final(self).state(other)) == old(self).state(other),
    {
        let cell = self.chunks.get(coord);
        match state_of(&cell, &coord) {
            ChunkState::Absent => None,
            ChunkState::Requested => {
                proof {
                    self.chunks.lemma_cell_index_in_range(coord);
                    assert forall|other: [i32; 3]|
                        0 <= #[trigger] self.chunks.cell_index(other) < self.chunks.cells().len() by {
                        self.chunks.lemma_cell_index_in_range(other);
                    }
                }
                self.chunks.set(coord, None);
                None
            },
            ChunkState::Resident(handle) => {
                proof {
                    self.chunks.lemma_cell_index_in_range(coord);
                    assert forall|other: [i32; 3]|
                        0 <= #[trigger] self.chunks.cell_index(other) < self.chunks.cells().len() by {
                        self.chunks.lemma_cell_index_in_range(other);
                    }
                }
                self.chunks.set(coord, None);
                Some(handle)
            },
        }
    }

    /// Takes the mesh that the worker has built for chunk `location`. It is
    /// installed under `mesh_handle` if the chunk is requested and still
    /// wanted; a result for any other chunk is dropped and changes nothing.
    /// Returns whether the mesh was installed.
    pub fn retrieve_new(&mut self, location: [i32; 3], mesh_handle: MeshHandle) -> (installed: bool)
        requires
            old(self).wf(),
        ensures
            final(self).wf(),
            final(self).same_window(old(self)),
            installed == (old(self).state(location) == ChunkState::Requested && old(self).wanted(
                location,
            )),
            final(self).state(location) == after_result(
                old(self).state(location),
                old(self).wanted(location),
                mesh_handle,
            ),
            forall|other: [i32; 3]|
                !same_location(other, location) ==>
                    (#[trigger] final(self).state(other)) == old(self).state(other),
            old(self).tidy() ==> final(self).tidy(),
    {
        let wanted = match self.center {
            Some(center) => {
                let center_index = Self::position_to_chunk_index_3d(
                    center,
                    self.chunk_length_in_units(),
                );
                within_distance_3d(center_index, location, self.world_size_in_chunks_radius)
            },
            None => false,
        };
        proof {
            assert forall|other: [i32; 3]| same_location(other, location) implies other
                == location by {
                assert(other =~= location);
            }
        }
        let cell = self.chunks.get(location);
        let installed = match state_of(&cell, &location) {
            ChunkState::Requested => {
                if wanted {
                    proof {
                        self.chunks.lemma_cell_index_in_range(location);
                        assert forall|other: [i32; 3]|
                            0 <= #[trigger] self.chunks.cell_index(other)
                                < self.chunks.cells().len() by {
                            self.chunks.lemma_cell_index_in_range(other);
                        }
                    }
                    self.chunks.set(
                        location,
                        Some(Chunk { location, mesh_handle: Some(mesh_handle), requested: true }),
                    );
                    true
                } else {
                    false
                }
            },
            _ => false,
        };
        proof {
            if old(self).tidy() {
                assert forall|coord: [i32; 3]|
                    (#[trigger] self.state(coord)) != ChunkState::Absent implies self.wanted(
                    coord,
                ) by {
                    if same_location(coord, location) {
                        assert(coord == location);
                    } else {
                        assert(self.state(coord) == old(self).state(coord));
                    }
                }
            }
        }
        installed
    }

    /// Lets go of every chunk that has left the box with the last update:
    /// nothing is kept of them afterwards, and the handles of the meshes that
    /// were there are returned, in the order of the box around the previous
    /// centre, to be given back. Every other chunk stays as it is.
    pub fn delete_obsolete(&mut self) -> (released: Vec<MeshHandle>)
        requires
            old(self).wf(),
        ensures
            final(self).wf(),
            final(self).same_window(old(self)),
            forall|coord: [i32; 3]|
                (#[trigger] final(self).state(coord)) == (if old(self).leaving(coord) {
                    ChunkState::Absent
                } else {
                    old(self).state(coord)
                }),
            old(self).previous_chunk() is None ==> released@ == Seq::<MeshHandle>::empty(),
            old(self).previous_chunk() is Some ==> released@ == released_upto(
                *old(self),
                box_coordinates(old(self).previous_chunk().unwrap(), old(self).radius()),
                box_len(old(self).previous_chunk().unwrap(), old(self).radius()),
            ),
    {
        let mut released: Vec<MeshHandle> = Vec::new();
        if let (Some(previous_center), Some(center)) = (self.previous_center, self.center) {
            let chunk_length = self.chunk_length_in_units();
            let radius = self.world_size_in_chunks_radius;
            let previous_center_index = Self::position_to_chunk_index_3d(
                previous_center,
                chunk_length,
            );
            let center_index = Self::position_to_chunk_index_3d(center, chunk_length);
            let coords = chunk_box(previous_center_index, radius);
            let ghost before = *self;
            let mut k: usize = 0;
            while k < coords.len()
                invariant
                    self.wf(),
                    before.wf(),
                    self.same_window(&before),
                    before.previous_chunk() == Some(previous_center_index),
                    before.center_chunk() == Some(center_index),
                    before.radius() == radius,
                    coords@ == box_coordinates(previous_center_index, radius),
                    coords@.len() == box_len(previous_center_index, radius),
                    k <= coords@.len(),
                    released@ == released_upto(before, coords@, k as int),
                    forall|coord: [i32; 3]|
                        (#[trigger] self.state(coord)) == (if before.leaving(coord) && box_position(
                            previous_center_index,
                            radius,
                            coord,
                        ) < k {
                            ChunkState::Absent
                        } else {
                            before.state(coord)
                        }),
                decreases coords@.len() - k,
            {
                let coord = coords[k];
                proof {
                    lemma_box_coordinate(previous_center_index, radius, k as int);
                    assert forall|other: [i32; 3]|
                        in_box(previous_center_index, radius, other) && box_position(
                            previous_center_index,
                            radius,
                            other,
                        ) == k implies same_location(other, coord) by {
                        lemma_box_position(previous_center_index, radius, other);
                    }
                }
                let ghost prior = *self;
                let obsolete = Self::outside_distance_3d(center_index, coord, radius);
                assert(obsolete == before.leaving(coord));
                assert(prior.state(coord) == before.state(coord));
                if obsolete {
                    if let Some(handle) = self.delete_chunk(coord) {
                        released.push(handle);
                    }
                }
                proof {
                    assert forall|other: [i32; 3]|
                        (#[trigger] self.state(other)) == (if before.leaving(other) && box_position(
                            previous_center_index,
                            radius,
                            other,
                        ) < k + 1 {
                            ChunkState::Absent
                        } else {
                            before.state(other)
                        }) by {
                        if !same_location(other, coord) {
                            assert(self.state(other) == prior.state(other));
                            if before.leaving(other) {
                                assert(box_position(previous_center_index, radius, other) != k);
                            }
                        } else {
                            lemma_same_state(*self, other, coord);
                            lemma_same_state(before, other, coord);
                            lemma_same_state(prior, other, coord);
                            lemma_box_position(previous_center_index, radius, coord);
                        }
                    }
                }
                k += 1;
            }
        }
        released
    }

    /// Asks for every chunk that has come into the box with the last update
    /// and of which nothing is kept: each is marked as requested, and the
    /// requests for the worker are returned in the order of the box around
    /// the centre. A wanted chunk that is requested or there already is left
    /// alone. A chunk outside the box stays as it is, unless it shares its
    /// cell with a chunk that was asked for: then nothing is kept of it.
    pub fn request_new(&mut self) -> (loads: Vec<Command>)
        requires
            old(self).wf(),
            old(self).center() is Some,
        ensures
            final(self).wf(),
            final(self).same_window(old(self)),
            loads@ == loads_upto(
                *old(self),
                box_coordinates(old(self).center_chunk().unwrap(), old(self).radius()),
                box_len(old(self).center_chunk().unwrap(), old(self).radius()),
            ),
            forall|coord: [i32; 3]|
                old(self).wanted(coord) ==>
                    (#[trigger] final(self).state(coord)) == (if old(self).entering(coord) {
                    after_request(old(self).state(coord))
                } else {
                    old(self).state(coord)
                }),
            forall|coord: [i32; 3]|
                !old(self).wanted(coord) ==>
                    (#[trigger] final(self).state(coord)) == (if old(self).displaced(coord) {
                    ChunkState::Absent
                } else {
                    old(self).state(coord)
                }),
    {
        let mut loads: Vec<Command> = Vec::new();
        let chunk_length = self.chunk_length_in_units();
        let radius = self.world_size_in_chunks_radius;
        let center_index = match self.center {
            Some(center) => Self::position_to_chunk_index_3d(center, chunk_length),
            None => vstd::pervasive::unreached(),
        };
        let previous_center_index = match self.previous_center {
            Some(previous_center) => Some(
                Self::position_to_chunk_index_3d(previous_center, chunk_length),
            ),
            None => None,
        };
        let coords = chunk_box(center_index, radius);
        let ghost before = *self;
        let mut k: usize = 0;
        while k < coords.len()
            invariant
                self.wf(),
                before.wf(),
                self.same_window(&before),
                before.previous_chunk() == previous_center_index,
                before.center_chunk() == Some(center_index),
                before.radius() == radius,
                coords@ == box_coordinates(center_index, radius),
                coords@.len() == box_len(center_index, radius),
                k <= coords@.len(),
                loads@ == loads_upto(before, coords@, k as int),
                forall|coord: [i32; 3]|
                    before.wanted(coord) ==> (#[trigger] self.state(coord)) == (if before.entering(
                        coord,
                    ) && box_position(center_index, radius, coord) < k {
                        after_request(before.state(coord))
                    } else {
                        before.state(coord)
                    }),
                forall|coord: [i32; 3]|
                    !before.wanted(coord) ==>
                        (#[trigger] self.state(coord)) == (if before.displaced_upto(
                        coord,
                        k as int,
                    ) {
                        ChunkState::Absent
                    } else {
                        before.state(coord)
                    }),
            decreases coords@.len() - k,
        {
            let coord = coords[k];
            proof {
                lemma_box_coordinate(center_index, radius, k as int);
                assert forall|other: [i32; 3]|
                    in_box(center_index, radius, other) && box_position(
                        center_index,
                        radius,
                        other,
                    ) == k implies same_location(other, coord) by {
                    lemma_box_position(center_index, radius, other);
                }
                assert forall|other: [i32; 3]|
                    before.wanted(other) && self.shares_cell(
                        other,
                        coord,
                    ) implies #[trigger] same_location(other, coord) by {
                    self.lemma_wanted_chunks_apart(other, coord);
                }
            }
            let entering = match previous_center_index {
                Some(previous) => !within_distance_3d(previous, coord, radius),
                None => true,
            };
            let ghost prior = *self;
            assert(entering == before.entering(coord));
            assert(prior.state(coord) == before.state(coord));
            if entering {
                if let Some(load) = self.request(coord) {
                    loads.push(load);
                }
            }
            proof {
                assert forall|other: [i32; 3]| before.wanted(other) implies (#[trigger] self.state(
                    other,
                )) == (if before.entering(other) && box_position(center_index, radius, other) < k
                    + 1 {
                    after_request(before.state(other))
                } else {
                    before.state(other)
                }) by {
                    if !same_location(other, coord) {
                        if prior.shares_cell(other, coord) {
                            assert(same_location(other, coord));
                        }
                        assert(self.state(other) == prior.state(other));
                        assert(box_position(center_index, radius, other) != k);
                    } else {
                        lemma_same_state(*self, other, coord);
                        lemma_same_state(before, other, coord);
                        lemma_box_position(center_index, radius, other);
                        lemma_box_position(center_index, radius, coord);
                    }
                }
                let asked = entering && sends_load(before.state(coord));
                assert forall|other: [i32; 3]| !before.wanted(other) implies (#[trigger] self.state(
                    other,
                )) == (if before.displaced_upto(other, k + 1) {
                    ChunkState::Absent
                } else {
                    before.state(other)
                }) by {
                    assert(!same_location(other, coord)) by {
                        if same_location(other, coord) {
                            lemma_same_state(before, other, coord);
                        }
                    }
                    if asked && prior.shares_cell(other, coord) {
                        assert(before.takes_cell(other, coord));
                        lemma_box_position(center_index, radius, coord);
                        assert(before.displaced_upto(other, k + 1));
                    } else {
                        assert(self.state(other) == prior.state(other));
                        if before.displaced_upto(other, k + 1) {
                            let e = choose|e: [i32; 3]| #[trigger]
                                before.takes_cell(other, e) && box_position(
                                    center_index,
                                    radius,
                                    e,
                                ) < k + 1;
                            if box_position(center_index, radius, e) == k {
                                lemma_box_position(center_index, radius, e);
                                lemma_same_state(before, e, coord);
                            }
                            assert(before.displaced_upto(other, k as int));
                        } else if before.displaced_upto(other, k as int) {
                            let e = choose|e: [i32; 3]| #[trigger]
                                before.takes_cell(other, e) && box_position(
                                    center_index,
                                    radius,
                                    e,
                                ) < k;
                            assert(before.takes_cell(other, e) && box_position(
                                center_index,
                                radius,
                                e,
                            ) < k + 1);
                        }
                    }
                }
            }
            k += 1;
        }
        proof {
            assert forall|other: [i32; 3]| !before.wanted(other) implies before.displaced_upto(
                other,
                coords@.len() as int,
            ) == before.displaced(other) by {
                if before.displaced(other) {
                    let e = choose|e: [i32; 3]| before.takes_cell(other, e);
                    lemma_box_position(center_index, radius, e);
                    assert(before.takes_cell(other, e) && box_position(center_index, radius, e)
                        < coords@.len());
                }
                if before.displaced_upto(other, coords@.len() as int) {
                    let e = choose|e: [i32; 3]| #[trigger]
                        before.takes_cell(other, e) && box_position(center_index, radius, e)
                            < coords@.len();
                    assert(before.takes_cell(other, e));
                }
            }
        }
        loads
    }

    /// One tick of the streamer: follows the observer to `position`, lets go
    /// of the chunks that have left the box, and asks for those that have come
    /// into it. Returns the handles to give back and the requests to send.
    pub fn update(&mut self, position: [i32; 3]) -> (actions: (Vec<MeshHandle>, Vec<Command>))
        requires
            old(self).wf(),
        ensures
            final(self).wf(),
            final(self).previous_center() == old(self).center(),
            final(self).center() == Some(
                match old(self).center() {
                    Some(c) => moved_center_3d(position, c, old(self).walking_window()),
                    None => position,
                },
            ),
            final(self).walking_window() == old(self).walking_window(),
            final(self).radius() == old(self).radius(),
            final(self).chunk_length() == old(self).chunk_length(),
            forall|coord: [i32; 3]|
                final(self).wanted(coord) ==>
                    (#[trigger] final(self).state(coord)) == (if final(self).entering(coord) {
                    after_request(old(self).state(coord))
                } else {
                    old(self).state(coord)
                }),
            forall|coord: [i32; 3]|
                !final(self).wanted(coord) ==>
                    (#[trigger] final(self).state(coord)) == (if final(self).leaving(coord)
                    || old(self).moved_to(position).displaced(coord) {
                    ChunkState::Absent
                } else {
                    old(self).state(coord)
                }),
            old(self).tidy() ==> final(self).tidy(),
            old(self).center() is None ==> actions.0@ == Seq::<MeshHandle>::empty(),
            old(self).center() is Some ==> actions.0@ == released_upto(
                old(self).moved_to(position),
                box_coordinates(final(self).previous_chunk().unwrap(), final(self).radius()),
                box_len(final(self).previous_chunk().unwrap(), final(self).radius()),
            ),
            actions.1@ == loads_upto(
                old(self).moved_to(position),
                box_coordinates(final(self).center_chunk().unwrap(), final(self).radius()),
                box_len(final(self).center_chunk().unwrap(), final(self).radius()),
            ),
    {
        self.update_center(position);
        let ghost moved = *self;
        let released = self.delete_obsolete();
        let ghost cleaned = *self;
        let loads = self.request_new();
        proof {
            assert forall|coord: [i32; 3]| cleaned.entering(coord) implies cleaned.state(coord)
                == moved.state(coord) by {}
            lemma_loads_same(
                cleaned,
                moved,
                box_coordinates(moved.center_chunk().unwrap(), moved.radius()),
                box_len(moved.center_chunk().unwrap(), moved.radius()),
            );
            assert forall|coord: [i32; 3]| self.wanted(coord) implies (#[trigger] self.state(coord))
                == (if self.entering(coord) {
                after_request(old(self).state(coord))
                } else {
                    old(self).state(coord)
                }) by {
                assert(cleaned.wanted(coord));
                assert(cleaned.state(coord) == moved.state(coord));
                assert(moved.state(coord) == old(self).state(coord));
            }
            assert forall|coord: [i32; 3]| !self.wanted(coord) implies (#[trigger] self.state(coord))
                == (if self.leaving(coord) || moved.displaced(coord) {
                ChunkState::Absent
            } else {
                old(self).state(coord)
            }) by {
                assert(!cleaned.wanted(coord));
                assert(moved.state(coord) == old(self).state(coord));
                assert(cleaned.state(coord) == (if moved.leaving(coord) {
                    ChunkState::Absent
                } else {
                    moved.state(coord)
                }));
                if moved.displaced(coord) {
                    let e = choose|e: [i32; 3]| moved.takes_cell(coord, e);
                    assert(cleaned.state(e) == moved.state(e));
                    assert(cleaned.takes_cell(coord, e));
                }
                if cleaned.displaced(coord) {
                    let e = choose|e: [i32; 3]| cleaned.takes_cell(coord, e);
                    assert(cleaned.state(e) == moved.state(e));
                    assert(moved.takes_cell(coord, e));
                }
            }
        }
        (released, loads)
    }

    /// The meshes in view from `position`: for every chunk of the box around
    /// the chunk of `position` whose mesh is there, in the order of the box,
    /// the chunk and the handle of its mesh. The chunk says where the mesh
    /// stands.
    pub fn get_within_view_mesh_transform(&self, position: [i32; 3]) -> (meshes: Vec<
        ([i32; 3], MeshHandle),
    >)
        requires
            self.wf(),
        ensures
            meshes@ == resident_upto(
                *self,
                box_coordinates(chunk_of(position, self.chunk_length()), self.radius()),
                box_len(chunk_of(position, self.chunk_length()), self.radius()),
            ),
    {
        let mut meshes: Vec<([i32; 3], MeshHandle)> = Vec::new();
        let position_index = Self::position_to_chunk_index_3d(
            position,
            self.chunk_length_in_units(),
        );
        let coords = chunk_box(position_index, self.world_size_in_chunks_radius);
        let mut k: usize = 0;
        while k < coords.len()
            invariant
                self.wf(),
                k <= coords@.len(),
                coords@.len() == box_len(position_index, self.radius()),
                meshes@ == resident_upto(*self, coords@, k as int),
            decreases coords@.len() - k,
        {
            let coord = coords[k];
            if let ChunkState::Resident(handle) = self.get_state(coord) {
                meshes.push((coord, handle));
            }
            k += 1;
        }
        meshes
    }
}

} // verus!
