//! The walking window: a centre that follows an observer only once the
//! observer has left an inner window around it.
//!
//! Positions and sizes are whole numbers of a world unit that the caller
//! chooses; a chunk is `voxel_size * chunk_size_in_voxels` units long.

use vstd::prelude::*;

verus! {

/// Half of the inner window along one axis.
pub open spec fn half_window(inner_size: int) -> int {
    inner_size / 2
}

/// Where the centre lies along one axis after the observer has moved to
/// `position`: it stays while the observer is within half the inner window of
/// it, and otherwise comes to lie half the inner window behind the observer.
pub open spec fn moved_center(position: int, center: int, inner_size: int) -> int {
    let offset = position - center;
    if offset < -half_window(inner_size) {
        position + half_window(inner_size)
    } else if offset > half_window(inner_size) {
        position - half_window(inner_size)
    } else {
        center
    }
}

/// The centre along each of the three axes after the observer has moved to `position`.
pub open spec fn moved_center_3d(position: [i32; 3], center: [i32; 3], inner_size: [i32; 3]) -> [i32; 3] {
    [
        moved_center(position[0] as int, center[0] as int, inner_size[0] as int) as i32,
        moved_center(position[1] as int, center[1] as int, inner_size[1] as int) as i32,
        moved_center(position[2] as int, center[2] as int, inner_size[2] as int) as i32,
    ]
}

/// Whether `position` lies in the inner window around `center`, bounds included.
pub open spec fn in_inner_window(position: [i32; 3], center: [i32; 3], inner_size: [i32; 3]) -> bool {
    forall|i: int|
        0 <= i < 3 ==> center[i] - half_window(inner_size[i] as int) <= #[trigger] position[i]
            <= center[i] + half_window(inner_size[i] as int)
}

/// The centre after the observer has moved through `positions` in turn.
pub open spec fn center_after(center: [i32; 3], inner_size: [i32; 3], positions: Seq<[i32; 3]>) -> [i32; 3]
    decreases positions.len(),
{
    if positions.len() == 0 {
        center
    } else {
        moved_center_3d(
            positions.last(),
            center_after(center, inner_size, positions.drop_last()),
            inner_size,
        )
    }
}

/// The chunk that holds `position` along one axis: the position divided by the
/// length of a chunk, rounded down.
pub open spec fn chunk_index(position: int, chunk_length: int) -> int
    recommends
        chunk_length > 0,
{
    position / chunk_length
}

/// Small motion does not move the centre: a move to a position in the inner
/// window leaves the centre where it is.
pub proof fn lemma_move_inside_keeps_center(position: [i32; 3], center: [i32; 3], inner_size: [i32; 3])
    requires
        in_inner_window(position, center, inner_size),
    ensures
        moved_center_3d(position, center, inner_size) == center,
{
    assert(position[0] - center[0] <= half_window(inner_size[0] as int));
    assert(position[1] - center[1] <= half_window(inner_size[1] as int));
    assert(position[2] - center[2] <= half_window(inner_size[2] as int));
    assert(moved_center_3d(position, center, inner_size)@ =~= center@);
}

/// Hysteresis: however often the observer moves, as long as every position
/// lies in the inner window around the centre, the centre stays.
pub proof fn lemma_hysteresis_stable(center: [i32; 3], inner_size: [i32; 3], positions: Seq<[i32; 3]>)
    requires
        forall|k: int|
            0 <= k < positions.len() ==> in_inner_window(
                #[trigger] positions[k],
                center,
                inner_size,
            ),
    ensures
        center_after(center, inner_size, positions) == center,
    decreases positions.len(),
{
    if positions.len() > 0 {
        lemma_hysteresis_stable(center, inner_size, positions.drop_last());
        lemma_move_inside_keeps_center(positions.last(), center, inner_size);
    }
}

/// A centre that follows an observer with hysteresis, and the sizes that
/// turn positions into chunks.
pub struct WorldWindow {
    center: [i32; 3],
    inner_size: [i32; 3],
    voxel_size: i32,
    chunk_size_in_voxels: u32,
    view_size: [i32; 3],
}

impl WorldWindow {
    /// The current centre.
    pub closed spec fn center(&self) -> [i32; 3] {
        self.center
    }

    /// The extent of the inner window along each axis.
    pub closed spec fn inner_size(&self) -> [i32; 3] {
        self.inner_size
    }

    /// The length of a voxel.
    pub closed spec fn voxel_size(&self) -> i32 {
        self.voxel_size
    }

    /// The number of voxels along the edge of a chunk.
    pub closed spec fn chunk_size_in_voxels(&self) -> u32 {
        self.chunk_size_in_voxels
    }

    /// The extent of the view along each axis.
    pub closed spec fn view_size(&self) -> [i32; 3] {
        self.view_size
    }

    /// The invariant of the window: sizes are not negative.
    pub open spec fn wf(&self) -> bool {
        forall|i: int| 0 <= i < 3 ==> #[trigger] self.inner_size()[i] >= 0
    }

    /// A window centred on `position`.
    pub fn new(
        position: [i32; 3],
        inner_size: [i32; 3],
        voxel_size: i32,
        chunk_size_in_voxels: u32,
        view_size: [i32; 3],
    ) -> (window: Self)
        requires
            inner_size[0] >= 0,
            inner_size[1] >= 0,
            inner_size[2] >= 0,
        ensures
            window.wf(),
            window.center() == position,
            window.inner_size() == inner_size,
            window.voxel_size() == voxel_size,
            window.chunk_size_in_voxels() == chunk_size_in_voxels,
            window.view_size() == view_size,
    {
        Self { center: position, inner_size, voxel_size, chunk_size_in_voxels, view_size }
    }

    /// The current centre.
    pub fn get_center(&self) -> (c: [i32; 3])
        ensures
            c == self.center(),
    {
        self.center
    }

    /// Moves the centre along one axis after the observer.
    pub fn move_to_position_1d(position: i32, center: i32, inner_size: i32) -> (c: i32)
        requires
            inner_size >= 0,
        ensures
            c == moved_center(position as int, center as int, inner_size as int),
    {
        let half: i64 = (inner_size / 2) as i64;
        let offset: i64 = position as i64 - center as i64;
        if offset < -half {
            (position as i64 + half) as i32
        } else if offset > half {
            (position as i64 - half) as i32
        } else {
            center
        }
    }

    /// The chunk that holds `position` along one axis.
    pub fn position_to_chunk_index_1d(position: i32, chunk_length: i32) -> (index: i32)
        requires
            chunk_length > 0,
        ensures
            index == chunk_index(position as int, chunk_length as int),
    {
        proof {
            lemma_floor_division_bounds(position as int, chunk_length as int);
        }
        floor_div(position as i64, chunk_length as i64) as i32
    }

    /// The first and the last chunk that a view of `view_size` around `center`
    /// touches along one axis.
    pub fn get_chunks_with_1d(center: i32, view_size: i32, chunk_length: i32) -> (range: (i64, i64))
        requires
            chunk_length > 0,
            view_size >= 0,
        ensures
            range.0 == chunk_index(center - view_size / 2, chunk_length as int),
            range.1 == chunk_index(center + view_size / 2, chunk_length as int),
    {
        let half: i64 = (view_size / 2) as i64;
        let left: i64 = center as i64 - half;
        let right: i64 = center as i64 + half;
        (floor_div(left, chunk_length as i64), floor_div(right, chunk_length as i64))
    }

    /// Follows the observer to `position`: along each axis the centre stays
    /// while the observer is inside the inner window, and otherwise moves to
    /// half the inner window behind the observer.
    pub fn move_to_position(&mut self, position: [i32; 3])
        requires
            old(self).wf(),
        ensures
            final(self).wf(),
            final(self).center() == moved_center_3d(
                position,
                old(self).center(),
                old(self).inner_size(),
            ),
            final(self).inner_size() == old(self).inner_size(),
            final(self).voxel_size() == old(self).voxel_size(),
            final(self).chunk_size_in_voxels() == old(self).chunk_size_in_voxels(),
            final(self).view_size() == old(self).view_size(),
    {
        assert(self.inner_size()[0] >= 0 && self.inner_size()[1] >= 0 && self.inner_size()[2] >= 0);
        self.center = [
            Self::move_to_position_1d(position[0], self.center[0], self.inner_size[0]),
            Self::move_to_position_1d(position[1], self.center[1], self.inner_size[1]),
            Self::move_to_position_1d(position[2], self.center[2], self.inner_size[2]),
        ];
    }
}

/// How the quotient and remainder of the machine, which round towards zero,
/// give the quotient that rounds down.
pub proof fn lemma_floor_division(x: int, d: int)
    requires
        d > 0,
    ensures
        x < 0 ==> -((-x) / d) - (if (-x) % d == 0 { 0int } else { 1int }) == x / d,
        x < 0 ==> ((-x) % d == 0 <==> x % d == 0),
        x < 0 ==> x % d == (if (-x) % d == 0 { 0int } else { d - (-x) % d }),
{
    if x < 0 {
        let q = (-x) / d;
        let r = (-x) % d;
        vstd::arithmetic::div_mod::lemma_fundamental_div_mod(-x, d);
        vstd::arithmetic::div_mod::lemma_mod_bound(-x, d);
        if r == 0 {
            assert(x == (-q) * d + 0) by (nonlinear_arith)
                requires
                    -x == d * q + r,
                    r == 0,
            ;
            vstd::arithmetic::div_mod::lemma_fundamental_div_mod_converse(x, d, -q, 0);
        } else {
            assert(x == (-q - 1) * d + (d - r)) by (nonlinear_arith)
                requires
                    -x == d * q + r,
            ;
            vstd::arithmetic::div_mod::lemma_fundamental_div_mod_converse(x, d, -q - 1, d - r);
        }
    } else {
        vstd::arithmetic::div_mod::lemma_mod_bound(x, d);
    }
}

/// Division that rounds down.
pub fn floor_div(x: i64, d: i64) -> (q: i64)
    requires
        d > 0,
        x > i64::MIN,
    ensures
        q == x as int / d as int,
{
    proof {
        lemma_floor_division(x as int, d as int);
    }
    if x >= 0 {
        x / d
    } else {
        let n: i64 = -x;
        let q: i64 = n / d;
        if n % d == 0 {
            -q
        } else {
            -q - 1
        }
    }
}

/// Rounding down keeps a quotient by a positive divisor no larger in size
/// than the dividend.
pub proof fn lemma_floor_division_bounds(x: int, d: int)
    requires
        d > 0,
    ensures
        x >= 0 ==> 0 <= x / d <= x,
        x < 0 ==> x <= x / d < 0,
{
    vstd::arithmetic::div_mod::lemma_fundamental_div_mod(x, d);
    vstd::arithmetic::div_mod::lemma_mod_bound(x, d);
    let q = x / d;
    let r = x % d;
    assert(x >= 0 ==> 0 <= q <= x) by (nonlinear_arith)
        requires
            x == d * q + r,
            0 <= r < d,
            d > 0,
    ;
    assert(x < 0 ==> x <= q < 0) by (nonlinear_arith)
        requires
            x == d * q + r,
            0 <= r < d,
            d > 0,
    ;
}

} // verus!
