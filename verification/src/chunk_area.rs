//! Boxes of chunk coordinates around a centre.

use crate::vox3d::lemma_linear_index;
use vstd::prelude::*;

verus! {

/// Whether `first` and `second` are at most `distance` apart.
pub open spec fn within_distance(first: int, second: int, distance: int) -> bool {
    -distance <= first - second <= distance
}

/// Whether two chunks are at most `distance[i]` apart along every axis `i`.
pub open spec fn in_box(center: [i32; 3], radius: [usize; 3], coord: [i32; 3]) -> bool {
    &&& within_distance(center[0] as int, coord[0] as int, radius[0] as int)
    &&& within_distance(center[1] as int, coord[1] as int, radius[1] as int)
    &&& within_distance(center[2] as int, coord[2] as int, radius[2] as int)
}

/// The least coordinate of the box along an axis, as far as chunks can be numbered.
pub open spec fn box_low(center: i32, radius: usize) -> int {
    if center - radius < i32::MIN {
        i32::MIN as int
    } else {
        center - radius
    }
}

/// The greatest coordinate of the box along an axis, as far as chunks can be numbered.
pub open spec fn box_high(center: i32, radius: usize) -> int {
    if center + radius > i32::MAX {
        i32::MAX as int
    } else {
        center + radius
    }
}

/// The number of chunks of the box along an axis.
pub open spec fn box_extent(center: i32, radius: usize) -> int {
    box_high(center, radius) - box_low(center, radius) + 1
}

/// The number of chunks of the box.
pub open spec fn box_len(center: [i32; 3], radius: [usize; 3]) -> int {
    box_extent(center[0], radius[0]) * box_extent(center[1], radius[1]) * box_extent(
        center[2],
        radius[2],
    )
}

/// The `k`-th chunk of the box: x runs fastest, then y, then z.
#[verifier::opaque]
pub open spec fn box_coordinate(center: [i32; 3], radius: [usize; 3], k: int) -> [i32; 3] {
    let n0 = box_extent(center[0], radius[0]);
    let n1 = box_extent(center[1], radius[1]);
    [
        (box_low(center[0], radius[0]) + k % n0) as i32,
        (box_low(center[1], radius[1]) + (k / n0) % n1) as i32,
        (box_low(center[2], radius[2]) + (k / n0) / n1) as i32,
    ]
}

/// The chunks of the box around `center`, in order.
pub open spec fn box_coordinates(center: [i32; 3], radius: [usize; 3]) -> Seq<[i32; 3]> {
    Seq::new(box_len(center, radius) as nat, |k: int| box_coordinate(center, radius, k))
}

/// The place of chunk `coord` in the box.
#[verifier::opaque]
pub open spec fn box_position(center: [i32; 3], radius: [usize; 3], coord: [i32; 3]) -> int {
    ((coord[2] - box_low(center[2], radius[2])) * box_extent(center[1], radius[1]) + (coord[1]
        - box_low(center[1], radius[1]))) * box_extent(center[0], radius[0]) + (coord[0] - box_low(
        center[0],
        radius[0],
    ))
}

/// The box holds the chunks within the radius of the centre, each at its place.
pub proof fn lemma_box_position(center: [i32; 3], radius: [usize; 3], coord: [i32; 3])
    requires
        in_box(center, radius, coord),
    ensures
        0 <= box_position(center, radius, coord) < box_len(center, radius),
        box_coordinates(center, radius)[box_position(center, radius, coord)] == coord,
{
    reveal(box_coordinate);
    reveal(box_position);
    let n0 = box_extent(center[0], radius[0]);
    let n1 = box_extent(center[1], radius[1]);
    let n2 = box_extent(center[2], radius[2]);
    lemma_linear_index(
        n0,
        n1,
        n2,
        coord[0] - box_low(center[0], radius[0]),
        coord[1] - box_low(center[1], radius[1]),
        coord[2] - box_low(center[2], radius[2]),
    );
    let k = box_position(center, radius, coord);
    assert(box_coordinate(center, radius, k) =~= coord);
}

/// Every chunk of the box lies within the radius of the centre.
pub proof fn lemma_box_coordinate(center: [i32; 3], radius: [usize; 3], k: int)
    requires
        0 <= k < box_len(center, radius),
    ensures
        in_box(center, radius, box_coordinate(center, radius, k)),
        box_position(center, radius, box_coordinate(center, radius, k)) == k,
{
    reveal(box_coordinate);
    reveal(box_position);
    let n0 = box_extent(center[0], radius[0]);
    let n1 = box_extent(center[1], radius[1]);
    let n2 = box_extent(center[2], radius[2]);
    assert(n0 * n1 * n2 == n0 * (n1 * n2)) by (nonlinear_arith);
    crate::greedy_meshing::lemma_mask_cell(n0, n1 * n2, k);
    crate::greedy_meshing::lemma_mask_cell(n1, n2, k / n0);
}

/// Whether `first` and `second` are at most `distance` apart.
pub fn within_distance_1d(first: i32, second: i32, distance: usize) -> (r: bool)
    ensures
        r == within_distance(first as int, second as int, distance as int),
{
    let diff: i64 = first as i64 - second as i64;
    let size: u64 = if diff < 0 {
        (-diff) as u64
    } else {
        diff as u64
    };
    size <= distance as u64
}

/// Whether two chunks of a plane are at most `distance` apart along both axes.
pub fn within_distance_2d(first: [i32; 2], second: [i32; 2], distance: usize) -> (r: bool)
    ensures
        r == (within_distance(first[0] as int, second[0] as int, distance as int)
            && within_distance(first[1] as int, second[1] as int, distance as int)),
{
    within_distance_1d(first[0], second[0], distance) && within_distance_1d(
        first[1],
        second[1],
        distance,
    )
}

/// Whether two chunks of a plane are more than `distance` apart along an axis.
pub fn outside_distance_2d(first: [i32; 2], second: [i32; 2], distance: usize) -> (r: bool)
    ensures
        r == !(within_distance(first[0] as int, second[0] as int, distance as int)
            && within_distance(first[1] as int, second[1] as int, distance as int)),
{
    !within_distance_2d(first, second, distance)
}

/// Whether two chunks are at most `distance[i]` apart along every axis `i`.
pub fn within_distance_3d(first: [i32; 3], second: [i32; 3], distance: [usize; 3]) -> (r: bool)
    ensures
        r == in_box(first, distance, second),
{
    within_distance_1d(first[0], second[0], distance[0]) && within_distance_1d(
        first[1],
        second[1],
        distance[1],
    ) && within_distance_1d(first[2], second[2], distance[2])
}

/// Whether two chunks are more than `distance[i]` apart along some axis `i`.
pub fn outside_distance_3d(first: [i32; 3], second: [i32; 3], distance: [usize; 3]) -> (r: bool)
    ensures
        r == !in_box(first, distance, second),
{
    !within_distance_3d(first, second, distance)
}

/// The least coordinate of the box along an axis.
fn low_bound(center: i32, radius: usize) -> (r: i64)
    ensures
        r == box_low(center, radius),
        i32::MIN <= r <= center,
{
    if radius > 0xffff_ffff {
        i32::MIN as i64
    } else {
        let low: i64 = center as i64 - radius as i64;
        if low < i32::MIN as i64 {
            i32::MIN as i64
        } else {
            low
        }
    }
}

/// The greatest coordinate of the box along an axis.
fn high_bound(center: i32, radius: usize) -> (r: i64)
    ensures
        r == box_high(center, radius),
        center <= r <= i32::MAX,
{
    if radius > 0xffff_ffff {
        i32::MAX as i64
    } else {
        let high: i64 = center as i64 + radius as i64;
        if high > i32::MAX as i64 {
            i32::MAX as i64
        } else {
            high
        }
    }
}

/// The chunks within `radius` of `center` along every axis: x runs fastest,
/// then y, then z.
pub fn chunk_box(center: [i32; 3], radius: [usize; 3]) -> (coords: Vec<[i32; 3]>)
    ensures
        coords@ == box_coordinates(center, radius),
        forall|c: [i32; 3]|
            in_box(center, radius, c) ==> 0 <= #[trigger] box_position(center, radius, c)
                < coords@.len() && coords@[box_position(center, radius, c)] == c,
        forall|k: int| 0 <= k < coords@.len() ==> in_box(center, radius, #[trigger] coords@[k]),
{
    let x_low = low_bound(center[0], radius[0]);
    let x_high = high_bound(center[0], radius[0]);
    let y_low = low_bound(center[1], radius[1]);
    let y_high = high_bound(center[1], radius[1]);
    let z_low = low_bound(center[2], radius[2]);
    let z_high = high_bound(center[2], radius[2]);
    let ghost n0 = x_high - x_low + 1;
    let ghost n1 = y_high - y_low + 1;
    let ghost n2 = z_high - z_low + 1;
    let mut coords: Vec<[i32; 3]> = Vec::new();
    let mut z: i64 = z_low;
    proof {
        assert((z - z_low) * n1 * n0 == 0) by (nonlinear_arith)
            requires
                z - z_low == 0,
        ;
    }
    while z <= z_high
        invariant
            x_low == box_low(center[0], radius[0]),
            x_high == box_high(center[0], radius[0]),
            y_low == box_low(center[1], radius[1]),
            y_high == box_high(center[1], radius[1]),
            z_low == box_low(center[2], radius[2]),
            z_high == box_high(center[2], radius[2]),
            n0 == x_high - x_low + 1,
            n1 == y_high - y_low + 1,
            n2 == z_high - z_low + 1,
            n0 >= 1 && n1 >= 1 && n2 >= 1,
            z_low <= z <= z_high + 1,
            coords@.len() == (z - z_low) * n1 * n0,
            forall|k: int|
                0 <= k < coords@.len() ==> (#[trigger] coords@[k]) == box_coordinate(
                    center,
                    radius,
                    k,
                ),
        decreases z_high + 1 - z,
    {
        let mut y: i64 = y_low;
        proof {
            assert(((z - z_low) * n1 + 0) * n0 == (z - z_low) * n1 * n0) by (nonlinear_arith);
        }
        while y <= y_high
            invariant
                x_low == box_low(center[0], radius[0]),
                x_high == box_high(center[0], radius[0]),
                y_low == box_low(center[1], radius[1]),
                y_high == box_high(center[1], radius[1]),
                z_low == box_low(center[2], radius[2]),
                z_high == box_high(center[2], radius[2]),
                n0 == x_high - x_low + 1,
                n1 == y_high - y_low + 1,
                n2 == z_high - z_low + 1,
                n0 >= 1 && n1 >= 1 && n2 >= 1,
                z_low <= z <= z_high,
                y_low <= y <= y_high + 1,
                coords@.len() == ((z - z_low) * n1 + (y - y_low)) * n0,
                forall|k: int|
                    0 <= k < coords@.len() ==> (#[trigger] coords@[k]) == box_coordinate(
                        center,
                        radius,
                        k,
                    ),
            decreases y_high + 1 - y,
        {
            let mut x: i64 = x_low;
            while x <= x_high
                invariant
                    x_low == box_low(center[0], radius[0]),
                    x_high == box_high(center[0], radius[0]),
                    y_low == box_low(center[1], radius[1]),
                    y_high == box_high(center[1], radius[1]),
                    z_low == box_low(center[2], radius[2]),
                    z_high == box_high(center[2], radius[2]),
                    n0 == x_high - x_low + 1,
                    n1 == y_high - y_low + 1,
                    n2 == z_high - z_low + 1,
                    n0 >= 1 && n1 >= 1 && n2 >= 1,
                    z_low <= z <= z_high,
                    y_low <= y <= y_high,
                    x_low <= x <= x_high + 1,
                    coords@.len() == ((z - z_low) * n1 + (y - y_low)) * n0 + (x - x_low),
                    forall|k: int|
                        0 <= k < coords@.len() ==> (#[trigger] coords@[k]) == box_coordinate(
                            center,
                            radius,
                            k,
                        ),
                decreases x_high + 1 - x,
            {
                let coord = [x as i32, y as i32, z as i32];
                proof {
                    reveal(box_coordinate);
                    lemma_linear_index(n0, n1, n2, x - x_low, y - y_low, z - z_low);
                    assert(box_coordinate(center, radius, coords@.len() as int) =~= coord);
                }
                coords.push(coord);
                x += 1;
            }
            proof {
                assert(((z - z_low) * n1 + (y + 1 - y_low)) * n0 == ((z - z_low) * n1 + (y
                    - y_low)) * n0 + n0) by (nonlinear_arith);
            }
            y += 1;
        }
        proof {
            assert((z + 1 - z_low) * n1 * n0 == ((z - z_low) * n1 + n1) * n0) by (nonlinear_arith);
        }
        z += 1;
    }
    proof {
        assert((z - z_low) * n1 * n0 == n0 * n1 * n2) by (nonlinear_arith)
            requires
                z - z_low == n2,
        ;
        assert(coords@ =~= box_coordinates(center, radius));
        assert forall|c: [i32; 3]| in_box(center, radius, c) implies 0 <= #[trigger] box_position(
            center,
            radius,
            c,
        ) < coords@.len() && coords@[box_position(center, radius, c)] == c by {
            lemma_box_position(center, radius, c);
        }
        assert forall|k: int| 0 <= k < coords@.len() implies in_box(
            center,
            radius,
            #[trigger] coords@[k],
        ) by {
            lemma_box_coordinate(center, radius, k);
        }
    }
    coords
}

/// The chunks of a plane within a radius of a centre, handed out one by one:
/// x runs fastest, then y.
pub struct ChunkArea {
    center: [i32; 2],
    next: [i32; 2],
    radius: i32,
}

impl ChunkArea {
    /// The centre of the area.
    pub closed spec fn center(&self) -> [i32; 2] {
        self.center
    }

    /// The chunk that is handed out next, if the area is not used up.
    pub closed spec fn cursor(&self) -> [i32; 2] {
        self.next
    }

    /// How many chunks beyond the centre the area reaches along both axes.
    pub closed spec fn radius(&self) -> i32 {
        self.radius
    }

    /// The invariant of the area: its bounds can be counted and the cursor
    /// lies in the area or just behind its last row. An area of negative
    /// radius has no chunk, and its cursor stays where it started.
    pub open spec fn wf(&self) -> bool {
        &&& i32::MIN <= self.center()[0] - self.radius() <= i32::MAX
        &&& i32::MIN <= self.center()[0] + self.radius() <= i32::MAX
        &&& i32::MIN <= self.center()[1] - self.radius() <= i32::MAX
        &&& i32::MIN <= self.center()[1] + self.radius() < i32::MAX
        &&& self.radius() >= 0 ==> self.center()[0] - self.radius() <= self.cursor()[0]
            <= self.center()[0] + self.radius()
        &&& self.radius() >= 0 ==> self.center()[1] - self.radius() <= self.cursor()[1]
            <= self.center()[1] + self.radius() + 1
        &&& self.radius() < 0 ==> self.cursor()[1] == self.center()[1] - self.radius()
    }

    /// Whether every chunk of the area was handed out.
    pub open spec fn used_up(&self) -> bool {
        self.cursor()[1] > self.center()[1] + self.radius()
    }

    /// The chunk that follows the cursor: the next of its row, or the first
    /// of the next row.
    pub open spec fn successor(&self) -> [i32; 2] {
        if self.cursor()[0] < self.center()[0] + self.radius() {
            [(self.cursor()[0] + 1) as i32, self.cursor()[1]]
        } else {
            [(self.center()[0] - self.radius()) as i32, (self.cursor()[1] + 1) as i32]
        }
    }

    /// The area around `center`, with the cursor on its first chunk.
    pub fn new(center: [i32; 2], radius: i32) -> (area: Self)
        requires
            i32::MIN <= center[0] - radius <= i32::MAX,
            i32::MIN <= center[0] + radius <= i32::MAX,
            i32::MIN <= center[1] - radius <= i32::MAX,
            i32::MIN <= center[1] + radius < i32::MAX,
        ensures
            area.wf(),
            area.center() == center,
            area.radius() == radius,
            area.cursor() == [(center[0] - radius) as i32, (center[1] - radius) as i32],
    {
        let next = [center[0] - radius, center[1] - radius];
        Self { center, next, radius }
    }

    /// Hands out the chunk under the cursor and moves the cursor on; nothing
    /// once the area is used up.
    pub fn next(&mut self) -> (item: Option<[i32; 2]>)
        requires
            old(self).wf(),
        ensures
            final(self).wf(),
            final(self).center() == old(self).center(),
            final(self).radius() == old(self).radius(),
            item is None <==> old(self).used_up(),
            item is Some ==> item == Some(old(self).cursor()) && final(self).cursor() == old(
                self,
            ).successor() && within_distance(
                old(self).center()[0] as int,
                item.unwrap()[0] as int,
                old(self).radius() as int,
            ) && within_distance(
                old(self).center()[1] as int,
                item.unwrap()[1] as int,
                old(self).radius() as int,
            ),
            item is None ==> final(self).cursor() == old(self).cursor(),
    {
        let current = self.next;
        if current[1] > self.center[1] + self.radius {
            return None;
        }
        self.next = if current[0] < self.center[0] + self.radius {
            [current[0] + 1, current[1]]
        } else {
            [self.center[0] - self.radius, current[1] + 1]
        };
        Some(current)
    }
}

} // verus!
