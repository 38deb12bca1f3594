//! Fixed-capacity grids addressed by wraparound: an unbounded signed
//! coordinate is folded into bounded storage, one axis at a time.

use vstd::prelude::*;

verus! {

/// The largest multiple of `n` that is at most half of the 128-bit signed range.
/// Adding any 32-bit coordinate to it stays positive and cannot overflow.
pub open spec fn large_multiple(n: int) -> int
    recommends
        n > 0,
{
    (i128::MAX as int / (n * 2)) * n
}

/// The storage index, along one axis of capacity `n`, of coordinate `c`.
pub open spec fn physical_index(c: int, n: int) -> int
    recommends
        n > 0,
{
    (large_multiple(n) + c) % n
}

/// Wraparound addressing is the mathematical remainder: it lies in `[0, n)`
/// and does not depend on the bias.
pub proof fn lemma_physical_index_is_remainder(c: int, n: int)
    requires
        n > 0,
    ensures
        physical_index(c, n) == c % n,
        0 <= physical_index(c, n) < n,
{
    let q = i128::MAX as int / (n * 2);
    vstd::arithmetic::div_mod::lemma_mod_multiples_vanish(q, c, n);
    assert(q * n + c == n * q + c) by (nonlinear_arith);
    vstd::arithmetic::div_mod::lemma_mod_bound(c, n);
}

/// Coordinates that differ by a whole number of capacities share a cell:
/// `physical_index(c) == physical_index(c + k * n)` for every integer `k`.
pub proof fn lemma_physical_index_periodic(c: int, n: int, k: int)
    requires
        n > 0,
    ensures
        physical_index(c, n) == physical_index(c + k * n, n),
        0 <= physical_index(c, n) < n,
{
    lemma_physical_index_is_remainder(c, n);
    lemma_physical_index_is_remainder(c + k * n, n);
    vstd::arithmetic::div_mod::lemma_mod_multiples_vanish(k, c, n);
    assert(n * k + c == c + k * n) by (nonlinear_arith);
}

/// Row-major positions stay inside a `sx` by `sz` storage.
proof fn lemma_row_major_in_range(x: int, z: int, sx: int, sz: int)
    requires
        0 <= x < sx,
        0 <= z < sz,
    ensures
        0 <= z * sx <= z * sx + x < sx * sz,
{
    assert(0 <= z * sx <= z * sx + x < sx * sz) by (nonlinear_arith)
        requires
            0 <= x < sx,
            0 <= z < sz,
    ;
}

/// Layer-major positions stay inside a `sx` by `sy` by `sz` storage.
proof fn lemma_layer_major_in_range(x: int, y: int, z: int, sx: int, sy: int, sz: int)
    requires
        0 <= x < sx,
        0 <= y < sy,
        0 <= z < sz,
    ensures
        0 <= z * sy <= z * sy + y < sy * sz,
        0 <= (z * sy + y) * sx <= (z * sy + y) * sx + x < sx * sy * sz,
        sy * sz <= sx * sy * sz,
{
    lemma_row_major_in_range(y, z, sy, sz);
    lemma_row_major_in_range(x, z * sy + y, sx, sy * sz);
    assert(sx * (sy * sz) == sx * sy * sz) by (nonlinear_arith);
    assert(sy * sz <= sx * (sy * sz)) by (nonlinear_arith)
        requires
            sx >= 1,
            sy * sz >= 0,
    ;
}

/// Computes the bias of an axis of capacity `n`.
fn axis_bias(n: usize) -> (r: i128)
    requires
        n > 0,
    ensures
        r == large_multiple(n as int),
        0 <= r,
        r + i32::MAX <= i128::MAX,
        r + i32::MIN >= 0,
{
    let m: i128 = n as i128;
    let q: i128 = i128::MAX / (m * 2);
    proof {
        let h = i128::MAX as int;
        let mi = m as int;
        assert(0 <= h / (mi * 2) && (h / (mi * 2)) * mi <= h / 2 + 1 && (h / (mi * 2)) * mi >= h / 2
            - mi) by (nonlinear_arith)
            requires
                mi > 0,
                h > 0,
        ;
    }
    q * m
}

/// Folds coordinate `pos` into an axis of capacity `n` whose bias is `bias`.
fn axis_index(pos: i32, n: usize, bias: i128) -> (r: usize)
    requires
        n > 0,
        bias == large_multiple(n as int),
        0 <= bias + i32::MIN,
        bias + i32::MAX <= i128::MAX,
    ensures
        r == physical_index(pos as int, n as int),
        r < n,
{
    let s: i128 = (bias + pos as i128) % (n as i128);
    proof {
        lemma_physical_index_is_remainder(pos as int, n as int);
    }
    s as usize
}

/// A two-dimensional grid of fixed capacity, addressed by wraparound.
pub struct Vec2dSliding<T> {
    data: Vec<T>,
    size: [usize; 2],
    max: [i128; 2],
}

impl<T: Default + Clone> Vec2dSliding<T> {
    /// The capacity along each axis.
    pub closed spec fn size(&self) -> Seq<usize> {
        self.size@
    }

    /// The stored values, row by row.
    pub closed spec fn cells(&self) -> Seq<T> {
        self.data@
    }

    /// The invariant of the grid: positive capacities and one cell per position.
    pub closed spec fn wf(&self) -> bool {
        &&& self.size[0] > 0
        &&& self.size[1] > 0
        &&& self.size[0] * self.size[1] <= usize::MAX
        &&& self.data@.len() == self.size[0] * self.size[1]
        &&& self.max[0] == large_multiple(self.size[0] as int)
        &&& self.max[1] == large_multiple(self.size[1] as int)
        &&& 0 <= self.max[0] + i32::MIN && self.max[0] + i32::MAX <= i128::MAX
        &&& 0 <= self.max[1] + i32::MIN && self.max[1] + i32::MAX <= i128::MAX
    }

    /// The position in `cells()` that coordinate `pos` is folded to.
    pub open spec fn cell_index(&self, pos: [i32; 2]) -> int {
        physical_index(pos[1] as int, self.size()[1] as int) * self.size()[0] + physical_index(
            pos[0] as int,
            self.size()[0] as int,
        )
    }

    /// Every coordinate is folded to a position inside the storage.
    pub proof fn lemma_cell_index_in_range(&self, pos: [i32; 2])
        requires
            self.wf(),
        ensures
            0 <= self.cell_index(pos) < self.cells().len(),
            self.size().len() == 2,
            self.size()[0] > 0,
            self.size()[1] > 0,
            self.cells().len() == self.size()[0] * self.size()[1],
    {
        let sx = self.size[0] as int;
        let sz = self.size[1] as int;
        lemma_physical_index_is_remainder(pos[0] as int, sx);
        lemma_physical_index_is_remainder(pos[1] as int, sz);
        lemma_row_major_in_range(
            physical_index(pos[0] as int, sx),
            physical_index(pos[1] as int, sz),
            sx,
            sz,
        );
    }

    /// A grid of the given capacities in which every cell holds a default value.
    pub fn new(size: [usize; 2]) -> (grid: Self)
        requires
            size[0] > 0,
            size[1] > 0,
            size[0] * size[1] <= usize::MAX,
        ensures
            grid.wf(),
            grid.size() == size@,
            grid.cells().len() == size[0] * size[1],
            exists|d: T|
                call_ensures(T::default, (), d) && forall|i: int|
                    0 <= i < grid.cells().len() ==> cloned(d, #[trigger] grid.cells()[i]),
    {
        let d = T::default();
        let ghost d0 = d;
        let data = vec![d; size[0] * size[1]];
        let grid = Self { data, size, max: [axis_bias(size[0]), axis_bias(size[1])] };
        assert(call_ensures(T::default, (), d0) && forall|i: int|
            0 <= i < grid.cells().len() ==> cloned(d0, #[trigger] grid.cells()[i]));
        grid
    }

    /// The storage index of coordinate `pos` along axis `index`.
    pub fn slide_position(&self, pos: i32, index: usize) -> (r: usize)
        requires
            self.wf(),
            index < 2,
        ensures
            r == physical_index(pos as int, self.size()[index as int] as int),
            r < self.size()[index as int],
    {
        axis_index(pos, self.size[index], self.max[index])
    }

    /// Stores `value` in the cell that `pos` is folded to; every other cell stays.
    pub fn set(&mut self, pos: [i32; 2], value: T)
        requires
            old(self).wf(),
        ensures
            final(self).wf(),
            final(self).size() == old(self).size(),
            final(self).cells() == old(self).cells().update(old(self).cell_index(pos), value),
    {
        let x = self.slide_position(pos[0], 0);
        let z = self.slide_position(pos[1], 1);
        proof {
            lemma_row_major_in_range(x as int, z as int, self.size[0] as int, self.size[1] as int);
        }
        self.data.set(z * self.size[0] + x, value);
    }

    /// A clone of the value in the cell that `pos` is folded to.
    pub fn get(&self, pos: [i32; 2]) -> (value: T)
        requires
            self.wf(),
        ensures
            cloned(self.cells()[self.cell_index(pos)], value),
    {
        let x = self.slide_position(pos[0], 0);
        let z = self.slide_position(pos[1], 1);
        proof {
            lemma_row_major_in_range(x as int, z as int, self.size[0] as int, self.size[1] as int);
        }
        self.data[z * self.size[0] + x].clone()
    }
}

/// A three-dimensional grid of fixed capacity, addressed by wraparound.
pub struct Vec3dSliding<T> {
    data: Vec<T>,
    size: [usize; 3],
    max: [i128; 3],
}

impl<T: Default + Clone> Vec3dSliding<T> {
    /// The capacity along each axis.
    pub closed spec fn size(&self) -> Seq<usize> {
        self.size@
    }

    /// The stored values, layer by layer and row by row.
    pub closed spec fn cells(&self) -> Seq<T> {
        self.data@
    }

    /// The invariant of the grid: positive capacities and one cell per position.
    pub closed spec fn wf(&self) -> bool {
        &&& self.size[0] > 0
        &&& self.size[1] > 0
        &&& self.size[2] > 0
        &&& self.size[0] * self.size[1] * self.size[2] <= usize::MAX
        &&& self.data@.len() == self.size[0] * self.size[1] * self.size[2]
        &&& forall|i: int|
            0 <= i < 3 ==> {
                &&& #[trigger] self.max[i] == large_multiple(self.size[i] as int)
                &&& 0 <= self.max[i] + i32::MIN
                &&& self.max[i] + i32::MAX <= i128::MAX
            }
    }

    /// The position in `cells()` that coordinate `pos` is folded to.
    pub open spec fn cell_index(&self, pos: [i32; 3]) -> int {
        (physical_index(pos[2] as int, self.size()[2] as int) * self.size()[1] + physical_index(
            pos[1] as int,
            self.size()[1] as int,
        )) * self.size()[0] + physical_index(pos[0] as int, self.size()[0] as int)
    }

    /// Every coordinate is folded to a position inside the storage.
    pub proof fn lemma_cell_index_in_range(&self, pos: [i32; 3])
        requires
            self.wf(),
        ensures
            0 <= self.cell_index(pos) < self.cells().len(),
            self.size().len() == 3,
            self.size()[0] > 0,
            self.size()[1] > 0,
            self.size()[2] > 0,
            self.cells().len() == self.size()[0] * self.size()[1] * self.size()[2],
    {
        let sx = self.size[0] as int;
        let sy = self.size[1] as int;
        let sz = self.size[2] as int;
        lemma_physical_index_is_remainder(pos[0] as int, sx);
        lemma_physical_index_is_remainder(pos[1] as int, sy);
        lemma_physical_index_is_remainder(pos[2] as int, sz);
        lemma_layer_major_in_range(
            physical_index(pos[0] as int, sx),
            physical_index(pos[1] as int, sy),
            physical_index(pos[2] as int, sz),
            sx,
            sy,
            sz,
        );
    }

    /// A grid of the given capacities in which every cell holds a default value.
    pub fn new(size: [usize; 3]) -> (grid: Self)
        requires
            size[0] > 0,
            size[1] > 0,
            size[2] > 0,
            size[0] * size[1] * size[2] <= usize::MAX,
        ensures
            grid.wf(),
            grid.size() == size@,
            grid.cells().len() == size[0] * size[1] * size[2],
            exists|d: T|
                call_ensures(T::default, (), d) && forall|i: int|
                    0 <= i < grid.cells().len() ==> cloned(d, #[trigger] grid.cells()[i]),
    {
        let d = T::default();
        let ghost d0 = d;
        proof {
            assert(size[0] * size[1] <= size[0] * size[1] * size[2]) by (nonlinear_arith)
                requires
                    size[2] > 0,
            ;
        }
        let data = vec![d; size[0] * size[1] * size[2]];
        let grid = Self {
            data,
            size,
            max: [axis_bias(size[0]), axis_bias(size[1]), axis_bias(size[2])],
        };
        assert(call_ensures(T::default, (), d0) && forall|i: int|
            0 <= i < grid.cells().len() ==> cloned(d0, #[trigger] grid.cells()[i]));
        grid
    }

    /// The storage index of coordinate `pos` along axis `index`.
    pub fn slide_position(&self, pos: i32, index: usize) -> (r: usize)
        requires
            self.wf(),
            index < 3,
        ensures
            r == physical_index(pos as int, self.size()[index as int] as int),
            r < self.size()[index as int],
    {
        axis_index(pos, self.size[index], self.max[index])
    }

    /// Stores `value` in the cell that `pos` is folded to; every other cell stays.
    pub fn set(&mut self, pos: [i32; 3], value: T)
        requires
            old(self).wf(),
        ensures
            final(self).wf(),
            final(self).size() == old(self).size(),
            final(self).cells() == old(self).cells().update(old(self).cell_index(pos), value),
    {
        let x = self.slide_position(pos[0], 0);
        let y = self.slide_position(pos[1], 1);
        let z = self.slide_position(pos[2], 2);
        proof {
            lemma_layer_major_in_range(
                x as int,
                y as int,
                z as int,
                self.size[0] as int,
                self.size[1] as int,
                self.size[2] as int,
            );
        }
        self.data.set((z * self.size[1] + y) * self.size[0] + x, value);
    }

    /// A clone of the value in the cell that `pos` is folded to.
    pub fn get(&self, pos: [i32; 3]) -> (value: T)
        requires
            self.wf(),
        ensures
            cloned(self.cells()[self.cell_index(pos)], value),
    {
        let x = self.slide_position(pos[0], 0);
        let y = self.slide_position(pos[1], 1);
        let z = self.slide_position(pos[2], 2);
        proof {
            lemma_layer_major_in_range(
                x as int,
                y as int,
                z as int,
                self.size[0] as int,
                self.size[1] as int,
                self.size[2] as int,
            );
        }
        self.data[(z * self.size[1] + y) * self.size[0] + x].clone()
    }
}

} // verus!
