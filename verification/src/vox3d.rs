//! A dense volume of palette-indexed voxels.

use crate::registry::{Handle, Registry};
use crate::vox::{in_bounds, Vox, VoxError};
use std::collections::HashMap;
use vstd::prelude::*;

verus! {

broadcast use vstd::std_specs::hash::group_hash_axioms;

/// A dense `x_size` by `y_size` by `z_size` grid of optional palette ids, with
/// the colour of every id in use.
pub struct Vox3d {
    data: Vec<Option<u8>>,
    palette: HashMap<u8, [u8; 3]>,
    x_size: usize,
    y_size: usize,
    z_size: usize,
    touched: bool,
}

/// The position of cell `(x, y, z)` in the linear storage of a volume whose
/// rows are `sx` long and whose layers hold `sy` rows.
pub open spec fn linear_index(sx: int, sy: int, x: int, y: int, z: int) -> int {
    (z * sy + y) * sx + x
}

/// Linear positions of cells inside the bounds are inside the storage, and
/// distinct cells have distinct positions.
pub proof fn lemma_linear_index(sx: int, sy: int, sz: int, x: int, y: int, z: int)
    requires
        0 <= x < sx,
        0 <= y < sy,
        0 <= z < sz,
    ensures
        0 <= linear_index(sx, sy, x, y, z) < sx * sy * sz,
        0 <= z * sy + y < sy * sz,
        0 <= z * sy <= sy * sz,
        0 <= (z * sy + y) * sx <= sx * sy * sz,
        sy * sz <= sx * sy * sz,
        linear_index(sx, sy, x, y, z) % sx == x,
        (linear_index(sx, sy, x, y, z) / sx) % sy == y,
        (linear_index(sx, sy, x, y, z) / sx) / sy == z,
{
    assert(0 <= z * sy <= z * sy + y < sy * sz) by (nonlinear_arith)
        requires
            0 <= y < sy,
            0 <= z < sz,
    ;
    let r = z * sy + y;
    assert(0 <= r * sx <= r * sx + x < sx * (sy * sz)) by (nonlinear_arith)
        requires
            0 <= x < sx,
            0 <= r < sy * sz,
    ;
    assert(sx * (sy * sz) == sx * sy * sz) by (nonlinear_arith);
    assert(sy * sz <= sx * (sy * sz)) by (nonlinear_arith)
        requires
            sx >= 1,
            sy * sz >= 0,
    ;
    vstd::arithmetic::div_mod::lemma_fundamental_div_mod_converse(r * sx + x, sx, r, x);
    vstd::arithmetic::div_mod::lemma_fundamental_div_mod_converse(r, sy, z, y);
}

impl Vox3d {
    /// The cells in storage order.
    pub closed spec fn cells(&self) -> Seq<Option<u8>> {
        self.data@
    }

    /// The colours recorded so far, by palette id.
    pub closed spec fn palette(&self) -> Map<u8, [u8; 3]> {
        self.palette@
    }

    /// The extents along x, y and z.
    pub closed spec fn dims(&self) -> [usize; 3] {
        [self.x_size, self.y_size, self.z_size]
    }

    /// Whether any voxel was ever set.
    pub closed spec fn touched(&self) -> bool {
        self.touched
    }

    /// The invariant of the volume: positive extents, one cell per position, a
    /// colour for every id in use, and `touched` exactly when a cell is filled.
    pub open spec fn well_formed(&self) -> bool {
        &&& self.dims()[0] > 0
        &&& self.dims()[1] > 0
        &&& self.dims()[2] > 0
        &&& self.dims()[0] * self.dims()[1] * self.dims()[2] <= usize::MAX
        &&& self.cells().len() == self.dims()[0] * self.dims()[1] * self.dims()[2]
        &&& forall|i: int|
            0 <= i < self.cells().len() && (#[trigger] self.cells()[i]) is Some
                ==> self.palette().contains_key(self.cells()[i].unwrap())
        &&& self.touched() <==> exists|i: int|
            0 <= i < self.cells().len() && (#[trigger] self.cells()[i]) is Some
    }

    /// The palette id at `(x, y, z)`, and nothing outside the bounds.
    pub open spec fn cell(&self, x: int, y: int, z: int) -> Option<u8> {
        if in_bounds(self.dims(), x, y, z) {
            self.cells()[linear_index(self.dims()[0] as int, self.dims()[1] as int, x, y, z)]
        } else {
            None
        }
    }

    /// A volume of the given extents in which every cell is empty.
    pub fn new(x_size: usize, y_size: usize, z_size: usize) -> (vol: Self)
        requires
            x_size > 0,
            y_size > 0,
            z_size > 0,
            x_size * y_size * z_size <= usize::MAX,
        ensures
            vol.well_formed(),
            vol.dims() == [x_size, y_size, z_size],
            vol.cells() == Seq::new((x_size * y_size * z_size) as nat, |i: int| None::<u8>),
            vol.palette() == Map::<u8, [u8; 3]>::empty(),
            !vol.touched(),
    {
        proof {
            lemma_linear_index(x_size as int, y_size as int, z_size as int, 0, 0, 0);
            assert(z_size * y_size == y_size * z_size) by (nonlinear_arith);
            assert(z_size * y_size * x_size == x_size * y_size * z_size) by (nonlinear_arith);
        }
        let vol = Self {
            data: vec![None; z_size * y_size * x_size],
            palette: HashMap::new(),
            x_size,
            y_size,
            z_size,
            touched: false,
        };
        assert(vol.cells() =~= Seq::new((x_size * y_size * z_size) as nat, |i: int| None::<u8>));
        vol
    }

    /// Whether any voxel was ever set.
    pub fn is_touched(&self) -> (r: bool)
        ensures
            r == self.touched(),
    {
        self.touched
    }

    /// Fills cell `(x, y, z)` with `color_id` and records `color` for that id,
    /// replacing an earlier colour of the same id. A position outside the
    /// bounds is refused and leaves the volume as it was.
    pub fn set(&mut self, x: usize, y: usize, z: usize, color_id: u8, color: [u8; 3]) -> (r: Result<
        (),
        VoxError,
    >)
        requires
            old(self).well_formed(),
        ensures
            final(self).well_formed(),
            final(self).dims() == old(self).dims(),
            r is Ok <==> in_bounds(old(self).dims(), x as int, y as int, z as int),
            r is Err ==> r == Err::<(), VoxError>(VoxError::IndexOutOfRange) && *final(self) == *old(self),
            r is Ok ==> {
                &&& final(self).cells() == old(self).cells().update(
                    linear_index(
                        old(self).dims()[0] as int,
                        old(self).dims()[1] as int,
                        x as int,
                        y as int,
                        z as int,
                    ),
                    Some(color_id),
                )
                &&& final(self).palette() == old(self).palette().insert(color_id, color)
                &&& final(self).touched()
                &&& forall|a: int, b: int, c: int|
                    (#[trigger] final(self).cell(a, b, c)) == (if a == x && b == y && c == z {
                        Some(color_id)
                    } else {
                        old(self).cell(a, b, c)
                    })
            },
    {
        if x >= self.x_size || y >= self.y_size || z >= self.z_size {
            return Err(VoxError::IndexOutOfRange);
        }
        proof {
            lemma_linear_index(
                self.x_size as int,
                self.y_size as int,
                self.z_size as int,
                x as int,
                y as int,
                z as int,
            );
        }
        let index = (z * self.y_size + y) * self.x_size + x;
        self.touched = true;
        self.data.set(index, Some(color_id));
        self.palette.insert(color_id, color);
        proof {
            assert(final(self).cells()[index as int] is Some);
            assert forall|i: int|
                0 <= i < self.cells().len() && (#[trigger] self.cells()[i]) is Some implies
                self.palette().contains_key(self.cells()[i].unwrap()) by {
                if i != index {
                    assert(self.cells()[i] == old(self).cells()[i]);
                }
            }
            assert forall|a: int, b: int, c: int|
                (#[trigger] self.cell(a, b, c)) == (if a == x && b == y && c == z {
                    Some(color_id)
                } else {
                    old(self).cell(a, b, c)
                }) by {
                if in_bounds(self.dims(), a, b, c) {
                    lemma_linear_index(
                        self.x_size as int,
                        self.y_size as int,
                        self.z_size as int,
                        a,
                        b,
                        c,
                    );
                }
            }
        }
        Ok(())
    }

    /// The offset of the bottom of the volume, in voxels.
    pub fn get_y_min_offset(&self) -> (r: i128)
        ensures
            r == 0,
    {
        0
    }

    /// The offset of the top of the volume, in voxels.
    pub fn get_y_max_offset(&self) -> (r: i128)
        ensures
            r == self.dims()[1],
    {
        self.y_size as i128
    }
}

impl Vox for Vox3d {
    open spec fn wf(&self) -> bool {
        self.well_formed()
    }

    open spec fn size(&self) -> [usize; 3] {
        self.dims()
    }

    open spec fn voxel(&self, x: int, y: int, z: int) -> Option<u8> {
        self.cell(x, y, z)
    }

    open spec fn color(&self, id: u8) -> Option<[u8; 3]> {
        if self.palette().contains_key(id) {
            Some(self.palette()[id])
        } else {
            None
        }
    }

    proof fn lemma_wf(&self) {
        assert forall|x: int, y: int, z: int| (#[trigger] self.voxel(x, y, z)) is Some implies self.color(
            self.voxel(x, y, z).unwrap(),
        ) is Some by {
            lemma_linear_index(
                self.dims()[0] as int,
                self.dims()[1] as int,
                self.dims()[2] as int,
                x,
                y,
                z,
            );
        }
    }

    fn get_size(&self) -> (r: [usize; 3]) {
        [self.x_size, self.y_size, self.z_size]
    }

    fn get(&self, x: usize, y: usize, z: usize) -> (r: Option<u8>) {
        if x >= self.x_size || y >= self.y_size || z >= self.z_size {
            return None;
        }
        proof {
            lemma_linear_index(
                self.x_size as int,
                self.y_size as int,
                self.z_size as int,
                x as int,
                y as int,
                z as int,
            );
        }
        self.data[(z * self.y_size + y) * self.x_size + x]
    }

    fn get_color(&self, color_id: u8) -> (r: Result<[u8; 3], VoxError>) {
        match self.palette.get(&color_id) {
            Some(c) => Ok(*c),
            None => Err(VoxError::Lookup),
        }
    }
}

/// The extents of a voxel model as its file gives them: there z is the height.
#[derive(Clone, Copy, Debug, PartialEq, Eq)]
pub struct Size {
    /// The extent along x.
    pub x: u32,
    /// The extent along y.
    pub y: u32,
    /// The extent along z.
    pub z: u32,
}

/// A voxel of a model: where it is, and the index of its colour in the palette.
#[derive(Clone, Copy, Debug, PartialEq, Eq)]
pub struct Voxel {
    /// The position along x.
    pub x: u8,
    /// The position along y.
    pub y: u8,
    /// The position along z.
    pub z: u8,
    /// The index of the colour.
    pub i: u8,
}

/// A voxel model: its extents and its voxels.
#[derive(Debug)]
pub struct Model {
    /// The extents.
    pub size: Size,
    /// The voxels, in the order of the file.
    pub voxels: Vec<Voxel>,
}

/// What a file of voxel models holds: the models and the palette they share.
#[derive(Debug)]
pub struct VoxData {
    /// The models.
    pub models: Vec<Model>,
    /// The colours, each packed into one number with red in the lowest byte.
    pub palette: Vec<u32>,
}

/// The red, green and blue of a packed colour: its three lowest bytes, red first.
pub open spec fn color_of(from: u32) -> [u8; 3] {
    [(from % 256) as u8, ((from / 256) % 256) as u8, ((from / 65536) % 256) as u8]
}

/// The extents of the volume of a model: the height of the file, its z,
/// becomes y.
pub open spec fn model_dims(size: Size) -> [usize; 3] {
    [size.x as usize, size.z as usize, size.y as usize]
}

/// Why a voxel cannot be loaded, if it cannot: its colour is not in the
/// palette, or it lies outside the extents of its model.
pub open spec fn voxel_error(dims: [usize; 3], palette: Seq<u32>, v: Voxel) -> Option<VoxError> {
    if v.i >= palette.len() {
        Some(VoxError::Lookup)
    } else if !in_bounds(dims, v.x as int, v.z as int, v.y as int) {
        Some(VoxError::IndexOutOfRange)
    } else {
        None
    }
}

/// The error of the first of the first `k` voxels that cannot be loaded.
pub open spec fn first_error(dims: [usize; 3], palette: Seq<u32>, voxels: Seq<Voxel>, k: int) -> Option<
    VoxError,
>
    decreases k,
{
    if k <= 0 {
        None
    } else {
        match first_error(dims, palette, voxels, k - 1) {
            Some(e) => Some(e),
            None => voxel_error(dims, palette, voxels[k - 1]),
        }
    }
}

/// Why the first model of a file cannot be loaded, if it cannot: there is no
/// model, its extents are not positive or its cells cannot be counted, or one
/// of its voxels cannot be loaded.
pub open spec fn load_error(data: VoxData) -> Option<VoxError> {
    if data.models@.len() == 0 {
        Some(VoxError::IndexOutOfRange)
    } else {
        let model = data.models@[0];
        let dims = model_dims(model.size);
        if dims[0] == 0 || dims[1] == 0 || dims[2] == 0 || dims[0] * dims[1] * dims[2]
            > usize::MAX {
            Some(VoxError::IndexOutOfRange)
        } else {
            first_error(dims, data.palette@, model.voxels@, model.voxels@.len() as int)
        }
    }
}

/// The cells of the volume after the first `k` voxels were set: a later voxel
/// replaces an earlier one at the same position.
pub open spec fn loaded_cells(dims: [usize; 3], voxels: Seq<Voxel>, k: int) -> Seq<Option<u8>>
    decreases k,
{
    if k <= 0 {
        Seq::new((dims[0] * dims[1] * dims[2]) as nat, |i: int| None::<u8>)
    } else {
        let v = voxels[k - 1];
        loaded_cells(dims, voxels, k - 1).update(
            linear_index(dims[0] as int, dims[1] as int, v.x as int, v.z as int, v.y as int),
            Some(v.i),
        )
    }
}

/// The colours of the volume after the first `k` voxels were set.
pub open spec fn loaded_palette(palette: Seq<u32>, voxels: Seq<Voxel>, k: int) -> Map<u8, [u8; 3]>
    decreases k,
{
    if k <= 0 {
        Map::empty()
    } else {
        let v = voxels[k - 1];
        loaded_palette(palette, voxels, k - 1).insert(v.i, color_of(palette[v.i as int]))
    }
}

/// Once a voxel cannot be loaded, its error stays the first.
pub proof fn lemma_first_error_stays(
    dims: [usize; 3],
    palette: Seq<u32>,
    voxels: Seq<Voxel>,
    k: int,
    n: int,
)
    requires
        0 <= k <= n,
        first_error(dims, palette, voxels, k) is Some,
    ensures
        first_error(dims, palette, voxels, n) == first_error(dims, palette, voxels, k),
    decreases n - k,
{
    if k < n {
        lemma_first_error_stays(dims, palette, voxels, k, n - 1);
    }
}

/// Unpacks a colour of a palette.
pub fn palette_to_color(from: u32) -> (color: [u8; 3])
    ensures
        color == color_of(from),
{
    let r: u32 = from & 0xFF;
    let g: u32 = (from >> 8) & 0xFF;
    let b: u32 = (from >> 16) & 0xFF;
    proof {
        assert(from & 0xFF == from % 256) by (bit_vector);
        assert((from >> 8) & 0xFF == (from / 256) % 256) by (bit_vector);
        assert((from >> 16) & 0xFF == (from / 65536) % 256) by (bit_vector);
    }
    [r as u8, g as u8, b as u8]
}

/// Turns the first model of a file into a volume and adds it to the registry.
/// The height of the file, its z, becomes y. Every voxel is set in the order
/// of the file, with the colour that the palette holds at its index. If the
/// model cannot be loaded the registry stays as it was.
pub fn load_vox(data: &VoxData, registry: &mut Registry<Vox3d>) -> (r: Result<Handle, VoxError>)
    ensures
        match r {
            Ok(handle) => {
                &&& load_error(*data) is None
                &&& handle.index == old(registry).items().len()
                &&& final(registry).items().len() == old(registry).items().len() + 1
                &&& final(registry).items().drop_last() == old(registry).items()
                &&& final(registry).items().last().well_formed()
                &&& final(registry).items().last().dims() == model_dims(data.models@[0].size)
                &&& final(registry).items().last().cells() == loaded_cells(
                    model_dims(data.models@[0].size),
                    data.models@[0].voxels@,
                    data.models@[0].voxels@.len() as int,
                )
                &&& final(registry).items().last().palette() == loaded_palette(
                    data.palette@,
                    data.models@[0].voxels@,
                    data.models@[0].voxels@.len() as int,
                )
            },
            Err(e) => load_error(*data) == Some(e) && final(registry).items() == old(
                registry,
            ).items(),
        },
{
    if data.models.len() == 0 {
        return Err(VoxError::IndexOutOfRange);
    }
    let model = &data.models[0];
    let x_size = model.size.x as usize;
    let y_size = model.size.z as usize;
    let z_size = model.size.y as usize;
    if x_size == 0 || y_size == 0 || z_size == 0 {
        return Err(VoxError::IndexOutOfRange);
    }
    proof {
        let a = model.size.x as int;
        let b = model.size.z as int;
        let c = model.size.y as int;
        assert(0 <= a * b <= 0xffff_ffff * 0xffff_ffff && 0 <= a * b * c <= 0xffff_ffff
            * 0xffff_ffff * 0xffff_ffff) by (nonlinear_arith)
            requires
                0 <= a <= 0xffff_ffff,
                0 <= b <= 0xffff_ffff,
                0 <= c <= 0xffff_ffff,
        ;
    }
    let cells: u128 = (model.size.x as u128) * (model.size.z as u128) * (model.size.y as u128);
    if cells > usize::MAX as u128 {
        return Err(VoxError::IndexOutOfRange);
    }
    let ghost dims = model_dims(model.size);
    let mut vox_model = Vox3d::new(x_size, y_size, z_size);
    assert(vox_model.dims() =~= dims);
    let mut k: usize = 0;
    while k < model.voxels.len()
        invariant
            k <= model.voxels@.len(),
            data.models@.len() > 0,
            model == data.models@[0],
            registry.items() == old(registry).items(),
            dims[0] > 0 && dims[1] > 0 && dims[2] > 0,
            dims[0] * dims[1] * dims[2] <= usize::MAX,
            dims == model_dims(model.size),
            vox_model.well_formed(),
            vox_model.dims() == dims,
            first_error(dims, data.palette@, model.voxels@, k as int) is None,
            vox_model.cells() == loaded_cells(dims, model.voxels@, k as int),
            vox_model.palette() == loaded_palette(data.palette@, model.voxels@, k as int),
        decreases model.voxels@.len() - k,
    {
        let v = model.voxels[k];
        proof {
            if voxel_error(dims, data.palette@, v) is Some {
                lemma_first_error_stays(
                    dims,
                    data.palette@,
                    model.voxels@,
                    k + 1,
                    model.voxels@.len() as int,
                );
            }
        }
        if v.i as usize >= data.palette.len() {
            return Err(VoxError::Lookup);
        }
        let color = palette_to_color(data.palette[v.i as usize]);
        if vox_model.set(v.x as usize, v.z as usize, v.y as usize, v.i, color).is_err() {
            return Err(VoxError::IndexOutOfRange);
        }
        k += 1;
    }
    let handle = registry.add(vox_model);
    proof {
        assert(registry.items().drop_last() =~= old(registry).items());
    }
    Ok(handle)
}

} // verus!
