//! Greedy meshing: the visible faces of a voxel volume, merged into as few
//! axis-aligned quads as a row-major sweep finds.

use crate::mesh::{MeshData, Vertex};
use crate::vox::Vox;
use crate::vox3d::Vox3d;
use crate::voxheightmap::VoxHeightMap;
use vstd::prelude::*;

verus! {

/// One of the six sweeps: the axis that is sliced, the two axes of the slice,
/// the direction of the sweep, its normal, and the bias of the quads' corners.
#[derive(Clone, Copy, Debug)]
pub struct Descriptor {
    /// The axis along which the volume is sliced.
    pub u: usize,
    /// The axis along which a rectangle is wide.
    pub v: usize,
    /// The axis along which a rectangle is high.
    pub w: usize,
    /// `1` for a sweep towards larger coordinates, `-1` for the opposite.
    pub step: i32,
    /// The direction of the sweep as a vector.
    pub normal: [i32; 3],
    /// What is added to a quad's origin along `u`, `v` and `w`.
    pub q: [i32; 3],
}

impl Descriptor {
    /// A sweep with the given axes, direction, normal and bias.
    pub fn new(u: usize, v: usize, w: usize, step: i32, normal: [i32; 3], q: [i32; 3]) -> (d: Self)
        ensures
            d == (Descriptor { u, v, w, step, normal, q }),
    {
        Self { u, v, w, step, normal, q }
    }

    /// A sweep that the mesher can run: three distinct axes, a unit step, the
    /// normal along the sliced axis, and a bias that puts the faces of a
    /// backward sweep on the far side of their voxels.
    pub open spec fn wf(&self) -> bool {
        &&& self.u < 3 && self.v < 3 && self.w < 3
        &&& self.u != self.v && self.v != self.w && self.u != self.w
        &&& (self.step == 1 || self.step == -1)
        &&& self.normal[self.u as int] == self.step
        &&& self.normal[self.v as int] == 0
        &&& self.normal[self.w as int] == 0
        &&& self.q[0] == (if self.step == 1 { 0i32 } else { 1i32 })
        &&& self.q[1] == 0
        &&& self.q[2] == 0
    }
}

/// The face ids of one slice, row by row.
pub struct Mask {
    data: Vec<Option<u8>>,
    size_x: usize,
    size_y: usize,
}

/// The position of cell `(x, y)` in a row-major grid whose rows are `sx` long.
pub open spec fn mask_index(sx: int, x: int, y: int) -> int {
    y * sx + x
}

/// Row-major positions stay inside the grid and determine their cell.
pub proof fn lemma_mask_index(sx: int, sy: int, x: int, y: int)
    requires
        0 <= x < sx,
        0 <= y < sy,
    ensures
        0 <= y * sx <= mask_index(sx, x, y) < sx * sy,
        mask_index(sx, x, y) % sx == x,
        mask_index(sx, x, y) / sx == y,
{
    assert(0 <= y * sx <= y * sx + x < sx * sy) by (nonlinear_arith)
        requires
            0 <= x < sx,
            0 <= y < sy,
    ;
    vstd::arithmetic::div_mod::lemma_fundamental_div_mod_converse(y * sx + x, sx, y, x);
}

/// Every position of the grid is the position of the cell in its row and column.
pub proof fn lemma_mask_cell(sx: int, sy: int, i: int)
    requires
        0 < sx,
        0 <= i < sx * sy,
    ensures
        0 <= i % sx < sx,
        0 <= i / sx < sy,
        mask_index(sx, i % sx, i / sx) == i,
{
    vstd::arithmetic::div_mod::lemma_fundamental_div_mod(i, sx);
    vstd::arithmetic::div_mod::lemma_mod_bound(i, sx);
    let q = i / sx;
    let r = i % sx;
    assert(sx * q == q * sx) by (nonlinear_arith);
    assert(0 <= q < sy) by (nonlinear_arith)
        requires
            0 <= q * sx + r < sx * sy,
            0 <= r < sx,
    ;
}

impl Mask {
    /// The cells, row by row.
    pub closed spec fn cells(&self) -> Seq<Option<u8>> {
        self.data@
    }

    /// The length of a row.
    pub closed spec fn width(&self) -> usize {
        self.size_x
    }

    /// The number of rows.
    pub closed spec fn height(&self) -> usize {
        self.size_y
    }

    /// The invariant of a mask: one cell per position.
    pub open spec fn wf(&self) -> bool {
        &&& self.width() * self.height() <= usize::MAX
        &&& self.cells().len() == self.width() * self.height()
    }

    /// A mask of `size_x` by `size_y` empty cells.
    pub fn new(size_x: usize, size_y: usize) -> (mask: Self)
        requires
            size_x * size_y <= usize::MAX,
        ensures
            mask.wf(),
            mask.width() == size_x,
            mask.height() == size_y,
            mask.cells() == Seq::new((size_x * size_y) as nat, |i: int| None::<u8>),
    {
        proof {
            assert(size_y * size_x == size_x * size_y) by (nonlinear_arith);
        }
        let mask = Self { data: vec![None; size_y * size_x], size_x, size_y };
        assert(mask.cells() =~= Seq::new((size_x * size_y) as nat, |i: int| None::<u8>));
        mask
    }

    /// Puts `color_id` in cell `(x, y)`; every other cell stays.
    pub fn set(&mut self, x: usize, y: usize, color_id: Option<u8>)
        requires
            old(self).wf(),
            x < old(self).width(),
            y < old(self).height(),
        ensures
            final(self).wf(),
            final(self).width() == old(self).width(),
            final(self).height() == old(self).height(),
            final(self).cells() == old(self).cells().update(
                mask_index(old(self).width() as int, x as int, y as int),
                color_id,
            ),
    {
        proof {
            lemma_mask_index(self.size_x as int, self.size_y as int, x as int, y as int);
        }
        self.data.set(y * self.size_x + x, color_id);
    }

    /// The content of cell `(x, y)`.
    pub fn get(&self, x: usize, y: usize) -> (r: Option<u8>)
        requires
            self.wf(),
            x < self.width(),
            y < self.height(),
        ensures
            r == self.cells()[mask_index(self.width() as int, x as int, y as int)],
    {
        proof {
            lemma_mask_index(self.size_x as int, self.size_y as int, x as int, y as int);
        }
        self.data[y * self.size_x + x]
    }
}

/// A rectangle of one slice that becomes two triangles: its sweep, the slice,
/// its origin and extents in the slice, and the palette id of its cells.
#[derive(Clone, Copy, Debug)]
pub struct Quad {
    /// The sweep that found the rectangle.
    pub d: Descriptor,
    /// The coordinate of the slice along the sweep's `u`.
    pub slice: usize,
    /// The origin along the sweep's `v`.
    pub x: usize,
    /// The origin along the sweep's `w`.
    pub y: usize,
    /// The extent along the sweep's `v`.
    pub width: usize,
    /// The extent along the sweep's `w`.
    pub height: usize,
    /// The palette id shared by the cells of the rectangle.
    pub color_id: u8,
}

/// The coordinate along `axis` of the position that lies at `a` along the
/// sweep's `u`, at `b` along its `v` and at `c` along its `w`.
pub open spec fn pick(d: Descriptor, axis: int, a: int, b: int, c: int) -> int {
    if d.u == axis {
        a
    } else if d.v == axis {
        b
    } else {
        c
    }
}

/// The voxel at `a` along the sweep's `u`, `b` along its `v` and `c` along its `w`.
pub open spec fn voxel_at<V: Vox>(vox: &V, d: Descriptor, a: int, b: int, c: int) -> Option<u8> {
    vox.voxel(pick(d, 0, a, b, c), pick(d, 1, a, b, c), pick(d, 2, a, b, c))
}

/// The face that the voxel at `(slice, b, c)` shows against the sweep: its
/// palette id, unless the voxel one step back along the normal has the same id
/// or the voxel is empty. Outside the volume there are no voxels.
pub open spec fn face_id<V: Vox>(vox: &V, d: Descriptor, slice: int, b: int, c: int) -> Option<u8> {
    let voxel = voxel_at(vox, d, slice, b, c);
    let back = voxel_at(vox, d, slice - d.step, b, c);
    if voxel is Some && back == voxel {
        None
    } else {
        voxel
    }
}

/// The extent of the volume along `axis`.
pub open spec fn extent<V: Vox>(vox: &V, axis: usize) -> int {
    vox.size()[axis as int] as int
}

/// The faces of one slice, row by row: rows run along the sweep's `v`.
pub open spec fn face_mask<V: Vox>(vox: &V, d: Descriptor, slice: int) -> Seq<Option<u8>> {
    Seq::new(
        (extent(vox, d.v) * extent(vox, d.w)) as nat,
        |i: int| face_id(vox, d, slice, i % extent(vox, d.v), i / extent(vox, d.v)),
    )
}

/// How many cells of row `y`, from column `x` on, hold `id` without a gap.
pub open spec fn run_width(mask: Seq<Option<u8>>, sx: int, x: int, y: int, id: u8) -> int
    decreases sx - x,
{
    if 0 <= x < sx && mask[mask_index(sx, x, y)] == Some(id) {
        1 + run_width(mask, sx, x + 1, y, id)
    } else {
        0
    }
}

/// Whether the `width` cells of row `y` from column `x` on all hold `id`.
pub open spec fn row_matches(
    mask: Seq<Option<u8>>,
    sx: int,
    x: int,
    y: int,
    width: int,
    id: u8,
) -> bool {
    forall|c: int| x <= c < x + width ==> mask[#[trigger] mask_index(sx, c, y)] == Some(id)
}

/// How many rows, from row `y` on, hold `id` in all of the `width` columns
/// from `x` on, without a gap.
pub open spec fn run_height(
    mask: Seq<Option<u8>>,
    sx: int,
    sy: int,
    x: int,
    y: int,
    width: int,
    id: u8,
) -> int
    decreases sy - y,
{
    if 0 <= y < sy && row_matches(mask, sx, x, y, width, id) {
        1 + run_height(mask, sx, sy, x, y + 1, width, id)
    } else {
        0
    }
}

/// Whether cell `(x, y)` lies in the rectangle at `(x0, y0)` of the given extents.
pub open spec fn in_rect(x0: int, y0: int, width: int, height: int, x: int, y: int) -> bool {
    x0 <= x < x0 + width && y0 <= y < y0 + height
}

/// The mask with the cells of a rectangle emptied.
pub open spec fn clear_rect(
    mask: Seq<Option<u8>>,
    sx: int,
    x0: int,
    y0: int,
    width: int,
    height: int,
) -> Seq<Option<u8>> {
    Seq::new(
        mask.len(),
        |i: int|
            if in_rect(x0, y0, width, height, i % sx, i / sx) {
                None
            } else {
                mask[i]
            },
    )
}

/// The rectangle that the sweep accepts at a filled cell `(x, y)` holding `id`:
/// as wide as the run of `id` in its row, then as high as the rows that repeat
/// that whole span.
pub open spec fn grown_quad(
    mask: Seq<Option<u8>>,
    sx: int,
    sy: int,
    d: Descriptor,
    slice: int,
    x: int,
    y: int,
    id: u8,
) -> Quad {
    let width = run_width(mask, sx, x, y, id);
    Quad {
        d,
        slice: slice as usize,
        x: x as usize,
        y: y as usize,
        width: width as usize,
        height: run_height(mask, sx, sy, x, y, width, id) as usize,
        color_id: id,
    }
}

/// The rectangles that a row-major sweep of the mask accepts from position
/// `pos` on. At a filled cell it grows a rectangle, empties the cells it
/// covers and goes on; an empty cell is passed over.
pub open spec fn merge_from(
    mask: Seq<Option<u8>>,
    sx: int,
    sy: int,
    d: Descriptor,
    slice: int,
    pos: int,
) -> Seq<Quad>
    decreases sx * sy - pos,
{
    if sx <= 0 || pos < 0 || pos >= sx * sy {
        Seq::empty()
    } else {
        match mask[pos] {
            Some(id) => {
                let q = grown_quad(mask, sx, sy, d, slice, pos % sx, pos / sx, id);
                seq![q] + merge_from(
                    clear_rect(mask, sx, q.x as int, q.y as int, q.width as int, q.height as int),
                    sx,
                    sy,
                    d,
                    slice,
                    pos + 1,
                )
            },
            None => merge_from(mask, sx, sy, d, slice, pos + 1),
        }
    }
}

/// The quads of one slice of one sweep.
pub open spec fn slice_quads<V: Vox>(vox: &V, d: Descriptor, slice: int) -> Seq<Quad> {
    merge_from(face_mask(vox, d, slice), extent(vox, d.v), extent(vox, d.w), d, slice, 0)
}

/// The slice that a sweep over `size_u` slices visits in its step `k`.
pub open spec fn slice_at(d: Descriptor, size_u: int, k: int) -> int {
    if d.step == 1 {
        k
    } else {
        size_u - (k + 1)
    }
}

/// The quads of the first `n` slices that a sweep visits, in the order found.
pub open spec fn sweep_quads<V: Vox>(vox: &V, d: Descriptor, n: int) -> Seq<Quad>
    decreases n,
{
    if n <= 0 {
        Seq::empty()
    } else {
        sweep_quads(vox, d, n - 1) + slice_quads(vox, d, slice_at(d, extent(vox, d.u), n - 1))
    }
}

/// The six sweeps, in the order in which the mesher runs them.
pub open spec fn descriptors() -> Seq<Descriptor> {
    seq![
        Descriptor { u: 0, v: 1, w: 2, step: 1, normal: [1, 0, 0], q: [0, 0, 0] },
        Descriptor { u: 0, v: 1, w: 2, step: -1i32, normal: [-1i32, 0, 0], q: [1, 0, 0] },
        Descriptor { u: 1, v: 2, w: 0, step: 1, normal: [0, 1, 0], q: [0, 0, 0] },
        Descriptor { u: 1, v: 2, w: 0, step: -1i32, normal: [0, -1i32, 0], q: [1, 0, 0] },
        Descriptor { u: 2, v: 0, w: 1, step: 1, normal: [0, 0, 1], q: [0, 0, 0] },
        Descriptor { u: 2, v: 0, w: 1, step: -1i32, normal: [0, 0, -1i32], q: [1, 0, 0] },
    ]
}

/// The quads of the first `k` sweeps.
pub open spec fn volume_quads_upto<V: Vox>(vox: &V, k: int) -> Seq<Quad>
    decreases k,
{
    if k <= 0 {
        Seq::empty()
    } else {
        volume_quads_upto(vox, k - 1) + sweep_quads(
            vox,
            descriptors()[k - 1],
            extent(vox, descriptors()[k - 1].u),
        )
    }
}

/// All quads of a volume, sweep by sweep and slice by slice.
pub open spec fn volume_quads<V: Vox>(vox: &V) -> Seq<Quad> {
    volume_quads_upto(vox, 6)
}

/// A corner of a quad: its origin, moved by `dv` along `v` and `dw` along `w`.
pub open spec fn quad_corner(q: Quad, dv: int, dw: int) -> [usize; 3] {
    let a = q.slice + q.d.q[0];
    let b = q.x + q.d.q[1] + dv;
    let c = q.y + q.d.q[2] + dw;
    [pick(q.d, 0, a, b, c) as usize, pick(q.d, 1, a, b, c) as usize, pick(q.d, 2, a, b, c) as usize]
}

/// The normal of the faces of a sweep: against the sweep, out of the solid.
pub open spec fn outward_normal(d: Descriptor) -> [i32; 3] {
    [(-d.normal[0]) as i32, (-d.normal[1]) as i32, (-d.normal[2]) as i32]
}

/// The four vertices of a quad: origin, far corner, end of the width, end of
/// the height.
pub open spec fn quad_vertices(q: Quad, color: [u8; 3]) -> Seq<Vertex> {
    let normal = outward_normal(q.d);
    seq![
        Vertex { position: quad_corner(q, 0, 0), normal, color },
        Vertex { position: quad_corner(q, q.width as int, q.height as int), normal, color },
        Vertex { position: quad_corner(q, q.width as int, 0), normal, color },
        Vertex { position: quad_corner(q, 0, q.height as int), normal, color },
    ]
}

/// The two triangles of the quad whose first vertex is number `count`. The
/// winding of a backward sweep is the reverse of that of a forward sweep, so
/// that both face outward.
pub open spec fn quad_indices(count: int, step: i32) -> Seq<usize> {
    if step == 1 {
        seq![
            count as usize,
            (count + 1) as usize,
            (count + 2) as usize,
            count as usize,
            (count + 3) as usize,
            (count + 1) as usize,
        ]
    } else {
        seq![
            count as usize,
            (count + 2) as usize,
            (count + 1) as usize,
            count as usize,
            (count + 1) as usize,
            (count + 3) as usize,
        ]
    }
}

/// The vertices of a sequence of quads, four per quad, in the colours of the
/// volume's palette.
pub open spec fn quads_vertices<V: Vox>(vox: &V, quads: Seq<Quad>) -> Seq<Vertex>
    decreases quads.len(),
{
    if quads.len() == 0 {
        Seq::empty()
    } else {
        quads_vertices(vox, quads.drop_last()) + quad_vertices(
            quads.last(),
            vox.color(quads.last().color_id).unwrap(),
        )
    }
}

/// The triangle indices of a sequence of quads whose first vertex is number `base`.
pub open spec fn quads_indices(quads: Seq<Quad>, base: int) -> Seq<usize>
    decreases quads.len(),
{
    if quads.len() == 0 {
        Seq::empty()
    } else {
        quads_indices(quads.drop_last(), base) + quad_indices(
            base + 4 * (quads.len() - 1),
            quads.last().d.step,
        )
    }
}

/// Whether a cell of a mask holds palette id `id`.
fn holds(cell: Option<u8>, id: u8) -> (r: bool)
    ensures
        r == (cell == Some(id)),
{
    match cell {
        Some(c) => c == id,
        None => false,
    }
}

/// Measures the run of `id` in row `y` from the filled cell `(x, y)` on.
fn grow_width(mask: &Mask, x: usize, y: usize, id: u8) -> (width: usize)
    requires
        mask.wf(),
        x < mask.width(),
        y < mask.height(),
        mask.cells()[mask_index(mask.width() as int, x as int, y as int)] == Some(id),
    ensures
        width == run_width(mask.cells(), mask.width() as int, x as int, y as int, id),
        1 <= width,
        x + width <= mask.width(),
{
    let mut width: usize = 1;
    while x + width < mask.size_x && holds(mask.get(x + width, y), id)
        invariant
            mask.wf(),
            y < mask.height(),
            1 <= width,
            x + width <= mask.width(),
            mask.width() == mask.size_x,
            run_width(mask.cells(), mask.width() as int, x as int, y as int, id) == width
                + run_width(mask.cells(), mask.width() as int, x + width, y as int, id),
        decreases mask.width() - width,
    {
        width += 1;
    }
    width
}

/// Measures how many rows, from row `y` on, repeat the span of `width` cells
/// of `id` that starts at `(x, y)`.
fn grow_height(mask: &Mask, x: usize, y: usize, width: usize, id: u8) -> (height: usize)
    requires
        mask.wf(),
        x + width <= mask.width(),
        y < mask.height(),
        row_matches(mask.cells(), mask.width() as int, x as int, y as int, width as int, id),
    ensures
        height == run_height(
            mask.cells(),
            mask.width() as int,
            mask.height() as int,
            x as int,
            y as int,
            width as int,
            id,
        ),
        1 <= height,
        y + height <= mask.height(),
{
    let mut height: usize = 1;
    let mut done = false;
    while y + height < mask.size_y && !done
        invariant
            mask.wf(),
            x + width <= mask.width(),
            mask.height() == mask.size_y,
            1 <= height,
            y + height <= mask.height(),
            run_height(
                mask.cells(),
                mask.width() as int,
                mask.height() as int,
                x as int,
                y as int,
                width as int,
                id,
            ) == height + (if done {
                0
            } else {
                run_height(
                    mask.cells(),
                    mask.width() as int,
                    mask.height() as int,
                    x as int,
                    y + height,
                    width as int,
                    id,
                )
            }),
        decreases mask.height() - height + (if done { 0int } else { 1int }),
    {
        let mut k: usize = 0;
        while k < width && !done
            invariant
                mask.wf(),
                x + width <= mask.width(),
                y + height < mask.height(),
                k <= width,
                !done ==> row_matches(
                    mask.cells(),
                    mask.width() as int,
                    x as int,
                    y + height,
                    k as int,
                    id,
                ),
                done ==> !row_matches(
                    mask.cells(),
                    mask.width() as int,
                    x as int,
                    y + height,
                    width as int,
                    id,
                ),
            decreases width - k + (if done { 0int } else { 1int }),
        {
            if holds(mask.get(x + k, y + height), id) {
                k += 1;
            } else {
                assert(mask.cells()[mask_index(mask.width() as int, x + k, y + height)] != Some(
                    id,
                ));
                done = true;
            }
        }
        if !done {
            height += 1;
        }
    }
    height
}

/// Empties the cells of a rectangle of the mask.
fn clear_cells(mask: &mut Mask, x: usize, y: usize, width: usize, height: usize)
    requires
        old(mask).wf(),
        x + width <= old(mask).width(),
        y + height <= old(mask).height(),
    ensures
        final(mask).wf(),
        final(mask).width() == old(mask).width(),
        final(mask).height() == old(mask).height(),
        final(mask).cells() == clear_rect(
            old(mask).cells(),
            old(mask).width() as int,
            x as int,
            y as int,
            width as int,
            height as int,
        ),
{
    let ghost sx = mask.width() as int;
    let ghost sy = mask.height() as int;
    let ghost before = mask.cells();
    let mut yy: usize = y;
    while yy < y + height
        invariant
            mask.wf(),
            mask.width() == sx,
            mask.height() == sy,
            x + width <= sx,
            y + height <= sy,
            y <= yy <= y + height,
            mask.cells().len() == before.len(),
            forall|i: int|
                0 <= i < before.len() ==> (#[trigger] mask.cells()[i]) == (if in_rect(
                    x as int,
                    y as int,
                    width as int,
                    yy - y,
                    i % sx,
                    i / sx,
                ) {
                    None
                } else {
                    before[i]
                }),
        decreases y + height - yy,
    {
        let mut xx: usize = x;
        while xx < x + width
            invariant
                mask.wf(),
                mask.width() == sx,
                mask.height() == sy,
                x + width <= sx,
                y + height <= sy,
                y <= yy < y + height,
                x <= xx <= x + width,
                mask.cells().len() == before.len(),
                forall|i: int|
                    0 <= i < before.len() ==> (#[trigger] mask.cells()[i]) == (if in_rect(
                        x as int,
                        y as int,
                        width as int,
                        yy - y,
                        i % sx,
                        i / sx,
                    ) || (i / sx == yy && x <= i % sx < xx) {
                        None
                    } else {
                        before[i]
                    }),
            decreases x + width - xx,
        {
            let ghost prev = mask.cells();
            mask.set(xx, yy, None);
            proof {
                lemma_mask_index(sx, sy, xx as int, yy as int);
                assert forall|i: int| 0 <= i < before.len() implies (#[trigger] mask.cells()[i])
                    == (if in_rect(x as int, y as int, width as int, yy - y, i % sx, i / sx) || (i
                    / sx == yy && x <= i % sx < xx + 1) {
                    None
                } else {
                    before[i]
                }) by {
                    lemma_mask_cell(sx, sy, i);
                    assert(prev[i] == (if in_rect(
                        x as int,
                        y as int,
                        width as int,
                        yy - y,
                        i % sx,
                        i / sx,
                    ) || (i / sx == yy && x <= i % sx < xx) {
                        None
                    } else {
                        before[i]
                    }));
                }
            }
            xx += 1;
        }
        yy += 1;
    }
    assert(mask.cells() =~= clear_rect(
        before,
        sx,
        x as int,
        y as int,
        width as int,
        height as int,
    ));
}

/// The coordinate along `axis` of the position at `a`, `b` and `c` along the
/// sweep's `u`, `v` and `w`.
fn pick_axis(d: &Descriptor, axis: usize, a: usize, b: usize, c: usize) -> (r: usize)
    ensures
        r == pick(*d, axis as int, a as int, b as int, c as int),
{
    if d.u == axis {
        a
    } else if d.v == axis {
        b
    } else {
        c
    }
}

/// Computes a corner of a quad.
fn corner(q: &Quad, dv: usize, dw: usize) -> (r: [usize; 3])
    requires
        q.d.wf(),
        q.slice < usize::MAX,
        q.x + dv <= usize::MAX,
        q.y + dw <= usize::MAX,
    ensures
        r == quad_corner(*q, dv as int, dw as int),
{
    let a = if q.d.q[0] == 1 {
        q.slice + 1
    } else {
        q.slice
    };
    let b = q.x + dv;
    let c = q.y + dw;
    [pick_axis(&q.d, 0, a, b, c), pick_axis(&q.d, 1, a, b, c), pick_axis(&q.d, 2, a, b, c)]
}

/// Appends the four vertices and the two triangles of a quad to a mesh.
fn emit_quad(mesh: &mut MeshData, q: &Quad, color: [u8; 3])
    requires
        q.d.wf(),
        q.slice < usize::MAX,
        q.x + q.width <= usize::MAX,
        q.y + q.height <= usize::MAX,
    ensures
        final(mesh).vertices@ == old(mesh).vertices@ + quad_vertices(*q, color),
        final(mesh).indices@ == old(mesh).indices@ + quad_indices(
            old(mesh).vertices@.len() as int,
            q.d.step,
        ),
{
    let d = &q.d;
    let normal = [-d.normal[0], -d.normal[1], -d.normal[2]];
    let count = mesh.vertices.len();
    mesh.vertices.push(Vertex::new(corner(q, 0, 0), normal, color));
    mesh.vertices.push(Vertex::new(corner(q, q.width, q.height), normal, color));
    mesh.vertices.push(Vertex::new(corner(q, q.width, 0), normal, color));
    mesh.vertices.push(Vertex::new(corner(q, 0, q.height), normal, color));
    let end = mesh.vertices.len();
    assert(end == count + 4);
    if d.step == 1 {
        mesh.indices.push(count);
        mesh.indices.push(count + 1);
        mesh.indices.push(count + 2);
        mesh.indices.push(count);
        mesh.indices.push(count + 3);
        mesh.indices.push(count + 1);
    } else {
        mesh.indices.push(count);
        mesh.indices.push(count + 2);
        mesh.indices.push(count + 1);
        mesh.indices.push(count);
        mesh.indices.push(count + 1);
        mesh.indices.push(count + 3);
    }
    assert(mesh.vertices@ =~= old(mesh).vertices@ + quad_vertices(*q, color));
    assert(mesh.indices@ =~= old(mesh).indices@ + quad_indices(count as int, q.d.step));
}

/// A slice of a volume is no larger than the volume.
proof fn lemma_slice_fits(size: [usize; 3], d: Descriptor)
    requires
        d.wf(),
        size[d.u as int] > 0,
        size[0] * size[1] * size[2] <= usize::MAX,
    ensures
        size[d.v as int] * size[d.w as int] <= usize::MAX,
{
    let a = size[0] as int;
    let b = size[1] as int;
    let c = size[2] as int;
    assert(a > 0 ==> b * c <= a * b * c && c * b <= a * b * c) by (nonlinear_arith)
        requires
            b >= 0,
            c >= 0,
    ;
    assert(b > 0 ==> a * c <= a * b * c && c * a <= a * b * c) by (nonlinear_arith)
        requires
            a >= 0,
            c >= 0,
    ;
    assert(c > 0 ==> a * b <= a * b * c && b * a <= a * b * c) by (nonlinear_arith)
        requires
            a >= 0,
            b >= 0,
    ;
}

/// Computes the faces of one slice.
fn build_mask<V: Vox>(vox: &V, d: &Descriptor, slice: usize, size: [usize; 3]) -> (mask: Mask)
    requires
        vox.wf(),
        d.wf(),
        size == vox.size(),
        slice < size[d.u as int],
    ensures
        mask.wf(),
        mask.width() == size[d.v as int],
        mask.height() == size[d.w as int],
        mask.cells() == face_mask(vox, *d, slice as int),
{
    proof {
        vox.lemma_wf();
        lemma_slice_fits(size, *d);
    }
    let size_v = size[d.v];
    let size_w = size[d.w];
    let no_voxel_back = (slice == 0 && d.step == 1) || (slice == size[d.u] - 1 && d.step != 1);
    let mut mask = Mask::new(size_v, size_w);
    let mut cursor_w: usize = 0;
    while cursor_w < size_w
        invariant
            vox.wf(),
            d.wf(),
            size == vox.size(),
            slice < size[d.u as int],
            size_v == size[d.v as int],
            size_w == size[d.w as int],
            no_voxel_back == ((slice == 0 && d.step == 1) || (slice == size[d.u as int] - 1
                && d.step != 1)),
            mask.wf(),
            mask.width() == size_v,
            mask.height() == size_w,
            cursor_w <= size_w,
            cursor_w * size_v <= mask.cells().len(),
            forall|i: int|
                0 <= i < cursor_w * size_v ==> (#[trigger] mask.cells()[i]) == face_id(
                    vox,
                    *d,
                    slice as int,
                    i % (size_v as int),
                    i / (size_v as int),
                ),
        decreases size_w - cursor_w,
    {
        let mut cursor_v: usize = 0;
        while cursor_v < size_v
            invariant
                vox.wf(),
                d.wf(),
                size == vox.size(),
                slice < size[d.u as int],
                size_v == size[d.v as int],
                size_w == size[d.w as int],
                no_voxel_back == ((slice == 0 && d.step == 1) || (slice == size[d.u as int] - 1
                    && d.step != 1)),
                mask.wf(),
                mask.width() == size_v,
                mask.height() == size_w,
                cursor_w < size_w,
                cursor_v <= size_v,
                cursor_w * size_v + cursor_v <= mask.cells().len(),
                forall|i: int|
                    0 <= i < cursor_w * size_v + cursor_v ==> (#[trigger] mask.cells()[i])
                        == face_id(
                        vox,
                        *d,
                        slice as int,
                        i % (size_v as int),
                        i / (size_v as int),
                    ),
            decreases size_v - cursor_v,
        {
            let voxel_back = if !no_voxel_back {
                let back = if d.step == 1 {
                    slice - 1
                } else {
                    slice + 1
                };
                vox.get(
                    pick_axis(d, 0, back, cursor_v, cursor_w),
                    pick_axis(d, 1, back, cursor_v, cursor_w),
                    pick_axis(d, 2, back, cursor_v, cursor_w),
                )
            } else {
                None
            };
            let voxel = vox.get(
                pick_axis(d, 0, slice, cursor_v, cursor_w),
                pick_axis(d, 1, slice, cursor_v, cursor_w),
                pick_axis(d, 2, slice, cursor_v, cursor_w),
            );
            let color_id = match (voxel_back, voxel) {
                (Some(b), Some(f)) => if b == f {
                    None
                } else {
                    voxel
                },
                _ => voxel,
            };
            proof {
                vox.lemma_wf();
                assert(voxel == voxel_at(vox, *d, slice as int, cursor_v as int, cursor_w as int));
                assert(pick(*d, d.u as int, slice - d.step, cursor_v as int, cursor_w as int)
                    == slice - d.step);
                assert(voxel_back == voxel_at(
                    vox,
                    *d,
                    slice - d.step,
                    cursor_v as int,
                    cursor_w as int,
                ));
                lemma_mask_index(
                    size_v as int,
                    size_w as int,
                    cursor_v as int,
                    cursor_w as int,
                );
                assert(color_id == face_id(
                    vox,
                    *d,
                    slice as int,
                    cursor_v as int,
                    cursor_w as int,
                ));
            }
            mask.set(cursor_v, cursor_w, color_id);
            cursor_v += 1;
            proof {
                if cursor_v < size_v {
                    lemma_mask_index(
                        size_v as int,
                        size_w as int,
                        cursor_v as int,
                        cursor_w as int,
                    );
                } else {
                    assert(cursor_w * size_v + size_v <= size_v * size_w) by (nonlinear_arith)
                        requires
                            cursor_w < size_w,
                    ;
                }
            }
        }
        proof {
            assert((cursor_w + 1) * size_v == cursor_w * size_v + size_v) by (nonlinear_arith);
        }
        cursor_w += 1;
    }
    proof {
        assert(cursor_w * size_v == size_v * size_w) by (nonlinear_arith)
            requires
                cursor_w == size_w,
        ;
        assert(mask.cells() =~= face_mask(vox, *d, slice as int));
    }
    mask
}

/// The run of `id` from a cell on is a span of cells that all hold `id`, and
/// it ends inside the row.
pub proof fn lemma_run_width_matches(mask: Seq<Option<u8>>, sx: int, x: int, y: int, id: u8)
    requires
        0 <= x <= sx,
    ensures
        0 <= run_width(mask, sx, x, y, id) <= sx - x,
        row_matches(mask, sx, x, y, run_width(mask, sx, x, y, id), id),
    decreases sx - x,
{
    if 0 <= x < sx && mask[mask_index(sx, x, y)] == Some(id) {
        lemma_run_width_matches(mask, sx, x + 1, y, id);
        let w = run_width(mask, sx, x, y, id);
        assert forall|c: int| x <= c < x + w implies mask[#[trigger] mask_index(sx, c, y)] == Some(
            id,
        ) by {
            if c != x {
                assert(x + 1 <= c < (x + 1) + run_width(mask, sx, x + 1, y, id));
            }
        }
    }
}

/// One more quad adds its four vertices at the end.
pub proof fn lemma_quads_vertices_push<V: Vox>(vox: &V, quads: Seq<Quad>, q: Quad)
    ensures
        quads_vertices(vox, quads.push(q)) == quads_vertices(vox, quads) + quad_vertices(
            q,
            vox.color(q.color_id).unwrap(),
        ),
        quads_vertices(vox, quads).len() == 4 * quads.len(),
{
    assert(quads.push(q).drop_last() =~= quads);
    lemma_quads_vertices_len(vox, quads);
}

/// A run of quads has four vertices per quad.
pub proof fn lemma_quads_vertices_len<V: Vox>(vox: &V, quads: Seq<Quad>)
    ensures
        quads_vertices(vox, quads).len() == 4 * quads.len(),
    decreases quads.len(),
{
    if quads.len() > 0 {
        lemma_quads_vertices_len(vox, quads.drop_last());
    }
}

/// One more quad adds its six indices at the end.
pub proof fn lemma_quads_indices_push(quads: Seq<Quad>, base: int, q: Quad)
    ensures
        quads_indices(quads.push(q), base) == quads_indices(quads, base) + quad_indices(
            base + 4 * quads.len(),
            q.d.step,
        ),
        quads_indices(quads, base).len() == 6 * quads.len(),
    decreases quads.len(),
{
    assert(quads.push(q).drop_last() =~= quads);
    if quads.len() > 0 {
        lemma_quads_indices_push(quads.drop_last(), base, quads.last());
        assert(quads.drop_last().push(quads.last()) =~= quads);
    }
}

/// The vertices of two runs of quads are those of the first, then those of the second.
pub proof fn lemma_quads_vertices_concat<V: Vox>(vox: &V, a: Seq<Quad>, b: Seq<Quad>)
    ensures
        quads_vertices(vox, a + b) == quads_vertices(vox, a) + quads_vertices(vox, b),
    decreases b.len(),
{
    if b.len() == 0 {
        assert(a + b =~= a);
        assert(quads_vertices(vox, a) + quads_vertices(vox, b) =~= quads_vertices(vox, a));
    } else {
        lemma_quads_vertices_concat(vox, a, b.drop_last());
        assert((a + b).drop_last() =~= a + b.drop_last());
        assert((a + b).last() == b.last());
        let tail = quad_vertices(b.last(), vox.color(b.last().color_id).unwrap());
        assert((quads_vertices(vox, a) + quads_vertices(vox, b.drop_last())) + tail
            =~= quads_vertices(vox, a) + (quads_vertices(vox, b.drop_last()) + tail));
    }
}

/// The indices of two runs of quads are those of the first, then those of the
/// second counted from where the vertices of the first end.
pub proof fn lemma_quads_indices_concat(a: Seq<Quad>, b: Seq<Quad>, base: int)
    ensures
        quads_indices(a + b, base) == quads_indices(a, base) + quads_indices(
            b,
            base + 4 * a.len(),
        ),
    decreases b.len(),
{
    if b.len() == 0 {
        assert(a + b =~= a);
        assert(quads_indices(a, base) + quads_indices(b, base + 4 * a.len()) =~= quads_indices(
            a,
            base,
        ));
    } else {
        lemma_quads_indices_concat(a, b.drop_last(), base);
        assert((a + b).drop_last() =~= a + b.drop_last());
        assert((a + b).last() == b.last());
        let tail = quad_indices(base + 4 * a.len() + 4 * (b.len() - 1), b.last().d.step);
        assert(base + 4 * ((a + b).len() - 1) == base + 4 * a.len() + 4 * (b.len() - 1));
        assert((quads_indices(a, base) + quads_indices(b.drop_last(), base + 4 * a.len())) + tail
            =~= quads_indices(a, base) + (quads_indices(b.drop_last(), base + 4 * a.len())
            + tail));
    }
}

/// Every index of a run of quads points at one of its own vertices.
pub proof fn lemma_quads_indices_valid(quads: Seq<Quad>, base: int)
    requires
        0 <= base,
        base + 4 * quads.len() <= usize::MAX,
    ensures
        quads_indices(quads, base).len() == 6 * quads.len(),
        forall|i: int|
            0 <= i < 6 * quads.len() ==> base <= (#[trigger] quads_indices(quads, base)[i]) < base
                + 4 * quads.len(),
    decreases quads.len(),
{
    if quads.len() > 0 {
        lemma_quads_indices_valid(quads.drop_last(), base);
        lemma_quads_indices_push(quads.drop_last(), base, quads.last());
    }
}

/// Whether every filled cell of a mask holds an id that has a colour.
pub open spec fn mask_has_colors<V: Vox>(vox: &V, mask: Seq<Option<u8>>) -> bool {
    forall|i: int|
        0 <= i < mask.len() && (#[trigger] mask[i]) is Some ==> vox.color(mask[i].unwrap()) is Some
}

/// Sweeps one slice: appends to the mesh the quads of the rectangles that the
/// mask holds, and empties the mask.
fn merge_slice<V: Vox>(vox: &V, d: &Descriptor, slice: usize, mask: &mut Mask, mesh: &mut MeshData)
    requires
        vox.wf(),
        d.wf(),
        old(mask).wf(),
        slice < usize::MAX,
        mask_has_colors(vox, old(mask).cells()),
    ensures
        final(mesh).vertices@ == old(mesh).vertices@ + quads_vertices(
            vox,
            merge_from(
                old(mask).cells(),
                old(mask).width() as int,
                old(mask).height() as int,
                *d,
                slice as int,
                0,
            ),
        ),
        final(mesh).indices@ == old(mesh).indices@ + quads_indices(
            merge_from(
                old(mask).cells(),
                old(mask).width() as int,
                old(mask).height() as int,
                *d,
                slice as int,
                0,
            ),
            old(mesh).vertices@.len() as int,
        ),
{
    let size_x = mask.size_x;
    let size_y = mask.size_y;
    let ghost sx = size_x as int;
    let ghost sy = size_y as int;
    let ghost v0 = mesh.vertices@;
    let ghost i0 = mesh.indices@;
    let ghost total = merge_from(mask.cells(), sx, sy, *d, slice as int, 0);
    let ghost mut done: Seq<Quad> = Seq::empty();
    proof {
        assert(done + total =~= total);
        assert(v0 + quads_vertices(vox, done) =~= v0);
        assert(i0 + quads_indices(done, v0.len() as int) =~= i0);
    }
    let mut y: usize = 0;
    while y < size_y
        invariant
            vox.wf(),
            d.wf(),
            mask.wf(),
            slice < usize::MAX,
            mask.width() == sx,
            mask.height() == sy,
            size_x == sx,
            size_y == sy,
            y <= size_y,
            mask_has_colors(vox, mask.cells()),
            done + merge_from(mask.cells(), sx, sy, *d, slice as int, y * sx) == total,
            mesh.vertices@ == v0 + quads_vertices(vox, done),
            mesh.indices@ == i0 + quads_indices(done, v0.len() as int),
        decreases size_y - y,
    {
        let mut x: usize = 0;
        while x < size_x
            invariant
                vox.wf(),
                d.wf(),
                mask.wf(),
                slice < usize::MAX,
                mask.width() == sx,
                mask.height() == sy,
                size_x == sx,
                size_y == sy,
                y < size_y,
                x <= size_x,
                mask_has_colors(vox, mask.cells()),
                done + merge_from(mask.cells(), sx, sy, *d, slice as int, y * sx + x) == total,
                mesh.vertices@ == v0 + quads_vertices(vox, done),
                mesh.indices@ == i0 + quads_indices(done, v0.len() as int),
            decreases size_x - x,
        {
            let color_id = mask.get(x, y);
            proof {
                lemma_mask_index(sx, sy, x as int, y as int);
            }
            if let Some(m) = color_id {
                let ghost before = mask.cells();
                let width = grow_width(mask, x, y, m);
                proof {
                    lemma_run_width_matches(before, sx, x as int, y as int, m);
                }
                let height = grow_height(mask, x, y, width, m);
                let q = Quad { d: *d, slice, x, y, width, height, color_id: m };
                let color = match vox.get_color(m) {
                    Ok(c) => c,
                    Err(_) => vstd::pervasive::unreached(),
                };
                emit_quad(mesh, &q, color);
                clear_cells(mask, x, y, width, height);
                proof {
                    assert(q == grown_quad(before, sx, sy, *d, slice as int, x as int, y as int, m));
                    let rest = merge_from(mask.cells(), sx, sy, *d, slice as int, y * sx + x + 1);
                    assert(merge_from(before, sx, sy, *d, slice as int, y * sx + x) == seq![q]
                        + rest);
                    assert(done.push(q) + rest =~= done + (seq![q] + rest));
                    lemma_quads_vertices_push(vox, done, q);
                    lemma_quads_indices_push(done, v0.len() as int, q);
                    assert(mesh.vertices@ =~= v0 + quads_vertices(vox, done.push(q)));
                    assert(mesh.indices@ =~= i0 + quads_indices(done.push(q), v0.len() as int));
                    done = done.push(q);
                }
            }
            x += 1;
        }
        proof {
            assert((y + 1) * sx == y * sx + sx) by (nonlinear_arith);
        }
        y += 1;
    }
    proof {
        assert(y * sx == sx * sy) by (nonlinear_arith)
            requires
                y == sy,
        ;
        assert(done + Seq::<Quad>::empty() =~= done);
    }
}

/// Whether a mesh is the greedy mesh of a volume: the vertices and triangles
/// of the volume's quads, in the order in which the sweeps find them.
pub open spec fn is_mesh_of<V: Vox>(mesh: MeshData, vox: &V) -> bool {
    &&& mesh.vertices@ == quads_vertices(vox, volume_quads(vox))
    &&& mesh.indices@ == quads_indices(volume_quads(vox), 0)
}

/// Every face of a slice has a colour in the palette of the volume.
proof fn lemma_face_mask_has_colors<V: Vox>(vox: &V, d: Descriptor, slice: int)
    requires
        vox.wf(),
    ensures
        mask_has_colors(vox, face_mask(vox, d, slice)),
{
    vox.lemma_wf();
}

/// Runs one sweep: appends to the mesh the quads of all its slices.
fn sweep<V: Vox>(vox: &V, d: &Descriptor, size: [usize; 3], mesh: &mut MeshData)
    requires
        vox.wf(),
        d.wf(),
        size == vox.size(),
    ensures
        final(mesh).vertices@ == old(mesh).vertices@ + quads_vertices(
            vox,
            sweep_quads(vox, *d, extent(vox, d.u)),
        ),
        final(mesh).indices@ == old(mesh).indices@ + quads_indices(
            sweep_quads(vox, *d, extent(vox, d.u)),
            old(mesh).vertices@.len() as int,
        ),
{
    let size_u = size[d.u];
    let ghost v0 = mesh.vertices@;
    let ghost i0 = mesh.indices@;
    proof {
        assert(v0 + quads_vertices(vox, sweep_quads(vox, *d, 0)) =~= v0);
        assert(i0 + quads_indices(sweep_quads(vox, *d, 0), v0.len() as int) =~= i0);
    }
    let mut k: usize = 0;
    while k < size_u
        invariant
            vox.wf(),
            d.wf(),
            size == vox.size(),
            size_u == extent(vox, d.u),
            k <= size_u,
            mesh.vertices@ == v0 + quads_vertices(vox, sweep_quads(vox, *d, k as int)),
            mesh.indices@ == i0 + quads_indices(sweep_quads(vox, *d, k as int), v0.len() as int),
        decreases size_u - k,
    {
        let slice = if d.step == 1 {
            k
        } else {
            size_u - (k + 1)
        };
        let mut mask = build_mask(vox, d, slice, size);
        proof {
            lemma_face_mask_has_colors(vox, *d, slice as int);
        }
        merge_slice(vox, d, slice, &mut mask, mesh);
        proof {
            let sofar = sweep_quads(vox, *d, k as int);
            let more = slice_quads(vox, *d, slice as int);
            assert(sweep_quads(vox, *d, k + 1) == sofar + more);
            lemma_quads_vertices_concat(vox, sofar, more);
            lemma_quads_indices_concat(sofar, more, v0.len() as int);
            lemma_quads_vertices_len(vox, sofar);
            assert(mesh.vertices@ =~= v0 + quads_vertices(vox, sofar + more));
            assert(mesh.indices@ =~= i0 + quads_indices(sofar + more, v0.len() as int));
        }
        k += 1;
    }
}

/// The six sweeps are sweeps that the mesher can run.
pub proof fn lemma_descriptors_wf()
    ensures
        descriptors().len() == 6,
        forall|i: int| 0 <= i < 6 ==> (#[trigger] descriptors()[i]).wf(),
{
}

/// Meshes a source of voxels: runs the six sweeps over it.
pub fn mesh_volume<V: Vox>(vox: &V) -> (mesh: MeshData)
    requires
        vox.wf(),
    ensures
        is_mesh_of(mesh, vox),
        mesh.wf(),
        mesh.vertices@.len() == 4 * volume_quads(vox).len(),
        mesh.indices@.len() == 6 * volume_quads(vox).len(),
{
    let sweeps = [
        Descriptor::new(0, 1, 2, 1, [1, 0, 0], [0, 0, 0]),
        Descriptor::new(0, 1, 2, -1, [-1, 0, 0], [1, 0, 0]),
        Descriptor::new(1, 2, 0, 1, [0, 1, 0], [0, 0, 0]),
        Descriptor::new(1, 2, 0, -1, [0, -1, 0], [1, 0, 0]),
        Descriptor::new(2, 0, 1, 1, [0, 0, 1], [0, 0, 0]),
        Descriptor::new(2, 0, 1, -1, [0, 0, -1], [1, 0, 0]),
    ];
    let size = vox.get_size();
    let mut mesh = MeshData { vertices: Vec::new(), indices: Vec::new() };
    proof {
        lemma_descriptors_wf();
        assert(sweeps@ =~= descriptors());
        assert(mesh.vertices@ =~= quads_vertices(vox, volume_quads_upto(vox, 0)));
        assert(mesh.indices@ =~= quads_indices(volume_quads_upto(vox, 0), 0));
    }
    let mut i: usize = 0;
    while i < 6
        invariant
            vox.wf(),
            size == vox.size(),
            sweeps@ == descriptors(),
            i <= 6,
            mesh.vertices@ == quads_vertices(vox, volume_quads_upto(vox, i as int)),
            mesh.indices@ == quads_indices(volume_quads_upto(vox, i as int), 0),
        decreases 6 - i,
    {
        let d = sweeps[i];
        proof {
            lemma_descriptors_wf();
            assert(d == descriptors()[i as int]);
        }
        sweep(vox, &d, size, &mut mesh);
        proof {
            let sofar = volume_quads_upto(vox, i as int);
            let more = sweep_quads(vox, d, extent(vox, d.u));
            assert(volume_quads_upto(vox, i + 1) == sofar + more);
            lemma_quads_vertices_concat(vox, sofar, more);
            lemma_quads_indices_concat(sofar, more, 0);
            lemma_quads_vertices_len(vox, sofar);
        }
        i += 1;
    }
    proof {
        let quads = volume_quads(vox);
        lemma_quads_vertices_len(vox, quads);
        assert(4 * quads.len() == mesh.vertices.len());
        lemma_quads_indices_valid(quads, 0);
        assert(mesh.indices@.len() % 3 == 0);
    }
    mesh
}

/// The greedy mesh of a dense volume, and nothing for a volume in which no
/// voxel was ever set.
pub fn greedy_mesh(vox: &Vox3d) -> (r: Option<MeshData>)
    requires
        vox.wf(),
    ensures
        r is Some <==> vox.touched(),
        r is Some ==> is_mesh_of(r.unwrap(), vox) && r.unwrap().wf(),
{
    if vox.is_touched() {
        Some(mesh_volume(vox))
    } else {
        None
    }
}

/// The greedy mesh of the ground under a height map. A map always has
/// ground, so there is always a mesh.
pub fn greedy_mesh_base(vox: &VoxHeightMap) -> (r: Option<MeshData>)
    requires
        vox.wf(),
    ensures
        r is Some,
        is_mesh_of(r.unwrap(), vox),
        r.unwrap().wf(),
{
    Some(mesh_volume(vox))
}

} // verus!
