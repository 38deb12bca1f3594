//! What the greedy mesher makes of a volume filled with one palette id: the
//! six outer faces, one quad each, and nothing inside.

use crate::greedy_meshing::{
    clear_rect, descriptors, extent, face_id, face_mask, in_rect, is_mesh_of, lemma_descriptors_wf,
    lemma_mask_cell, lemma_mask_index, lemma_quads_vertices_len, mask_index, merge_from, pick,
    quads_indices, quads_vertices, row_matches, run_height, run_width, slice_at, slice_quads,
    sweep_quads, volume_quads, volume_quads_upto, voxel_at, Descriptor, Quad,
};
use crate::mesh::MeshData;
use crate::vox::{in_bounds, Vox};
use vstd::prelude::*;

verus! {

/// Whether every cell of the volume holds palette id `id`.
pub open spec fn is_solid<V: Vox>(vox: &V, id: u8) -> bool {
    forall|x: int, y: int, z: int|
        in_bounds(vox.size(), x, y, z) ==> (#[trigger] vox.voxel(x, y, z)) == Some(id)
}

/// Whether the volume has a cell along every axis.
pub open spec fn is_nonempty<V: Vox>(vox: &V) -> bool {
    extent(vox, 0) > 0 && extent(vox, 1) > 0 && extent(vox, 2) > 0
}

/// The quad that covers the whole outer face of a sweep: it lies in the first
/// slice that the sweep visits and spans the slice.
pub open spec fn full_face<V: Vox>(vox: &V, d: Descriptor, id: u8) -> Quad {
    Quad {
        d,
        slice: slice_at(d, extent(vox, d.u), 0) as usize,
        x: 0,
        y: 0,
        width: extent(vox, d.v) as usize,
        height: extent(vox, d.w) as usize,
        color_id: id,
    }
}

/// A mask of `n` cells that all hold `value`.
pub open spec fn uniform_mask(n: int, value: Option<u8>) -> Seq<Option<u8>> {
    Seq::new(n as nat, |i: int| value)
}

/// In a solid volume the first slice of a sweep shows its faces everywhere,
/// and every later slice shows none: its voxels are covered from behind.
pub proof fn lemma_solid_face_mask<V: Vox>(vox: &V, d: Descriptor, slice: int, id: u8)
    requires
        vox.wf(),
        d.wf(),
        is_solid(vox, id),
        0 <= slice < extent(vox, d.u),
    ensures
        face_mask(vox, d, slice) == uniform_mask(
            extent(vox, d.v) * extent(vox, d.w),
            if slice == slice_at(d, extent(vox, d.u), 0) {
                Some(id)
            } else {
                None
            },
        ),
{
    vox.lemma_wf();
    let sv = extent(vox, d.v);
    let sw = extent(vox, d.w);
    let first = slice_at(d, extent(vox, d.u), 0);
    let value = if slice == first {
        Some(id)
    } else {
        None
    };
    let mask = face_mask(vox, d, slice);
    assert forall|i: int| 0 <= i < sv * sw implies (#[trigger] mask[i]) == value by {
        assert(sv > 0) by (nonlinear_arith)
            requires
                0 <= i < sv * sw,
                sv >= 0,
        ;
        lemma_mask_cell(sv, sw, i);
        let b = i % sv;
        let c = i / sv;
        assert(in_bounds(
            vox.size(),
            pick(d, 0, slice, b, c),
            pick(d, 1, slice, b, c),
            pick(d, 2, slice, b, c),
        ));
        assert(voxel_at(vox, d, slice, b, c) == Some(id));
        let back = slice - d.step;
        assert(pick(d, d.u as int, back, b, c) == back);
        if 0 <= back < extent(vox, d.u) {
            assert(in_bounds(
                vox.size(),
                pick(d, 0, back, b, c),
                pick(d, 1, back, b, c),
                pick(d, 2, back, b, c),
            ));
            assert(voxel_at(vox, d, back, b, c) == Some(id));
        } else {
            assert(!in_bounds(
                vox.size(),
                pick(d, 0, back, b, c),
                pick(d, 1, back, b, c),
                pick(d, 2, back, b, c),
            ));
            assert(voxel_at(vox, d, back, b, c) is None);
        }
        assert(mask[i] == face_id(vox, d, slice, b, c));
    }
    assert(face_mask(vox, d, slice) =~= uniform_mask(sv * sw, value));
}

/// A mask without faces yields no quad.
pub proof fn lemma_merge_empty(
    mask: Seq<Option<u8>>,
    sx: int,
    sy: int,
    d: Descriptor,
    slice: int,
    pos: int,
)
    requires
        mask.len() == sx * sy,
        forall|i: int| 0 <= i < mask.len() ==> (#[trigger] mask[i]) is None,
    ensures
        merge_from(mask, sx, sy, d, slice, pos) == Seq::<Quad>::empty(),
    decreases sx * sy - pos,
{
    if !(sx <= 0 || pos < 0 || pos >= sx * sy) {
        lemma_merge_empty(mask, sx, sy, d, slice, pos + 1);
    }
}

/// Where a row holds `id` from column `x` to its end, the run from `x` reaches the end.
pub proof fn lemma_run_width_full(mask: Seq<Option<u8>>, sx: int, x: int, y: int, id: u8)
    requires
        0 <= x <= sx,
        row_matches(mask, sx, x, y, sx - x, id),
    ensures
        run_width(mask, sx, x, y, id) == sx - x,
    decreases sx - x,
{
    if x < sx {
        assert(mask[mask_index(sx, x, y)] == Some(id));
        assert forall|c: int| x + 1 <= c < (x + 1) + (sx - (x + 1)) implies mask[#[trigger] mask_index(
            sx,
            c,
            y,
        )] == Some(id) by {
            assert(x <= c < x + (sx - x));
        }
        lemma_run_width_full(mask, sx, x + 1, y, id);
    }
}

/// Where every row from `y` to the last repeats the span, the rectangle
/// reaches the last row.
pub proof fn lemma_run_height_full(
    mask: Seq<Option<u8>>,
    sx: int,
    sy: int,
    x: int,
    y: int,
    width: int,
    id: u8,
)
    requires
        0 <= y <= sy,
        forall|r: int| y <= r < sy ==> #[trigger] row_matches(mask, sx, x, r, width, id),
    ensures
        run_height(mask, sx, sy, x, y, width, id) == sy - y,
    decreases sy - y,
{
    if y < sy {
        assert(row_matches(mask, sx, x, y, width, id));
        lemma_run_height_full(mask, sx, sy, x, y + 1, width, id);
    }
}

/// A mask that shows the same face everywhere yields one quad that spans it.
pub proof fn lemma_merge_uniform(sx: int, sy: int, d: Descriptor, slice: int, id: u8)
    requires
        0 < sx <= usize::MAX,
        0 < sy <= usize::MAX,
        0 <= slice <= usize::MAX,
    ensures
        merge_from(uniform_mask(sx * sy, Some(id)), sx, sy, d, slice, 0) == seq![
            Quad {
                d,
                slice: slice as usize,
                x: 0,
                y: 0,
                width: sx as usize,
                height: sy as usize,
                color_id: id,
            },
        ],
{
    let mask = uniform_mask(sx * sy, Some(id));
    assert(0 < sx * sy) by (nonlinear_arith)
        requires
            0 < sx,
            0 < sy,
    ;
    lemma_mask_index(sx, sy, 0, 0);
    assert forall|r: int| 0 <= r < sy implies #[trigger] row_matches(mask, sx, 0, r, sx, id) by {
        assert forall|c: int| 0 <= c < 0 + sx implies mask[#[trigger] mask_index(sx, c, r)]
            == Some(id) by {
            lemma_mask_index(sx, sy, c, r);
        }
    }
    assert(row_matches(mask, sx, 0, 0, sx - 0, id));
    lemma_run_width_full(mask, sx, 0, 0, id);
    lemma_run_height_full(mask, sx, sy, 0, 0, sx, id);
    let cleared = clear_rect(mask, sx, 0, 0, sx, sy);
    assert forall|i: int| 0 <= i < cleared.len() implies (#[trigger] cleared[i]) is None by {
        lemma_mask_cell(sx, sy, i);
        assert(in_rect(0, 0, sx, sy, i % sx, i / sx));
    }
    lemma_merge_empty(cleared, sx, sy, d, slice, 1);
    let q = Quad {
        d,
        slice: slice as usize,
        x: 0,
        y: 0,
        width: sx as usize,
        height: sy as usize,
        color_id: id,
    };
    assert(mask[0] == Some(id));
    assert(0int % sx == 0 && 0int / sx == 0);
    assert(q == crate::greedy_meshing::grown_quad(mask, sx, sy, d, slice, 0, 0, id));
    assert(seq![q] + Seq::<Quad>::empty() =~= seq![q]);
    assert(merge_from(mask, sx, sy, d, slice, 0) =~= seq![q]);
}

/// A sweep over a solid volume finds its one quad in the first slice it
/// visits, and nothing in the slices behind it.
pub proof fn lemma_solid_sweep<V: Vox>(vox: &V, d: Descriptor, id: u8, n: int)
    requires
        vox.wf(),
        d.wf(),
        is_solid(vox, id),
        is_nonempty(vox),
        1 <= n <= extent(vox, d.u),
    ensures
        sweep_quads(vox, d, n) == seq![full_face(vox, d, id)],
    decreases n,
{
    let su = extent(vox, d.u);
    let sv = extent(vox, d.v);
    let sw = extent(vox, d.w);
    let slice = slice_at(d, su, n - 1);
    lemma_solid_face_mask(vox, d, slice, id);
    if n == 1 {
        lemma_merge_uniform(sv, sw, d, slice, id);
        assert(sweep_quads(vox, d, 0) == Seq::<Quad>::empty());
        assert(Seq::<Quad>::empty() + slice_quads(vox, d, slice) =~= seq![full_face(vox, d, id)]);
    } else {
        lemma_solid_sweep(vox, d, id, n - 1);
        let mask = face_mask(vox, d, slice);
        lemma_merge_empty(mask, sv, sw, d, slice, 0);
        assert(seq![full_face(vox, d, id)] + slice_quads(vox, d, slice) =~= seq![
            full_face(vox, d, id),
        ]);
    }
}

/// A volume filled with one palette id, of whatever extents, is meshed as its
/// six outer faces: one quad per sweep, spanning the whole face, and no quad
/// between two of its voxels.
pub proof fn lemma_solid_volume_quads<V: Vox>(vox: &V, id: u8)
    requires
        vox.wf(),
        is_solid(vox, id),
        is_nonempty(vox),
    ensures
        volume_quads(vox) == Seq::new(6, |i: int| full_face(vox, descriptors()[i], id)),
        volume_quads(vox).len() == 6,
{
    lemma_descriptors_wf();
    let six = Seq::new(6, |i: int| full_face(vox, descriptors()[i], id));
    assert forall|k: int| 0 <= k <= 6 implies #[trigger] volume_quads_upto(vox, k) == six.take(
        k,
    ) by {
        lemma_solid_prefix(vox, id, k);
    }
    assert(six.take(6) =~= six);
}

/// The first `k` sweeps over a solid volume find the first `k` outer faces.
proof fn lemma_solid_prefix<V: Vox>(vox: &V, id: u8, k: int)
    requires
        vox.wf(),
        is_solid(vox, id),
        is_nonempty(vox),
        0 <= k <= 6,
    ensures
        volume_quads_upto(vox, k) == Seq::new(6, |i: int| full_face(vox, descriptors()[i], id)).take(
            k,
        ),
    decreases k,
{
    lemma_descriptors_wf();
    let six = Seq::new(6, |i: int| full_face(vox, descriptors()[i], id));
    if k == 0 {
        assert(volume_quads_upto(vox, 0) =~= six.take(0));
    } else {
        lemma_solid_prefix(vox, id, k - 1);
        let d = descriptors()[k - 1];
        assert(d.wf());
        lemma_solid_sweep(vox, d, id, extent(vox, d.u));
        assert(six.take(k - 1) + seq![full_face(vox, d, id)] =~= six.take(k));
    }
}

/// A solid cube of edge `s` is meshed as six quads of `s` by `s`, not as the
/// unit faces of its voxels.
pub proof fn lemma_solid_cube_quads<V: Vox>(vox: &V, id: u8, s: usize)
    requires
        vox.wf(),
        is_solid(vox, id),
        s > 0,
        vox.size() == [s, s, s],
    ensures
        volume_quads(vox).len() == 6,
        forall|i: int|
            0 <= i < 6 ==> {
                &&& (#[trigger] volume_quads(vox)[i]).d == descriptors()[i]
                &&& volume_quads(vox)[i].x == 0
                &&& volume_quads(vox)[i].y == 0
                &&& volume_quads(vox)[i].width == s
                &&& volume_quads(vox)[i].height == s
                &&& volume_quads(vox)[i].color_id == id
            },
{
    lemma_descriptors_wf();
    lemma_solid_volume_quads(vox, id);
}

/// The greedy mesh of a solid volume has the twenty-four vertices and twelve
/// triangles of its six outer faces.
pub proof fn lemma_solid_volume_mesh<V: Vox>(vox: &V, id: u8, mesh: MeshData)
    requires
        vox.wf(),
        is_solid(vox, id),
        is_nonempty(vox),
        is_mesh_of(mesh, vox),
    ensures
        mesh.vertices@.len() == 24,
        mesh.indices@.len() == 36,
        mesh.vertices@ == quads_vertices(
            vox,
            Seq::new(6, |i: int| full_face(vox, descriptors()[i], id)),
        ),
        mesh.indices@ == quads_indices(
            Seq::new(6, |i: int| full_face(vox, descriptors()[i], id)),
            0,
        ),
{
    lemma_solid_volume_quads(vox, id);
    lemma_quads_vertices_len(vox, volume_quads(vox));
    crate::greedy_meshing::lemma_quads_indices_valid(volume_quads(vox), 0);
}

} // verus!
