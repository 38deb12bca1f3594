//! The quads of a slice tile its faces: every face lies in exactly one quad,
//! and a quad holds nothing but faces of its own palette id.

use crate::greedy_meshing::{
    clear_rect, extent, face_id, face_mask, grown_quad, in_rect, lemma_mask_cell,
    lemma_mask_index, lemma_run_width_matches, mask_index, merge_from, row_matches, run_height,
    run_width, slice_quads, Descriptor, Quad,
};
use crate::vox::Vox;
use vstd::prelude::*;

verus! {

/// Whether quad `q` holds cell `(x, y)` of its slice.
pub open spec fn covers(q: Quad, x: int, y: int) -> bool {
    in_rect(q.x as int, q.y as int, q.width as int, q.height as int, x, y)
}

/// Whether quad `q` is a rectangle of at least one cell inside a grid of
/// `sx` by `sy` cells.
pub open spec fn inside(q: Quad, sx: int, sy: int) -> bool {
    &&& 1 <= q.width
    &&& 1 <= q.height
    &&& q.x + q.width <= sx
    &&& q.y + q.height <= sy
}

/// Whether `quads` tile the faces of `mask`: the quads lie in the grid, the
/// cells of a quad all show a face of the quad's palette id, no cell lies in
/// two quads, and every cell that shows a face lies in a quad.
pub open spec fn tiles(mask: Seq<Option<u8>>, sx: int, sy: int, quads: Seq<Quad>) -> bool {
    &&& forall|i: int| 0 <= i < quads.len() ==> inside(#[trigger] quads[i], sx, sy)
    &&& forall|i: int, x: int, y: int|
        0 <= i < quads.len() && #[trigger] covers(quads[i], x, y) ==> mask[mask_index(sx, x, y)]
            == Some(quads[i].color_id)
    &&& forall|i: int, j: int, x: int, y: int|
        0 <= i < j < quads.len() && #[trigger] covers(quads[i], x, y) ==> !#[trigger] covers(
            quads[j],
            x,
            y,
        )
    &&& forall|x: int, y: int|
        0 <= x < sx && 0 <= y < sy && mask[#[trigger] mask_index(sx, x, y)] is Some ==> exists|
            i: int,
        |
            0 <= i < quads.len() && #[trigger] covers(quads[i], x, y)
}

/// The rows that a rectangle grows over all repeat its span, and the
/// rectangle ends inside the grid.
pub proof fn lemma_run_height_matches(
    mask: Seq<Option<u8>>,
    sx: int,
    sy: int,
    x: int,
    y: int,
    width: int,
    id: u8,
)
    requires
        0 <= y <= sy,
    ensures
        0 <= run_height(mask, sx, sy, x, y, width, id) <= sy - y,
        forall|r: int|
            y <= r < y + run_height(mask, sx, sy, x, y, width, id) ==> #[trigger] row_matches(
                mask,
                sx,
                x,
                r,
                width,
                id,
            ),
    decreases sy - y,
{
    if 0 <= y < sy && row_matches(mask, sx, x, y, width, id) {
        lemma_run_height_matches(mask, sx, sy, x, y + 1, width, id);
    }
}

/// The rectangle grown at a face holds that face, lies in the grid, and all
/// its cells show faces of its palette id.
pub proof fn lemma_grown_quad(
    mask: Seq<Option<u8>>,
    sx: int,
    sy: int,
    d: Descriptor,
    slice: int,
    x: int,
    y: int,
    id: u8,
)
    requires
        0 <= x < sx <= usize::MAX,
        0 <= y < sy <= usize::MAX,
        mask[mask_index(sx, x, y)] == Some(id),
    ensures
        inside(grown_quad(mask, sx, sy, d, slice, x, y, id), sx, sy),
        grown_quad(mask, sx, sy, d, slice, x, y, id).x == x,
        grown_quad(mask, sx, sy, d, slice, x, y, id).y == y,
        grown_quad(mask, sx, sy, d, slice, x, y, id).color_id == id,
        covers(grown_quad(mask, sx, sy, d, slice, x, y, id), x, y),
        forall|a: int, b: int| #[trigger]
            covers(grown_quad(mask, sx, sy, d, slice, x, y, id), a, b) ==> mask[mask_index(
                sx,
                a,
                b,
            )] == Some(id),
{
    let width = run_width(mask, sx, x, y, id);
    lemma_run_width_matches(mask, sx, x, y, id);
    lemma_run_width_matches(mask, sx, x + 1, y, id);
    let height = run_height(mask, sx, sy, x, y, width, id);
    lemma_run_height_matches(mask, sx, sy, x, y, width, id);
    lemma_run_height_matches(mask, sx, sy, x, y + 1, width, id);
    let q = grown_quad(mask, sx, sy, d, slice, x, y, id);
    assert forall|a: int, b: int| #[trigger] covers(q, a, b) implies mask[mask_index(sx, a, b)]
        == Some(id) by {
        assert(row_matches(mask, sx, x, b, width, id));
    }
}

/// A sweep of a mask from a position before which the mask is empty yields
/// quads that tile the faces of the mask.
pub proof fn lemma_merge_tiles(
    mask: Seq<Option<u8>>,
    sx: int,
    sy: int,
    d: Descriptor,
    slice: int,
    pos: int,
)
    requires
        0 < sx <= usize::MAX,
        0 <= sy <= usize::MAX,
        0 <= pos <= sx * sy,
        mask.len() == sx * sy,
        forall|i: int| 0 <= i < pos ==> (#[trigger] mask[i]) is None,
    ensures
        tiles(mask, sx, sy, merge_from(mask, sx, sy, d, slice, pos)),
    decreases sx * sy - pos,
{
    let quads = merge_from(mask, sx, sy, d, slice, pos);
    if pos >= sx * sy {
        assert forall|x: int, y: int| 0 <= x < sx && 0 <= y < sy implies !(mask[#[trigger] mask_index(
            sx,
            x,
            y,
        )] is Some) by {
            lemma_mask_index(sx, sy, x, y);
        }
    } else {
        match mask[pos] {
            None => {
                lemma_merge_tiles(mask, sx, sy, d, slice, pos + 1);
            },
            Some(id) => {
                lemma_mask_cell(sx, sy, pos);
                let x = pos % sx;
                let y = pos / sx;
                let q = grown_quad(mask, sx, sy, d, slice, x, y, id);
                lemma_grown_quad(mask, sx, sy, d, slice, x, y, id);
                let cleared = clear_rect(
                    mask,
                    sx,
                    q.x as int,
                    q.y as int,
                    q.width as int,
                    q.height as int,
                );
                let rest = merge_from(cleared, sx, sy, d, slice, pos + 1);
                assert(quads == seq![q] + rest);
                assert forall|i: int| 0 <= i < pos + 1 implies (#[trigger] cleared[i]) is None by {
                    if i == pos {
                        assert(covers(q, x, y));
                    }
                }
                lemma_merge_tiles(cleared, sx, sy, d, slice, pos + 1);
                assert forall|a: int, b: int| 0 <= a < sx && 0 <= b < sy implies #[trigger] cleared[mask_index(
                    sx,
                    a,
                    b,
                )] == (if covers(q, a, b) {
                    None
                } else {
                    mask[mask_index(sx, a, b)]
                }) by {
                    lemma_mask_index(sx, sy, a, b);
                }
                assert forall|i: int| 0 <= i < quads.len() implies inside(
                    #[trigger] quads[i],
                    sx,
                    sy,
                ) by {
                    if i > 0 {
                        assert(quads[i] == rest[i - 1]);
                    }
                }
                assert forall|i: int, a: int, b: int|
                    0 <= i < quads.len() && #[trigger] covers(quads[i], a, b) implies mask[mask_index(
                    sx,
                    a,
                    b,
                )] == Some(quads[i].color_id) by {
                    if i > 0 {
                        assert(quads[i] == rest[i - 1]);
                        assert(inside(rest[i - 1], sx, sy));
                        assert(covers(rest[i - 1], a, b));
                        assert(cleared[mask_index(sx, a, b)] == Some(rest[i - 1].color_id));
                    }
                }
                assert forall|i: int, j: int, a: int, b: int|
                    0 <= i < j < quads.len() && #[trigger] covers(
                        quads[i],
                        a,
                        b,
                    ) implies !#[trigger] covers(quads[j], a, b) by {
                    assert(quads[j] == rest[j - 1]);
                    if covers(quads[j], a, b) {
                        assert(inside(rest[j - 1], sx, sy));
                        assert(covers(rest[j - 1], a, b));
                        assert(cleared[mask_index(sx, a, b)] == Some(rest[j - 1].color_id));
                        if i > 0 {
                            assert(quads[i] == rest[i - 1]);
                            assert(covers(rest[i - 1], a, b));
                        }
                    }
                }
                assert forall|a: int, b: int|
                    0 <= a < sx && 0 <= b < sy && mask[#[trigger] mask_index(
                        sx,
                        a,
                        b,
                    )] is Some implies exists|i: int|
                    0 <= i < quads.len() && #[trigger] covers(quads[i], a, b) by {
                    if covers(q, a, b) {
                        assert(covers(quads[0], a, b));
                    } else {
                        assert(cleared[mask_index(sx, a, b)] is Some);
                        let i = choose|i: int| 0 <= i < rest.len() && #[trigger] covers(rest[i], a, b);
                        assert(quads[i + 1] == rest[i]);
                        assert(covers(quads[i + 1], a, b));
                    }
                }
            },
        }
    }
}

/// The quads of a slice tile its faces. So every face that the slice shows
/// lies in exactly one quad, in a quad of its own palette id; and a face
/// between two voxels of one palette id, which the slice does not show, lies
/// in no quad.
pub proof fn lemma_slice_quads_tile_faces<V: Vox>(vox: &V, d: Descriptor, slice: int)
    ensures
        tiles(
            face_mask(vox, d, slice),
            extent(vox, d.v),
            extent(vox, d.w),
            slice_quads(vox, d, slice),
        ),
        forall|i: int, b: int, c: int|
            0 <= i < slice_quads(vox, d, slice).len() && #[trigger] covers(
                slice_quads(vox, d, slice)[i],
                b,
                c,
            ) ==> face_id(vox, d, slice, b, c) == Some(slice_quads(vox, d, slice)[i].color_id),
        forall|b: int, c: int|
            0 <= b < extent(vox, d.v) && 0 <= c < extent(vox, d.w) && (#[trigger] face_id(
                vox,
                d,
                slice,
                b,
                c,
            )) is Some ==> exists|i: int|
                0 <= i < slice_quads(vox, d, slice).len() && #[trigger] covers(
                    slice_quads(vox, d, slice)[i],
                    b,
                    c,
                ),
{
    let sv = extent(vox, d.v);
    let sw = extent(vox, d.w);
    let mask = face_mask(vox, d, slice);
    let quads = slice_quads(vox, d, slice);
    if sv > 0 {
        assert(0 <= sv * sw) by (nonlinear_arith)
            requires
                sv > 0,
                sw >= 0,
        ;
        lemma_merge_tiles(mask, sv, sw, d, slice, 0);
        assert forall|i: int, b: int, c: int|
            0 <= i < quads.len() && #[trigger] covers(quads[i], b, c) implies face_id(
            vox,
            d,
            slice,
            b,
            c,
        ) == Some(quads[i].color_id) by {
            assert(inside(quads[i], sv, sw));
            lemma_mask_index(sv, sw, b, c);
        }
        assert forall|b: int, c: int|
            0 <= b < sv && 0 <= c < sw && (#[trigger] face_id(
                vox,
                d,
                slice,
                b,
                c,
            )) is Some implies exists|i: int|
            0 <= i < quads.len() && #[trigger] covers(quads[i], b, c) by {
            lemma_mask_index(sv, sw, b, c);
            assert(mask[mask_index(sv, b, c)] is Some);
        }
    }
}

} // verus!
