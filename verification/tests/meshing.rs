use xp_vox_engine::greedy_meshing::{greedy_mesh, Descriptor, Mask};
use xp_vox_engine::mesh::MeshData;
use xp_vox_engine::vox::{Vox, VoxError};
use xp_vox_engine::vox3d::Vox3d;

const RED: [u8; 3] = [255, 0, 0];
const BLUE: [u8; 3] = [0, 0, 255];

fn solid(x: usize, y: usize, z: usize, id: u8, color: [u8; 3]) -> Vox3d {
    let mut vox = Vox3d::new(x, y, z);
    for k in 0..z {
        for j in 0..y {
            for i in 0..x {
                vox.set(i, j, k, id, color).unwrap();
            }
        }
    }
    vox
}

fn quad_extents(mesh: &MeshData, quad: usize) -> [usize; 3] {
    let a = mesh.vertices[4 * quad].position;
    let b = mesh.vertices[4 * quad + 1].position;
    [b[0] - a[0], b[1] - a[1], b[2] - a[2]]
}

#[test]
fn untouched_volume_has_no_mesh() {
    let vox = Vox3d::new(4, 4, 4);
    assert!(!vox.is_touched());
    assert!(greedy_mesh(&vox).is_none());
}

#[test]
fn single_voxel_has_six_unit_quads() {
    let mut vox = Vox3d::new(1, 1, 1);
    vox.set(0, 0, 0, 1, RED).unwrap();
    let mesh = greedy_mesh(&vox).unwrap();
    assert_eq!(mesh.quad_count(), 6);
    assert_eq!(mesh.vertices.len(), 24);
    assert_eq!(mesh.indices.len(), 36);
    assert_eq!(mesh.triangle_count(), 12);
    let first = &mesh.vertices[0..4];
    assert_eq!(first[0].position, [0, 0, 0]);
    assert_eq!(first[1].position, [0, 1, 1]);
    assert_eq!(first[2].position, [0, 1, 0]);
    assert_eq!(first[3].position, [0, 0, 1]);
    for v in first {
        assert_eq!(v.normal, [-1, 0, 0]);
        assert_eq!(v.color, RED);
    }
    assert_eq!(&mesh.indices[0..6], &[0, 1, 2, 0, 3, 1]);
    let second = &mesh.vertices[4..8];
    assert_eq!(second[0].position, [1, 0, 0]);
    assert_eq!(second[1].position, [1, 1, 1]);
    assert_eq!(second[0].normal, [1, 0, 0]);
    assert_eq!(&mesh.indices[6..12], &[4, 6, 5, 4, 5, 7]);
}

#[test]
fn solid_cube_has_six_full_faces() {
    let s = 5;
    let vox = solid(s, s, s, 9, BLUE);
    let mesh = greedy_mesh(&vox).unwrap();
    assert_eq!(mesh.quad_count(), 6);
    assert_eq!(quad_extents(&mesh, 0), [0, s, s]);
    assert_eq!(quad_extents(&mesh, 1), [0, s, s]);
    assert_eq!(quad_extents(&mesh, 2), [s, 0, s]);
    assert_eq!(quad_extents(&mesh, 3), [s, 0, s]);
    assert_eq!(quad_extents(&mesh, 4), [s, s, 0]);
    assert_eq!(quad_extents(&mesh, 5), [s, s, 0]);
    assert_eq!(mesh.vertices[0].position, [0, 0, 0]);
    assert_eq!(mesh.vertices[4].position, [s, 0, 0]);
    assert_eq!(mesh.vertices[8].position, [0, 0, 0]);
    assert_eq!(mesh.vertices[12].position, [0, s, 0]);
    assert_eq!(mesh.vertices[16].position, [0, 0, 0]);
    assert_eq!(mesh.vertices[20].position, [0, 0, s]);
    for v in &mesh.vertices {
        assert_eq!(v.color, BLUE);
    }
}

#[test]
fn solid_box_of_any_extents_has_no_inner_faces() {
    for (x, y, z) in [(1, 1, 1), (2, 3, 4), (7, 1, 2), (3, 3, 1), (6, 5, 4)] {
        let vox = solid(x, y, z, 3, RED);
        let mesh = greedy_mesh(&vox).unwrap();
        assert_eq!(mesh.quad_count(), 6);
        assert_eq!(quad_extents(&mesh, 0), [0, y, z]);
        assert_eq!(quad_extents(&mesh, 2), [x, 0, z]);
        assert_eq!(quad_extents(&mesh, 4), [x, y, 0]);
    }
}

#[test]
fn two_diagonal_voxels_have_twelve_quads() {
    let mut vox = Vox3d::new(2, 1, 2);
    vox.set(0, 0, 0, 5, RED).unwrap();
    vox.set(1, 0, 1, 5, RED).unwrap();
    let mesh = greedy_mesh(&vox).unwrap();
    assert_eq!(mesh.quad_count(), 12);
    assert_eq!(mesh.vertices.len(), 48);
    assert_eq!(mesh.indices.len(), 72);
    for q in 0..12 {
        let e = quad_extents(&mesh, q);
        assert_eq!(e[0] + e[1] + e[2], 2);
        assert!(e.iter().all(|&d| d <= 1));
    }
    for v in &mesh.vertices {
        assert_eq!(v.color, RED);
    }
}

#[test]
fn two_colours_are_not_merged() {
    let mut vox = Vox3d::new(2, 1, 1);
    vox.set(0, 0, 0, 1, RED).unwrap();
    vox.set(1, 0, 0, 2, BLUE).unwrap();
    let mesh = greedy_mesh(&vox).unwrap();
    // Two faces between the voxels, two ends, and four sides of two quads each.
    assert_eq!(mesh.quad_count(), 12);
}

#[test]
fn two_voxels_of_one_colour_are_merged() {
    let mut vox = Vox3d::new(2, 1, 1);
    vox.set(0, 0, 0, 1, RED).unwrap();
    vox.set(1, 0, 0, 1, RED).unwrap();
    let mesh = greedy_mesh(&vox).unwrap();
    assert_eq!(mesh.quad_count(), 6);
}

#[test]
fn mesh_indices_point_at_vertices() {
    let mut vox = Vox3d::new(3, 3, 3);
    vox.set(0, 0, 0, 1, RED).unwrap();
    vox.set(1, 1, 1, 2, BLUE).unwrap();
    vox.set(2, 1, 1, 2, BLUE).unwrap();
    vox.set(2, 2, 2, 1, RED).unwrap();
    let mesh = greedy_mesh(&vox).unwrap();
    assert_eq!(mesh.indices.len() % 3, 0);
    assert_eq!(mesh.indices.len(), mesh.quad_count() * 6);
    assert!(mesh.indices.iter().all(|&i| i < mesh.vertices.len()));
    assert_eq!(mesh.quad_count(), 6 + 6 + 6);
}

#[test]
fn volume_set_and_get() {
    let mut vox = Vox3d::new(2, 3, 4);
    assert_eq!(vox.get_size(), [2, 3, 4]);
    assert_eq!(vox.get(1, 2, 3), None);
    assert_eq!(vox.set(1, 2, 3, 7, RED), Ok(()));
    assert!(vox.is_touched());
    assert_eq!(vox.get(1, 2, 3), Some(7));
    assert_eq!(vox.get(0, 2, 3), None);
    assert_eq!(vox.get(2, 2, 3), None);
    assert_eq!(vox.get(1, 3, 3), None);
    assert_eq!(vox.get(1, 2, 4), None);
    assert_eq!(vox.get_color(7), Ok(RED));
    assert_eq!(vox.set(0, 0, 0, 7, BLUE), Ok(()));
    assert_eq!(vox.get_color(7), Ok(BLUE));
    assert_eq!(vox.get_y_min_offset(), 0);
    assert_eq!(vox.get_y_max_offset(), 3);
}

#[test]
fn volume_refuses_positions_outside() {
    let mut vox = Vox3d::new(2, 3, 4);
    assert_eq!(vox.set(2, 0, 0, 1, RED), Err(VoxError::IndexOutOfRange));
    assert_eq!(vox.set(0, 3, 0, 1, RED), Err(VoxError::IndexOutOfRange));
    assert_eq!(vox.set(0, 0, 4, 1, RED), Err(VoxError::IndexOutOfRange));
    assert!(!vox.is_touched());
    assert_eq!(vox.get_color(1), Err(VoxError::Lookup));
    assert!(greedy_mesh(&vox).is_none());
}

#[test]
fn mask_set_and_get() {
    let mut mask = Mask::new(3, 2);
    assert_eq!(mask.get(2, 1), None);
    mask.set(2, 1, Some(4));
    assert_eq!(mask.get(2, 1), Some(4));
    assert_eq!(mask.get(1, 1), None);
    assert_eq!(mask.get(2, 0), None);
    mask.set(2, 1, None);
    assert_eq!(mask.get(2, 1), None);
}

#[test]
fn descriptor_keeps_its_fields() {
    let d = Descriptor::new(1, 2, 0, -1, [0, -1, 0], [1, 0, 0]);
    assert_eq!((d.u, d.v, d.w), (1, 2, 0));
    assert_eq!(d.step, -1);
    assert_eq!(d.normal, [0, -1, 0]);
    assert_eq!(d.q, [1, 0, 0]);
}

fn visible_faces(vox: &Vox3d) -> usize {
    let [sx, sy, sz] = vox.get_size();
    let at = |x: i64, y: i64, z: i64| -> Option<u8> {
        if x < 0 || y < 0 || z < 0 {
            None
        } else {
            vox.get(x as usize, y as usize, z as usize)
        }
    };
    let mut faces = 0;
    for z in 0..sz as i64 {
        for y in 0..sy as i64 {
            for x in 0..sx as i64 {
                if let Some(id) = at(x, y, z) {
                    for (dx, dy, dz) in
                        [(1, 0, 0), (-1, 0, 0), (0, 1, 0), (0, -1, 0), (0, 0, 1), (0, 0, -1)]
                    {
                        if at(x + dx, y + dy, z + dz) != Some(id) {
                            faces += 1;
                        }
                    }
                }
            }
        }
    }
    faces
}

fn quad_area(mesh: &MeshData, quad: usize) -> usize {
    let e = quad_extents(mesh, quad);
    let mut area = 1;
    for d in e {
        if d != 0 {
            area *= d;
        }
    }
    area
}

#[test]
fn quads_tile_the_visible_faces() {
    let mut vox = Vox3d::new(5, 4, 3);
    let mut seed: u32 = 12345;
    for z in 0..3 {
        for y in 0..4 {
            for x in 0..5 {
                seed = seed.wrapping_mul(1664525).wrapping_add(1013904223);
                let pick = (seed >> 24) % 4;
                if pick != 0 {
                    vox.set(x, y, z, pick as u8, [pick as u8, 0, 0]).unwrap();
                }
            }
        }
    }
    let mesh = greedy_mesh(&vox).unwrap();
    let area: usize = (0..mesh.quad_count()).map(|q| quad_area(&mesh, q)).sum();
    assert_eq!(area, visible_faces(&vox));
    assert!(mesh.quad_count() <= area);
    for q in 0..mesh.quad_count() {
        let e = quad_extents(&mesh, q);
        assert_eq!(e.iter().filter(|&&d| d == 0).count(), 1);
        let first = mesh.vertices[4 * q];
        for v in &mesh.vertices[4 * q..4 * q + 4] {
            assert_eq!(v.color, first.color);
            assert_eq!(v.normal, first.normal);
        }
    }
}

#[test]
fn rectangle_grows_wide_before_high() {
    // Seen against the x axis, the faces of this slab form an L: the sweep
    // takes the full first row, then what is left of the second.
    let mut vox = Vox3d::new(1, 3, 2);
    vox.set(0, 0, 0, 1, RED).unwrap();
    vox.set(0, 1, 0, 1, RED).unwrap();
    vox.set(0, 2, 0, 1, RED).unwrap();
    vox.set(0, 0, 1, 1, RED).unwrap();
    let mesh = greedy_mesh(&vox).unwrap();
    assert_eq!(quad_extents(&mesh, 0), [0, 3, 1]);
    assert_eq!(mesh.vertices[0].position, [0, 0, 0]);
    assert_eq!(quad_extents(&mesh, 1), [0, 1, 1]);
    assert_eq!(mesh.vertices[4].position, [0, 0, 1]);
    assert_eq!(mesh.vertices[8].normal, [1, 0, 0]);
}
