use xp_vox_engine::asset::{Reply, Worker};
use xp_vox_engine::chunker::{
    axis_segments, chunk_number_and_offset, generate_ground_chunk, overlay, Chunker, Placement,
    Segment,
};
use xp_vox_engine::greedy_meshing::{greedy_mesh, greedy_mesh_base};
use xp_vox_engine::registry::{Handle, Registry};
use xp_vox_engine::vox::{Vox, VoxError};
use xp_vox_engine::vox3d::{load_vox, palette_to_color, Model, Size, Vox3d, VoxData, Voxel};
use xp_vox_engine::voxheightmap::VoxHeightMap;

const RED: [u8; 3] = [255, 0, 0];

fn sample() -> VoxData {
    VoxData {
        models: vec![Model {
            size: Size { x: 2, y: 3, z: 4 },
            voxels: vec![
                Voxel { x: 0, y: 0, z: 0, i: 1 },
                Voxel { x: 1, y: 2, z: 3, i: 2 },
                Voxel { x: 1, y: 0, z: 1, i: 1 },
            ],
        }],
        palette: vec![0xff00_0000, 0xff03_0201, 0x00ff_80c0],
    }
}

#[test]
fn palette_colour_is_unpacked() {
    assert_eq!(palette_to_color(0xff03_0201), [1, 2, 3]);
    assert_eq!(palette_to_color(0x0000_00ff), [255, 0, 0]);
    assert_eq!(palette_to_color(0x00ff_0000), [0, 0, 255]);
    assert_eq!(palette_to_color(0xffff_ffff), [255, 255, 255]);
    assert_eq!(palette_to_color(0), [0, 0, 0]);
}

#[test]
fn model_is_loaded_with_height_along_y() {
    let mut registry = Registry::new();
    let handle = load_vox(&sample(), &mut registry).unwrap();
    assert_eq!(handle, Handle { index: 0 });
    assert_eq!(registry.len(), 1);
    let vox = registry.get(&handle).unwrap();
    assert_eq!(vox.get_size(), [2, 4, 3]);
    assert_eq!(vox.get(0, 0, 0), Some(1));
    assert_eq!(vox.get(1, 3, 2), Some(2));
    assert_eq!(vox.get(1, 1, 0), Some(1));
    assert_eq!(vox.get(1, 2, 3), None);
    assert_eq!(vox.get(0, 1, 0), None);
    assert_eq!(vox.get_color(1), Ok([1, 2, 3]));
    assert_eq!(vox.get_color(2), Ok([0xc0, 0x80, 0xff]));
    assert_eq!(vox.get_color(0), Err(VoxError::Lookup));
    assert!(vox.is_touched());
    let second = load_vox(&sample(), &mut registry).unwrap();
    assert_eq!(second, Handle { index: 1 });
    assert!(registry.get(&Handle { index: 2 }).is_none());
}

#[test]
fn model_that_cannot_be_loaded_is_refused() {
    let mut registry: Registry<Vox3d> = Registry::new();
    let none = VoxData { models: vec![], palette: vec![0] };
    assert_eq!(load_vox(&none, &mut registry), Err(VoxError::IndexOutOfRange));
    let mut flat = sample();
    flat.models[0].size.y = 0;
    assert_eq!(load_vox(&flat, &mut registry), Err(VoxError::IndexOutOfRange));
    let mut outside = sample();
    outside.models[0].voxels.push(Voxel { x: 2, y: 0, z: 0, i: 0 });
    assert_eq!(load_vox(&outside, &mut registry), Err(VoxError::IndexOutOfRange));
    let mut colourless = sample();
    colourless.models[0].voxels.push(Voxel { x: 0, y: 0, z: 0, i: 3 });
    assert_eq!(load_vox(&colourless, &mut registry), Err(VoxError::Lookup));
    let mut both = sample();
    both.models[0].voxels.insert(0, Voxel { x: 9, y: 9, z: 9, i: 9 });
    assert_eq!(load_vox(&both, &mut registry), Err(VoxError::Lookup));
    assert_eq!(registry.len(), 0);
}

#[test]
fn chunk_number_and_offset_round_down() {
    assert_eq!(chunk_number_and_offset(0, 32), (0, 0));
    assert_eq!(chunk_number_and_offset(31, 32), (0, 31));
    assert_eq!(chunk_number_and_offset(32, 32), (1, 0));
    assert_eq!(chunk_number_and_offset(100, 32), (3, 4));
    assert_eq!(chunk_number_and_offset(-1, 32), (-1, 31));
    assert_eq!(chunk_number_and_offset(-32, 32), (-1, 0));
    assert_eq!(chunk_number_and_offset(-33, 32), (-2, 31));
    assert_eq!(chunk_number_and_offset(-34, 32), (-2, 30));
    assert_eq!(chunk_number_and_offset(i32::MIN, 1), (i32::MIN, 0));
    assert_eq!(chunk_number_and_offset(i32::MAX, usize::MAX), (0, i32::MAX as usize));
}

#[test]
fn model_is_cut_along_the_chunks() {
    assert_eq!(axis_segments(5, 0, 32), vec![]);
    assert_eq!(
        axis_segments(0, 32, 32),
        vec![Segment { number: 0, source_offset: 0, target_offset: 0, size: 32 }]
    );
    assert_eq!(
        axis_segments(30, 40, 32),
        vec![
            Segment { number: 0, source_offset: 0, target_offset: 30, size: 2 },
            Segment { number: 1, source_offset: 2, target_offset: 0, size: 32 },
            Segment { number: 2, source_offset: 34, target_offset: 0, size: 6 },
        ]
    );
    assert_eq!(
        axis_segments(-3, 5, 4),
        vec![
            Segment { number: -1, source_offset: 0, target_offset: 1, size: 3 },
            Segment { number: 0, source_offset: 3, target_offset: 0, size: 2 },
        ]
    );
    assert_eq!(
        axis_segments(i32::MAX, 1, 1),
        vec![Segment { number: i32::MAX, source_offset: 0, target_offset: 0, size: 1 }]
    );
}

fn model(x: usize, y: usize, z: usize) -> Vox3d {
    let mut vox = Vox3d::new(x, y, z);
    for k in 0..z {
        for j in 0..y {
            for i in 0..x {
                vox.set(i, j, k, ((i + j + k) % 3) as u8, [i as u8, j as u8, k as u8]).unwrap();
            }
        }
    }
    vox
}

#[test]
fn placed_model_reaches_the_chunks_it_meets() {
    let mut registry = Registry::new();
    let handle = registry.add(model(5, 2, 3));
    let mut chunker = Chunker::new(4);
    assert_eq!(chunker.get_chunk_size(), 4);
    assert_eq!(chunker.get_placement((0, 0, 0)), None);
    chunker.add(handle, [2, 0, -1], &registry);
    assert_eq!(
        chunker.get_placement((0, 0, -1)),
        Some(Placement {
            entity: 0,
            source_offset: [0, 0, 0],
            target_offset: [2, 0, 3],
            size: [2, 2, 1],
        })
    );
    assert_eq!(
        chunker.get_placement((1, 0, 0)),
        Some(Placement {
            entity: 0,
            source_offset: [2, 0, 1],
            target_offset: [0, 0, 0],
            size: [3, 2, 2],
        })
    );
    assert_eq!(chunker.get_placement((2, 0, 0)), None);
    assert_eq!(chunker.get_placement((0, 1, 0)), None);
    assert_eq!(chunker.get_placement((0, 0, -2)), None);
    // A model placed later takes the chunks that it meets.
    let small = registry.add(model(1, 1, 1));
    chunker.add(small, [4, 0, 0], &registry);
    assert_eq!(
        chunker.get_placement((1, 0, 0)),
        Some(Placement {
            entity: 1,
            source_offset: [0, 0, 0],
            target_offset: [0, 0, 0],
            size: [1, 1, 1],
        })
    );
    assert_eq!(chunker.get_placement((0, 0, 0)).unwrap().entity, 0);
}

#[test]
fn overlay_copies_the_voxels_of_the_model() {
    let source = model(5, 2, 3);
    let mut target = Vox3d::new(4, 4, 4);
    target.set(0, 0, 0, 9, RED).unwrap();
    target.set(3, 1, 3, 9, RED).unwrap();
    let placement = Placement {
        entity: 0,
        source_offset: [0, 0, 0],
        target_offset: [2, 0, 3],
        size: [2, 2, 1],
    };
    overlay(&mut target, &source, &placement);
    assert_eq!(target.get(0, 0, 0), Some(9));
    assert_eq!(target.get(2, 0, 3), Some(0));
    assert_eq!(target.get(3, 0, 3), Some(1));
    assert_eq!(target.get(2, 1, 3), Some(1));
    assert_eq!(target.get(3, 1, 3), Some(2));
    assert_eq!(target.get(1, 0, 3), None);
    assert_eq!(target.get(2, 2, 3), None);
    assert_eq!(target.get(2, 0, 2), None);
    assert_eq!(target.get_color(9), Ok(RED));
    assert!(target.get_color(0).is_ok());
    assert!(target.get_color(1).is_ok());
    assert!(target.get_color(2).is_ok());
    assert_eq!(target.get_color(3), Err(VoxError::Lookup));
}

#[test]
fn chunk_is_built_from_ground_and_model() {
    let mut registry = Registry::new();
    let mut solid = Vox3d::new(2, 2, 2);
    for k in 0..2 {
        for j in 0..2 {
            for i in 0..2 {
                solid.set(i, j, k, 4, RED).unwrap();
            }
        }
    }
    let handle = registry.add(solid);
    let mut chunker = Chunker::new(4);
    chunker.add(handle, [1, 1, 1], &registry);
    let mut ground = Vox3d::new(4, 4, 4);
    let (mesh, origin) = chunker.generate_chunk(&registry, (0, 0, 0), &mut ground);
    assert_eq!(origin, [0, 0, 0]);
    assert_eq!(mesh.unwrap().quad_count(), 6);
    assert_eq!(ground.get(1, 1, 1), Some(4));
    assert_eq!(ground.get(2, 2, 2), Some(4));
    assert_eq!(ground.get(0, 0, 0), None);
    assert_eq!(ground.get(3, 3, 3), None);
    let mut empty = Vox3d::new(4, 4, 4);
    let (mesh, origin) = chunker.generate_chunk(&registry, (-3, 2, 1), &mut empty);
    assert!(mesh.is_none());
    assert_eq!(origin, [-12, 8, 4]);
    assert!(!empty.is_touched());
}

#[test]
fn height_map_is_a_volume_of_columns() {
    let mut map = VoxHeightMap::new(2, 2);
    assert_eq!(map.y_min_voxel(), i32::MAX);
    assert_eq!(map.y_max_voxel(), i32::MIN);
    assert_eq!(map.set(0, 0, -2), Ok(()));
    assert_eq!(map.set(1, 0, 1), Ok(()));
    assert_eq!(map.set(0, 1, 3), Ok(()));
    assert_eq!(map.set(1, 1, -1), Ok(()));
    assert_eq!(map.set(2, 0, 0), Err(VoxError::IndexOutOfRange));
    assert_eq!(map.set(0, 2, 0), Err(VoxError::IndexOutOfRange));
    assert_eq!(map.y_min_voxel(), -2);
    assert_eq!(map.y_max_voxel(), 3);
    assert_eq!(map.get_y_min_offset(), -2);
    assert_eq!(map.get_y_max_offset(), 4);
    assert_eq!(map.get_size(), [2, 32, 2]);
    // Level -2 is row 0 of the volume.
    assert_eq!(map.get(0, 0, 0), Some(0));
    assert_eq!(map.get(0, 1, 0), None);
    assert_eq!(map.get(1, 0, 0), Some(0));
    assert_eq!(map.get(1, 2, 0), Some(0));
    assert_eq!(map.get(1, 3, 0), Some(2));
    assert_eq!(map.get(1, 4, 0), None);
    assert_eq!(map.get(0, 5, 1), Some(2));
    assert_eq!(map.get(0, 6, 1), None);
    assert_eq!(map.get(0, 32, 1), None);
    assert_eq!(map.get(2, 0, 0), None);
    assert_eq!(map.get_color(0), Ok([0x7d, 0x44, 0x27]));
    assert_eq!(map.get_color(1), Ok([0x48, 0x6b, 0x00]));
    assert_eq!(map.get_color(2), Ok([0x2e, 0x46, 0x00]));
    assert_eq!(map.get_color(3), Ok([0xa2, 0xc5, 0x23]));
    assert_eq!(map.get_color(4), Err(VoxError::Lookup));
}

#[test]
fn flat_ground_is_meshed_as_a_slab() {
    let mut map = VoxHeightMap::new(3, 2);
    for z in 0..2 {
        for x in 0..3 {
            map.set(x, z, 0).unwrap();
        }
    }
    let mesh = greedy_mesh_base(&map).unwrap();
    assert_eq!(mesh.quad_count(), 6);
    assert_eq!(mesh.vertices[0].color, [0x7d, 0x44, 0x27]);
    let untouched = VoxHeightMap::new(3, 2);
    let mesh = greedy_mesh_base(&untouched).unwrap();
    assert_eq!(mesh.quad_count(), 0);
}

#[test]
fn ground_chunk_has_vegetation_and_ground() {
    let mut map = VoxHeightMap::new(2, 2);
    map.set(0, 0, -3).unwrap();
    map.set(1, 0, 5).unwrap();
    map.set(0, 1, 0).unwrap();
    map.set(1, 1, 0).unwrap();
    let meshes = generate_ground_chunk([2, -1], &map);
    assert_eq!(meshes.len(), 2);
    assert_eq!(meshes[0].1, [64, 6, -32]);
    assert_eq!(meshes[1].1, [64, -3, -32]);
    let vegetation = meshes[0].0.as_ref().unwrap();
    assert_eq!(vegetation.quad_count(), 6);
    assert_eq!(vegetation.vertices[0].color, RED);
    let ground = meshes[1].0.as_ref().unwrap();
    let mut single = Vox3d::new(1, 1, 1);
    single.set(0, 0, 0, 1, RED).unwrap();
    assert_eq!(greedy_mesh(&single).unwrap().vertices, vegetation.vertices);
    assert!(ground.quad_count() > 6);
    assert!(ground.indices.iter().all(|&i| i < ground.vertices.len()));
}

#[test]
fn worker_places_a_model_and_builds_its_chunks() {
    let mut worker = Worker::new(32);
    assert_eq!(worker.get_chunk_size(), 32);
    let mut empty = Vox3d::new(32, 32, 32);
    assert!(worker.load((0, 0, 0), &mut empty).is_none());
    let data = VoxData {
        models: vec![Model {
            size: Size { x: 2, y: 2, z: 2 },
            voxels: vec![Voxel { x: 1, y: 1, z: 1, i: 0 }],
        }],
        palette: vec![0x0000_ff00],
    };
    assert_eq!(worker.load_vox(&data), Ok(Handle { index: 0 }));
    // The model stands at 0, 128 and 256 voxels along x and z: in the chunks 0, 4 and 8.
    for (chunk, there) in [
        ((0, 0, 0), true),
        ((4, 0, 0), true),
        ((8, 0, 4), true),
        ((8, 0, 8), true),
        ((1, 0, 0), false),
        ((0, 1, 0), false),
        ((0, 0, 12), false),
        ((-1, 0, 0), false),
    ] {
        let mut ground = Vox3d::new(32, 32, 32);
        match worker.load(chunk, &mut ground) {
            Some(Reply::Chunk(mesh, origin, location)) => {
                assert!(there);
                assert_eq!(location, chunk);
                assert_eq!(
                    origin,
                    [chunk.0 as i128 * 32, chunk.1 as i128 * 32, chunk.2 as i128 * 32]
                );
                assert_eq!(mesh.quad_count(), 6);
                assert_eq!(mesh.vertices[0].position, [1, 1, 1]);
                assert_eq!(mesh.vertices[0].color, [0, 255, 0]);
                assert_eq!(ground.get(1, 1, 1), Some(0));
            }
            None => assert!(!there),
        }
    }
    assert_eq!(worker.load_vox(&data), Ok(Handle { index: 1 }));
}

#[test]
fn worker_refuses_models_it_cannot_place() {
    let mut worker = Worker::new(4);
    let none = VoxData { models: vec![], palette: vec![] };
    assert_eq!(worker.load_vox(&none), Err(VoxError::IndexOutOfRange));
    let huge = VoxData {
        models: vec![Model { size: Size { x: 0x7fff_ff01, y: 1, z: 1 }, voxels: vec![] }],
        palette: vec![],
    };
    assert_eq!(worker.load_vox(&huge), Err(VoxError::IndexOutOfRange));
    let colourless = VoxData {
        models: vec![Model {
            size: Size { x: 1, y: 1, z: 1 },
            voxels: vec![Voxel { x: 0, y: 0, z: 0, i: 0 }],
        }],
        palette: vec![],
    };
    assert_eq!(worker.load_vox(&colourless), Err(VoxError::Lookup));
    let mut ground = Vox3d::new(4, 4, 4);
    assert!(worker.load((0, 0, 0), &mut ground).is_none());
}
