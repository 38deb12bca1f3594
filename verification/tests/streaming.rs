use xp_vox_engine::asset::Command;
use xp_vox_engine::chunk::{ChunkState, MeshHandle};
use xp_vox_engine::chunk_area::{chunk_box, ChunkArea};
use xp_vox_engine::world::World;
use xp_vox_engine::world_window::WorldWindow;

#[test]
fn within_distance_test_1d() {
    assert!(World::within_distance_1d(0, 1, 2));
    assert!(World::within_distance_1d(1, 0, 2));
    assert!(World::within_distance_1d(-1, 0, 2));
    assert!(World::within_distance_1d(-8, -9, 2));
    assert!(World::within_distance_1d(-9, -8, 2));
    assert!(World::within_distance_1d(9, 8, 2));
    assert!(World::within_distance_1d(8, 9, 2));
    assert!(World::within_distance_1d(9, 10, 2));
}

#[test]
fn within_distance_test_3d() {
    assert!(World::within_distance_3d([3, 3, 3], [3, 3, 4], [1, 1, 1]));
}

#[test]
fn distance_at_the_limits() {
    assert!(World::within_distance_1d(5, 7, 2));
    assert!(!World::within_distance_1d(5, 8, 2));
    assert!(!World::within_distance_1d(i32::MIN, i32::MAX, 2));
    assert!(World::within_distance_1d(i32::MIN, i32::MAX, usize::MAX));
    assert!(World::outside_distance_3d([0, 0, 0], [0, 3, 0], [2, 2, 2]));
    assert!(!World::outside_distance_3d([0, 0, 0], [2, -2, 2], [2, 2, 2]));
}

#[test]
fn move_to_position_test() {
    let mut window = WorldWindow::new([0, 0, 0], [4000, 4000, 4000], 100, 32, [0, 0, 0]);
    window.move_to_position([-3000, -3000, -3000]);
    assert_eq!(window.get_center()[0], -1000);
    window.move_to_position([3000, -3000, -3000]);
    assert_eq!(window.get_center()[0], 1000);
    window.move_to_position([2000, -3000, -3000]);
    assert_eq!(window.get_center()[0], 1000);
}

#[test]
fn small_motion_keeps_the_centre() {
    let mut window = WorldWindow::new([10, -20, 30], [6, 8, 5], 1, 32, [0, 0, 0]);
    for p in [[13, -24, 32], [7, -16, 28], [10, -20, 30], [13, -16, 32], [7, -24, 28]] {
        window.move_to_position(p);
        assert_eq!(window.get_center(), [10, -20, 30]);
    }
    window.move_to_position([14, -20, 33]);
    assert_eq!(window.get_center(), [11, -20, 31]);
}

#[test]
fn get_chunks_with_1d_test() {
    let range = WorldWindow::get_chunks_with_1d(-1100, 4000, 1000);
    assert_eq!(range.0, -4);
    assert_eq!(range.1, 0);
}

#[test]
fn chunk_index_rounds_down() {
    assert_eq!(WorldWindow::position_to_chunk_index_1d(0, 3200), 0);
    assert_eq!(WorldWindow::position_to_chunk_index_1d(3199, 3200), 0);
    assert_eq!(WorldWindow::position_to_chunk_index_1d(3200, 3200), 1);
    assert_eq!(WorldWindow::position_to_chunk_index_1d(-1, 3200), -1);
    assert_eq!(WorldWindow::position_to_chunk_index_1d(-3200, 3200), -1);
    assert_eq!(WorldWindow::position_to_chunk_index_1d(-3201, 3200), -2);
    assert_eq!(WorldWindow::position_to_chunk_index_1d(i32::MIN, 1), i32::MIN);
    assert_eq!(World::position_to_chunk_index_3d([5, -5, 10], 10), [0, -1, 1]);
}

#[test]
fn chunk_box_is_the_ball() {
    let coords = chunk_box([1, -1, 0], [1, 0, 2]);
    assert_eq!(coords.len(), 3 * 1 * 5);
    assert_eq!(coords[0], [0, -1, -2]);
    assert_eq!(coords[1], [1, -1, -2]);
    assert_eq!(coords[3], [0, -1, -1]);
    assert_eq!(coords[14], [2, -1, 2]);
    for c in &coords {
        assert!(World::within_distance_3d([1, -1, 0], *c, [1, 0, 2]));
    }
    let clipped = chunk_box([i32::MAX, 0, i32::MIN], [1, 0, 1]);
    assert_eq!(clipped.len(), 4);
    assert_eq!(clipped[0], [i32::MAX - 1, 0, i32::MIN]);
    assert_eq!(clipped[3], [i32::MAX, 0, i32::MIN + 1]);
}

#[test]
fn chunk_area_hands_out_the_square() {
    let mut area = ChunkArea::new([3, -1], 1);
    let mut seen = Vec::new();
    while let Some(c) = area.next() {
        seen.push(c);
    }
    assert_eq!(
        seen,
        vec![[2, -2], [3, -2], [4, -2], [2, -1], [3, -1], [4, -1], [2, 0], [3, 0], [4, 0]]
    );
    assert_eq!(area.next(), None);
    let mut single = ChunkArea::new([0, 0], 0);
    assert_eq!(single.next(), Some([0, 0]));
    assert_eq!(single.next(), None);
    let mut none = ChunkArea::new([0, 0], -1);
    assert_eq!(none.next(), None);
}

#[test]
fn first_update_requests_the_whole_box() {
    let mut world = World::new(32);
    assert_eq!(world.get_center(), None);
    let (released, loads) = world.update([0, 0, 0]);
    assert!(released.is_empty());
    assert_eq!(loads.len(), 125);
    assert_eq!(loads[0], Command::Load(-2, -2, -2));
    assert_eq!(loads[1], Command::Load(-1, -2, -2));
    assert_eq!(loads[124], Command::Load(2, 2, 2));
    assert_eq!(world.get_center(), Some([0, 0, 0]));
    assert_eq!(world.get_state([2, -2, 0]), ChunkState::Requested);
    assert_eq!(world.get_state([3, 0, 0]), ChunkState::Absent);
}

#[test]
fn load_is_sent_once() {
    let mut world = World::new(32);
    assert_eq!(world.request([4, 5, 6]), Some(Command::Load(4, 5, 6)));
    assert_eq!(world.get_state([4, 5, 6]), ChunkState::Requested);
    assert_eq!(world.request([4, 5, 6]), None);
    assert_eq!(world.get_state([4, 5, 6]), ChunkState::Requested);
    let (_, loads) = world.update([0, 0, 0]);
    assert_eq!(loads.len(), 125);
    let (_, again) = world.update([0, 0, 0]);
    assert!(again.is_empty());
    assert!(world.request_new().is_empty());
}

#[test]
fn stale_result_is_dropped() {
    let mut world = World::new(32);
    world.update([0, 0, 0]);
    let c = [2, 0, 0];
    assert_eq!(world.get_state(c), ChunkState::Requested);
    assert_eq!(world.delete_chunk(c), None);
    assert_eq!(world.get_state(c), ChunkState::Absent);
    assert!(!world.retrieve_new(c, MeshHandle { id: 7 }));
    assert_eq!(world.get_state(c), ChunkState::Absent);
    assert_eq!(world.delete_chunk(c), None);
}

#[test]
fn result_for_a_wanted_chunk_is_installed() {
    let mut world = World::new(32);
    world.update([0, 0, 0]);
    assert!(world.retrieve_new([1, 1, 1], MeshHandle { id: 11 }));
    assert_eq!(world.get_state([1, 1, 1]), ChunkState::Resident(MeshHandle { id: 11 }));
    assert!(!world.retrieve_new([1, 1, 1], MeshHandle { id: 12 }));
    assert_eq!(world.get_state([1, 1, 1]), ChunkState::Resident(MeshHandle { id: 11 }));
    assert!(!world.retrieve_new([9, 9, 9], MeshHandle { id: 13 }));
    assert_eq!(world.get_state([9, 9, 9]), ChunkState::Absent);
    assert_eq!(world.delete_chunk([1, 1, 1]), Some(MeshHandle { id: 11 }));
    assert_eq!(world.get_state([1, 1, 1]), ChunkState::Absent);
}

#[test]
fn scrolling_evicts_and_requests() {
    let mut world = World::new(32);
    // A chunk is 3200 units long and the walking window 10000 units wide.
    world.update([0, 0, 0]);
    assert!(world.retrieve_new([-2, 0, 0], MeshHandle { id: 1 }));
    assert!(world.retrieve_new([2, 0, 0], MeshHandle { id: 2 }));
    let (released, loads) = world.update([4000, 0, 0]);
    assert!(released.is_empty());
    assert!(loads.is_empty());
    assert_eq!(world.get_center(), Some([0, 0, 0]));
    let (released, loads) = world.update([8200, 0, 0]);
    assert_eq!(world.get_center(), Some([3200, 0, 0]));
    assert_eq!(released, vec![MeshHandle { id: 1 }]);
    assert_eq!(loads.len(), 25);
    assert_eq!(loads[0], Command::Load(3, -2, -2));
    assert_eq!(world.get_state([-2, 0, 0]), ChunkState::Absent);
    assert_eq!(world.get_state([-2, 1, 0]), ChunkState::Absent);
    assert_eq!(world.get_state([2, 0, 0]), ChunkState::Resident(MeshHandle { id: 2 }));
    assert_eq!(world.get_state([3, 0, 0]), ChunkState::Requested);
    // The result for a chunk that has scrolled away is dropped.
    assert!(!world.retrieve_new([-2, 1, 0], MeshHandle { id: 3 }));
    assert_eq!(world.get_state([-2, 1, 0]), ChunkState::Absent);
}

#[test]
fn meshes_in_view_come_in_the_order_of_the_box() {
    let mut world = World::new(32);
    world.update([0, 0, 0]);
    assert!(world.get_within_view_mesh_transform([0, 0, 0]).is_empty());
    assert!(world.retrieve_new([2, 2, 2], MeshHandle { id: 5 }));
    assert!(world.retrieve_new([-2, -2, -2], MeshHandle { id: 6 }));
    assert!(world.retrieve_new([0, 0, 0], MeshHandle { id: 7 }));
    assert_eq!(
        world.get_within_view_mesh_transform([100, 3199, 0]),
        vec![
            ([-2, -2, -2], MeshHandle { id: 6 }),
            ([0, 0, 0], MeshHandle { id: 7 }),
            ([2, 2, 2], MeshHandle { id: 5 }),
        ]
    );
    assert_eq!(
        world.get_within_view_mesh_transform([3200 * 4, 0, 0]),
        vec![([2, 2, 2], MeshHandle { id: 5 })]
    );
}

#[test]
fn request_takes_a_shared_cell() {
    let mut world = World::new(32);
    assert_eq!(world.request([1, 2, 3]), Some(Command::Load(1, 2, 3)));
    assert_eq!(world.get_state([101, 2, 3]), ChunkState::Absent);
    assert_eq!(world.request([101, 2, 3]), Some(Command::Load(101, 2, 3)));
    assert_eq!(world.get_state([1, 2, 3]), ChunkState::Absent);
    assert_eq!(world.get_state([101, 2, 3]), ChunkState::Requested);
    assert_eq!(world.delete_chunk([1, 2, 3]), None);
    assert_eq!(world.get_state([101, 2, 3]), ChunkState::Requested);
}

#[test]
fn nothing_is_kept_outside_the_box() {
    let mut world = World::new(32);
    let mut next = 0;
    for step in 0..40 {
        let (released, loads) = world.update([step * 900, -step * 700, step * 1300]);
        for load in loads {
            if let Command::Load(x, y, z) = load {
                if (x + y + z) % 2 == 0 {
                    assert!(world.retrieve_new([x, y, z], MeshHandle { id: next }));
                    next += 1;
                }
            }
        }
        let center = world.get_center().unwrap();
        let index = World::position_to_chunk_index_3d(center, 3200);
        for dx in -4..5 {
            for dy in -4..5 {
                for dz in -4..5 {
                    let c = [index[0] + dx, index[1] + dy, index[2] + dz];
                    if !World::within_distance_3d(index, c, [2, 2, 2]) {
                        assert_eq!(world.get_state(c), ChunkState::Absent);
                    } else {
                        assert_ne!(world.get_state(c), ChunkState::Absent);
                    }
                }
            }
        }
        for handle in released {
            assert!(handle.id < next);
        }
    }
}
