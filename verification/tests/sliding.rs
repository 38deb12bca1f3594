use xp_vox_engine::sliding_vec3d::{Vec2dSliding, Vec3dSliding};

#[test]
fn sliding_position_test() {
    let slid_win: Vec2dSliding<i32> = Vec2dSliding::new([1, 1]);
    assert_eq!(0, slid_win.slide_position(0, 0));
    assert_eq!(0, slid_win.slide_position(1, 0));
    assert_eq!(0, slid_win.slide_position(2, 0));
    assert_eq!(0, slid_win.slide_position(-1, 0));
}

#[test]
fn sliding_position_test2() {
    let slid_win: Vec2dSliding<i32> = Vec2dSliding::new([2, 2]);
    assert_eq!(0, slid_win.slide_position(0, 0));
    assert_eq!(1, slid_win.slide_position(1, 0));
    assert_eq!(0, slid_win.slide_position(2, 0));
    assert_eq!(1, slid_win.slide_position(-1, 0));
}

#[test]
fn slide_set_test() {
    let mut slid_win = Vec3dSliding::new([5, 5, 5]);
    let pos = [0, 0, 0];
    slid_win.set(pos, 3);
    let pos = [100, 100, 0];
    assert_eq!(3, slid_win.get(pos));
    slid_win.set(pos, 8);
    assert_eq!(8, slid_win.get(pos));
}

#[test]
fn slide_set_in_the_plane() {
    let mut slid_win = Vec2dSliding::new([5, 5]);
    slid_win.set([0, 0], 3);
    assert_eq!(3, slid_win.get([100, 100]));
    slid_win.set([100, 100], 8);
    assert_eq!(8, slid_win.get([0, 0]));
    assert_eq!(0, slid_win.get([1, 0]));
}

#[test]
fn wraparound_is_periodic_for_extreme_coordinates() {
    let grid: Vec3dSliding<u8> = Vec3dSliding::new([7, 3, 100]);
    assert_eq!(grid.slide_position(i32::MIN, 0), 5);
    assert_eq!(grid.slide_position(i32::MAX, 0), 1);
    assert_eq!(grid.slide_position(i32::MIN, 2), 52);
    assert_eq!(grid.slide_position(i32::MAX, 2), 47);
    for c in -50..50 {
        for k in -3..4 {
            assert_eq!(grid.slide_position(c, 0), grid.slide_position(c + k * 7, 0));
            assert_eq!(grid.slide_position(c, 1), grid.slide_position(c + k * 3, 1));
            assert!(grid.slide_position(c, 2) < 100);
        }
    }
    assert_eq!(grid.slide_position(-1, 0), 6);
    assert_eq!(grid.slide_position(-7, 0), 0);
    assert_eq!(grid.slide_position(-8, 0), 6);
}

#[test]
fn distant_coordinates_share_a_cell() {
    let mut grid: Vec3dSliding<Option<u32>> = Vec3dSliding::new([4, 4, 4]);
    assert_eq!(grid.get([1, 2, 3]), None);
    grid.set([1, 2, 3], Some(7));
    assert_eq!(grid.get([5, -2, 7]), Some(7));
    assert_eq!(grid.get([1, 2, 2]), None);
    assert_eq!(grid.get([2, 2, 3]), None);
}
