//! A height map as a source of voxels: a column of ground under every
//! position of a plane.
//!
//! Heights are whole numbers of voxels. The volume that the map stands for is
//! `HEIGHT_MAP_DEPTH` voxels deep and starts at the lowest height that was set.

use crate::vox::{in_bounds, Vox, VoxError};
use vstd::prelude::*;

verus! {

/// The palette id of ground at or below level zero.
pub const COLOR_EARTH_ID: u8 = 0;

/// The palette id of grass.
pub const COLOR_GRASS_ID: u8 = 1;

/// The palette id of ground above level zero.
pub const COLOR_GREEN_ID: u8 = 2;

/// The palette id of lime.
pub const COLOR_LIME_ID: u8 = 3;

/// The number of voxels that the volume of a height map is deep.
pub const HEIGHT_MAP_DEPTH: usize = 32;

/// The colours of the four palette ids.
pub open spec fn color_table(id: u8) -> Option<[u8; 3]> {
    if id == COLOR_EARTH_ID {
        Some([0x7du8, 0x44u8, 0x27u8])
    } else if id == COLOR_GRASS_ID {
        Some([0x48u8, 0x6bu8, 0x00u8])
    } else if id == COLOR_GREEN_ID {
        Some([0x2eu8, 0x46u8, 0x00u8])
    } else if id == COLOR_LIME_ID {
        Some([0xa2u8, 0xc5u8, 0x23u8])
    } else {
        None
    }
}

/// The voxel of a column of height `height` at level `level`: ground up to
/// the height, green above level zero and earth from there down.
pub open spec fn column_voxel(height: int, level: int) -> Option<u8> {
    if level <= height {
        if level > 0 {
            Some(COLOR_GREEN_ID)
        } else {
            Some(COLOR_EARTH_ID)
        }
    } else {
        None
    }
}

/// The heights of the ground over an `x_size` by `z_size` plane.
pub struct VoxHeightMap {
    data: Vec<i32>,
    x_size: usize,
    z_size: usize,
    y_min: i32,
    y_max: i32,
}

impl VoxHeightMap {
    /// The heights, row by row along z.
    pub closed spec fn heights(&self) -> Seq<i32> {
        self.data@
    }

    /// The extent along x.
    pub closed spec fn x_size(&self) -> usize {
        self.x_size
    }

    /// The extent along z.
    pub closed spec fn z_size(&self) -> usize {
        self.z_size
    }

    /// The least height that was set; the greatest number before any was.
    pub closed spec fn y_min(&self) -> i32 {
        self.y_min
    }

    /// The greatest height that was set; the least number before any was.
    pub closed spec fn y_max(&self) -> i32 {
        self.y_max
    }

    /// The invariant of the map: positive extents and one height per position.
    pub open spec fn well_formed(&self) -> bool {
        &&& self.x_size() > 0
        &&& self.z_size() > 0
        &&& self.x_size() * HEIGHT_MAP_DEPTH * self.z_size() <= usize::MAX
        &&& self.x_size() * self.z_size() <= usize::MAX
        &&& self.heights().len() == self.x_size() * self.z_size()
    }

    /// The height at `(x, z)`.
    pub open spec fn height(&self, x: int, z: int) -> int {
        self.heights()[z * self.x_size() + x] as int
    }

    /// A map of the given extents with the ground at height zero everywhere.
    pub fn new(x_size: usize, z_size: usize) -> (map: Self)
        requires
            x_size > 0,
            z_size > 0,
            x_size * HEIGHT_MAP_DEPTH * z_size <= usize::MAX,
        ensures
            map.well_formed(),
            map.x_size() == x_size,
            map.z_size() == z_size,
            map.heights() == Seq::new((x_size * z_size) as nat, |i: int| 0i32),
            map.y_min() == i32::MAX,
            map.y_max() == i32::MIN,
    {
        proof {
            assert(z_size * x_size == x_size * z_size && x_size * z_size <= x_size
                * HEIGHT_MAP_DEPTH * z_size) by (nonlinear_arith)
                requires
                    x_size > 0,
                    z_size > 0,
                    HEIGHT_MAP_DEPTH == 32,
            ;
        }
        let map = Self {
            data: vec![0i32; z_size * x_size],
            x_size,
            z_size,
            y_min: i32::MAX,
            y_max: i32::MIN,
        };
        assert(map.heights() =~= Seq::new((x_size * z_size) as nat, |i: int| 0i32));
        map
    }

    /// The lowest level of the volume.
    pub fn y_min_voxel(&self) -> (level: i32)
        ensures
            level == self.y_min(),
    {
        self.y_min
    }

    /// The greatest height that was set.
    pub fn y_max_voxel(&self) -> (level: i32)
        ensures
            level == self.y_max(),
    {
        self.y_max
    }

    /// Sets the height of the ground at `(x, z)` and widens the range of
    /// heights to hold it. A position outside the plane is refused and leaves
    /// the map as it was.
    pub fn set(&mut self, x: usize, z: usize, height: i32) -> (r: Result<(), VoxError>)
        requires
            old(self).well_formed(),
        ensures
            final(self).well_formed(),
            final(self).x_size() == old(self).x_size(),
            final(self).z_size() == old(self).z_size(),
            r is Ok <==> x < old(self).x_size() && z < old(self).z_size(),
            r is Err ==> r == Err::<(), VoxError>(VoxError::IndexOutOfRange) && *final(self)
                == *old(self),
            r is Ok ==> {
                &&& final(self).heights() == old(self).heights().update(
                    z * old(self).x_size() + x,
                    height,
                )
                &&& final(self).y_min() == (if height < old(self).y_min() {
                    height
                } else {
                    old(self).y_min()
                })
                &&& final(self).y_max() == (if height > old(self).y_max() {
                    height
                } else {
                    old(self).y_max()
                })
            },
    {
        if x >= self.x_size || z >= self.z_size {
            return Err(VoxError::IndexOutOfRange);
        }
        proof {
            crate::greedy_meshing::lemma_mask_index(
                self.x_size as int,
                self.z_size as int,
                x as int,
                z as int,
            );
        }
        if height < self.y_min {
            self.y_min = height;
        }
        if height > self.y_max {
            self.y_max = height;
        }
        self.data.set(z * self.x_size + x, height);
        Ok(())
    }

    /// The level of the bottom of the volume, in voxels.
    pub fn get_y_min_offset(&self) -> (r: i128)
        ensures
            r == self.y_min(),
    {
        self.y_min as i128
    }

    /// The level above the highest ground, in voxels.
    pub fn get_y_max_offset(&self) -> (r: i128)
        ensures
            r == self.y_max() + 1,
    {
        self.y_max as i128 + 1
    }
}

impl Vox for VoxHeightMap {
    open spec fn wf(&self) -> bool {
        self.well_formed()
    }

    open spec fn size(&self) -> [usize; 3] {
        [self.x_size(), HEIGHT_MAP_DEPTH, self.z_size()]
    }

    open spec fn voxel(&self, x: int, y: int, z: int) -> Option<u8> {
        if in_bounds(self.size(), x, y, z) {
            column_voxel(self.height(x, z), y + self.y_min())
        } else {
            None
        }
    }

    open spec fn color(&self, id: u8) -> Option<[u8; 3]> {
        color_table(id)
    }

    proof fn lemma_wf(&self) {
    }

    fn get_size(&self) -> (r: [usize; 3]) {
        [self.x_size, HEIGHT_MAP_DEPTH, self.z_size]
    }

    fn get(&self, x: usize, y: usize, z: usize) -> (r: Option<u8>) {
        if x >= self.x_size || y >= HEIGHT_MAP_DEPTH || z >= self.z_size {
            return None;
        }
        proof {
            crate::greedy_meshing::lemma_mask_index(
                self.x_size as int,
                self.z_size as int,
                x as int,
                z as int,
            );
        }
        let level: i64 = y as i64 + self.y_min as i64;
        if level <= self.data[z * self.x_size + x] as i64 {
            if level > 0 {
                Some(COLOR_GREEN_ID)
            } else {
                Some(COLOR_EARTH_ID)
            }
        } else {
            None
        }
    }

    fn get_color(&self, color_id: u8) -> (r: Result<[u8; 3], VoxError>) {
        if color_id == COLOR_EARTH_ID {
            Ok([0x7d, 0x44, 0x27])
        } else if color_id == COLOR_GRASS_ID {
            Ok([0x48, 0x6b, 0x00])
        } else if color_id == COLOR_GREEN_ID {
            Ok([0x2e, 0x46, 0x00])
        } else if color_id == COLOR_LIME_ID {
            Ok([0xa2, 0xc5, 0x23])
        } else {
            Err(VoxError::Lookup)
        }
    }
}

} // verus!
