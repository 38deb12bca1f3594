//! The contract that every source of voxels meets, whatever its storage.

use vstd::prelude::*;

verus! {

/// Why a request to a voxel source was refused.
#[derive(Clone, Copy, Debug, PartialEq, Eq, Structural)]
pub enum VoxError {
    /// A coordinate lies outside the bounds of the volume.
    IndexOutOfRange,
    /// No colour was ever recorded for the palette id.
    Lookup,
}

/// Whether `(x, y, z)` lies inside a box of the given extents.
pub open spec fn in_bounds(size: [usize; 3], x: int, y: int, z: int) -> bool {
    &&& 0 <= x < size[0]
    &&& 0 <= y < size[1]
    &&& 0 <= z < size[2]
}

/// A bounded grid of palette-indexed voxels with the colours of its palette.
pub trait Vox {
    /// The invariant of the source.
    spec fn wf(&self) -> bool;

    /// The extent along x, y and z.
    spec fn size(&self) -> [usize; 3];

    /// The palette id at `(x, y, z)`; nothing outside the bounds.
    spec fn voxel(&self, x: int, y: int, z: int) -> Option<u8>;

    /// The colour recorded for palette id `id`, if any.
    spec fn color(&self, id: u8) -> Option<[u8; 3]>;

    /// What the invariant gives to every reader: the cells can be counted, no
    /// voxel lies outside the bounds, and every voxel's id has a colour.
    proof fn lemma_wf(&self)
        requires
            self.wf(),
        ensures
            self.size()[0] * self.size()[1] * self.size()[2] <= usize::MAX,
            forall|x: int, y: int, z: int|
                !in_bounds(self.size(), x, y, z) ==> (#[trigger] self.voxel(x, y, z)) is None,
            forall|x: int, y: int, z: int|
                (#[trigger] self.voxel(x, y, z)) is Some ==> self.color(
                    self.voxel(x, y, z).unwrap(),
                ) is Some,
    ;

    /// The extent along x, y and z.
    fn get_size(&self) -> (r: [usize; 3])
        requires
            self.wf(),
        ensures
            r == self.size(),
    ;

    /// The palette id at `(x, y, z)`, and nothing for a position outside the bounds.
    fn get(&self, x: usize, y: usize, z: usize) -> (r: Option<u8>)
        requires
            self.wf(),
        ensures
            r == self.voxel(x as int, y as int, z as int),
    ;

    /// The colour of palette id `color_id`; `Lookup` exactly when none was recorded.
    fn get_color(&self, color_id: u8) -> (r: Result<[u8; 3], VoxError>)
        requires
            self.wf(),
        ensures
            match r {
                Ok(c) => self.color(color_id) == Some(c),
                Err(e) => self.color(color_id) is None && e == VoxError::Lookup,
            },
    ;
}

} // verus!
