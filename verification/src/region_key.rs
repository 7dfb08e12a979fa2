//! What names a region: the directory of its file and its place on the grid of
//! regions.

use vstd::prelude::*;
use crate::region_file_util::Coords;

verus! {

/// The name of a region. Two keys name one region exactly when directory and
/// both coordinates agree.
pub struct RegionKey {
    pub coords: Coords,
    pub directory: String,
}

impl RegionKey {
    /// Whether two keys name one region.
    pub open spec fn same_region(&self, other: &RegionKey) -> bool {
        &&& self.coords.x == other.coords.x
        &&& self.coords.z == other.coords.z
        &&& self.directory@ == other.directory@
    }

    /// Whether two keys name one region.
    pub fn names_same_region(&self, other: &RegionKey) -> (same: bool)
        ensures
            same == self.same_region(other),
    {
        self.coords.x == other.coords.x && self.coords.z == other.coords.z
            && self.directory == other.directory
    }
}

} // verus!
