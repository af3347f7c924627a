//! The capability interface a device family implements: how many tracks and
//! sectors its media carries, and how large a sector is. A `Disk` is
//! parameterized by a layout and takes its geometry from it.
use vstd::prelude::*;

use crate::types::TrackNo;

verus! {

/// Geometry contract of one device family. The numbers the executable
/// methods return are pinned to the layout's spec functions, so everything
/// proved about a `Disk` holds for the exact geometry of its device.
pub trait Layout: Sized {
    /// Directory record type produced by the device's listing operation.
    type FileEntryType;

    /// Number of tracks on the physical media.
    spec fn spec_num_tracks() -> u8;

    /// Number of sectors on the given one-based track.
    spec fn spec_num_sectors(track: TrackNo) -> u8;

    /// Bytes stored in a single sector.
    spec fn spec_bytes_per_sector() -> u16;

    fn num_tracks(&self) -> (r: u8)
        ensures
            r == Self::spec_num_tracks(),
    ;

    fn num_sectors(&self, track: TrackNo) -> (r: u8)
        ensures
            r == Self::spec_num_sectors(track),
    ;

    fn bytes_per_sector(&self) -> (r: u16)
        ensures
            r == Self::spec_bytes_per_sector(),
    ;
}

} // verus!
