use vstd::prelude::*;

verus! {

/// Track number, one based.
pub type TrackNo = u8;

/// Sector number within a track, zero based.
pub type SectorNo = u8;

/// Reference to a single sector on a disk.
/// The first element references a track, the second a sector within it.
pub type SectorRef = (TrackNo, SectorNo);

/// The ways a disk operation can fail.
#[derive(Debug, Clone, Copy, PartialEq, Eq, Structural)]
pub enum DiskError {
    /// Not enough free sectors for a requested allocation; nothing was changed.
    AllocationExhausted,
    /// A sector chain points outside the disk or runs longer than the disk
    /// has sectors, implying a cycle or an invalid pointer.
    CorruptChain,
    /// A byte source ended before the geometry's worth of bytes was read.
    IncompleteImage,
}

} // verus!
