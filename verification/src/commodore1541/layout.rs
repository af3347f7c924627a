//! The Commodore 1541 device layout: geometry, formatting, disk name and
//! id fields, sector chains, the directory, and the file operations built
//! on them. Only the drive's standard layout is supported; a reprogrammed
//! drive would need a layout of its own.
use vstd::prelude::*;

use crate::commodore1541::bam::BlockAvailabilityMap;
use crate::commodore1541::bam::allocate_post;
use crate::commodore1541::bam::bam_count;
use crate::commodore1541::bam::bam_free;
use crate::commodore1541::bam::bam_track_wf;
use crate::commodore1541::bam::bam_wf;
use crate::commodore1541::bam::lemma_sum_free_lower;
use crate::commodore1541::bam::lemma_sum_free_update;
use crate::commodore1541::bam::mark_unused_post;
use crate::commodore1541::bam::mark_used_post;
use crate::commodore1541::bam::sum_free;
use crate::commodore1541::bam::user_free;
use crate::commodore1541::file_entry::FileEntry;
use crate::commodore1541::spec_track_sectors;
use crate::disk::Disk;
use crate::layout::Layout;
use crate::sector::Sector;
use crate::types::DiskError;
use crate::types::SectorRef;
use crate::types::TrackNo;

verus! {

/// The byte-level view of a whole disk: tracks of sectors of bytes.
pub type DiskBytes = Seq<Seq<Seq<u8>>>;

/// The 1541 geometry, stated over the raw view: 35 tracks, the per-track
/// sector counts, 256 bytes per sector.
pub open spec fn disk_wf(d: DiskBytes) -> bool {
    &&& d.len() == 35
    &&& forall|t: int| 0 <= t < 35 ==> #[trigger] d[t].len() == spec_track_sectors(t + 1)
    &&& forall|t: int, s: int|
        0 <= t < 35 && 0 <= s < d[t].len() ==> (#[trigger] d[t][s].len()) == 256
}

/// The reference names a sector that exists in the 1541 geometry.
pub open spec fn spec_valid_ref(r: SectorRef) -> bool {
    1 <= r.0 <= 35 && (r.1 as int) < spec_track_sectors(r.0 as int)
}

/// A sector available to user data: any valid sector off the header track.
pub open spec fn spec_user_ref(r: SectorRef) -> bool {
    spec_valid_ref(r) && r.0 != TRACK_HEADER
}

/// The bytes of the sector a reference names.
pub open spec fn spec_sector_at(d: DiskBytes, r: SectorRef) -> Seq<u8> {
    d[r.0 - 1][r.1 as int]
}

/// The header sector's bytes: track 18, sector 0.
pub open spec fn spec_header(d: DiskBytes) -> Seq<u8> {
    d[17][0]
}

/// The successor reference stored in a chained sector's first two bytes.
pub open spec fn spec_next_ref(sec: Seq<u8>) -> SectorRef {
    (sec[0], sec[1])
}

/// Walking a chain consumes at most this much fuel. Distinct in-range
/// references occupy distinct scan positions below 864 (36 track numbers
/// of at most 24 sectors), so a walk this long must revisit a sector and
/// is cyclic.
pub const CHAIN_FUEL: usize = 864;

/// The sector references a chain visits, starting at `r` and following
/// each sector's next-pointer until a track byte of zero. `None` when the
/// walk leaves the geometry or outlives `fuel` — a corrupt chain.
pub open spec fn spec_chain(d: DiskBytes, r: SectorRef, fuel: nat) -> Option<Seq<SectorRef>>
    decreases fuel,
{
    if r.0 == 0 {
        Some(Seq::empty())
    } else if !spec_valid_ref(r) {
        None
    } else if fuel == 0 {
        None
    } else {
        match spec_chain(d, spec_next_ref(spec_sector_at(d, r)), (fuel - 1) as nat) {
            Some(rest) => Some(seq![r] + rest),
            None => None,
        }
    }
}

/// The content bytes of the first `i` chained sectors: everything past the
/// two-byte header of each.
pub open spec fn spec_content_upto(d: DiskBytes, refs: Seq<SectorRef>, i: int) -> Seq<u8>
    decreases i,
{
    if i <= 0 {
        Seq::empty()
    } else {
        spec_content_upto(d, refs, i - 1) + spec_sector_at(d, refs[i - 1]).subrange(2, 256)
    }
}

/// All content bytes a chain carries, in visit order.
pub open spec fn spec_chain_content(d: DiskBytes, refs: Seq<SectorRef>) -> Seq<u8> {
    spec_content_upto(d, refs, refs.len() as int)
}

/// What reading a file starting at `start` yields: the chain's content,
/// or nothing when the chain is corrupt.
pub open spec fn spec_read_file(d: DiskBytes, start: SectorRef) -> Option<Seq<u8>> {
    match spec_chain(d, start, CHAIN_FUEL as nat) {
        Some(refs) => Some(spec_chain_content(d, refs)),
        None => None,
    }
}

/// Every reference a well-formed chain visits is a valid sector.
pub proof fn lemma_chain_refs_valid(d: DiskBytes, r: SectorRef, fuel: nat)
    requires
        spec_chain(d, r, fuel) is Some,
    ensures
        forall|i: int|
            0 <= i < spec_chain(d, r, fuel)->Some_0.len() ==> #[trigger] spec_valid_ref(
                spec_chain(d, r, fuel)->Some_0[i],
            ),
    decreases fuel,
{
    if r.0 != 0 && spec_valid_ref(r) && fuel > 0 {
        lemma_chain_refs_valid(d, spec_next_ref(spec_sector_at(d, r)), (fuel - 1) as nat);
    }
}

/// More fuel never changes a walk that already ends.
pub proof fn lemma_chain_fuel_mono(d: DiskBytes, r: SectorRef, f1: nat, f2: nat)
    requires
        f1 <= f2,
        spec_chain(d, r, f1) is Some,
    ensures
        spec_chain(d, r, f2) == spec_chain(d, r, f1),
    decreases f1,
{
    if r.0 != 0 && spec_valid_ref(r) && f1 > 0 {
        lemma_chain_fuel_mono(
            d,
            spec_next_ref(spec_sector_at(d, r)),
            (f1 - 1) as nat,
            (f2 - 1) as nat,
        );
    }
}

/// Every tail of a chain is itself the chain of its first reference, and a
/// chain never visits more sectors than it had fuel.
pub proof fn lemma_chain_suffix(d: DiskBytes, r: SectorRef, fuel: nat, i: int)
    requires
        spec_chain(d, r, fuel) is Some,
        0 <= i < spec_chain(d, r, fuel)->Some_0.len(),
    ensures
        spec_chain(d, r, fuel)->Some_0.len() <= fuel,
        fuel >= i,
        spec_chain(d, spec_chain(d, r, fuel)->Some_0[i], (fuel - i) as nat) == Some(
            spec_chain(d, r, fuel)->Some_0.skip(i),
        ),
    decreases i,
{
    let refs = spec_chain(d, r, fuel)->Some_0;
    lemma_chain_len(d, r, fuel);
    if i == 0 {
        assert(refs.skip(0) =~= refs);
        lemma_chain_fuel_mono(d, r, fuel, fuel);
    } else {
        let nxt = spec_next_ref(spec_sector_at(d, r));
        lemma_chain_suffix(d, nxt, (fuel - 1) as nat, i - 1);
        let rest = spec_chain(d, nxt, (fuel - 1) as nat)->Some_0;
        assert(refs[i] == rest[i - 1]);
        assert(refs.skip(i) =~= rest.skip(i - 1));
    }
}

/// A chain that ends visits at most `fuel` sectors.
pub proof fn lemma_chain_len(d: DiskBytes, r: SectorRef, fuel: nat)
    requires
        spec_chain(d, r, fuel) is Some,
    ensures
        spec_chain(d, r, fuel)->Some_0.len() <= fuel,
    decreases fuel,
{
    if r.0 != 0 && spec_valid_ref(r) && fuel > 0 {
        lemma_chain_len(d, spec_next_ref(spec_sector_at(d, r)), (fuel - 1) as nat);
    }
}

/// A chain that ends never visits the same sector twice: a revisit would
/// repeat forever and exhaust any fuel.
pub proof fn lemma_chain_distinct(d: DiskBytes, r: SectorRef, fuel: nat)
    requires
        spec_chain(d, r, fuel) is Some,
    ensures
        forall|i: int, j: int|
            0 <= i < j < spec_chain(d, r, fuel)->Some_0.len() ==> spec_chain(
                d,
                r,
                fuel,
            )->Some_0[i] != spec_chain(d, r, fuel)->Some_0[j],
{
    let refs = spec_chain(d, r, fuel)->Some_0;
    assert forall|i: int, j: int| 0 <= i < j < refs.len() implies refs[i] != refs[j] by {
        if refs[i] == refs[j] {
            lemma_chain_suffix(d, r, fuel, i);
            lemma_chain_suffix(d, r, fuel, j);
            lemma_chain_fuel_mono(d, refs[j], (fuel - j) as nat, (fuel - i) as nat);
            assert(refs.skip(i).len() == refs.skip(j).len());
        }
    }
}

/// A chain that ends visits at most 840 sectors: its references are
/// distinct, valid, and each occupies one of the 840 scan positions of
/// tracks 1 through 35.
pub proof fn lemma_chain_bounded(d: DiskBytes, r: SectorRef, fuel: nat)
    requires
        spec_chain(d, r, fuel) is Some,
    ensures
        spec_chain(d, r, fuel)->Some_0.len() <= 840,
{
    let refs = spec_chain(d, r, fuel)->Some_0;
    lemma_chain_refs_valid(d, r, fuel);
    lemma_chain_distinct(d, r, fuel);
    let keys = Seq::new(refs.len(), |i: int| crate::commodore1541::bam::scan_key(refs[i]));
    assert(keys.no_duplicates()) by {
        assert forall|i: int, j: int|
            0 <= i < keys.len() && 0 <= j < keys.len() && i != j implies keys[i] != keys[j] by {
            assert(spec_valid_ref(refs[i]) && spec_valid_ref(refs[j]));
            if keys[i] == keys[j] {
                crate::commodore1541::bam::lemma_scan_key_injective(refs[i], refs[j]);
            }
        }
    }
    keys.unique_seq_to_set();
    assert(keys.to_set().subset_of(vstd::set_lib::set_int_range(24, 864))) by {
        assert forall|k: int| keys.to_set().contains(k) implies vstd::set_lib::set_int_range(
            24,
            864,
        ).contains(k) by {
            let i = choose|i: int| 0 <= i < keys.len() && keys[i] == k;
            assert(spec_valid_ref(refs[i]));
        }
    }
    vstd::set_lib::lemma_int_range(24, 864);
    vstd::set_lib::lemma_len_subset(keys.to_set(), vstd::set_lib::set_int_range(24, 864));
}

/// A list of sectors explicitly linked in order, with the last one ending
/// the chain, walks to exactly that list.
pub proof fn lemma_chain_of_linked_list(d: DiskBytes, v: Seq<SectorRef>, i: int, fuel: nat)
    requires
        0 <= i <= v.len(),
        fuel >= v.len() - i,
        forall|j: int| 0 <= j < v.len() ==> spec_valid_ref(#[trigger] v[j]),
        forall|j: int|
            0 <= j < v.len() - 1 ==> spec_next_ref(spec_sector_at(d, #[trigger] v[j])) == v[j
                + 1],
        v.len() > 0 ==> spec_next_ref(spec_sector_at(d, v[v.len() - 1])).0 == 0,
    ensures
        spec_chain(d, if i < v.len() {
            v[i]
        } else {
            (0u8, 255u8)
        }, fuel) == Some(v.skip(i)),
    decreases v.len() - i,
{
    if i >= v.len() {
        assert(v.skip(i) =~= Seq::<SectorRef>::empty());
    } else {
        let r = v[i];
        assert(r.0 != 0);
        if i == v.len() - 1 {
            let nxt = spec_next_ref(spec_sector_at(d, r));
            assert(spec_chain(d, nxt, (fuel - 1) as nat) == Some(Seq::<SectorRef>::empty()));
            assert(seq![r] + Seq::<SectorRef>::empty() =~= v.skip(i));
        } else {
            lemma_chain_of_linked_list(d, v, i + 1, (fuel - 1) as nat);
            assert(seq![r] + v.skip(i + 1) =~= v.skip(i));
        }
    }
}

/// Track holding the header sector and the directory chain.
pub const TRACK_HEADER: TrackNo = 18;

/// Bytes stored in one sector.
pub const BYTES_PER_SECTOR: usize = 256;

/// The two leading bytes of every chained sector: the successor reference.
pub const SECTOR_HEADER_SIZE: usize = 2;

/// Content bytes carried by one chained sector.
pub const CONTENT_BYTES_PER_SECTOR: usize = 254;

/// Size of one directory record.
pub const FILE_LIST_ENTRY_SIZE: usize = 32;

/// First byte of the disk-name field inside the header sector.
pub const DISK_NAME_OFFSET_START: usize = 144;

/// Width of the disk-name field.
pub const DISK_NAME_LENGTH: usize = 16;

/// One past the last byte of the disk-name field.
pub const DISK_NAME_OFFSET_END: usize = 160;

/// The Commodore 1541 disk drive: how that drive family stores data on a
/// disk, in its standard layout.
pub struct Commodore1541 {}

impl Default for Commodore1541 {
    fn default() -> (r: Commodore1541)
        ensures
            r == (Commodore1541 {  }),
    {
        Commodore1541 {  }
    }
}

impl Layout for Commodore1541 {
    type FileEntryType = FileEntry;

    open spec fn spec_num_tracks() -> u8 {
        35
    }

    open spec fn spec_num_sectors(track: TrackNo) -> u8 {
        spec_track_sectors(track as int) as u8
    }

    open spec fn spec_bytes_per_sector() -> u16 {
        256
    }

    fn num_tracks(&self) -> (r: u8) {
        35
    }

    fn num_sectors(&self, track: TrackNo) -> (r: u8) {
        if 1 <= track && track <= 17 {
            return 21;
        }
        if 18 <= track && track <= 24 {
            return 19;
        }
        if 25 <= track && track <= 30 {
            return 18;
        }
        if 31 <= track && track <= 35 {
            return 17;
        }
        0
    }

    fn bytes_per_sector(&self) -> (r: u16) {
        256
    }
}

/// The disk view with one sector's bytes replaced.
pub open spec fn disk_update(d: DiskBytes, r: SectorRef, sec: Seq<u8>) -> DiskBytes {
    d.update(r.0 - 1, d[r.0 - 1].update(r.1 as int, sec))
}

/// The struct-level geometry invariant and the view-level one coincide.
pub proof fn lemma_wf_equiv(d: &Disk<Commodore1541>)
    ensures
        d.wf() <==> disk_wf(d@),
{
    if d.wf() {
        assert forall|t: int| 0 <= t < 35 implies #[trigger] d@[t].len() == spec_track_sectors(
            t + 1,
        ) by {
            assert(d@[t].len() == Commodore1541::spec_num_sectors((t + 1) as u8));
        }
    }
    if disk_wf(d@) {
        assert forall|t: int| 0 <= t < d@.len() implies #[trigger] d@[t].len()
            == Commodore1541::spec_num_sectors((t + 1) as u8) by {
            assert(d@[t].len() == spec_track_sectors(t + 1));
        }
    }
}

impl Commodore1541 {
    /// Set the chain pointer: the first two bytes name the successor.
    pub fn set_next_sector(&self, sector: &mut Sector, sector_ref: SectorRef)
        requires
            old(sector)@.len() >= 2,
        ensures
            final(sector)@.len() == old(sector)@.len(),
            spec_next_ref(final(sector)@) == sector_ref,
            forall|i: int| 2 <= i < old(sector)@.len() ==> final(sector)@[i] == old(sector)@[i],
    {
        sector.set_byte(0, sector_ref.0);
        sector.set_byte(1, sector_ref.1);
    }

    /// Mark the sector as the last of its chain.
    pub fn end_sector_chain(&self, sector: &mut Sector)
        requires
            old(sector)@.len() >= 2,
        ensures
            final(sector)@.len() == old(sector)@.len(),
            spec_next_ref(final(sector)@) == (0u8, 255u8),
            forall|i: int| 2 <= i < old(sector)@.len() ==> final(sector)@[i] == old(sector)@[i],
    {
        self.set_next_sector(sector, (0, 255));
    }

    /// Follow a sector's chain pointer: the end marker yields nothing, a
    /// pointer into the geometry yields the next sector, and a pointer
    /// outside it is a corrupt chain.
    pub fn get_next_sector<'a>(&self, disk: &'a Disk<Commodore1541>, sector: &Sector) -> (r:
        Result<Option<(&'a Sector, SectorRef)>, DiskError>)
        requires
            disk.wf(),
            sector@.len() >= 2,
        ensures
            ({
                let nxt = spec_next_ref(sector@);
                &&& nxt.0 == 0 ==> r == Result::<
                    Option<(&'a Sector, SectorRef)>,
                    DiskError,
                >::Ok(None)
                &&& nxt.0 != 0 && spec_valid_ref(nxt) ==> r is Ok && r->Ok_0 is Some && (
                r->Ok_0->Some_0.0)@ == spec_sector_at(disk@, nxt) && r->Ok_0->Some_0.1 == nxt
                &&& nxt.0 != 0 && !spec_valid_ref(nxt) ==> r == Result::<
                    Option<(&'a Sector, SectorRef)>,
                    DiskError,
                >::Err(DiskError::CorruptChain)
            }),
    {
        proof {
            lemma_wf_equiv(disk);
        }
        let track_no = sector.get_byte(0);
        if track_no == 0 {
            return Ok(None);
        }
        let sector_no = sector.get_byte(1);
        if track_no > 35 || sector_no >= self.num_sectors(track_no) {
            return Err(DiskError::CorruptChain);
        }
        let sector_ref = (track_no, sector_no);
        Ok(Some((disk.get_sector(sector_ref), sector_ref)))
    }

    /// The chain of sectors starting from `sector_ref`, in visit order,
    /// the end marker excluded. A walk that leaves the geometry or visits
    /// more sectors than the disk has is reported as corrupt.
    pub fn get_sector_ref_chain(&self, disk: &Disk<Commodore1541>, sector_ref: SectorRef) -> (r:
        Result<Vec<SectorRef>, DiskError>)
        requires
            disk.wf(),
        ensures
            spec_chain(disk@, sector_ref, CHAIN_FUEL as nat) matches Some(refs) ==> r is Ok
                && r->Ok_0@ == refs,
            spec_chain(disk@, sector_ref, CHAIN_FUEL as nat) is None ==> r == Result::<
                Vec<SectorRef>,
                DiskError,
            >::Err(DiskError::CorruptChain),
    {
        proof {
            lemma_wf_equiv(disk);
        }
        let mut refs: Vec<SectorRef> = Vec::new();
        let mut cur = sector_ref;
        let mut fuel: usize = CHAIN_FUEL;
        loop
            invariant
                disk.wf(),
                disk_wf(disk@),
                fuel <= CHAIN_FUEL,
                ({
                    match spec_chain(disk@, cur, fuel as nat) {
                        Some(rest) => spec_chain(disk@, sector_ref, CHAIN_FUEL as nat) == Some(
                            refs@ + rest,
                        ),
                        None => spec_chain(disk@, sector_ref, CHAIN_FUEL as nat) is None,
                    }
                }),
            decreases fuel,
        {
            if cur.0 == 0 {
                proof {
                    assert(refs@ + Seq::<SectorRef>::empty() =~= refs@);
                }
                return Ok(refs);
            }
            if cur.0 > 35 || cur.1 >= self.num_sectors(cur.0) {
                return Err(DiskError::CorruptChain);
            }
            if fuel == 0 {
                return Err(DiskError::CorruptChain);
            }
            let ghost prev = cur;
            refs.push(cur);
            let sector = disk.get_sector(cur);
            cur = (sector.get_byte(0), sector.get_byte(1));
            fuel = fuel - 1;
            proof {
                if spec_chain(disk@, cur, fuel as nat) is Some {
                    let rest = spec_chain(disk@, cur, fuel as nat)->Some_0;
                    assert(refs@ + rest =~= refs@.drop_last() + (seq![prev] + rest));
                }
            }
        }
    }

    /// Append the content bytes of the chain starting at `sector_ref` —
    /// everything past each visited sector's two-byte header — to
    /// `file_content`. A corrupt chain is reported and appends nothing.
    pub fn read_sector_chain(
        &self,
        disk: &Disk<Commodore1541>,
        sector_ref: SectorRef,
        file_content: &mut Vec<u8>,
    ) -> (r: Result<(), DiskError>)
        requires
            disk.wf(),
        ensures
            spec_chain(disk@, sector_ref, CHAIN_FUEL as nat) matches Some(refs) ==> r is Ok
                && final(file_content)@ == old(file_content)@ + spec_chain_content(disk@, refs),
            spec_chain(disk@, sector_ref, CHAIN_FUEL as nat) is None ==> r == Result::<
                (),
                DiskError,
            >::Err(DiskError::CorruptChain) && final(file_content)@ == old(file_content)@,
    {
        let refs = match self.get_sector_ref_chain(disk, sector_ref) {
            Ok(refs) => refs,
            Err(e) => {
                return Err(e);
            },
        };
        proof {
            lemma_wf_equiv(disk);
            lemma_chain_refs_valid(disk@, sector_ref, CHAIN_FUEL as nat);
        }
        let n = refs.len();
        for i in 0..n
            invariant
                disk.wf(),
                disk_wf(disk@),
                n == refs@.len(),
                forall|j: int| 0 <= j < n ==> #[trigger] spec_valid_ref(refs@[j]),
                file_content@ == old(file_content)@ + spec_content_upto(disk@, refs@, i as int),
        {
            let sector_ref = refs[i];
            proof {
                assert(spec_valid_ref(refs@[i as int]));
                assert(disk@[sector_ref.0 - 1].len() == spec_track_sectors(
                    sector_ref.0 as int,
                ));
                assert(disk@[sector_ref.0 - 1][sector_ref.1 as int].len() == 256);
            }
            let sector = disk.get_sector(sector_ref);
            let mut chunk = sector.get_bytes(SECTOR_HEADER_SIZE, CONTENT_BYTES_PER_SECTOR);
            file_content.append(&mut chunk);
        }
        Ok(())
    }

    /// Wrap a copy of the header sector's availability map; mutations go
    /// back to the disk through [`Self::store_block_availability_map`].
    pub fn get_block_availability_map(&self, disk: &Disk<Commodore1541>) -> (bam:
        BlockAvailabilityMap)
        requires
            disk.wf(),
        ensures
            bam@ == spec_header(disk@),
    {
        proof {
            lemma_wf_equiv(disk);
            lemma_header_valid(disk@);
        }
        BlockAvailabilityMap::new(disk.get_sector((TRACK_HEADER, 0)))
    }

    /// Write the availability map back into the header sector.
    fn store_block_availability_map(
        &self,
        disk: &mut Disk<Commodore1541>,
        bam: BlockAvailabilityMap,
    )
        requires
            old(disk).wf(),
            bam@.len() == 256,
        ensures
            final(disk).wf(),
            final(disk)@ == disk_update(old(disk)@, (TRACK_HEADER, 0u8), bam@),
            spec_header(final(disk)@) == bam@,
            forall|r2: SectorRef|
                spec_valid_ref(r2) && r2 != (TRACK_HEADER, 0u8) ==> spec_sector_at(
                    final(disk)@,
                    r2,
                ) == spec_sector_at(old(disk)@, r2),
    {
        proof {
            lemma_wf_equiv(old(disk));
            lemma_header_valid(old(disk)@);
            lemma_update_preserves_wf(old(disk)@, (TRACK_HEADER, 0u8), bam@);
        }
        let sector = disk.get_sector_mut((TRACK_HEADER, 0));
        *sector = bam.into_sector();
        proof {
            lemma_wf_equiv(disk);
        }
    }

    /// Record one sector as used in the BAM.
    pub fn mark_sector_used(&self, disk: &mut Disk<Commodore1541>, sector_ref: SectorRef)
        requires
            old(disk).wf(),
            bam_wf(spec_header(old(disk)@)),
            1 <= sector_ref.0 <= 35,
            sector_ref.1 < 24,
        ensures
            final(disk).wf(),
            mark_used_post(spec_header(old(disk)@), spec_header(final(disk)@), sector_ref),
            forall|r2: SectorRef|
                spec_valid_ref(r2) && r2 != (TRACK_HEADER, 0u8) ==> spec_sector_at(
                    final(disk)@,
                    r2,
                ) == spec_sector_at(old(disk)@, r2),
    {
        let mut bam = self.get_block_availability_map(disk);
        bam.mark_used(sector_ref);
        self.store_block_availability_map(disk, bam);
    }

    /// Record one sector as free in the BAM.
    pub fn mark_sector_free(&self, disk: &mut Disk<Commodore1541>, sector_ref: SectorRef)
        requires
            old(disk).wf(),
            bam_wf(spec_header(old(disk)@)),
            1 <= sector_ref.0 <= 35,
            (sector_ref.1 as int) < spec_track_sectors(sector_ref.0 as int),
        ensures
            final(disk).wf(),
            mark_unused_post(spec_header(old(disk)@), spec_header(final(disk)@), sector_ref),
            forall|r2: SectorRef|
                spec_valid_ref(r2) && r2 != (TRACK_HEADER, 0u8) ==> spec_sector_at(
                    final(disk)@,
                    r2,
                ) == spec_sector_at(old(disk)@, r2),
    {
        let mut bam = self.get_block_availability_map(disk);
        bam.mark_unused(sector_ref);
        self.store_block_availability_map(disk, bam);
    }

    /// Record every listed sector as free in the BAM. The listed sectors
    /// must be distinct; the counters rise by one for each sector that was
    /// used, so the total grows by exactly the number of newly freed ones.
    pub fn mark_sector_refs_unused(
        &self,
        disk: &mut Disk<Commodore1541>,
        sector_refs: &[SectorRef],
    )
        requires
            old(disk).wf(),
            bam_wf(spec_header(old(disk)@)),
            forall|i: int|
                0 <= i < sector_refs@.len() ==> spec_valid_ref(#[trigger] sector_refs@[i]),
            forall|i: int, j: int|
                0 <= i < j < sector_refs@.len() ==> sector_refs@[i] != sector_refs@[j],
        ensures
            final(disk).wf(),
            bam_wf(spec_header(final(disk)@)),
            forall|i: int|
                0 <= i < sector_refs@.len() ==> bam_free(
                    spec_header(final(disk)@),
                    (#[trigger] sector_refs@[i]).0 as int,
                    sector_refs@[i].1 as int,
                ),
            forall|r2: SectorRef|
                1 <= r2.0 <= 35 && r2.1 < 24 && !sector_refs@.contains(r2) ==> bam_free(
                    spec_header(final(disk)@),
                    r2.0 as int,
                    r2.1 as int,
                ) == bam_free(spec_header(old(disk)@), r2.0 as int, r2.1 as int),
            (forall|i: int| 0 <= i < sector_refs@.len() ==> (#[trigger] sector_refs@[i]).0 != 18)
                ==> bam_count(spec_header(final(disk)@), 18) == bam_count(
                spec_header(old(disk)@),
                18,
            ),
            (forall|i: int|
                0 <= i < sector_refs@.len() ==> !bam_free(
                    spec_header(old(disk)@),
                    (#[trigger] sector_refs@[i]).0 as int,
                    sector_refs@[i].1 as int,
                )) ==> sum_free(spec_header(final(disk)@), 1, 35) == sum_free(
                spec_header(old(disk)@),
                1,
                35,
            ) + sector_refs@.len(),
            forall|i: int|
                0 <= i < 256 && !(4 <= i < 144) ==> spec_header(final(disk)@)[i] == spec_header(
                    old(disk)@,
                )[i],
            forall|r2: SectorRef|
                spec_valid_ref(r2) && r2 != (TRACK_HEADER, 0u8) ==> spec_sector_at(
                    final(disk)@,
                    r2,
                ) == spec_sector_at(old(disk)@, r2),
    {
        let ghost pre = spec_header(old(disk)@);
        let mut bam = self.get_block_availability_map(disk);
        let n = sector_refs.len();
        let mut i: usize = 0;
        while i < n
            invariant
                n == sector_refs@.len(),
                0 <= i <= n,
                bam_wf(pre),
                bam_wf(bam@),
                forall|k: int|
                    0 <= k < n ==> spec_valid_ref(#[trigger] sector_refs@[k]),
                forall|k: int, j: int|
                    0 <= k < j < n ==> sector_refs@[k] != sector_refs@[j],
                forall|k: int|
                    0 <= k < i ==> bam_free(
                        bam@,
                        (#[trigger] sector_refs@[k]).0 as int,
                        sector_refs@[k].1 as int,
                    ),
                forall|r2: SectorRef|
                    1 <= r2.0 <= 35 && r2.1 < 24 && !sector_refs@.subrange(0, i as int).contains(
                        r2,
                    ) ==> bam_free(bam@, r2.0 as int, r2.1 as int) == bam_free(
                        pre,
                        r2.0 as int,
                        r2.1 as int,
                    ),
                (forall|k: int| 0 <= k < n ==> (#[trigger] sector_refs@[k]).0 != 18)
                    ==> bam_count(bam@, 18) == bam_count(pre, 18),
                (forall|k: int|
                    0 <= k < n ==> !bam_free(
                        pre,
                        (#[trigger] sector_refs@[k]).0 as int,
                        sector_refs@[k].1 as int,
                    )) ==> sum_free(bam@, 1, 35) == sum_free(pre, 1, 35) + i,
                forall|k: int| 0 <= k < 256 && !(4 <= k < 144) ==> bam@[k] == pre[k],
            decreases n - i,
        {
            let ghost before = bam@;
            let sector_ref = sector_refs[i];
            proof {
                assert(spec_valid_ref(sector_refs@[i as int]));
                assert(spec_track_sectors(sector_ref.0 as int) <= 21);
            }
            bam.mark_unused(sector_ref);
            proof {
                lemma_sum_free_update(before, bam@, 1, 35, sector_ref.0 as int);
                assert forall|r2: SectorRef|
                    1 <= r2.0 <= 35 && r2.1 < 24 && !sector_refs@.subrange(0, i + 1).contains(
                        r2,
                    ) implies bam_free(bam@, r2.0 as int, r2.1 as int) == bam_free(
                    pre,
                    r2.0 as int,
                    r2.1 as int,
                ) by {
                    assert(!sector_refs@.subrange(0, i as int).contains(r2)) by {
                        assert forall|k: int|
                            0 <= k < i implies sector_refs@.subrange(0, i as int)[k] != r2 by {
                            assert(sector_refs@.subrange(0, i + 1)[k] == sector_refs@.subrange(
                                0,
                                i as int,
                            )[k]);
                        }
                    }
                    assert(r2 != sector_ref) by {
                        assert(sector_refs@.subrange(0, i + 1)[i as int] == sector_ref);
                    }
                }
                assert forall|k: int| 0 <= k < i + 1 implies bam_free(
                    bam@,
                    (#[trigger] sector_refs@[k]).0 as int,
                    sector_refs@[k].1 as int,
                ) by {
                    if k < i {
                        assert(sector_refs@[k] != sector_refs@[i as int]);
                    }
                }
                if forall|k: int|
                    0 <= k < n ==> !bam_free(
                        pre,
                        (#[trigger] sector_refs@[k]).0 as int,
                        sector_refs@[k].1 as int,
                    ) {
                    assert(!sector_refs@.subrange(0, i as int).contains(sector_refs@[i as int]))
                        by {
                        assert forall|k: int|
                            0 <= k < i implies sector_refs@.subrange(0, i as int)[k]
                            != sector_refs@[i as int] by {}
                    }
                    assert(bam_free(before, sector_ref.0 as int, sector_ref.1 as int)
                        == bam_free(pre, sector_ref.0 as int, sector_ref.1 as int));
                }
            }
            i = i + 1;
        }
        proof {
            assert(sector_refs@.subrange(0, n as int) =~= sector_refs@);
        }
        self.store_block_availability_map(disk, bam);
    }

    /// First-fit allocation from the disk's BAM; see
    /// [`BlockAvailabilityMap::allocate_sectors`].
    pub fn allocate_sectors(&self, disk: &mut Disk<Commodore1541>, num_sectors: usize) -> (r:
        Option<Vec<SectorRef>>)
        requires
            old(disk).wf(),
            bam_wf(spec_header(old(disk)@)),
        ensures
            final(disk).wf(),
            bam_wf(spec_header(final(disk)@)),
            num_sectors > user_free(spec_header(old(disk)@)) ==> r is None && final(disk)@ == old(
                disk,
            )@,
            num_sectors <= user_free(spec_header(old(disk)@)) ==> (r matches Some(v)
                && allocate_post(
                spec_header(old(disk)@),
                spec_header(final(disk)@),
                v@,
                num_sectors as int,
            )),
            forall|r2: SectorRef|
                spec_valid_ref(r2) && r2 != (TRACK_HEADER, 0u8) ==> spec_sector_at(
                    final(disk)@,
                    r2,
                ) == spec_sector_at(old(disk)@, r2),
    {
        let mut bam = self.get_block_availability_map(disk);
        let r = bam.allocate_sectors(num_sectors);
        self.store_block_availability_map(disk, bam);
        proof {
            if num_sectors > user_free(spec_header(old(disk)@)) {
                assert(final(disk)@ =~= old(disk)@) by {
                    assert(spec_header(final(disk)@) =~= spec_header(old(disk)@));
                    assert forall|t: int| 0 <= t < 35 implies final(disk)@[t] =~= old(
                        disk,
                    )@[t] by {
                        if t == 17 {
                            assert forall|s: int|
                                0 <= s < old(disk)@[17].len() implies final(disk)@[17][s] == old(
                                disk,
                            )@[17][s] by {
                                if s != 0 {
                                    assert(spec_valid_ref((18u8, s as u8)));
                                    assert(spec_sector_at(final(disk)@, (18u8, s as u8))
                                        == spec_sector_at(old(disk)@, (18u8, s as u8)));
                                }
                            }
                        }
                    }
                }
            }
        }
        r
    }

    /// The user-visible free-sector count: every track's free sectors
    /// except the header track's, which are system-reserved.
    pub fn num_unused_sectors(&self, disk: &Disk<Commodore1541>) -> (r: usize)
        requires
            disk.wf(),
            bam_wf(spec_header(disk@)),
        ensures
            r == user_free(spec_header(disk@)),
    {
        let bam = self.get_block_availability_map(disk);
        proof {
            lemma_sum_free_lower(spec_header(disk@), 1, 35, 18);
        }
        bam.count_unused_sectors(1, 35) - bam.count_unused_track_sectors(18) as usize
    }

    /// Zero every byte of one sector.
    pub fn clear_sector_ref(&self, disk: &mut Disk<Commodore1541>, sector_ref: SectorRef)
        requires
            old(disk).wf(),
            spec_valid_ref(sector_ref),
        ensures
            final(disk).wf(),
            final(disk)@ == disk_update(
                old(disk)@,
                sector_ref,
                spec_sector_at(final(disk)@, sector_ref),
            ),
            spec_sector_at(final(disk)@, sector_ref).len() == 256,
            forall|i: int| 0 <= i < 256 ==> spec_sector_at(final(disk)@, sector_ref)[i] == 0u8,
            forall|r2: SectorRef|
                spec_valid_ref(r2) && r2 != sector_ref ==> spec_sector_at(final(disk)@, r2)
                    == spec_sector_at(old(disk)@, r2),
    {
        proof {
            lemma_wf_equiv(old(disk));
            lemma_valid_ref_on_disk(old(disk)@, sector_ref);
        }
        let sector = disk.get_sector_mut(sector_ref);
        sector.fill(0, BYTES_PER_SECTOR, 0);
        proof {
            lemma_update_preserves_wf(old(disk)@, sector_ref, spec_sector_at(disk@, sector_ref));
            lemma_wf_equiv(disk);
        }
    }

    /// Zero every byte of each listed sector.
    pub fn clear_sector_refs(&self, disk: &mut Disk<Commodore1541>, sector_refs: &[SectorRef])
        requires
            old(disk).wf(),
            forall|i: int|
                0 <= i < sector_refs@.len() ==> spec_valid_ref(#[trigger] sector_refs@[i]),
        ensures
            final(disk).wf(),
            forall|i: int|
                0 <= i < sector_refs@.len() ==> spec_sector_at(
                    final(disk)@,
                    #[trigger] sector_refs@[i],
                ) =~= Seq::new(256, |k: int| 0u8),
            forall|r2: SectorRef|
                spec_valid_ref(r2) && !sector_refs@.contains(r2) ==> spec_sector_at(
                    final(disk)@,
                    r2,
                ) == spec_sector_at(old(disk)@, r2),
    {
        let n = sector_refs.len();
        let mut i: usize = 0;
        while i < n
            invariant
                n == sector_refs@.len(),
                0 <= i <= n,
                disk.wf(),
                forall|k: int|
                    0 <= k < n ==> spec_valid_ref(#[trigger] sector_refs@[k]),
                forall|k: int|
                    0 <= k < i ==> spec_sector_at(disk@, #[trigger] sector_refs@[k]) =~= Seq::new(
                        256,
                        |j: int| 0u8,
                    ),
                forall|r2: SectorRef|
                    spec_valid_ref(r2) && !sector_refs@.subrange(0, i as int).contains(r2)
                        ==> spec_sector_at(disk@, r2) == spec_sector_at(old(disk)@, r2),
            decreases n - i,
        {
            let ghost before = disk@;
            let sector_ref = sector_refs[i];
            proof {
                assert(spec_valid_ref(sector_refs@[i as int]));
            }
            self.clear_sector_ref(disk, sector_ref);
            proof {
                assert forall|r2: SectorRef|
                    spec_valid_ref(r2) && !sector_refs@.subrange(0, i + 1).contains(
                        r2,
                    ) implies spec_sector_at(disk@, r2) == spec_sector_at(old(disk)@, r2) by {
                    assert(!sector_refs@.subrange(0, i as int).contains(r2)) by {
                        assert forall|k: int|
                            0 <= k < i implies sector_refs@.subrange(0, i as int)[k] != r2 by {
                            assert(sector_refs@.subrange(0, i + 1)[k] == sector_refs@.subrange(
                                0,
                                i as int,
                            )[k]);
                        }
                    }
                    assert(r2 != sector_ref) by {
                        assert(sector_refs@.subrange(0, i + 1)[i as int] == sector_ref);
                    }
                }
                assert forall|k: int| 0 <= k < i + 1 implies spec_sector_at(
                    disk@,
                    #[trigger] sector_refs@[k],
                ) =~= Seq::new(256, |j: int| 0u8) by {
                    if k < i && sector_refs@[k] != sector_ref {
                        assert(spec_sector_at(disk@, sector_refs@[k]) == spec_sector_at(
                            before,
                            sector_refs@[k],
                        ));
                    }
                }
            }
            i = i + 1;
        }
        proof {
            assert(sector_refs@.subrange(0, n as int) =~= sector_refs@);
        }
    }

    /// Every sector reference of the geometry, each exactly once, in
    /// ascending track then sector order.
    pub fn get_all_sector_refs(&self) -> (r: Vec<SectorRef>)
        ensures
            r@.len() == 683,
            forall|i: int| 0 <= i < r@.len() ==> spec_valid_ref(#[trigger] r@[i]),
            forall|i: int, j: int|
                0 <= i < j < r@.len() ==> crate::commodore1541::bam::scan_key(r@[i])
                    < crate::commodore1541::bam::scan_key(r@[j]),
            forall|r2: SectorRef| spec_valid_ref(r2) ==> r@.contains(r2),
    {
        let mut sector_refs: Vec<SectorRef> = Vec::new();
        let mut track_no: u8 = 1;
        while track_no <= 35
            invariant
                1 <= track_no <= 36,
                sector_refs@.len() == crate::commodore1541::bam::spec_sectors_upto(
                    track_no - 1,
                ),
                forall|i: int|
                    0 <= i < sector_refs@.len() ==> spec_valid_ref(#[trigger] sector_refs@[i]),
                forall|i: int, j: int|
                    0 <= i < j < sector_refs@.len() ==> crate::commodore1541::bam::scan_key(
                        sector_refs@[i],
                    ) < crate::commodore1541::bam::scan_key(sector_refs@[j]),
                forall|i: int|
                    0 <= i < sector_refs@.len() ==> crate::commodore1541::bam::scan_key(
                        #[trigger] sector_refs@[i],
                    ) < track_no as int * 24,
                forall|r2: SectorRef|
                    spec_valid_ref(r2) && crate::commodore1541::bam::scan_key(r2) < track_no
                        as int * 24 ==> sector_refs@.contains(r2),
            decreases 36 - track_no,
        {
            let num_sectors = self.num_sectors(track_no);
            let mut sector_no: u8 = 0;
            while sector_no < num_sectors
                invariant
                    1 <= track_no <= 35,
                    num_sectors == spec_track_sectors(track_no as int),
                    0 <= sector_no <= num_sectors,
                    sector_refs@.len() == crate::commodore1541::bam::spec_sectors_upto(
                        track_no - 1,
                    ) + sector_no,
                    forall|i: int|
                        0 <= i < sector_refs@.len() ==> spec_valid_ref(
                            #[trigger] sector_refs@[i],
                        ),
                    forall|i: int, j: int|
                        0 <= i < j < sector_refs@.len() ==> crate::commodore1541::bam::scan_key(
                            sector_refs@[i],
                        ) < crate::commodore1541::bam::scan_key(sector_refs@[j]),
                    forall|i: int|
                        0 <= i < sector_refs@.len() ==> crate::commodore1541::bam::scan_key(
                            #[trigger] sector_refs@[i],
                        ) < track_no as int * 24 + sector_no as int,
                    forall|r2: SectorRef|
                        spec_valid_ref(r2) && crate::commodore1541::bam::scan_key(r2) < track_no
                            as int * 24 + sector_no as int ==> sector_refs@.contains(r2),
                decreases num_sectors - sector_no,
            {
                let ghost before = sector_refs@;
                sector_refs.push((track_no, sector_no));
                sector_no = sector_no + 1;
                proof {
                    assert forall|r2: SectorRef|
                        spec_valid_ref(r2) && crate::commodore1541::bam::scan_key(r2) < track_no
                            as int * 24 + sector_no as int implies sector_refs@.contains(
                        r2,
                    ) by {
                        if crate::commodore1541::bam::scan_key(r2) < track_no as int * 24
                            + sector_no - 1 {
                            let k = choose|k: int|
                                0 <= k < before.len() && before[k] == r2;
                            assert(sector_refs@[k] == r2);
                        } else {
                            assert((r2.1 as int) < spec_track_sectors(r2.0 as int) <= 24);
                            assert(r2 == (track_no, (sector_no - 1) as u8));
                            assert(sector_refs@[sector_refs@.len() - 1] == r2);
                        }
                    }
                }
            }
            proof {
                assert forall|r2: SectorRef|
                    spec_valid_ref(r2) && crate::commodore1541::bam::scan_key(r2) < (track_no
                        as int + 1) * 24 implies sector_refs@.contains(r2) by {
                    assert((r2.1 as int) < spec_track_sectors(r2.0 as int));
                    assert(crate::commodore1541::bam::scan_key(r2) < track_no as int * 24
                        + num_sectors as int);
                }
            }
            track_no = track_no + 1;
        }
        proof {
            assert(sector_refs@.len() == 683) by {
                reveal_with_fuel(crate::commodore1541::bam::spec_sectors_upto, 36);
            }
            assert forall|r2: SectorRef| spec_valid_ref(r2) implies sector_refs@.contains(
                r2,
            ) by {
                assert(crate::commodore1541::bam::scan_key(r2) < 36 * 24);
            }
        }
        sector_refs
    }

    /// Link each listed sector to its successor and terminate the last
    /// with the end marker; contents past the two pointer bytes are kept.
    pub fn chain_sectors(&self, disk: &mut Disk<Commodore1541>, sectors: &[SectorRef])
        requires
            old(disk).wf(),
            forall|i: int| 0 <= i < sectors@.len() ==> spec_valid_ref(#[trigger] sectors@[i]),
            forall|i: int, j: int|
                0 <= i < j < sectors@.len() ==> sectors@[i] != sectors@[j],
        ensures
            final(disk).wf(),
            forall|i: int|
                0 <= i < sectors@.len() - 1 ==> spec_next_ref(
                    spec_sector_at(final(disk)@, #[trigger] sectors@[i]),
                ) == sectors@[i + 1],
            sectors@.len() > 0 ==> spec_next_ref(
                spec_sector_at(final(disk)@, sectors@[sectors@.len() - 1]),
            ) == (0u8, 255u8),
            forall|i: int, k: int|
                #![trigger spec_sector_at(final(disk)@, sectors@[i])[k]]
                0 <= i < sectors@.len() && 2 <= k < 256 ==> spec_sector_at(
                    final(disk)@,
                    sectors@[i],
                )[k] == spec_sector_at(old(disk)@, sectors@[i])[k],
            forall|i: int|
                0 <= i < sectors@.len() ==> spec_sector_at(
                    final(disk)@,
                    #[trigger] sectors@[i],
                ).len() == 256,
            forall|r2: SectorRef|
                spec_valid_ref(r2) && !sectors@.contains(r2) ==> spec_sector_at(final(disk)@, r2)
                    == spec_sector_at(old(disk)@, r2),
    {
        let n = sectors.len();
        if n == 0 {
            return ;
        }
        let mut i: usize = 0;
        while i < n
            invariant
                n == sectors@.len(),
                n > 0,
                0 <= i <= n,
                disk.wf(),
                disk_wf(disk@),
                forall|k: int| 0 <= k < n ==> spec_valid_ref(#[trigger] sectors@[k]),
                forall|k: int, j: int| 0 <= k < j < n ==> sectors@[k] != sectors@[j],
                forall|k: int|
                    0 <= k < i && k < n - 1 ==> spec_next_ref(
                        spec_sector_at(disk@, #[trigger] sectors@[k]),
                    ) == sectors@[k + 1],
                i > n - 1 ==> spec_next_ref(spec_sector_at(disk@, sectors@[n - 1])) == (
                0u8, 255u8),
                forall|k: int, b: int|
                    #![trigger spec_sector_at(disk@, sectors@[k])[b]]
                    0 <= k < i && 2 <= b < 256 ==> spec_sector_at(
                        disk@,
                        sectors@[k],
                    )[b] == spec_sector_at(old(disk)@, sectors@[k])[b],
                forall|k: int|
                    0 <= k < n ==> spec_sector_at(disk@, #[trigger] sectors@[k]).len() == 256,
                forall|r2: SectorRef|
                    spec_valid_ref(r2) && !sectors@.subrange(0, i as int).contains(r2)
                        ==> spec_sector_at(disk@, r2) == spec_sector_at(old(disk)@, r2),
            decreases n - i,
        {
            let ghost before = disk@;
            let sector_ref = sectors[i];
            proof {
                lemma_wf_equiv(disk);
                assert(spec_valid_ref(sectors@[i as int]));
                lemma_valid_ref_on_disk(disk@, sector_ref);
            }
            let sector = disk.get_sector_mut(sector_ref);
            if i + 1 < n {
                let next_ref = sectors[i + 1];
                self.set_next_sector(sector, next_ref);
            } else {
                self.end_sector_chain(sector);
            }
            proof {
                lemma_update_preserves_wf(before, sector_ref, spec_sector_at(disk@, sector_ref));
                lemma_wf_equiv(disk);
                assert forall|r2: SectorRef|
                    spec_valid_ref(r2) && !sectors@.subrange(0, i + 1).contains(
                        r2,
                    ) implies spec_sector_at(disk@, r2) == spec_sector_at(old(disk)@, r2) by {
                    assert(!sectors@.subrange(0, i as int).contains(r2)) by {
                        assert forall|k: int|
                            0 <= k < i implies sectors@.subrange(0, i as int)[k] != r2 by {
                            assert(sectors@.subrange(0, i + 1)[k] == sectors@.subrange(
                                0,
                                i as int,
                            )[k]);
                        }
                    }
                    assert(r2 != sector_ref) by {
                        assert(sectors@.subrange(0, i + 1)[i as int] == sector_ref);
                    }
                }
                assert forall|k: int| 0 <= k < i + 1 && k < n - 1 implies spec_next_ref(
                    spec_sector_at(disk@, #[trigger] sectors@[k]),
                ) == sectors@[k + 1] by {
                    if k < i {
                        assert(sectors@[k] != sectors@[i as int]);
                        assert(spec_sector_at(disk@, sectors@[k]) == spec_sector_at(
                            before,
                            sectors@[k],
                        ));
                    }
                }
                assert forall|k: int, b: int|
                    #![trigger spec_sector_at(disk@, sectors@[k])[b]]
                    0 <= k < i + 1 && 2 <= b < 256 implies spec_sector_at(
                    disk@,
                    sectors@[k],
                )[b] == spec_sector_at(old(disk)@, sectors@[k])[b] by {
                    if k < i {
                        assert(sectors@[k] != sectors@[i as int]);
                        assert(spec_sector_at(disk@, sectors@[k]) == spec_sector_at(
                            before,
                            sectors@[k],
                        ));
                    } else {
                        assert(spec_sector_at(disk@, sectors@[k])[b] == spec_sector_at(
                            before,
                            sectors@[k],
                        )[b]);
                    }
                }
            }
            i = i + 1;
        }
        proof {
            assert(sectors@.subrange(0, n as int) =~= sectors@);
        }
    }

    /// The contents of the given file: the content region of every sector
    /// of its chain, in visit order, zero-padded by construction to whole
    /// sectors. A corrupt chain is reported, never silently truncated.
    pub fn read_file(&self, disk: &Disk<Commodore1541>, file_entry: &FileEntry) -> (r: Result<
        Vec<u8>,
        DiskError,
    >)
        requires
            disk.wf(),
        ensures
            spec_read_file(disk@, file_entry.start_sector) matches Some(bytes) ==> r is Ok
                && r->Ok_0@ == bytes,
            spec_read_file(disk@, file_entry.start_sector) is None ==> r == Result::<
                Vec<u8>,
                DiskError,
            >::Err(DiskError::CorruptChain),
    {
        let mut result: Vec<u8> = Vec::new();
        match self.read_sector_chain(disk, file_entry.start_sector, &mut result) {
            Ok(_) => Ok(result),
            Err(e) => Err(e),
        }
    }

    /// Write a directory record into the given slot.
    pub fn update_file_list_entry(
        &self,
        disk: &mut Disk<Commodore1541>,
        entry_ref: crate::commodore1541::file_entry::FileListEntryRef,
        file_entry: &FileEntry,
    )
        requires
            old(disk).wf(),
            spec_valid_ref(entry_ref.0),
            entry_ref.1 < 8,
            file_entry@.num_sectors < 65536,
            file_entry@.name.len() <= 16,
        ensures
            final(disk).wf(),
            spec_sector_at(final(disk)@, entry_ref.0).len() == 256,
            ({
                let off = entry_ref.1 * 32;
                let sec = spec_sector_at(final(disk)@, entry_ref.0);
                let pre = spec_sector_at(old(disk)@, entry_ref.0);
                forall|i: int|
                    0 <= i < 256 ==> #[trigger] sec[i] == (if i == off + 2 {
                        crate::commodore1541::file_entry::spec_file_type_byte(
                            file_entry@.file_type,
                        )
                    } else if i == off + 3 {
                        file_entry@.start_sector.0
                    } else if i == off + 4 {
                        file_entry@.start_sector.1
                    } else if off + 5 <= i < off + 5 + file_entry@.name.len() {
                        file_entry@.name[i - off - 5]
                    } else if off + 5 + file_entry@.name.len() <= i < off + 21 {
                        crate::petscii::PETSCII_NBSP
                    } else if i == off + 30 {
                        (file_entry@.num_sectors % 256) as u8
                    } else if i == off + 31 {
                        (file_entry@.num_sectors / 256) as u8
                    } else {
                        pre[i]
                    })
            }),
            forall|r2: SectorRef|
                spec_valid_ref(r2) && r2 != entry_ref.0 ==> spec_sector_at(final(disk)@, r2)
                    == spec_sector_at(old(disk)@, r2),
    {
        proof {
            lemma_wf_equiv(old(disk));
            lemma_valid_ref_on_disk(old(disk)@, entry_ref.0);
        }
        let sector = disk.get_sector_mut(entry_ref.0);
        let offset = entry_ref.1 * FILE_LIST_ENTRY_SIZE;
        file_entry.store(sector, offset);
        proof {
            lemma_update_preserves_wf(
                old(disk)@,
                entry_ref.0,
                spec_sector_at(disk@, entry_ref.0),
            );
            lemma_wf_equiv(disk);
        }
    }

    /// Soft-delete a directory record: its slot keeps only the two chain
    /// pointer bytes and becomes scratched, eligible for reuse.
    pub fn scratch_file_list_entry(&self, disk: &mut Disk<Commodore1541>, file_entry: &FileEntry)
        requires
            old(disk).wf(),
            spec_valid_ref(file_entry.file_entry_ref.0),
            file_entry.file_entry_ref.1 < 8,
        ensures
            final(disk).wf(),
            spec_sector_at(final(disk)@, file_entry.file_entry_ref.0).len() == 256,
            ({
                let off = file_entry.file_entry_ref.1 * 32;
                let sec = spec_sector_at(final(disk)@, file_entry.file_entry_ref.0);
                let pre = spec_sector_at(old(disk)@, file_entry.file_entry_ref.0);
                forall|i: int|
                    0 <= i < 256 ==> #[trigger] sec[i] == (if off + 2 <= i < off + 32 {
                        0u8
                    } else {
                        pre[i]
                    })
            }),
            forall|r2: SectorRef|
                spec_valid_ref(r2) && r2 != file_entry.file_entry_ref.0 ==> spec_sector_at(
                    final(disk)@,
                    r2,
                ) == spec_sector_at(old(disk)@, r2),
    {
        proof {
            lemma_wf_equiv(old(disk));
            lemma_valid_ref_on_disk(old(disk)@, file_entry.file_entry_ref.0);
        }
        let sector = disk.get_sector_mut(file_entry.file_entry_ref.0);
        let offset = file_entry.file_entry_ref.1 * FILE_LIST_ENTRY_SIZE;
        file_entry.scratch(sector, offset);
        proof {
            lemma_update_preserves_wf(
                old(disk)@,
                file_entry.file_entry_ref.0,
                spec_sector_at(disk@, file_entry.file_entry_ref.0),
            );
            lemma_wf_equiv(disk);
        }
    }

    /// Decode every live directory record, in on-disk order: chain order,
    /// then slot order 0..8 within each directory sector.
    pub fn list_entries(&self, disk: &Disk<Commodore1541>) -> (r: Result<Vec<FileEntry>, DiskError>)
        requires
            disk.wf(),
        ensures
            spec_list_entries(disk@) matches Some(es) ==> r is Ok && spec_views_of(r->Ok_0@)
                == es,
            spec_list_entries(disk@) is None ==> r == Result::<Vec<FileEntry>, DiskError>::Err(
                DiskError::CorruptChain,
            ),
    {
        proof {
            lemma_wf_equiv(disk);
            lemma_header_valid(disk@);
        }
        let hdr_sector = disk.get_sector((TRACK_HEADER, 0));
        let start = (hdr_sector.get_byte(0), hdr_sector.get_byte(1));
        let refs = match self.get_sector_ref_chain(disk, start) {
            Ok(refs) => refs,
            Err(e) => {
                return Err(e);
            },
        };
        proof {
            lemma_chain_refs_valid(disk@, start, CHAIN_FUEL as nat);
        }
        let mut result: Vec<FileEntry> = Vec::new();
        let n = refs.len();
        for i in 0..n
            invariant
                disk.wf(),
                disk_wf(disk@),
                n == refs@.len(),
                spec_dir_chain(disk@) == Some(refs@),
                forall|j: int| 0 <= j < n ==> #[trigger] spec_valid_ref(refs@[j]),
                spec_views_of(result@) =~= spec_entries_upto(disk@, refs@, i as int),
        {
            let sector_ref = refs[i];
            proof {
                assert(spec_valid_ref(refs@[i as int]));
                lemma_valid_ref_on_disk(disk@, sector_ref);
            }
            let sector = disk.get_sector(sector_ref);
            let ghost sec = spec_sector_at(disk@, sector_ref);
            let mut k: usize = 0;
            while k < 8
                invariant
                    0 <= k <= 8,
                    sector@ == sec,
                    sec.len() == 256,
                    spec_views_of(result@) =~= spec_entries_upto(disk@, refs@, i as int)
                        + spec_slot_entries(sec, sector_ref, k as int),
                decreases 8 - k,
            {
                let entry_bytes = sector.get_bytes(k * FILE_LIST_ENTRY_SIZE, FILE_LIST_ENTRY_SIZE);
                let entry = FileEntry::from_bytes(entry_bytes.as_slice(), (sector_ref, k));
                proof {
                    assert(entry_bytes@[2] == sec[32 * (k as int) + 2]);
                }
                let ghost prev_views = spec_views_of(result@);
                if entry.file_type != crate::commodore1541::file_entry::FileType::Scratched {
                    result.push(entry);
                    proof {
                        assert(spec_views_of(result@) =~= prev_views.push(entry@));
                    }
                }
                k = k + 1;
                proof {
                    assert(spec_views_of(result@) =~= spec_entries_upto(disk@, refs@, i as int)
                        + spec_slot_entries(sec, sector_ref, k as int));
                }
            }
        }
        Ok(result)
    }

    /// The first scratched directory slot, in the same order `list_entries`
    /// scans, if any slot is free for reuse.
    pub fn find_scratched_file_list_entry(&self, disk: &Disk<Commodore1541>) -> (r: Result<
        Option<crate::commodore1541::file_entry::FileListEntryRef>,
        DiskError,
    >)
        requires
            disk.wf(),
        ensures
            spec_dir_chain(disk@) matches Some(refs) ==> ({
                match spec_find_scratched(disk@, refs, 0) {
                    Some(p) => r is Ok && r->Ok_0 is Some && r->Ok_0->Some_0.0 == p.0
                        && r->Ok_0->Some_0.1 as int == p.1 && 0 <= p.1 < 8,
                    None => r == Result::<
                        Option<crate::commodore1541::file_entry::FileListEntryRef>,
                        DiskError,
                    >::Ok(None),
                }
            }),
            spec_dir_chain(disk@) is None ==> r == Result::<
                Option<crate::commodore1541::file_entry::FileListEntryRef>,
                DiskError,
            >::Err(DiskError::CorruptChain),
    {
        proof {
            lemma_wf_equiv(disk);
            lemma_header_valid(disk@);
        }
        let hdr_sector = disk.get_sector((TRACK_HEADER, 0));
        let start = (hdr_sector.get_byte(0), hdr_sector.get_byte(1));
        let refs = match self.get_sector_ref_chain(disk, start) {
            Ok(refs) => refs,
            Err(e) => {
                return Err(e);
            },
        };
        proof {
            lemma_chain_refs_valid(disk@, start, CHAIN_FUEL as nat);
        }
        let n = refs.len();
        for i in 0..n
            invariant
                disk.wf(),
                disk_wf(disk@),
                n == refs@.len(),
                spec_dir_chain(disk@) == Some(refs@),
                forall|j: int| 0 <= j < n ==> #[trigger] spec_valid_ref(refs@[j]),
                spec_find_scratched(disk@, refs@, 0) == spec_find_scratched(
                    disk@,
                    refs@,
                    i as int,
                ),
        {
            let sector_ref = refs[i];
            proof {
                assert(spec_valid_ref(refs@[i as int]));
                lemma_valid_ref_on_disk(disk@, sector_ref);
            }
            let sector = disk.get_sector(sector_ref);
            let ghost sec = spec_sector_at(disk@, sector_ref);
            let mut k: usize = 0;
            while k < 8
                invariant
                    0 <= i < n,
                    n == refs@.len(),
                    disk.wf(),
                    disk_wf(disk@),
                    spec_dir_chain(disk@) == Some(refs@),
                    sector_ref == refs@[i as int],
                    sec == spec_sector_at(disk@, sector_ref),
                    spec_find_scratched(disk@, refs@, 0) == spec_find_scratched(
                        disk@,
                        refs@,
                        i as int,
                    ),
                    0 <= k <= 8,
                    sector@ == sec,
                    sec.len() == 256,
                    spec_first_scratched_slot(sec, 0) == spec_first_scratched_slot(
                        sec,
                        k as int,
                    ),
                decreases 8 - k,
            {
                let tag = sector.get_byte(k * FILE_LIST_ENTRY_SIZE + 2);
                let file_type = crate::commodore1541::file_entry::FileType::from_byte(tag);
                if file_type == crate::commodore1541::file_entry::FileType::Scratched {
                    proof {
                        assert(tag == sec[32 * (k as int) + 2]);
                        assert(spec_first_scratched_slot(sec, k as int) == Some(k as int));
                        assert(spec_find_scratched(disk@, refs@, i as int) == Some(
                            (refs@[i as int], k as int),
                        ));
                    }
                    return Ok(Some((sector_ref, k)));
                }
                k = k + 1;
            }
            proof {
                assert(spec_first_scratched_slot(sec, 0) is None);
                assert(spec_find_scratched(disk@, refs@, i as int) == spec_find_scratched(
                    disk@,
                    refs@,
                    i + 1,
                ));
            }
        }
        Ok(None)
    }

    /// Grow the directory by one sector: allocate it, link the chain's
    /// last sector (or the header, for an empty chain) to it, zero its
    /// record slots and make it the chain's new end.
    pub fn create_file_list_sector(&self, disk: &mut Disk<Commodore1541>) -> (r: Result<
        SectorRef,
        DiskError,
    >)
        requires
            old(disk).wf(),
            bam_wf(spec_header(old(disk)@)),
        ensures
            final(disk).wf(),
            bam_wf(spec_header(final(disk)@)),
            spec_dir_chain(old(disk)@) is None ==> r == Result::<SectorRef, DiskError>::Err(
                DiskError::CorruptChain,
            ) && final(disk)@ == old(disk)@,
            spec_dir_chain(old(disk)@) is Some && user_free(spec_header(old(disk)@)) < 1 ==> r
                == Result::<SectorRef, DiskError>::Err(DiskError::AllocationExhausted)
                && final(disk)@ == old(disk)@,
            spec_dir_chain(old(disk)@) is Some && user_free(spec_header(old(disk)@)) >= 1 ==> (
            r matches Ok(new_ref) && ({
                let dirs = spec_dir_chain(old(disk)@)->Some_0;
                let end_ref = spec_dir_end(dirs);
                &&& spec_user_ref(new_ref)
                &&& bam_free(spec_header(old(disk)@), new_ref.0 as int, new_ref.1 as int)
                &&& !bam_free(spec_header(final(disk)@), new_ref.0 as int, new_ref.1 as int)
                &&& forall|r2: SectorRef|
                    spec_user_ref(r2) && bam_free(
                        spec_header(old(disk)@),
                        r2.0 as int,
                        r2.1 as int,
                    ) && r2 != new_ref ==> crate::commodore1541::bam::scan_key(r2)
                        > crate::commodore1541::bam::scan_key(new_ref)
                &&& forall|r2: SectorRef|
                    1 <= r2.0 <= 35 && r2.1 < 24 && r2 != new_ref ==> bam_free(
                        spec_header(final(disk)@),
                        r2.0 as int,
                        r2.1 as int,
                    ) == bam_free(spec_header(old(disk)@), r2.0 as int, r2.1 as int)
                &&& bam_count(spec_header(final(disk)@), 18) == bam_count(
                    spec_header(old(disk)@),
                    18,
                )
                &&& user_free(spec_header(final(disk)@)) == user_free(spec_header(old(disk)@))
                    - 1
                &&& spec_sector_at(final(disk)@, new_ref).len() == 256
                &&& spec_sector_at(final(disk)@, new_ref)[0] == 0
                &&& spec_sector_at(final(disk)@, new_ref)[1] == 255
                &&& forall|k: int|
                    2 <= k < 256 ==> spec_sector_at(final(disk)@, new_ref)[k] == 0
                &&& (dirs.len() > 0 && end_ref != new_ref && end_ref != (TRACK_HEADER, 0u8)
                    ==> spec_next_ref(spec_sector_at(final(disk)@, end_ref)) == new_ref && (
                forall|k: int|
                    2 <= k < 256 ==> spec_sector_at(final(disk)@, end_ref)[k] == spec_sector_at(
                        old(disk)@,
                        end_ref,
                    )[k]))
                &&& (dirs.len() == 0 ==> spec_header(final(disk)@)[0] == new_ref.0
                    && spec_header(final(disk)@)[1] == new_ref.1)
                &&& (dirs.len() > 0 && end_ref != (TRACK_HEADER, 0u8) ==> forall|i: int|
                    0 <= i < 256 && !(4 <= i < 144) ==> spec_header(final(disk)@)[i]
                        == spec_header(old(disk)@)[i])
                &&& (dirs.len() == 0 ==> forall|i: int|
                    2 <= i < 256 && !(4 <= i < 144) ==> spec_header(final(disk)@)[i]
                        == spec_header(old(disk)@)[i])
                &&& forall|r2: SectorRef|
                    spec_valid_ref(r2) && r2 != (TRACK_HEADER, 0u8) && r2 != end_ref && r2
                        != new_ref ==> spec_sector_at(final(disk)@, r2) == spec_sector_at(
                        old(disk)@,
                        r2,
                    )
            })),
    {
        proof {
            lemma_wf_equiv(old(disk));
            lemma_header_valid(old(disk)@);
        }
        let hdr_sector = disk.get_sector((TRACK_HEADER, 0));
        let start = (hdr_sector.get_byte(0), hdr_sector.get_byte(1));
        let refs = match self.get_sector_ref_chain(disk, start) {
            Ok(refs) => refs,
            Err(e) => {
                return Err(e);
            },
        };
        let avail = self.num_unused_sectors(disk);
        if avail < 1 {
            return Err(DiskError::AllocationExhausted);
        }
        let allocated = match self.allocate_sectors(disk, 1) {
            Some(v) => v,
            None => {
                // unreachable: at least one free sector was checked above
                proof {
                    assert(false);
                }
                return Err(DiskError::AllocationExhausted);
            },
        };
        let ghost mid1 = disk@;
        let new_ref = allocated[0];
        proof {
            lemma_chain_refs_valid(old(disk)@, start, CHAIN_FUEL as nat);
            lemma_wf_equiv(disk);
        }
        let end_ref = if refs.len() == 0 {
            (TRACK_HEADER, 0)
        } else {
            refs[refs.len() - 1]
        };
        proof {
            if refs@.len() > 0 {
                assert(spec_valid_ref(refs@[refs@.len() - 1]));
            }
            lemma_valid_ref_on_disk(mid1, end_ref);
        }
        let end_sector = disk.get_sector_mut(end_ref);
        self.set_next_sector(end_sector, new_ref);
        let ghost mid2 = disk@;
        proof {
            lemma_update_preserves_wf(mid1, end_ref, spec_sector_at(disk@, end_ref));
            lemma_wf_equiv(disk);
            assert(spec_user_ref(allocated@[0]));
            lemma_valid_ref_on_disk(mid2, new_ref);
        }
        let new_sector = disk.get_sector_mut(new_ref);
        new_sector.fill(SECTOR_HEADER_SIZE, BYTES_PER_SECTOR, 0);
        self.end_sector_chain(new_sector);
        proof {
            lemma_update_preserves_wf(mid2, new_ref, spec_sector_at(disk@, new_ref));
            lemma_wf_equiv(disk);
            let hdr0 = spec_header(old(disk)@);
            let hdrf = spec_header(disk@);
            assert(spec_valid_ref((TRACK_HEADER, 0u8)));
            assert(new_ref != (TRACK_HEADER, 0u8));
            assert(spec_sector_at(disk@, (TRACK_HEADER, 0u8)) == spec_sector_at(
                mid2,
                (TRACK_HEADER, 0u8),
            ));
            assert(hdrf == spec_header(mid2));
            if end_ref == (TRACK_HEADER, 0u8) {
                assert forall|t2: int, s2: int| 1 <= t2 <= 35 && 0 <= s2 < 24 implies bam_free(
                    hdrf,
                    t2,
                    s2,
                ) == bam_free(spec_header(mid1), t2, s2) by {
                    crate::commodore1541::bam::lemma_bam_offsets(t2, s2, t2, s2);
                }
                assert forall|t2: int| 1 <= t2 <= 35 implies bam_track_wf(hdrf, t2) by {
                    assert(bam_track_wf(spec_header(mid1), t2));
                    crate::commodore1541::bam::lemma_num_free_upto_agree(
                        hdrf,
                        spec_header(mid1),
                        t2,
                        24,
                    );
                    crate::commodore1541::bam::lemma_bam_offsets(t2, 0, t2, 0);
                }
                crate::commodore1541::bam::lemma_sum_free_agree(hdrf, spec_header(mid1), 1, 35);
                assert(bam_count(hdrf, 18) == bam_count(spec_header(mid1), 18)) by {
                    crate::commodore1541::bam::lemma_bam_offsets(18, 0, 18, 0);
                }
            } else {
                assert(spec_sector_at(mid2, (TRACK_HEADER, 0u8)) == spec_sector_at(
                    mid1,
                    (TRACK_HEADER, 0u8),
                ));
                assert(hdrf == spec_header(mid1));
            }
            assert(user_free(hdrf) == user_free(hdr0) - 1);
            assert(allocate_post(hdr0, spec_header(mid1), allocated@, 1));
            assert(bam_free(hdr0, new_ref.0 as int, new_ref.1 as int));
            assert(!bam_free(spec_header(mid1), new_ref.0 as int, new_ref.1 as int));
            assert forall|r2: SectorRef|
                spec_user_ref(r2) && bam_free(hdr0, r2.0 as int, r2.1 as int) && r2
                    != new_ref implies crate::commodore1541::bam::scan_key(r2)
                > crate::commodore1541::bam::scan_key(new_ref) by {
                assert(!allocated@.contains(r2)) by {
                    assert forall|j: int| 0 <= j < allocated@.len() implies allocated@[j]
                        != r2 by {
                        assert(allocated@[0] == new_ref);
                    }
                }
                assert(allocated@[allocated@.len() - 1] == new_ref);
            }
            assert forall|r2: SectorRef| 1 <= r2.0 <= 35 && r2.1 < 24 && r2
                != new_ref implies bam_free(hdrf, r2.0 as int, r2.1 as int) == bam_free(
                hdr0,
                r2.0 as int,
                r2.1 as int,
            ) by {
                assert(!allocated@.contains(r2)) by {
                    assert forall|j: int| 0 <= j < allocated@.len() implies allocated@[j]
                        != r2 by {
                        assert(allocated@[0] == new_ref);
                    }
                }
            }
            assert(spec_sector_at(disk@, new_ref)[0] == 0);
            assert(spec_sector_at(disk@, new_ref)[1] == 255);
            if refs.len() > 0 && end_ref != new_ref && end_ref != (TRACK_HEADER, 0u8) {
                assert(spec_sector_at(disk@, end_ref) == spec_sector_at(mid2, end_ref));
                assert(spec_next_ref(spec_sector_at(mid2, end_ref)) == new_ref);
                assert forall|k: int| 2 <= k < 256 implies spec_sector_at(disk@, end_ref)[k]
                    == spec_sector_at(old(disk)@, end_ref)[k] by {
                    assert(spec_valid_ref(end_ref));
                    assert(end_ref != (TRACK_HEADER, 0u8));
                    assert(spec_sector_at(mid2, end_ref)[k] == spec_sector_at(mid1, end_ref)[k]);
                    assert(spec_sector_at(mid1, end_ref) == spec_sector_at(old(disk)@, end_ref));
                }
            }
            assert forall|r2: SectorRef|
                spec_valid_ref(r2) && r2 != (TRACK_HEADER, 0u8) && r2 != end_ref && r2
                    != new_ref implies spec_sector_at(disk@, r2) == spec_sector_at(
                old(disk)@,
                r2,
            ) by {
                assert(spec_sector_at(disk@, r2) == spec_sector_at(mid2, r2));
                assert(spec_sector_at(mid2, r2) == spec_sector_at(mid1, r2));
                assert(spec_sector_at(mid1, r2) == spec_sector_at(old(disk)@, r2));
            }
        }
        Ok(new_ref)
    }

    /// Create a new file: split the content into 254-byte chunks, allocate
    /// one sector per chunk, chain and fill them, and record the file in
    /// the directory — reusing the first scratched slot, or growing the
    /// directory by one sector when none is left. On a consistent disk the
    /// operation succeeds exactly when enough sectors are free, and a
    /// failed create changes nothing.
    #[verifier::rlimit(100)]
    pub fn create_file(
        &self,
        disk: &mut Disk<Commodore1541>,
        file_entry: &FileEntry,
        content: &[u8],
    ) -> (r: Result<FileEntry, DiskError>)
        requires
            old(disk).wf(),
            bam_wf(spec_header(old(disk)@)),
            content@.len() > 0,
            file_entry@.name.len() <= 16,
            file_entry@.file_type != crate::commodore1541::file_entry::FileType::Scratched,
        ensures
            final(disk).wf(),
            spec_dir_chain(old(disk)@) is None ==> r == Result::<FileEntry, DiskError>::Err(
                DiskError::CorruptChain,
            ) && final(disk)@ == old(disk)@,
            spec_dir_chain(old(disk)@) is Some && spec_create_needs(
                old(disk)@,
                spec_num_chunks(content@.len() as int),
            ) > user_free(spec_header(old(disk)@)) ==> r == Result::<FileEntry, DiskError>::Err(
                DiskError::AllocationExhausted,
            ) && final(disk)@ == old(disk)@,
            spec_dir_ok(old(disk)@) && spec_create_needs(
                old(disk)@,
                spec_num_chunks(content@.len() as int),
            ) <= user_free(spec_header(old(disk)@)) ==> r is Ok,
            r is Ok ==> r->Ok_0@.num_sectors == spec_num_chunks(content@.len() as int)
                && r->Ok_0@.file_type == file_entry@.file_type && r->Ok_0@.name
                == file_entry@.name,
            r is Ok && spec_dir_ok(old(disk)@) ==> ({
                let e = r->Ok_0;
                let n = spec_num_chunks(content@.len() as int);
                &&& bam_wf(spec_header(final(disk)@))
                &&& user_free(spec_header(final(disk)@)) == user_free(spec_header(old(disk)@))
                    - spec_create_needs(old(disk)@, n)
                &&& spec_chain(final(disk)@, e.start_sector, CHAIN_FUEL as nat) matches Some(
                    crefs,
                ) && crefs.len() == n && spec_next_ref(
                    spec_sector_at(final(disk)@, crefs[crefs.len() - 1]),
                ) == (0u8, 255u8) && (forall|i: int|
                    0 <= i < crefs.len() ==> spec_user_ref(#[trigger] crefs[i]) && !bam_free(
                        spec_header(final(disk)@),
                        crefs[i].0 as int,
                        crefs[i].1 as int,
                    ) && bam_free(
                        spec_header(old(disk)@),
                        crefs[i].0 as int,
                        crefs[i].1 as int,
                    ))
                &&& spec_read_file(final(disk)@, e.start_sector) == Some(
                    spec_zero_pad(content@, n),
                )
                &&& spec_valid_ref(e.file_entry_ref.0)
                &&& e.file_entry_ref.1 < 8
                &&& spec_dir_ok(final(disk)@)
                &&& spec_entry_clean(
                    final(disk)@,
                    e.start_sector,
                    (e.file_entry_ref.0, e.file_entry_ref.1 as int),
                )
                &&& spec_list_entries(old(disk)@) is Some
                &&& spec_list_entries(final(disk)@) is Some
                &&& spec_list_entries(final(disk)@)->Some_0.filter(
                    |ev: crate::commodore1541::file_entry::FileEntryView|
                        ev.file_entry_ref != (e.file_entry_ref.0, e.file_entry_ref.1 as int),
                ) == spec_list_entries(old(disk)@)->Some_0
                &&& spec_list_entries(final(disk)@)->Some_0.len() == spec_list_entries(
                    old(disk)@,
                )->Some_0.len() + 1
                &&& spec_list_entries(final(disk)@)->Some_0.contains(
                    (crate::commodore1541::file_entry::FileEntryView {
                        name: e@.name + Seq::new(
                            (16 - e@.name.len()) as nat,
                            |b: int| crate::petscii::PETSCII_NBSP,
                        ),
                        file_type: e@.file_type,
                        num_sectors: n,
                        start_sector: e@.start_sector,
                        file_entry_ref: (e.file_entry_ref.0, e.file_entry_ref.1 as int),
                    }),
                )
            }),
    {
        let ghost hdr0 = spec_header(old(disk)@);
        let len = content.len();
        let num_sectors = len / 254 + if len % 254 != 0 {
            1
        } else {
            0
        };
        proof {
            assert(num_sectors == spec_num_chunks(len as int));
            assert(len <= 254 * num_sectors);
            assert(254 * (num_sectors - 1) < len);
        }
        let slot = match self.find_scratched_file_list_entry(disk) {
            Ok(slot) => slot,
            Err(e) => {
                return Err(e);
            },
        };
        let ghost dirs = spec_dir_chain(old(disk)@)->Some_0;
        let avail = self.num_unused_sectors(disk);
        proof {
            crate::commodore1541::bam::lemma_user_free_le(hdr0);
        }
        let extra: usize = if slot.is_some() {
            0
        } else {
            1
        };
        if num_sectors > avail || num_sectors + extra > avail {
            return Err(DiskError::AllocationExhausted);
        }
        let sectors = match self.allocate_sectors(disk, num_sectors) {
            Some(v) => v,
            None => {
                // unreachable: the free count was checked above, and
                // allocation succeeds whenever the request fits
                proof {
                    assert(false);
                }
                return Err(DiskError::AllocationExhausted);
            },
        };
        let ghost d_alloc = disk@;
        proof {
            assert(allocate_post(hdr0, spec_header(d_alloc), sectors@, num_sectors as int));
            assert forall|i: int, j: int| 0 <= i < j < sectors@.len() implies sectors@[i]
                != sectors@[j] by {
                assert(crate::commodore1541::bam::scan_key(sectors@[i])
                    < crate::commodore1541::bam::scan_key(sectors@[j]));
            }
            assert forall|i: int| 0 <= i < sectors@.len() implies spec_valid_ref(
                #[trigger] sectors@[i],
            ) by {
                assert(spec_user_ref(sectors@[i]));
            }
            assert(!sectors@.contains((TRACK_HEADER, 0u8))) by {
                assert forall|i: int| 0 <= i < sectors@.len() implies sectors@[i] != (
                TRACK_HEADER, 0u8) by {
                    assert(spec_user_ref(sectors@[i]));
                }
            }
        }
        self.clear_sector_refs(disk, sectors.as_slice());
        let ghost d_clear = disk@;
        self.chain_sectors(disk, sectors.as_slice());
        let ghost d_chain = disk@;
        proof {
            assert(spec_header(d_chain) == spec_header(d_alloc)) by {
                assert(spec_valid_ref((TRACK_HEADER, 0u8)));
                assert(spec_sector_at(d_chain, (TRACK_HEADER, 0u8)) == spec_sector_at(
                    d_clear,
                    (TRACK_HEADER, 0u8),
                ));
                assert(spec_sector_at(d_clear, (TRACK_HEADER, 0u8)) == spec_sector_at(
                    d_alloc,
                    (TRACK_HEADER, 0u8),
                ));
            }
        }
        let mut i: usize = 0;
        while i < num_sectors
            invariant
                0 <= i <= num_sectors,
                disk.wf(),
                disk_wf(disk@),
                sectors@.len() == num_sectors,
                num_sectors <= 683,
                len == content@.len(),
                len <= 254 * num_sectors,
                254 * (num_sectors - 1) < len,
                forall|j: int| 0 <= j < num_sectors ==> spec_valid_ref(#[trigger] sectors@[j]),
                forall|j: int, j2: int|
                    0 <= j < j2 < num_sectors ==> sectors@[j] != sectors@[j2],
                forall|j: int|
                    0 <= j < num_sectors - 1 ==> spec_next_ref(
                        spec_sector_at(disk@, #[trigger] sectors@[j]),
                    ) == sectors@[j + 1],
                num_sectors > 0 ==> spec_next_ref(
                    spec_sector_at(disk@, sectors@[num_sectors - 1]),
                ) == (0u8, 255u8),
                forall|j: int|
                    0 <= j < num_sectors ==> spec_sector_at(
                        disk@,
                        #[trigger] sectors@[j],
                    ).len() == 256,
                forall|j: int, k: int|
                    #![trigger spec_sector_at(disk@, sectors@[j])[k]]
                    0 <= j < i && 2 <= k < 256 ==> spec_sector_at(disk@, sectors@[j])[k]
                        == spec_chunk_byte(content@, j, k),
                forall|j: int, k: int|
                    #![trigger spec_sector_at(disk@, sectors@[j])[k]]
                    i <= j < num_sectors && 2 <= k < 256 ==> spec_sector_at(
                        disk@,
                        sectors@[j],
                    )[k] == 0,
                forall|r2: SectorRef|
                    spec_valid_ref(r2) && !sectors@.contains(r2) ==> spec_sector_at(disk@, r2)
                        == spec_sector_at(d_chain, r2),
            decreases num_sectors - i,
        {
            let ghost before = disk@;
            let start = i * 254;
            proof {
                assert(254 * (i as int) < 254 * num_sectors);
                assert(start < 254 * num_sectors <= 254 * 683);
                if i + 1 == num_sectors {
                    assert(254 * (num_sectors - 1) < len);
                }
                assert(start < len) by {
                    assert(254 * (i as int) <= 254 * (num_sectors - 1));
                    assert(254 * (num_sectors - 1) < len);
                }
            }
            let end = if len - start < 254 {
                len
            } else {
                start + 254
            };
            let chunk = vstd::slice::slice_subrange(content, start, end);
            let sector_ref = sectors[i];
            proof {
                assert(spec_valid_ref(sectors@[i as int]));
                lemma_valid_ref_on_disk(disk@, sector_ref);
            }
            let sector = disk.get_sector_mut(sector_ref);
            sector.set_bytes(SECTOR_HEADER_SIZE, chunk);
            proof {
                lemma_update_preserves_wf(before, sector_ref, spec_sector_at(disk@, sector_ref));
                lemma_wf_equiv(disk);
                assert forall|r2: SectorRef|
                    spec_valid_ref(r2) && !sectors@.contains(r2) implies spec_sector_at(
                    disk@,
                    r2,
                ) == spec_sector_at(d_chain, r2) by {
                    assert(r2 != sector_ref);
                    assert(spec_sector_at(disk@, r2) == spec_sector_at(before, r2));
                }
                assert forall|j: int, k: int|
                    #![trigger spec_sector_at(disk@, sectors@[j])[k]]
                    0 <= j < i + 1 && 2 <= k < 256 implies spec_sector_at(disk@, sectors@[j])[k]
                    == spec_chunk_byte(content@, j, k) by {
                    if j < i {
                        assert(sectors@[j] != sectors@[i as int]);
                        assert(spec_sector_at(disk@, sectors@[j]) == spec_sector_at(
                            before,
                            sectors@[j],
                        ));
                    } else {
                        assert(spec_sector_at(before, sectors@[j])[k] == 0);
                        if k - 2 < end - start {
                            assert(chunk@[k - 2] == content@[start + k - 2]);
                        }
                    }
                }
                assert forall|j: int, k: int|
                    #![trigger spec_sector_at(disk@, sectors@[j])[k]]
                    i + 1 <= j < num_sectors && 2 <= k < 256 implies spec_sector_at(
                    disk@,
                    sectors@[j],
                )[k] == 0 by {
                    assert(sectors@[j] != sectors@[i as int]);
                    assert(spec_sector_at(disk@, sectors@[j]) == spec_sector_at(
                        before,
                        sectors@[j],
                    ));
                }
                assert forall|j: int|
                    0 <= j < num_sectors - 1 implies spec_next_ref(
                    spec_sector_at(disk@, #[trigger] sectors@[j]),
                ) == sectors@[j + 1] by {
                    if j != i {
                        assert(spec_sector_at(disk@, sectors@[j]) == spec_sector_at(
                            before,
                            sectors@[j],
                        ));
                    }
                }
                if (i as int) != num_sectors - 1 && num_sectors > 0 {
                    assert(spec_sector_at(disk@, sectors@[num_sectors - 1]) == spec_sector_at(
                        before,
                        sectors@[num_sectors - 1],
                    ));
                }
            }
            i = i + 1;
        }
        let ghost d_content = disk@;
        let start_sector = sectors[0];
        let new_entry = FileEntry {
            name: file_entry.name.duplicate(),
            file_type: file_entry.file_type,
            num_sectors,
            start_sector,
            file_entry_ref: ((0, 0), 0),
        };
        proof {
            assert(spec_valid_ref((TRACK_HEADER, 0u8)));
            assert forall|r2: SectorRef|
                spec_valid_ref(r2) && r2 != (TRACK_HEADER, 0u8) && !sectors@.contains(
                    r2,
                ) implies spec_sector_at(d_content, r2) == spec_sector_at(old(disk)@, r2) by {
                assert(spec_sector_at(d_content, r2) == spec_sector_at(d_chain, r2));
                assert(spec_sector_at(d_chain, r2) == spec_sector_at(d_clear, r2));
                assert(spec_sector_at(d_clear, r2) == spec_sector_at(d_alloc, r2));
                assert(spec_sector_at(d_alloc, r2) == spec_sector_at(old(disk)@, r2));
            }
            assert(spec_sector_at(d_content, (TRACK_HEADER, 0u8)) == spec_sector_at(
                d_chain,
                (TRACK_HEADER, 0u8),
            ));
            assert(spec_header(d_content) == spec_header(d_alloc));
            if spec_dir_ok(old(disk)@) {
                lemma_create_prefix_stable(old(disk)@, d_content, sectors@, dirs);
            }
        }
        match slot {
            Some(entry_ref) => {
                proof {
                    lemma_chain_refs_valid(
                        old(disk)@,
                        spec_next_ref(spec_header(old(disk)@)),
                        CHAIN_FUEL as nat,
                    );
                    lemma_find_scratched_in_chain(old(disk)@, dirs, 0);
                    let jj = choose|jj: int| 0 <= jj < dirs.len() && dirs[jj] == entry_ref.0;
                    assert(spec_valid_ref(dirs[jj]));
                }
                let mut stored_entry = new_entry;
                stored_entry.file_entry_ref = entry_ref;
                self.update_file_list_entry(disk, entry_ref, &stored_entry);
                proof {
                    if spec_dir_ok(old(disk)@) {
                        let jj = choose|jj: int|
                            0 <= jj < dirs.len() && dirs[jj] == entry_ref.0;
                        assert(!bam_free(
                            spec_header(old(disk)@),
                            entry_ref.0.0 as int,
                            entry_ref.0.1 as int,
                        ));
                        assert(entry_ref.0 != (TRACK_HEADER, 0u8));
                        assert(!sectors@.contains(entry_ref.0)) by {
                            assert forall|j: int|
                                0 <= j < sectors@.len() implies sectors@[j] != entry_ref.0 by {
                                assert(bam_free(
                                    spec_header(old(disk)@),
                                    sectors@[j].0 as int,
                                    sectors@[j].1 as int,
                                ));
                            }
                        }
                        lemma_create_finish(
                            spec_header(old(disk)@),
                            d_content,
                            disk@,
                            sectors@,
                            content@,
                            entry_ref.0,
                            num_sectors as int,
                        );
                        let df = disk@;
                        let target = entry_ref.0;
                        let kk = entry_ref.1 as int;
                        let start0 = spec_next_ref(spec_header(old(disk)@));
                        assert(spec_valid_ref((TRACK_HEADER, 0u8)));
                        assert(spec_sector_at(df, (TRACK_HEADER, 0u8)) == spec_sector_at(
                            d_content,
                            (TRACK_HEADER, 0u8),
                        ));
                        assert(spec_header(df) == spec_header(d_content));
                        assert(spec_header(d_alloc)[0] == hdr0[0]);
                        assert(spec_header(d_alloc)[1] == hdr0[1]);
                        assert(spec_valid_ref(
                            spec_chain(old(disk)@, start0, CHAIN_FUEL as nat)->Some_0[jj],
                        ));
                        assert(spec_valid_ref(target));
                        assert forall|j: int|
                            0 <= j < dirs.len() && dirs[j] != target implies spec_sector_at(
                            df,
                            #[trigger] dirs[j],
                        ) == spec_sector_at(old(disk)@, dirs[j]) by {
                            assert(spec_valid_ref(
                                spec_chain(old(disk)@, start0, CHAIN_FUEL as nat)->Some_0[j],
                            ));
                            assert(spec_sector_at(df, dirs[j]) == spec_sector_at(
                                d_content,
                                dirs[j],
                            ));
                        }
                        assert(spec_sector_at(d_content, target) == spec_sector_at(
                            old(disk)@,
                            target,
                        ));
                        assert forall|b: int|
                            0 <= b < 256 && !(32 * kk + 2 <= b < 32 * kk + 32) implies
                            spec_sector_at(df, target)[b] == spec_sector_at(
                            old(disk)@,
                            target,
                        )[b] by {
                            assert(entry_ref.1 * 32 == 32 * kk);
                        }
                        assert(spec_sector_at(df, target).len() == 256) by {
                            lemma_wf_equiv(disk);
                            lemma_valid_ref_on_disk(df, target);
                        }
                        let win = spec_sector_at(df, target).subrange(32 * kk, 32 * kk + 32);
                        assert(win[2]
                            == crate::commodore1541::file_entry::spec_file_type_byte(
                            stored_entry@.file_type,
                        ));
                        assert(win[3] == stored_entry@.start_sector.0);
                        assert(win[4] == stored_entry@.start_sector.1);
                        assert forall|j: int| 5 <= j < 21 implies #[trigger] win[j] == (if j - 5
                            < stored_entry@.name.len() {
                            stored_entry@.name[j - 5]
                        } else {
                            crate::petscii::PETSCII_NBSP
                        }) by {
                            assert(win[j] == spec_sector_at(df, target)[32 * kk + j]);
                        }
                        assert(win[30] == (stored_entry@.num_sectors % 256) as u8);
                        assert(win[31] == (stored_entry@.num_sectors / 256) as u8);
                        assert forall|j: int|
                            0 <= j < sectors@.len() implies !dirs.contains(
                            #[trigger] sectors@[j],
                        ) by {
                            if dirs.contains(sectors@[j]) {
                                let w = choose|w: int|
                                    0 <= w < dirs.len() && dirs[w] == sectors@[j];
                                assert(!bam_free(
                                    hdr0,
                                    (spec_dir_chain(old(disk)@)->Some_0[w]).0 as int,
                                    spec_dir_chain(old(disk)@)->Some_0[w].1 as int,
                                ));
                                assert(bam_free(
                                    hdr0,
                                    sectors@[j].0 as int,
                                    sectors@[j].1 as int,
                                ));
                            }
                        }
                        assert forall|i: int| 0 <= i < dirs.len() implies !bam_free(
                            spec_header(df),
                            (#[trigger] dirs[i]).0 as int,
                            dirs[i].1 as int,
                        ) && dirs[i] != (TRACK_HEADER, 0u8) by {
                            assert(!bam_free(
                                hdr0,
                                (spec_dir_chain(old(disk)@)->Some_0[i]).0 as int,
                                spec_dir_chain(old(disk)@)->Some_0[i].1 as int,
                            ) && spec_dir_chain(old(disk)@)->Some_0[i] != (TRACK_HEADER, 0u8));
                            assert(spec_valid_ref(
                                spec_chain(old(disk)@, start0, CHAIN_FUEL as nat)->Some_0[i],
                            ));
                            assert(!sectors@.contains(dirs[i])) by {
                                assert forall|j: int|
                                    0 <= j < sectors@.len() implies sectors@[j] != dirs[i] by {
                                    assert(bam_free(
                                        hdr0,
                                        sectors@[j].0 as int,
                                        sectors@[j].1 as int,
                                    ));
                                }
                            }
                        }
                        lemma_create_wrapup(
                            old(disk)@,
                            df,
                            dirs,
                            sectors@,
                            stored_entry.start_sector,
                            target,
                            kk,
                            stored_entry@.name,
                            stored_entry@.file_type,
                            num_sectors as int,
                            stored_entry.start_sector,
                        );
                    }
                }
                Ok(stored_entry)
            },
            None => {
                let new_ref = match self.create_file_list_sector(disk) {
                    Ok(new_ref) => new_ref,
                    Err(e) => {
                        // reachable only on a disk whose directory chain
                        // passes through sectors the BAM calls free
                        proof {
                            if spec_dir_ok(old(disk)@) {
                                assert(false);
                            }
                        }
                        return Err(e);
                    },
                };
                let ghost d_grow = disk@;
                let mut stored_entry = new_entry;
                stored_entry.file_entry_ref = (new_ref, 0);
                proof {
                    assert(spec_user_ref(new_ref));
                }
                self.update_file_list_entry(disk, (new_ref, 0), &stored_entry);
                proof {
                    if spec_dir_ok(old(disk)@) {
                        let ghost end_ref = if dirs.len() == 0 {
                            (TRACK_HEADER, 0u8)
                        } else {
                            dirs[dirs.len() - 1]
                        };
                        assert(!sectors@.contains(new_ref)) by {
                            assert forall|j: int|
                                0 <= j < sectors@.len() implies sectors@[j] != new_ref by {
                                assert(!bam_free(
                                    spec_header(d_content),
                                    sectors@[j].0 as int,
                                    sectors@[j].1 as int,
                                ));
                                assert(bam_free(
                                    spec_header(d_content),
                                    new_ref.0 as int,
                                    new_ref.1 as int,
                                ));
                            }
                        }
                        assert(!sectors@.contains(end_ref)) by {
                            assert forall|j: int|
                                0 <= j < sectors@.len() implies sectors@[j] != end_ref by {
                                if dirs.len() > 0 {
                                    assert(!bam_free(
                                        spec_header(old(disk)@),
                                        end_ref.0 as int,
                                        end_ref.1 as int,
                                    ));
                                    assert(bam_free(
                                        spec_header(old(disk)@),
                                        sectors@[j].0 as int,
                                        sectors@[j].1 as int,
                                    ));
                                } else {
                                    assert(spec_user_ref(sectors@[j]));
                                }
                            }
                        }
                        assert forall|j: int| 0 <= j < sectors@.len() implies spec_sector_at(
                            d_grow,
                            #[trigger] sectors@[j],
                        ) == spec_sector_at(d_content, sectors@[j]) by {
                            assert(spec_valid_ref(sectors@[j]));
                            assert(spec_user_ref(sectors@[j]));
                        }
                        assert forall|j: int, k: int|
                            #![trigger spec_sector_at(d_grow, sectors@[j])[k]]
                            0 <= j < sectors@.len() && 2 <= k < 256 implies spec_sector_at(
                            d_grow,
                            sectors@[j],
                        )[k] == spec_chunk_byte(content@, j, k) by {
                            assert(spec_sector_at(d_grow, sectors@[j]) == spec_sector_at(
                                d_content,
                                sectors@[j],
                            ));
                        }
                        assert forall|j: int|
                            0 <= j < sectors@.len() - 1 implies spec_next_ref(
                            spec_sector_at(d_grow, #[trigger] sectors@[j]),
                        ) == sectors@[j + 1] by {
                            assert(spec_sector_at(d_grow, sectors@[j]) == spec_sector_at(
                                d_content,
                                sectors@[j],
                            ));
                        }
                        assert(spec_sector_at(d_grow, sectors@[sectors@.len() - 1])
                            == spec_sector_at(d_content, sectors@[sectors@.len() - 1]));
                        assert forall|j: int|
                            0 <= j < sectors@.len() implies !bam_free(
                            spec_header(d_grow),
                            (#[trigger] sectors@[j]).0 as int,
                            sectors@[j].1 as int,
                        ) by {
                            assert(spec_user_ref(sectors@[j]));
                            assert(sectors@[j] != new_ref);
                        }
                        lemma_create_finish(
                            spec_header(old(disk)@),
                            d_grow,
                            disk@,
                            sectors@,
                            content@,
                            new_ref,
                            num_sectors + 1,
                        );
                        let df = disk@;
                        let dirs2 = dirs.push(new_ref);
                        let start0 = spec_next_ref(spec_header(old(disk)@));
                        lemma_chain_refs_valid(old(disk)@, start0, CHAIN_FUEL as nat);
                        lemma_chain_distinct(old(disk)@, start0, CHAIN_FUEL as nat);
                        assert(spec_valid_ref((TRACK_HEADER, 0u8)));
                        assert(spec_header(d_content)[0] == hdr0[0] && spec_header(
                            d_content,
                        )[1] == hdr0[1]) by {
                            assert(spec_header(d_alloc)[0] == hdr0[0]);
                            assert(spec_header(d_alloc)[1] == hdr0[1]);
                        }
                        assert(spec_next_ref(spec_header(d_content)) == start0);
                        assert forall|i: int| 0 <= i < dirs.len() implies !bam_free(
                            spec_header(d_content),
                            (#[trigger] dirs[i]).0 as int,
                            dirs[i].1 as int,
                        ) && dirs[i] != (TRACK_HEADER, 0u8) by {
                            assert(!bam_free(
                                hdr0,
                                (spec_dir_chain(old(disk)@)->Some_0[i]).0 as int,
                                spec_dir_chain(old(disk)@)->Some_0[i].1 as int,
                            ) && spec_dir_chain(old(disk)@)->Some_0[i] != (TRACK_HEADER, 0u8));
                            assert(spec_valid_ref(
                                spec_chain(old(disk)@, start0, CHAIN_FUEL as nat)->Some_0[i],
                            ));
                            assert(!sectors@.contains(dirs[i])) by {
                                assert forall|j: int|
                                    0 <= j < sectors@.len() implies sectors@[j] != dirs[i] by {
                                    assert(bam_free(
                                        hdr0,
                                        sectors@[j].0 as int,
                                        sectors@[j].1 as int,
                                    ));
                                }
                            }
                        }
                        assert(!dirs.contains(new_ref)) by {
                            if dirs.contains(new_ref) {
                                let w = choose|w: int|
                                    0 <= w < dirs.len() && dirs[w] == new_ref;
                                assert(!bam_free(
                                    spec_header(d_content),
                                    dirs[w].0 as int,
                                    dirs[w].1 as int,
                                ));
                            }
                        }
                        if dirs.len() == 0 {
                            assert(spec_next_ref(spec_header(d_grow)) == new_ref);
                            lemma_chain_of_linked_list(
                                d_grow,
                                seq![new_ref],
                                0,
                                CHAIN_FUEL as nat,
                            );
                            assert(seq![new_ref].skip(0) =~= seq![new_ref]);
                            assert(dirs2 =~= seq![new_ref]);
                            assert(spec_dir_chain(d_grow) == Some(dirs2));
                        } else {
                            let end_ref = spec_dir_end(dirs);
                            assert(end_ref == dirs[dirs.len() - 1]);
                            assert(end_ref != (TRACK_HEADER, 0u8));
                            assert(end_ref != new_ref);
                            lemma_chain_bounded(d_content, start0, CHAIN_FUEL as nat);
                            assert forall|j: int|
                                0 <= j < dirs.len() - 1 implies spec_next_ref(
                                spec_sector_at(d_grow, #[trigger] dirs[j]),
                            ) == spec_next_ref(spec_sector_at(d_content, dirs[j])) by {
                                assert(spec_valid_ref(
                                    spec_chain(
                                        old(disk)@,
                                        start0,
                                        CHAIN_FUEL as nat,
                                    )->Some_0[j],
                                ));
                                assert(dirs[j] != dirs[dirs.len() - 1]);
                                assert(spec_sector_at(d_grow, dirs[j]) == spec_sector_at(
                                    d_content,
                                    dirs[j],
                                ));
                            }
                            lemma_chain_extend(d_content, d_grow, start0, dirs, new_ref);
                            assert(spec_next_ref(spec_header(d_grow)) == start0);
                            assert(spec_dir_chain(d_grow) == Some(dirs2));
                        }
                        assert forall|j: int|
                            0 <= j < dirs.len() implies spec_sector_at(
                            old(disk)@,
                            #[trigger] dirs[j],
                        ).len() == 256 && spec_sector_at(d_grow, dirs[j]).len() == 256 by {
                            assert(spec_valid_ref(
                                spec_chain(old(disk)@, start0, CHAIN_FUEL as nat)->Some_0[j],
                            ));
                            lemma_valid_ref_on_disk(old(disk)@, dirs[j]);
                            lemma_valid_ref_on_disk(d_grow, dirs[j]);
                        }
                        assert forall|j: int, b: int|
                            #![trigger spec_sector_at(d_grow, dirs[j])[b]]
                            0 <= j < dirs.len() && 2 <= b < 256 implies spec_sector_at(
                            d_grow,
                            dirs[j],
                        )[b] == spec_sector_at(old(disk)@, dirs[j])[b] by {
                            assert(spec_valid_ref(
                                spec_chain(old(disk)@, start0, CHAIN_FUEL as nat)->Some_0[j],
                            ));
                            assert(spec_sector_at(d_content, dirs[j]) == spec_sector_at(
                                old(disk)@,
                                dirs[j],
                            ));
                            if dirs[j] != spec_dir_end(dirs) {
                                assert(spec_sector_at(d_grow, dirs[j]) == spec_sector_at(
                                    d_content,
                                    dirs[j],
                                ));
                            }
                        }
                        lemma_entries_upto_content(old(disk)@, d_grow, dirs, dirs.len() as int);
                        lemma_slot_entries_none(spec_sector_at(d_grow, new_ref), new_ref, 8);
                        lemma_entries_upto_prefix(d_grow, dirs2, dirs, dirs.len() as int);
                        assert(spec_entries_upto(d_grow, dirs2, dirs2.len() as int)
                            == spec_entries_upto(d_grow, dirs2, dirs.len() as int)
                            + spec_sector_entries(d_grow, dirs2[dirs.len() as int]));
                        assert(spec_entries_upto(d_grow, dirs2, dirs2.len() as int)
                            =~= spec_entries_upto(old(disk)@, dirs, dirs.len() as int));
                        assert(spec_list_entries(d_grow) == Some(
                            spec_list_entries(old(disk)@)->Some_0,
                        ));
                        assert(spec_sector_at(d_grow, (TRACK_HEADER, 0u8)) == spec_sector_at(
                            df,
                            (TRACK_HEADER, 0u8),
                        ));
                        assert(spec_header(df) == spec_header(d_grow));
                        assert(spec_sector_at(df, new_ref).len() == 256) by {
                            lemma_wf_equiv(disk);
                            lemma_valid_ref_on_disk(df, new_ref);
                        }
                        let win = spec_sector_at(df, new_ref).subrange(0, 32);
                        assert(win[2]
                            == crate::commodore1541::file_entry::spec_file_type_byte(
                            stored_entry@.file_type,
                        ));
                        assert(win[3] == stored_entry@.start_sector.0);
                        assert(win[4] == stored_entry@.start_sector.1);
                        assert forall|j: int| 5 <= j < 21 implies #[trigger] win[j] == (if j - 5
                            < stored_entry@.name.len() {
                            stored_entry@.name[j - 5]
                        } else {
                            crate::petscii::PETSCII_NBSP
                        }) by {
                            assert(win[j] == spec_sector_at(df, new_ref)[j]);
                        }
                        assert(win[30] == (stored_entry@.num_sectors % 256) as u8);
                        assert(win[31] == (stored_entry@.num_sectors / 256) as u8);
                        assert(!crate::commodore1541::file_entry::spec_slot_live(
                            spec_sector_at(d_grow, new_ref)[2],
                        ));
                        assert(dirs2[dirs2.len() - 1] == new_ref);
                        assert(dirs2.contains(new_ref));
                        assert forall|j: int|
                            0 <= j < dirs2.len() && dirs2[j] != new_ref implies spec_sector_at(
                            df,
                            #[trigger] dirs2[j],
                        ) == spec_sector_at(d_grow, dirs2[j]) by {
                            assert(dirs2[j] == dirs[j]);
                            assert(spec_valid_ref(
                                spec_chain(old(disk)@, start0, CHAIN_FUEL as nat)->Some_0[j],
                            ));
                        }
                        assert forall|j: int|
                            0 <= j < sectors@.len() implies !dirs2.contains(
                            #[trigger] sectors@[j],
                        ) by {
                            if dirs2.contains(sectors@[j]) {
                                let w = choose|w: int|
                                    0 <= w < dirs2.len() && dirs2[w] == sectors@[j];
                                if w < dirs.len() {
                                    assert(dirs[w] == sectors@[j]);
                                    assert(!bam_free(
                                        spec_header(d_content),
                                        dirs[w].0 as int,
                                        dirs[w].1 as int,
                                    ));
                                    assert(bam_free(
                                        hdr0,
                                        sectors@[j].0 as int,
                                        sectors@[j].1 as int,
                                    ));
                                    assert(!sectors@.contains(dirs[w]));
                                } else {
                                    assert(sectors@[j] == new_ref);
                                    assert(!bam_free(
                                        spec_header(d_content),
                                        sectors@[j].0 as int,
                                        sectors@[j].1 as int,
                                    ));
                                    assert(bam_free(
                                        spec_header(d_content),
                                        new_ref.0 as int,
                                        new_ref.1 as int,
                                    ));
                                }
                            }
                        }
                        assert forall|i: int| 0 <= i < dirs2.len() implies !bam_free(
                            spec_header(df),
                            (#[trigger] dirs2[i]).0 as int,
                            dirs2[i].1 as int,
                        ) && dirs2[i] != (TRACK_HEADER, 0u8) by {
                            if i < dirs.len() {
                                assert(dirs2[i] == dirs[i]);
                                assert(!bam_free(
                                    spec_header(d_content),
                                    dirs[i].0 as int,
                                    dirs[i].1 as int,
                                ));
                                assert(spec_valid_ref(
                                    spec_chain(
                                        old(disk)@,
                                        start0,
                                        CHAIN_FUEL as nat,
                                    )->Some_0[i],
                                ));
                                assert(dirs[i] != new_ref);
                            } else {
                                assert(dirs2[i] == new_ref);
                                assert(spec_user_ref(new_ref));
                            }
                        }
                        lemma_create_wrapup(
                            d_grow,
                            df,
                            dirs2,
                            sectors@,
                            stored_entry.start_sector,
                            new_ref,
                            0,
                            stored_entry@.name,
                            stored_entry@.file_type,
                            num_sectors as int,
                            stored_entry.start_sector,
                        );
                    }
                }
                Ok(stored_entry)
            },
        }
    }

    /// Delete a file: walk its content chain, release every visited
    /// sector in the BAM and zero it, then scratch the directory record.
    /// On a consistent disk the freed count is exactly the chain's length
    /// and exactly that one record leaves the listing.
    #[verifier::rlimit(100)]
    pub fn delete_file(&self, disk: &mut Disk<Commodore1541>, file_entry: &FileEntry) -> (r:
        Result<(), DiskError>)
        requires
            old(disk).wf(),
            bam_wf(spec_header(old(disk)@)),
            spec_valid_ref(file_entry.file_entry_ref.0),
            file_entry.file_entry_ref.1 < 8,
        ensures
            final(disk).wf(),
            spec_chain(old(disk)@, file_entry.start_sector, CHAIN_FUEL as nat) is None ==> r
                == Result::<(), DiskError>::Err(DiskError::CorruptChain) && final(disk)@ == old(
                disk,
            )@,
            spec_chain(old(disk)@, file_entry.start_sector, CHAIN_FUEL as nat) is Some ==> r
                is Ok,
            r is Ok ==> spec_sector_at(final(disk)@, file_entry.file_entry_ref.0)[(
            file_entry.file_entry_ref.1 * 32 + 2) as int] == 0,
            r is Ok && spec_entry_clean(
                old(disk)@,
                file_entry.start_sector,
                (file_entry.file_entry_ref.0, file_entry.file_entry_ref.1 as int),
            ) ==> ({
                let refs = spec_chain(old(disk)@, file_entry.start_sector, CHAIN_FUEL as nat)->Some_0;
                &&& bam_wf(spec_header(final(disk)@))
                &&& user_free(spec_header(final(disk)@)) == user_free(spec_header(old(disk)@))
                    + refs.len()
                &&& forall|i: int|
                    0 <= i < refs.len() ==> bam_free(
                        spec_header(final(disk)@),
                        (#[trigger] refs[i]).0 as int,
                        refs[i].1 as int,
                    )
                &&& forall|r2: SectorRef|
                    1 <= r2.0 <= 35 && r2.1 < 24 && !refs.contains(r2) ==> bam_free(
                        spec_header(final(disk)@),
                        r2.0 as int,
                        r2.1 as int,
                    ) == bam_free(spec_header(old(disk)@), r2.0 as int, r2.1 as int)
                &&& spec_list_entries(final(disk)@) == Some(
                    spec_list_entries(old(disk)@)->Some_0.filter(
                        |ev: crate::commodore1541::file_entry::FileEntryView|
                            ev.file_entry_ref != (
                                file_entry.file_entry_ref.0,
                                file_entry.file_entry_ref.1 as int,
                            ),
                    ),
                )
            }),
    {
        let sectors_to_clear = match self.get_sector_ref_chain(disk, file_entry.start_sector) {
            Ok(refs) => refs,
            Err(e) => {
                return Err(e);
            },
        };
        let ghost crefs = sectors_to_clear@;
        proof {
            lemma_wf_equiv(old(disk));
            lemma_chain_refs_valid(old(disk)@, file_entry.start_sector, CHAIN_FUEL as nat);
            lemma_chain_distinct(old(disk)@, file_entry.start_sector, CHAIN_FUEL as nat);
        }
        self.mark_sector_refs_unused(disk, sectors_to_clear.as_slice());
        let ghost d_mark = disk@;
        self.clear_sector_refs(disk, sectors_to_clear.as_slice());
        let ghost d_clear = disk@;
        self.scratch_file_list_entry(disk, file_entry);
        proof {
            assert(spec_sector_at(disk@, file_entry.file_entry_ref.0)[(
            file_entry.file_entry_ref.1 * 32 + 2) as int] == 0);
            let d0 = old(disk)@;
            let target = (file_entry.file_entry_ref.0, file_entry.file_entry_ref.1 as int);
            if spec_entry_clean(d0, file_entry.start_sector, target) {
                let hdr0 = spec_header(d0);
                let dirs = spec_dir_chain(d0)->Some_0;
                let slot_sec = file_entry.file_entry_ref.0;
                let jj = choose|jj: int| 0 <= jj < dirs.len() && dirs[jj] == slot_sec;
                assert(slot_sec != (TRACK_HEADER, 0u8));
                assert(!crefs.contains((TRACK_HEADER, 0u8))) by {
                    assert forall|i: int| 0 <= i < crefs.len() implies crefs[i] != (
                    TRACK_HEADER, 0u8) by {
                        assert(spec_user_ref(crefs[i]));
                    }
                }
                assert(spec_valid_ref((TRACK_HEADER, 0u8)));
                assert(spec_sector_at(d_clear, (TRACK_HEADER, 0u8)) == spec_sector_at(
                    d_mark,
                    (TRACK_HEADER, 0u8),
                ));
                assert(spec_sector_at(disk@, (TRACK_HEADER, 0u8)) == spec_sector_at(
                    d_clear,
                    (TRACK_HEADER, 0u8),
                ));
                assert(spec_header(disk@) == spec_header(d_mark));
                assert(user_free(spec_header(d_mark)) == user_free(hdr0) + crefs.len()) by {
                    assert forall|i: int| 0 <= i < crefs.len() implies (
                    #[trigger] crefs[i]).0 != 18 by {
                        assert(spec_user_ref(crefs[i]));
                    }
                }
                lemma_chain_refs_valid(d0, spec_next_ref(spec_header(d0)), CHAIN_FUEL as nat);
                assert forall|j: int| 0 <= j < dirs.len() implies spec_sector_at(
                    d_clear,
                    #[trigger] dirs[j],
                ) == spec_sector_at(d0, dirs[j]) by {
                    assert(spec_valid_ref(dirs[j]));
                    assert(dirs[j] != (TRACK_HEADER, 0u8));
                    assert(!crefs.contains(dirs[j])) by {
                        assert forall|i: int| 0 <= i < crefs.len() implies crefs[i]
                            != dirs[j] by {
                            assert(!spec_dir_chain(d0)->Some_0.contains(crefs[i]));
                        }
                    }
                    assert(spec_sector_at(d_mark, dirs[j]) == spec_sector_at(d0, dirs[j]));
                }
                assert forall|j: int| 0 <= j < dirs.len() implies spec_sector_at(
                    disk@,
                    #[trigger] dirs[j],
                )[0] == spec_sector_at(d0, dirs[j])[0] && spec_sector_at(disk@, dirs[j])[1]
                    == spec_sector_at(d0, dirs[j])[1] by {
                    assert(spec_valid_ref(dirs[j]));
                    lemma_valid_ref_on_disk(d0, dirs[j]);
                    if dirs[j] != slot_sec {
                        assert(dirs[j] != file_entry.file_entry_ref.0);
                        assert(spec_sector_at(disk@, dirs[j]) == spec_sector_at(
                            d_clear,
                            dirs[j],
                        ));
                    } else {
                        assert(spec_sector_at(d_clear, dirs[j]) == spec_sector_at(
                            d0,
                            dirs[j],
                        ));
                        assert(32 * target.1 + 2 >= 2);
                        assert(spec_sector_at(disk@, slot_sec)[0] == spec_sector_at(
                            d_clear,
                            slot_sec,
                        )[0]);
                        assert(spec_sector_at(disk@, slot_sec)[1] == spec_sector_at(
                            d_clear,
                            slot_sec,
                        )[1]);
                    }
                }
                assert(spec_next_ref(spec_header(disk@)) == spec_next_ref(spec_header(d0)));
                lemma_chain_stable(d0, disk@, spec_next_ref(spec_header(d0)), CHAIN_FUEL as nat);
                assert(spec_dir_chain(disk@) == Some(dirs));
                assert forall|j: int|
                    0 <= j < dirs.len() implies spec_sector_at(d0, #[trigger] dirs[j]).len()
                    == 256 && spec_sector_at(disk@, dirs[j]).len() == 256 by {
                    assert(spec_valid_ref(dirs[j]));
                    lemma_valid_ref_on_disk(d0, dirs[j]);
                    lemma_wf_equiv(disk);
                    lemma_valid_ref_on_disk(disk@, dirs[j]);
                }
                assert forall|j: int|
                    0 <= j < dirs.len() && dirs[j] != slot_sec implies spec_sector_at(
                    disk@,
                    #[trigger] dirs[j],
                ) == spec_sector_at(d0, dirs[j]) by {
                    assert(spec_valid_ref(dirs[j]));
                    assert(dirs[j] != file_entry.file_entry_ref.0);
                    assert(spec_sector_at(disk@, dirs[j]) == spec_sector_at(d_clear, dirs[j]));
                }
                let off = target.1 * 32;
                assert forall|b: int|
                    0 <= b < 256 && !(off + 2 <= b < off + 32) implies spec_sector_at(
                    disk@,
                    slot_sec,
                )[b] == spec_sector_at(d0, slot_sec)[b] by {
                    assert(spec_sector_at(d_clear, slot_sec) == spec_sector_at(d0, slot_sec));
                }
                assert(!crate::commodore1541::file_entry::spec_slot_live(
                    spec_sector_at(disk@, slot_sec)[off + 2],
                ));
                lemma_entries_upto_scratch(
                    d0,
                    disk@,
                    dirs,
                    slot_sec,
                    target.1,
                    dirs.len() as int,
                );
            }
        }
        Ok(())
    }

    /// Read the disk-name field as it stands on disk, padding included.
    pub fn get_disk_name(&self, disk: &Disk<Commodore1541>) -> (r: crate::petscii::PetsciiString)
        requires
            disk.wf(),
        ensures
            r@ == spec_header(disk@).subrange(144, 160),
    {
        proof {
            lemma_wf_equiv(disk);
            lemma_header_valid(disk@);
        }
        let sector = disk.get_sector((TRACK_HEADER, 0));
        let bytes = sector.get_bytes(DISK_NAME_OFFSET_START, DISK_NAME_LENGTH);
        crate::petscii::PetsciiString::fixed_size(bytes.as_slice())
    }

    /// Write the disk's name: the field is first padded whole with the
    /// sentinel, then the encoded name is written, silently truncated at
    /// the field's sixteen bytes.
    pub fn set_disk_name(&self, disk: &mut Disk<Commodore1541>, new_name: &String)
        requires
            old(disk).wf(),
        ensures
            final(disk).wf(),
            spec_header(final(disk)@).len() == 256,
            ({
                let enc = crate::petscii::spec_encode_chars(new_name@);
                let k = if enc.len() <= 16 {
                    enc.len() as int
                } else {
                    16int
                };
                forall|i: int|
                    144 <= i < 160 ==> #[trigger] spec_header(final(disk)@)[i] == (if i - 144
                        < k {
                        enc[i - 144]
                    } else {
                        160u8
                    })
            }),
            forall|i: int|
                0 <= i < 256 && !(144 <= i < 160) ==> spec_header(final(disk)@)[i]
                    == spec_header(old(disk)@)[i],
            forall|r2: SectorRef|
                spec_valid_ref(r2) && r2 != (TRACK_HEADER, 0u8) ==> spec_sector_at(
                    final(disk)@,
                    r2,
                ) == spec_sector_at(old(disk)@, r2),
    {
        proof {
            lemma_wf_equiv(old(disk));
            lemma_header_valid(old(disk)@);
        }
        let petscii_string = crate::petscii::PetsciiString::from_string(new_name);
        let count = if petscii_string.len() > DISK_NAME_LENGTH {
            DISK_NAME_LENGTH
        } else {
            petscii_string.len()
        };
        let sector = disk.get_sector_mut((TRACK_HEADER, 0));
        sector.fill(DISK_NAME_OFFSET_START, DISK_NAME_OFFSET_END, crate::petscii::PETSCII_NBSP);
        sector.set_bytes(
            DISK_NAME_OFFSET_START,
            vstd::slice::slice_subrange(petscii_string.as_slice(), 0, count),
        );
        proof {
            lemma_update_preserves_wf(
                old(disk)@,
                (TRACK_HEADER, 0u8),
                spec_sector_at(disk@, (TRACK_HEADER, 0u8)),
            );
            lemma_wf_equiv(disk);
        }
    }

    // Write the default disk id field, eleven sentinel-padded bytes
    // reading "01" and "2A".
    fn initialize_disk_id(&self, disk: &mut Disk<Commodore1541>)
        requires
            old(disk).wf(),
        ensures
            final(disk).wf(),
            spec_header(final(disk)@)[160] == 160,
            spec_header(final(disk)@)[161] == 160,
            spec_header(final(disk)@)[162] == 48,
            spec_header(final(disk)@)[163] == 49,
            spec_header(final(disk)@)[164] == 160,
            spec_header(final(disk)@)[165] == 50,
            spec_header(final(disk)@)[166] == 65,
            forall|i: int| 167 <= i < 171 ==> spec_header(final(disk)@)[i] == 160,
            forall|i: int|
                0 <= i < 256 && !(160 <= i < 171) ==> spec_header(final(disk)@)[i]
                    == spec_header(old(disk)@)[i],
            forall|r2: SectorRef|
                spec_valid_ref(r2) && r2 != (TRACK_HEADER, 0u8) ==> spec_sector_at(
                    final(disk)@,
                    r2,
                ) == spec_sector_at(old(disk)@, r2),
    {
        proof {
            lemma_wf_equiv(old(disk));
            lemma_header_valid(old(disk)@);
        }
        let sector = disk.get_sector_mut((TRACK_HEADER, 0));
        sector.fill(160, 171, crate::petscii::PETSCII_NBSP);
        sector.set_byte(162, crate::petscii::PETSCII_ZERO);
        sector.set_byte(163, crate::petscii::PETSCII_ONE);
        sector.set_byte(165, crate::petscii::PETSCII_TWO);
        sector.set_byte(166, crate::petscii::PETSCII_A);
        proof {
            lemma_update_preserves_wf(
                old(disk)@,
                (TRACK_HEADER, 0u8),
                spec_sector_at(disk@, (TRACK_HEADER, 0u8)),
            );
            lemma_wf_equiv(disk);
        }
    }

    // Write the format marker byte.
    fn initialize_dos_version(&self, disk: &mut Disk<Commodore1541>)
        requires
            old(disk).wf(),
        ensures
            final(disk).wf(),
            spec_header(final(disk)@)[2] == 65,
            forall|i: int|
                0 <= i < 256 && i != 2 ==> spec_header(final(disk)@)[i] == spec_header(
                    old(disk)@,
                )[i],
            forall|r2: SectorRef|
                spec_valid_ref(r2) && r2 != (TRACK_HEADER, 0u8) ==> spec_sector_at(
                    final(disk)@,
                    r2,
                ) == spec_sector_at(old(disk)@, r2),
    {
        proof {
            lemma_wf_equiv(old(disk));
            lemma_header_valid(old(disk)@);
        }
        let sector = disk.get_sector_mut((TRACK_HEADER, 0));
        sector.set_byte(2, 65);
        proof {
            lemma_update_preserves_wf(
                old(disk)@,
                (TRACK_HEADER, 0u8),
                spec_sector_at(disk@, (TRACK_HEADER, 0u8)),
            );
            lemma_wf_equiv(disk);
        }
    }

    // Mark every real sector free and the header sector used.
    fn initialize_bam(&self, disk: &mut Disk<Commodore1541>)
        requires
            old(disk).wf(),
            bam_wf(spec_header(old(disk)@)),
        ensures
            final(disk).wf(),
            bam_wf(spec_header(final(disk)@)),
            forall|t: int, s: int|
                1 <= t <= 35 && 0 <= s < 24 ==> ((#[trigger] bam_free(
                    spec_header(final(disk)@),
                    t,
                    s,
                )) <==> (0 <= s < spec_track_sectors(t) && !(t == 18 && s == 0))),
            forall|i: int|
                0 <= i < 256 && !(4 <= i < 144) ==> spec_header(final(disk)@)[i] == spec_header(
                    old(disk)@,
                )[i],
            forall|r2: SectorRef|
                spec_valid_ref(r2) && r2 != (TRACK_HEADER, 0u8) ==> spec_sector_at(
                    final(disk)@,
                    r2,
                ) == spec_sector_at(old(disk)@, r2),
    {
        let ghost pre = spec_header(old(disk)@);
        let mut bam = self.get_block_availability_map(disk);
        let mut track_no: u8 = 1;
        while track_no <= 35
            invariant
                bam_wf(pre),
                bam_wf(bam@),
                1 <= track_no <= 36,
                forall|t: int, s: int|
                    1 <= t < track_no && 0 <= s < 24 ==> ((#[trigger] bam_free(bam@, t, s))
                        <==> 0 <= s < spec_track_sectors(t)),
                forall|t: int, s: int|
                    track_no <= t <= 35 && 0 <= s < 24 ==> (#[trigger] bam_free(bam@, t, s))
                        == bam_free(pre, t, s),
                forall|i: int| 0 <= i < 256 && !(4 <= i < 144) ==> bam@[i] == pre[i],
            decreases 36 - track_no,
        {
            let num_sectors = self.num_sectors(track_no);
            let mut sector_no: u8 = 0;
            while sector_no < num_sectors
                invariant
                    bam_wf(pre),
                    bam_wf(bam@),
                    1 <= track_no <= 35,
                    num_sectors == spec_track_sectors(track_no as int),
                    0 <= sector_no <= num_sectors,
                    forall|t: int, s: int|
                        1 <= t < track_no && 0 <= s < 24 ==> ((#[trigger] bam_free(bam@, t, s))
                            <==> 0 <= s < spec_track_sectors(t)),
                    forall|s: int|
                        0 <= s < sector_no ==> #[trigger] bam_free(bam@, track_no as int, s),
                    forall|s: int|
                        sector_no <= s < 24 ==> (#[trigger] bam_free(bam@, track_no as int, s))
                            == bam_free(pre, track_no as int, s),
                    forall|t: int, s: int|
                        track_no < t <= 35 && 0 <= s < 24 ==> (#[trigger] bam_free(bam@, t, s))
                            == bam_free(pre, t, s),
                    forall|i: int| 0 <= i < 256 && !(4 <= i < 144) ==> bam@[i] == pre[i],
                decreases num_sectors - sector_no,
            {
                bam.mark_unused((track_no, sector_no));
                sector_no = sector_no + 1;
            }
            proof {
                assert forall|t: int, s: int|
                    1 <= t < track_no + 1 && 0 <= s < 24 implies ((#[trigger] bam_free(
                    bam@,
                    t,
                    s,
                )) <==> 0 <= s < spec_track_sectors(t)) by {
                    if t == track_no as int {
                        if s >= spec_track_sectors(t) {
                            assert(bam_free(bam@, track_no as int, s) == bam_free(
                                pre,
                                track_no as int,
                                s,
                            ));
                            assert(bam_track_wf(pre, t));
                        } else {
                            assert(bam_free(bam@, track_no as int, s));
                        }
                    }
                }
            }
            track_no = track_no + 1;
        }
        bam.mark_used((TRACK_HEADER, 0));
        self.store_block_availability_map(disk, bam);
    }

    // Start the directory: the header points at the first directory
    // sector, which ends the chain and is marked used.
    fn initialize_directory_listing(&self, disk: &mut Disk<Commodore1541>)
        requires
            old(disk).wf(),
            bam_wf(spec_header(old(disk)@)),
        ensures
            final(disk).wf(),
            bam_wf(spec_header(final(disk)@)),
            spec_header(final(disk)@)[0] == 18,
            spec_header(final(disk)@)[1] == 1,
            forall|i: int|
                2 <= i < 256 && !(4 <= i < 144) ==> spec_header(final(disk)@)[i] == spec_header(
                    old(disk)@,
                )[i],
            !bam_free(spec_header(final(disk)@), 18, 1),
            forall|t: int, s: int|
                1 <= t <= 35 && 0 <= s < 24 && !(t == 18 && s == 1) ==> (#[trigger] bam_free(
                    spec_header(final(disk)@),
                    t,
                    s,
                )) == bam_free(spec_header(old(disk)@), t, s),
            spec_sector_at(final(disk)@, (TRACK_HEADER, 1u8))[0] == 0,
            spec_sector_at(final(disk)@, (TRACK_HEADER, 1u8))[1] == 255,
            forall|k: int|
                2 <= k < 256 ==> spec_sector_at(final(disk)@, (TRACK_HEADER, 1u8))[k]
                    == spec_sector_at(old(disk)@, (TRACK_HEADER, 1u8))[k],
            forall|r2: SectorRef|
                spec_valid_ref(r2) && r2 != (TRACK_HEADER, 0u8) && r2 != (TRACK_HEADER, 1u8)
                    ==> spec_sector_at(final(disk)@, r2) == spec_sector_at(old(disk)@, r2),
    {
        proof {
            lemma_wf_equiv(old(disk));
            lemma_header_valid(old(disk)@);
            assert(spec_valid_ref((TRACK_HEADER, 1u8)));
            lemma_valid_ref_on_disk(old(disk)@, (TRACK_HEADER, 1u8));
        }
        let sector180 = disk.get_sector_mut((TRACK_HEADER, 0));
        self.set_next_sector(sector180, (TRACK_HEADER, 1));
        let ghost mid1 = disk@;
        proof {
            lemma_update_preserves_wf(
                old(disk)@,
                (TRACK_HEADER, 0u8),
                spec_sector_at(disk@, (TRACK_HEADER, 0u8)),
            );
            lemma_wf_equiv(disk);
            lemma_valid_ref_on_disk(mid1, (TRACK_HEADER, 1u8));
        }
        let sector181 = disk.get_sector_mut((TRACK_HEADER, 1));
        self.end_sector_chain(sector181);
        let ghost mid2 = disk@;
        proof {
            lemma_update_preserves_wf(
                mid1,
                (TRACK_HEADER, 1u8),
                spec_sector_at(disk@, (TRACK_HEADER, 1u8)),
            );
            lemma_wf_equiv(disk);
            assert forall|t: int, s: int| 1 <= t <= 35 && 0 <= s < 24 implies bam_free(
                spec_header(mid2),
                t,
                s,
            ) == bam_free(spec_header(old(disk)@), t, s) by {
                crate::commodore1541::bam::lemma_bam_offsets(t, s, t, s);
            }
            assert forall|t: int| 1 <= t <= 35 implies bam_track_wf(spec_header(mid2), t) by {
                assert(bam_track_wf(spec_header(old(disk)@), t));
                crate::commodore1541::bam::lemma_num_free_upto_agree(
                    spec_header(mid2),
                    spec_header(old(disk)@),
                    t,
                    24,
                );
                crate::commodore1541::bam::lemma_bam_offsets(t, 0, t, 0);
            }
        }
        self.mark_sector_used(disk, (TRACK_HEADER, 1));
    }

    /// Set every byte of every sector to zero.
    pub fn clear_disk(&self, disk: &mut Disk<Commodore1541>)
        requires
            old(disk).wf(),
        ensures
            final(disk).wf(),
            forall|r2: SectorRef, k: int|
                #![trigger spec_sector_at(final(disk)@, r2)[k]]
                spec_valid_ref(r2) && 0 <= k < 256 ==> spec_sector_at(final(disk)@, r2)[k]
                    == 0u8,
    {
        let mut track_no: u8 = 1;
        while track_no <= 35
            invariant
                1 <= track_no <= 36,
                disk.wf(),
                forall|r2: SectorRef, k: int|
                    #![trigger spec_sector_at(disk@, r2)[k]]
                    spec_valid_ref(r2) && r2.0 < track_no && 0 <= k < 256 ==> spec_sector_at(
                        disk@,
                        r2,
                    )[k] == 0u8,
            decreases 36 - track_no,
        {
            let num_sectors = self.num_sectors(track_no);
            let mut sector_no: u8 = 0;
            while sector_no < num_sectors
                invariant
                    1 <= track_no <= 35,
                    num_sectors == spec_track_sectors(track_no as int),
                    0 <= sector_no <= num_sectors,
                    disk.wf(),
                    forall|r2: SectorRef, k: int|
                        #![trigger spec_sector_at(disk@, r2)[k]]
                        spec_valid_ref(r2) && r2.0 < track_no && 0 <= k < 256 ==> spec_sector_at(
                            disk@,
                            r2,
                        )[k] == 0u8,
                    forall|r2: SectorRef, k: int|
                        #![trigger spec_sector_at(disk@, r2)[k]]
                        spec_valid_ref(r2) && r2.0 == track_no && r2.1 < sector_no && 0 <= k < 256
                            ==> spec_sector_at(disk@, r2)[k] == 0u8,
                decreases num_sectors - sector_no,
            {
                self.clear_sector_ref(disk, (track_no, sector_no));
                sector_no = sector_no + 1;
            }
            track_no = track_no + 1;
        }
    }

    /// Format the disk: zero everything, write the format marker, mark
    /// every sector free but the header and first directory sector, write
    /// the default name and id, and start the one-sector directory chain.
    pub fn format_disk(&self, disk: &mut Disk<Commodore1541>)
        requires
            old(disk).wf(),
        ensures
            final(disk).wf(),
            spec_formatted(final(disk)@),
    {
        self.clear_disk(disk);
        let ghost d0 = disk@;
        proof {
            lemma_wf_equiv(disk);
            lemma_header_valid(d0);
            crate::commodore1541::bam::lemma_bam_all_zero(spec_header(d0));
        }
        self.initialize_dos_version(disk);
        let ghost d1 = disk@;
        proof {
            assert forall|t: int, s: int| 1 <= t <= 35 && 0 <= s < 24 implies bam_free(
                spec_header(d1),
                t,
                s,
            ) == bam_free(spec_header(d0), t, s) by {
                crate::commodore1541::bam::lemma_bam_offsets(t, s, t, s);
            }
            assert forall|t: int| 1 <= t <= 35 implies bam_track_wf(spec_header(d1), t) by {
                assert(bam_track_wf(spec_header(d0), t));
                crate::commodore1541::bam::lemma_num_free_upto_agree(
                    spec_header(d1),
                    spec_header(d0),
                    t,
                    24,
                );
                crate::commodore1541::bam::lemma_bam_offsets(t, 0, t, 0);
            }
        }
        self.initialize_bam(disk);
        let ghost d2 = disk@;
        let name = String::from_str("NONAME");
        proof {
            reveal_strlit("NONAME");
        }
        self.set_disk_name(disk, &name);
        let ghost d3 = disk@;
        self.initialize_disk_id(disk);
        let ghost d4 = disk@;
        proof {
            assert forall|t: int, s: int| 1 <= t <= 35 && 0 <= s < 24 implies bam_free(
                spec_header(d4),
                t,
                s,
            ) == bam_free(spec_header(d2), t, s) by {
                crate::commodore1541::bam::lemma_bam_offsets(t, s, t, s);
            }
            assert forall|t: int| 1 <= t <= 35 implies bam_track_wf(spec_header(d4), t) by {
                assert(bam_track_wf(spec_header(d2), t));
                crate::commodore1541::bam::lemma_num_free_upto_agree(
                    spec_header(d4),
                    spec_header(d2),
                    t,
                    24,
                );
                crate::commodore1541::bam::lemma_bam_offsets(t, 0, t, 0);
            }
        }
        self.initialize_directory_listing(disk);
        proof {
            let d5 = disk@;
            let hdr = spec_header(d5);
            assert forall|t: int, s: int| 1 <= t <= 35 && 0 <= s < 24 implies (bam_free(
                hdr,
                t,
                s,
            ) <==> spec_format_bit(t, s)) by {}
            lemma_format_user_free(hdr);
            assert(hdr[0] == 18 && hdr[1] == 1);
            assert(hdr[2] == 65);
            assert(hdr[3] == 0);
            assert(hdr[144] == 78 && hdr[145] == 79 && hdr[146] == 78 && hdr[147] == 65
                && hdr[148] == 77 && hdr[149] == 69);
            assert(forall|i: int| 150 <= i < 162 ==> #[trigger] hdr[i] == 160);
            assert(hdr[162] == 48 && hdr[163] == 49 && hdr[164] == 160 && hdr[165] == 50
                && hdr[166] == 65);
            assert(forall|i: int| 167 <= i < 171 ==> #[trigger] hdr[i] == 160);
            assert(forall|i: int| 171 <= i < 256 ==> #[trigger] hdr[i] == 0);
            assert(spec_sector_at(d5, (TRACK_HEADER, 1u8))[0] == 0);
            assert(spec_sector_at(d5, (TRACK_HEADER, 1u8))[1] == 255);
            assert forall|k: int| 2 <= k < 256 implies #[trigger] spec_sector_at(
                d5,
                (TRACK_HEADER, 1u8),
            )[k] == 0 by {
                assert(spec_valid_ref((TRACK_HEADER, 1u8)));
                assert(spec_sector_at(d1, (TRACK_HEADER, 1u8)) == spec_sector_at(
                    d0,
                    (TRACK_HEADER, 1u8),
                ));
                assert(spec_sector_at(d2, (TRACK_HEADER, 1u8)) == spec_sector_at(
                    d1,
                    (TRACK_HEADER, 1u8),
                ));
                assert(spec_sector_at(d3, (TRACK_HEADER, 1u8)) == spec_sector_at(
                    d2,
                    (TRACK_HEADER, 1u8),
                ));
                assert(spec_sector_at(d4, (TRACK_HEADER, 1u8)) == spec_sector_at(
                    d3,
                    (TRACK_HEADER, 1u8),
                ));
                assert(spec_sector_at(d0, (TRACK_HEADER, 1u8))[k] == 0);
            }
            assert(spec_formatted(d5)) by {
                assert forall|r2: SectorRef, k: int|
                    #![trigger spec_sector_at(d5, r2)[k]]
                    spec_valid_ref(r2) && r2 != (TRACK_HEADER, 0u8) && r2 != (TRACK_HEADER, 1u8)
                        && 0 <= k < 256 implies spec_sector_at(d5, r2)[k] == 0 by {
                    assert(spec_sector_at(d5, r2) == spec_sector_at(d4, r2));
                    assert(spec_sector_at(d4, r2) == spec_sector_at(d3, r2));
                    assert(spec_sector_at(d3, r2) == spec_sector_at(d2, r2));
                    assert(spec_sector_at(d2, r2) == spec_sector_at(d1, r2));
                    assert(spec_sector_at(d1, r2) == spec_sector_at(d0, r2));
                }
            }
        }
    }
}

/// The live directory records among the first `k` slots of one directory
/// sector, in slot order.
pub open spec fn spec_slot_entries(sec: Seq<u8>, sref: SectorRef, k: int) -> Seq<
    crate::commodore1541::file_entry::FileEntryView,
>
    decreases k,
{
    if k <= 0 {
        Seq::empty()
    } else {
        spec_slot_entries(sec, sref, k - 1) + if crate::commodore1541::file_entry::spec_slot_live(
            sec[32 * (k - 1) + 2],
        ) {
            seq![
                crate::commodore1541::file_entry::spec_entry_of_bytes(
                    sec.subrange(32 * (k - 1), 32 * (k - 1) + 32),
                    (sref, k - 1),
                ),
            ]
        } else {
            Seq::empty()
        }
    }
}

/// The live records of one directory sector.
pub open spec fn spec_sector_entries(d: DiskBytes, sref: SectorRef) -> Seq<
    crate::commodore1541::file_entry::FileEntryView,
> {
    spec_slot_entries(spec_sector_at(d, sref), sref, 8)
}

/// The live records of the first `i` directory sectors, in chain order.
pub open spec fn spec_entries_upto(d: DiskBytes, refs: Seq<SectorRef>, i: int) -> Seq<
    crate::commodore1541::file_entry::FileEntryView,
>
    decreases i,
{
    if i <= 0 {
        Seq::empty()
    } else {
        spec_entries_upto(d, refs, i - 1) + spec_sector_entries(d, refs[i - 1])
    }
}

/// The directory chain: the sectors reached from the header's next-pointer.
pub open spec fn spec_dir_chain(d: DiskBytes) -> Option<Seq<SectorRef>> {
    spec_chain(d, spec_next_ref(spec_header(d)), CHAIN_FUEL as nat)
}

/// Every live directory record, in on-disk order: directory-sector order
/// along the chain, then slot order within each sector. `None` when the
/// directory chain is corrupt.
pub open spec fn spec_list_entries(d: DiskBytes) -> Option<
    Seq<crate::commodore1541::file_entry::FileEntryView>,
> {
    match spec_dir_chain(d) {
        Some(refs) => Some(spec_entries_upto(d, refs, refs.len() as int)),
        None => None,
    }
}

/// The mathematical contents of a vector of directory records.
pub open spec fn spec_views_of(v: Seq<FileEntry>) -> Seq<
    crate::commodore1541::file_entry::FileEntryView,
> {
    Seq::new(v.len(), |i: int| v[i]@)
}

/// The first scratched slot of one directory sector at or after slot `k`.
pub open spec fn spec_first_scratched_slot(sec: Seq<u8>, k: int) -> Option<int>
    decreases 8 - k,
{
    if k >= 8 {
        None
    } else if !crate::commodore1541::file_entry::spec_slot_live(sec[32 * k + 2]) {
        Some(k)
    } else {
        spec_first_scratched_slot(sec, k + 1)
    }
}

/// The first scratched slot along the directory chain, from sector `i` on:
/// the slot a created file's record is written into when one is free.
pub open spec fn spec_find_scratched(d: DiskBytes, refs: Seq<SectorRef>, i: int) -> Option<
    (SectorRef, int),
>
    decreases refs.len() - i,
{
    if i < 0 || i >= refs.len() {
        None
    } else {
        match spec_first_scratched_slot(spec_sector_at(d, refs[i]), 0) {
            Some(k) => Some((refs[i], k)),
            None => spec_find_scratched(d, refs, i + 1),
        }
    }
}

/// A directory in good standing: its chain walks to an end, every sector
/// on it is marked used in the BAM (so allocation can never hand one out),
/// and none of them is the header sector itself.
pub open spec fn spec_dir_ok(d: DiskBytes) -> bool {
    &&& spec_dir_chain(d) is Some
    &&& forall|i: int|
        0 <= i < spec_dir_chain(d)->Some_0.len() ==> !bam_free(
            spec_header(d),
            (#[trigger] spec_dir_chain(d)->Some_0[i]).0 as int,
            spec_dir_chain(d)->Some_0[i].1 as int,
        ) && spec_dir_chain(d)->Some_0[i] != (TRACK_HEADER, 0u8)
}

/// Content sectors a payload of `len` bytes occupies.
pub open spec fn spec_num_chunks(len: int) -> int {
    (len + 253) / 254
}

/// Sectors a create must take from the BAM: one per content chunk, plus
/// one more when the directory has no scratched slot left and must grow.
pub open spec fn spec_create_needs(d: DiskBytes, n: int) -> int {
    if spec_find_scratched(d, spec_dir_chain(d)->Some_0, 0) is Some {
        n
    } else {
        n + 1
    }
}

/// The payload zero-padded to `n` whole content chunks.
pub open spec fn spec_zero_pad(content: Seq<u8>, n: int) -> Seq<u8> {
    content + Seq::new((n * 254 - content.len()) as nat, |i: int| 0u8)
}

/// The content byte sector `j` of a fresh chain carries at offset `k`:
/// the payload byte at that position, or padding past the payload's end.
pub open spec fn spec_chunk_byte(content: Seq<u8>, j: int, k: int) -> u8 {
    if 254 * j + (k - 2) < content.len() {
        content[254 * j + k - 2]
    } else {
        0u8
    }
}

/// A chain whose sectors carry consecutive 254-byte chunks of the payload
/// reads back as the payload zero-padded to whole chunks.
pub proof fn lemma_padded_content(d: DiskBytes, v: Seq<SectorRef>, content: Seq<u8>, i: int)
    requires
        0 <= i <= v.len(),
        content.len() <= 254 * v.len(),
        forall|j: int, k: int|
            #![trigger spec_sector_at(d, v[j])[k]]
            0 <= j < v.len() && 2 <= k < 256 ==> spec_sector_at(d, v[j])[k] == spec_chunk_byte(
                content,
                j,
                k,
            ),
        forall|j: int| 0 <= j < v.len() ==> spec_sector_at(d, #[trigger] v[j]).len() == 256,
    ensures
        spec_content_upto(d, v, i) == Seq::new(
            (254 * i) as nat,
            |b: int|
                if b < content.len() {
                    content[b]
                } else {
                    0u8
                },
        ),
    decreases i,
{
    if i > 0 {
        lemma_padded_content(d, v, content, i - 1);
        assert(spec_content_upto(d, v, i) =~= Seq::new(
            (254 * i) as nat,
            |b: int|
                if b < content.len() {
                    content[b]
                } else {
                    0u8
                },
        ));
    } else {
        assert(spec_content_upto(d, v, 0) =~= Seq::new(
            0nat,
            |b: int|
                if b < content.len() {
                    content[b]
                } else {
                    0u8
                },
        ));
    }
}

/// The sector a growing directory is linked from: the chain's last
/// sector, or the header itself while the chain is empty.
pub open spec fn spec_dir_end(dirs: Seq<SectorRef>) -> SectorRef {
    if dirs.len() == 0 {
        (TRACK_HEADER, 0u8)
    } else {
        dirs[dirs.len() - 1]
    }
}

/// A found scratched slot lies on the directory chain, at a slot index
/// within the sector's eight records.
pub proof fn lemma_find_scratched_in_chain(d: DiskBytes, refs: Seq<SectorRef>, i: int)
    requires
        spec_find_scratched(d, refs, i) is Some,
    ensures
        refs.contains(spec_find_scratched(d, refs, i)->Some_0.0),
        0 <= spec_find_scratched(d, refs, i)->Some_0.1 < 8,
        !crate::commodore1541::file_entry::spec_slot_live(
            spec_sector_at(d, spec_find_scratched(d, refs, i)->Some_0.0)[32 * spec_find_scratched(
                d,
                refs,
                i,
            )->Some_0.1 + 2],
        ),
    decreases refs.len() - i,
{
    if 0 <= i < refs.len() {
        match spec_first_scratched_slot(spec_sector_at(d, refs[i]), 0) {
            Some(k) => {
                lemma_first_scratched_bounds(spec_sector_at(d, refs[i]), 0);
            },
            None => {
                lemma_find_scratched_in_chain(d, refs, i + 1);
            },
        }
    }
}

proof fn lemma_first_scratched_bounds(sec: Seq<u8>, k: int)
    requires
        0 <= k,
        spec_first_scratched_slot(sec, k) is Some,
    ensures
        k <= spec_first_scratched_slot(sec, k)->Some_0 < 8,
        !crate::commodore1541::file_entry::spec_slot_live(
            sec[32 * spec_first_scratched_slot(sec, k)->Some_0 + 2],
        ),
    decreases 8 - k,
{
    if k < 8 && crate::commodore1541::file_entry::spec_slot_live(sec[32 * k + 2]) {
        lemma_first_scratched_bounds(sec, k + 1);
    }
}

/// Creating a file's content chain leaves the directory exactly as it
/// was: its sectors were all in use, so none was allocated or written.
pub proof fn lemma_create_prefix_stable(
    d0: DiskBytes,
    dc: DiskBytes,
    sectors: Seq<SectorRef>,
    dirs: Seq<SectorRef>,
)
    requires
        spec_dir_ok(d0),
        dirs == spec_dir_chain(d0)->Some_0,
        forall|j: int|
            0 <= j < sectors.len() ==> bam_free(
                spec_header(d0),
                (#[trigger] sectors[j]).0 as int,
                sectors[j].1 as int,
            ),
        forall|r2: SectorRef|
            spec_valid_ref(r2) && r2 != (TRACK_HEADER, 0u8) && !sectors.contains(r2)
                ==> spec_sector_at(dc, r2) == spec_sector_at(d0, r2),
        spec_header(dc)[0] == spec_header(d0)[0],
        spec_header(dc)[1] == spec_header(d0)[1],
    ensures
        spec_dir_chain(dc) == Some(dirs),
        forall|i: int|
            0 <= i < dirs.len() ==> spec_sector_at(dc, #[trigger] dirs[i]) == spec_sector_at(
                d0,
                dirs[i],
            ),
{
    let start = spec_next_ref(spec_header(d0));
    lemma_chain_refs_valid(d0, start, CHAIN_FUEL as nat);
    assert forall|i: int| 0 <= i < dirs.len() implies spec_sector_at(dc, #[trigger] dirs[i])
        == spec_sector_at(d0, dirs[i]) by {
        assert(dirs[i] != (TRACK_HEADER, 0u8));
        assert(spec_valid_ref(dirs[i]));
        assert(!sectors.contains(dirs[i])) by {
            assert forall|j: int| 0 <= j < sectors.len() implies sectors[j] != dirs[i] by {
                assert(!bam_free(
                    spec_header(d0),
                    dirs[i].0 as int,
                    dirs[i].1 as int,
                ));
            }
        }
    }
    lemma_chain_stable(d0, dc, start, CHAIN_FUEL as nat);
    assert(spec_next_ref(spec_header(dc)) == start);
}

/// Writing one directory record finishes a create: the fresh content
/// chain, its contents and the availability map all survive the write.
pub proof fn lemma_create_finish(
    hdr0: Seq<u8>,
    dc: DiskBytes,
    df: DiskBytes,
    sectors: Seq<SectorRef>,
    content: Seq<u8>,
    touched: SectorRef,
    needs: int,
)
    requires
        disk_wf(dc),
        disk_wf(df),
        sectors.len() >= 1,
        sectors.len() <= 683,
        content.len() <= 254 * sectors.len(),
        forall|j: int| 0 <= j < sectors.len() ==> spec_user_ref(#[trigger] sectors[j]),
        forall|j: int, j2: int| 0 <= j < j2 < sectors.len() ==> sectors[j] != sectors[j2],
        forall|j: int|
            0 <= j < sectors.len() - 1 ==> spec_next_ref(
                spec_sector_at(dc, #[trigger] sectors[j]),
            ) == sectors[j + 1],
        spec_next_ref(spec_sector_at(dc, sectors[sectors.len() - 1])) == (0u8, 255u8),
        forall|j: int|
            0 <= j < sectors.len() ==> spec_sector_at(dc, #[trigger] sectors[j]).len() == 256,
        forall|j: int, k: int|
            #![trigger spec_sector_at(dc, sectors[j])[k]]
            0 <= j < sectors.len() && 2 <= k < 256 ==> spec_sector_at(dc, sectors[j])[k]
                == spec_chunk_byte(content, j, k),
        bam_wf(spec_header(dc)),
        user_free(spec_header(dc)) == user_free(hdr0) - needs,
        forall|j: int|
            0 <= j < sectors.len() ==> !bam_free(
                spec_header(dc),
                (#[trigger] sectors[j]).0 as int,
                sectors[j].1 as int,
            ),
        !sectors.contains(touched),
        touched != (TRACK_HEADER, 0u8),
        forall|r2: SectorRef|
            spec_valid_ref(r2) && r2 != touched ==> spec_sector_at(df, r2) == spec_sector_at(
                dc,
                r2,
            ),
    ensures
        bam_wf(spec_header(df)),
        user_free(spec_header(df)) == user_free(hdr0) - needs,
        spec_chain(df, sectors[0], CHAIN_FUEL as nat) == Some(sectors),
        forall|j: int|
            0 <= j < sectors.len() ==> !bam_free(
                spec_header(df),
                (#[trigger] sectors[j]).0 as int,
                sectors[j].1 as int,
            ),
        spec_next_ref(spec_sector_at(df, sectors[sectors.len() - 1])) == (0u8, 255u8),
        spec_read_file(df, sectors[0]) == Some(spec_zero_pad(content, sectors.len() as int)),
{
    assert(spec_valid_ref((TRACK_HEADER, 0u8)));
    assert(spec_sector_at(df, (TRACK_HEADER, 0u8)) == spec_sector_at(dc, (TRACK_HEADER, 0u8)));
    assert(spec_header(df) == spec_header(dc));
    assert forall|j: int| 0 <= j < sectors.len() implies spec_sector_at(
        df,
        #[trigger] sectors[j],
    ) == spec_sector_at(dc, sectors[j]) by {
        assert(sectors[j] != touched);
        assert(spec_valid_ref(sectors[j]));
    }
    lemma_chain_of_linked_list(df, sectors, 0, CHAIN_FUEL as nat);
    assert(sectors.skip(0) =~= sectors);
    let refs = spec_chain(df, sectors[0], CHAIN_FUEL as nat)->Some_0;
    assert(refs == sectors);
    assert forall|j: int, k: int|
        #![trigger spec_sector_at(df, sectors[j])[k]]
        0 <= j < sectors.len() && 2 <= k < 256 implies spec_sector_at(df, sectors[j])[k]
        == spec_chunk_byte(content, j, k) by {
        assert(spec_sector_at(df, sectors[j]) == spec_sector_at(dc, sectors[j]));
    }
    lemma_padded_content(df, sectors, content, sectors.len() as int);
    assert(spec_zero_pad(content, sectors.len() as int) =~= Seq::new(
        (254 * sectors.len()) as nat,
        |b: int|
            if b < content.len() {
                content[b]
            } else {
                0u8
            },
    ));
}

/// A file entry in good standing on a consistent disk: its content chain
/// walks to an end over user sectors that are all marked used, the chain
/// is disjoint from the directory, and the entry's own record sits in a
/// directory slot.
pub open spec fn spec_entry_clean(d: DiskBytes, start: SectorRef, entry_ref: (
    SectorRef,
    int,
)) -> bool {
    &&& spec_chain(d, start, CHAIN_FUEL as nat) is Some
    &&& forall|i: int|
        0 <= i < spec_chain(d, start, CHAIN_FUEL as nat)->Some_0.len() ==> spec_user_ref(
            #[trigger] spec_chain(d, start, CHAIN_FUEL as nat)->Some_0[i],
        ) && !bam_free(
            spec_header(d),
            spec_chain(d, start, CHAIN_FUEL as nat)->Some_0[i].0 as int,
            spec_chain(d, start, CHAIN_FUEL as nat)->Some_0[i].1 as int,
        ) && !spec_dir_chain(d)->Some_0.contains(
            spec_chain(d, start, CHAIN_FUEL as nat)->Some_0[i],
        )
    &&& spec_dir_ok(d)
    &&& spec_dir_chain(d)->Some_0.contains(entry_ref.0)
    &&& 0 <= entry_ref.1 < 8
}

/// Scratching one slot of one directory sector drops exactly that slot's
/// record from the sector's live entries.
proof fn lemma_slot_entries_scratch(
    sec1: Seq<u8>,
    sec2: Seq<u8>,
    sref: SectorRef,
    target_slot: int,
    k: int,
)
    requires
        sec1.len() == 256,
        sec2.len() == 256,
        0 <= target_slot < 8,
        0 <= k <= 8,
        forall|b: int|
            0 <= b < 256 && !(32 * target_slot + 2 <= b < 32 * target_slot + 32) ==> sec2[b]
                == sec1[b],
        !crate::commodore1541::file_entry::spec_slot_live(sec2[32 * target_slot + 2]),
    ensures
        spec_slot_entries(sec2, sref, k) == spec_slot_entries(sec1, sref, k).filter(
            |ev: crate::commodore1541::file_entry::FileEntryView|
                ev.file_entry_ref != (sref, target_slot),
        ),
    decreases k,
{
    let pred = |ev: crate::commodore1541::file_entry::FileEntryView|
        ev.file_entry_ref != (sref, target_slot);
    reveal(Seq::filter);
    if k == 0 {
        assert(spec_slot_entries(sec1, sref, 0).filter(pred) =~= Seq::empty());
    } else {
        lemma_slot_entries_scratch(sec1, sec2, sref, target_slot, k - 1);
        let prev1 = spec_slot_entries(sec1, sref, k - 1);
        let tail1 = if crate::commodore1541::file_entry::spec_slot_live(sec1[32 * (k - 1) + 2]) {
            seq![
                crate::commodore1541::file_entry::spec_entry_of_bytes(
                    sec1.subrange(32 * (k - 1), 32 * (k - 1) + 32),
                    (sref, k - 1),
                ),
            ]
        } else {
            Seq::empty()
        };
        Seq::filter_distributes_over_add(prev1, tail1, pred);
        if tail1.len() == 1 {
            assert(tail1.drop_last() =~= Seq::empty());
            assert(tail1.drop_last().filter(pred) =~= Seq::empty());
            assert(tail1.last() == tail1[0]);
            if pred(tail1[0]) {
                assert(tail1.filter(pred) =~= seq![tail1[0]]);
            } else {
                assert(tail1.filter(pred) =~= Seq::empty());
            }
        }
        if k - 1 == target_slot {
            assert(spec_slot_entries(sec2, sref, k) == spec_slot_entries(sec2, sref, k - 1));
            if tail1.len() == 1 {
                assert(tail1[0].file_entry_ref == (sref, target_slot));
                assert(!pred(tail1[0]));
            }
        } else {
            assert(sec2.subrange(32 * (k - 1), 32 * (k - 1) + 32) =~= sec1.subrange(
                32 * (k - 1),
                32 * (k - 1) + 32,
            ));
            assert(sec2[32 * (k - 1) + 2] == sec1[32 * (k - 1) + 2]);
            if tail1.len() == 1 {
                assert(tail1[0].file_entry_ref == (sref, k - 1));
                assert(pred(tail1[0]));
            }
        }
    }
}

/// Scratching one slot drops exactly that record from the whole listing.
proof fn lemma_entries_upto_scratch(
    d1: DiskBytes,
    d2: DiskBytes,
    dirs: Seq<SectorRef>,
    target_sec: SectorRef,
    target_slot: int,
    i: int,
)
    requires
        0 <= i <= dirs.len(),
        0 <= target_slot < 8,
        forall|j: int|
            0 <= j < dirs.len() ==> spec_sector_at(d1, #[trigger] dirs[j]).len() == 256
                && spec_sector_at(d2, dirs[j]).len() == 256,
        forall|j: int|
            0 <= j < dirs.len() && dirs[j] != target_sec ==> spec_sector_at(
                d2,
                #[trigger] dirs[j],
            ) == spec_sector_at(d1, dirs[j]),
        forall|b: int|
            0 <= b < 256 && !(32 * target_slot + 2 <= b < 32 * target_slot + 32)
                ==> spec_sector_at(d2, target_sec)[b] == spec_sector_at(d1, target_sec)[b],
        !crate::commodore1541::file_entry::spec_slot_live(
            spec_sector_at(d2, target_sec)[32 * target_slot + 2],
        ),
    ensures
        spec_entries_upto(d2, dirs, i) == spec_entries_upto(d1, dirs, i).filter(
            |ev: crate::commodore1541::file_entry::FileEntryView|
                ev.file_entry_ref != (target_sec, target_slot),
        ),
    decreases i,
{
    let pred = |ev: crate::commodore1541::file_entry::FileEntryView|
        ev.file_entry_ref != (target_sec, target_slot);
    reveal(Seq::filter);
    if i == 0 {
        assert(spec_entries_upto(d1, dirs, 0).filter(pred) =~= Seq::empty());
    } else {
        lemma_entries_upto_scratch(d1, d2, dirs, target_sec, target_slot, i - 1);
        let prev1 = spec_entries_upto(d1, dirs, i - 1);
        let sec1 = spec_sector_at(d1, dirs[i - 1]);
        let sec2 = spec_sector_at(d2, dirs[i - 1]);
        Seq::filter_distributes_over_add(prev1, spec_slot_entries(sec1, dirs[i - 1], 8), pred);
        if dirs[i - 1] == target_sec {
            lemma_slot_entries_scratch(sec1, sec2, dirs[i - 1], target_slot, 8);
        } else {
            assert(sec2 == sec1);
            lemma_slot_entries_unrelated(sec1, dirs[i - 1], target_sec, target_slot, 8);
        }
    }
}

/// A sector's listing reads nothing but its record windows past the two
/// pointer bytes.
proof fn lemma_slot_entries_content(sec1: Seq<u8>, sec2: Seq<u8>, sref: SectorRef, j: int)
    requires
        sec1.len() == 256,
        sec2.len() == 256,
        0 <= j <= 8,
        forall|b: int| 2 <= b < 256 ==> sec2[b] == sec1[b],
    ensures
        spec_slot_entries(sec2, sref, j) == spec_slot_entries(sec1, sref, j),
    decreases j,
{
    if j > 0 {
        lemma_slot_entries_content(sec1, sec2, sref, j - 1);
        assert(sec2[32 * (j - 1) + 2] == sec1[32 * (j - 1) + 2]);
        if crate::commodore1541::file_entry::spec_slot_live(sec2[32 * (j - 1) + 2]) {
            let w1 = sec1.subrange(32 * (j - 1), 32 * (j - 1) + 32);
            let w2 = sec2.subrange(32 * (j - 1), 32 * (j - 1) + 32);
            assert(w2.subrange(5, 21) =~= w1.subrange(5, 21));
            assert(w2[2] == w1[2] && w2[3] == w1[3] && w2[4] == w1[4] && w2[30] == w1[30]
                && w2[31] == w1[31]);
            assert(crate::commodore1541::file_entry::spec_entry_of_bytes(w2, (sref, j - 1))
                == crate::commodore1541::file_entry::spec_entry_of_bytes(w1, (sref, j - 1)));
        }
    }
}

/// The listing reads only record windows: pointer bytes may differ.
proof fn lemma_entries_upto_content(d1: DiskBytes, d2: DiskBytes, dirs: Seq<SectorRef>, i: int)
    requires
        0 <= i <= dirs.len(),
        forall|j: int|
            0 <= j < dirs.len() ==> spec_sector_at(d1, #[trigger] dirs[j]).len() == 256
                && spec_sector_at(d2, dirs[j]).len() == 256,
        forall|j: int, b: int|
            #![trigger spec_sector_at(d2, dirs[j])[b]]
            0 <= j < dirs.len() && 2 <= b < 256 ==> spec_sector_at(d2, dirs[j])[b]
                == spec_sector_at(d1, dirs[j])[b],
    ensures
        spec_entries_upto(d2, dirs, i) == spec_entries_upto(d1, dirs, i),
    decreases i,
{
    if i > 0 {
        lemma_entries_upto_content(d1, d2, dirs, i - 1);
        lemma_slot_entries_content(
            spec_sector_at(d1, dirs[i - 1]),
            spec_sector_at(d2, dirs[i - 1]),
            dirs[i - 1],
            8,
        );
    }
}

/// Listing reads only the first `i` chain positions.
proof fn lemma_entries_upto_prefix(
    d: DiskBytes,
    refs1: Seq<SectorRef>,
    refs2: Seq<SectorRef>,
    i: int,
)
    requires
        forall|j: int| 0 <= j < i ==> refs1[j] == refs2[j],
    ensures
        spec_entries_upto(d, refs1, i) == spec_entries_upto(d, refs2, i),
    decreases i,
{
    if i > 0 {
        lemma_entries_upto_prefix(d, refs1, refs2, i - 1);
    }
}

/// A sector whose record tags are all scratched lists nothing.
proof fn lemma_slot_entries_none(sec: Seq<u8>, sref: SectorRef, j: int)
    requires
        0 <= j <= 8,
        forall|k: int|
            0 <= k < j ==> !crate::commodore1541::file_entry::spec_slot_live(
                #[trigger] sec[32 * k + 2],
            ),
    ensures
        spec_slot_entries(sec, sref, j) == Seq::<
            crate::commodore1541::file_entry::FileEntryView,
        >::empty(),
    decreases j,
{
    if j > 0 {
        lemma_slot_entries_none(sec, sref, j - 1);
        assert(spec_slot_entries(sec, sref, j) =~= Seq::<
            crate::commodore1541::file_entry::FileEntryView,
        >::empty());
    }
}

/// Writing a live record into a scratched slot adds exactly that record
/// to the sector's listing.
proof fn lemma_slot_entries_live(
    sec1: Seq<u8>,
    sec2: Seq<u8>,
    sref: SectorRef,
    target_slot: int,
    j: int,
)
    requires
        sec1.len() == 256,
        sec2.len() == 256,
        0 <= target_slot < 8,
        0 <= j <= 8,
        forall|b: int|
            0 <= b < 256 && !(32 * target_slot + 2 <= b < 32 * target_slot + 32) ==> sec2[b]
                == sec1[b],
        !crate::commodore1541::file_entry::spec_slot_live(sec1[32 * target_slot + 2]),
        crate::commodore1541::file_entry::spec_slot_live(sec2[32 * target_slot + 2]),
    ensures
        spec_slot_entries(sec2, sref, j).len() == spec_slot_entries(sec1, sref, j).len() + (
        if target_slot < j {
            1int
        } else {
            0int
        }),
        target_slot < j ==> spec_slot_entries(sec2, sref, j).contains(
            crate::commodore1541::file_entry::spec_entry_of_bytes(
                sec2.subrange(32 * target_slot, 32 * target_slot + 32),
                (sref, target_slot),
            ),
        ),
    decreases j,
{
    if j > 0 {
        lemma_slot_entries_live(sec1, sec2, sref, target_slot, j - 1);
        let prev2 = spec_slot_entries(sec2, sref, j - 1);
        if j - 1 == target_slot {
            let ev = crate::commodore1541::file_entry::spec_entry_of_bytes(
                sec2.subrange(32 * target_slot, 32 * target_slot + 32),
                (sref, target_slot),
            );
            assert(spec_slot_entries(sec2, sref, j) == prev2 + seq![ev]);
            assert(spec_slot_entries(sec2, sref, j)[prev2.len() as int] == ev);
        } else {
            assert(sec2.subrange(32 * (j - 1), 32 * (j - 1) + 32) =~= sec1.subrange(
                32 * (j - 1),
                32 * (j - 1) + 32,
            ));
            assert(sec2[32 * (j - 1) + 2] == sec1[32 * (j - 1) + 2]);
            if target_slot < j - 1 {
                let ev = crate::commodore1541::file_entry::spec_entry_of_bytes(
                    sec2.subrange(32 * target_slot, 32 * target_slot + 32),
                    (sref, target_slot),
                );
                let w = choose|w: int| 0 <= w < prev2.len() && prev2[w] == ev;
                assert(spec_slot_entries(sec2, sref, j)[w] == ev);
            }
        }
    }
}

/// old listing, the length grows by one, and the record is listed.
proof fn lemma_record_write_listing(
    d1: DiskBytes,
    d2: DiskBytes,
    dirs: Seq<SectorRef>,
    target_sec: SectorRef,
    target_slot: int,
    jj: int,
)
    requires
        0 <= target_slot < 8,
        0 <= jj < dirs.len(),
        dirs[jj] == target_sec,
        forall|i: int, j: int| 0 <= i < j < dirs.len() ==> dirs[i] != dirs[j],
        forall|j: int|
            0 <= j < dirs.len() ==> spec_sector_at(d1, #[trigger] dirs[j]).len() == 256
                && spec_sector_at(d2, dirs[j]).len() == 256,
        forall|j: int|
            0 <= j < dirs.len() && dirs[j] != target_sec ==> spec_sector_at(
                d2,
                #[trigger] dirs[j],
            ) == spec_sector_at(d1, dirs[j]),
        forall|b: int|
            0 <= b < 256 && !(32 * target_slot + 2 <= b < 32 * target_slot + 32)
                ==> spec_sector_at(d2, target_sec)[b] == spec_sector_at(d1, target_sec)[b],
        !crate::commodore1541::file_entry::spec_slot_live(
            spec_sector_at(d1, target_sec)[32 * target_slot + 2],
        ),
        crate::commodore1541::file_entry::spec_slot_live(
            spec_sector_at(d2, target_sec)[32 * target_slot + 2],
        ),
    ensures
        spec_entries_upto(d2, dirs, dirs.len() as int).filter(
            |ev: crate::commodore1541::file_entry::FileEntryView|
                ev.file_entry_ref != (target_sec, target_slot),
        ) == spec_entries_upto(d1, dirs, dirs.len() as int),
        spec_entries_upto(d2, dirs, dirs.len() as int).len() == spec_entries_upto(
            d1,
            dirs,
            dirs.len() as int,
        ).len() + 1,
        spec_entries_upto(d2, dirs, dirs.len() as int).contains(
            crate::commodore1541::file_entry::spec_entry_of_bytes(
                spec_sector_at(d2, target_sec).subrange(
                    32 * target_slot,
                    32 * target_slot + 32,
                ),
                (target_sec, target_slot),
            ),
        ),
{
    lemma_entries_upto_scratch(d2, d1, dirs, target_sec, target_slot, dirs.len() as int);
    lemma_entries_upto_live_at(d1, d2, dirs, target_sec, target_slot, jj, dirs.len() as int);
}

/// The length-and-membership half of `lemma_record_write_listing`, by
/// induction along the chain.
proof fn lemma_entries_upto_live_at(
    d1: DiskBytes,
    d2: DiskBytes,
    dirs: Seq<SectorRef>,
    target_sec: SectorRef,
    target_slot: int,
    jj: int,
    i: int,
)
    requires
        0 <= target_slot < 8,
        0 <= jj < dirs.len(),
        0 <= i <= dirs.len(),
        dirs[jj] == target_sec,
        forall|i2: int, j2: int| 0 <= i2 < j2 < dirs.len() ==> dirs[i2] != dirs[j2],
        forall|j: int|
            0 <= j < dirs.len() ==> spec_sector_at(d1, #[trigger] dirs[j]).len() == 256
                && spec_sector_at(d2, dirs[j]).len() == 256,
        forall|j: int|
            0 <= j < dirs.len() && dirs[j] != target_sec ==> spec_sector_at(
                d2,
                #[trigger] dirs[j],
            ) == spec_sector_at(d1, dirs[j]),
        forall|b: int|
            0 <= b < 256 && !(32 * target_slot + 2 <= b < 32 * target_slot + 32)
                ==> spec_sector_at(d2, target_sec)[b] == spec_sector_at(d1, target_sec)[b],
        !crate::commodore1541::file_entry::spec_slot_live(
            spec_sector_at(d1, target_sec)[32 * target_slot + 2],
        ),
        crate::commodore1541::file_entry::spec_slot_live(
            spec_sector_at(d2, target_sec)[32 * target_slot + 2],
        ),
    ensures
        spec_entries_upto(d2, dirs, i).len() == spec_entries_upto(d1, dirs, i).len() + (if jj
            < i {
            1int
        } else {
            0int
        }),
        jj < i ==> spec_entries_upto(d2, dirs, i).contains(
            crate::commodore1541::file_entry::spec_entry_of_bytes(
                spec_sector_at(d2, target_sec).subrange(
                    32 * target_slot,
                    32 * target_slot + 32,
                ),
                (target_sec, target_slot),
            ),
        ),
    decreases i,
{
    if i > 0 {
        lemma_entries_upto_live_at(d1, d2, dirs, target_sec, target_slot, jj, i - 1);
        let prev2 = spec_entries_upto(d2, dirs, i - 1);
        let tail2 = spec_sector_entries(d2, dirs[i - 1]);
        let ev = crate::commodore1541::file_entry::spec_entry_of_bytes(
            spec_sector_at(d2, target_sec).subrange(32 * target_slot, 32 * target_slot + 32),
            (target_sec, target_slot),
        );
        if i - 1 == jj {
            lemma_slot_entries_live(
                spec_sector_at(d1, target_sec),
                spec_sector_at(d2, target_sec),
                target_sec,
                target_slot,
                8,
            );
            let w = choose|w: int| 0 <= w < tail2.len() && tail2[w] == ev;
            assert(spec_entries_upto(d2, dirs, i)[prev2.len() + w] == ev);
        } else {
            assert(dirs[i - 1] != target_sec);
            assert(spec_sector_at(d2, dirs[i - 1]) == spec_sector_at(d1, dirs[i - 1]));
            if jj < i - 1 {
                let w = choose|w: int| 0 <= w < prev2.len() && prev2[w] == ev;
                assert(spec_entries_upto(d2, dirs, i)[w] == ev);
            }
        }
    }
}

/// Writing one live record into a scratched directory slot, the rest of
/// the directory untouched: the walk is unchanged and the listing gains
/// exactly that record.
proof fn lemma_create_listing(
    dbase: DiskBytes,
    df: DiskBytes,
    dirs: Seq<SectorRef>,
    target: SectorRef,
    k: int,
)
    requires
        disk_wf(dbase),
        disk_wf(df),
        spec_dir_chain(dbase) == Some(dirs),
        dirs.contains(target),
        0 <= k < 8,
        spec_header(df)[0] == spec_header(dbase)[0],
        spec_header(df)[1] == spec_header(dbase)[1],
        forall|j: int|
            0 <= j < dirs.len() && dirs[j] != target ==> spec_sector_at(
                df,
                #[trigger] dirs[j],
            ) == spec_sector_at(dbase, dirs[j]),
        forall|b: int|
            0 <= b < 256 && !(32 * k + 2 <= b < 32 * k + 32) ==> spec_sector_at(df, target)[b]
                == spec_sector_at(dbase, target)[b],
        !crate::commodore1541::file_entry::spec_slot_live(
            spec_sector_at(dbase, target)[32 * k + 2],
        ),
        crate::commodore1541::file_entry::spec_slot_live(spec_sector_at(df, target)[32 * k + 2]),
    ensures
        spec_dir_chain(df) == Some(dirs),
        spec_list_entries(df) is Some,
        spec_list_entries(dbase) is Some,
        spec_list_entries(df)->Some_0.filter(
            |ev: crate::commodore1541::file_entry::FileEntryView|
                ev.file_entry_ref != (target, k),
        ) == spec_list_entries(dbase)->Some_0,
        spec_list_entries(df)->Some_0.len() == spec_list_entries(dbase)->Some_0.len() + 1,
        spec_list_entries(df)->Some_0.contains(
            crate::commodore1541::file_entry::spec_entry_of_bytes(
                spec_sector_at(df, target).subrange(32 * k, 32 * k + 32),
                (target, k),
            ),
        ),
{
    let start = spec_next_ref(spec_header(dbase));
    lemma_chain_refs_valid(dbase, start, CHAIN_FUEL as nat);
    lemma_chain_distinct(dbase, start, CHAIN_FUEL as nat);
    let jj = choose|jj: int| 0 <= jj < dirs.len() && dirs[jj] == target;
    assert forall|i2: int, j2: int| 0 <= i2 < j2 < dirs.len() implies dirs[i2] != dirs[j2] by {
        assert(spec_chain(dbase, start, CHAIN_FUEL as nat)->Some_0[i2] != spec_chain(
            dbase,
            start,
            CHAIN_FUEL as nat,
        )->Some_0[j2]);
    }
    assert forall|j: int| 0 <= j < dirs.len() implies spec_sector_at(
        dbase,
        #[trigger] dirs[j],
    ).len() == 256 && spec_sector_at(df, dirs[j]).len() == 256 by {
        assert(spec_valid_ref(spec_chain(dbase, start, CHAIN_FUEL as nat)->Some_0[j]));
        lemma_valid_ref_on_disk(dbase, dirs[j]);
        lemma_valid_ref_on_disk(df, dirs[j]);
    }
    assert forall|j: int| 0 <= j < dirs.len() implies spec_sector_at(df, #[trigger] dirs[j])[0]
        == spec_sector_at(dbase, dirs[j])[0] && spec_sector_at(df, dirs[j])[1]
        == spec_sector_at(dbase, dirs[j])[1] by {
        if dirs[j] == target {
            assert(32 * k + 2 >= 2);
        }
    }
    lemma_chain_stable(dbase, df, start, CHAIN_FUEL as nat);
    assert(spec_next_ref(spec_header(df)) == start);
    lemma_record_write_listing(dbase, df, dirs, target, k, jj);
}

/// Along a chain, each sector's stored pointer names the next entry, and
/// the last sector's pointer ends the chain.
pub proof fn lemma_chain_all_links(d: DiskBytes, start: SectorRef, fuel: nat)
    requires
        spec_chain(d, start, fuel) is Some,
    ensures
        forall|j: int|
            0 <= j < spec_chain(d, start, fuel)->Some_0.len() - 1 ==> spec_next_ref(
                spec_sector_at(d, #[trigger] spec_chain(d, start, fuel)->Some_0[j]),
            ) == spec_chain(d, start, fuel)->Some_0[j + 1],
        spec_chain(d, start, fuel)->Some_0.len() > 0 ==> spec_next_ref(
            spec_sector_at(
                d,
                spec_chain(d, start, fuel)->Some_0[spec_chain(d, start, fuel)->Some_0.len()
                    - 1],
            ),
        ).0 == 0,
    decreases fuel,
{
    let refs = spec_chain(d, start, fuel)->Some_0;
    if start.0 != 0 && spec_valid_ref(start) && fuel > 0 {
        let nxt = spec_next_ref(spec_sector_at(d, start));
        lemma_chain_all_links(d, nxt, (fuel - 1) as nat);
        let rest = spec_chain(d, nxt, (fuel - 1) as nat)->Some_0;
        if rest.len() > 0 {
            assert(rest[0] == nxt);
        }
        assert forall|j: int| 0 <= j < refs.len() - 1 implies spec_next_ref(
            spec_sector_at(d, #[trigger] refs[j]),
        ) == refs[j + 1] by {
            if j > 0 {
                assert(refs[j] == rest[j - 1] && refs[j + 1] == rest[j]);
            }
        }
        if refs.len() > 1 {
            assert(refs[refs.len() - 1] == rest[rest.len() - 1]);
        }
    }
}

/// A freshly stored record window decodes back to the stored fields, the
/// name padded to the field width.
proof fn lemma_stored_record_decodes(
    win: Seq<u8>,
    slot_ref: (SectorRef, int),
    name: Seq<u8>,
    file_type: crate::commodore1541::file_entry::FileType,
    num_sectors: int,
    start: SectorRef,
)
    requires
        win.len() == 32,
        name.len() <= 16,
        0 <= num_sectors < 65536,
        file_type != crate::commodore1541::file_entry::FileType::Scratched,
        win[2] == crate::commodore1541::file_entry::spec_file_type_byte(file_type),
        win[3] == start.0,
        win[4] == start.1,
        forall|j: int|
            5 <= j < 21 ==> #[trigger] win[j] == (if j - 5 < name.len() {
                name[j - 5]
            } else {
                crate::petscii::PETSCII_NBSP
            }),
        win[30] == (num_sectors % 256) as u8,
        win[31] == (num_sectors / 256) as u8,
    ensures
        crate::commodore1541::file_entry::spec_slot_live(win[2]),
        crate::commodore1541::file_entry::spec_entry_of_bytes(win, slot_ref) == (
        crate::commodore1541::file_entry::FileEntryView {
            name: name + Seq::new(
                (16 - name.len()) as nat,
                |b: int| crate::petscii::PETSCII_NBSP,
            ),
            file_type,
            num_sectors,
            start_sector: start,
            file_entry_ref: slot_ref,
        }),
{
    assert(win.subrange(5, 21) =~= name + Seq::new(
        (16 - name.len()) as nat,
        |b: int| crate::petscii::PETSCII_NBSP,
    ));
    assert(win[31] as int * 256 + win[30] as int == num_sectors);
}

/// Everything a finished create owes about the directory, taken in one
/// step: with the stored record's window in place and the directory
/// otherwise untouched, the walk is unchanged, the listing gains exactly
/// the stored record, and the disk is again in good standing for the
/// operations that follow.
#[verifier::rlimit(50)]
proof fn lemma_create_wrapup(
    d0: DiskBytes,
    df: DiskBytes,
    dirs: Seq<SectorRef>,
    sectors: Seq<SectorRef>,
    chain_start: SectorRef,
    target: SectorRef,
    kk: int,
    name: Seq<u8>,
    file_type: crate::commodore1541::file_entry::FileType,
    n: int,
    start: SectorRef,
)
    requires
        disk_wf(d0),
        disk_wf(df),
        spec_dir_chain(d0) == Some(dirs),
        dirs.contains(target),
        0 <= kk < 8,
        spec_header(df)[0] == spec_header(d0)[0],
        spec_header(df)[1] == spec_header(d0)[1],
        forall|j: int|
            0 <= j < dirs.len() && dirs[j] != target ==> spec_sector_at(
                df,
                #[trigger] dirs[j],
            ) == spec_sector_at(d0, dirs[j]),
        forall|b: int|
            0 <= b < 256 && !(32 * kk + 2 <= b < 32 * kk + 32) ==> spec_sector_at(df, target)[b]
                == spec_sector_at(d0, target)[b],
        !crate::commodore1541::file_entry::spec_slot_live(
            spec_sector_at(d0, target)[32 * kk + 2],
        ),
        name.len() <= 16,
        0 <= n < 65536,
        file_type != crate::commodore1541::file_entry::FileType::Scratched,
        ({
            let win = spec_sector_at(df, target).subrange(32 * kk, 32 * kk + 32);
            &&& spec_sector_at(df, target).len() == 256
            &&& win[2] == crate::commodore1541::file_entry::spec_file_type_byte(file_type)
            &&& win[3] == start.0
            &&& win[4] == start.1
            &&& (forall|j: int|
                5 <= j < 21 ==> #[trigger] win[j] == (if j - 5 < name.len() {
                    name[j - 5]
                } else {
                    crate::petscii::PETSCII_NBSP
                }))
            &&& win[30] == (n % 256) as u8
            &&& win[31] == (n / 256) as u8
        }),
        spec_chain(df, chain_start, CHAIN_FUEL as nat) == Some(sectors),
        forall|j: int|
            0 <= j < sectors.len() ==> spec_user_ref(#[trigger] sectors[j]) && !bam_free(
                spec_header(df),
                sectors[j].0 as int,
                sectors[j].1 as int,
            ) && !dirs.contains(sectors[j]),
        forall|i: int|
            0 <= i < dirs.len() ==> !bam_free(
                spec_header(df),
                (#[trigger] dirs[i]).0 as int,
                dirs[i].1 as int,
            ) && dirs[i] != (TRACK_HEADER, 0u8),
    ensures
        spec_dir_chain(df) == Some(dirs),
        spec_list_entries(d0) is Some,
        spec_list_entries(df) is Some,
        spec_list_entries(df)->Some_0.filter(
            |ev: crate::commodore1541::file_entry::FileEntryView|
                ev.file_entry_ref != (target, kk),
        ) == spec_list_entries(d0)->Some_0,
        spec_list_entries(df)->Some_0.len() == spec_list_entries(d0)->Some_0.len() + 1,
        spec_list_entries(df)->Some_0.contains(
            (crate::commodore1541::file_entry::FileEntryView {
                name: name + Seq::new(
                    (16 - name.len()) as nat,
                    |b: int| crate::petscii::PETSCII_NBSP,
                ),
                file_type,
                num_sectors: n,
                start_sector: start,
                file_entry_ref: (target, kk),
            }),
        ),
        spec_dir_ok(df),
        spec_entry_clean(df, chain_start, (target, kk)),
{
    let win = spec_sector_at(df, target).subrange(32 * kk, 32 * kk + 32);
    assert(spec_sector_at(df, target)[32 * kk + 2] == win[2]);
    assert(crate::commodore1541::file_entry::spec_slot_live(
        spec_sector_at(df, target)[32 * kk + 2],
    ));
    lemma_create_listing(d0, df, dirs, target, kk);
    lemma_stored_record_decodes(win, (target, kk), name, file_type, n, start);
    assert forall|i: int| 0 <= i < spec_dir_chain(df)->Some_0.len() implies !bam_free(
        spec_header(df),
        (#[trigger] spec_dir_chain(df)->Some_0[i]).0 as int,
        spec_dir_chain(df)->Some_0[i].1 as int,
    ) && spec_dir_chain(df)->Some_0[i] != (TRACK_HEADER, 0u8) by {
        assert(spec_dir_chain(df)->Some_0[i] == dirs[i]);
    }
    let crefs = spec_chain(df, chain_start, CHAIN_FUEL as nat)->Some_0;
    assert forall|i: int| 0 <= i < crefs.len() implies spec_user_ref(#[trigger] crefs[i])
        && !bam_free(spec_header(df), crefs[i].0 as int, crefs[i].1 as int)
        && !spec_dir_chain(df)->Some_0.contains(crefs[i]) by {
        assert(crefs[i] == sectors[i]);
        if spec_dir_chain(df)->Some_0.contains(crefs[i]) {
            let w = choose|w: int|
                0 <= w < dirs.len() && spec_dir_chain(df)->Some_0[w] == crefs[i];
            assert(dirs[w] == sectors[i]);
            assert(dirs.contains(sectors[i]));
        }
    }
}

/// Re-pointing a chain's last sector at a fresh end sector extends the
/// walk by exactly that sector.
#[verifier::rlimit(100)]
pub proof fn lemma_chain_extend(
    d1: DiskBytes,
    d2: DiskBytes,
    start: SectorRef,
    dirs: Seq<SectorRef>,
    new_ref: SectorRef,
)
    requires
        spec_chain(d1, start, CHAIN_FUEL as nat) == Some(dirs),
        dirs.len() + 1 <= CHAIN_FUEL,
        spec_valid_ref(new_ref),
        !dirs.contains(new_ref),
        spec_next_ref(spec_sector_at(d2, new_ref)).0 == 0,
        forall|j: int|
            0 <= j < dirs.len() - 1 ==> spec_next_ref(
                spec_sector_at(d2, #[trigger] dirs[j]),
            ) == spec_next_ref(spec_sector_at(d1, dirs[j])),
        dirs.len() > 0 ==> spec_next_ref(spec_sector_at(d2, dirs[dirs.len() - 1])) == new_ref,
        dirs.len() == 0 ==> start == new_ref,
    ensures
        spec_chain(d2, start, CHAIN_FUEL as nat) == Some(dirs.push(new_ref)),
{
    let v = dirs.push(new_ref);
    lemma_chain_refs_valid(d1, start, CHAIN_FUEL as nat);
    lemma_chain_distinct(d1, start, CHAIN_FUEL as nat);
    lemma_chain_all_links(d1, start, CHAIN_FUEL as nat);
    assert forall|j: int| 0 <= j < v.len() implies spec_valid_ref(#[trigger] v[j]) by {
        if j < dirs.len() {
            assert(spec_valid_ref(spec_chain(d1, start, CHAIN_FUEL as nat)->Some_0[j]));
        }
    }
    assert forall|j: int| 0 <= j < v.len() - 1 implies spec_next_ref(
        spec_sector_at(d2, #[trigger] v[j]),
    ) == v[j + 1] by {
        if j < dirs.len() - 1 {
            assert(spec_next_ref(
                spec_sector_at(d1, spec_chain(d1, start, CHAIN_FUEL as nat)->Some_0[j]),
            ) == spec_chain(d1, start, CHAIN_FUEL as nat)->Some_0[j + 1]);
        }
    }
    assert forall|i2: int, j2: int| 0 <= i2 < j2 < v.len() implies v[i2] != v[j2] by {
        if j2 == v.len() - 1 {
            assert(!dirs.contains(v[i2]) ==> v[i2] != new_ref);
            assert(dirs[i2] == v[i2]);
        }
    }
    lemma_chain_of_linked_list(d2, v, 0, CHAIN_FUEL as nat);
    assert(v.skip(0) =~= v);
    if dirs.len() > 0 {
        assert(v[0] == dirs[0]);
        assert(dirs[0] == start);
    }
}

/// Entries of a sector other than the scratched one all survive the
/// filter: their slot references name their own sector.
proof fn lemma_slot_entries_unrelated(
    sec: Seq<u8>,
    sref: SectorRef,
    target_sec: SectorRef,
    target_slot: int,
    k: int,
)
    requires
        sref != target_sec,
        0 <= k <= 8,
    ensures
        spec_slot_entries(sec, sref, k).filter(
            |ev: crate::commodore1541::file_entry::FileEntryView|
                ev.file_entry_ref != (target_sec, target_slot),
        ) == spec_slot_entries(sec, sref, k),
    decreases k,
{
    let pred = |ev: crate::commodore1541::file_entry::FileEntryView|
        ev.file_entry_ref != (target_sec, target_slot);
    reveal(Seq::filter);
    if k == 0 {
        assert(spec_slot_entries(sec, sref, 0).filter(pred) =~= Seq::empty());
    } else {
        lemma_slot_entries_unrelated(sec, sref, target_sec, target_slot, k - 1);
        let prev = spec_slot_entries(sec, sref, k - 1);
        let tail = if crate::commodore1541::file_entry::spec_slot_live(sec[32 * (k - 1) + 2]) {
            seq![
                crate::commodore1541::file_entry::spec_entry_of_bytes(
                    sec.subrange(32 * (k - 1), 32 * (k - 1) + 32),
                    (sref, k - 1),
                ),
            ]
        } else {
            Seq::empty()
        };
        Seq::filter_distributes_over_add(prev, tail, pred);
        if tail.len() == 1 {
            assert(tail.drop_last() =~= Seq::empty());
            assert(tail.drop_last().filter(pred) =~= Seq::empty());
            assert(tail.last() == tail[0]);
            assert(tail[0].file_entry_ref == (sref, k - 1));
            assert(pred(tail[0]));
            assert(tail.filter(pred) =~= tail);
        } else {
            assert(tail.filter(pred) =~= tail);
        }
    }
}

/// The free bit a freshly formatted disk carries for sector `s` of track
/// `t`: every real sector is free but the header sector and the first
/// directory sector.
pub open spec fn spec_format_bit(t: int, s: int) -> bool {
    0 <= s < spec_track_sectors(t) && !(t == 18 && (s == 0 || s == 1))
}

/// The state `format_disk` leaves a disk in: header magic, availability
/// map, default name and id, a one-sector directory chain, and every other
/// sector zeroed.
pub open spec fn spec_formatted(d: DiskBytes) -> bool {
    let hdr = spec_header(d);
    let dir = spec_sector_at(d, (TRACK_HEADER, 1u8));
    &&& disk_wf(d)
    &&& hdr[0] == 18 && hdr[1] == 1
    &&& hdr[2] == 65
    &&& hdr[3] == 0
    &&& bam_wf(hdr)
    &&& forall|t: int, s: int|
        1 <= t <= 35 && 0 <= s < 24 ==> ((#[trigger] bam_free(hdr, t, s)) <==> spec_format_bit(
            t,
            s,
        ))
    &&& user_free(hdr) == 664
    &&& hdr[144] == 78 && hdr[145] == 79 && hdr[146] == 78 && hdr[147] == 65 && hdr[148] == 77
        && hdr[149] == 69
    &&& forall|i: int| 150 <= i < 162 ==> hdr[i] == 160
    &&& hdr[162] == 48 && hdr[163] == 49 && hdr[164] == 160 && hdr[165] == 50 && hdr[166] == 65
    &&& forall|i: int| 167 <= i < 171 ==> hdr[i] == 160
    &&& forall|i: int| 171 <= i < 256 ==> hdr[i] == 0
    &&& dir[0] == 0 && dir[1] == 255
    &&& forall|k: int| 2 <= k < 256 ==> dir[k] == 0
    &&& forall|r2: SectorRef, k: int|
        #![trigger spec_sector_at(d, r2)[k]]
        spec_valid_ref(r2) && r2 != (TRACK_HEADER, 0u8) && r2 != (TRACK_HEADER, 1u8) && 0 <= k
            < 256 ==> spec_sector_at(d, r2)[k] == 0
}

/// The availability map of a formatted disk counts 664 free user sectors.
pub proof fn lemma_format_user_free(hdr: Seq<u8>)
    requires
        bam_wf(hdr),
        forall|t: int, s: int|
            1 <= t <= 35 && 0 <= s < 24 ==> ((#[trigger] bam_free(hdr, t, s))
                <==> spec_format_bit(t, s)),
    ensures
        user_free(hdr) == 664,
        bam_count(hdr, 18) == 17,
        forall|t: int|
            1 <= t <= 35 && t != 18 ==> (#[trigger] bam_count(hdr, t)) == spec_track_sectors(t),
{
    assert forall|t: int| 1 <= t <= 35 && t != 18 implies (#[trigger] bam_count(hdr, t))
        == spec_track_sectors(t) by {
        assert(bam_track_wf(hdr, t));
        crate::commodore1541::bam::lemma_num_free_window(
            hdr,
            t,
            0,
            spec_track_sectors(t),
            24,
        );
    }
    assert(bam_count(hdr, 18) == 17) by {
        assert(bam_track_wf(hdr, 18));
        crate::commodore1541::bam::lemma_num_free_window(hdr, 18, 2, 19, 24);
    }
    assert(bam_count(hdr, 1) == spec_track_sectors(1));
    assert(bam_count(hdr, 2) == spec_track_sectors(2));
    assert(bam_count(hdr, 3) == spec_track_sectors(3));
    assert(bam_count(hdr, 4) == spec_track_sectors(4));
    assert(bam_count(hdr, 5) == spec_track_sectors(5));
    assert(bam_count(hdr, 6) == spec_track_sectors(6));
    assert(bam_count(hdr, 7) == spec_track_sectors(7));
    assert(bam_count(hdr, 8) == spec_track_sectors(8));
    assert(bam_count(hdr, 9) == spec_track_sectors(9));
    assert(bam_count(hdr, 10) == spec_track_sectors(10));
    assert(bam_count(hdr, 11) == spec_track_sectors(11));
    assert(bam_count(hdr, 12) == spec_track_sectors(12));
    assert(bam_count(hdr, 13) == spec_track_sectors(13));
    assert(bam_count(hdr, 14) == spec_track_sectors(14));
    assert(bam_count(hdr, 15) == spec_track_sectors(15));
    assert(bam_count(hdr, 16) == spec_track_sectors(16));
    assert(bam_count(hdr, 17) == spec_track_sectors(17));
    assert(bam_count(hdr, 18) == 17);
    assert(bam_count(hdr, 19) == spec_track_sectors(19));
    assert(bam_count(hdr, 20) == spec_track_sectors(20));
    assert(bam_count(hdr, 21) == spec_track_sectors(21));
    assert(bam_count(hdr, 22) == spec_track_sectors(22));
    assert(bam_count(hdr, 23) == spec_track_sectors(23));
    assert(bam_count(hdr, 24) == spec_track_sectors(24));
    assert(bam_count(hdr, 25) == spec_track_sectors(25));
    assert(bam_count(hdr, 26) == spec_track_sectors(26));
    assert(bam_count(hdr, 27) == spec_track_sectors(27));
    assert(bam_count(hdr, 28) == spec_track_sectors(28));
    assert(bam_count(hdr, 29) == spec_track_sectors(29));
    assert(bam_count(hdr, 30) == spec_track_sectors(30));
    assert(bam_count(hdr, 31) == spec_track_sectors(31));
    assert(bam_count(hdr, 32) == spec_track_sectors(32));
    assert(bam_count(hdr, 33) == spec_track_sectors(33));
    assert(bam_count(hdr, 34) == spec_track_sectors(34));
    assert(bam_count(hdr, 35) == spec_track_sectors(35));
    assert(sum_free(hdr, 1, 35) == 681) by {
        reveal_with_fuel(sum_free, 36);
    }
}

/// A walk only reads the two pointer bytes of the sectors it visits: when
/// those bytes are unchanged along a chain, the chain is unchanged.
pub proof fn lemma_chain_stable(d1: DiskBytes, d2: DiskBytes, r: SectorRef, fuel: nat)
    requires
        spec_chain(d1, r, fuel) is Some,
        forall|i: int|
            0 <= i < spec_chain(d1, r, fuel)->Some_0.len() ==> spec_sector_at(
                d2,
                #[trigger] spec_chain(d1, r, fuel)->Some_0[i],
            )[0] == spec_sector_at(d1, spec_chain(d1, r, fuel)->Some_0[i])[0] && spec_sector_at(
                d2,
                spec_chain(d1, r, fuel)->Some_0[i],
            )[1] == spec_sector_at(d1, spec_chain(d1, r, fuel)->Some_0[i])[1],
    ensures
        spec_chain(d2, r, fuel) == spec_chain(d1, r, fuel),
    decreases fuel,
{
    if r.0 != 0 && spec_valid_ref(r) && fuel > 0 {
        let refs = spec_chain(d1, r, fuel)->Some_0;
        assert(refs[0] == r);
        let nxt = spec_next_ref(spec_sector_at(d1, r));
        let rest = spec_chain(d1, nxt, (fuel - 1) as nat)->Some_0;
        assert forall|i: int| 0 <= i < rest.len() implies spec_sector_at(
            d2,
            #[trigger] rest[i],
        )[0] == spec_sector_at(d1, rest[i])[0] && spec_sector_at(d2, rest[i])[1]
            == spec_sector_at(d1, rest[i])[1] by {
            assert(refs[i + 1] == rest[i]);
        }
        lemma_chain_stable(d1, d2, nxt, (fuel - 1) as nat);
        assert(spec_next_ref(spec_sector_at(d2, r)) == nxt);
    }
}

impl Disk<Commodore1541> {
    /// Format the disk with the 1541 layout; see
    /// [`Commodore1541::format_disk`].
    pub fn format(&mut self)
        requires
            old(self).wf(),
        ensures
            final(self).wf(),
            spec_formatted(final(self)@),
    {
        Commodore1541::default().format_disk(self);
    }

    /// The disk's name, decoded up to the first padding byte.
    pub fn get_name(&self) -> (r: String)
        requires
            self.wf(),
        ensures
            r@ == crate::petscii::spec_decode_until_sentinel(
                spec_header(self@).subrange(144, 160),
            ),
    {
        Commodore1541::default().get_disk_name(self).to_string()
    }

    /// Set the disk's name, truncated to the sixteen-byte name field; see
    /// [`Commodore1541::set_disk_name`].
    pub fn set_name(&mut self, new_name: &String)
        requires
            old(self).wf(),
        ensures
            final(self).wf(),
            ({
                let enc = crate::petscii::spec_encode_chars(new_name@);
                let k = if enc.len() <= 16 {
                    enc.len() as int
                } else {
                    16int
                };
                forall|i: int|
                    144 <= i < 160 ==> #[trigger] spec_header(final(self)@)[i] == (if i - 144
                        < k {
                        enc[i - 144]
                    } else {
                        160u8
                    })
            }),
            forall|i: int|
                0 <= i < 256 && !(144 <= i < 160) ==> spec_header(final(self)@)[i]
                    == spec_header(old(self)@)[i],
            forall|r2: SectorRef|
                spec_valid_ref(r2) && r2 != (TRACK_HEADER, 0u8) ==> spec_sector_at(
                    final(self)@,
                    r2,
                ) == spec_sector_at(old(self)@, r2),
    {
        Commodore1541::default().set_disk_name(self, new_name)
    }

    /// Every live directory record, in on-disk order; see
    /// [`Commodore1541::list_entries`].
    pub fn list_entries(&self) -> (r: Result<Vec<FileEntry>, DiskError>)
        requires
            self.wf(),
        ensures
            spec_list_entries(self@) matches Some(es) ==> r is Ok && spec_views_of(r->Ok_0@)
                == es,
            spec_list_entries(self@) is None ==> r == Result::<Vec<FileEntry>, DiskError>::Err(
                DiskError::CorruptChain,
            ),
    {
        Commodore1541::default().list_entries(self)
    }
}

/// A freshly formatted disk is ready for file operations: its directory
/// is the single sector the header points at, in good standing, and the
/// listing is empty.
pub proof fn lemma_formatted_ready(d: DiskBytes)
    requires
        spec_formatted(d),
    ensures
        spec_dir_chain(d) == Some(seq![(TRACK_HEADER, 1u8)]),
        spec_dir_ok(d),
        spec_list_entries(d) == Some(
            Seq::<crate::commodore1541::file_entry::FileEntryView>::empty(),
        ),
{
    let hdr = spec_header(d);
    let dir_ref = (TRACK_HEADER, 1u8);
    let dirsec = spec_sector_at(d, dir_ref);
    assert(spec_next_ref(hdr) == dir_ref);
    assert(spec_valid_ref(dir_ref));
    assert(spec_next_ref(dirsec) == (0u8, 255u8));
    assert(spec_chain(d, (0u8, 255u8), (CHAIN_FUEL - 1) as nat) == Some(
        Seq::<SectorRef>::empty(),
    ));
    let dirs = seq![dir_ref];
    assert(spec_dir_chain(d) == Some(seq![dir_ref] + Seq::<SectorRef>::empty()));
    assert(seq![dir_ref] + Seq::<SectorRef>::empty() =~= dirs);
    assert(!bam_free(hdr, 18, 1));
    assert forall|i: int| 0 <= i < dirs.len() implies !bam_free(
        hdr,
        (#[trigger] dirs[i]).0 as int,
        dirs[i].1 as int,
    ) && dirs[i] != (TRACK_HEADER, 0u8) by {
        assert(dirs[i] == dir_ref);
    }
    assert forall|k: int| 1 <= k <= 8 implies #[trigger] spec_slot_entries(dirsec, dir_ref, k)
        == spec_slot_entries(dirsec, dir_ref, k - 1) by {
        assert(dirsec[32 * (k - 1) + 2] == 0);
        assert(!crate::commodore1541::file_entry::spec_slot_live(0));
    }
    assert(spec_slot_entries(dirsec, dir_ref, 8) =~= Seq::<
        crate::commodore1541::file_entry::FileEntryView,
    >::empty()) by {
        assert(spec_slot_entries(dirsec, dir_ref, 0) =~= Seq::<
            crate::commodore1541::file_entry::FileEntryView,
        >::empty());
        assert(spec_slot_entries(dirsec, dir_ref, 8) == spec_slot_entries(dirsec, dir_ref, 7));
        assert(spec_slot_entries(dirsec, dir_ref, 7) == spec_slot_entries(dirsec, dir_ref, 6));
        assert(spec_slot_entries(dirsec, dir_ref, 6) == spec_slot_entries(dirsec, dir_ref, 5));
        assert(spec_slot_entries(dirsec, dir_ref, 5) == spec_slot_entries(dirsec, dir_ref, 4));
        assert(spec_slot_entries(dirsec, dir_ref, 4) == spec_slot_entries(dirsec, dir_ref, 3));
        assert(spec_slot_entries(dirsec, dir_ref, 3) == spec_slot_entries(dirsec, dir_ref, 2));
        assert(spec_slot_entries(dirsec, dir_ref, 2) == spec_slot_entries(dirsec, dir_ref, 1));
    }
    assert(dirs[0] == dir_ref);
    assert(spec_sector_entries(d, dir_ref) == spec_slot_entries(dirsec, dir_ref, 8));
    assert(spec_entries_upto(d, dirs, 0) == Seq::<
        crate::commodore1541::file_entry::FileEntryView,
    >::empty());
    assert(spec_entries_upto(d, dirs, 1) == spec_entries_upto(d, dirs, 0)
        + spec_sector_entries(d, dirs[0]));
    assert(spec_entries_upto(d, dirs, 1) =~= Seq::<
        crate::commodore1541::file_entry::FileEntryView,
    >::empty());
}

/// A valid 1541 reference names a sector of a well-formed disk view.
pub proof fn lemma_valid_ref_on_disk(d: DiskBytes, r: SectorRef)
    requires
        disk_wf(d),
        spec_valid_ref(r),
    ensures
        r.0 as int <= d.len(),
        (r.1 as int) < d[r.0 - 1].len(),
        spec_sector_at(d, r).len() == 256,
{
    assert(d[r.0 - 1].len() == spec_track_sectors(r.0 as int));
    assert(d[r.0 - 1][r.1 as int].len() == 256);
}

/// The header sector exists on every well-formed disk.
pub proof fn lemma_header_valid(d: DiskBytes)
    requires
        disk_wf(d),
    ensures
        spec_valid_ref((TRACK_HEADER, 0u8)),
        spec_header(d) == spec_sector_at(d, (TRACK_HEADER, 0u8)),
        spec_header(d).len() == 256,
{
    lemma_valid_ref_on_disk(d, (TRACK_HEADER, 0u8));
}

/// Replacing one sector's bytes with 256 fresh bytes keeps the geometry,
/// changes that sector alone, and leaves every other sector as it was.
pub proof fn lemma_update_preserves_wf(d: DiskBytes, r: SectorRef, sec: Seq<u8>)
    requires
        disk_wf(d),
        spec_valid_ref(r),
        sec.len() == 256,
    ensures
        disk_wf(disk_update(d, r, sec)),
        spec_sector_at(disk_update(d, r, sec), r) == sec,
        forall|r2: SectorRef|
            spec_valid_ref(r2) && r2 != r ==> spec_sector_at(disk_update(d, r, sec), r2)
                == spec_sector_at(d, r2),
{
    let d2 = disk_update(d, r, sec);
    assert forall|r2: SectorRef| spec_valid_ref(r2) && r2 != r implies spec_sector_at(d2, r2)
        == spec_sector_at(d, r2) by {
        if r2.0 == r.0 {
            assert(r2.1 != r.1);
        }
    }
    assert forall|t: int| 0 <= t < 35 implies #[trigger] d2[t].len() == spec_track_sectors(
        t + 1,
    ) by {}
    assert forall|t: int, s: int| 0 <= t < 35 && 0 <= s < d2[t].len() implies (
    #[trigger] d2[t][s].len()) == 256 by {
        if t == r.0 - 1 && s == r.1 as int {
        }
    }
}

} // verus!
