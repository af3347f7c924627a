//! The in-memory image of one disk: all tracks and sectors of the geometry
//! a [`Layout`] describes. Sector sizes and counts are fixed at
//! construction; every later operation only changes sector contents.
use core::marker::PhantomData;

use vstd::prelude::*;

use crate::layout::Layout;
use crate::sector::Sector;
use crate::track::Track;
use crate::track::bytes_upto;
use crate::track::lemma_bytes_upto_same_shape;
use crate::track::track_image;
use crate::types::DiskError;
use crate::types::SectorRef;
use crate::types::TrackNo;

verus! {

/// The concatenation of the first `i` tracks' byte dumps.
pub open spec fn disk_image_upto(d: Seq<Seq<Seq<u8>>>, i: int) -> Seq<u8>
    decreases i,
{
    if i <= 0 {
        Seq::empty()
    } else {
        disk_image_upto(d, i - 1) + track_image(d[i - 1])
    }
}

/// The sequential dump of the whole disk: all tracks in ascending order,
/// all sectors in ascending order within each track, no padding anywhere.
pub open spec fn disk_image(d: Seq<Seq<Seq<u8>>>) -> Seq<u8> {
    disk_image_upto(d, d.len() as int)
}

/// Total byte count of the first `i` tracks.
pub open spec fn disk_bytes_upto(d: Seq<Seq<Seq<u8>>>, i: int) -> int
    decreases i,
{
    if i <= 0 {
        0
    } else {
        disk_bytes_upto(d, i - 1) + bytes_upto(d[i - 1], d[i - 1].len() as int)
    }
}

/// Size of the whole disk image in bytes.
pub open spec fn disk_total_bytes(d: Seq<Seq<Seq<u8>>>) -> int {
    disk_bytes_upto(d, d.len() as int)
}

pub proof fn lemma_disk_bytes_upto_mono(d: Seq<Seq<Seq<u8>>>, i: int, j: int)
    requires
        i <= j,
    ensures
        disk_bytes_upto(d, i) <= disk_bytes_upto(d, j),
    decreases j - i,
{
    if i < j {
        lemma_disk_bytes_upto_mono(d, i, j - 1);
        crate::track::lemma_bytes_upto_mono(d[j - 1], 0, d[j - 1].len() as int);
    }
}

/// Image sizes depend only on the geometry, not on any sector's contents.
pub proof fn lemma_disk_bytes_same_shape(a: Seq<Seq<Seq<u8>>>, b: Seq<Seq<Seq<u8>>>, i: int)
    requires
        forall|t: int| 0 <= t < i ==> a[t].len() == b[t].len(),
        forall|t: int, s: int|
            0 <= t < i && 0 <= s < a[t].len() ==> a[t][s].len() == b[t][s].len(),
    ensures
        disk_bytes_upto(a, i) == disk_bytes_upto(b, i),
    decreases i,
{
    if i > 0 {
        lemma_disk_bytes_same_shape(a, b, i - 1);
        lemma_bytes_upto_same_shape(a[i - 1], b[i - 1], a[i - 1].len() as int);
    }
}

/// When every track's dump is a consecutive slice of `src`, the whole image
/// is the corresponding single slice of `src`.
proof fn lemma_disk_image_from_subranges(d: Seq<Seq<Seq<u8>>>, src: Seq<u8>, i: int)
    requires
        0 <= i <= d.len(),
        disk_bytes_upto(d, i) <= src.len(),
        forall|t: int|
            0 <= t < i ==> track_image(d[t]) == src.subrange(
                disk_bytes_upto(d, t),
                disk_bytes_upto(d, t + 1),
            ),
    ensures
        disk_image_upto(d, i) == src.subrange(0, disk_bytes_upto(d, i)),
    decreases i,
{
    lemma_disk_bytes_upto_mono(d, 0, i);
    if i == 0 {
        assert(disk_image_upto(d, 0) =~= src.subrange(0, 0));
    } else {
        lemma_disk_bytes_upto_mono(d, 0, i - 1);
        lemma_disk_bytes_upto_mono(d, i - 1, i);
        lemma_disk_image_from_subranges(d, src, i - 1);
        crate::track::lemma_concat_bytes_len(d[i - 1], d[i - 1].len() as int);
        assert(disk_image_upto(d, i) =~= src.subrange(0, disk_bytes_upto(d, i)));
    }
}

pub proof fn lemma_disk_image_len(d: Seq<Seq<Seq<u8>>>, i: int)
    ensures
        disk_image_upto(d, i).len() == disk_bytes_upto(d, i),
    decreases i,
{
    if i > 0 {
        lemma_disk_image_len(d, i - 1);
        crate::track::lemma_concat_bytes_len(d[i - 1], d[i - 1].len() as int);
    }
}

/// Persisting a disk and loading the stream into a fresh disk of the same
/// geometry consumes exactly the whole stream and reproduces the image
/// byte for byte.
pub proof fn lemma_persist_load_round_trip(
    d1: Seq<Seq<Seq<u8>>>,
    d2: Seq<Seq<Seq<u8>>>,
    stream: Seq<u8>,
)
    requires
        d2.len() == d1.len(),
        forall|t: int| 0 <= t < d1.len() ==> #[trigger] d2[t].len() == d1[t].len(),
        forall|t: int, s: int|
            0 <= t < d1.len() && 0 <= s < d1[t].len() ==> (#[trigger] d2[t][s].len())
                == d1[t][s].len(),
        stream == disk_image(d1),
        disk_image(d2) == stream.subrange(0, disk_total_bytes(d2)),
    ensures
        disk_total_bytes(d2) == stream.len(),
        disk_image(d2) == disk_image(d1),
{
    lemma_disk_bytes_same_shape(d2, d1, d2.len() as int);
    lemma_disk_image_len(d1, d1.len() as int);
    assert(stream.subrange(0, stream.len() as int) =~= stream);
}

/// One disk image: the tracks of the device geometry in use, owned whole.
#[verifier::reject_recursive_types(L)]
pub struct Disk<L> where L: Layout {
    layout: PhantomData<L>,
    tracks: Vec<Track>,
}

impl<L: Layout> View for Disk<L> {
    type V = Seq<Seq<Seq<u8>>>;

    closed spec fn view(&self) -> Seq<Seq<Seq<u8>>> {
        Seq::new(self.tracks@.len(), |t: int| self.tracks@[t]@)
    }
}

impl<L> Disk<L> where L: Layout + Default {
    /// The disk has exactly the geometry its layout describes.
    pub open spec fn wf(&self) -> bool {
        &&& self@.len() == L::spec_num_tracks()
    &&& forall|t: int|
        0 <= t < self@.len() ==> #[trigger] self@[t].len() == L::spec_num_sectors(
            (t + 1) as u8,
        )
    &&& forall|t: int, s: int|
        0 <= t < self@.len() && 0 <= s < self@[t].len() ==> (#[trigger] self@[t][s].len())
            == L::spec_bytes_per_sector()
    }

    /// The reference names a track and sector that exist on this disk.
    pub open spec fn valid_ref(&self, sector_ref: SectorRef) -> bool {
        &&& 1 <= sector_ref.0
        &&& sector_ref.0 as int <= self@.len()
        &&& (sector_ref.1 as int) < self@[sector_ref.0 - 1].len()
    }

    /// The sector the reference names.
    pub open spec fn spec_sector(&self, sector_ref: SectorRef) -> Seq<u8> {
        self@[sector_ref.0 - 1][sector_ref.1 as int]
    }

    /// Create a new disk: geometry initialized, every byte zero. The disk
    /// is not formatted yet; see the layout's formatting operation.
    pub fn new() -> (d: Disk<L>)
        ensures
            d.wf(),
            forall|t: int, s: int, i: int|
                0 <= t < d@.len() && 0 <= s < d@[t].len() && 0 <= i < d@[t][s].len()
                    ==> #[trigger] d@[t][s][i] == 0u8,
    {
        let mut disk = Disk::<L> { layout: PhantomData, tracks: Vec::new() };
        disk.initialize_layout();
        disk
    }

    fn initialize_layout(&mut self)
        ensures
            final(self).wf(),
            forall|t: int, s: int, i: int|
                0 <= t < final(self)@.len() && 0 <= s < final(self)@[t].len() && 0 <= i
                    < final(self)@[t][s].len() ==> #[trigger] final(self)@[t][s][i] == 0u8,
    {
        let layout = L::default();
        let num_tracks = layout.num_tracks() as usize;
        let bytes_per_sector = layout.bytes_per_sector();
        let mut tracks: Vec<Track> = Vec::new();
        for i in 0..num_tracks
            invariant
                num_tracks == L::spec_num_tracks(),
                bytes_per_sector == L::spec_bytes_per_sector(),
                tracks@.len() == i,
                forall|t: int|
                    0 <= t < i ==> #[trigger] tracks@[t]@.len() == L::spec_num_sectors(
                        (t + 1) as u8,
                    ),
                forall|t: int, s: int|
                    0 <= t < i && 0 <= s < tracks@[t]@.len() ==> (#[trigger] tracks@[t]@[s].len())
                        == L::spec_bytes_per_sector(),
                forall|t: int, s: int, k: int|
                    0 <= t < i && 0 <= s < tracks@[t]@.len() && 0 <= k < tracks@[t]@[s].len()
                        ==> (#[trigger] tracks@[t]@[s][k]) == 0u8,
        {
            let mut track = Track::default();
            let num_sectors = layout.num_sectors((i + 1) as u8);
            track.initialize(num_sectors, bytes_per_sector);
            tracks.push(track);
        }
        self.tracks = tracks;
    }

    /// Load a whole disk image from a byte source. Fails with an
    /// incomplete-image error when the source holds fewer bytes than the
    /// geometry requires; the disk is then partially overwritten and should
    /// be discarded by the caller.
    #[verifier::rlimit(50)]
    pub fn read_from_reader(&mut self, source: &[u8]) -> (r: Result<(), DiskError>)
        ensures
            final(self)@.len() == old(self)@.len(),
            forall|t: int|
                0 <= t < old(self)@.len() ==> final(self)@[t].len() == old(self)@[t].len(),
            forall|t: int, s: int|
                0 <= t < old(self)@.len() && 0 <= s < old(self)@[t].len()
                    ==> final(self)@[t][s].len() == old(self)@[t][s].len(),
            r is Ok <==> disk_total_bytes(old(self)@) <= source@.len(),
            r is Ok ==> disk_image(final(self)@) == source@.subrange(
                0,
                disk_total_bytes(old(self)@),
            ),
            r is Err ==> r->Err_0 == DiskError::IncompleteImage,
    {
        let n = self.tracks.len();
        let mut cur: usize = 0;
        for i in 0..n
            invariant
                n == old(self)@.len(),
                self@.len() == n,
                cur == disk_bytes_upto(old(self)@, i as int),
                cur <= source@.len(),
                forall|t: int| 0 <= t < n ==> self@[t].len() == old(self)@[t].len(),
                forall|t: int, s: int|
                    0 <= t < n && 0 <= s < old(self)@[t].len() ==> self@[t][s].len() == old(
                        self,
                    )@[t][s].len(),
                forall|t: int|
                    0 <= t < i ==> track_image(self@[t]) == source@.subrange(
                        disk_bytes_upto(old(self)@, t),
                        disk_bytes_upto(old(self)@, t + 1),
                    ),
                forall|t: int| i <= t < n ==> self@[t] == old(self)@[t],
        {
            let ghost pre = self@;
            let track = &mut self.tracks[i];
            let res = track.read_from_reader(source, cur);
            proof {
                lemma_bytes_upto_same_shape(pre[i as int], old(self)@[i as int], old(
                    self,
                )@[i as int].len() as int);
            }
            match res {
                Ok(next) => {
                    cur = next;
                },
                Err(e) => {
                    proof {
                        lemma_disk_bytes_upto_mono(old(self)@, i + 1, n as int);
                    }
                    return Err(e);
                },
            }
        }
        proof {
            assert forall|t: int| 0 <= t <= n implies disk_bytes_upto(self@, t)
                == disk_bytes_upto(old(self)@, t) by {
                lemma_disk_bytes_same_shape(self@, old(self)@, t);
            }
            lemma_disk_image_from_subranges(self@, source@, n as int);
        }
        Ok(())
    }

    /// Append the whole disk image to `sink`: every track in order, every
    /// sector in order, each sector's bytes verbatim.
    pub fn write_to_writer(&self, sink: &mut Vec<u8>)
        ensures
            final(sink)@ == old(sink)@ + disk_image(self@),
    {
        let n = self.tracks.len();
        for i in 0..n
            invariant
                n == self@.len(),
                sink@ == old(sink)@ + disk_image_upto(self@, i as int),
        {
            self.tracks[i].write_to_writer(sink);
        }
    }

    /// Borrow the sector the reference names.
    pub fn get_sector(&self, sector_ref: SectorRef) -> (s: &Sector)
        requires
            self.valid_ref(sector_ref),
        ensures
            s@ == self.spec_sector(sector_ref),
    {
        self.get_track(sector_ref.0).get_sector(sector_ref.1)
    }

    fn get_track(&self, track_no: TrackNo) -> (t: &Track)
        requires
            1 <= track_no,
            track_no as int <= self@.len(),
        ensures
            t@ == self@[track_no - 1],
    {
        &self.tracks[(track_no - 1) as usize]
    }

    /// Borrow the sector the reference names, for modification.
    pub fn get_sector_mut(&mut self, sector_ref: SectorRef) -> (s: &mut Sector)
        requires
            old(self).valid_ref(sector_ref),
        ensures
            s@ == old(self).spec_sector(sector_ref),
            final(self)@ == old(self)@.update(
                sector_ref.0 - 1,
                old(self)@[sector_ref.0 - 1].update(sector_ref.1 as int, final(s)@),
            ),
    {
        self.get_track_mut(sector_ref.0).get_sector_mut(sector_ref.1)
    }

    fn get_track_mut(&mut self, track_no: TrackNo) -> (t: &mut Track)
        requires
            1 <= track_no,
            track_no as int <= old(self)@.len(),
        ensures
            t@ == old(self)@[track_no - 1],
            final(self)@ == old(self)@.update(track_no - 1, final(t)@),
    {
        &mut self.tracks[(track_no - 1) as usize]
    }
}

} // verus!
