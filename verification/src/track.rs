//! One physical track: an ordered sequence of sectors, addressed zero-based.
use vstd::prelude::*;

use crate::sector::Sector;
use crate::types::DiskError;
use crate::types::SectorNo;

verus! {

/// The concatenation of the first `i` sectors' bytes.
pub open spec fn concat_bytes_upto(t: Seq<Seq<u8>>, i: int) -> Seq<u8>
    decreases i,
{
    if i <= 0 {
        Seq::empty()
    } else {
        concat_bytes_upto(t, i - 1) + t[i - 1]
    }
}

/// The sequential dump of a whole track: all sectors' bytes in order.
pub open spec fn track_image(t: Seq<Seq<u8>>) -> Seq<u8> {
    concat_bytes_upto(t, t.len() as int)
}

/// Total byte count of the first `i` sectors.
pub open spec fn bytes_upto(t: Seq<Seq<u8>>, i: int) -> int
    decreases i,
{
    if i <= 0 {
        0
    } else {
        bytes_upto(t, i - 1) + t[i - 1].len()
    }
}

pub proof fn lemma_concat_bytes_len(t: Seq<Seq<u8>>, i: int)
    ensures
        concat_bytes_upto(t, i).len() == bytes_upto(t, i),
    decreases i,
{
    if i > 0 {
        lemma_concat_bytes_len(t, i - 1);
    }
}

pub proof fn lemma_bytes_upto_mono(t: Seq<Seq<u8>>, i: int, j: int)
    requires
        i <= j,
    ensures
        bytes_upto(t, i) <= bytes_upto(t, j),
    decreases j - i,
{
    if i < j {
        lemma_bytes_upto_mono(t, i, j - 1);
    }
}

/// Byte totals depend only on the sector sizes, not the contents.
pub proof fn lemma_bytes_upto_same_shape(a: Seq<Seq<u8>>, b: Seq<Seq<u8>>, i: int)
    requires
        forall|s: int| 0 <= s < i ==> a[s].len() == b[s].len(),
    ensures
        bytes_upto(a, i) == bytes_upto(b, i),
    decreases i,
{
    if i > 0 {
        lemma_bytes_upto_same_shape(a, b, i - 1);
    }
}

/// When every sector holds a consecutive slice of `src`, the concatenation
/// of those sectors is the corresponding single slice of `src`.
pub proof fn lemma_concat_from_subranges(tr: Seq<Seq<u8>>, src: Seq<u8>, base: int, i: int)
    requires
        0 <= base,
        0 <= i <= tr.len(),
        base + bytes_upto(tr, i) <= src.len(),
        forall|s: int|
            0 <= s < i ==> tr[s] == src.subrange(
                base + bytes_upto(tr, s),
                base + bytes_upto(tr, s + 1),
            ),
    ensures
        concat_bytes_upto(tr, i) == src.subrange(base, base + bytes_upto(tr, i)),
    decreases i,
{
    lemma_bytes_upto_mono(tr, 0, i);
    if i == 0 {
        assert(concat_bytes_upto(tr, 0) =~= src.subrange(base, base));
    } else {
        lemma_bytes_upto_mono(tr, 0, i - 1);
        lemma_concat_from_subranges(tr, src, base, i - 1);
        assert(concat_bytes_upto(tr, i) =~= src.subrange(base, base + bytes_upto(tr, i)));
    }
}

/// A track of sectors; count and sector size are set by the layout at
/// construction.
pub struct Track {
    sectors: Vec<Sector>,
}

impl View for Track {
    type V = Seq<Seq<u8>>;

    closed spec fn view(&self) -> Seq<Seq<u8>> {
        Seq::new(self.sectors@.len(), |i: int| self.sectors@[i]@)
    }
}

impl Default for Track {
    fn default() -> (t: Track)
        ensures
            t@ == Seq::<Seq<u8>>::empty(),
    {
        let t = Track { sectors: Vec::new() };
        proof {
            assert(t@ =~= Seq::<Seq<u8>>::empty());
        }
        t
    }
}

impl Track {
    /// Resize to `num_sectors` sectors of `bytes_per_sector` zeroed bytes.
    pub fn initialize(&mut self, num_sectors: u8, bytes_per_sector: u16)
        ensures
            final(self)@.len() == num_sectors,
            forall|s: int| 0 <= s < num_sectors ==> final(self)@[s].len() == bytes_per_sector,
            forall|s: int, i: int|
                0 <= s < num_sectors && 0 <= i < bytes_per_sector ==> final(self)@[s][i] == 0u8,
    {
        let n = num_sectors as usize;
        let mut sectors: Vec<Sector> = Vec::new();
        for _sector_no in 0..n
            invariant
                sectors@.len() <= n,
                sectors@.len() == _sector_no,
                forall|s: int| 0 <= s < sectors@.len() ==> sectors@[s]@.len() == bytes_per_sector,
                forall|s: int, i: int|
                    0 <= s < sectors@.len() && 0 <= i < bytes_per_sector ==> sectors@[s]@[i]
                        == 0u8,
        {
            let mut sector = Sector::default();
            sector.initialize(bytes_per_sector as usize);
            sectors.push(sector);
        }
        self.sectors = sectors;
    }

    /// Fill every sector in order from `source`, starting at `pos`; fails
    /// when the source runs out, leaving the sector sizes intact but the
    /// contents partially overwritten.
    #[verifier::rlimit(50)]
    pub fn read_from_reader(&mut self, source: &[u8], pos: usize) -> (r: Result<
        usize,
        DiskError,
    >)
        requires
            pos <= source@.len(),
        ensures
            final(self)@.len() == old(self)@.len(),
            forall|s: int|
                0 <= s < old(self)@.len() ==> final(self)@[s].len() == old(self)@[s].len(),
            r is Ok <==> pos + bytes_upto(old(self)@, old(self)@.len() as int) <= source@.len(),
            r is Ok ==> r->Ok_0 == pos + bytes_upto(old(self)@, old(self)@.len() as int),
            r is Ok ==> forall|s: int|
                0 <= s < old(self)@.len() ==> final(self)@[s] == source@.subrange(
                    pos + bytes_upto(old(self)@, s),
                    pos + bytes_upto(old(self)@, s + 1),
                ),
            r is Ok ==> track_image(final(self)@) == source@.subrange(
                pos as int,
                pos + bytes_upto(old(self)@, old(self)@.len() as int),
            ),
            r is Err ==> r->Err_0 == DiskError::IncompleteImage,
    {
        let n = self.sectors.len();
        let mut cur = pos;
        for i in 0..n
            invariant
                n == old(self)@.len(),
                self@.len() == n,
                cur == pos + bytes_upto(old(self)@, i as int),
                cur <= source@.len(),
                forall|s: int| 0 <= s < n ==> self@[s].len() == old(self)@[s].len(),
                forall|s: int|
                    0 <= s < i ==> self@[s] == source@.subrange(
                        pos + bytes_upto(old(self)@, s),
                        pos + bytes_upto(old(self)@, s + 1),
                    ),
                forall|s: int| i <= s < n ==> self@[s] == old(self)@[s],
        {
            let res = self.sectors[i].read_from_reader(source, cur);
            match res {
                Ok(next) => {
                    cur = next;
                },
                Err(e) => {
                    proof {
                        lemma_bytes_upto_mono(old(self)@, i + 1, n as int);
                    }
                    return Err(e);
                },
            }
        }
        proof {
            assert forall|s: int| 0 <= s <= n implies bytes_upto(self@, s) == bytes_upto(
                old(self)@,
                s,
            ) by {
                lemma_bytes_upto_same_shape(self@, old(self)@, s);
            }
            lemma_concat_from_subranges(self@, source@, pos as int, n as int);
        }
        Ok(cur)
    }

    /// Append the whole track's bytes, sector after sector, to `sink`.
    pub fn write_to_writer(&self, sink: &mut Vec<u8>)
        ensures
            final(sink)@ == old(sink)@ + track_image(self@),
    {
        let n = self.sectors.len();
        for i in 0..n
            invariant
                n == self@.len(),
                sink@ == old(sink)@ + concat_bytes_upto(self@, i as int),
        {
            self.sectors[i].write_to_writer(sink);
        }
    }

    pub fn get_sector(&self, sector_no: SectorNo) -> (s: &Sector)
        requires
            sector_no < self@.len(),
        ensures
            s@ == self@[sector_no as int],
    {
        &self.sectors[sector_no as usize]
    }

    pub fn get_sector_mut(&mut self, sector_no: SectorNo) -> (s: &mut Sector)
        requires
            sector_no < old(self)@.len(),
        ensures
            s@ == old(self)@[sector_no as int],
            final(self)@ == old(self)@.update(sector_no as int, final(s)@),
    {
        &mut self.sectors[sector_no as usize]
    }

    pub fn num_sectors(&self) -> (n: usize)
        ensures
            n == self@.len(),
    {
        self.sectors.len()
    }
}

} // verus!
