//! The block availability map (BAM): one bit of free/used state per sector
//! plus one free-sector counter per track, embedded inside the header
//! sector. Bit set means free. The counter byte of a track always equals
//! the number of set bits in its bit group; it is adjusted exactly once per
//! state transition and never recomputed by scanning.
use vstd::prelude::*;

use crate::commodore1541::spec_track_sectors;
use crate::commodore1541::spec_user_ref;
use crate::sector::Sector;
use crate::types::SectorRef;
use crate::types::TrackNo;

verus! {

/// Offset of a track's free-sector counter byte inside the header sector.
pub open spec fn bam_count_offset(t: int) -> int {
    4 * t
}

/// Offset of the bitmap byte holding sector `s` of track `t`.
pub open spec fn bam_bit_offset(t: int, s: int) -> int {
    4 * t + s / 8 + 1
}

/// Bit mask of sector `s` within its bitmap byte.
pub open spec fn bam_mask(s: int) -> u8 {
    1u8 << ((s % 8) as u8)
}

/// Whether the BAM records sector `s` of track `t` as free.
pub open spec fn bam_free(hdr: Seq<u8>, t: int, s: int) -> bool {
    hdr[bam_bit_offset(t, s)] & bam_mask(s) != 0
}

/// The stored free-sector counter of track `t`.
pub open spec fn bam_count(hdr: Seq<u8>, t: int) -> u8 {
    hdr[bam_count_offset(t)]
}

/// Number of free bits among the first `n` sector positions of track `t`.
pub open spec fn num_free_upto(hdr: Seq<u8>, t: int, n: int) -> int
    decreases n,
{
    if n <= 0 {
        0
    } else {
        num_free_upto(hdr, t, n - 1) + if bam_free(hdr, t, n - 1) {
            1int
        } else {
            0int
        }
    }
}

/// The BAM invariant for one track: the counter byte equals the number of
/// free bits, and positions past the track's real sector count are not free.
pub open spec fn bam_track_wf(hdr: Seq<u8>, t: int) -> bool {
    &&& bam_count(hdr, t) == num_free_upto(hdr, t, 24)
    &&& forall|s: int| spec_track_sectors(t) <= s < 24 ==> !bam_free(hdr, t, s)
}

/// The BAM invariant for the whole header sector.
pub open spec fn bam_wf(hdr: Seq<u8>) -> bool {
    &&& hdr.len() == 256
    &&& forall|t: int| 1 <= t <= 35 ==> bam_track_wf(hdr, t)
}

/// Sum of the stored free counters of tracks `lo..=hi`.
pub open spec fn sum_free(hdr: Seq<u8>, lo: int, hi: int) -> int
    decreases hi + 1 - lo,
{
    if hi < lo {
        0
    } else {
        sum_free(hdr, lo, hi - 1) + bam_count(hdr, hi)
    }
}

/// The user-visible free-sector count: all tracks' counters, minus the
/// header track's, whose sectors are reserved for the system.
pub open spec fn user_free(hdr: Seq<u8>) -> int {
    sum_free(hdr, 1, 35) - bam_count(hdr, 18)
}

pub proof fn lemma_num_free_upto_bounds(hdr: Seq<u8>, t: int, n: int)
    ensures
        0 <= num_free_upto(hdr, t, n),
        num_free_upto(hdr, t, n) <= (if n >= 0 { n } else { 0 }),
    decreases n,
{
    if n > 0 {
        lemma_num_free_upto_bounds(hdr, t, n - 1);
    }
}

/// A free bit below `n` makes the count positive.
pub proof fn lemma_num_free_upto_positive(hdr: Seq<u8>, t: int, s: int, n: int)
    requires
        0 <= s < n,
        bam_free(hdr, t, s),
    ensures
        num_free_upto(hdr, t, n) >= 1,
    decreases n,
{
    lemma_num_free_upto_bounds(hdr, t, n - 1);
    if s < n - 1 {
        lemma_num_free_upto_positive(hdr, t, s, n - 1);
    }
}

/// Equal bits below `n` give equal counts.
pub proof fn lemma_num_free_upto_agree(h1: Seq<u8>, h2: Seq<u8>, t: int, n: int)
    requires
        forall|s: int| 0 <= s < n ==> bam_free(h1, t, s) == bam_free(h2, t, s),
    ensures
        num_free_upto(h1, t, n) == num_free_upto(h2, t, n),
    decreases n,
{
    if n > 0 {
        lemma_num_free_upto_agree(h1, h2, t, n - 1);
    }
}

/// When the bits differ only at position `s`, the counts differ only by
/// that position's contribution.
pub proof fn lemma_num_free_upto_update(h1: Seq<u8>, h2: Seq<u8>, t: int, s: int, n: int)
    requires
        forall|s2: int| 0 <= s2 < n && s2 != s ==> bam_free(h1, t, s2) == bam_free(h2, t, s2),
    ensures
        num_free_upto(h2, t, n) - num_free_upto(h1, t, n) == if 0 <= s < n {
            (if bam_free(h2, t, s) {
                1int
            } else {
                0int
            }) - (if bam_free(h1, t, s) {
                1int
            } else {
                0int
            })
        } else {
            0int
        },
    decreases n,
{
    if n > 0 {
        lemma_num_free_upto_update(h1, h2, t, s, n - 1);
    }
}

/// Equal counters over the range give equal sums.
pub proof fn lemma_sum_free_agree(h1: Seq<u8>, h2: Seq<u8>, lo: int, hi: int)
    requires
        forall|t: int| lo <= t <= hi ==> bam_count(h1, t) == bam_count(h2, t),
    ensures
        sum_free(h1, lo, hi) == sum_free(h2, lo, hi),
    decreases hi + 1 - lo,
{
    if hi >= lo {
        lemma_sum_free_agree(h1, h2, lo, hi - 1);
    }
}

/// When the counters differ only at track `t`, the sums differ only by
/// that track's contribution.
pub proof fn lemma_sum_free_update(h1: Seq<u8>, h2: Seq<u8>, lo: int, hi: int, t: int)
    requires
        forall|t2: int| lo <= t2 <= hi && t2 != t ==> bam_count(h1, t2) == bam_count(h2, t2),
    ensures
        sum_free(h2, lo, hi) - sum_free(h1, lo, hi) == if lo <= t <= hi {
            bam_count(h2, t) - bam_count(h1, t)
        } else {
            0int
        },
    decreases hi + 1 - lo,
{
    if hi >= lo {
        lemma_sum_free_update(h1, h2, lo, hi - 1, t);
    }
}

/// Summing from the low end: the range's sum is the first counter plus the
/// rest.
pub proof fn lemma_sum_free_peel_lo(hdr: Seq<u8>, lo: int, hi: int)
    requires
        lo <= hi,
    ensures
        sum_free(hdr, lo, hi) == bam_count(hdr, lo) + sum_free(hdr, lo + 1, hi),
    decreases hi - lo,
{
    if lo < hi {
        lemma_sum_free_peel_lo(hdr, lo, hi - 1);
        assert(sum_free(hdr, lo + 1, hi) == sum_free(hdr, lo + 1, hi - 1) + bam_count(hdr, hi));
    } else {
        assert(sum_free(hdr, lo, hi - 1) == 0);
        assert(sum_free(hdr, lo + 1, hi) == 0);
    }
}

pub proof fn lemma_sum_free_bounds(hdr: Seq<u8>, lo: int, hi: int)
    ensures
        0 <= sum_free(hdr, lo, hi),
        sum_free(hdr, lo, hi) <= (if hi >= lo { 255 * (hi - lo + 1) } else { 0 }),
    decreases hi + 1 - lo,
{
    if hi >= lo {
        lemma_sum_free_bounds(hdr, lo, hi - 1);
    }
}

/// Each counter in the range is at most the whole sum.
pub proof fn lemma_sum_free_lower(hdr: Seq<u8>, lo: int, hi: int, t: int)
    requires
        lo <= t <= hi,
    ensures
        sum_free(hdr, lo, hi) >= bam_count(hdr, t),
    decreases hi - lo,
{
    lemma_sum_free_bounds(hdr, lo, hi - 1);
    if t < hi {
        lemma_sum_free_lower(hdr, lo, hi - 1, t);
    }
}

/// Free user sectors at or after scan position (t, s): ascending tracks,
/// ascending sectors within a track, the header track skipped — the order
/// in which allocation scans.
pub open spec fn user_free_from(hdr: Seq<u8>, t: int, s: int) -> int
    decreases 36 - t, 24 - s,
{
    if t > 35 || t < 1 {
        0
    } else if t == 18 {
        user_free_from(hdr, t + 1, 0)
    } else if s >= 24 {
        user_free_from(hdr, t + 1, 0)
    } else {
        user_free_from(hdr, t, s + 1) + if bam_free(hdr, t, s) {
            1int
        } else {
            0int
        }
    }
}

pub proof fn lemma_user_free_from_nonneg(hdr: Seq<u8>, t: int, s: int)
    requires
        0 <= s,
    ensures
        user_free_from(hdr, t, s) >= 0,
    decreases 36 - t, 24 - s,
{
    if 1 <= t <= 35 {
        if t == 18 || s >= 24 {
            lemma_user_free_from_nonneg(hdr, t + 1, 0);
        } else {
            lemma_user_free_from_nonneg(hdr, t, s + 1);
        }
    }
}

/// Within one track the scan position splits the track's free bits.
pub proof fn lemma_user_free_from_track(hdr: Seq<u8>, t: int, s: int)
    requires
        1 <= t <= 35,
        0 <= s <= 24,
    ensures
        user_free_from(hdr, t, s) == (if t == 18 {
            0int
        } else {
            num_free_upto(hdr, t, 24) - num_free_upto(hdr, t, s)
        }) + user_free_from(hdr, t + 1, 0),
    decreases 24 - s,
{
    if t == 18 {
    } else if s == 24 {
    } else {
        lemma_user_free_from_track(hdr, t, s + 1);
    }
}

/// From a track boundary to the end of the disk, the remaining free user
/// sectors are the remaining tracks' counters, the header track excluded.
pub proof fn lemma_user_free_total(hdr: Seq<u8>, t: int)
    requires
        bam_wf(hdr),
        1 <= t <= 36,
    ensures
        user_free_from(hdr, t, 0) == sum_free(hdr, t, 35) - (if t <= 18 {
            bam_count(hdr, 18) as int
        } else {
            0int
        }),
    decreases 36 - t,
{
    if t == 36 {
    } else {
        lemma_user_free_total(hdr, t + 1);
        lemma_user_free_from_track(hdr, t, 0);
        lemma_sum_free_peel_lo(hdr, t, 35);
        assert(bam_track_wf(hdr, t));
        lemma_num_free_upto_bounds(hdr, t, 0);
    }
}

/// Position of a sector in the allocation scan; distinct in-range
/// references get distinct keys.
pub open spec fn scan_key(r: SectorRef) -> int {
    (r.0 as int) * 24 + (r.1 as int)
}

/// Within the 24-sector bit groups, the scan position names the sector.
pub proof fn lemma_scan_key_injective(a: SectorRef, b: SectorRef)
    requires
        a.1 < 24,
        b.1 < 24,
        scan_key(a) == scan_key(b),
    ensures
        a == b,
{
}

/// What a successful allocation did: `v` lists `n` previously free user
/// sectors in scan order, now marked used; every other bit, the header
/// track's counter, and every byte outside the BAM region are untouched,
/// and the total of the counters dropped by exactly `n`.
pub open spec fn allocate_post(pre: Seq<u8>, post: Seq<u8>, v: Seq<SectorRef>, n: int) -> bool {
    &&& v.len() == n
    &&& forall|i: int|
        0 <= i < v.len() ==> crate::commodore1541::spec_user_ref(#[trigger] v[i])
    &&& forall|i: int, j: int| 0 <= i < j < v.len() ==> scan_key(v[i]) < scan_key(v[j])
    &&& forall|i: int|
        0 <= i < v.len() ==> bam_free(pre, (#[trigger] v[i]).0 as int, v[i].1 as int)
    &&& forall|i: int|
        0 <= i < v.len() ==> !bam_free(post, (#[trigger] v[i]).0 as int, v[i].1 as int)
    &&& forall|r2: SectorRef|
        1 <= r2.0 <= 35 && r2.1 < 24 && !v.contains(r2) ==> bam_free(post, r2.0 as int, r2.1 as int)
            == bam_free(pre, r2.0 as int, r2.1 as int)
    &&& bam_count(post, 18) == bam_count(pre, 18)
    &&& sum_free(post, 1, 35) == sum_free(pre, 1, 35) - n
    &&& user_free(post) == user_free(pre) - n
    &&& forall|i: int| 0 <= i < 256 && !(4 <= i < 144) ==> post[i] == pre[i]
    &&& v.len() > 0 ==> (forall|r2: SectorRef|
        crate::commodore1541::spec_user_ref(r2) && bam_free(pre, r2.0 as int, r2.1 as int)
            && !v.contains(r2) ==> scan_key(r2) > scan_key(v[v.len() - 1]))
}

/// When exactly the window `lo..hi` of a track's bits is free, the free
/// count below `n` is the part of that window below `n`.
pub proof fn lemma_num_free_window(hdr: Seq<u8>, t: int, lo: int, hi: int, n: int)
    requires
        0 <= lo <= hi,
        forall|s: int| 0 <= s < n ==> (bam_free(hdr, t, s) <==> lo <= s < hi),
    ensures
        num_free_upto(hdr, t, n) == if n <= lo {
            0int
        } else if n <= hi {
            n - lo
        } else {
            hi - lo
        },
    decreases n,
{
    if n > 0 {
        lemma_num_free_window(hdr, t, lo, hi, n - 1);
    }
}

/// Positions that are all used contribute nothing to the count.
pub proof fn lemma_num_free_upto_tail(hdr: Seq<u8>, t: int, m: int, n: int)
    requires
        m <= n,
        forall|s: int| m <= s < n ==> !bam_free(hdr, t, s),
    ensures
        num_free_upto(hdr, t, n) == num_free_upto(hdr, t, m),
    decreases n - m,
{
    if m < n {
        lemma_num_free_upto_tail(hdr, t, m, n - 1);
    }
}

/// A well-formed track's counter never exceeds its real sector count.
pub proof fn lemma_count_le_track(hdr: Seq<u8>, t: int)
    requires
        bam_track_wf(hdr, t),
        1 <= t <= 35,
    ensures
        bam_count(hdr, t) <= spec_track_sectors(t),
{
    lemma_num_free_upto_tail(hdr, t, spec_track_sectors(t), 24);
    lemma_num_free_upto_bounds(hdr, t, spec_track_sectors(t));
}

/// Real sectors on tracks `1..=hi`.
pub open spec fn spec_sectors_upto(hi: int) -> int
    decreases hi,
{
    if hi < 1 {
        0
    } else {
        spec_sectors_upto(hi - 1) + spec_track_sectors(hi)
    }
}

proof fn lemma_sum_free_le_sectors(hdr: Seq<u8>, hi: int)
    requires
        bam_wf(hdr),
        0 <= hi <= 35,
    ensures
        sum_free(hdr, 1, hi) <= spec_sectors_upto(hi),
    decreases hi,
{
    if hi >= 1 {
        lemma_sum_free_le_sectors(hdr, hi - 1);
        assert(bam_track_wf(hdr, hi));
        lemma_count_le_track(hdr, hi);
    }
}

/// A well-formed map never reports more free user sectors than the disk
/// has sectors at all.
pub proof fn lemma_user_free_le(hdr: Seq<u8>)
    requires
        bam_wf(hdr),
    ensures
        user_free(hdr) <= 683,
{
    lemma_sum_free_le_sectors(hdr, 35);
    assert(spec_sectors_upto(35) == 683) by {
        reveal_with_fuel(spec_sectors_upto, 36);
    }
}

/// An all-zero byte region carries no free bits and zero counters.
pub proof fn lemma_bam_all_zero(hdr: Seq<u8>)
    requires
        hdr.len() == 256,
        forall|i: int| 0 <= i < 256 ==> hdr[i] == 0u8,
    ensures
        bam_wf(hdr),
        forall|t: int, s: int| 1 <= t <= 35 && 0 <= s < 24 ==> !bam_free(hdr, t, s),
        forall|t: int| 1 <= t <= 35 ==> bam_count(hdr, t) == 0,
{
    assert(forall|m: u8| 0u8 & m == 0) by (bit_vector);
    assert forall|t: int, s: int| 1 <= t <= 35 && 0 <= s < 24 implies !bam_free(hdr, t, s) by {
        lemma_bam_offsets(t, s, t, s);
    }
    assert forall|t: int| 1 <= t <= 35 implies bam_track_wf(hdr, t) by {
        lemma_num_free_window(hdr, t, 0, 0, 24);
    }
}

/// Distinct (track, sector) pairs within the BAM's range never share both
/// the byte offset and the bit mask, and bitmap bytes never collide with
/// counter bytes.
pub proof fn lemma_bam_offsets(t: int, s: int, t2: int, s2: int)
    requires
        1 <= t <= 35,
        0 <= s < 24,
        1 <= t2 <= 35,
        0 <= s2 < 24,
    ensures
        bam_bit_offset(t, s) != bam_count_offset(t2),
        (t != t2 || s / 8 != s2 / 8) ==> bam_bit_offset(t, s) != bam_bit_offset(t2, s2),
        (t == t2 && s / 8 == s2 / 8 && s != s2) ==> s % 8 != s2 % 8,
        4 <= bam_bit_offset(t, s) <= 143,
        4 <= bam_count_offset(t) <= 140,
{
    assert(0 <= s / 8 <= 2 && 0 <= s2 / 8 <= 2);
    assert(s == 8 * (s / 8) + s % 8);
    assert(s2 == 8 * (s2 / 8) + s2 % 8);
}

/// What `mark_used` does to the header bytes: the sector's bit is cleared;
/// if it was set, the track's counter drops by one; nothing else changes.
pub open spec fn mark_used_post(pre: Seq<u8>, post: Seq<u8>, r: SectorRef) -> bool {
    let t = r.0 as int;
    let s = r.1 as int;
    &&& post.len() == pre.len()
    &&& bam_wf(post)
    &&& !bam_free(post, t, s)
    &&& forall|t2: int, s2: int|
        1 <= t2 <= 35 && 0 <= s2 < 24 && !(t2 == t && s2 == s) ==> bam_free(post, t2, s2)
            == bam_free(pre, t2, s2)
    &&& bam_count(post, t) as int == bam_count(pre, t) as int - (if bam_free(pre, t, s) {
        1int
    } else {
        0int
    })
    &&& forall|t2: int| 1 <= t2 <= 35 && t2 != t ==> bam_count(post, t2) == bam_count(pre, t2)
    &&& forall|i: int|
        0 <= i < pre.len() && i != bam_count_offset(t) && i != bam_bit_offset(t, s) ==> post[i]
            == pre[i]
    &&& post[bam_bit_offset(t, s)] == pre[bam_bit_offset(t, s)] & !bam_mask(s)
    &&& !bam_free(pre, t, s) ==> post == pre
}

/// What `mark_unused` does to the header bytes: the sector's bit is set;
/// if it was clear, the track's counter rises by one; nothing else changes.
pub open spec fn mark_unused_post(pre: Seq<u8>, post: Seq<u8>, r: SectorRef) -> bool {
    let t = r.0 as int;
    let s = r.1 as int;
    &&& post.len() == pre.len()
    &&& bam_wf(post)
    &&& bam_free(post, t, s)
    &&& forall|t2: int, s2: int|
        1 <= t2 <= 35 && 0 <= s2 < 24 && !(t2 == t && s2 == s) ==> bam_free(post, t2, s2)
            == bam_free(pre, t2, s2)
    &&& bam_count(post, t) as int == bam_count(pre, t) as int + (if bam_free(pre, t, s) {
        0int
    } else {
        1int
    })
    &&& forall|t2: int| 1 <= t2 <= 35 && t2 != t ==> bam_count(post, t2) == bam_count(pre, t2)
    &&& forall|i: int|
        0 <= i < pre.len() && i != bam_count_offset(t) && i != bam_bit_offset(t, s) ==> post[i]
            == pre[i]
    &&& post[bam_bit_offset(t, s)] == pre[bam_bit_offset(t, s)] | bam_mask(s)
    &&& bam_free(pre, t, s) ==> post == pre
}

/// Marking a free sector used and then unused again restores the header
/// byte for byte, free counters included.
pub proof fn lemma_mark_used_then_unused_restores(
    h0: Seq<u8>,
    h1: Seq<u8>,
    h2: Seq<u8>,
    r: SectorRef,
)
    requires
        1 <= r.0 <= 35,
        r.1 < 24,
        bam_free(h0, r.0 as int, r.1 as int),
        mark_used_post(h0, h1, r),
        mark_unused_post(h1, h2, r),
    ensures
        h2 =~= h0,
{
    let t = r.0 as int;
    let s = r.1 as int;
    let j = (s % 8) as u8;
    let a0 = h0[bam_bit_offset(t, s)];
    assert(((a0 & !(1u8 << j)) | (1u8 << j)) == a0) by (bit_vector)
        requires
            j < 8,
            a0 & (1u8 << j) != 0,
    ;
    assert forall|i: int| 0 <= i < h0.len() implies h2[i] == h0[i] by {
        if i == bam_count_offset(t) {
            assert(bam_count(h2, t) == bam_count(h0, t));
        } else if i == bam_bit_offset(t, s) {
            assert(h1[i] == a0 & !bam_mask(s));
            assert(h2[i] == h1[i] | bam_mask(s));
        }
    }
}

/// Marking a sector used a second time changes nothing at all: the
/// counter moves only on the free-to-used transition.
pub proof fn lemma_mark_used_twice(h0: Seq<u8>, h1: Seq<u8>, h2: Seq<u8>, r: SectorRef)
    requires
        1 <= r.0 <= 35,
        r.1 < 24,
        mark_used_post(h0, h1, r),
        mark_used_post(h1, h2, r),
    ensures
        h2 == h1,
{
}

/// The in-memory face of the header sector's availability map. It wraps a
/// copy of the header sector's bytes; the layout writes the sector back
/// after mutating through it.
pub struct BlockAvailabilityMap {
    sector: Sector,
}

impl View for BlockAvailabilityMap {
    type V = Seq<u8>;

    closed spec fn view(&self) -> Seq<u8> {
        self.sector@
    }
}

impl BlockAvailabilityMap {
    /// Wrap a copy of the header sector.
    pub fn new(sector: &Sector) -> (bam: BlockAvailabilityMap)
        ensures
            bam@ == sector@,
    {
        BlockAvailabilityMap { sector: sector.duplicate() }
    }

    /// The header sector with all mutations applied, to be stored back.
    pub fn into_sector(self) -> (s: Sector)
        ensures
            s@ == self@,
    {
        self.sector
    }

    /// Record the sector as used. Idempotent with respect to the counter:
    /// a sector already used leaves every byte as it was.
    pub fn mark_used(&mut self, sector: SectorRef)
        requires
            bam_wf(old(self)@),
            1 <= sector.0 <= 35,
            sector.1 < 24,
        ensures
            mark_used_post(old(self)@, final(self)@, sector),
    {
        let ghost t = sector.0 as int;
        let ghost s = sector.1 as int;
        let track_offset = (sector.0 as usize) * 4;
        let sector_offset = track_offset + (sector.1 as usize) / 8 + 1;
        let shift = sector.1 % 8;
        let bit_mask = 1u8 << shift;
        proof {
            lemma_bam_offsets(t, s, t, s);
            assert(bit_mask == bam_mask(s));
        }
        let availability = self.sector.get_byte(sector_offset);
        let new_availability = availability & !bit_mask;
        proof {
            lemma_clear_bit(availability, shift);
        }
        self.sector.set_byte(sector_offset, new_availability);
        let ghost mid = self@;
        proof {
            lemma_bit_flip_effects(old(self)@, mid, t, s);
        }
        if availability != new_availability {
            let sectors_free = self.sector.get_byte(track_offset);
            proof {
                assert(bam_free(old(self)@, t, s)) by {
                    lemma_mask_test(availability, shift);
                }
                assert(bam_track_wf(old(self)@, t));
                lemma_num_free_upto_positive(old(self)@, t, s, 24);
                assert(sectors_free >= 1);
            }
            self.sector.set_byte(track_offset, sectors_free - 1);
            proof {
                lemma_num_free_upto_update(old(self)@, mid, t, s, 24);
                lemma_count_byte_update(old(self)@, mid, self@, sector);
            }
        } else {
            proof {
                assert(mid =~= old(self)@);
                assert(!bam_free(old(self)@, t, s)) by {
                    lemma_mask_test(availability, shift);
                }
            }
        }
    }

    /// Record the sector as free. Idempotent with respect to the counter:
    /// a sector already free leaves every byte as it was.
    pub fn mark_unused(&mut self, sector: SectorRef)
        requires
            bam_wf(old(self)@),
            1 <= sector.0 <= 35,
            (sector.1 as int) < spec_track_sectors(sector.0 as int),
        ensures
            mark_unused_post(old(self)@, final(self)@, sector),
    {
        let ghost t = sector.0 as int;
        let ghost s = sector.1 as int;
        let track_offset = (sector.0 as usize) * 4;
        let sector_offset = track_offset + (sector.1 as usize) / 8 + 1;
        let shift = sector.1 % 8;
        let bit_mask = 1u8 << shift;
        proof {
            assert(s < 24);
            lemma_bam_offsets(t, s, t, s);
            assert(bit_mask == bam_mask(s));
        }
        let availability = self.sector.get_byte(sector_offset);
        let new_availability = availability | bit_mask;
        proof {
            lemma_set_bit(availability, shift);
        }
        self.sector.set_byte(sector_offset, new_availability);
        let ghost mid = self@;
        proof {
            lemma_bit_flip_effects(old(self)@, mid, t, s);
        }
        if availability != new_availability {
            let sectors_free = self.sector.get_byte(track_offset);
            proof {
                assert(!bam_free(old(self)@, t, s)) by {
                    lemma_mask_test(availability, shift);
                }
                assert(bam_track_wf(old(self)@, t));
                lemma_num_free_upto_bounds(old(self)@, t, 24);
                lemma_num_free_upto_update(old(self)@, mid, t, s, 24);
                assert(sectors_free < 255);
            }
            self.sector.set_byte(track_offset, sectors_free + 1);
            proof {
                lemma_count_byte_update(old(self)@, mid, self@, sector);
            }
        } else {
            proof {
                assert(mid =~= old(self)@);
                assert(bam_free(old(self)@, t, s)) by {
                    lemma_mask_test(availability, shift);
                }
            }
        }
    }

    /// Whether the BAM records the sector as free.
    pub fn is_unused(&self, sector: SectorRef) -> (r: bool)
        requires
            self@.len() == 256,
            1 <= sector.0 <= 35,
            sector.1 < 24,
        ensures
            r == bam_free(self@, sector.0 as int, sector.1 as int),
    {
        let ghost t = sector.0 as int;
        let ghost s = sector.1 as int;
        let track_offset = (sector.0 as usize) * 4;
        let sector_offset = track_offset + (sector.1 as usize) / 8 + 1;
        let shift = sector.1 % 8;
        let bit_mask = 1u8 << shift;
        proof {
            lemma_bam_offsets(t, s, t, s);
            assert(bit_mask == bam_mask(s));
        }
        let availability = self.sector.get_byte(sector_offset);
        (availability & bit_mask) != 0
    }

    /// Whether the BAM records the sector as used.
    pub fn is_used(&self, sector: SectorRef) -> (r: bool)
        requires
            self@.len() == 256,
            1 <= sector.0 <= 35,
            sector.1 < 24,
        ensures
            r == !bam_free(self@, sector.0 as int, sector.1 as int),
    {
        !self.is_unused(sector)
    }

    /// The stored free counter of one track; O(1), never recomputed.
    pub fn count_unused_track_sectors(&self, track_no: TrackNo) -> (r: u8)
        requires
            self@.len() == 256,
            1 <= track_no <= 35,
        ensures
            r == bam_count(self@, track_no as int),
    {
        let track_offset = (track_no as usize) * 4;
        self.sector.get_byte(track_offset)
    }

    /// Sum of the free counters of tracks `min_track_no..=max_track_no`.
    pub fn count_unused_sectors(&self, min_track_no: TrackNo, max_track_no: TrackNo) -> (r:
        usize)
        requires
            self@.len() == 256,
            1 <= min_track_no,
            max_track_no <= 35,
        ensures
            r == sum_free(self@, min_track_no as int, max_track_no as int),
    {
        if min_track_no > max_track_no {
            return 0;
        }
        let mut result: usize = 0;
        let mut track_no = min_track_no;
        while track_no <= max_track_no
            invariant
                self@.len() == 256,
                min_track_no <= track_no <= max_track_no + 1,
                max_track_no <= 35,
                1 <= min_track_no,
                result == sum_free(self@, min_track_no as int, track_no - 1),
                result <= 255 * (track_no - min_track_no),
            decreases max_track_no + 1 - track_no,
        {
            result = result + self.count_unused_track_sectors(track_no) as usize;
            track_no = track_no + 1;
        }
        result
    }

    /// First-fit allocation of `num_sectors` distinct free sectors, in
    /// ascending track then sector order, skipping the header track. The
    /// request succeeds exactly when the user-visible free count suffices;
    /// on success every returned sector is marked used, on failure nothing
    /// is touched.
    pub fn allocate_sectors(&mut self, num_sectors: usize) -> (r: Option<Vec<SectorRef>>)
        requires
            bam_wf(old(self)@),
        ensures
            bam_wf(final(self)@),
            num_sectors > user_free(old(self)@) ==> r is None && final(self)@ == old(self)@,
            num_sectors <= user_free(old(self)@) ==> (r matches Some(v) && allocate_post(
                old(self)@,
                final(self)@,
                v@,
                num_sectors as int,
            )),
    {
        proof {
            lemma_user_free_total(old(self)@, 1);
            lemma_sum_free_lower(old(self)@, 1, 35, 18);
        }
        let ghost pre = self@;
        let mut found: Vec<SectorRef> = Vec::new();
        let mut track_no: u8 = 1;
        while track_no <= 35
            invariant
                bam_wf(pre),
                self@ == pre,
                1 <= track_no <= 36,
                user_free(pre) == user_free_from(pre, 1, 0),
                forall|i: int| 0 <= i < found@.len() ==> spec_user_ref(#[trigger] found@[i]),
                forall|i: int|
                    0 <= i < found@.len() ==> bam_free(
                        pre,
                        (#[trigger] found@[i]).0 as int,
                        found@[i].1 as int,
                    ),
                forall|i: int, j: int|
                    0 <= i < j < found@.len() ==> scan_key(found@[i]) < scan_key(found@[j]),
                forall|i: int|
                    0 <= i < found@.len() ==> scan_key(#[trigger] found@[i]) < track_no as int
                        * 24,
                found@.len() == (if num_sectors <= user_free(pre) - user_free_from(
                    pre,
                    track_no as int,
                    0,
                ) {
                    num_sectors as int
                } else {
                    user_free(pre) - user_free_from(pre, track_no as int, 0)
                }),
                found@.len() < num_sectors ==> (forall|r2: SectorRef|
                    spec_user_ref(r2) && bam_free(pre, r2.0 as int, r2.1 as int) && scan_key(r2)
                        < track_no as int * 24 ==> found@.contains(r2)),
                found@.len() == num_sectors && num_sectors > 0 ==> (forall|r2: SectorRef|
                    spec_user_ref(r2) && bam_free(pre, r2.0 as int, r2.1 as int)
                        && !found@.contains(r2) ==> scan_key(r2) > scan_key(
                        found@[num_sectors - 1],
                    )),
            decreases 36 - track_no,
        {
            if track_no != 18 {
                let mut sector_no: u8 = 0;
                while sector_no < 24
                    invariant
                        bam_wf(pre),
                        self@ == pre,
                        1 <= track_no <= 35,
                        track_no != 18,
                        0 <= sector_no <= 24,
                        forall|i: int|
                            0 <= i < found@.len() ==> spec_user_ref(#[trigger] found@[i]),
                        forall|i: int|
                            0 <= i < found@.len() ==> bam_free(
                                pre,
                                (#[trigger] found@[i]).0 as int,
                                found@[i].1 as int,
                            ),
                        forall|i: int, j: int|
                            0 <= i < j < found@.len() ==> scan_key(found@[i]) < scan_key(
                                found@[j],
                            ),
                        forall|i: int|
                            0 <= i < found@.len() ==> scan_key(#[trigger] found@[i]) < track_no
                                as int * 24 + sector_no as int,
                        found@.len() == (if num_sectors <= user_free(pre) - user_free_from(
                            pre,
                            track_no as int,
                            sector_no as int,
                        ) {
                            num_sectors as int
                        } else {
                            user_free(pre) - user_free_from(pre, track_no as int, sector_no as int)
                        }),
                        found@.len() < num_sectors ==> (forall|r2: SectorRef|
                            spec_user_ref(r2) && bam_free(pre, r2.0 as int, r2.1 as int)
                                && scan_key(r2) < track_no as int * 24 + sector_no as int
                                ==> found@.contains(r2)),
                        found@.len() == num_sectors && num_sectors > 0 ==> (forall|
                            r2: SectorRef,
                        |
                            spec_user_ref(r2) && bam_free(pre, r2.0 as int, r2.1 as int)
                                && !found@.contains(r2) ==> scan_key(r2) > scan_key(
                                found@[num_sectors - 1],
                            )),
                    decreases 24 - sector_no,
                {
                    proof {
                        lemma_user_free_from_nonneg(pre, track_no as int, sector_no + 1);
                        lemma_num_free_upto_bounds(pre, track_no as int, 24);
                    }
                    let ghost before = found@;
                    if found.len() < num_sectors && self.is_unused((track_no, sector_no)) {
                        proof {
                            assert(bam_track_wf(pre, track_no as int));
                            assert((sector_no as int) < spec_track_sectors(track_no as int));
                        }
                        found.push((track_no, sector_no));
                    }
                    sector_no = sector_no + 1;
                    proof {
                        let pos = track_no as int * 24 + sector_no as int;
                        if found@.len() < num_sectors {
                            assert forall|r2: SectorRef|
                                spec_user_ref(r2) && bam_free(pre, r2.0 as int, r2.1 as int)
                                    && scan_key(r2) < pos implies found@.contains(r2) by {
                                if scan_key(r2) < pos - 1 {
                                    let k = choose|k: int|
                                        0 <= k < before.len() && before[k] == r2;
                                    assert(found@[k] == r2);
                                } else {
                                    lemma_scan_key_injective(
                                        r2,
                                        (track_no, (sector_no - 1) as u8),
                                    );
                                    assert(found@[found@.len() - 1] == r2);
                                }
                            }
                        } else if num_sectors > 0 && before.len() < num_sectors {
                            assert forall|r2: SectorRef|
                                spec_user_ref(r2) && bam_free(pre, r2.0 as int, r2.1 as int)
                                    && !found@.contains(r2) implies scan_key(r2) > scan_key(
                                found@[num_sectors - 1],
                            ) by {
                                assert(found@[num_sectors - 1] == (track_no, (sector_no
                                    - 1) as u8));
                                if scan_key(r2) < pos - 1 {
                                    let k = choose|k: int|
                                        0 <= k < before.len() && before[k] == r2;
                                    assert(found@[k] == r2);
                                } else if scan_key(r2) == pos - 1 {
                                    lemma_scan_key_injective(
                                        r2,
                                        (track_no, (sector_no - 1) as u8),
                                    );
                                    assert(found@[found@.len() - 1] == r2);
                                }
                            }
                        } else {
                            assert forall|k: int| 0 <= k < before.len() implies found@[k]
                                == before[k] by {}
                        }
                    }
                }
            } else {
                proof {
                    lemma_user_free_from_nonneg(pre, track_no as int, 0);
                }
            }
            proof {
                if found@.len() < num_sectors {
                    assert forall|r2: SectorRef|
                        spec_user_ref(r2) && bam_free(pre, r2.0 as int, r2.1 as int)
                            && scan_key(r2) < (track_no as int + 1) * 24 implies found@.contains(
                        r2,
                    ) by {
                        if scan_key(r2) >= track_no as int * 24 {
                            assert(r2.0 as int == track_no as int);
                            assert((r2.1 as int) < spec_track_sectors(r2.0 as int));
                        }
                    }
                }
            }
            track_no = track_no + 1;
        }
        proof {
            lemma_user_free_from_nonneg(pre, 1, 0);
        }
        if found.len() < num_sectors {
            return None;
        }
        let n = found.len();
        let mut i: usize = 0;
        while i < n
            invariant
                n == found@.len(),
                n == num_sectors,
                0 <= i <= n,
                bam_wf(pre),
                bam_wf(self@),
                forall|k: int| 0 <= k < n ==> spec_user_ref(#[trigger] found@[k]),
                forall|k: int|
                    0 <= k < n ==> bam_free(pre, (#[trigger] found@[k]).0 as int, found@[k].1 as int),
                forall|k: int, j: int|
                    0 <= k < j < n ==> scan_key(found@[k]) < scan_key(found@[j]),
                forall|k: int|
                    0 <= k < i ==> !bam_free(
                        self@,
                        (#[trigger] found@[k]).0 as int,
                        found@[k].1 as int,
                    ),
                forall|k: int|
                    i <= k < n ==> bam_free(
                        self@,
                        (#[trigger] found@[k]).0 as int,
                        found@[k].1 as int,
                    ),
                forall|r2: SectorRef|
                    1 <= r2.0 <= 35 && r2.1 < 24 && !found@.subrange(0, i as int).contains(r2)
                        ==> bam_free(self@, r2.0 as int, r2.1 as int) == bam_free(
                        pre,
                        r2.0 as int,
                        r2.1 as int,
                    ),
                bam_count(self@, 18) == bam_count(pre, 18),
                sum_free(self@, 1, 35) == sum_free(pre, 1, 35) - i,
                forall|k: int| 0 <= k < 256 && !(4 <= k < 144) ==> self@[k] == pre[k],
            decreases n - i,
        {
            let ghost before = self@;
            let sector_ref = found[i];
            proof {
                assert(scan_key(sector_ref) == sector_ref.0 as int * 24 + sector_ref.1 as int);
            }
            self.mark_used(sector_ref);
            proof {
                let t = sector_ref.0 as int;
                assert(bam_free(before, t, sector_ref.1 as int));
                lemma_sum_free_update(before, self@, 1, 35, t);
                assert forall|r2: SectorRef|
                    1 <= r2.0 <= 35 && r2.1 < 24 && !found@.subrange(0, i + 1).contains(
                        r2,
                    ) implies bam_free(self@, r2.0 as int, r2.1 as int) == bam_free(
                    pre,
                    r2.0 as int,
                    r2.1 as int,
                ) by {
                    assert(!found@.subrange(0, i as int).contains(r2)) by {
                        assert forall|k: int| 0 <= k < i implies found@.subrange(0, i as int)[k]
                            != r2 by {
                            assert(found@.subrange(0, i + 1)[k] == found@.subrange(
                                0,
                                i as int,
                            )[k]);
                        }
                    }
                    assert(r2 != sector_ref) by {
                        assert(found@.subrange(0, i + 1)[i as int] == sector_ref);
                    }
                }
                assert forall|k: int| i + 1 <= k < n implies bam_free(
                    self@,
                    (#[trigger] found@[k]).0 as int,
                    found@[k].1 as int,
                ) by {
                    assert(scan_key(found@[i as int]) < scan_key(found@[k]));
                }
            }
            i = i + 1;
        }
        proof {
            assert(found@.subrange(0, n as int) =~= found@);
        }
        Some(found)
    }
}

/// Relies on nothing outside this file: bit facts about setting one bit.
proof fn lemma_set_bit(a: u8, i: u8)
    by (bit_vector)
    requires
        i < 8,
    ensures
        (a | (1u8 << i)) & (1u8 << i) != 0,
        forall|j: u8|
            j < 8 && j != i ==> (((a | (1u8 << i)) & (1u8 << j) != 0) == (a & (1u8 << j) != 0)),
        a & (1u8 << i) != 0 ==> (a | (1u8 << i)) == a,
        a & (1u8 << i) == 0 ==> (a | (1u8 << i)) != a,
{
}

/// Bit facts about clearing one bit.
proof fn lemma_clear_bit(a: u8, i: u8)
    by (bit_vector)
    requires
        i < 8,
    ensures
        (a & !(1u8 << i)) & (1u8 << i) == 0,
        forall|j: u8|
            j < 8 && j != i ==> (((a & !(1u8 << i)) & (1u8 << j) != 0) == (a & (1u8 << j)
                != 0)),
        a & (1u8 << i) == 0 ==> (a & !(1u8 << i)) == a,
        a & (1u8 << i) != 0 ==> (a & !(1u8 << i)) != a,
{
}

/// The changed-or-not test the two marking operations rely on.
proof fn lemma_mask_test(a: u8, i: u8)
    by (bit_vector)
    requires
        i < 8,
    ensures
        (a & (1u8 << i) != 0) == ((a & !(1u8 << i)) != a),
        (a & (1u8 << i) == 0) == ((a | (1u8 << i)) != a),
{
}

/// After updating the bitmap byte of (t, s), every other sector's bit and
/// every counter byte reads as before.
proof fn lemma_bit_flip_effects(pre: Seq<u8>, mid: Seq<u8>, t: int, s: int)
    requires
        pre.len() == 256,
        1 <= t <= 35,
        0 <= s < 24,
        mid.len() == 256,
        forall|i: int| 0 <= i < 256 && i != bam_bit_offset(t, s) ==> mid[i] == pre[i],
        forall|j: u8|
            j < 8 && j != ((s % 8) as u8) ==> ((mid[bam_bit_offset(t, s)] & (1u8 << j) != 0) == (
            pre[bam_bit_offset(t, s)] & (1u8 << j) != 0)),
    ensures
        forall|t2: int, s2: int|
            1 <= t2 <= 35 && 0 <= s2 < 24 && !(t2 == t && s2 == s) ==> bam_free(mid, t2, s2)
                == bam_free(pre, t2, s2),
        forall|t2: int| 1 <= t2 <= 35 ==> bam_count(mid, t2) == bam_count(pre, t2),
{
    assert forall|t2: int, s2: int|
        1 <= t2 <= 35 && 0 <= s2 < 24 && !(t2 == t && s2 == s) implies bam_free(mid, t2, s2)
        == bam_free(pre, t2, s2) by {
        lemma_bam_offsets(t, s, t2, s2);
        if bam_bit_offset(t2, s2) == bam_bit_offset(t, s) {
            assert(t2 == t && s2 / 8 == s / 8);
            assert(s2 % 8 != s % 8);
            assert(((s2 % 8) as u8) < 8 && ((s2 % 8) as u8) != ((s % 8) as u8));
            assert(bam_mask(s2) == 1u8 << ((s2 % 8) as u8));
        }
    }
    assert forall|t2: int| 1 <= t2 <= 35 implies bam_count(mid, t2) == bam_count(pre, t2) by {
        lemma_bam_offsets(t, s, t2, 0);
    }
}

/// Bit groups are unchanged by a counter-byte write, and the new counter
/// matches the new number of free bits, re-establishing the invariant.
proof fn lemma_count_byte_update(pre: Seq<u8>, mid: Seq<u8>, post: Seq<u8>, r: SectorRef)
    requires
        1 <= r.0 <= 35,
        r.1 < 24,
        bam_wf(pre),
        mid.len() == 256,
        post.len() == 256,
        forall|i: int|
            0 <= i < 256 && i != bam_bit_offset(r.0 as int, r.1 as int) ==> mid[i] == pre[i],
        forall|t2: int, s2: int|
            1 <= t2 <= 35 && 0 <= s2 < 24 && !(t2 == r.0 as int && s2 == r.1 as int) ==> bam_free(
                mid,
                t2,
                s2,
            ) == bam_free(pre, t2, s2),
        forall|i: int|
            0 <= i < 256 && i != bam_count_offset(r.0 as int) ==> post[i] == mid[i],
        bam_count(post, r.0 as int) as int == num_free_upto(mid, r.0 as int, 24),
        spec_track_sectors(r.0 as int) <= r.1 as int ==> bam_free(mid, r.0 as int, r.1 as int)
            == bam_free(pre, r.0 as int, r.1 as int),
    ensures
        bam_wf(post),
        forall|t2: int, s2: int|
            1 <= t2 <= 35 && 0 <= s2 < 24 ==> bam_free(post, t2, s2) == bam_free(mid, t2, s2),
        forall|t2: int| 1 <= t2 <= 35 && t2 != r.0 as int ==> bam_count(post, t2) == bam_count(
            pre,
            t2,
        ),
{
    let t = r.0 as int;
    let s = r.1 as int;
    assert forall|t2: int, s2: int| 1 <= t2 <= 35 && 0 <= s2 < 24 implies bam_free(post, t2, s2)
        == bam_free(mid, t2, s2) by {
        lemma_bam_offsets(t2, s2, t, s2);
    }
    assert forall|t2: int| 1 <= t2 <= 35 && t2 != t implies bam_count(post, t2) == bam_count(
        pre,
        t2,
    ) by {
        lemma_bam_offsets(t, s, t2, 0);
    }
    assert forall|t2: int| 1 <= t2 <= 35 implies bam_track_wf(post, t2) by {
        assert(bam_track_wf(pre, t2));
        lemma_num_free_upto_agree(post, mid, t2, 24);
        if t2 != t {
            lemma_num_free_upto_agree(mid, pre, t2, 24);
        }
        assert forall|s2: int| spec_track_sectors(t2) <= s2 < 24 implies !bam_free(
            post,
            t2,
            s2,
        ) by {
            if t2 != t || s2 != s {
                assert(bam_free(mid, t2, s2) == bam_free(pre, t2, s2));
            }
        }
    }
}

} // verus!
