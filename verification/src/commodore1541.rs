//! The Commodore 1541 layout: how that drive family arranges a disk —
//! 35 tracks of 256-byte sectors, a header sector carrying the block
//! availability map and the disk's name, a chained directory of file
//! records, and chained sectors of file content.

mod bam;
mod file_entry;
mod layout;

pub use bam::BlockAvailabilityMap;
pub use bam::bam_count;
pub use bam::bam_free;
pub use bam::bam_track_wf;
pub use bam::bam_wf;
pub use bam::mark_unused_post;
pub use bam::mark_used_post;
pub use bam::lemma_mark_used_then_unused_restores;
pub use bam::num_free_upto;
pub use bam::sum_free;
pub use bam::user_free;
pub use bam::allocate_post;
pub use bam::scan_key;
pub use bam::lemma_user_free_le;
pub use bam::lemma_mark_used_twice;
pub use bam::lemma_scan_key_injective;
pub use file_entry::FileEntry;
pub use file_entry::FileEntryView;
pub use file_entry::FileListEntryRef;
pub use file_entry::FileType;
pub use layout::CHAIN_FUEL;
pub use layout::Commodore1541;
pub use layout::DiskBytes;
pub use layout::disk_update;
pub use layout::disk_wf;
pub use layout::lemma_chain_of_linked_list;
pub use layout::lemma_chain_refs_valid;
pub use layout::lemma_wf_equiv;
pub use layout::spec_chain;
pub use layout::spec_chain_content;
pub use layout::spec_content_upto;
pub use layout::spec_header;
pub use layout::spec_next_ref;
pub use layout::spec_read_file;
pub use layout::spec_sector_at;
pub use layout::spec_user_ref;
pub use layout::spec_valid_ref;
pub use layout::TRACK_HEADER;
pub use layout::BYTES_PER_SECTOR;
pub use layout::CONTENT_BYTES_PER_SECTOR;
pub use layout::SECTOR_HEADER_SIZE;
pub use layout::FILE_LIST_ENTRY_SIZE;
pub use layout::DISK_NAME_LENGTH;
pub use layout::lemma_chain_all_links;
pub use layout::lemma_chain_bounded;
pub use layout::lemma_chain_distinct;
pub use layout::lemma_chain_extend;
pub use layout::lemma_chain_stable;
pub use layout::lemma_format_user_free;
pub use layout::lemma_formatted_ready;
pub use layout::spec_create_needs;
pub use layout::spec_dir_chain;
pub use layout::spec_dir_end;
pub use layout::spec_dir_ok;
pub use layout::spec_entry_clean;
pub use layout::spec_find_scratched;
pub use layout::spec_first_scratched_slot;
pub use layout::spec_format_bit;
pub use layout::spec_formatted;
pub use layout::spec_list_entries;
pub use layout::spec_num_chunks;
pub use layout::spec_sector_entries;
pub use layout::spec_slot_entries;
pub use layout::spec_entries_upto;
pub use layout::spec_views_of;
pub use layout::spec_zero_pad;

use vstd::prelude::*;

verus! {

/// Sectors on each one-based track of the supported geometry: 21 on tracks
/// 1–17, 19 on 18–24, 18 on 25–30, 17 on 31–35.
pub open spec fn spec_track_sectors(track: int) -> int {
    if track < 1 {
        0
    } else if track <= 17 {
        21
    } else if track <= 24 {
        19
    } else if track <= 30 {
        18
    } else if track <= 35 {
        17
    } else {
        0
    }
}

} // verus!
