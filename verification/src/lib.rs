//! In-memory model of the disk images written by the Commodore 1541 family
//! of floppy drives (the common `.d64` dump format).
//!
//! A `Disk` owns every `Track` and `Sector` of one disk image. The
//! `Commodore1541` layout interprets the raw sector bytes: the block
//! availability map (BAM) with its per-track free counters, the chained
//! directory of `FileEntry` records, and the sector chains that hold file
//! content. Every operation is specified over the byte-level view of the
//! disk and verified against that specification.

mod commodore1541;
mod disk;
mod layout;
mod petscii;
mod sector;
mod track;
mod types;

pub use commodore1541::BlockAvailabilityMap;
pub use commodore1541::Commodore1541;
pub use commodore1541::FileEntry;
pub use commodore1541::FileEntryView;
pub use commodore1541::FileListEntryRef;
pub use commodore1541::FileType;
pub use commodore1541::bam_count;
pub use commodore1541::bam_free;
pub use commodore1541::bam_track_wf;
pub use commodore1541::bam_wf;
pub use commodore1541::lemma_mark_used_then_unused_restores;
pub use commodore1541::lemma_mark_used_twice;
pub use commodore1541::mark_unused_post;
pub use commodore1541::mark_used_post;
pub use commodore1541::num_free_upto;
pub use commodore1541::spec_track_sectors;
pub use commodore1541::sum_free;
pub use commodore1541::user_free;
pub use commodore1541::spec_formatted;
pub use commodore1541::spec_dir_ok;
pub use commodore1541::spec_entry_clean;
pub use commodore1541::spec_list_entries;
pub use commodore1541::spec_read_file;
pub use commodore1541::spec_zero_pad;
pub use commodore1541::lemma_formatted_ready;
pub use disk::lemma_persist_load_round_trip;
pub use disk::Disk;
pub use disk::disk_image;
pub use disk::disk_total_bytes;
pub use layout::Layout;
pub use petscii::PetsciiString;
pub use petscii::decode_petscii;
pub use petscii::encode_petscii;
pub use petscii::spec_decode_petscii;
pub use petscii::spec_encode_petscii;
pub use petscii::PETSCII_ZERO;
pub use petscii::PETSCII_ONE;
pub use petscii::PETSCII_TWO;
pub use petscii::PETSCII_THREE;
pub use petscii::PETSCII_FOUR;
pub use petscii::PETSCII_FIVE;
pub use petscii::PETSCII_SIX;
pub use petscii::PETSCII_SEVEN;
pub use petscii::PETSCII_EIGHT;
pub use petscii::PETSCII_NINE;
pub use petscii::PETSCII_A;
pub use petscii::PETSCII_I;
pub use petscii::PETSCII_J;
pub use petscii::PETSCII_Z;
pub use petscii::PETSCII_NBSP;
pub use sector::Sector;
pub use track::Track;
pub use types::DiskError;
pub use types::SectorNo;
pub use types::SectorRef;
pub use types::TrackNo;
