use d64::Commodore1541;
use d64::Disk;
use d64::DiskError;
use d64::FileEntry;
use d64::FileType;
use d64::PetsciiString;

fn formatted_disk() -> Disk<Commodore1541> {
    let mut disk = Disk::<Commodore1541>::new();
    disk.format();
    disk
}

fn program_entry(name: &str) -> FileEntry {
    let mut entry = FileEntry::default();
    entry.name = PetsciiString::from_string(&String::from(name));
    entry.file_type = FileType::Program;
    entry
}

#[test]
fn fresh_format_has_664_free_sectors() {
    let layout = Commodore1541::default();
    let disk = formatted_disk();
    assert_eq!(layout.num_unused_sectors(&disk), 664);
}

#[test]
fn small_file_takes_one_sector() {
    let layout = Commodore1541::default();
    let mut disk = formatted_disk();
    let entry = layout.create_file(&mut disk, &program_entry("DATA"), &[1, 2, 3, 4]).unwrap();
    assert_eq!(entry.num_sectors, 1);
    assert_eq!(entry.start_sector, (1, 0));
    assert_eq!(entry.file_entry_ref, ((18, 1), 0));
    assert_eq!(layout.num_unused_sectors(&disk), 663);
    let sector = disk.get_sector((1, 0));
    assert_eq!(sector.get_bytes(0, 6), vec![0, 255, 1, 2, 3, 4]);
    let listed = disk.list_entries().unwrap();
    assert_eq!(listed.len(), 1);
    assert_eq!(listed[0].num_sectors, 1);
    assert_eq!(listed[0].start_sector, (1, 0));
    assert_eq!(listed[0].file_type, FileType::Program);
    assert_eq!(listed[0].name.to_string(), "DATA");
}

#[test]
fn name_round_trip_and_truncation() {
    let mut disk = formatted_disk();
    disk.set_name(&String::from("TEST"));
    assert_eq!(disk.get_name(), "TEST");
    disk.set_name(&String::from("ABCDEFGHIJKLMNOPQRST"));
    assert_eq!(disk.get_name(), "ABCDEFGHIJKLMNOP");
}

#[test]
fn delete_restores_free_count_and_listing() {
    let layout = Commodore1541::default();
    let mut disk = formatted_disk();
    let entry = layout.create_file(&mut disk, &program_entry("DATA"), &[9; 4]).unwrap();
    assert_eq!(layout.num_unused_sectors(&disk), 663);
    layout.delete_file(&mut disk, &entry).unwrap();
    assert_eq!(layout.num_unused_sectors(&disk), 664);
    assert_eq!(disk.list_entries().unwrap().len(), 0);
}

#[test]
fn read_returns_content_padded_to_whole_sectors() {
    let layout = Commodore1541::default();
    let mut disk = formatted_disk();
    let content = b"HELLO WORLD";
    let entry = layout.create_file(&mut disk, &program_entry("GREETING"), content).unwrap();
    let read = layout.read_file(&disk, &entry).unwrap();
    assert_eq!(read.len(), 254);
    assert_eq!(&read[..content.len()], content);
    assert!(read[content.len()..].iter().all(|b| *b == 0));
}

#[test]
fn multi_sector_file_round_trip() {
    let layout = Commodore1541::default();
    let mut disk = formatted_disk();
    let content: Vec<u8> = (0..600u32).map(|i| (i % 251) as u8).collect();
    let entry = layout.create_file(&mut disk, &program_entry("BIG"), &content).unwrap();
    assert_eq!(entry.num_sectors, 3);
    assert_eq!(layout.num_unused_sectors(&disk), 661);
    let read = layout.read_file(&disk, &entry).unwrap();
    assert_eq!(read.len(), 762);
    assert_eq!(&read[..600], &content[..]);
    assert!(read[600..].iter().all(|b| *b == 0));
    layout.delete_file(&mut disk, &entry).unwrap();
    assert_eq!(layout.num_unused_sectors(&disk), 664);
}

#[test]
fn scratched_slot_is_reused() {
    let layout = Commodore1541::default();
    let mut disk = formatted_disk();
    let first = layout.create_file(&mut disk, &program_entry("ONE"), &[1]).unwrap();
    let _second = layout.create_file(&mut disk, &program_entry("TWO"), &[2]).unwrap();
    layout.delete_file(&mut disk, &first).unwrap();
    let third = layout.create_file(&mut disk, &program_entry("THREE"), &[3]).unwrap();
    assert_eq!(third.file_entry_ref, first.file_entry_ref);
    let listed = disk.list_entries().unwrap();
    assert_eq!(listed.len(), 2);
    assert_eq!(listed[0].name.to_string(), "THREE");
    assert_eq!(listed[1].name.to_string(), "TWO");
}

#[test]
fn directory_grows_past_eight_entries() {
    let layout = Commodore1541::default();
    let mut disk = formatted_disk();
    for i in 0..8 {
        let name = format!("FILE{}", i);
        layout.create_file(&mut disk, &program_entry(&name), &[i as u8]).unwrap();
    }
    assert_eq!(layout.num_unused_sectors(&disk), 656);
    let ninth = layout.create_file(&mut disk, &program_entry("NINTH"), &[9]).unwrap();
    assert_eq!(ninth.num_sectors, 1);
    assert_eq!(ninth.file_entry_ref.1, 0);
    assert_ne!(ninth.file_entry_ref.0, (18, 1));
    assert_eq!(layout.num_unused_sectors(&disk), 654);
    assert_eq!(disk.list_entries().unwrap().len(), 9);
}

#[test]
fn allocation_fails_without_mutation_when_disk_is_full() {
    let layout = Commodore1541::default();
    let mut disk = formatted_disk();
    let content = vec![7u8; 664 * 254];
    let entry = layout.create_file(&mut disk, &program_entry("HUGE"), &content).unwrap();
    assert_eq!(entry.num_sectors, 664);
    assert_eq!(layout.num_unused_sectors(&disk), 0);
    let err = layout.create_file(&mut disk, &program_entry("MORE"), &[1]);
    assert_eq!(err.unwrap_err(), DiskError::AllocationExhausted);
    assert_eq!(layout.num_unused_sectors(&disk), 0);
    assert_eq!(disk.list_entries().unwrap().len(), 1);
}

#[test]
fn create_that_cannot_fit_changes_nothing() {
    let layout = Commodore1541::default();
    let mut disk = formatted_disk();
    let too_big = vec![1u8; 665 * 254];
    let err = layout.create_file(&mut disk, &program_entry("TOOBIG"), &too_big);
    assert_eq!(err.unwrap_err(), DiskError::AllocationExhausted);
    assert_eq!(layout.num_unused_sectors(&disk), 664);
    assert_eq!(disk.list_entries().unwrap().len(), 0);
}

#[test]
fn bam_marking_is_idempotent_and_reversible() {
    let layout = Commodore1541::default();
    let disk = formatted_disk();
    let mut bam = layout.get_block_availability_map(&disk);
    let sector = (3u8, 5u8);
    assert!(bam.is_unused(sector));
    let before = bam.count_unused_track_sectors(3);
    bam.mark_used(sector);
    assert!(bam.is_used(sector));
    assert_eq!(bam.count_unused_track_sectors(3), before - 1);
    bam.mark_used(sector);
    assert_eq!(bam.count_unused_track_sectors(3), before - 1);
    bam.mark_unused(sector);
    assert!(bam.is_unused(sector));
    assert_eq!(bam.count_unused_track_sectors(3), before);
    bam.mark_unused(sector);
    assert_eq!(bam.count_unused_track_sectors(3), before);
}

#[test]
fn allocate_returns_distinct_free_sectors_in_scan_order() {
    let layout = Commodore1541::default();
    let disk = formatted_disk();
    let mut bam = layout.get_block_availability_map(&disk);
    let total = bam.count_unused_sectors(1, 35) - bam.count_unused_track_sectors(18) as usize;
    assert_eq!(total, 664);
    let refs = bam.allocate_sectors(3).unwrap();
    assert_eq!(refs, vec![(1, 0), (1, 1), (1, 2)]);
    for r in &refs {
        assert!(bam.is_used(*r));
    }
    let left = bam.count_unused_sectors(1, 35) - bam.count_unused_track_sectors(18) as usize;
    assert_eq!(left, 661);
}

#[test]
fn allocate_zero_is_an_empty_success() {
    let layout = Commodore1541::default();
    let disk = formatted_disk();
    let mut bam = layout.get_block_availability_map(&disk);
    assert_eq!(bam.allocate_sectors(0), Some(vec![]));
    assert_eq!(bam.count_unused_sectors(1, 35), 681);
}

#[test]
fn allocate_too_many_fails_without_mutation() {
    let layout = Commodore1541::default();
    let disk = formatted_disk();
    let mut bam = layout.get_block_availability_map(&disk);
    assert_eq!(bam.allocate_sectors(665), None);
    assert_eq!(bam.count_unused_sectors(1, 35), 681);
    assert!(bam.is_unused((1, 0)));
}

#[test]
fn allocation_skips_the_header_track() {
    let layout = Commodore1541::default();
    let disk = formatted_disk();
    let mut bam = layout.get_block_availability_map(&disk);
    let refs = bam.allocate_sectors(664).unwrap();
    assert_eq!(refs.len(), 664);
    assert!(refs.iter().all(|r| r.0 != 18));
    assert_eq!(bam.allocate_sectors(1), None);
}

#[test]
fn cyclic_chain_is_reported_as_corrupt() {
    let layout = Commodore1541::default();
    let mut disk = formatted_disk();
    {
        let sector = disk.get_sector_mut((1, 0));
        sector.set_byte(0, 1);
        sector.set_byte(1, 0);
    }
    let mut entry = FileEntry::default();
    entry.start_sector = (1, 0);
    assert_eq!(layout.read_file(&disk, &entry), Err(DiskError::CorruptChain));
}

#[test]
fn dangling_chain_pointer_is_reported_as_corrupt() {
    let layout = Commodore1541::default();
    let mut disk = formatted_disk();
    {
        let sector = disk.get_sector_mut((1, 0));
        sector.set_byte(0, 40);
        sector.set_byte(1, 0);
    }
    let mut entry = FileEntry::default();
    entry.start_sector = (1, 0);
    assert_eq!(layout.read_file(&disk, &entry), Err(DiskError::CorruptChain));
}

#[test]
fn file_entry_store_and_decode_round_trip() {
    let mut sector = d64::Sector::default();
    sector.initialize(256);
    let mut entry = FileEntry::default();
    entry.name = PetsciiString::from_string(&String::from("NOTES"));
    entry.file_type = FileType::Sequence;
    entry.num_sectors = 300;
    entry.start_sector = (17, 9);
    entry.store(&mut sector, 32);
    assert_eq!(sector.get_byte(34), 0x81);
    assert_eq!(sector.get_byte(35), 17);
    assert_eq!(sector.get_byte(36), 9);
    assert_eq!(sector.get_byte(62), 44);
    assert_eq!(sector.get_byte(63), 1);
    let bytes = sector.get_bytes(32, 32);
    let decoded = FileEntry::from_bytes(&bytes, ((18, 1), 1));
    assert_eq!(decoded.file_type, FileType::Sequence);
    assert_eq!(decoded.num_sectors, 300);
    assert_eq!(decoded.start_sector, (17, 9));
    assert_eq!(decoded.name.to_string(), "NOTES");
    entry.scratch(&mut sector, 32);
    assert_eq!(sector.get_byte(34), 0);
}

#[test]
fn unsupported_name_characters_become_padding() {
    let mut disk = formatted_disk();
    disk.set_name(&String::from("VOLUME 1"));
    assert_eq!(disk.get_name(), "VOLUME");
}

#[test]
fn per_track_free_counts_after_format() {
    let layout = Commodore1541::default();
    let disk = formatted_disk();
    let bam = layout.get_block_availability_map(&disk);
    assert_eq!(bam.count_unused_track_sectors(1), 21);
    assert_eq!(bam.count_unused_track_sectors(18), 17);
    assert_eq!(bam.count_unused_track_sectors(25), 18);
    assert_eq!(bam.count_unused_track_sectors(35), 17);
    assert_eq!(bam.count_unused_sectors(1, 17), 357);
    assert_eq!(bam.count_unused_sectors(1, 35), 681);
    assert_eq!(bam.count_unused_sectors(19, 18), 0);
}
