use d64::Commodore1541;
use d64::Disk;
use d64::DiskError;
use d64::Layout;
use d64::Sector;
use d64::Track;

#[test]
fn geometry_of_the_supported_device() {
    let layout = Commodore1541::default();
    assert_eq!(layout.num_tracks(), 35);
    assert_eq!(layout.bytes_per_sector(), 256);
    assert_eq!(layout.num_sectors(1), 21);
    assert_eq!(layout.num_sectors(17), 21);
    assert_eq!(layout.num_sectors(18), 19);
    assert_eq!(layout.num_sectors(24), 19);
    assert_eq!(layout.num_sectors(25), 18);
    assert_eq!(layout.num_sectors(30), 18);
    assert_eq!(layout.num_sectors(31), 17);
    assert_eq!(layout.num_sectors(35), 17);
    assert_eq!(layout.num_sectors(0), 0);
    assert_eq!(layout.num_sectors(36), 0);
}

#[test]
fn image_holds_174848_bytes() {
    let disk = Disk::<Commodore1541>::new();
    let mut image: Vec<u8> = Vec::new();
    disk.write_to_writer(&mut image);
    assert_eq!(image.len(), 174848);
    assert!(image.iter().all(|b| *b == 0));
}

#[test]
fn sector_byte_operations() {
    let mut sector = Sector::default();
    sector.initialize(256);
    assert_eq!(sector.len(), 256);
    assert_eq!(sector.get_byte(0), 0);
    sector.set_byte(3, 7);
    assert_eq!(sector.get_byte(3), 7);
    sector.set_bytes(10, &[1, 2, 3]);
    assert_eq!(sector.get_bytes(9, 5), vec![0, 1, 2, 3, 0]);
    sector.fill(10, 13, 9);
    assert_eq!(sector.get_bytes(9, 5), vec![0, 9, 9, 9, 0]);
}

#[test]
fn sector_read_rejects_short_source() {
    let mut sector = Sector::default();
    sector.initialize(256);
    let short = vec![1u8; 100];
    assert_eq!(sector.read_from_reader(&short, 0), Err(DiskError::IncompleteImage));
    let full = vec![5u8; 300];
    assert_eq!(sector.read_from_reader(&full, 44), Ok(300));
    assert_eq!(sector.get_byte(0), 5);
}

#[test]
fn track_round_trip() {
    let mut track = Track::default();
    track.initialize(3, 8);
    assert_eq!(track.num_sectors(), 3);
    let source: Vec<u8> = (0..24).collect();
    assert_eq!(track.read_from_reader(&source, 0), Ok(24));
    let mut sink: Vec<u8> = Vec::new();
    track.write_to_writer(&mut sink);
    assert_eq!(sink, source);
    assert_eq!(track.get_sector(1).get_byte(0), 8);
}

#[test]
fn load_rejects_short_image() {
    let mut disk = Disk::<Commodore1541>::new();
    let short = vec![0u8; 174847];
    assert_eq!(disk.read_from_reader(&short), Err(DiskError::IncompleteImage));
}

#[test]
fn format_persist_load_round_trip() {
    let mut disk = Disk::<Commodore1541>::new();
    disk.format();
    let mut stream: Vec<u8> = Vec::new();
    disk.write_to_writer(&mut stream);
    assert_eq!(stream.len(), 174848);

    let mut loaded = Disk::<Commodore1541>::new();
    assert_eq!(loaded.read_from_reader(&stream), Ok(()));
    let mut second: Vec<u8> = Vec::new();
    loaded.write_to_writer(&mut second);
    assert_eq!(stream, second);
}

#[test]
fn format_writes_header_fields() {
    let mut disk = Disk::<Commodore1541>::new();
    disk.format();
    let header = disk.get_sector((18, 0));
    assert_eq!(header.get_byte(0), 18);
    assert_eq!(header.get_byte(1), 1);
    assert_eq!(header.get_byte(2), 65);
    assert_eq!(header.get_byte(3), 0);
    assert_eq!(header.get_bytes(144, 6), vec![78, 79, 78, 65, 77, 69]);
    assert_eq!(header.get_bytes(150, 10), vec![160; 10]);
    assert_eq!(header.get_byte(162), 48);
    assert_eq!(header.get_byte(163), 49);
    assert_eq!(header.get_byte(164), 160);
    assert_eq!(header.get_byte(165), 50);
    assert_eq!(header.get_byte(166), 65);
    let listing = disk.get_sector((18, 1));
    assert_eq!(listing.get_byte(0), 0);
    assert_eq!(listing.get_byte(1), 255);
    assert_eq!(disk.get_name(), "NONAME");
}

#[test]
fn get_sector_mut_changes_the_image() {
    let mut disk = Disk::<Commodore1541>::new();
    let sector = disk.get_sector_mut((2, 3));
    sector.set_byte(0, 42);
    assert_eq!(disk.get_sector((2, 3)).get_byte(0), 42);
    assert_eq!(disk.get_sector((2, 4)).get_byte(0), 0);
}
