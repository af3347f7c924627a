//! One directory record: a 32-byte window inside a directory sector,
//! holding a type tag, the first sector of the file's chain, a fixed-width
//! PETSCII name and a little-endian sector count. Decode and encode are
//! pure offset arithmetic over that window.
use vstd::prelude::*;
use vstd::slice::slice_index_get;
use vstd::slice::slice_subrange;

use crate::petscii::PETSCII_NBSP;
use crate::petscii::PetsciiString;
use crate::sector::Sector;
use crate::types::SectorRef;

verus! {

/// Reference to a directory record: the directory sector holding it and
/// the slot index within that sector.
pub type FileListEntryRef = (SectorRef, usize);

/// The type tag of a directory record. `Scratched` marks a soft-deleted
/// slot that a later create may reuse.
#[derive(PartialEq, Eq, Debug, Copy, Clone, Structural)]
pub enum FileType {
    Scratched,
    Deleted,
    Sequence,
    Program,
    User,
    Relative,
}

/// The file type a stored tag byte stands for; unknown bytes read as a
/// scratched slot, as the drive itself treats them.
pub open spec fn spec_file_type_of(b: u8) -> FileType {
    if b == 0x80 {
        FileType::Deleted
    } else if b == 0x81 {
        FileType::Sequence
    } else if b == 0x82 {
        FileType::Program
    } else if b == 0x83 {
        FileType::User
    } else if b == 0x84 {
        FileType::Relative
    } else {
        FileType::Scratched
    }
}

/// The tag byte a file type is stored as.
pub open spec fn spec_file_type_byte(t: FileType) -> u8 {
    match t {
        FileType::Scratched => 0x00,
        FileType::Deleted => 0x80,
        FileType::Sequence => 0x81,
        FileType::Program => 0x82,
        FileType::User => 0x83,
        FileType::Relative => 0x84,
    }
}

/// A stored tag byte marks a live (not scratched) record.
pub open spec fn spec_slot_live(b: u8) -> bool {
    spec_file_type_of(b) != FileType::Scratched
}

impl FileType {
    /// Decode a stored tag byte.
    pub fn from_byte(b: u8) -> (t: FileType)
        ensures
            t == spec_file_type_of(b),
    {
        if b == 0x80 {
            FileType::Deleted
        } else if b == 0x81 {
            FileType::Sequence
        } else if b == 0x82 {
            FileType::Program
        } else if b == 0x83 {
            FileType::User
        } else if b == 0x84 {
            FileType::Relative
        } else {
            FileType::Scratched
        }
    }

    /// The tag byte this type is stored as.
    pub fn to_byte(self) -> (b: u8)
        ensures
            b == spec_file_type_byte(self),
    {
        match self {
            FileType::Scratched => 0x00,
            FileType::Deleted => 0x80,
            FileType::Sequence => 0x81,
            FileType::Program => 0x82,
            FileType::User => 0x83,
            FileType::Relative => 0x84,
        }
    }
}

impl Default for FileType {
    fn default() -> (t: FileType)
        ensures
            t == FileType::Program,
    {
        FileType::Program
    }
}

/// The mathematical content of one directory record.
pub struct FileEntryView {
    pub name: Seq<u8>,
    pub file_type: FileType,
    pub num_sectors: int,
    pub start_sector: SectorRef,
    pub file_entry_ref: (SectorRef, int),
}

/// One directory record, decoded. `file_entry_ref` remembers the slot it
/// was read from, so the record can be scratched later.
#[derive(Debug)]
pub struct FileEntry {
    pub name: PetsciiString,
    pub file_type: FileType,
    pub num_sectors: usize,
    pub start_sector: SectorRef,
    pub file_entry_ref: FileListEntryRef,
}

impl View for FileEntry {
    type V = FileEntryView;

    open spec fn view(&self) -> FileEntryView {
        FileEntryView {
            name: self.name@,
            file_type: self.file_type,
            num_sectors: self.num_sectors as int,
            start_sector: self.start_sector,
            file_entry_ref: (self.file_entry_ref.0, self.file_entry_ref.1 as int),
        }
    }
}

/// The record a 32-byte window decodes to.
pub open spec fn spec_entry_of_bytes(bytes: Seq<u8>, file_entry_ref: (SectorRef, int)) -> FileEntryView {
    FileEntryView {
        name: bytes.subrange(5, 21),
        file_type: spec_file_type_of(bytes[2]),
        num_sectors: bytes[31] * 256 + bytes[30],
        start_sector: (bytes[3], bytes[4]),
        file_entry_ref,
    }
}

impl Default for FileEntry {
    fn default() -> (e: FileEntry)
        ensures
            e@.name == Seq::<u8>::empty(),
            e@.file_type == FileType::Program,
            e@.num_sectors == 0,
            e@.start_sector == (0u8, 0u8),
            e@.file_entry_ref == ((0u8, 0u8), 0int),
    {
        FileEntry {
            name: PetsciiString::fixed_size(&[]),
            file_type: FileType::Program,
            num_sectors: 0,
            start_sector: (0, 0),
            file_entry_ref: ((0, 0), 0),
        }
    }
}

impl FileEntry {
    /// Decode the 32-byte record at a slot.
    pub fn from_bytes(bytes: &[u8], file_entry_ref: FileListEntryRef) -> (e: FileEntry)
        requires
            bytes@.len() == 32,
        ensures
            e@ == spec_entry_of_bytes(bytes@, (file_entry_ref.0, file_entry_ref.1 as int)),
            e.file_entry_ref == file_entry_ref,
    {
        let file_type = FileType::from_byte(*slice_index_get(bytes, 2));
        let start_sector = (*slice_index_get(bytes, 3), *slice_index_get(bytes, 4));
        let name = PetsciiString::fixed_size(slice_subrange(bytes, 5, 21));
        let num_blocks = (*slice_index_get(bytes, 31)) as usize * 256 + (*slice_index_get(
            bytes,
            30,
        )) as usize;
        FileEntry { name, file_type, num_sectors: num_blocks, start_sector, file_entry_ref }
    }

    /// Write this record into the 32-byte window at `offset`.
    pub fn store(&self, sector: &mut Sector, offset: usize)
        requires
            offset + 32 <= old(sector)@.len(),
            self@.num_sectors < 65536,
            self@.name.len() <= 16,
        ensures
            final(sector)@.len() == old(sector)@.len(),
            forall|i: int|
                0 <= i < old(sector)@.len() ==> final(sector)@[i] == (if i == offset + 2 {
                    spec_file_type_byte(self@.file_type)
                } else if i == offset + 3 {
                    self@.start_sector.0
                } else if i == offset + 4 {
                    self@.start_sector.1
                } else if offset + 5 <= i < offset + 5 + self@.name.len() {
                    self@.name[i - offset - 5]
                } else if offset + 5 + self@.name.len() <= i < offset + 21 {
                    PETSCII_NBSP
                } else if i == offset + 30 {
                    (self@.num_sectors % 256) as u8
                } else if i == offset + 31 {
                    (self@.num_sectors / 256) as u8
                } else {
                    old(sector)@[i]
                }),
    {
        let _len = sector.len();
        sector.set_byte(offset + 2, self.file_type.to_byte());
        sector.set_byte(offset + 3, self.start_sector.0);
        sector.set_byte(offset + 4, self.start_sector.1);
        sector.fill(offset + 5, offset + 21, PETSCII_NBSP);
        sector.set_bytes(offset + 5, self.name.as_slice());
        sector.set_byte(offset + 31, (self.num_sectors / 256) as u8);
        sector.set_byte(offset + 30, (self.num_sectors % 256) as u8);
    }

    /// Soft-delete the record at `offset`: zero everything but the chain
    /// pointer bytes, leaving the slot scratched and reusable.
    pub fn scratch(&self, sector: &mut Sector, offset: usize)
        requires
            offset + 32 <= old(sector)@.len(),
        ensures
            final(sector)@.len() == old(sector)@.len(),
            forall|i: int|
                0 <= i < old(sector)@.len() ==> final(sector)@[i] == (if offset + 2 <= i < offset
                    + 32 {
                    0u8
                } else {
                    old(sector)@[i]
                }),
    {
        let _len = sector.len();
        sector.fill(offset + 2, offset + 32, 0);
    }

    /// A fresh record holding the same fields.
    pub fn duplicate(&self) -> (e: FileEntry)
        ensures
            e@ == self@,
    {
        FileEntry {
            name: self.name.duplicate(),
            file_type: self.file_type,
            num_sectors: self.num_sectors,
            start_sector: self.start_sector,
            file_entry_ref: self.file_entry_ref,
        }
    }
}

} // verus!
