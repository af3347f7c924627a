//! One fixed-size block of raw bytes. A sector has no semantics of its own:
//! headers, directory records and the availability map are imposed by the
//! layout at fixed offsets.
use vstd::prelude::*;
use vstd::slice::slice_index_get;
use vstd::slice::slice_to_vec;

use crate::types::DiskError;

verus! {

/// Fixed-size byte buffer, bounds-checked. Mutated in place and never
/// resized after [`Sector::initialize`].
pub struct Sector {
    data: Vec<u8>,
}

impl View for Sector {
    type V = Seq<u8>;

    closed spec fn view(&self) -> Seq<u8> {
        self.data@
    }
}

impl Default for Sector {
    fn default() -> (s: Sector)
        ensures
            s@ == Seq::<u8>::empty(),
    {
        Sector { data: Vec::new() }
    }
}

impl Sector {
    /// Resize to exactly `data_len` bytes, all zero.
    pub fn initialize(&mut self, data_len: usize)
        ensures
            final(self)@.len() == data_len,
            forall|i: int| 0 <= i < data_len ==> final(self)@[i] == 0u8,
    {
        let mut data: Vec<u8> = Vec::new();
        for i in 0..data_len
            invariant
                data@.len() == i,
                forall|j: int| 0 <= j < i ==> data@[j] == 0u8,
        {
            data.push(0);
        }
        self.data = data;
    }

    /// Fill the whole sector from `source`, starting at `pos`; fails without
    /// mutation when fewer bytes remain than the sector holds.
    pub fn read_from_reader(&mut self, source: &[u8], pos: usize) -> (r: Result<
        usize,
        DiskError,
    >)
        ensures
            r is Ok <==> pos + old(self)@.len() <= source@.len(),
            r is Ok ==> r->Ok_0 == pos + old(self)@.len() && final(self)@ == source@.subrange(
                pos as int,
                pos + old(self)@.len(),
            ),
            r is Err ==> r->Err_0 == DiskError::IncompleteImage && final(self)@ == old(self)@,
    {
        let count = self.data.len();
        if pos > source.len() || source.len() - pos < count {
            return Err(DiskError::IncompleteImage);
        }
        let end = pos + count;
        let mut data: Vec<u8> = Vec::new();
        for i in 0..count
            invariant
                pos + count == end,
                end <= source@.len(),
                count == old(self)@.len(),
                data@ =~= source@.subrange(pos as int, pos + i),
        {
            data.push(*slice_index_get(source, pos + i));
            assert(data@ =~= source@.subrange(pos as int, pos + i + 1));
        }
        self.data = data;
        Ok(pos + count)
    }

    /// Append the sector's bytes to `sink`.
    pub fn write_to_writer(&self, sink: &mut Vec<u8>)
        ensures
            final(sink)@ == old(sink)@ + self@,
    {
        let count = self.data.len();
        for i in 0..count
            invariant
                count == self@.len(),
                sink@ =~= old(sink)@ + self@.subrange(0, i as int),
        {
            let b = self.data[i];
            sink.push(b);
            assert(sink@ =~= old(sink)@ + self@.subrange(0, i + 1));
        }
        assert(self@.subrange(0, count as int) =~= self@);
    }

    pub fn get_byte(&self, offset: usize) -> (b: u8)
        requires
            offset < self@.len(),
        ensures
            b == self@[offset as int],
    {
        self.data[offset]
    }

    pub fn set_byte(&mut self, offset: usize, byte: u8)
        requires
            offset < old(self)@.len(),
        ensures
            final(self)@ == old(self)@.update(offset as int, byte),
    {
        self.data[offset] = byte;
    }

    /// Copy `count` bytes out, starting at `offset`.
    pub fn get_bytes(&self, offset: usize, count: usize) -> (r: Vec<u8>)
        requires
            offset + count <= self@.len(),
        ensures
            r@ == self@.subrange(offset as int, offset + count),
    {
        let n = self.data.len();
        let mut r: Vec<u8> = Vec::new();
        for i in 0..count
            invariant
                offset + count <= n,
                n == self@.len(),
                r@ =~= self@.subrange(offset as int, offset + i),
        {
            r.push(self.data[offset + i]);
            assert(r@ =~= self@.subrange(offset as int, offset + i + 1));
        }
        r
    }

    /// Write `bytes` into the sector, starting at `offset`.
    pub fn set_bytes(&mut self, offset: usize, bytes: &[u8])
        requires
            offset + bytes@.len() <= old(self)@.len(),
        ensures
            final(self)@.len() == old(self)@.len(),
            forall|i: int|
                0 <= i < old(self)@.len() ==> final(self)@[i] == (if offset <= i < offset
                    + bytes@.len() {
                    bytes@[i - offset]
                } else {
                    old(self)@[i]
                }),
    {
        let count = bytes.len();
        let n = self.data.len();
        for i in 0..count
            invariant
                count == bytes@.len(),
                offset + count <= n,
                n == self@.len(),
                self@.len() == old(self)@.len(),
                forall|j: int|
                    0 <= j < self@.len() ==> self@[j] == (if offset <= j < offset + i {
                        bytes@[j - offset]
                    } else {
                        old(self)@[j]
                    }),
        {
            self.data[offset + i] = *slice_index_get(bytes, i);
        }
    }

    /// Set every byte in `start_offset..end_offset` to `byte`; an empty
    /// range is a no-op whatever the offsets.
    pub fn fill(&mut self, start_offset: usize, end_offset: usize, byte: u8)
        requires
            start_offset >= end_offset || end_offset <= old(self)@.len(),
        ensures
            final(self)@.len() == old(self)@.len(),
            forall|i: int|
                0 <= i < old(self)@.len() ==> final(self)@[i] == (if start_offset <= i
                    < end_offset {
                    byte
                } else {
                    old(self)@[i]
                }),
    {
        if start_offset >= end_offset {
            return ;
        }
        let mut offset = start_offset;
        while offset < end_offset
            invariant
                start_offset <= offset <= end_offset <= self@.len(),
                self@.len() == old(self)@.len(),
                forall|j: int|
                    0 <= j < self@.len() ==> self@[j] == (if start_offset <= j < offset {
                        byte
                    } else {
                        old(self)@[j]
                    }),
            decreases end_offset - offset,
        {
            self.data[offset] = byte;
            offset = offset + 1;
        }
    }

    pub fn as_slice(&self) -> (r: &[u8])
        ensures
            r@ == self@,
    {
        self.data.as_slice()
    }

    pub fn len(&self) -> (n: usize)
        ensures
            n == self@.len(),
    {
        self.data.len()
    }

    /// A fresh sector holding the same bytes.
    pub fn duplicate(&self) -> (r: Sector)
        ensures
            r@ == self@,
    {
        Sector { data: slice_to_vec(self.data.as_slice()) }
    }
}

} // verus!
