//! A file held as its bytes, with a mapped prefix whose length is fixed when
//! the file is opened. Reads inside the prefix are served from the map; reads
//! that reach past it are served, for the part past it, by position from the
//! file, which may have grown since.

use std::ops::Range;
use vstd::prelude::*;
use crate::error::RegionError;
use crate::memory_util::zeros;
use crate::specialized_file::SpecializedFile;

verus! {

/// The bytes of a file after `bytes` were written at `start`: a file that ends
/// before `start` is first filled up with zero bytes, and one that ends inside
/// the written bytes grows to hold them.
pub open spec fn written(contents: Seq<u8>, start: int, bytes: Seq<u8>) -> Seq<u8> {
    let end = start + bytes.len();
    let len = if contents.len() > end { contents.len() as int } else { end };
    Seq::new(
        len as nat,
        |i: int|
            if start <= i < end {
                bytes[i - start]
            } else if i < contents.len() {
                contents[i]
            } else {
                0u8
            },
    )
}

/// The bytes of a file brought to the length `len`: cut off there, or filled
/// up with zero bytes.
pub open spec fn resized(contents: Seq<u8>, len: int) -> Seq<u8> {
    if len <= contents.len() {
        contents.subrange(0, len)
    } else {
        contents + zeros(len - contents.len())
    }
}

/// A write changes no byte outside the written range.
pub proof fn lemma_written_elsewhere(contents: Seq<u8>, start: int, bytes: Seq<u8>, i: int)
    requires
        0 <= start,
        0 <= i < contents.len(),
        i < start || i >= start + bytes.len(),
    ensures
        written(contents, start, bytes).len() >= contents.len(),
        written(contents, start, bytes)[i] == contents[i],
{
}

/// What was written can be read back.
pub proof fn lemma_written_there(contents: Seq<u8>, start: int, bytes: Seq<u8>)
    requires
        0 <= start,
    ensures
        written(contents, start, bytes).len() >= start + bytes.len(),
        written(contents, start, bytes).subrange(start, start + bytes.len()) == bytes,
{
    assert(written(contents, start, bytes).subrange(start, start + bytes.len()) =~= bytes);
}

/// An open file: its bytes, and how many of them the map covers.
pub struct MemoryMappedFile {
    data: Vec<u8>,
    memory_size: usize,
}

impl View for MemoryMappedFile {
    type V = Seq<u8>;

    closed spec fn view(&self) -> Seq<u8> {
        self.data@
    }
}

impl MemoryMappedFile {
    /// The length of the mapped prefix.
    pub closed spec fn mapped_len(&self) -> int {
        if self.memory_size <= self.data@.len() {
            self.memory_size as int
        } else {
            self.data@.len() as int
        }
    }

    /// The mapped prefix lies in the file, and the file is no longer than this
    /// machine can address.
    pub proof fn lemma_lengths(self)
        ensures
            0 <= self.mapped_len() <= self@.len() <= usize::MAX,
    {
        vstd::std_specs::vec::axiom_spec_len(&self.data);
    }

    /// Opens a file that holds `contents`, filled up with zero bytes to
    /// `initial_size` where it is shorter, and maps all of it.
    pub fn open_file(initial_size: usize, contents: Vec<u8>) -> (file: MemoryMappedFile)
        ensures
            file@ == if contents@.len() >= initial_size {
                contents@
            } else {
                resized(contents@, initial_size as int)
            },
            file.mapped_len() == file@.len(),
    {
        let mut data: Vec<u8> = contents;
        let ghost before = data@;
        if data.len() < initial_size {
            data.resize(initial_size, 0u8);
            assert(data@ =~= resized(before, initial_size as int));
        }
        let memory_size: usize = data.len();
        MemoryMappedFile { data, memory_size }
    }

    /// Gives the file up and hands out the bytes it held.
    pub fn close_file(self) -> (contents: Vec<u8>)
        ensures
            contents@ == self@,
    {
        self.data
    }

    /// The bytes the file holds now.
    pub fn as_slice(&self) -> (bytes: &[u8])
        ensures
            bytes@ == self@,
    {
        self.data.as_slice()
    }

    /// The number of bytes the file holds now.
    pub fn get_file_size(&self) -> (size: usize)
        ensures
            size == self@.len(),
    {
        self.data.len()
    }

    /// The number of bytes the map covers.
    pub fn get_mapped_size(&self) -> (size: usize)
        ensures
            size == self.mapped_len(),
            size <= self@.len(),
    {
        if self.memory_size <= self.data.len() {
            self.memory_size
        } else {
            self.data.len()
        }
    }

    /// Copies `len` bytes that start at `pos` out of the file, by position.
    fn read_at(&self, pos: usize, len: usize) -> (out: Result<Vec<u8>, RegionError>)
        ensures
            match out {
                Ok(bytes) => pos + len <= self@.len() && bytes@ == self@.subrange(
                    pos as int,
                    pos + len,
                ),
                Err(e) => pos + len > self@.len() && e == RegionError::OutOfRange,
            },
    {
        let size: usize = self.data.len();
        if pos > size || len > size - pos {
            return Err(RegionError::OutOfRange);
        }
        let mut out: Vec<u8> = Vec::new();
        let mut i: usize = 0;
        while i < len
            invariant
                i <= len,
                pos + len <= self.data@.len(),
                pos + len <= usize::MAX,
                out@ == self.data@.subrange(pos as int, pos + i),
            decreases len - i,
        {
            out.push(self.data[pos + i]);
            i = i + 1;
            assert(out@ =~= self.data@.subrange(pos as int, pos + i));
        }
        Ok(out)
    }

    /// Reads the bytes of `range`.
    ///
    /// A range inside the mapped prefix is served from the map. One that
    /// starts inside it and ends past it is served from the map up to the end
    /// of the prefix and by position from there. One that starts past it is
    /// served by position. The read fails with `OutOfRange` exactly when the
    /// range ends past the end of the file.
    pub fn read_file(&self, range: Range<usize>) -> (out: Result<Vec<u8>, RegionError>)
        requires
            range.start <= range.end,
        ensures
            match out {
                Ok(bytes) => range.end <= self@.len() && bytes@ == self@.subrange(
                    range.start as int,
                    range.end as int,
                ),
                Err(e) => range.end > self@.len() && e == RegionError::OutOfRange,
            },
    {
        let start: usize = range.start;
        let end: usize = range.end;
        let memory_size: usize = self.get_mapped_size();
        if end <= memory_size {
            let mapped: &[u8] = vstd::slice::slice_subrange(self.data.as_slice(), start, end);
            Ok(vstd::slice::slice_to_vec(mapped))
        } else if start <= memory_size {
            let mapped: &[u8] = vstd::slice::slice_subrange(
                self.data.as_slice(),
                start,
                memory_size,
            );
            let mut vector: Vec<u8> = vstd::slice::slice_to_vec(mapped);
            match self.read_at(memory_size, end - memory_size) {
                Ok(tail) => {
                    let ghost head = vector@;
                    vector.extend_from_slice(tail.as_slice());
                    assert(vector@ =~= self@.subrange(start as int, end as int));
                    Ok(vector)
                },
                Err(e) => Err(e),
            }
        } else {
            self.read_at(start, end - start)
        }
    }

    /// Writes `bytes` at `start`. Inside the mapped prefix the write goes
    /// through the map; past it, by position, and the file grows as far as
    /// the bytes reach. The map stays as it was.
    pub fn write_file(&mut self, start: usize, bytes: &[u8])
        requires
            start + bytes@.len() <= usize::MAX,
        ensures
            final(self)@ == written(old(self)@, start as int, bytes@),
            final(self).mapped_len() == old(self).mapped_len(),
    {
        let ghost before = self.data@;
        let len: usize = bytes.len();
        let end: usize = start + len;
        self.memory_size = self.get_mapped_size();
        if self.data.len() < end {
            self.data.resize(end, 0u8);
        }
        let ghost grown = self.data@;
        assert(grown.len() == if before.len() > end { before.len() } else { end as nat });
        assert(forall|k: int| 0 <= k < before.len() ==> grown[k] == before[k]);
        assert(forall|k: int| before.len() <= k < grown.len() ==> grown[k] == 0u8);
        let mut i: usize = 0;
        while i < len
            invariant
                i <= len,
                len == bytes@.len(),
                end == start + len,
                self.data@.len() == grown.len(),
                grown.len() >= end,
                self.memory_size <= before.len(),
                self.memory_size == old(self).mapped_len(),
                grown.len() == if before.len() > end { before.len() } else { end as nat },
                forall|k: int| 0 <= k < before.len() ==> grown[k] == before[k],
                forall|k: int| before.len() <= k < grown.len() ==> grown[k] == 0u8,
                forall|k: int| start <= k < start + i ==> self.data@[k] == bytes@[k - start],
                forall|k: int|
                    0 <= k < grown.len() && !(start <= k < start + i) ==> self.data@[k] == grown[k],
            decreases len - i,
        {
            self.data.set(start + i, bytes[i]);
            i = i + 1;
        }
        proof {
            let target = written(before, start as int, bytes@);
            assert(self.data@.len() == target.len());
            assert forall|k: int| 0 <= k < target.len() implies self.data@[k] == target[k] by {
                if start <= k < start + len {
                    assert(self.data@[k] == bytes@[k - start]);
                } else {
                    assert(self.data@[k] == grown[k]);
                }
            }
            assert(self.data@ =~= target);
        }
    }

    /// Brings the file to the length `len`: cuts it off there, or fills it up
    /// with zero bytes. A map that reached past the new end ends there.
    pub fn set_len(&mut self, len: usize)
        ensures
            final(self)@ == resized(old(self)@, len as int),
            final(self).mapped_len() == if old(self).mapped_len() <= len {
                old(self).mapped_len()
            } else {
                len as int
            },
    {
        let ghost before = self.data@;
        let mapped: usize = self.get_mapped_size();
        self.memory_size = if mapped <= len { mapped } else { len };
        self.data.resize(len, 0u8);
        assert(self.data@ =~= resized(before, len as int));
    }

    /// Fills the file up with zero bytes to the length `len` where it is
    /// shorter.
    pub fn ensure_len(&mut self, len: usize)
        ensures
            final(self)@ == if old(self)@.len() >= len {
                old(self)@
            } else {
                resized(old(self)@, len as int)
            },
            final(self).mapped_len() == old(self).mapped_len(),
    {
        let ghost before = self.data@;
        self.memory_size = self.get_mapped_size();
        if self.data.len() < len {
            self.data.resize(len, 0u8);
            assert(self.data@ =~= resized(before, len as int));
        }
    }
}

/// The file is held in memory: it serves positioned reads as its own
/// `read_file` does, never fails to close, and always knows its size.
impl SpecializedFile for MemoryMappedFile {
    open spec fn held(&self) -> Option<Seq<u8>> {
        Some(self@)
    }

    fn close_file(self) -> (result: Result<(), RegionError>) {
        Ok(())
    }

    fn read_file(&self, start: usize, buf: &mut Vec<u8>) -> (result: Result<(), RegionError>) {
        let len: usize = buf.len();
        let size: usize = MemoryMappedFile::get_file_size(self);
        if start > size || len > size - start {
            return Err(RegionError::OutOfRange);
        }
        match MemoryMappedFile::read_file(self, start..start + len) {
            Ok(bytes) => {
                *buf = bytes;
                Ok(())
            },
            Err(e) => Err(e),
        }
    }

    fn get_file_size(&self) -> (result: Result<usize, RegionError>) {
        Ok(MemoryMappedFile::get_file_size(self))
    }
}

} // verus!
