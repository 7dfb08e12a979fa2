//! A cell of a region: reading its payload, and writing a new one.

use std::ops::Range;
use vstd::prelude::*;
use crate::allocator::{free_after, placement, wanted_end_after, MutableRegionMetadata};
use crate::compression::CompressionType;
use crate::error::RegionError;
use crate::invariants::{cell_written, consistent, others_kept, partitioned};
use crate::layout::{
    as_read, claimed, entry_count, entry_start, image_after_write, is_oversized, payload_body,
    payload_bytes, payload_length, sectors_wanted, stored,
};
use crate::memory_mapped_file::MemoryMappedFile;
use crate::memory_util::{padding_len, zeros};
use crate::model::overflow_mapped_after;
use crate::range_util::covers;
use crate::region::StaticRegionMetadata;
use crate::region_file_util::{
    cell_index, codec_of, get_chunk_compression_type, get_chunk_length, get_chunk_location,
    get_chunk_offset, get_chunk_timestamp, get_oversized_status, oversized_of, Coords,
};

verus! {

/// A cell of a region. It holds the cell's overflow file once one is attached
/// or written.
pub struct Chunk {
    data: Option<MemoryMappedFile>,
}

/// A cell together with the highest timestamp that a write to it has shown.
pub struct ChunkGuard {
    pub chunk: Chunk,
    pub timestamp: u32,
}

/// What opening cell `idx` over the bytes of a region file gives: the sectors
/// that the cell claims, or the error that stops it.
///
/// The cell's header-table entry must lie in the file. A cell whose entry is
/// zero is empty and claims nothing. For any other, the compression byte of
/// its payload must lie in the file.
pub open spec fn opened(image: Option<Seq<u8>>, idx: int) -> Result<Range<u32>, RegionError> {
    match image {
        None => Err(RegionError::NotOpen),
        Some(image) => if image.len() < 4 * idx + 4 {
            Err(RegionError::OutOfRange)
        } else if entry_start(image, idx) == 0 && entry_count(image, idx) == 0 {
            Ok(Range { start: 0, end: 0 })
        } else if entry_start(image, idx) * 4096 + 5 > image.len() {
            Err(RegionError::OutOfRange)
        } else {
            Ok(claimed(image, idx))
        },
    }
}

/// What reading cell `idx` gives, from a region file that may be closed or too
/// short to hold the cell's entry.
pub open spec fn read_outcome(
    image: Option<Seq<u8>>,
    overflow: Option<Seq<u8>>,
    idx: int,
) -> Result<Option<Seq<u8>>, RegionError> {
    match image {
        None => Err(RegionError::NotOpen),
        Some(image) => if image.len() < 4 * idx + 4 {
            Err(RegionError::OutOfRange)
        } else {
            stored(image, overflow, idx)
        },
    }
}

/// The header-table entry of a cell, read from the region file.
fn read_entry(file: &MemoryMappedFile, location: usize) -> (entry: Result<(u32, u8), RegionError>)
    requires
        location % 4 == 0,
        location < 4096,
    ensures
        match entry {
            Ok((start, count)) => {
                &&& file@.len() >= location + 4
                &&& start == entry_start(file@, location as int / 4)
                &&& count == entry_count(file@, location as int / 4)
            },
            Err(e) => file@.len() < location + 4 && e == RegionError::OutOfRange,
        },
{
    match file.read_file(location..location + 4) {
        Ok(bytes) => {
            let offset_data: [u8; 3] = [bytes[0], bytes[1], bytes[2]];
            let start: u32 = get_chunk_offset(&offset_data);
            let count: u8 = bytes[3];
            Ok((start, count))
        },
        Err(e) => Err(e),
    }
}

/// The entries of a cell in the two tables: where its payload starts, how
/// many sectors it takes, and the timestamp of the write that stored it.
#[derive(Clone, Copy, Debug, PartialEq, Eq, Structural)]
pub struct ChunkHeader {
    pub start_sector: u32,
    pub sector_count: u8,
    pub timestamp: u32,
}

/// What the two tables say of cell `idx`, from a region file that may be
/// closed or too short to hold the tables.
pub open spec fn header_of(image: Option<Seq<u8>>, idx: int) -> Result<ChunkHeader, RegionError> {
    match image {
        None => Err(RegionError::NotOpen),
        Some(image) => if image.len() < 4096 + 4 * idx + 4 {
            Err(RegionError::OutOfRange)
        } else {
            Ok(
                ChunkHeader {
                    start_sector: entry_start(image, idx) as u32,
                    sector_count: entry_count(image, idx) as u8,
                    timestamp: crate::layout::entry_timestamp(image, idx) as u32,
                },
            )
        },
    }
}

impl Chunk {
    /// The bytes of the cell's overflow file, where one is attached.
    pub closed spec fn overflow(&self) -> Option<Seq<u8>> {
        match self.data {
            Some(file) => Some(file@),
            None => None,
        }
    }

    /// How many bytes of the cell's overflow file the map of that file
    /// covers, where one is attached.
    pub closed spec fn overflow_mapped(&self) -> Option<int> {
        match self.data {
            Some(file) => Some(file.mapped_len()),
            None => None,
        }
    }

    /// Opens the cell at `chunk_region_coords` over the region file and says
    /// which sectors it claims. The overflow file is not looked for yet.
    pub fn new(
        chunk_region_coords: Coords,
        static_region_metadata: &StaticRegionMetadata,
    ) -> (out: Result<(Chunk, Range<u32>), RegionError>)
        requires
            0 <= chunk_region_coords.x < 32,
            0 <= chunk_region_coords.z < 32,
        ensures
            match out {
                Ok((chunk, taken)) => {
                    &&& opened(
                        static_region_metadata.image(),
                        cell_index(chunk_region_coords.x as int, chunk_region_coords.z as int),
                    ) == Ok::<Range<u32>, RegionError>(taken)
                    &&& chunk.overflow() is None
                    &&& chunk.overflow_mapped() is None
                },
                Err(e) => opened(
                    static_region_metadata.image(),
                    cell_index(chunk_region_coords.x as int, chunk_region_coords.z as int),
                ) == Err::<Range<u32>, RegionError>(e),
            },
    {
        let file: &MemoryMappedFile = match static_region_metadata.file.as_ref() {
            None => {
                return Err(RegionError::NotOpen);
            },
            Some(file) => file,
        };
        let location: usize = get_chunk_location(chunk_region_coords) as usize;
        let (offset, sectors) = match read_entry(file, location) {
            Ok(entry) => entry,
            Err(e) => {
                return Err(e);
            },
        };
        if offset == 0 && sectors == 0 {
            return Ok((Chunk { data: None }, 0..0));
        }
        let size: u64 = file.get_file_size() as u64;
        let file_offset: u64 = offset as u64 * 4096;
        if file_offset + 5 > size {
            return Err(RegionError::OutOfRange);
        }
        let at: usize = file_offset as usize;
        match file.read_file(at + 4..at + 5) {
            Ok(_) => Ok((Chunk { data: None }, offset..offset + sectors as u32)),
            Err(e) => Err(e),
        }
    }

    /// A cell without an overflow file, which claims no sector.
    pub fn empty() -> (out: (Chunk, Range<u32>))
        ensures
            out.0.overflow() is None,
            out.0.overflow_mapped() is None,
            out.1 == (Range { start: 0u32, end: 0u32 }),
    {
        (Chunk { data: None }, 0..0)
    }

    /// Attaches the cell's overflow file, for the payloads that are marked as
    /// living there.
    pub fn attach_overflow(&mut self, file: MemoryMappedFile)
        ensures
            final(self).overflow() == Some(file@),
            final(self).overflow_mapped() == Some(file.mapped_len()),
    {
        self.data = Some(file);
    }

    /// The cell's overflow file, where one is attached.
    pub fn overflow_file(&self) -> (file: Option<&MemoryMappedFile>)
        ensures
            match file {
                Some(file) => self.overflow() == Some(file@) && self.overflow_mapped() == Some(
                    file.mapped_len(),
                ),
                None => self.overflow() is None && self.overflow_mapped() is None,
            },
    {
        self.data.as_ref()
    }

    /// Reads the entries of the cell at `chunk_region_coords` in the two
    /// tables.
    pub fn read_header(
        chunk_region_coords: Coords,
        static_region_metadata: &StaticRegionMetadata,
    ) -> (out: Result<ChunkHeader, RegionError>)
        requires
            0 <= chunk_region_coords.x < 32,
            0 <= chunk_region_coords.z < 32,
        ensures
            out == header_of(
                static_region_metadata.image(),
                cell_index(chunk_region_coords.x as int, chunk_region_coords.z as int),
            ),
    {
        let file: &MemoryMappedFile = match &static_region_metadata.file {
            Some(file) => file,
            None => {
                return Err(RegionError::NotOpen);
            },
        };
        let location: usize = get_chunk_location(chunk_region_coords) as usize;
        let timestamp: u32 = match file.read_file(4096 + location..4096 + location + 4) {
            Ok(bytes) => {
                let timestamp_data: [u8; 4] = [bytes[0], bytes[1], bytes[2], bytes[3]];
                get_chunk_timestamp(&timestamp_data)
            },
            Err(e) => {
                return Err(e);
            },
        };
        match read_entry(file, location) {
            Ok((start_sector, sector_count)) => Ok(
                ChunkHeader { start_sector, sector_count, timestamp },
            ),
            Err(e) => Err(e),
        }
    }

    /// Whether reading the cell would fail for want of the overflow file: its
    /// payload is marked as oversized and no overflow file is attached.
    pub fn needs_overflow(
        &self,
        chunk_region_coords: Coords,
        static_region_metadata: &StaticRegionMetadata,
    ) -> (needed: bool)
        requires
            0 <= chunk_region_coords.x < 32,
            0 <= chunk_region_coords.z < 32,
        ensures
            needed == (read_outcome(
                static_region_metadata.image(),
                self.overflow(),
                cell_index(chunk_region_coords.x as int, chunk_region_coords.z as int),
            ) == Err::<Option<Seq<u8>>, RegionError>(RegionError::OverflowNotOpen)),
    {
        let file: &MemoryMappedFile = match &static_region_metadata.file {
            Some(file) => file,
            None => {
                return false;
            },
        };
        let location: usize = get_chunk_location(chunk_region_coords) as usize;
        let (offset, sectors) = match read_entry(file, location) {
            Ok(entry) => entry,
            Err(_) => {
                return false;
            },
        };
        let size: u64 = file.get_file_size() as u64;
        let file_offset: u64 = offset as u64 * 4096;
        if sectors == 0 || file_offset + 5 > size {
            return false;
        }
        let at: usize = file_offset as usize;
        let compression_byte: u8 = match file.read_file(at + 4..at + 5) {
            Ok(bytes) => bytes[0],
            Err(_) => {
                return false;
            },
        };
        let ghost idx = cell_index(chunk_region_coords.x as int, chunk_region_coords.z as int);
        proof {
            let decoded = read_outcome(static_region_metadata.image(), self.overflow(), idx);
            if codec_of(compression_byte) is Some {
                let codec = codec_of(compression_byte)->0;
                if oversized_of(compression_byte) {
                    if self.overflow() is Some {
                        let body = self.overflow()->0;
                        assert(decoded == as_read(codec.decompressed(body)));
                        crate::compression::lemma_decoding_errors(codec, body);
                    }
                } else if !(payload_length(file@, offset as int) < 1 || offset * 4096 + 4
                    + payload_length(file@, offset as int) > file@.len()) {
                    assert(decoded == as_read(
                        codec.decompressed(payload_body(file@, offset as int)),
                    ));
                    crate::compression::lemma_decoding_errors(
                        codec,
                        payload_body(file@, offset as int),
                    );
                }
            }
        }
        get_chunk_compression_type(compression_byte).is_some() && get_oversized_status(
            compression_byte,
        ) && self.data.is_none()
    }

    /// Reads the payload of the cell at `chunk_region_coords` and decodes it.
    ///
    /// `Ok(None)` for an empty cell. A payload marked as oversized is read
    /// from the attached overflow file, whole; without one the read fails
    /// with `OverflowNotOpen`.
    pub fn read_chunk_data(
        &self,
        chunk_region_coords: Coords,
        static_region_metadata: &StaticRegionMetadata,
    ) -> (out: Result<Option<Vec<u8>>, RegionError>)
        requires
            0 <= chunk_region_coords.x < 32,
            0 <= chunk_region_coords.z < 32,
        ensures
            match out {
                Ok(Some(bytes)) => read_outcome(
                    static_region_metadata.image(),
                    self.overflow(),
                    cell_index(chunk_region_coords.x as int, chunk_region_coords.z as int),
                ) == Ok::<Option<Seq<u8>>, RegionError>(Some(bytes@)),
                Ok(None) => read_outcome(
                    static_region_metadata.image(),
                    self.overflow(),
                    cell_index(chunk_region_coords.x as int, chunk_region_coords.z as int),
                ) == Ok::<Option<Seq<u8>>, RegionError>(None),
                Err(e) => read_outcome(
                    static_region_metadata.image(),
                    self.overflow(),
                    cell_index(chunk_region_coords.x as int, chunk_region_coords.z as int),
                ) == Err::<Option<Seq<u8>>, RegionError>(e),
            },
    {
        let file: &MemoryMappedFile = match &static_region_metadata.file {
            Some(file) => file,
            None => {
                return Err(RegionError::NotOpen);
            },
        };
        let location: usize = get_chunk_location(chunk_region_coords) as usize;
        let (offset, sectors) = match read_entry(file, location) {
            Ok(entry) => entry,
            Err(e) => {
                return Err(e);
            },
        };
        if sectors == 0 {
            return Ok(None);
        }
        let size: u64 = file.get_file_size() as u64;
        let file_offset: u64 = offset as u64 * 4096;
        if file_offset + 5 > size {
            return Err(RegionError::OutOfRange);
        }
        let at: usize = file_offset as usize;
        let chunk_header_data: Vec<u8> = match file.read_file(at..at + 5) {
            Ok(bytes) => bytes,
            Err(e) => {
                return Err(e);
            },
        };
        let compression_byte: u8 = chunk_header_data[4];
        let compression_type: CompressionType = match get_chunk_compression_type(
            compression_byte,
        ) {
            None => {
                return Err(RegionError::BadCodec);
            },
            Some(result) => result,
        };
        let oversized: bool = get_oversized_status(compression_byte);
        let compressed_data: Vec<u8> = if oversized {
            match &self.data {
                None => {
                    return Err(RegionError::OverflowNotOpen);
                },
                Some(overflow) => {
                    match overflow.read_file(0..overflow.get_file_size()) {
                        Ok(bytes) => {
                            assert(bytes@ =~= overflow@);
                            bytes
                        },
                        Err(e) => {
                            return Err(e);
                        },
                    }
                },
            }
        } else {
            let length_data: [u8; 4] = [
                chunk_header_data[0],
                chunk_header_data[1],
                chunk_header_data[2],
                chunk_header_data[3],
            ];
            let length: u64 = get_chunk_length(&length_data) as u64;
            if length < 1 || file_offset + 4 + length > size {
                return Err(RegionError::OutOfRange);
            }
            let end: usize = (file_offset + 4 + length) as usize;
            match file.read_file(at + 5..end) {
                Ok(bytes) => bytes,
                Err(e) => {
                    return Err(e);
                },
            }
        };
        match compression_type.decompress(compressed_data.as_slice()) {
            Ok(bytes) => Ok(Some(bytes)),
            Err(e) => Err(e),
        }
    }

    /// Makes `data` the content of the cell's overflow file. A file that is
    /// attached is cut or filled to the length of `data` and written through;
    /// its map stays, but ends with the file where the file is cut shorter.
    /// Where none is attached, a new file is opened over `data`.
    fn store_overflow(&mut self, data: &[u8])
        ensures
            final(self).overflow() == Some(data@),
            final(self).overflow_mapped() == Some(
                overflow_mapped_after(old(self).overflow_mapped(), data@.len() as int),
            ),
    {
        match &mut self.data {
            Some(overflow) => {
                overflow.set_len(data.len());
                overflow.write_file(0, data);
                assert(overflow@ =~= data@);
            },
            None => {
                self.data = Some(
                    MemoryMappedFile::open_file(data.len(), vstd::slice::slice_to_vec(data)),
                );
            },
        }
    }

    /// Finds the sectors for a payload that holds `current_start..current_end`
    /// and wants `wanted_sectors`, and brings the free set up to date.
    pub fn find_space_to_write(
        current_start: u32,
        current_end: u32,
        wanted_sectors: u32,
        mutable_region_metadata: &mut MutableRegionMetadata,
    ) -> (placed: Option<Range<u32>>)
        requires
            old(mutable_region_metadata).wf(),
            current_start <= current_end,
        ensures
            final(mutable_region_metadata).wf(),
            placed == placement(
                old(mutable_region_metadata).free(),
                old(mutable_region_metadata).wanted_end(),
                Range { start: current_start, end: current_end },
                wanted_sectors,
            ),
            final(mutable_region_metadata).wanted_end() == wanted_end_after(
                old(mutable_region_metadata).free(),
                old(mutable_region_metadata).wanted_end(),
                Range { start: current_start, end: current_end },
                wanted_sectors,
            ),
            placed is None ==> final(mutable_region_metadata).free() == old(mutable_region_metadata).free(),
            forall|p: int|
                #![trigger covers(final(mutable_region_metadata).free(), p)]
                covers(final(mutable_region_metadata).free(), p) == free_after(
                    old(mutable_region_metadata).free(),
                    old(mutable_region_metadata).wanted_end(),
                    Range { start: current_start, end: current_end },
                    wanted_sectors,
                    p,
                ),
    {
        mutable_region_metadata.allocate(current_start..current_end, wanted_sectors)
    }

    /// Writes a compressed payload for the cell at `chunk_region_coords`.
    ///
    /// The payload takes as many sectors as header and body fill, or one
    /// sector for a placeholder where they would fill more than 255; the body
    /// of such a payload becomes the content of the cell's overflow file. The
    /// sectors are found by the allocator. Payload header, body and
    /// `alignment_data` are written there, then the cell's timestamp, and last
    /// its header-table entry.
    ///
    /// Nothing is changed where the write fails: with `NotOpen` on a closed
    /// region, with `OutOfRange` where the file is too short to hold the
    /// cell's entry, with `Full` where the allocator finds no place.
    ///
    /// In a consistent state the write succeeds where the payload wants no
    /// more sectors than the cell holds, or the planned space ends within the
    /// first million sectors. A write that succeeds leaves the state
    /// consistent, the cell reading as what decoding `data` gives, and every
    /// other cell as it was.
    pub fn write_chunk_data(
        &mut self,
        chunk_region_coords: Coords,
        static_region_metadata: &mut StaticRegionMetadata,
        mutable_region_metadata: &mut MutableRegionMetadata,
        timestamp: u32,
        data: &[u8],
        alignment_data: &[u8],
        compression_type: CompressionType,
    ) -> (out: Result<(), RegionError>)
        requires
            0 <= chunk_region_coords.x < 32,
            0 <= chunk_region_coords.z < 32,
            old(mutable_region_metadata).wf(),
            alignment_data@ == zeros(padding_len(data@.len() as int + 5, 4096)),
        ensures
            final(mutable_region_metadata).wf(),
            final(static_region_metadata).directory == old(static_region_metadata).directory,
            final(static_region_metadata).mapped_len() == old(static_region_metadata).mapped_len(),
            final(self).overflow_mapped() == if write_outcome(
                old(static_region_metadata).image(),
                old(mutable_region_metadata).free(),
                old(mutable_region_metadata).wanted_end(),
                cell_index(chunk_region_coords.x as int, chunk_region_coords.z as int),
                data@.len() as int,
            ) is Ok && is_oversized(data@.len() as int) {
                Some(overflow_mapped_after(old(self).overflow_mapped(), data@.len() as int))
            } else {
                old(self).overflow_mapped()
            },
            match write_outcome(
                old(static_region_metadata).image(),
                old(mutable_region_metadata).free(),
                old(mutable_region_metadata).wanted_end(),
                cell_index(chunk_region_coords.x as int, chunk_region_coords.z as int),
                data@.len() as int,
            ) {
                Err(e) => {
                    &&& out == Err::<(), RegionError>(e)
                    &&& final(static_region_metadata).image() == old(static_region_metadata).image()
                    &&& final(mutable_region_metadata).free() == old(mutable_region_metadata).free()
                    &&& final(mutable_region_metadata).wanted_end()
                        == old(mutable_region_metadata).wanted_end()
                    &&& final(self).overflow() == old(self).overflow()
                },
                Ok(placed) => {
                    &&& out == Ok::<(), RegionError>(())
                    &&& final(static_region_metadata).image() == Some(
                        image_after_write(
                            old(static_region_metadata).image()->0,
                            cell_index(chunk_region_coords.x as int, chunk_region_coords.z as int),
                            placed,
                            compression_type,
                            data@,
                            timestamp,
                        ),
                    )
                    &&& final(mutable_region_metadata).wanted_end() == wanted_end_after(
                        old(mutable_region_metadata).free(),
                        old(mutable_region_metadata).wanted_end(),
                        claimed(
                            old(static_region_metadata).image()->0,
                            cell_index(chunk_region_coords.x as int, chunk_region_coords.z as int),
                        ),
                        sectors_wanted(data@.len() as int) as u32,
                    )
                    &&& forall|p: int|
                        #![trigger covers(final(mutable_region_metadata).free(), p)]
                        covers(final(mutable_region_metadata).free(), p) == free_after(
                            old(mutable_region_metadata).free(),
                            old(mutable_region_metadata).wanted_end(),
                            claimed(
                                old(static_region_metadata).image()->0,
                                cell_index(
                                    chunk_region_coords.x as int,
                                    chunk_region_coords.z as int,
                                ),
                            ),
                            sectors_wanted(data@.len() as int) as u32,
                            p,
                        )
                    &&& final(self).overflow() == if is_oversized(data@.len() as int) {
                        Some(data@)
                    } else {
                        old(self).overflow()
                    }
                },
            },
            old(static_region_metadata).image() is Some && consistent(
                old(static_region_metadata).image()->0,
                old(mutable_region_metadata).free(),
                old(mutable_region_metadata).wanted_end() as int,
            ) ==> match out {
                Ok(_) => {
                    &&& consistent(
                        final(static_region_metadata).image()->0,
                        final(mutable_region_metadata).free(),
                        final(mutable_region_metadata).wanted_end() as int,
                    )
                    &&& cell_written(
                        final(static_region_metadata).image()->0,
                        final(self).overflow(),
                        cell_index(chunk_region_coords.x as int, chunk_region_coords.z as int),
                        timestamp,
                        compression_type,
                        data@,
                    )
                    &&& others_kept(
                        old(static_region_metadata).image()->0,
                        final(static_region_metadata).image()->0,
                        cell_index(chunk_region_coords.x as int, chunk_region_coords.z as int),
                    )
                    &&& partitioned(
                        old(static_region_metadata).image()->0,
                        old(mutable_region_metadata).free(),
                        old(mutable_region_metadata).wanted_end() as int,
                    ) ==> partitioned(
                        final(static_region_metadata).image()->0,
                        final(mutable_region_metadata).free(),
                        final(mutable_region_metadata).wanted_end() as int,
                    )
                },
                Err(_) => {
                    &&& sectors_wanted(data@.len() as int) > entry_count(
                        old(static_region_metadata).image()->0,
                        cell_index(chunk_region_coords.x as int, chunk_region_coords.z as int),
                    )
                    &&& old(mutable_region_metadata).wanted_end() + sectors_wanted(
                        data@.len() as int,
                    ) > 0xf_ffff
                },
            },
    {
        let location: usize = get_chunk_location(chunk_region_coords) as usize;
        let ghost idx = cell_index(chunk_region_coords.x as int, chunk_region_coords.z as int);
        let ghost free = mutable_region_metadata.free();
        let ghost end = mutable_region_metadata.wanted_end();
        let file: &mut MemoryMappedFile = match &mut static_region_metadata.file {
            Some(file) => file,
            None => {
                return Err(RegionError::NotOpen);
            },
        };
        let ghost image = file@;
        let (offset, sectors) = match read_entry(file, location) {
            Ok(entry) => entry,
            Err(e) => {
                return Err(e);
            },
        };
        let len: usize = data.len();
        let oversized: bool = len > 255 * 4096 - 5;
        let wanted_sectors: u32 = if oversized {
            1
        } else {
            ((len + 5 + 4095) / 4096) as u32
        };
        proof {
            crate::layout::lemma_oversized_threshold(len as int);
            crate::layout::lemma_sectors_for(len as int);
        }
        proof {
            file.lemma_lengths();
            if consistent(image, free, end as int) && (wanted_sectors <= entry_count(image, idx)
                || end + wanted_sectors <= 0xf_ffff) {
                crate::invariants::lemma_place_found(image, free, end, idx, wanted_sectors);
            }
        }
        let placed: Range<u32> = match Chunk::find_space_to_write(
            offset,
            offset + sectors as u32,
            wanted_sectors,
            mutable_region_metadata,
        ) {
            Some(placed) => placed,
            None => {
                return Err(RegionError::Full);
            },
        };
        proof {
            crate::allocator::lemma_placement(
                old(mutable_region_metadata).free(),
                old(mutable_region_metadata).wanted_end(),
                claimed(image, idx),
                wanted_sectors,
            );
        }
        store_payload(file, location, &placed, compression_type, data, alignment_data, timestamp);
        if oversized {
            self.store_overflow(data);
        }
        proof {
            if consistent(image, free, end as int) {
                crate::invariants::lemma_write_keeps_consistent(
                    image,
                    free,
                    end,
                    idx,
                    compression_type,
                    data@,
                    timestamp,
                    placed,
                    mutable_region_metadata.free(),
                );
                crate::invariants::lemma_write_effect(
                    image,
                    free,
                    end,
                    idx,
                    compression_type,
                    data@,
                    timestamp,
                    placed,
                    self.overflow(),
                );
                if partitioned(image, free, end as int) {
                    crate::invariants::lemma_write_keeps_partitioned(
                        image,
                        free,
                        end,
                        idx,
                        compression_type,
                        data@,
                        timestamp,
                        placed,
                        mutable_region_metadata.free(),
                    );
                }
            }
        }
        Ok(())
    }
}

/// What the first steps of a write to cell `idx` decide: the sectors for the
/// payload, or the error that stops the write.
pub open spec fn write_outcome(
    image: Option<Seq<u8>>,
    free: Seq<Range<u32>>,
    wanted_end: u32,
    idx: int,
    len: int,
) -> Result<Range<u32>, RegionError> {
    match image {
        None => Err(RegionError::NotOpen),
        Some(image) => if image.len() < 4 * idx + 4 {
            Err(RegionError::OutOfRange)
        } else {
            match placement(free, wanted_end, claimed(image, idx), sectors_wanted(len) as u32) {
                None => Err(RegionError::Full),
                Some(placed) => Ok(placed),
            }
        },
    }
}

/// Writes a payload at the sectors `placed`, then the entry of the cell at
/// `location` in the timestamp table, and last its entry in the header table.
fn store_payload(
    file: &mut MemoryMappedFile,
    location: usize,
    placed: &Range<u32>,
    compression_type: CompressionType,
    data: &[u8],
    alignment_data: &[u8],
    timestamp: u32,
)
    requires
        location % 4 == 0,
        location < 4096,
        placed.end * 4096 <= usize::MAX,
        placed.start < 0x100_0000,
        placed.end == placed.start + sectors_wanted(data@.len() as int),
        alignment_data@ == zeros(padding_len(data@.len() as int + 5, 4096)),
    ensures
        final(file)@ == image_after_write(
            old(file)@,
            location as int / 4,
            *placed,
            compression_type,
            data@,
            timestamp,
        ),
        final(file).mapped_len() == old(file).mapped_len(),
{
    proof {
        crate::layout::lemma_oversized_threshold(data@.len() as int);
    }
    let payload: Vec<u8> = build_payload(compression_type, data, alignment_data);
    file.write_file(placed.start as usize * 4096, payload.as_slice());
    let entry: [u8; 3] = crate::memory_util::u32_to_u8x3(placed.start);
    let mut entry_data: Vec<u8> = vstd::slice::slice_to_vec(entry.as_slice());
    entry_data.push((placed.end - placed.start) as u8);
    assert(entry_data@ =~= crate::layout::entry_bytes(
        placed.start as int,
        placed.end - placed.start,
    ));
    let stamp: [u8; 4] = crate::memory_util::u32_to_u8x4(timestamp);
    file.write_file(4096 + location, stamp.as_slice());
    file.write_file(location, entry_data.as_slice());
}

/// Puts together the bytes of a payload: length, compression byte, body and
/// padding, or the placeholder of a payload too long for the region file.
fn build_payload(
    compression_type: CompressionType,
    data: &[u8],
    alignment_data: &[u8],
) -> (payload: Vec<u8>)
    requires
        alignment_data@ == zeros(padding_len(data@.len() as int + 5, 4096)),
    ensures
        payload@ == payload_bytes(compression_type, data@),
        payload@.len() == sectors_wanted(data@.len() as int) * 4096,
{
    let len: usize = data.len();
    proof {
        crate::layout::lemma_oversized_threshold(len as int);
        crate::layout::lemma_sectors_for(len as int);
        crate::memory_util::lemma_padding_completes(5, 4096);
    }
    if len > 255 * 4096 - 5 {
        let length: [u8; 4] = crate::memory_util::u32_to_u8x4(1);
        let mut payload: Vec<u8> = vstd::slice::slice_to_vec(length.as_slice());
        payload.push(crate::region_file_util::compression_marker(compression_type, true));
        let padding: Vec<u8> = crate::memory_util::get_alignment_vector(5, 4096);
        payload.extend_from_slice(padding.as_slice());
        assert(payload@ =~= payload_bytes(compression_type, data@));
        payload
    } else {
        let length: [u8; 4] = crate::memory_util::u32_to_u8x4((len + 1) as u32);
        let mut payload: Vec<u8> = vstd::slice::slice_to_vec(length.as_slice());
        payload.push(crate::region_file_util::compression_marker(compression_type, false));
        payload.extend_from_slice(data);
        payload.extend_from_slice(alignment_data);
        assert(payload@ =~= payload_bytes(compression_type, data@));
        payload
    }
}

} // verus!
