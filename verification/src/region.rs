//! A region: its file, its grid of cells, and the free sectors of the file.

use std::ops::Range;
use vstd::prelude::*;
use crate::allocator::{top_of, MutableRegionMetadata};
use crate::chunk::{header_of, opened, Chunk, ChunkGuard, ChunkHeader};
use crate::compression::CompressionType;
use crate::error::RegionError;
use crate::layout::{claimed, entry_count, sectors_wanted, CELLS, TABLE_BYTES};
use crate::memory_mapped_file::MemoryMappedFile;
use crate::memory_util::{padding_len, zeros};
use crate::model::{
    attached, closed, file_sectors, fresh, opened_image, opens, sound_file, taken_of, wrote,
    RegionView,
};
use crate::region_file_util::{cell_index, get_chunk_region_coords, local_of, Coords};
use crate::region_key::RegionKey;

verus! {

/// What a region holds that no write replaces: its directory and its file.
/// The file is gone once the region is closed.
pub struct StaticRegionMetadata {
    pub directory: String,
    pub file: Option<MemoryMappedFile>,
}

impl StaticRegionMetadata {
    /// The bytes of the region file, while it is open.
    pub open spec fn image(&self) -> Option<Seq<u8>> {
        match self.file {
            Some(file) => Some(file@),
            None => None,
        }
    }

    /// How many bytes of the region file its map covers, while it is open.
    pub open spec fn mapped_len(&self) -> Option<int> {
        match self.file {
            Some(file) => Some(file.mapped_len()),
            None => None,
        }
    }
}

/// The index in the tables of the cell that holds the chunk at `chunk_coords`.
pub open spec fn index_of(chunk_coords: Coords) -> int {
    cell_index(local_of(chunk_coords.x as int), local_of(chunk_coords.z as int))
}

/// The index of a cell lies in the tables.
pub proof fn lemma_index_in_tables(chunk_coords: Coords)
    ensures
        0 <= index_of(chunk_coords) < CELLS,
{
    crate::region_file_util::lemma_coords_split(chunk_coords.x as int);
    crate::region_file_util::lemma_coords_split(chunk_coords.z as int);
}

/// A region: the region file, the free sectors of it, and the 1024 cells.
pub struct Region {
    static_metadata: StaticRegionMetadata,
    mutable_metadata: MutableRegionMetadata,
    chunks: Vec<ChunkGuard>,
}

impl View for Region {
    type V = RegionView;

    closed spec fn view(&self) -> RegionView {
        RegionView {
            image: self.static_metadata.image(),
            mapped_len: self.static_metadata.mapped_len(),
            free: self.mutable_metadata.free(),
            wanted_end: self.mutable_metadata.wanted_end(),
            last_seen: Seq::new(self.chunks@.len(), |idx: int| self.chunks@[idx].timestamp),
            overflow: Seq::new(self.chunks@.len(), |idx: int| self.chunks@[idx].chunk.overflow()),
            overflow_mapped: Seq::new(
                self.chunks@.len(),
                |idx: int| self.chunks@[idx].chunk.overflow_mapped(),
            ),
            directory: self.static_metadata.directory@,
        }
    }
}

impl Region {
    /// The region has its 1024 cells, and its free ranges are in normal form.
    pub open spec fn wf(&self) -> bool {
        self@.wf()
    }

    /// Opens a region over the bytes of its file.
    ///
    /// The file is filled up to the length of the two tables. Every cell is
    /// opened in the order of the tables; the first that cannot be opened
    /// stops the region from opening. The gaps between the sectors that the
    /// cells claim become the free ranges, and the planned space ends where
    /// the claimed sectors or the file end, whichever is later. No cell has
    /// seen a timestamp or has an overflow file attached.
    ///
    /// Over a sound file the region opens and is consistent; where that file
    /// ends with the last claimed sector, free and claimed sectors are exactly
    /// the planned space. A file that is as new is sound: over it the region
    /// opens with no free range and no sector planned behind the tables.
    pub fn new(key: &RegionKey, contents: Vec<u8>) -> (out: Result<Region, RegionError>)
        ensures
            match out {
                Ok(region) => opens(contents@, key.directory@, Ok(region@)),
                Err(e) => opens(contents@, key.directory@, Err(e)),
            },
            sound_file(opened_image(contents@)) ==> out is Ok,
            fresh(contents@) ==> (out matches Ok(region) && region@.partitioned()
                && region@.free.len() == 0 && region@.wanted_end == 2),
            out matches Ok(region) ==> region.wf(),
            out matches Ok(region) ==> (sound_file(opened_image(contents@))
                ==> region@.consistent()),
            out matches Ok(region) ==> (sound_file(opened_image(contents@)) && top_of(
                taken_of(opened_image(contents@)),
            ) == file_sectors(opened_image(contents@)) ==> region@.partitioned()),
    {
        let file: MemoryMappedFile = MemoryMappedFile::open_file(TABLE_BYTES, contents);
        let ghost image = file@;
        let ghost mapped = file.mapped_len();
        let size: usize = file.get_file_size();
        let sectors: u32 = if size / 4096 > u32::MAX as usize {
            u32::MAX
        } else {
            (size / 4096) as u32
        };
        let static_region_metadata = StaticRegionMetadata {
            directory: key.directory.clone(),
            file: Some(file),
        };
        let mut taken_ranges: Vec<Range<u32>> = Vec::new();
        let mut chunks: Vec<ChunkGuard> = Vec::new();
        let mut idx: usize = 0;
        while idx < CELLS
            invariant
                idx <= CELLS,
                static_region_metadata.image() == Some(image),
                static_region_metadata.mapped_len() == Some(mapped),
                mapped == image.len(),
                image == opened_image(contents@),
                TABLE_BYTES <= image.len() <= usize::MAX,
                chunks@.len() == idx,
                taken_ranges@.len() == idx,
                forall|j: int| 0 <= j < idx ==> (#[trigger] opened(Some(image), j)) is Ok,
                forall|j: int| 0 <= j < idx ==> #[trigger] taken_ranges@[j] == claimed(image, j),
                forall|j: int| 0 <= j < idx ==> (#[trigger] chunks@[j]).timestamp == 0,
                forall|j: int| 0 <= j < idx ==> (#[trigger] chunks@[j]).chunk.overflow() is None,
                forall|j: int|
                    0 <= j < idx ==> (#[trigger] chunks@[j]).chunk.overflow_mapped() is None,
            decreases CELLS - idx,
        {
            let x: i32 = (idx % 32) as i32;
            let z: i32 = (idx / 32) as i32;
            assert(cell_index(x as int, z as int) == idx);
            let (chunk, chunk_range) = match Chunk::new(Coords { x, z }, &static_region_metadata) {
                Ok(pair) => pair,
                Err(e) => {
                    proof {
                        assert(opened(Some(opened_image(contents@)), idx as int) is Err);
                        if fresh(contents@) {
                            crate::laws::lemma_fresh_is_sound(contents@);
                        }
                        if sound_file(opened_image(contents@)) {
                            crate::laws::lemma_sound_opens(opened_image(contents@), idx as int);
                        }
                    }
                    return Err(e);
                },
            };
            taken_ranges.push(chunk_range);
            chunks.push(ChunkGuard { chunk, timestamp: 0 });
            idx = idx + 1;
        }
        proof {
            assert(taken_ranges@ =~= taken_of(image));
        }
        let mutable_region_metadata = MutableRegionMetadata::new(taken_ranges, sectors);
        let region = Region {
            static_metadata: static_region_metadata,
            mutable_metadata: mutable_region_metadata,
            chunks,
        };
        proof {
            assert(region@.last_seen =~= Seq::new(CELLS as nat, |idx: int| 0u32));
            assert(region@.overflow =~= Seq::new(CELLS as nat, |idx: int| None::<Seq<u8>>));
            assert(region@.overflow_mapped =~= Seq::new(CELLS as nat, |idx: int| None::<int>));
            assert(opens(contents@, key.directory@, Ok(region@)));
            if sound_file(opened_image(contents@)) {
                crate::laws::lemma_open_consistent(contents@, key.directory@, region@);
            }
            if fresh(contents@) {
                crate::laws::lemma_open_fresh(contents@, key.directory@, region@, 0);
            }
        }
        Ok(region)
    }

    /// Closes the region: gives up every overflow file and the region file.
    /// Closing a closed region changes nothing.
    pub fn close(&mut self) -> (out: Result<(), RegionError>)
        requires
            old(self).wf(),
        ensures
            out is Ok,
            closed(old(self)@, final(self)@),
    {
        let mut idx: usize = 0;
        while idx < CELLS
            invariant
                idx <= CELLS,
                self.chunks@.len() == CELLS,
                self.mutable_metadata == old(self).mutable_metadata,
                self.static_metadata == old(self).static_metadata,
                forall|j: int|
                    0 <= j < CELLS ==> (#[trigger] self.chunks@[j]).timestamp
                        == old(self).chunks@[j].timestamp,
                forall|j: int| 0 <= j < idx ==> (#[trigger] self.chunks@[j]).chunk.overflow() is None,
                forall|j: int|
                    0 <= j < idx ==> (#[trigger] self.chunks@[j]).chunk.overflow_mapped() is None,
            decreases CELLS - idx,
        {
            let stamp: u32 = self.chunks[idx].timestamp;
            let (fresh, _) = Chunk::empty();
            self.chunks.set(idx, ChunkGuard { chunk: fresh, timestamp: stamp });
            idx = idx + 1;
        }
        self.static_metadata.file = None;
        proof {
            assert(self@.last_seen =~= old(self)@.last_seen);
            assert(self@.overflow =~= Seq::new(CELLS as nat, |idx: int| None::<Seq<u8>>));
            assert(self@.overflow_mapped =~= Seq::new(CELLS as nat, |idx: int| None::<int>));
        }
        Ok(())
    }

    /// Reads and decodes the payload of the chunk at `chunk_coords`:
    /// `Ok(None)` where its cell is empty.
    pub fn read_chunk(&self, chunk_coords: Coords) -> (out: Result<Option<Vec<u8>>, RegionError>)
        requires
            self.wf(),
        ensures
            match out {
                Ok(Some(bytes)) => self@.read(index_of(chunk_coords)) == Ok::<
                    Option<Seq<u8>>,
                    RegionError,
                >(Some(bytes@)),
                Ok(None) => self@.read(index_of(chunk_coords)) == Ok::<
                    Option<Seq<u8>>,
                    RegionError,
                >(None),
                Err(e) => self@.read(index_of(chunk_coords)) == Err::<
                    Option<Seq<u8>>,
                    RegionError,
                >(e),
            },
    {
        let chunk_region_coords: Coords = get_chunk_region_coords(chunk_coords);
        let idx: usize = chunk_region_coords.x as usize + chunk_region_coords.z as usize * 32;
        self.chunks[idx].chunk.read_chunk_data(chunk_region_coords, &self.static_metadata)
    }

    /// Writes a compressed payload for the chunk at `chunk_coords`.
    ///
    /// The cell remembers the highest timestamp shown to it. A write whose
    /// timestamp is not above what the cell had seen changes nothing else and
    /// succeeds. Any other write finds its sectors, writes the payload with
    /// `alignment_data` behind it, and then the cell's entries in the tables;
    /// the body of a payload that would fill more than 255 sectors becomes the
    /// content of the cell's overflow file. A write that fails leaves file,
    /// free sectors and overflow files as they were.
    ///
    /// No write lowers the timestamp that a cell has seen, and none changes
    /// what another cell has seen. A consistent region stays consistent, and
    /// every other cell of it stays as it was. In a consistent region an
    /// accepted write succeeds where the payload wants no more sectors than
    /// the cell holds, or the planned space ends within the first million
    /// sectors; once it has succeeded, the cell reads as what decoding `data`
    /// gives.
    pub fn write_chunk(
        &mut self,
        chunk_coords: Coords,
        timestamp: u32,
        data: &[u8],
        alignment_data: &[u8],
        compression_type: CompressionType,
    ) -> (out: Result<(), RegionError>)
        requires
            old(self).wf(),
            alignment_data@ == zeros(padding_len(data@.len() as int + 5, 4096)),
        ensures
            wrote(
                old(self)@,
                final(self)@,
                index_of(chunk_coords),
                timestamp,
                compression_type,
                data@,
                out,
            ),
            forall|cell: int|
                0 <= cell < CELLS ==> #[trigger] final(self)@.last_seen[cell]
                    >= old(self)@.last_seen[cell],
            forall|cell: int|
                0 <= cell < CELLS && cell != index_of(chunk_coords)
                    ==> #[trigger] final(self)@.last_seen[cell] == old(self)@.last_seen[cell],
            final(self)@.last_seen[index_of(chunk_coords)] == if timestamp
                > old(self)@.last_seen[index_of(chunk_coords)] {
                timestamp
            } else {
                old(self)@.last_seen[index_of(chunk_coords)]
            },
            old(self)@.consistent() ==> final(self)@.consistent(),
            old(self)@.partitioned() ==> final(self)@.partitioned(),
            old(self)@.consistent() ==> final(self)@.keeps_others(
                old(self)@,
                index_of(chunk_coords),
            ),
            old(self)@.consistent() && timestamp > old(self)@.last_seen[index_of(chunk_coords)]
                ==> match out {
                Ok(_) => final(self)@.holds_write(
                    index_of(chunk_coords),
                    timestamp,
                    compression_type,
                    data@,
                ),
                Err(_) => {
                    &&& sectors_wanted(data@.len() as int) > entry_count(
                        old(self)@.image->0,
                        index_of(chunk_coords),
                    )
                    &&& old(self)@.wanted_end + sectors_wanted(data@.len() as int) > 0xf_ffff
                },
            },
    {
        let chunk_region_coords: Coords = get_chunk_region_coords(chunk_coords);
        let idx: usize = chunk_region_coords.x as usize + chunk_region_coords.z as usize * 32;
        assert(idx == index_of(chunk_coords));
        if self.chunks[idx].timestamp >= timestamp {
            proof {
                assert(self@.last_seen =~= old(self)@.last_seen.update(
                    idx as int,
                    old(self)@.last_seen[idx as int],
                ));
            }
            return Ok(());
        }
        assert(old(self)@.overflow_mapped[idx as int]
            == self.chunks@[idx as int].chunk.overflow_mapped());
        let ghost before = self.chunks@;
        self.chunks[idx].timestamp = timestamp;
        assert(forall|j: int| 0 <= j < CELLS && j != idx ==> self.chunks@[j] == before[j]);
        assert(self.chunks@[idx as int].chunk == before[idx as int].chunk);
        let ghost between = self.chunks@;
        let out = self.chunks[idx].chunk.write_chunk_data(
            chunk_region_coords,
            &mut self.static_metadata,
            &mut self.mutable_metadata,
            timestamp,
            data,
            alignment_data,
            compression_type,
        );
        proof {
            assert(forall|j: int| 0 <= j < CELLS && j != idx ==> self.chunks@[j] == between[j]);
            assert(self.chunks@[idx as int].timestamp == timestamp);
            assert(self@.last_seen =~= old(self)@.last_seen.update(idx as int, timestamp));
            let new_overflow = self.chunks@[idx as int].chunk.overflow();
            assert(self@.overflow =~= old(self)@.overflow.update(idx as int, new_overflow));
            assert(old(self)@.overflow.update(idx as int, old(self)@.overflow[idx as int])
                =~= old(self)@.overflow);
            let new_mapped = self.chunks@[idx as int].chunk.overflow_mapped();
            assert(self@.overflow_mapped =~= old(self)@.overflow_mapped.update(
                idx as int,
                new_mapped,
            ));
            assert(old(self)@.overflow_mapped.update(
                idx as int,
                old(self)@.overflow_mapped[idx as int],
            ) =~= old(self)@.overflow_mapped);
            if self.static_metadata.file is Some {
                self.static_metadata.file->0.lemma_lengths();
            }
        }
        out
    }

    /// The entries of the chunk at `chunk_coords` in the two tables.
    pub fn header(&self, chunk_coords: Coords) -> (out: Result<ChunkHeader, RegionError>)
        requires
            self.wf(),
        ensures
            out == header_of(self@.image, index_of(chunk_coords)),
    {
        let chunk_region_coords: Coords = get_chunk_region_coords(chunk_coords);
        Chunk::read_header(chunk_region_coords, &self.static_metadata)
    }

    /// Whether reading the chunk at `chunk_coords` would fail for want of its
    /// overflow file.
    pub fn needs_overflow(&self, chunk_coords: Coords) -> (needed: bool)
        requires
            self.wf(),
        ensures
            needed == (self@.read(index_of(chunk_coords)) == Err::<Option<Seq<u8>>, RegionError>(
                RegionError::OverflowNotOpen,
            )),
    {
        let chunk_region_coords: Coords = get_chunk_region_coords(chunk_coords);
        let idx: usize = chunk_region_coords.x as usize + chunk_region_coords.z as usize * 32;
        self.chunks[idx].chunk.needs_overflow(chunk_region_coords, &self.static_metadata)
    }

    /// Attaches the overflow file of the chunk at `chunk_coords`.
    pub fn attach_overflow(&mut self, chunk_coords: Coords, file: MemoryMappedFile)
        requires
            old(self).wf(),
        ensures
            attached(
                old(self)@,
                final(self)@,
                index_of(chunk_coords),
                file@,
                file.mapped_len(),
            ),
    {
        let chunk_region_coords: Coords = get_chunk_region_coords(chunk_coords);
        let idx: usize = chunk_region_coords.x as usize + chunk_region_coords.z as usize * 32;
        let ghost before = self.chunks@;
        self.chunks[idx].chunk.attach_overflow(file);
        proof {
            assert(forall|j: int| 0 <= j < CELLS && j != idx ==> self.chunks@[j] == before[j]);
            assert(self.chunks@[idx as int].timestamp == before[idx as int].timestamp);
            assert(self@.last_seen =~= old(self)@.last_seen);
            assert(self@.overflow =~= old(self)@.overflow.update(idx as int, Some(file@)));
            assert(self@.overflow_mapped =~= old(self)@.overflow_mapped.update(
                idx as int,
                Some(file.mapped_len()),
            ));
        }
    }

    /// The region file, while the region is open.
    pub fn file(&self) -> (file: Option<&MemoryMappedFile>)
        ensures
            match file {
                Some(file) => self@.image == Some(file@) && self@.mapped_len == Some(
                    file.mapped_len(),
                ),
                None => self@.image is None,
            },
    {
        self.static_metadata.file.as_ref()
    }

    /// The overflow file of the chunk at `chunk_coords`, where one is attached.
    pub fn overflow_file(&self, chunk_coords: Coords) -> (file: Option<&MemoryMappedFile>)
        requires
            self.wf(),
        ensures
            match file {
                Some(file) => self@.overflow[index_of(chunk_coords)] == Some(file@)
                    && self@.overflow_mapped[index_of(chunk_coords)] == Some(file.mapped_len()),
                None => self@.overflow[index_of(chunk_coords)] is None,
            },
    {
        let chunk_region_coords: Coords = get_chunk_region_coords(chunk_coords);
        let idx: usize = chunk_region_coords.x as usize + chunk_region_coords.z as usize * 32;
        self.chunks[idx].chunk.overflow_file()
    }

    /// The directory that holds the region file.
    pub fn directory(&self) -> (directory: &String)
        ensures
            directory@ == self@.directory,
    {
        &self.static_metadata.directory
    }

    /// The free ranges of sectors, in rising order.
    pub fn free_ranges(&self) -> (ranges: &Vec<Range<u32>>)
        ensures
            ranges@ == self@.free,
    {
        self.mutable_metadata.free_ranges()
    }

    /// One past the highest sector that a payload holds or is planned to hold.
    pub fn wanted_space(&self) -> (end: u32)
        ensures
            end == self@.wanted_end,
    {
        self.mutable_metadata.wanted_space()
    }

    /// The highest timestamp that a write to the chunk at `chunk_coords` has
    /// shown.
    pub fn last_seen_timestamp(&self, chunk_coords: Coords) -> (timestamp: u32)
        requires
            self.wf(),
        ensures
            timestamp == self@.last_seen[index_of(chunk_coords)],
    {
        let chunk_region_coords: Coords = get_chunk_region_coords(chunk_coords);
        let idx: usize = chunk_region_coords.x as usize + chunk_region_coords.z as usize * 32;
        self.chunks[idx].timestamp
    }
}

} // verus!
