//! The state of a region as plain values, and what each operation makes of it.

use std::ops::Range;
use vstd::prelude::*;
use crate::allocator::{
    covers_gaps, free_after, is_top, top_of, wanted_end_after, FIRST_PAYLOAD_SECTOR,
};
use crate::chunk::{opened, read_outcome, write_outcome};
use crate::compression::CompressionType;
use crate::error::RegionError;
use crate::invariants::{
    cell_written, cells_apart, cells_sound, consistent, others_kept, partitioned,
};
use crate::layout::{claimed, image_after_write, is_oversized, sectors_wanted, CELLS, TABLE_BYTES};
use crate::memory_mapped_file::resized;
use crate::range_util::{all_positive, covers, separated};

verus! {

/// The state of a region.
pub struct RegionView {
    /// The bytes of the region file; `None` once the region is closed.
    pub image: Option<Seq<u8>>,
    /// How many bytes of the region file its map covers, while the region is
    /// open: as many as the file held when it was opened.
    pub mapped_len: Option<int>,
    /// The free ranges of sectors, in rising order.
    pub free: Seq<Range<u32>>,
    /// One past the highest sector that a payload holds or is planned to hold.
    pub wanted_end: u32,
    /// For each cell, the highest timestamp that a write to it has shown.
    pub last_seen: Seq<u32>,
    /// For each cell, the bytes of its overflow file where one is attached.
    pub overflow: Seq<Option<Seq<u8>>>,
    /// For each cell, how many bytes of its overflow file the map of that file
    /// covers, where one is attached.
    pub overflow_mapped: Seq<Option<int>>,
    /// The directory that holds the region file.
    pub directory: Seq<char>,
}

/// The bytes of a region file once it is open: what it held, filled up with
/// zero bytes to the length of the two tables where it was shorter.
pub open spec fn opened_image(contents: Seq<u8>) -> Seq<u8> {
    if contents.len() >= TABLE_BYTES {
        contents
    } else {
        resized(contents, TABLE_BYTES as int)
    }
}

/// The sectors that each cell claims in the header table, cell by cell.
pub open spec fn taken_of(image: Seq<u8>) -> Seq<Range<u32>> {
    Seq::new(CELLS as nat, |idx: int| claimed(image, idx))
}

/// The number of whole sectors in a file, as far as 32 bits count.
pub open spec fn file_sectors(image: Seq<u8>) -> int {
    if image.len() / 4096 > u32::MAX {
        u32::MAX as int
    } else {
        image.len() as int / 4096
    }
}

/// Whether the file can be opened as a region whose state is consistent: its
/// header table is sound for a planned space that ends with the file, and no
/// two cells claim one sector.
pub open spec fn sound_file(image: Seq<u8>) -> bool {
    &&& image.len() >= TABLE_BYTES
    &&& cells_sound(image, file_sectors(image))
    &&& cells_apart(image)
}

/// Whether a file holds nothing but, at most, zeroed tables: it is as new.
pub open spec fn fresh(contents: Seq<u8>) -> bool {
    &&& contents.len() <= TABLE_BYTES
    &&& forall|b: int| 0 <= b < contents.len() ==> contents[b] == 0
}

impl RegionView {
    /// The region has its 1024 cells, its file is no longer than this machine
    /// can address, and its free ranges are in normal form: each holds a
    /// sector, they rise, and a gap parts any two.
    pub open spec fn wf(self) -> bool {
        &&& self.last_seen.len() == CELLS
        &&& self.overflow.len() == CELLS
        &&& self.overflow_mapped.len() == CELLS
        &&& self.image matches Some(image) ==> image.len() <= usize::MAX
        &&& all_positive(self.free)
        &&& separated(self.free)
        &&& self.wanted_end >= FIRST_PAYLOAD_SECTOR
    }

    /// The region is open and its state is consistent.
    pub open spec fn consistent(self) -> bool {
        self.image matches Some(image) && consistent(image, self.free, self.wanted_end as int)
    }

    /// The region is open, and its free and claimed sectors are exactly the
    /// planned space behind the tables.
    pub open spec fn partitioned(self) -> bool {
        self.image matches Some(image) && partitioned(image, self.free, self.wanted_end as int)
    }

    /// What reading cell `idx` gives.
    pub open spec fn read(self, idx: int) -> Result<Option<Seq<u8>>, RegionError> {
        read_outcome(self.image, self.overflow[idx], idx)
    }

    /// Whether cell `idx` holds what an accepted write of `body` with
    /// `timestamp` and `codec` stores, in the region file and, for a body too
    /// long for it, in the cell's overflow file; the cell then reads as what
    /// decoding `body` gives.
    pub open spec fn holds_write(
        self,
        idx: int,
        timestamp: u32,
        codec: CompressionType,
        body: Seq<u8>,
    ) -> bool {
        self.image is Some && cell_written(
            self.image->0,
            self.overflow[idx],
            idx,
            timestamp,
            codec,
            body,
        )
    }

    /// Whether every cell but `idx` has the entries and the overflow file that
    /// it has in `other`, and reads as it reads there.
    pub open spec fn keeps_others(self, other: RegionView, idx: int) -> bool {
        &&& self.image is Some && other.image is Some ==> others_kept(
            other.image->0,
            self.image->0,
            idx,
        )
        &&& forall|cell: int|
            0 <= cell < CELLS && cell != idx ==> {
                &&& #[trigger] self.overflow[cell] == other.overflow[cell]
                &&& self.read(cell) == other.read(cell)
            }
    }

    /// Whether file, free sectors and overflow files, and the maps of the
    /// files, are those of `other`.
    pub open spec fn same_storage(self, other: RegionView) -> bool {
        &&& self.image == other.image
        &&& self.mapped_len == other.mapped_len
        &&& self.free == other.free
        &&& self.wanted_end == other.wanted_end
        &&& self.overflow == other.overflow
        &&& self.overflow_mapped == other.overflow_mapped
    }
}

/// Whether `out` and the state `post` are what opening a region over
/// `contents` gives.
///
/// Every cell must open; the first that does not stops the region from
/// opening, with `OutOfRange`. The gaps between the sectors that the cells
/// claim, up to the end of the last claimed range, become the free ranges; the
/// planned space ends where the claimed sectors or the file end, whichever is
/// later. The map covers the whole file. No cell has seen a timestamp or has
/// an overflow file attached.
pub open spec fn opens(
    contents: Seq<u8>,
    directory: Seq<char>,
    out: Result<RegionView, RegionError>,
) -> bool {
    let image = opened_image(contents);
    let taken = taken_of(image);
    match out {
        Ok(post) => {
            &&& post.wf()
            &&& post.image == Some(image)
            &&& post.directory == directory
            &&& forall|idx: int| 0 <= idx < CELLS ==> (#[trigger] opened(Some(image), idx)) is Ok
            &&& is_top(taken, top_of(taken))
            &&& post.wanted_end == if file_sectors(image) > top_of(taken) {
                file_sectors(image)
            } else {
                top_of(taken)
            }
            &&& covers_gaps(post.free, top_of(taken), taken)
            &&& post.mapped_len == Some(image.len() as int)
            &&& post.last_seen == Seq::new(CELLS as nat, |idx: int| 0u32)
            &&& post.overflow == Seq::new(CELLS as nat, |idx: int| None::<Seq<u8>>)
            &&& post.overflow_mapped == Seq::new(CELLS as nat, |idx: int| None::<int>)
        },
        Err(e) => {
            &&& e == RegionError::OutOfRange
            &&& exists|idx: int| 0 <= idx < CELLS && (#[trigger] opened(Some(image), idx)) is Err
        },
    }
}

/// How many bytes the map of a cell's overflow file covers after a body of
/// `len` bytes became the file's content: what it covered before, or all of
/// the file where the file was cut shorter than that or is a new one.
pub open spec fn overflow_mapped_after(mapped: Option<int>, len: int) -> int {
    match mapped {
        Some(mapped) => if mapped <= len {
            mapped
        } else {
            len
        },
        None => len,
    }
}

/// Whether `out` and the state `post` are what a write of `body` for cell
/// `idx` with `timestamp` makes of the state `pre`.
///
/// The cell remembers the highest timestamp shown to it. A write whose
/// timestamp is not above what the cell had seen succeeds and changes nothing
/// else. A write that fails changes nothing else either. Any other write
/// places the payload, stores it and the cell's entries in the file, frees the
/// sectors that the cell gives up, and, where the body is oversized, makes the
/// body the content of the cell's overflow file. No file is mapped anew: the
/// map of the region file stays as long as it was, and so does the map of an
/// attached overflow file, unless the file is cut shorter than its map.
pub open spec fn wrote(
    pre: RegionView,
    post: RegionView,
    idx: int,
    timestamp: u32,
    codec: CompressionType,
    body: Seq<u8>,
    out: Result<(), RegionError>,
) -> bool {
    &&& post.wf()
    &&& post.directory == pre.directory
    &&& post.last_seen == pre.last_seen.update(
        idx,
        if timestamp > pre.last_seen[idx] {
            timestamp
        } else {
            pre.last_seen[idx]
        },
    )
    &&& if timestamp <= pre.last_seen[idx] {
        out == Ok::<(), RegionError>(()) && post.same_storage(pre)
    } else {
        match write_outcome(pre.image, pre.free, pre.wanted_end, idx, body.len() as int) {
            Err(e) => out == Err::<(), RegionError>(e) && post.same_storage(pre),
            Ok(placed) => {
                &&& out == Ok::<(), RegionError>(())
                &&& post.image == Some(
                    image_after_write(pre.image->0, idx, placed, codec, body, timestamp),
                )
                &&& post.wanted_end == wanted_end_after(
                    pre.free,
                    pre.wanted_end,
                    claimed(pre.image->0, idx),
                    sectors_wanted(body.len() as int) as u32,
                )
                &&& forall|p: int|
                    #![trigger covers(post.free, p)]
                    covers(post.free, p) == free_after(
                        pre.free,
                        pre.wanted_end,
                        claimed(pre.image->0, idx),
                        sectors_wanted(body.len() as int) as u32,
                        p,
                    )
                &&& post.mapped_len == pre.mapped_len
                &&& post.overflow == if is_oversized(body.len() as int) {
                    pre.overflow.update(idx, Some(body))
                } else {
                    pre.overflow
                }
                &&& post.overflow_mapped == if is_oversized(body.len() as int) {
                    pre.overflow_mapped.update(
                        idx,
                        Some(overflow_mapped_after(pre.overflow_mapped[idx], body.len() as int)),
                    )
                } else {
                    pre.overflow_mapped
                }
            },
        }
    }
}

/// Whether the state `post` is what closing makes of the state `pre`: the file
/// and the overflow files are given up, and nothing else changes.
pub open spec fn closed(pre: RegionView, post: RegionView) -> bool {
    &&& post.wf()
    &&& post.image is None
    &&& post.mapped_len is None
    &&& post.free == pre.free
    &&& post.wanted_end == pre.wanted_end
    &&& post.last_seen == pre.last_seen
    &&& post.overflow == Seq::new(CELLS as nat, |idx: int| None::<Seq<u8>>)
    &&& post.overflow_mapped == Seq::new(CELLS as nat, |idx: int| None::<int>)
    &&& post.directory == pre.directory
}

/// Whether the state `post` is what attaching an overflow file with the
/// bytes `bytes`, of which its map covers `mapped`, to cell `idx` makes of the
/// state `pre`.
pub open spec fn attached(
    pre: RegionView,
    post: RegionView,
    idx: int,
    bytes: Seq<u8>,
    mapped: int,
) -> bool {
    &&& post.wf()
    &&& post.image == pre.image
    &&& post.mapped_len == pre.mapped_len
    &&& post.free == pre.free
    &&& post.wanted_end == pre.wanted_end
    &&& post.last_seen == pre.last_seen
    &&& post.overflow == pre.overflow.update(idx, Some(bytes))
    &&& post.overflow_mapped == pre.overflow_mapped.update(idx, Some(mapped))
    &&& post.directory == pre.directory
}

} // verus!
