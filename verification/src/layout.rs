//! The bytes of a region file: the header table, the timestamp table, and the
//! payloads behind them.

use std::ops::Range;
use vstd::prelude::*;
use crate::compression::CompressionType;
use crate::error::RegionError;
use crate::memory_mapped_file::written;
use crate::memory_util::{be24, be24_bytes, be32, be32_bytes, padding_len, zeros};
use crate::region_file_util::{codec_of, marker_for, oversized_of};

verus! {

/// The number of bytes in a sector.
pub const SECTOR_SIZE: usize = 4096;

/// The number of cells in a region.
pub const CELLS: usize = 1024;

/// The number of bytes that the two tables take at the start of the file.
pub const TABLE_BYTES: usize = 8192;

/// The most sectors that a header-table entry can count.
pub const MAX_SECTOR_COUNT: u32 = 255;

/// The number of bytes in the header of a payload: four of length, one of
/// compression.
pub const PAYLOAD_HEADER_BYTES: usize = 5;

/// The start sector in the header-table entry of cell `idx`.
pub open spec fn entry_start(image: Seq<u8>, idx: int) -> int {
    be24(image[4 * idx], image[4 * idx + 1], image[4 * idx + 2])
}

/// The sector count in the header-table entry of cell `idx`.
pub open spec fn entry_count(image: Seq<u8>, idx: int) -> int {
    image[4 * idx + 3] as int
}

/// The entry of cell `idx` in the timestamp table.
pub open spec fn entry_timestamp(image: Seq<u8>, idx: int) -> int {
    be32(
        image[4096 + 4 * idx],
        image[4096 + 4 * idx + 1],
        image[4096 + 4 * idx + 2],
        image[4096 + 4 * idx + 3],
    )
}

/// The sectors that the header-table entry of cell `idx` claims.
pub open spec fn claimed(image: Seq<u8>, idx: int) -> Range<u32> {
    Range {
        start: entry_start(image, idx) as u32,
        end: (entry_start(image, idx) + entry_count(image, idx)) as u32,
    }
}

/// The length that the payload at sector `start` records: its compression
/// byte and its body together.
pub open spec fn payload_length(image: Seq<u8>, start: int) -> int {
    be32(
        image[start * 4096],
        image[start * 4096 + 1],
        image[start * 4096 + 2],
        image[start * 4096 + 3],
    )
}

/// The compression byte of the payload at sector `start`.
pub open spec fn payload_marker(image: Seq<u8>, start: int) -> u8 {
    image[start * 4096 + 4]
}

/// The body of the payload at sector `start`, as long as its header says.
pub open spec fn payload_body(image: Seq<u8>, start: int) -> Seq<u8> {
    image.subrange(start * 4096 + 5, start * 4096 + 4 + payload_length(image, start))
}

/// A decoding outcome as the outcome of a read.
pub open spec fn as_read(
    decoded: Result<Seq<u8>, RegionError>,
) -> Result<Option<Seq<u8>>, RegionError> {
    match decoded {
        Ok(bytes) => Ok(Some(bytes)),
        Err(e) => Err(e),
    }
}

/// What reading cell `idx` gives, from the bytes of the region file and the
/// bytes of the cell's overflow file where one is attached.
///
/// A cell whose entry counts no sector is empty. Otherwise the payload header
/// at the entry's start sector must lie in the file, else the read is
/// `OutOfRange`, and name a codec, else it is `BadCodec`. A payload marked as
/// oversized has its body in the overflow file, all of it, and without one the
/// read is `OverflowNotOpen`. Any other has its body behind its header, as
/// long as the header says; a length that does not count the compression byte
/// or that reaches past the end of the file is `OutOfRange`. The body is
/// decoded with the codec.
pub open spec fn stored(
    image: Seq<u8>,
    overflow: Option<Seq<u8>>,
    idx: int,
) -> Result<Option<Seq<u8>>, RegionError> {
    let start = entry_start(image, idx);
    if entry_count(image, idx) == 0 {
        Ok(None)
    } else if start * 4096 + 5 > image.len() {
        Err(RegionError::OutOfRange)
    } else {
        match codec_of(payload_marker(image, start)) {
            None => Err(RegionError::BadCodec),
            Some(codec) => if oversized_of(payload_marker(image, start)) {
                match overflow {
                    None => Err(RegionError::OverflowNotOpen),
                    Some(body) => as_read(codec.decompressed(body)),
                }
            } else if payload_length(image, start) < 1 || start * 4096 + 4 + payload_length(
                image,
                start,
            ) > image.len() {
                Err(RegionError::OutOfRange)
            } else {
                as_read(codec.decompressed(payload_body(image, start)))
            },
        }
    }
}

/// How many sectors a payload with a body of `len` bytes takes: header and
/// body, rounded up to whole sectors.
pub open spec fn sectors_for(len: int) -> int {
    (len + 5 + 4095) / 4096
}

/// Whether a body of `len` bytes is too long for a header-table entry to
/// count its sectors, so that it goes to an overflow file.
pub open spec fn is_oversized(len: int) -> bool {
    sectors_for(len) > MAX_SECTOR_COUNT
}

/// How many sectors a payload with a body of `len` bytes takes in the region
/// file: one, for the placeholder, where the body goes to an overflow file.
pub open spec fn sectors_wanted(len: int) -> int {
    if is_oversized(len) {
        1
    } else {
        sectors_for(len)
    }
}

/// The bytes of a payload in the region file: length, compression byte, body
/// and zero padding up to the sector boundary. An oversized payload is a
/// placeholder without body, marked by the high bit.
pub open spec fn payload_bytes(codec: CompressionType, body: Seq<u8>) -> Seq<u8> {
    if is_oversized(body.len() as int) {
        be32_bytes(1) + seq![marker_for(codec, true) as u8] + zeros(4091)
    } else {
        be32_bytes(body.len() as int + 1) + seq![marker_for(codec, false) as u8] + body + zeros(
            padding_len(body.len() as int + 5, 4096),
        )
    }
}

/// The bytes of a header-table entry.
pub open spec fn entry_bytes(start: int, count: int) -> Seq<u8> {
    be24_bytes(start) + seq![count as u8]
}

/// The bytes of the region file after a payload for cell `idx` was written at
/// the sectors `placed`: the payload first, then the cell's entry in the
/// timestamp table, and last its entry in the header table, by which readers
/// find the payload.
pub open spec fn image_after_write(
    image: Seq<u8>,
    idx: int,
    placed: Range<u32>,
    codec: CompressionType,
    body: Seq<u8>,
    timestamp: u32,
) -> Seq<u8> {
    let with_payload = written(image, placed.start * 4096, payload_bytes(codec, body));
    let with_timestamp = written(with_payload, 4096 + 4 * idx, be32_bytes(timestamp as int));
    written(with_timestamp, 4 * idx, entry_bytes(placed.start as int, placed.end - placed.start))
}

/// The sectors that an entry claims start below the sector limit and number
/// at most 255.
pub proof fn lemma_claimed_valid(image: Seq<u8>, idx: int)
    ensures
        claimed(image, idx).start == entry_start(image, idx),
        claimed(image, idx).end == entry_start(image, idx) + entry_count(image, idx),
        0 <= entry_start(image, idx) < 0x100_0000,
        0 <= entry_count(image, idx) <= 255,
{
}

/// A payload with a body of `len` bytes takes at least one sector; header,
/// body and padding fill its sectors exactly.
pub proof fn lemma_sectors_for(len: int)
    requires
        len >= 0,
    ensures
        sectors_for(len) >= 1,
        len + 5 + padding_len(len + 5, 4096) == sectors_for(len) * 4096,
        0 <= padding_len(len + 5, 4096) < 4096,
{
    crate::memory_util::lemma_padding_completes(len + 5, 4096);
    let n = len + 5;
    let pad = padding_len(n, 4096);
    assert((n + pad) % 4096 == 0);
    assert(n + pad == 4096 * ((n + pad) / 4096)) by {
        vstd::arithmetic::div_mod::lemma_fundamental_div_mod(n + pad, 4096);
    }
    let k = (n + pad) / 4096;
    assert((n + 4095) / 4096 == k) by {
        assert(n + 4095 == 4096 * k + (4095 - pad));
        vstd::arithmetic::div_mod::lemma_fundamental_div_mod_converse(
            n + 4095,
            4096,
            k,
            4095 - pad,
        );
    }
}

/// A body of exactly `k * 4096 - 5` bytes, for `k` from 1 to 255, takes `k`
/// sectors and no padding.
pub proof fn lemma_exact_fit(k: int)
    requires
        1 <= k <= 255,
    ensures
        sectors_for(k * 4096 - 5) == k,
        !is_oversized(k * 4096 - 5),
        sectors_wanted(k * 4096 - 5) == k,
        padding_len(k * 4096, 4096) == 0,
{
    let len = k * 4096 - 5;
    lemma_sectors_for(len);
    assert((k * 4096) % 4096 == 0) by {
        vstd::arithmetic::div_mod::lemma_mod_multiples_basic(k, 4096);
    }
    crate::memory_util::lemma_padding_completes(k * 4096, 4096);
}

/// A body is oversized exactly when it is longer than 255 sectors less the
/// payload header; its placeholder takes one sector.
pub proof fn lemma_oversized_threshold(len: int)
    requires
        len >= 0,
    ensures
        is_oversized(len) <==> len > 255 * 4096 - 5,
        is_oversized(len) ==> sectors_wanted(len) == 1,
        1 <= sectors_wanted(len) <= 255,
{
    lemma_sectors_for(len);
}

} // verus!
