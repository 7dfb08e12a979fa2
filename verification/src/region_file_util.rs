//! Where a chunk lies: its region, its cell in the region, the cell's entry in
//! the header table, and what the bytes of an entry and of a payload header
//! mean.

use vstd::prelude::*;
use crate::compression::CompressionType;
use crate::memory_util::{be24_of, be32_of, u8x3_to_u32, u8x4_to_u32};

verus! {

/// A pair of coordinates on the chunk grid: of a chunk, of a region, or of a
/// cell inside a region.
#[derive(Clone, Copy, Debug, PartialEq, Eq, Structural)]
pub struct Coords {
    pub x: i32,
    pub z: i32,
}

/// The coordinate of the region that holds chunk coordinate `c`.
pub open spec fn region_of(c: int) -> int {
    c / 32
}

/// The coordinate inside its region of chunk coordinate `c`.
pub open spec fn local_of(c: int) -> int {
    c % 32
}

/// The index of cell `(x, z)` in the tables of a region.
pub open spec fn cell_index(x: int, z: int) -> int {
    x + z * 32
}

/// The codec that a compression byte names in its low seven bits.
pub open spec fn codec_of(compression_byte: u8) -> Option<CompressionType> {
    CompressionType::of_marker(compression_byte as int % 128)
}

/// Whether a compression byte says that the payload lives in an overflow file:
/// its high bit.
pub open spec fn oversized_of(compression_byte: u8) -> bool {
    compression_byte >= 128
}

/// The compression byte for a codec and an overflow flag.
pub open spec fn marker_for(codec: CompressionType, oversized: bool) -> int {
    codec.marker() + if oversized { 128int } else { 0int }
}

/// A chunk coordinate is made of its region's coordinate and its place in the
/// region, and the place is one of 32.
pub proof fn lemma_coords_split(c: int)
    ensures
        0 <= local_of(c) < 32,
        region_of(c) * 32 + local_of(c) == c,
{
    vstd::arithmetic::div_mod::lemma_fundamental_div_mod(c, 32);
}

/// The compression byte made for a codec and an overflow flag names that
/// codec and carries that flag.
pub proof fn lemma_marker_for(codec: CompressionType, oversized: bool)
    ensures
        0 < marker_for(codec, oversized) < 256,
        codec_of(marker_for(codec, oversized) as u8) == Some(codec),
        oversized_of(marker_for(codec, oversized) as u8) == oversized,
{
}

/// The region that holds the chunk at `chunk_coords`.
pub fn get_region_coords(chunk_coords: Coords) -> (region: Coords)
    ensures
        region.x == region_of(chunk_coords.x as int),
        region.z == region_of(chunk_coords.z as int),
{
    let x: i32 = chunk_coords.x;
    let z: i32 = chunk_coords.z;
    assert(x >> 5 == x / 32) by (bit_vector);
    assert(z >> 5 == z / 32) by (bit_vector);
    Coords { x: x >> 5, z: z >> 5 }
}

/// The cell that the chunk at `chunk_coords` has in its region.
pub fn get_chunk_region_coords(chunk_coords: Coords) -> (cell: Coords)
    ensures
        cell.x == local_of(chunk_coords.x as int),
        cell.z == local_of(chunk_coords.z as int),
        0 <= cell.x < 32,
        0 <= cell.z < 32,
{
    let x: i32 = chunk_coords.x;
    let z: i32 = chunk_coords.z;
    assert(x & 31 == x % 32) by (bit_vector);
    assert(z & 31 == z % 32) by (bit_vector);
    Coords { x: x & 31, z: z & 31 }
}

/// The byte at which the header-table entry of a cell starts.
pub fn get_chunk_location(chunk_region_coords: Coords) -> (location: i32)
    requires
        0 <= chunk_region_coords.x < 32,
        0 <= chunk_region_coords.z < 32,
    ensures
        location == 4 * cell_index(chunk_region_coords.x as int, chunk_region_coords.z as int),
        0 <= location < 4096,
{
    4 * ((chunk_region_coords.x) + (chunk_region_coords.z) * 32)
}

/// The sector at which a payload starts, from the first three bytes of its
/// header-table entry.
pub fn get_chunk_offset(offset_data: &[u8; 3]) -> (offset: u32)
    ensures
        offset == be24_of(offset_data@),
        offset < 0x100_0000,
{
    u8x3_to_u32(offset_data.as_slice())
}

/// The length that a payload header records: the compression byte and the
/// body together.
pub fn get_chunk_length(length_data: &[u8; 4]) -> (length: u32)
    ensures
        length == be32_of(length_data@),
{
    u8x4_to_u32(length_data.as_slice())
}

/// The timestamp in an entry of the timestamp table.
pub fn get_chunk_timestamp(timestamp_data: &[u8; 4]) -> (timestamp: u32)
    ensures
        timestamp == be32_of(timestamp_data@),
{
    u8x4_to_u32(timestamp_data.as_slice())
}

/// The codec that a compression byte names, whatever its high bit.
pub fn get_chunk_compression_type(compression_byte: u8) -> (codec: Option<CompressionType>)
    ensures
        codec == codec_of(compression_byte),
{
    assert(compression_byte & 127 == compression_byte % 128) by (bit_vector);
    CompressionType::from_u8(compression_byte & 127)
}

/// Whether a compression byte says that the payload lives in an overflow file.
pub fn get_oversized_status(compression_byte: u8) -> (oversized: bool)
    ensures
        oversized == oversized_of(compression_byte),
{
    assert((compression_byte & 128 != 0) == (compression_byte >= 128)) by (bit_vector);
    compression_byte & 128 != 0
}

/// The compression byte that names `codec` and carries the overflow flag.
pub fn compression_marker(codec: CompressionType, oversized: bool) -> (compression_byte: u8)
    ensures
        compression_byte == marker_for(codec, oversized),
        codec_of(compression_byte) == Some(codec),
        oversized_of(compression_byte) == oversized,
{
    let low: u8 = codec.to_u8();
    if oversized {
        assert(low < 128 ==> (low | 128) == low + 128) by (bit_vector);
        low | 128
    } else {
        low
    }
}

} // verus!
