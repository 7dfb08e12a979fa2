//! Storage engine for region files: a 32 x 32 grid of chunks, each stored as a
//! sector-aligned, compressed payload behind a fixed table of headers.
//!
//! A [`region::Region`] holds the bytes of one region file, the free sectors
//! of it and its 1024 cells. It is opened over the bytes that the file held,
//! read and written chunk by chunk, and closed; whoever owns the file on disk
//! stores there what a write changed. Payloads too long for the region file
//! live in overflow files, one for each chunk, which are attached to the
//! region when a read asks for them.
//!
//! [`model`] says what each operation makes of the state of a region, and
//! [`laws`] what holds of a region over any run of operations.

use vstd::prelude::*;

pub mod allocator;
pub mod chunk;
pub mod compression;
pub mod error;
pub mod file_name;
pub mod invariants;
pub mod laws;
pub mod layout;
pub mod memory_mapped_file;
pub mod memory_util;
pub mod model;
pub mod range_util;
pub mod region;
pub mod region_file_util;
pub mod region_key;
pub mod specialized_file;

use crate::compression::{level_in_range, CompressionType};
use crate::layout::CELLS;
use crate::error::RegionError;
use crate::memory_util::get_alignment_vector;
use crate::model::{closed, wrote};
use crate::region::{index_of, Region};
use crate::region_file_util::Coords;

verus! {

/// Closes a region: gives up its file and its overflow files.
pub fn close_region(region: &mut Region) -> (out: Result<(), RegionError>)
    requires
        old(region).wf(),
    ensures
        out is Ok,
        closed(old(region)@, final(region)@),
{
    region.close()
}

/// Reads the chunk at `coords` from its region and decodes it: `Ok(None)`
/// where the chunk's cell is empty.
pub fn read_chunk(region: &Region, coords: Coords) -> (out: Result<Option<Vec<u8>>, RegionError>)
    requires
        region.wf(),
    ensures
        match out {
            Ok(Some(bytes)) => region@.read(index_of(coords)) == Ok::<Option<Seq<u8>>, RegionError>(
                Some(bytes@),
            ),
            Ok(None) => region@.read(index_of(coords)) == Ok::<Option<Seq<u8>>, RegionError>(None),
            Err(e) => region@.read(index_of(coords)) == Err::<Option<Seq<u8>>, RegionError>(e),
        },
{
    region.read_chunk(coords)
}

/// Compresses `data` and writes it to its region as the chunk at `coords`.
///
/// A `compression_type` that marks no codec is `BadCodec`, a
/// `compression_level` that the codecs do not take is `BadLevel`; neither
/// changes the region. Otherwise the compressed bytes are written as
/// `Region::write_chunk` writes them.
///
/// A consistent region stays consistent, and every other cell of it stays as
/// it was. An accepted write to a consistent region succeeds while the planned
/// space ends within the first million sectors. Once it has succeeded, the
/// cell reads as what decoding the compressed bytes gives, which is `data`
/// where the codec is known to round-trip.
pub fn write_chunk(
    region: &mut Region,
    coords: Coords,
    timestamp: u32,
    data: &[u8],
    compression_type: u8,
    compression_level: i32,
) -> (out: Result<(), RegionError>)
    requires
        old(region).wf(),
    ensures
        match CompressionType::of_marker(compression_type as int) {
            None => out == Err::<(), RegionError>(RegionError::BadCodec) && final(region)@ == old(region)@,
            Some(codec) => match codec.compressed(data@, compression_level as int) {
                Err(e) => out == Err::<(), RegionError>(e) && final(region)@ == old(region)@,
                Ok(body) => wrote(
                    old(region)@,
                    final(region)@,
                    index_of(coords),
                    timestamp,
                    codec,
                    body,
                    out,
                ),
            },
        },
        forall|cell: int|
            0 <= cell < CELLS ==> #[trigger] final(region)@.last_seen[cell] >= old(region)@.last_seen[cell],
        old(region)@.consistent() ==> final(region)@.consistent(),
        old(region)@.partitioned() ==> final(region)@.partitioned(),
        old(region)@.consistent() ==> final(region)@.keeps_others(old(region)@, index_of(coords)),
        old(region)@.consistent() && timestamp > old(region)@.last_seen[index_of(coords)]
            && CompressionType::of_marker(compression_type as int) is Some && level_in_range(
            compression_level as int,
        ) ==> match out {
            Ok(_) => {
                let codec = CompressionType::of_marker(compression_type as int)->0;
                let body = codec.compressed(data@, compression_level as int)->Ok_0;
                &&& final(region)@.holds_write(index_of(coords), timestamp, codec, body)
                &&& codec.round_trips(data@) ==> final(region)@.read(index_of(coords)) == Ok::<
                    Option<Seq<u8>>,
                    RegionError,
                >(Some(data@))
            },
            Err(_) => old(region)@.wanted_end >= 0xf_ffff - 255,
        },
{
    let codec: CompressionType = match CompressionType::from_u8(compression_type) {
        None => {
            return Err(RegionError::BadCodec);
        },
        Some(codec) => codec,
    };
    let compressed_data: Vec<u8> = match codec.compress(data, compression_level) {
        Ok(bytes) => bytes,
        Err(e) => {
            return Err(e);
        },
    };
    let alignment_data: Vec<u8> = get_alignment_vector(compressed_data.len() % 4096 + 5, 4096);
    proof {
        let len = compressed_data@.len() as int;
        assert((len + 5) % 4096 == (len % 4096 + 5) % 4096) by {
            vstd::arithmetic::div_mod::lemma_add_mod_noop(len, 5, 4096);
            vstd::arithmetic::div_mod::lemma_add_mod_noop(len % 4096, 5, 4096);
            vstd::arithmetic::div_mod::lemma_mod_twice(len, 4096);
        }
    }
    region.write_chunk(
        coords,
        timestamp,
        compressed_data.as_slice(),
        alignment_data.as_slice(),
        codec,
    )
}

} // verus!
