//! The three codecs a payload can be stored with, and the byte that marks each.

use vstd::prelude::*;
use crate::error::RegionError;

verus! {

/// How a chunk's payload is encoded.
#[derive(Clone, Copy, Debug, PartialEq, Eq, Structural)]
pub enum CompressionType {
    Gzip,
    Zlib,
    Uncompressed,
}

/// What gzip compression at `level` makes of `data`.
pub uninterp spec fn gzip_compressed(data: Seq<u8>, level: int) -> Seq<u8>;

/// What zlib compression at `level` makes of `data`.
pub uninterp spec fn zlib_compressed(data: Seq<u8>, level: int) -> Seq<u8>;

/// What inflating the gzip stream `data` into a buffer of `capacity` bytes
/// yields, or `None` where the stream is rejected or does not fit.
pub uninterp spec fn gzip_decoded(data: Seq<u8>, capacity: int) -> Option<Seq<u8>>;

/// What inflating the zlib stream `data` yields, or `None` where it is rejected.
pub uninterp spec fn zlib_decoded(data: Seq<u8>) -> Option<Seq<u8>>;

/// The lowest compression level the codecs take.
pub const MIN_COMPRESSION_LEVEL: i32 = 0;

/// The highest compression level the codecs take.
pub const MAX_COMPRESSION_LEVEL: i32 = 12;

/// Whether `level` is a compression level the codecs take.
pub open spec fn level_in_range(level: int) -> bool {
    MIN_COMPRESSION_LEVEL <= level <= MAX_COMPRESSION_LEVEL
}

/// The size a gzip stream records for its content: the last four bytes, least
/// significant first.
pub open spec fn gzip_recorded_size(data: Seq<u8>) -> int
    recommends
        data.len() >= 4,
{
    let at = data.len() - 4;
    data[at] as int + data[at + 1] as int * 256 + data[at + 2] as int * 65536 + data[at + 3] as int
        * 16777216
}

/// Calls `libdeflater::CompressionLvl::new` and reports whether it accepted
/// `level`. Trusted: it accepts exactly the levels from 0 to 12.
#[verifier::external_body]
fn level_accepted(level: i32) -> (accepted: bool)
    ensures
        accepted == level_in_range(level as int),
{
    libdeflater::CompressionLvl::new(level).is_ok()
}

/// Calls `libdeflater::Compressor::gzip_compress` on a compressor made for
/// `level`, with an output buffer of the size `gzip_compress_bound` gives.
/// Trusted: the bytes written depend on `data` and `level` alone, and a buffer
/// of that size is never too small; the stream ends with the length of `data`
/// in 32 bits, least significant byte first; and inflating the stream into a
/// buffer as long as `data` gives `data` back.
#[verifier::external_body]
fn gzip_compress(data: &[u8], level: i32) -> (out: Vec<u8>)
    requires
        level_in_range(level as int),
    ensures
        out@ == gzip_compressed(data@, level as int),
        out@.len() >= 4,
        gzip_recorded_size(out@) == data@.len() % 0x1_0000_0000,
        gzip_decoded(out@, data@.len() as int) == Some(data@),
{
    let mut compressor = libdeflater::Compressor::new(libdeflater::CompressionLvl::new(level).unwrap());
    let mut out = vec![0u8; compressor.gzip_compress_bound(data.len())];
    let written = compressor.gzip_compress(data, &mut out).unwrap();
    out.truncate(written);
    out
}

/// Calls `libdeflater::Compressor::zlib_compress` on a compressor made for
/// `level`, with an output buffer of the size `zlib_compress_bound` gives.
/// Trusted: the bytes written depend on `data` and `level` alone, and a buffer
/// of that size is never too small.
#[verifier::external_body]
fn zlib_compress(data: &[u8], level: i32) -> (out: Vec<u8>)
    requires
        level_in_range(level as int),
    ensures
        out@ == zlib_compressed(data@, level as int),
{
    let mut compressor = libdeflater::Compressor::new(libdeflater::CompressionLvl::new(level).unwrap());
    let mut out = vec![0u8; compressor.zlib_compress_bound(data.len())];
    let written = compressor.zlib_compress(data, &mut out).unwrap();
    out.truncate(written);
    out
}

/// Calls `libdeflater::Decompressor::gzip_decompress` with an output buffer of
/// `capacity` zero bytes and keeps the bytes it reports as written. Trusted:
/// the outcome depends on `data` and `capacity` alone.
#[verifier::external_body]
fn gzip_decompress(data: &[u8], capacity: usize) -> (out: Option<Vec<u8>>)
    ensures
        match out {
            Some(bytes) => gzip_decoded(data@, capacity as int) == Some(bytes@),
            None => gzip_decoded(data@, capacity as int) is None,
        },
{
    let mut buffer = vec![0u8; capacity];
    match libdeflater::Decompressor::new().gzip_decompress(data, &mut buffer) {
        Ok(written) => {
            buffer.truncate(written);
            Some(buffer)
        },
        Err(_) => None,
    }
}

/// Reads a `flate2::read::ZlibDecoder` over `data` to its end. Trusted: the
/// outcome depends on `data` alone.
#[verifier::external_body]
fn zlib_decompress(data: &[u8]) -> (out: Option<Vec<u8>>)
    ensures
        match out {
            Some(bytes) => zlib_decoded(data@) == Some(bytes@),
            None => zlib_decoded(data@) is None,
        },
{
    let mut buffer = Vec::new();
    match std::io::Read::read_to_end(&mut flate2::read::ZlibDecoder::new(data), &mut buffer) {
        Ok(_) => Some(buffer),
        Err(_) => None,
    }
}

impl CompressionType {
    /// The codec that a marker's low seven bits name.
    pub open spec fn of_marker(marker: int) -> Option<CompressionType> {
        if marker == 1 {
            Some(CompressionType::Gzip)
        } else if marker == 2 {
            Some(CompressionType::Zlib)
        } else if marker == 3 {
            Some(CompressionType::Uncompressed)
        } else {
            None
        }
    }

    /// The number that marks this codec in a payload header.
    pub open spec fn marker(self) -> int {
        match self {
            CompressionType::Gzip => 1,
            CompressionType::Zlib => 2,
            CompressionType::Uncompressed => 3,
        }
    }

    /// What compressing `data` at `level` with this codec gives.
    pub open spec fn compressed(self, data: Seq<u8>, level: int) -> Result<Seq<u8>, RegionError> {
        if !level_in_range(level) {
            Err(RegionError::BadLevel)
        } else {
            match self {
                CompressionType::Gzip => Ok(gzip_compressed(data, level)),
                CompressionType::Zlib => Ok(zlib_compressed(data, level)),
                CompressionType::Uncompressed => Ok(data),
            }
        }
    }

    /// What decoding `data` with this codec gives.
    pub open spec fn decompressed(self, data: Seq<u8>) -> Result<Seq<u8>, RegionError> {
        match self {
            CompressionType::Gzip => if data.len() < 4 {
                Err(RegionError::BadCodec)
            } else {
                match gzip_decoded(data, gzip_recorded_size(data)) {
                    Some(bytes) => Ok(bytes),
                    None => Err(RegionError::BadCodec),
                }
            },
            CompressionType::Zlib => match zlib_decoded(data) {
                Some(bytes) => Ok(bytes),
                None => Err(RegionError::BadCodec),
            },
            CompressionType::Uncompressed => Ok(data),
        }
    }

    /// The codec marked by `byte`, if it marks one.
    pub fn from_u8(byte: u8) -> (codec: Option<CompressionType>)
        ensures
            codec == Self::of_marker(byte as int),
            codec is Some <==> 1 <= byte <= 3,
    {
        match byte {
            1 => Some(CompressionType::Gzip),
            2 => Some(CompressionType::Zlib),
            3 => Some(CompressionType::Uncompressed),
            _ => None,
        }
    }

    /// The byte that marks this codec.
    pub fn to_u8(&self) -> (marker: u8)
        ensures
            marker == self.marker(),
            Self::of_marker(marker as int) == Some(*self),
    {
        match self {
            CompressionType::Gzip => 1,
            CompressionType::Zlib => 2,
            CompressionType::Uncompressed => 3,
        }
    }

    /// Decodes `data` with this codec. A gzip stream is inflated into a buffer
    /// of the size its trailer records; anything a codec rejects is `BadCodec`.
    pub fn decompress(&self, data: &[u8]) -> (out: Result<Vec<u8>, RegionError>)
        ensures
            match out {
                Ok(bytes) => self.decompressed(data@) == Ok::<Seq<u8>, RegionError>(bytes@),
                Err(e) => self.decompressed(data@) == Err::<Seq<u8>, RegionError>(e),
            },
    {
        match self {
            CompressionType::Gzip => {
                let len: usize = data.len();
                if len < 4 {
                    return Err(RegionError::BadCodec);
                }
                let b0: u8 = data[len - 4];
                let b1: u8 = data[len - 3];
                let b2: u8 = data[len - 2];
                let b3: u8 = data[len - 1];
                let recorded: u32 = (b0 as u32) | ((b1 as u32) << 8) | ((b2 as u32) << 16) | ((b3
                    as u32) << 24);
                assert(((b0 as u32) | ((b1 as u32) << 8) | ((b2 as u32) << 16) | ((b3 as u32)
                    << 24)) == (b0 as u32) + (b1 as u32) * 256 + (b2 as u32) * 65536 + (b3 as u32)
                    * 16777216) by (bit_vector);
                assert(recorded == gzip_recorded_size(data@));
                match gzip_decompress(data, recorded as usize) {
                    Some(bytes) => Ok(bytes),
                    None => Err(RegionError::BadCodec),
                }
            },
            CompressionType::Zlib => {
                match zlib_decompress(data) {
                    Some(bytes) => Ok(bytes),
                    None => Err(RegionError::BadCodec),
                }
            },
            CompressionType::Uncompressed => Ok(vstd::slice::slice_to_vec(data)),
        }
    }

    /// Whether decoding what this codec made of `data` is known to give
    /// `data` back: with the identity codec always, with gzip for data shorter
    /// than 2^32 bytes, the longest whose length a gzip stream records.
    pub open spec fn round_trips(self, data: Seq<u8>) -> bool {
        match self {
            CompressionType::Gzip => data.len() < 0x1_0000_0000,
            CompressionType::Zlib => false,
            CompressionType::Uncompressed => true,
        }
    }

    /// Compresses `data` with this codec at `level`. A level outside the
    /// codecs' range is `BadLevel`, whatever the codec. Decoding the result
    /// gives `data` back where the codec is known to round-trip.
    pub fn compress(&self, data: &[u8], level: i32) -> (out: Result<Vec<u8>, RegionError>)
        ensures
            match out {
                Ok(bytes) => self.compressed(data@, level as int) == Ok::<Seq<u8>, RegionError>(
                    bytes@,
                ),
                Err(e) => self.compressed(data@, level as int) == Err::<Seq<u8>, RegionError>(e),
            },
            out is Ok <==> level_in_range(level as int),
            out is Ok && self.round_trips(data@) ==> self.decompressed(out->Ok_0@) == Ok::<
                Seq<u8>,
                RegionError,
            >(data@),
    {
        if !level_accepted(level) {
            return Err(RegionError::BadLevel);
        }
        match self {
            CompressionType::Gzip => Ok(gzip_compress(data, level)),
            CompressionType::Zlib => Ok(zlib_compress(data, level)),
            CompressionType::Uncompressed => Ok(vstd::slice::slice_to_vec(data)),
        }
    }
}

/// Decoding fails with `BadCodec` or not at all.
pub proof fn lemma_decoding_errors(codec: CompressionType, data: Seq<u8>)
    ensures
        codec.decompressed(data) matches Err(e) ==> e == RegionError::BadCodec,
{
}

/// With the identity codec, what was compressed is what decoding gives.
pub proof fn lemma_identity_round_trip(data: Seq<u8>, level: int)
    requires
        level_in_range(level),
    ensures
        CompressionType::Uncompressed.compressed(data, level) == Ok::<Seq<u8>, RegionError>(data),
        CompressionType::Uncompressed.decompressed(data) == Ok::<Seq<u8>, RegionError>(data),
{
}

/// The marker of a codec names that codec again, and no other byte names one.
pub proof fn lemma_marker_round_trip(codec: CompressionType)
    ensures
        CompressionType::of_marker(codec.marker()) == Some(codec),
        forall|m: int| (#[trigger] CompressionType::of_marker(m)) is Some <==> 1 <= m <= 3,
{
}

} // verus!
