use region_file::compression::CompressionType;
use region_file::error::RegionError;

fn noise(len: usize) -> Vec<u8> {
    let mut state: u32 = 0x2545_f491;
    let mut out = Vec::with_capacity(len);
    for _ in 0..len {
        state ^= state << 13;
        state ^= state >> 17;
        state ^= state << 5;
        out.push((state >> 24) as u8);
    }
    out
}

#[test]
fn markers_name_the_three_codecs() {
    assert_eq!(CompressionType::from_u8(1), Some(CompressionType::Gzip));
    assert_eq!(CompressionType::from_u8(2), Some(CompressionType::Zlib));
    assert_eq!(CompressionType::from_u8(3), Some(CompressionType::Uncompressed));
    assert_eq!(CompressionType::from_u8(0), None);
    assert_eq!(CompressionType::from_u8(4), None);
    assert_eq!(CompressionType::from_u8(255), None);
    assert_eq!(CompressionType::Gzip.to_u8(), 1);
    assert_eq!(CompressionType::Zlib.to_u8(), 2);
    assert_eq!(CompressionType::Uncompressed.to_u8(), 3);
}

#[test]
fn marker_of_a_codec_names_it_again() {
    for codec in [CompressionType::Gzip, CompressionType::Zlib, CompressionType::Uncompressed] {
        assert_eq!(CompressionType::from_u8(codec.to_u8()), Some(codec));
    }
}

#[test]
fn identity_copies() {
    let data = b"plain bytes".to_vec();
    let packed = CompressionType::Uncompressed.compress(&data, 6).unwrap();
    assert_eq!(packed, data);
    assert_eq!(CompressionType::Uncompressed.decompress(&packed).unwrap(), data);
    assert_eq!(CompressionType::Uncompressed.decompress(&[]).unwrap(), Vec::<u8>::new());
}

#[test]
fn gzip_round_trip() {
    let data = b"hello hello hello hello hello".to_vec();
    let packed = CompressionType::Gzip.compress(&data, 6).unwrap();
    assert_ne!(packed, data);
    assert_eq!(&packed[0..2], &[0x1f, 0x8b]);
    assert_eq!(&packed[packed.len() - 4..], &(data.len() as u32).to_le_bytes());
    assert_eq!(CompressionType::Gzip.decompress(&packed).unwrap(), data);
}

#[test]
fn gzip_round_trip_of_nothing() {
    let packed = CompressionType::Gzip.compress(&[], 1).unwrap();
    assert_eq!(CompressionType::Gzip.decompress(&packed).unwrap(), Vec::<u8>::new());
}

#[test]
fn zlib_round_trip() {
    let data = b"hello".to_vec();
    let packed = CompressionType::Zlib.compress(&data, 6).unwrap();
    assert_ne!(packed, data);
    assert_eq!(packed[0] & 0x0f, 8);
    assert_eq!(CompressionType::Zlib.decompress(&packed).unwrap(), data);
}

#[test]
fn zlib_round_trip_of_noise() {
    let data = noise(100_000);
    let packed = CompressionType::Zlib.compress(&data, 12).unwrap();
    assert_eq!(CompressionType::Zlib.decompress(&packed).unwrap(), data);
    let packed = CompressionType::Gzip.compress(&data, 0).unwrap();
    assert_eq!(CompressionType::Gzip.decompress(&packed).unwrap(), data);
}

#[test]
fn compression_is_repeatable() {
    let data = noise(5000);
    assert_eq!(
        CompressionType::Zlib.compress(&data, 6).unwrap(),
        CompressionType::Zlib.compress(&data, 6).unwrap()
    );
    assert_eq!(
        CompressionType::Gzip.compress(&data, 9).unwrap(),
        CompressionType::Gzip.compress(&data, 9).unwrap()
    );
}

#[test]
fn levels_from_0_to_12_are_taken() {
    for level in 0..=12 {
        assert!(CompressionType::Gzip.compress(b"abc", level).is_ok());
        assert!(CompressionType::Zlib.compress(b"abc", level).is_ok());
        assert!(CompressionType::Uncompressed.compress(b"abc", level).is_ok());
    }
}

#[test]
fn levels_outside_the_range_are_bad_levels() {
    for level in [-1, 13, 100, i32::MIN, i32::MAX] {
        assert_eq!(CompressionType::Gzip.compress(b"abc", level), Err(RegionError::BadLevel));
        assert_eq!(CompressionType::Zlib.compress(b"abc", level), Err(RegionError::BadLevel));
        assert_eq!(
            CompressionType::Uncompressed.compress(b"abc", level),
            Err(RegionError::BadLevel)
        );
    }
}

#[test]
fn rejected_streams_are_bad_codec() {
    assert_eq!(CompressionType::Zlib.decompress(b"not zlib"), Err(RegionError::BadCodec));
    assert_eq!(CompressionType::Zlib.decompress(&[]), Err(RegionError::BadCodec));
    assert_eq!(
        CompressionType::Gzip.decompress(b"certainly not gzip"),
        Err(RegionError::BadCodec)
    );
}

#[test]
fn gzip_stream_shorter_than_its_trailer_is_bad_codec() {
    assert_eq!(CompressionType::Gzip.decompress(&[]), Err(RegionError::BadCodec));
    assert_eq!(CompressionType::Gzip.decompress(&[0x1f, 0x8b, 8]), Err(RegionError::BadCodec));
}

#[test]
fn gzip_stream_with_a_wrong_recorded_size_is_bad_codec() {
    let data = b"some bytes to compress, some bytes to compress".to_vec();
    let mut packed = CompressionType::Gzip.compress(&data, 6).unwrap();
    let at = packed.len() - 4;
    packed[at] = packed[at].wrapping_sub(1);
    assert_eq!(CompressionType::Gzip.decompress(&packed), Err(RegionError::BadCodec));
}

#[test]
fn truncated_zlib_stream_is_bad_codec() {
    let data = noise(2000);
    let packed = CompressionType::Zlib.compress(&data, 6).unwrap();
    assert_eq!(
        CompressionType::Zlib.decompress(&packed[..packed.len() / 2]),
        Err(RegionError::BadCodec)
    );
}
