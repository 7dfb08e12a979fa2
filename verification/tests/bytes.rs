use region_file::compression::CompressionType;
use region_file::memory_util::{
    get_alignment_vector, u32_to_u8x3, u32_to_u8x4, u8x3_to_u32, u8x4_to_u32,
};
use region_file::region_file_util::{
    compression_marker, get_chunk_compression_type, get_chunk_length, get_chunk_location,
    get_chunk_offset, get_chunk_region_coords, get_chunk_timestamp, get_oversized_status,
    get_region_coords, Coords,
};

#[test]
fn three_bytes_spell_a_big_endian_number() {
    assert_eq!(u8x3_to_u32(&[0, 0, 2]), 2);
    assert_eq!(u8x3_to_u32(&[1, 2, 3]), 0x010203);
    assert_eq!(u8x3_to_u32(&[0xff, 0xff, 0xff]), 0xff_ffff);
    assert_eq!(u8x3_to_u32(&[0x12, 0x34, 0x56, 0x78]), 0x123456);
}

#[test]
fn four_bytes_spell_a_big_endian_number() {
    assert_eq!(u8x4_to_u32(&[0, 0, 0, 6]), 6);
    assert_eq!(u8x4_to_u32(&[1, 2, 3, 4]), 0x01020304);
    assert_eq!(u8x4_to_u32(&[0xff, 0xff, 0xff, 0xff]), u32::MAX);
}

#[test]
fn numbers_are_spelt_most_significant_byte_first() {
    assert_eq!(u32_to_u8x4(0x01020304), [1, 2, 3, 4]);
    assert_eq!(u32_to_u8x4(u32::MAX), [0xff, 0xff, 0xff, 0xff]);
    assert_eq!(u32_to_u8x4(6), [0, 0, 0, 6]);
    assert_eq!(u32_to_u8x3(0x010203), [1, 2, 3]);
    assert_eq!(u32_to_u8x3(2), [0, 0, 2]);
    assert_eq!(u32_to_u8x3(0xff_ffff), [0xff, 0xff, 0xff]);
}

#[test]
fn spelling_and_reading_are_inverse() {
    for value in [0u32, 1, 255, 256, 65535, 65536, 0xab_cdef, 0xff_ffff] {
        assert_eq!(u8x3_to_u32(&u32_to_u8x3(value)), value);
    }
    for value in [0u32, 1, 0x1000_0000, 0xdead_beef, u32::MAX] {
        assert_eq!(u8x4_to_u32(&u32_to_u8x4(value)), value);
    }
}

#[test]
fn alignment_vector_completes_the_sector() {
    assert_eq!(get_alignment_vector(0, 4096).len(), 0);
    assert_eq!(get_alignment_vector(1, 4096).len(), 4095);
    assert_eq!(get_alignment_vector(5, 4096).len(), 4091);
    assert_eq!(get_alignment_vector(4095, 4096).len(), 1);
    assert_eq!(get_alignment_vector(4096, 4096).len(), 0);
    assert_eq!(get_alignment_vector(4097, 4096).len(), 4095);
    assert_eq!(get_alignment_vector(10, 4), vec![0u8, 0]);
    assert_eq!(get_alignment_vector(3, 8192).len(), 8189);
    assert!(get_alignment_vector(7, 4096).iter().all(|byte| *byte == 0));
}

#[test]
fn chunk_coordinates_split_into_region_and_cell() {
    let region = get_region_coords(Coords { x: 33, z: 64 });
    assert_eq!((region.x, region.z), (1, 2));
    let cell = get_chunk_region_coords(Coords { x: 33, z: 64 });
    assert_eq!((cell.x, cell.z), (1, 0));
    let region = get_region_coords(Coords { x: -1, z: -33 });
    assert_eq!((region.x, region.z), (-1, -2));
    let cell = get_chunk_region_coords(Coords { x: -1, z: -33 });
    assert_eq!((cell.x, cell.z), (31, 31));
    let region = get_region_coords(Coords { x: i32::MIN, z: i32::MAX });
    assert_eq!((region.x, region.z), (-67108864, 67108863));
    let cell = get_chunk_region_coords(Coords { x: i32::MIN, z: i32::MAX });
    assert_eq!((cell.x, cell.z), (0, 31));
}

#[test]
fn region_and_cell_give_the_chunk_back() {
    for c in [-100, -33, -32, -1, 0, 1, 31, 32, 1000] {
        let region = get_region_coords(Coords { x: c, z: c });
        let cell = get_chunk_region_coords(Coords { x: c, z: c });
        assert_eq!(region.x * 32 + cell.x, c);
        assert!(0 <= cell.z && cell.z < 32);
    }
}

#[test]
fn location_is_four_bytes_per_cell_row_by_row() {
    assert_eq!(get_chunk_location(Coords { x: 0, z: 0 }), 0);
    assert_eq!(get_chunk_location(Coords { x: 1, z: 0 }), 4);
    assert_eq!(get_chunk_location(Coords { x: 0, z: 1 }), 128);
    assert_eq!(get_chunk_location(Coords { x: 31, z: 31 }), 4092);
}

#[test]
fn entry_fields_are_big_endian() {
    assert_eq!(get_chunk_offset(&[0, 0, 2]), 2);
    assert_eq!(get_chunk_offset(&[1, 0, 0]), 65536);
    assert_eq!(get_chunk_length(&[0, 0, 1, 0]), 256);
    assert_eq!(get_chunk_timestamp(&[0, 0, 0, 10]), 10);
    assert_eq!(get_chunk_timestamp(&[0x12, 0x34, 0x56, 0x78]), 0x12345678);
}

#[test]
fn compression_byte_names_codec_in_low_bits_and_overflow_in_high_bit() {
    assert_eq!(get_chunk_compression_type(1), Some(CompressionType::Gzip));
    assert_eq!(get_chunk_compression_type(2), Some(CompressionType::Zlib));
    assert_eq!(get_chunk_compression_type(3), Some(CompressionType::Uncompressed));
    assert_eq!(get_chunk_compression_type(0x82), Some(CompressionType::Zlib));
    assert_eq!(get_chunk_compression_type(0x83), Some(CompressionType::Uncompressed));
    assert_eq!(get_chunk_compression_type(0), None);
    assert_eq!(get_chunk_compression_type(4), None);
    assert_eq!(get_chunk_compression_type(0x80), None);
    assert_eq!(get_chunk_compression_type(0xff), None);
    assert!(!get_oversized_status(2));
    assert!(!get_oversized_status(0x7f));
    assert!(get_oversized_status(0x80));
    assert!(get_oversized_status(0x82));
}

#[test]
fn marker_is_built_from_codec_and_flag() {
    assert_eq!(compression_marker(CompressionType::Gzip, false), 1);
    assert_eq!(compression_marker(CompressionType::Zlib, false), 2);
    assert_eq!(compression_marker(CompressionType::Uncompressed, false), 3);
    assert_eq!(compression_marker(CompressionType::Gzip, true), 0x81);
    assert_eq!(compression_marker(CompressionType::Zlib, true), 0x82);
    assert_eq!(compression_marker(CompressionType::Uncompressed, true), 0x83);
}
