use region_file::compression::CompressionType;
use region_file::error::RegionError;
use region_file::memory_mapped_file::MemoryMappedFile;
use region_file::region::Region;
use region_file::region_file_util::Coords;
use region_file::region_key::RegionKey;
use region_file::{close_region, read_chunk, write_chunk};

const GZIP: u8 = 1;
const ZLIB: u8 = 2;
const PLAIN: u8 = 3;

fn key() -> RegionKey {
    RegionKey { coords: Coords { x: 0, z: 0 }, directory: String::from("world/region") }
}

fn fresh() -> Region {
    Region::new(&key(), Vec::new()).unwrap()
}

fn at(x: i32, z: i32) -> Coords {
    Coords { x, z }
}

fn bytes_of(region: &Region) -> Vec<u8> {
    region.file().unwrap().as_slice().to_vec()
}

fn filled(len: usize, seed: u8) -> Vec<u8> {
    (0..len).map(|i| (i as u8).wrapping_mul(31).wrapping_add(seed)).collect()
}

fn noise(len: usize) -> Vec<u8> {
    let mut state: u32 = 0x9e37_79b9;
    let mut out = Vec::with_capacity(len);
    for _ in 0..len {
        state ^= state << 13;
        state ^= state >> 17;
        state ^= state << 5;
        out.push((state >> 24) as u8);
    }
    out
}

fn entry(region: &Region, index: usize) -> (u32, u8) {
    let bytes = bytes_of(region);
    let at = 4 * index;
    (
        ((bytes[at] as u32) << 16) | ((bytes[at + 1] as u32) << 8) | bytes[at + 2] as u32,
        bytes[at + 3],
    )
}

#[test]
fn empty_region() {
    let region = fresh();
    assert_eq!(read_chunk(&region, at(0, 0)), Ok(None));
    assert_eq!(region.read_chunk(at(31, 31)), Ok(None));
    assert!(region.free_ranges().is_empty());
    assert_eq!(region.wanted_space(), 2);
    let bytes = bytes_of(&region);
    assert!(bytes.len() >= 8192);
    assert!(bytes[..8192].iter().all(|byte| *byte == 0));
    assert_eq!(region.directory(), "world/region");
}

#[test]
fn single_write_read_zlib() {
    let mut region = fresh();
    assert_eq!(write_chunk(&mut region, at(0, 0), 10, b"hello", ZLIB, 6), Ok(()));
    assert_eq!(read_chunk(&region, at(0, 0)), Ok(Some(b"hello".to_vec())));
    assert_eq!(entry(&region, 0), (2, 1));
    let bytes = bytes_of(&region);
    let packed = CompressionType::Zlib.compress(b"hello", 6).unwrap();
    assert_eq!(&bytes[8192..8196], &(packed.len() as u32 + 1).to_be_bytes());
    assert_eq!(bytes[8196], 2);
    assert_eq!(&bytes[8197..8197 + packed.len()], &packed[..]);
    assert!(bytes[8197 + packed.len()..].iter().all(|byte| *byte == 0));
    assert_eq!(bytes.len(), 3 * 4096);
    assert_eq!(&bytes[4096..4100], &[0, 0, 0, 10]);
    assert_eq!(region.wanted_space(), 3);
    assert!(region.free_ranges().is_empty());
    assert_eq!(region.last_seen_timestamp(at(0, 0)), 10);
}

#[test]
fn single_write_read_gzip() {
    let mut region = fresh();
    let data = filled(30_000, 7);
    assert_eq!(write_chunk(&mut region, at(3, 4), 1, &data, GZIP, 9), Ok(()));
    assert_eq!(read_chunk(&region, at(3, 4)), Ok(Some(data)));
    assert_eq!(entry(&region, 3 + 4 * 32).0, 2);
    assert_eq!(bytes_of(&region)[8196], 1);
}

#[test]
fn chunks_of_other_regions_fall_on_their_cells() {
    let mut region = fresh();
    assert_eq!(write_chunk(&mut region, at(-1, 33), 1, b"corner", PLAIN, 6), Ok(()));
    assert_eq!(entry(&region, 31 + 32), (2, 2 - 1));
    assert_eq!(read_chunk(&region, at(31, 1)), Ok(Some(b"corner".to_vec())));
    assert_eq!(read_chunk(&region, at(-33, 65)), Ok(Some(b"corner".to_vec())));
}

#[test]
fn overwrite_shrinks() {
    let mut region = fresh();
    let large = filled(4 * 4096 - 5, 1);
    assert_eq!(write_chunk(&mut region, at(0, 0), 1, &large, PLAIN, 6), Ok(()));
    assert_eq!(entry(&region, 0), (2, 4));
    assert_eq!(region.wanted_space(), 6);
    let small = filled(100, 2);
    assert_eq!(write_chunk(&mut region, at(0, 0), 2, &small, PLAIN, 6), Ok(()));
    assert_eq!(entry(&region, 0), (2, 1));
    assert_eq!(region.free_ranges(), &vec![3..6]);
    assert_eq!(region.wanted_space(), 6);
    assert_eq!(read_chunk(&region, at(0, 0)), Ok(Some(small)));
}

#[test]
fn overwrite_grows_past_the_neighbour() {
    let mut region = fresh();
    assert_eq!(write_chunk(&mut region, at(0, 0), 1, b"a", PLAIN, 6), Ok(()));
    assert_eq!(write_chunk(&mut region, at(1, 0), 1, b"b", PLAIN, 6), Ok(()));
    assert_eq!(entry(&region, 0), (2, 1));
    assert_eq!(entry(&region, 1), (3, 1));
    let two = filled(4096, 3);
    assert_eq!(write_chunk(&mut region, at(0, 0), 2, &two, PLAIN, 6), Ok(()));
    assert_eq!(entry(&region, 0), (4, 2));
    assert_eq!(region.free_ranges(), &vec![2..3]);
    assert_eq!(region.wanted_space(), 6);
    assert_eq!(bytes_of(&region).len(), 6 * 4096);
    assert_eq!(read_chunk(&region, at(0, 0)), Ok(Some(two)));
    assert_eq!(read_chunk(&region, at(1, 0)), Ok(Some(b"b".to_vec())));
}

#[test]
fn growing_payload_reuses_a_hole() {
    let mut region = fresh();
    assert_eq!(write_chunk(&mut region, at(0, 0), 1, &filled(3 * 4096 - 5, 1), PLAIN, 6), Ok(()));
    assert_eq!(write_chunk(&mut region, at(1, 0), 1, b"b", PLAIN, 6), Ok(()));
    assert_eq!(write_chunk(&mut region, at(2, 0), 1, b"c", PLAIN, 6), Ok(()));
    assert_eq!(write_chunk(&mut region, at(0, 0), 2, b"a", PLAIN, 6), Ok(()));
    assert_eq!(region.free_ranges(), &vec![3..5]);
    let two = filled(2 * 4096 - 5, 9);
    assert_eq!(write_chunk(&mut region, at(2, 0), 2, &two, PLAIN, 6), Ok(()));
    assert_eq!(entry(&region, 2), (3, 2));
    assert_eq!(region.free_ranges(), &vec![6..7]);
    assert_eq!(region.wanted_space(), 7);
    assert_eq!(read_chunk(&region, at(0, 0)), Ok(Some(b"a".to_vec())));
    assert_eq!(read_chunk(&region, at(1, 0)), Ok(Some(b"b".to_vec())));
    assert_eq!(read_chunk(&region, at(2, 0)), Ok(Some(two)));
}

#[test]
fn body_that_fills_its_sectors_has_no_padding() {
    for sectors in [1usize, 2, 7] {
        let mut region = fresh();
        let data = filled(sectors * 4096 - 5, 5);
        assert_eq!(write_chunk(&mut region, at(0, 0), 1, &data, PLAIN, 6), Ok(()));
        assert_eq!(entry(&region, 0), (2, sectors as u8));
        let bytes = bytes_of(&region);
        assert_eq!(bytes.len(), (2 + sectors) * 4096);
        assert_eq!(&bytes[8197..], &data[..]);
        assert_eq!(read_chunk(&region, at(0, 0)), Ok(Some(data)));
    }
}

#[test]
fn one_byte_more_takes_one_sector_more() {
    let mut region = fresh();
    let data = filled(4096 - 4, 5);
    assert_eq!(write_chunk(&mut region, at(0, 0), 1, &data, PLAIN, 6), Ok(()));
    assert_eq!(entry(&region, 0), (2, 2));
    let bytes = bytes_of(&region);
    assert_eq!(bytes.len(), 4 * 4096);
    assert!(bytes[8197 + data.len()..].iter().all(|byte| *byte == 0));
}

#[test]
fn largest_body_that_stays_in_the_region_file() {
    let mut region = fresh();
    let data = filled(255 * 4096 - 5, 11);
    assert_eq!(write_chunk(&mut region, at(5, 5), 1, &data, PLAIN, 6), Ok(()));
    assert_eq!(entry(&region, 5 + 5 * 32), (2, 255));
    assert_eq!(bytes_of(&region)[8196], 3);
    assert!(region.overflow_file(at(5, 5)).is_none());
    assert_eq!(read_chunk(&region, at(5, 5)), Ok(Some(data)));
}

#[test]
fn oversized_payload() {
    let mut region = fresh();
    let data = filled(255 * 4096 - 4, 13);
    assert_eq!(write_chunk(&mut region, at(0, 0), 1, &data, PLAIN, 6), Ok(()));
    assert_eq!(entry(&region, 0), (2, 1));
    let bytes = bytes_of(&region);
    assert_eq!(bytes.len(), 3 * 4096);
    assert_eq!(&bytes[8192..8197], &[0, 0, 0, 1, 0x83]);
    assert!(bytes[8197..].iter().all(|byte| *byte == 0));
    assert_eq!(region.overflow_file(at(0, 0)).unwrap().as_slice(), &data[..]);
    assert_eq!(read_chunk(&region, at(0, 0)), Ok(Some(data)));
}

#[test]
fn oversized_compressed_payload() {
    let mut region = fresh();
    let data = noise(1_100_000);
    let packed = CompressionType::Zlib.compress(&data, 1).unwrap();
    assert!(packed.len() > 255 * 4096 - 5);
    assert_eq!(write_chunk(&mut region, at(7, 0), 1, &data, ZLIB, 1), Ok(()));
    assert_eq!(entry(&region, 7), (2, 1));
    assert_eq!(bytes_of(&region)[8196], 0x82);
    assert_eq!(region.overflow_file(at(7, 0)).unwrap().as_slice(), &packed[..]);
    assert_eq!(read_chunk(&region, at(7, 0)), Ok(Some(data)));
}

#[test]
fn oversized_payload_replaced_by_a_small_one() {
    let mut region = fresh();
    assert_eq!(write_chunk(&mut region, at(0, 0), 1, &filled(255 * 4096, 1), PLAIN, 6), Ok(()));
    assert_eq!(write_chunk(&mut region, at(0, 0), 2, b"small", PLAIN, 6), Ok(()));
    assert_eq!(entry(&region, 0), (2, 1));
    assert_eq!(bytes_of(&region)[8196], 3);
    assert_eq!(read_chunk(&region, at(0, 0)), Ok(Some(b"small".to_vec())));
}

#[test]
fn oversized_payload_replaced_by_a_shorter_oversized_one() {
    let mut region = fresh();
    let long = filled(255 * 4096 + 100, 1);
    let short = filled(255 * 4096, 2);
    assert_eq!(write_chunk(&mut region, at(0, 0), 1, &long, PLAIN, 6), Ok(()));
    assert_eq!(write_chunk(&mut region, at(0, 0), 2, &short, PLAIN, 6), Ok(()));
    assert_eq!(region.overflow_file(at(0, 0)).unwrap().as_slice(), &short[..]);
    assert_eq!(read_chunk(&region, at(0, 0)), Ok(Some(short)));
}

#[test]
fn stale_timestamp_is_rejected() {
    let mut region = fresh();
    assert_eq!(write_chunk(&mut region, at(0, 0), 5, b"first", ZLIB, 6), Ok(()));
    let before = bytes_of(&region);
    assert_eq!(write_chunk(&mut region, at(0, 0), 3, b"second", ZLIB, 6), Ok(()));
    assert_eq!(read_chunk(&region, at(0, 0)), Ok(Some(b"first".to_vec())));
    assert_eq!(bytes_of(&region), before);
    assert_eq!(region.last_seen_timestamp(at(0, 0)), 5);
}

#[test]
fn equal_timestamp_is_rejected() {
    let mut region = fresh();
    assert_eq!(write_chunk(&mut region, at(0, 0), 5, b"first", PLAIN, 6), Ok(()));
    assert_eq!(write_chunk(&mut region, at(0, 0), 5, b"second", PLAIN, 6), Ok(()));
    assert_eq!(read_chunk(&region, at(0, 0)), Ok(Some(b"first".to_vec())));
    assert_eq!(write_chunk(&mut region, at(0, 0), 6, b"third", PLAIN, 6), Ok(()));
    assert_eq!(read_chunk(&region, at(0, 0)), Ok(Some(b"third".to_vec())));
}

#[test]
fn timestamp_zero_is_never_above_what_a_cell_has_seen() {
    let mut region = fresh();
    assert_eq!(write_chunk(&mut region, at(0, 0), 0, b"first", PLAIN, 6), Ok(()));
    assert_eq!(read_chunk(&region, at(0, 0)), Ok(None));
    assert_eq!(region.wanted_space(), 2);
}

#[test]
fn timestamps_are_kept_cell_by_cell() {
    let mut region = fresh();
    assert_eq!(write_chunk(&mut region, at(0, 0), 9, b"a", PLAIN, 6), Ok(()));
    assert_eq!(write_chunk(&mut region, at(1, 0), 2, b"b", PLAIN, 6), Ok(()));
    assert_eq!(read_chunk(&region, at(1, 0)), Ok(Some(b"b".to_vec())));
    assert_eq!(region.last_seen_timestamp(at(0, 0)), 9);
    assert_eq!(region.last_seen_timestamp(at(1, 0)), 2);
    assert_eq!(region.last_seen_timestamp(at(2, 0)), 0);
    let bytes = bytes_of(&region);
    assert_eq!(&bytes[4096..4104], &[0, 0, 0, 9, 0, 0, 0, 2]);
}

#[test]
fn reopened_region_reads_what_was_written() {
    let mut region = fresh();
    let large = filled(10_000, 1);
    assert_eq!(write_chunk(&mut region, at(0, 0), 1, &large, GZIP, 6), Ok(()));
    assert_eq!(write_chunk(&mut region, at(9, 9), 1, b"nine", ZLIB, 6), Ok(()));
    assert_eq!(write_chunk(&mut region, at(0, 0), 2, b"zero", PLAIN, 6), Ok(()));
    let bytes = bytes_of(&region);
    let free = region.free_ranges().clone();
    let end = region.wanted_space();
    assert_eq!(close_region(&mut region), Ok(()));
    let reopened = Region::new(&key(), bytes.clone()).unwrap();
    assert_eq!(bytes_of(&reopened), bytes);
    assert_eq!(read_chunk(&reopened, at(0, 0)), Ok(Some(b"zero".to_vec())));
    assert_eq!(read_chunk(&reopened, at(9, 9)), Ok(Some(b"nine".to_vec())));
    assert_eq!(read_chunk(&reopened, at(1, 1)), Ok(None));
    assert_eq!(reopened.free_ranges(), &free);
    assert_eq!(reopened.wanted_space(), end);
    assert_eq!(reopened.last_seen_timestamp(at(0, 0)), 0);
}

#[test]
fn reopened_region_asks_for_the_overflow_file() {
    let mut region = fresh();
    let data = filled(255 * 4096 + 17, 3);
    assert_eq!(write_chunk(&mut region, at(2, 3), 1, &data, PLAIN, 6), Ok(()));
    let bytes = bytes_of(&region);
    let overflow = region.overflow_file(at(2, 3)).unwrap().as_slice().to_vec();
    let mut reopened = Region::new(&key(), bytes).unwrap();
    assert_eq!(read_chunk(&reopened, at(2, 3)), Err(RegionError::OverflowNotOpen));
    reopened.attach_overflow(at(2, 3), MemoryMappedFile::open_file(4096, overflow));
    assert_eq!(read_chunk(&reopened, at(2, 3)), Ok(Some(data)));
}

#[test]
fn file_with_room_behind_the_last_payload_plans_up_to_its_end() {
    let mut region = fresh();
    assert_eq!(write_chunk(&mut region, at(0, 0), 1, b"a", PLAIN, 6), Ok(()));
    let mut bytes = bytes_of(&region);
    bytes.resize(5 * 4096 + 100, 0);
    let mut reopened = Region::new(&key(), bytes).unwrap();
    assert_eq!(reopened.wanted_space(), 5);
    assert!(reopened.free_ranges().is_empty());
    assert_eq!(write_chunk(&mut reopened, at(1, 0), 1, b"b", PLAIN, 6), Ok(()));
    assert_eq!(entry(&reopened, 1), (5, 1));
}

#[test]
fn closed_region_is_not_open() {
    let mut region = fresh();
    assert_eq!(write_chunk(&mut region, at(0, 0), 5, b"a", PLAIN, 6), Ok(()));
    assert_eq!(close_region(&mut region), Ok(()));
    assert!(region.file().is_none());
    assert_eq!(read_chunk(&region, at(0, 0)), Err(RegionError::NotOpen));
    assert_eq!(write_chunk(&mut region, at(0, 0), 6, b"b", PLAIN, 6), Err(RegionError::NotOpen));
    assert_eq!(write_chunk(&mut region, at(0, 0), 6, b"b", PLAIN, 6), Ok(()));
    assert_eq!(region.last_seen_timestamp(at(0, 0)), 6);
}

#[test]
fn closing_twice_changes_nothing() {
    let mut region = fresh();
    assert_eq!(region.close(), Ok(()));
    assert_eq!(region.close(), Ok(()));
    assert!(region.file().is_none());
    assert_eq!(region.wanted_space(), 2);
}

#[test]
fn closing_gives_up_the_overflow_files() {
    let mut region = fresh();
    assert_eq!(write_chunk(&mut region, at(0, 0), 1, &filled(255 * 4096, 1), PLAIN, 6), Ok(()));
    assert!(region.overflow_file(at(0, 0)).is_some());
    assert_eq!(region.close(), Ok(()));
    assert!(region.overflow_file(at(0, 0)).is_none());
}

#[test]
fn unknown_codec_is_bad_codec() {
    let mut region = fresh();
    for codec in [0u8, 4, 0x82, 255] {
        assert_eq!(
            write_chunk(&mut region, at(0, 0), 1, b"a", codec, 6),
            Err(RegionError::BadCodec)
        );
    }
    assert_eq!(region.last_seen_timestamp(at(0, 0)), 0);
    assert_eq!(read_chunk(&region, at(0, 0)), Ok(None));
}

#[test]
fn unknown_level_is_bad_level() {
    let mut region = fresh();
    assert_eq!(write_chunk(&mut region, at(0, 0), 1, b"a", ZLIB, 13), Err(RegionError::BadLevel));
    assert_eq!(write_chunk(&mut region, at(0, 0), 1, b"a", PLAIN, -1), Err(RegionError::BadLevel));
    assert_eq!(write_chunk(&mut region, at(0, 0), 1, b"a", 9, 99), Err(RegionError::BadCodec));
    assert_eq!(region.last_seen_timestamp(at(0, 0)), 0);
    assert_eq!(bytes_of(&region).len(), 8192);
}

fn file_with_entry(sectors: usize, start: u32, count: u8) -> Vec<u8> {
    let mut bytes = vec![0u8; sectors * 4096];
    bytes[0] = (start >> 16) as u8;
    bytes[1] = (start >> 8) as u8;
    bytes[2] = start as u8;
    bytes[3] = count;
    bytes
}

#[test]
fn cell_that_counts_no_sector_reads_as_empty() {
    let mut bytes = file_with_entry(6, 5, 0);
    bytes[5 * 4096 + 4] = 0x7f;
    let region = Region::new(&key(), bytes).unwrap();
    assert_eq!(read_chunk(&region, at(0, 0)), Ok(None));
}

#[test]
fn payload_with_an_unknown_marker_is_bad_codec() {
    let mut bytes = file_with_entry(3, 2, 1);
    bytes[8192 + 3] = 2;
    bytes[8192 + 4] = 9;
    let region = Region::new(&key(), bytes).unwrap();
    assert_eq!(read_chunk(&region, at(0, 0)), Err(RegionError::BadCodec));
    assert_eq!(read_chunk(&region, at(1, 0)), Ok(None));
}

#[test]
fn payload_that_the_codec_rejects_is_bad_codec() {
    let mut bytes = file_with_entry(3, 2, 1);
    bytes[8192 + 3] = 4;
    bytes[8192 + 4] = 2;
    bytes[8192 + 5] = 1;
    let region = Region::new(&key(), bytes).unwrap();
    assert_eq!(read_chunk(&region, at(0, 0)), Err(RegionError::BadCodec));
}

#[test]
fn payload_longer_than_the_file_is_out_of_range() {
    let mut bytes = file_with_entry(3, 2, 1);
    bytes[8192 + 2] = 0x10;
    bytes[8192 + 4] = 3;
    let region = Region::new(&key(), bytes).unwrap();
    assert_eq!(read_chunk(&region, at(0, 0)), Err(RegionError::OutOfRange));
}

#[test]
fn payload_without_a_compression_byte_in_its_length_is_out_of_range() {
    let mut bytes = file_with_entry(3, 2, 1);
    bytes[8192 + 4] = 3;
    let region = Region::new(&key(), bytes).unwrap();
    assert_eq!(read_chunk(&region, at(0, 0)), Err(RegionError::OutOfRange));
}

#[test]
fn payload_that_ends_with_the_file_is_read() {
    let mut bytes = file_with_entry(3, 2, 1);
    bytes[8192 + 2] = 0x0f;
    bytes[8192 + 3] = 0xfc;
    bytes[8192 + 4] = 3;
    bytes[3 * 4096 - 1] = 0xaa;
    let region = Region::new(&key(), bytes).unwrap();
    let body = read_chunk(&region, at(0, 0)).unwrap().unwrap();
    assert_eq!(body.len(), 4091);
    assert_eq!(body[4090], 0xaa);
}

#[test]
fn region_whose_entry_points_past_the_file_does_not_open() {
    assert!(matches!(
        Region::new(&key(), file_with_entry(3, 3, 1)),
        Err(RegionError::OutOfRange)
    ));
    assert!(matches!(
        Region::new(&key(), file_with_entry(2, 0x00ff_ffff, 255)),
        Err(RegionError::OutOfRange)
    ));
    assert!(Region::new(&key(), file_with_entry(4, 3, 1)).is_ok());
}

#[test]
fn oversized_marker_without_overflow_file_is_overflow_not_open() {
    let mut bytes = file_with_entry(3, 2, 1);
    bytes[8192 + 3] = 1;
    bytes[8192 + 4] = 0x83;
    let mut region = Region::new(&key(), bytes).unwrap();
    assert_eq!(read_chunk(&region, at(0, 0)), Err(RegionError::OverflowNotOpen));
    region.attach_overflow(at(0, 0), MemoryMappedFile::open_file(0, b"body".to_vec()));
    assert_eq!(read_chunk(&region, at(0, 0)), Ok(Some(b"body".to_vec())));
}

#[test]
fn short_file_is_filled_up_to_the_tables() {
    let region = Region::new(&key(), vec![0u8; 100]).unwrap();
    assert_eq!(bytes_of(&region).len(), 8192);
    assert_eq!(region.wanted_space(), 2);
}

#[test]
fn existing_file_gives_its_gaps_as_free_ranges() {
    let mut bytes = vec![0u8; 12 * 4096];
    bytes[0..4].copy_from_slice(&[0, 0, 4, 2]);
    bytes[4..8].copy_from_slice(&[0, 0, 9, 1]);
    let region = Region::new(&key(), bytes).unwrap();
    assert_eq!(region.free_ranges(), &vec![2..4, 6..9]);
    assert_eq!(region.wanted_space(), 12);
}

#[test]
fn writes_to_many_cells_never_share_a_sector() {
    let mut region = fresh();
    let mut expected: Vec<Option<Vec<u8>>> = vec![None; 1024];
    let mut state: u32 = 12345;
    for round in 1..=6u32 {
        for index in 0..1024usize {
            state = state.wrapping_mul(1_103_515_245).wrapping_add(12345);
            if state % 3 == 0 {
                continue;
            }
            let len = (state >> 8) as usize % 9000;
            let data = filled(len, index as u8);
            let coords = at((index % 32) as i32, (index / 32) as i32);
            assert_eq!(write_chunk(&mut region, coords, round, &data, PLAIN, 6), Ok(()));
            expected[index] = Some(data);
        }
    }
    let mut taken: Vec<std::ops::Range<u32>> = Vec::new();
    for index in 0..1024usize {
        let coords = at((index % 32) as i32, (index / 32) as i32);
        assert_eq!(read_chunk(&region, coords), Ok(expected[index].clone()));
        let (start, count) = entry(&region, index);
        if count > 0 {
            assert!(start >= 2);
            taken.push(start..start + count as u32);
        } else {
            assert_eq!(start, 0);
        }
    }
    let free = region.free_ranges().clone();
    for pair in free.windows(2) {
        assert!(pair[0].end < pair[1].start);
    }
    let mut all = taken.clone();
    all.extend(free.iter().cloned());
    all.sort_by_key(|range| range.start);
    let mut cursor = 2;
    for range in &all {
        assert!(range.start < range.end);
        assert_eq!(range.start, cursor);
        cursor = range.end;
    }
    assert_eq!(cursor, region.wanted_space());
    assert_eq!(bytes_of(&region).len(), cursor as usize * 4096);
}

#[test]
fn header_is_the_parsed_entry_of_both_tables() {
    let mut region = fresh();
    let empty = region.header(at(4, 4)).unwrap();
    assert_eq!((empty.start_sector, empty.sector_count, empty.timestamp), (0, 0, 0));
    assert_eq!(write_chunk(&mut region, at(4, 4), 77, &filled(5000, 1), PLAIN, 6), Ok(()));
    let header = region.header(at(4, 4)).unwrap();
    assert_eq!((header.start_sector, header.sector_count, header.timestamp), (2, 2, 77));
    assert_eq!(write_chunk(&mut region, at(4, 4), 0x0102_0304, b"x", PLAIN, 6), Ok(()));
    let header = region.header(at(4, 4)).unwrap();
    assert_eq!((header.start_sector, header.sector_count, header.timestamp), (2, 1, 0x0102_0304));
    assert_eq!(region.close(), Ok(()));
    assert_eq!(region.header(at(4, 4)), Err(RegionError::NotOpen));
}

#[test]
fn overflow_is_needed_only_for_marked_payloads_without_their_file() {
    let mut region = fresh();
    assert!(!region.needs_overflow(at(0, 0)));
    assert_eq!(write_chunk(&mut region, at(0, 0), 1, b"small", ZLIB, 6), Ok(()));
    assert!(!region.needs_overflow(at(0, 0)));
    assert_eq!(write_chunk(&mut region, at(1, 0), 1, &filled(255 * 4096, 1), PLAIN, 6), Ok(()));
    assert!(!region.needs_overflow(at(1, 0)));
    let reopened = Region::new(&key(), bytes_of(&region)).unwrap();
    assert!(reopened.needs_overflow(at(1, 0)));
    assert!(!reopened.needs_overflow(at(0, 0)));
    assert!(!reopened.needs_overflow(at(2, 0)));
    assert_eq!(region.close(), Ok(()));
    assert!(!region.needs_overflow(at(1, 0)));
}

#[test]
fn map_of_the_region_file_stays_as_it_was_opened() {
    let mut region = fresh();
    assert_eq!(region.file().unwrap().get_mapped_size(), 8192);
    assert_eq!(write_chunk(&mut region, at(0, 0), 1, &filled(9000, 1), PLAIN, 6), Ok(()));
    assert_eq!(write_chunk(&mut region, at(1, 0), 1, b"b", ZLIB, 6), Ok(()));
    assert_eq!(region.file().unwrap().get_file_size(), 6 * 4096);
    assert_eq!(region.file().unwrap().get_mapped_size(), 8192);
    let reopened = Region::new(&key(), bytes_of(&region)).unwrap();
    assert_eq!(reopened.file().unwrap().get_mapped_size(), 6 * 4096);
}

#[test]
fn map_of_an_attached_overflow_file_is_not_made_anew() {
    let long = filled(255 * 4096 + 100, 1);
    let mut region = fresh();
    region.attach_overflow(at(0, 0), MemoryMappedFile::open_file(4096, vec![1, 2, 3]));
    assert_eq!(region.overflow_file(at(0, 0)).unwrap().get_mapped_size(), 4096);
    assert_eq!(write_chunk(&mut region, at(0, 0), 1, &long, PLAIN, 6), Ok(()));
    assert_eq!(region.overflow_file(at(0, 0)).unwrap().as_slice(), &long[..]);
    assert_eq!(region.overflow_file(at(0, 0)).unwrap().get_mapped_size(), 4096);
    assert_eq!(write_chunk(&mut region, at(1, 0), 1, &long, PLAIN, 6), Ok(()));
    assert_eq!(region.overflow_file(at(1, 0)).unwrap().get_mapped_size(), long.len());
    let longer = filled(255 * 4096 + 500, 2);
    assert_eq!(write_chunk(&mut region, at(1, 0), 2, &longer, PLAIN, 6), Ok(()));
    assert_eq!(region.overflow_file(at(1, 0)).unwrap().as_slice(), &longer[..]);
    assert_eq!(region.overflow_file(at(1, 0)).unwrap().get_mapped_size(), long.len());
    let shorter = filled(255 * 4096, 3);
    assert_eq!(write_chunk(&mut region, at(1, 0), 3, &shorter, PLAIN, 6), Ok(()));
    assert_eq!(region.overflow_file(at(1, 0)).unwrap().get_mapped_size(), shorter.len());
}

#[test]
fn gzip_payload_reads_back_as_the_data() {
    let mut region = fresh();
    for (index, len) in [0usize, 1, 4091, 4092, 100_000].into_iter().enumerate() {
        let data = noise(len);
        let coords = at(index as i32, 3);
        assert_eq!(write_chunk(&mut region, coords, 1, &data, GZIP, 6), Ok(()));
        assert_eq!(read_chunk(&region, coords), Ok(Some(data)));
    }
}
