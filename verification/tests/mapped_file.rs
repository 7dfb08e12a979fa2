use region_file::error::RegionError;
use region_file::memory_mapped_file::MemoryMappedFile;
use region_file::specialized_file::SpecializedFile;

#[test]
fn opening_fills_up_to_the_initial_size() {
    let file = MemoryMappedFile::open_file(8, vec![1, 2, 3]);
    assert_eq!(file.as_slice(), &[1, 2, 3, 0, 0, 0, 0, 0]);
    assert_eq!(file.get_file_size(), 8);
    assert_eq!(file.get_mapped_size(), 8);
    let file = MemoryMappedFile::open_file(2, vec![1, 2, 3]);
    assert_eq!(file.as_slice(), &[1, 2, 3]);
    assert_eq!(file.get_mapped_size(), 3);
}

#[test]
fn reads_inside_the_map() {
    let file = MemoryMappedFile::open_file(0, vec![10, 11, 12, 13, 14]);
    assert_eq!(file.read_file(1..4), Ok(vec![11, 12, 13]));
    assert_eq!(file.read_file(0..5), Ok(vec![10, 11, 12, 13, 14]));
    assert_eq!(file.read_file(5..5), Ok(vec![]));
    assert_eq!(file.read_file(2..2), Ok(vec![]));
}

#[test]
fn writes_past_the_map_grow_the_file_and_not_the_map() {
    let mut file = MemoryMappedFile::open_file(0, vec![10, 11, 12, 13]);
    file.write_file(6, &[20, 21]);
    assert_eq!(file.as_slice(), &[10, 11, 12, 13, 0, 0, 20, 21]);
    assert_eq!(file.get_file_size(), 8);
    assert_eq!(file.get_mapped_size(), 4);
}

#[test]
fn reads_that_straddle_the_end_of_the_map() {
    let mut file = MemoryMappedFile::open_file(0, vec![10, 11, 12, 13]);
    file.write_file(4, &[14, 15, 16]);
    assert_eq!(file.read_file(2..6), Ok(vec![12, 13, 14, 15]));
    assert_eq!(file.read_file(4..7), Ok(vec![14, 15, 16]));
    assert_eq!(file.read_file(0..7), Ok(vec![10, 11, 12, 13, 14, 15, 16]));
}

#[test]
fn reads_past_the_map() {
    let mut file = MemoryMappedFile::open_file(0, vec![10, 11]);
    file.write_file(2, &[12, 13, 14, 15]);
    assert_eq!(file.read_file(3..6), Ok(vec![13, 14, 15]));
    assert_eq!(file.read_file(5..6), Ok(vec![15]));
}

#[test]
fn reads_past_the_end_of_the_file_are_out_of_range() {
    let mut file = MemoryMappedFile::open_file(0, vec![10, 11, 12]);
    assert_eq!(file.read_file(0..4), Err(RegionError::OutOfRange));
    assert_eq!(file.read_file(3..4), Err(RegionError::OutOfRange));
    assert_eq!(file.read_file(7..9), Err(RegionError::OutOfRange));
    file.write_file(3, &[13]);
    assert_eq!(file.read_file(2..5), Err(RegionError::OutOfRange));
    assert_eq!(file.read_file(4..5), Err(RegionError::OutOfRange));
}

#[test]
fn writes_inside_the_file_replace_bytes() {
    let mut file = MemoryMappedFile::open_file(0, vec![1, 2, 3, 4, 5]);
    file.write_file(1, &[9, 8]);
    assert_eq!(file.as_slice(), &[1, 9, 8, 4, 5]);
    file.write_file(4, &[7, 6]);
    assert_eq!(file.as_slice(), &[1, 9, 8, 4, 7, 6]);
    file.write_file(2, &[]);
    assert_eq!(file.as_slice(), &[1, 9, 8, 4, 7, 6]);
}

#[test]
fn set_len_cuts_and_fills() {
    let mut file = MemoryMappedFile::open_file(0, vec![1, 2, 3, 4, 5]);
    file.set_len(3);
    assert_eq!(file.as_slice(), &[1, 2, 3]);
    assert_eq!(file.get_mapped_size(), 3);
    file.set_len(6);
    assert_eq!(file.as_slice(), &[1, 2, 3, 0, 0, 0]);
    assert_eq!(file.get_mapped_size(), 3);
}

#[test]
fn ensure_len_only_grows() {
    let mut file = MemoryMappedFile::open_file(0, vec![1, 2, 3]);
    file.ensure_len(2);
    assert_eq!(file.as_slice(), &[1, 2, 3]);
    file.ensure_len(5);
    assert_eq!(file.as_slice(), &[1, 2, 3, 0, 0]);
    assert_eq!(file.get_mapped_size(), 3);
}

#[test]
fn closing_hands_out_the_bytes() {
    let mut file = MemoryMappedFile::open_file(4, vec![7]);
    file.write_file(2, &[9]);
    assert_eq!(file.close_file(), vec![7, 0, 9, 0]);
}

#[test]
fn positioned_reads_fill_the_buffer() {
    let file = MemoryMappedFile::open_file(0, vec![10, 11, 12, 13, 14]);
    let mut buf = vec![0u8; 3];
    assert_eq!(SpecializedFile::read_file(&file, 1, &mut buf), Ok(()));
    assert_eq!(buf, vec![11, 12, 13]);
    let mut buf = vec![7u8, 8, 9];
    assert_eq!(SpecializedFile::read_file(&file, 3, &mut buf), Err(RegionError::OutOfRange));
    assert_eq!(buf, vec![7, 8, 9]);
    assert_eq!(SpecializedFile::read_file(&file, 2, &mut buf), Ok(()));
    assert_eq!(buf, vec![12, 13, 14]);
    let mut none: Vec<u8> = Vec::new();
    assert_eq!(SpecializedFile::read_file(&file, 5, &mut none), Ok(()));
    assert_eq!(SpecializedFile::read_file(&file, 6, &mut none), Err(RegionError::OutOfRange));
    assert_eq!(SpecializedFile::read_file(&file, usize::MAX, &mut buf), Err(RegionError::OutOfRange));
    assert_eq!(SpecializedFile::get_file_size(&file), Ok(5));
    assert_eq!(SpecializedFile::close_file(file), Ok(()));
}
