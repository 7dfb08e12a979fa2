use region_file::allocator::{addressable_sectors, MutableRegionMetadata};
use region_file::range_util::{consolidate, consolidate_all, order_by_start};
use std::cmp::Ordering;

#[test]
fn overlapping_ranges_merge() {
    assert_eq!(consolidate(&(1..5), &(3..8)), Some(1..8));
    assert_eq!(consolidate(&(3..8), &(1..5)), Some(1..8));
}

#[test]
fn touching_ranges_merge() {
    assert_eq!(consolidate(&(1..5), &(5..8)), Some(1..8));
    assert_eq!(consolidate(&(5..8), &(1..5)), Some(1..8));
}

#[test]
fn a_range_inside_another_gives_the_outer() {
    assert_eq!(consolidate(&(1..10), &(3..8)), Some(1..10));
    assert_eq!(consolidate(&(3..8), &(1..10)), Some(1..10));
    assert_eq!(consolidate(&(1..10), &(1..10)), Some(1..10));
    assert_eq!(consolidate(&(1..10), &(1..4)), Some(1..10));
}

#[test]
fn ranges_parted_by_a_gap_do_not_merge() {
    assert_eq!(consolidate(&(1..5), &(6..8)), None);
    assert_eq!(consolidate(&(6..8), &(1..5)), None);
}

#[test]
fn consolidate_all_sorts_and_merges() {
    let out = consolidate_all(vec![10..12, 1..3, 3..5, 20..25, 11..15, 2..4]);
    assert_eq!(out, vec![1..5, 10..15, 20..25]);
}

#[test]
fn consolidate_all_of_nothing_is_nothing() {
    assert_eq!(consolidate_all(Vec::new()), Vec::<std::ops::Range<u32>>::new());
}

#[test]
fn consolidate_all_keeps_separate_ranges_in_rising_order() {
    let out = consolidate_all(vec![9..10, 5..6, 7..8, 1..2]);
    assert_eq!(out, vec![1..2, 5..6, 7..8, 9..10]);
}

#[test]
fn consolidate_all_of_one_chain_is_one_range() {
    let out = consolidate_all(vec![4..5, 3..4, 2..3, 5..6]);
    assert_eq!(out, vec![2..6]);
}

#[test]
fn free_set_is_the_gaps_between_claimed_ranges() {
    let metadata = MutableRegionMetadata::new(vec![10..12, 0..0, 2..4, 6..7, 0..0], 0);
    assert_eq!(metadata.free_ranges(), &vec![4..6, 7..10]);
    assert_eq!(metadata.wanted_space(), 12);
}

#[test]
fn free_set_of_an_empty_table_is_empty() {
    let metadata = MutableRegionMetadata::new(vec![0..0; 1024], 2);
    assert!(metadata.free_ranges().is_empty());
    assert_eq!(metadata.wanted_space(), 2);
}

#[test]
fn planned_space_ends_with_the_file_where_it_is_longer() {
    let metadata = MutableRegionMetadata::new(vec![2..3], 10);
    assert!(metadata.free_ranges().is_empty());
    assert_eq!(metadata.wanted_space(), 10);
    let metadata = MutableRegionMetadata::new(vec![5..9], 3);
    assert_eq!(metadata.free_ranges(), &vec![2..5]);
    assert_eq!(metadata.wanted_space(), 9);
}

#[test]
fn overlapping_claims_leave_no_gap_between_them() {
    let metadata = MutableRegionMetadata::new(vec![2..6, 4..5, 8..9], 0);
    assert_eq!(metadata.free_ranges(), &vec![6..8]);
    assert_eq!(metadata.wanted_space(), 9);
}

#[test]
fn released_range_merges_with_its_neighbours() {
    let mut metadata = MutableRegionMetadata::new(vec![2..4, 6..8, 10..12], 0);
    assert_eq!(metadata.free_ranges(), &vec![4..6, 8..10]);
    metadata.release(6..8);
    assert_eq!(metadata.free_ranges(), &vec![4..10]);
    metadata.release(20..22);
    assert_eq!(metadata.free_ranges(), &vec![4..10, 20..22]);
    metadata.release(2..4);
    assert_eq!(metadata.free_ranges(), &vec![2..10, 20..22]);
}

#[test]
fn released_empty_range_changes_nothing() {
    let mut metadata = MutableRegionMetadata::new(vec![2..4, 6..8], 0);
    metadata.release(5..5);
    assert_eq!(metadata.free_ranges(), &vec![4..6]);
}

#[test]
fn payload_of_the_same_size_stays() {
    let mut metadata = MutableRegionMetadata::new(vec![2..4, 6..8], 0);
    assert_eq!(metadata.allocate(6..8, 2), Some(6..8));
    assert_eq!(metadata.free_ranges(), &vec![4..6]);
    assert_eq!(metadata.wanted_space(), 8);
}

#[test]
fn shrinking_payload_keeps_its_front_and_frees_its_tail() {
    let mut metadata = MutableRegionMetadata::new(vec![2..6, 8..9], 0);
    assert_eq!(metadata.allocate(2..6, 1), Some(2..3));
    assert_eq!(metadata.free_ranges(), &vec![3..8]);
    assert_eq!(metadata.wanted_space(), 9);
}

#[test]
fn growing_payload_takes_the_first_range_that_fits() {
    let mut metadata = MutableRegionMetadata::new(vec![2..3, 4..5, 8..9, 20..21, 22..23], 0);
    assert_eq!(metadata.free_ranges(), &vec![3..4, 5..8, 9..20, 21..22]);
    assert_eq!(metadata.allocate(22..23, 2), Some(5..7));
    assert_eq!(metadata.free_ranges(), &vec![3..4, 7..8, 9..20, 21..23]);
    assert_eq!(metadata.wanted_space(), 23);
}

#[test]
fn growing_payload_prefers_a_range_that_touches_it() {
    let mut metadata = MutableRegionMetadata::new(vec![2..3, 6..7, 10..11, 14..15], 0);
    assert_eq!(metadata.free_ranges(), &vec![3..6, 7..10, 11..14]);
    assert_eq!(metadata.allocate(10..11, 2), Some(7..9));
    assert_eq!(metadata.free_ranges(), &vec![3..6, 9..14]);
}

#[test]
fn growing_payload_that_uses_a_whole_range_removes_it() {
    let mut metadata = MutableRegionMetadata::new(vec![2..3, 6..7, 10..11], 0);
    assert_eq!(metadata.free_ranges(), &vec![3..6, 7..10]);
    assert_eq!(metadata.allocate(10..11, 3), Some(7..10));
    assert_eq!(metadata.free_ranges(), &vec![3..6, 10..11]);
}

#[test]
fn growing_payload_goes_past_the_end_where_nothing_fits() {
    let mut metadata = MutableRegionMetadata::new(vec![2..3, 3..4], 0);
    assert_eq!(metadata.allocate(2..3, 2), Some(4..6));
    assert_eq!(metadata.free_ranges(), &vec![2..3]);
    assert_eq!(metadata.wanted_space(), 6);
}

#[test]
fn empty_cell_is_placed_without_freeing_anything() {
    let mut metadata = MutableRegionMetadata::new(Vec::new(), 2);
    assert_eq!(metadata.allocate(0..0, 3), Some(2..5));
    assert!(metadata.free_ranges().is_empty());
    assert_eq!(metadata.wanted_space(), 5);
}

#[test]
fn payload_is_put_at_the_last_start_a_header_can_name() {
    let mut metadata = MutableRegionMetadata::new(vec![2..0x00ff_ffff], 0);
    assert_eq!(metadata.wanted_space(), 0x00ff_ffff);
    assert_eq!(metadata.allocate(0..0, 2), Some(0x00ff_ffff..0x0100_0001));
    assert!(metadata.free_ranges().is_empty());
    assert_eq!(metadata.wanted_space(), 0x0100_0001);
}

#[test]
fn no_place_at_an_end_that_a_header_cannot_name() {
    let mut metadata = MutableRegionMetadata::new(vec![2..0x0100_0000], 0);
    assert_eq!(metadata.wanted_space(), 0x0100_0000);
    assert_eq!(metadata.allocate(0..0, 1), None);
    assert!(metadata.free_ranges().is_empty());
    assert_eq!(metadata.wanted_space(), 0x0100_0000);
    assert_eq!(metadata.allocate(5..9, 5), None);
    assert_eq!(metadata.allocate(5..9, 4), Some(5..9));
    assert_eq!(metadata.allocate(5..9, 1), Some(5..6));
    assert_eq!(metadata.free_ranges(), &vec![6..9]);
}

#[test]
fn free_range_is_taken_by_its_start_not_its_end() {
    let mut metadata =
        MutableRegionMetadata::new(vec![2..0x00ff_ffff, 0x0100_0002..0x0100_0003], 0);
    assert_eq!(metadata.free_ranges(), &vec![0x00ff_ffff..0x0100_0002]);
    assert_eq!(metadata.allocate(0..0, 3), Some(0x00ff_ffff..0x0100_0002));
    assert!(metadata.free_ranges().is_empty());
    assert_eq!(metadata.wanted_space(), 0x0100_0003);
}

#[test]
fn free_range_whose_start_no_header_can_name_is_passed_over() {
    let mut metadata =
        MutableRegionMetadata::new(vec![2..0x0100_0000, 0x0100_0005..0x0100_0006], 0);
    assert_eq!(metadata.free_ranges(), &vec![0x0100_0000..0x0100_0005]);
    assert_eq!(metadata.allocate(0..0, 2), None);
    assert_eq!(metadata.free_ranges(), &vec![0x0100_0000..0x0100_0005]);
}

#[test]
fn every_machine_addresses_the_first_million_sectors() {
    let limit = addressable_sectors();
    assert!(limit >= 0x000f_ffff);
    assert_eq!(limit as u64, (usize::MAX as u64 / 4096).min(u32::MAX as u64));
}

#[test]
fn ranges_are_ordered_by_their_starts() {
    assert_eq!(order_by_start(&(1..9), &(2..3)), Ordering::Less);
    assert_eq!(order_by_start(&(2..9), &(2..3)), Ordering::Equal);
    assert_eq!(order_by_start(&(3..4), &(2..30)), Ordering::Greater);
}
