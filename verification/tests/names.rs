use region_file::file_name::{get_chunk_coords, oversized_file_name, push_decimal, region_file_name};
use region_file::region_file_util::{get_chunk_region_coords, get_region_coords, Coords};
use region_file::region_key::RegionKey;

fn key(directory: &str, x: i32, z: i32) -> RegionKey {
    RegionKey { coords: Coords { x, z }, directory: String::from(directory) }
}

#[test]
fn region_file_is_named_by_its_coordinates() {
    assert_eq!(region_file_name(&key("world/region", 0, 0)), "world/region/r.0.0.mca");
    assert_eq!(region_file_name(&key("world", -3, 12)), "world/r.-3.12.mca");
    assert_eq!(region_file_name(&key("", 100, -1000)), "/r.100.-1000.mca");
}

#[test]
fn overflow_file_is_named_by_the_coordinates_of_its_chunk() {
    assert_eq!(oversized_file_name("world", Coords { x: -97, z: 0 }), "world/c.-97.0.mcc");
    assert_eq!(oversized_file_name("a/b", Coords { x: 31, z: 32 }), "a/b/c.31.32.mcc");
    assert_eq!(
        oversized_file_name("w", Coords { x: i32::MIN, z: i32::MAX }),
        "w/c.-2147483648.2147483647.mcc"
    );
}

#[test]
fn numbers_are_written_in_signed_decimal() {
    for n in [0, 1, 9, 10, 11, 99, 100, 1234567890, -1, -9, -10, -2147483647, i32::MIN, i32::MAX] {
        let mut out = String::from("n=");
        push_decimal(&mut out, n);
        assert_eq!(out, format!("n={}", n));
    }
}

#[test]
fn chunk_coordinates_of_a_cell() {
    let chunk = get_chunk_coords(Coords { x: -1, z: 2 }, Coords { x: 31, z: 0 });
    assert_eq!((chunk.x, chunk.z), (-1, 64));
    let chunk = get_chunk_coords(Coords { x: 0, z: -2 }, Coords { x: 5, z: 1 });
    assert_eq!((chunk.x, chunk.z), (5, -63));
    let chunk = get_chunk_coords(Coords { x: -0x400_0000, z: 0x3ff_ffff }, Coords { x: 0, z: 31 });
    assert_eq!((chunk.x, chunk.z), (i32::MIN, i32::MAX));
}

#[test]
fn cell_and_region_of_a_chunk_give_the_chunk_back() {
    for (x, z) in [(0, 0), (-1, -1), (33, -65), (1000, -1000), (i32::MIN, i32::MAX)] {
        let chunk = Coords { x, z };
        let back = get_chunk_coords(get_region_coords(chunk), get_chunk_region_coords(chunk));
        assert_eq!((back.x, back.z), (x, z));
    }
}

#[test]
fn keys_name_one_region_when_all_three_parts_agree() {
    assert!(key("world", 1, 2).names_same_region(&key("world", 1, 2)));
    assert!(!key("world", 1, 2).names_same_region(&key("world", 2, 1)));
    assert!(!key("world", 1, 2).names_same_region(&key("world", 1, 3)));
    assert!(!key("world", 1, 2).names_same_region(&key("nether", 1, 2)));
}
