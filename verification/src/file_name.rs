//! The names of region files and overflow files.

use vstd::prelude::*;
use vstd::string::StringExecFns;
use crate::region_file_util::{local_of, region_of, Coords};
use crate::region_key::RegionKey;

verus! {

/// The character for a decimal digit.
pub open spec fn digit(d: int) -> char {
    if d == 0 {
        '0'
    } else if d == 1 {
        '1'
    } else if d == 2 {
        '2'
    } else if d == 3 {
        '3'
    } else if d == 4 {
        '4'
    } else if d == 5 {
        '5'
    } else if d == 6 {
        '6'
    } else if d == 7 {
        '7'
    } else if d == 8 {
        '8'
    } else {
        '9'
    }
}

/// The decimal digits of a natural number, without leading zeros.
pub open spec fn digits(n: nat) -> Seq<char>
    decreases n,
{
    if n < 10 {
        seq![digit(n as int)]
    } else {
        digits(n / 10).push(digit(n as int % 10))
    }
}

/// A number in signed decimal: a minus sign before the digits of a negative
/// number.
pub open spec fn decimal(n: int) -> Seq<char> {
    if n < 0 {
        seq!['-'] + digits((-n) as nat)
    } else {
        digits(n as nat)
    }
}

/// The name of the file of the region at `(x, z)` in `directory`.
pub open spec fn region_name(directory: Seq<char>, x: int, z: int) -> Seq<char> {
    directory + seq!['/', 'r', '.'] + decimal(x) + seq!['.'] + decimal(z) + seq![
        '.',
        'm',
        'c',
        'a',
    ]
}

/// The name of the overflow file of the chunk at `(x, z)` in `directory`.
pub open spec fn overflow_name(directory: Seq<char>, x: int, z: int) -> Seq<char> {
    directory + seq!['/', 'c', '.'] + decimal(x) + seq!['.'] + decimal(z) + seq![
        '.',
        'm',
        'c',
        'c',
    ]
}

/// The text of one decimal digit.
fn digit_text(d: u32) -> (text: &'static str)
    requires
        d < 10,
    ensures
        text@ == seq![digit(d as int)],
{
    proof {
        reveal_strlit("0");
        reveal_strlit("1");
        reveal_strlit("2");
        reveal_strlit("3");
        reveal_strlit("4");
        reveal_strlit("5");
        reveal_strlit("6");
        reveal_strlit("7");
        reveal_strlit("8");
        reveal_strlit("9");
    }
    let text: &'static str = match d {
        0 => "0",
        1 => "1",
        2 => "2",
        3 => "3",
        4 => "4",
        5 => "5",
        6 => "6",
        7 => "7",
        8 => "8",
        _ => "9",
    };
    assert(text@ =~= seq![digit(d as int)]);
    text
}

/// Appends the decimal digits of `n` to `out`.
fn push_digits(out: &mut String, n: u32)
    ensures
        final(out)@ == old(out)@ + digits(n as nat),
    decreases n,
{
    if n >= 10 {
        push_digits(out, n / 10);
    }
    out.append(digit_text(n % 10));
    assert(out@ =~= old(out)@ + digits(n as nat));
}

/// Appends `n` in signed decimal to `out`.
pub fn push_decimal(out: &mut String, n: i32)
    ensures
        final(out)@ == old(out)@ + decimal(n as int),
{
    if n < 0 {
        proof {
            reveal_strlit("-");
        }
        out.append("-");
        let magnitude: u32 = (-(n as i64)) as u32;
        push_digits(out, magnitude);
        assert(out@ =~= old(out)@ + decimal(n as int));
    } else {
        push_digits(out, n as u32);
    }
}

/// The coordinates on the chunk grid of the cell `chunk_region_coords` of the
/// region at `region_coords`.
pub fn get_chunk_coords(region_coords: Coords, chunk_region_coords: Coords) -> (chunk: Coords)
    requires
        -0x400_0000 <= region_coords.x < 0x400_0000,
        -0x400_0000 <= region_coords.z < 0x400_0000,
        0 <= chunk_region_coords.x < 32,
        0 <= chunk_region_coords.z < 32,
    ensures
        chunk.x == region_coords.x * 32 + chunk_region_coords.x,
        chunk.z == region_coords.z * 32 + chunk_region_coords.z,
        region_of(chunk.x as int) == region_coords.x,
        region_of(chunk.z as int) == region_coords.z,
        local_of(chunk.x as int) == chunk_region_coords.x,
        local_of(chunk.z as int) == chunk_region_coords.z,
{
    let x: i32 = region_coords.x * 32 + chunk_region_coords.x;
    let z: i32 = region_coords.z * 32 + chunk_region_coords.z;
    proof {
        vstd::arithmetic::div_mod::lemma_fundamental_div_mod_converse(
            x as int,
            32,
            region_coords.x as int,
            chunk_region_coords.x as int,
        );
        vstd::arithmetic::div_mod::lemma_fundamental_div_mod_converse(
            z as int,
            32,
            region_coords.z as int,
            chunk_region_coords.z as int,
        );
    }
    Coords { x, z }
}

/// The name of the file of the region that `key` names: `r.X.Z.mca` in the
/// key's directory, with the region's coordinates in signed decimal.
pub fn region_file_name(key: &RegionKey) -> (name: String)
    ensures
        name@ == region_name(key.directory@, key.coords.x as int, key.coords.z as int),
{
    proof {
        reveal_strlit("/r.");
        reveal_strlit(".");
        reveal_strlit(".mca");
    }
    let mut name: String = key.directory.clone();
    name.append("/r.");
    push_decimal(&mut name, key.coords.x);
    name.append(".");
    push_decimal(&mut name, key.coords.z);
    name.append(".mca");
    assert(name@ =~= region_name(key.directory@, key.coords.x as int, key.coords.z as int));
    name
}

/// The name of the overflow file of the chunk at `chunk_coords`: `c.X.Z.mcc`
/// in `directory`, with the chunk's coordinates in signed decimal.
pub fn oversized_file_name(directory: &str, chunk_coords: Coords) -> (name: String)
    ensures
        name@ == overflow_name(directory@, chunk_coords.x as int, chunk_coords.z as int),
{
    proof {
        reveal_strlit("/c.");
        reveal_strlit(".");
        reveal_strlit(".mcc");
    }
    let mut name: String = String::from_str(directory);
    name.append("/c.");
    push_decimal(&mut name, chunk_coords.x);
    name.append(".");
    push_decimal(&mut name, chunk_coords.z);
    name.append(".mcc");
    assert(name@ =~= overflow_name(directory@, chunk_coords.x as int, chunk_coords.z as int));
    name
}

} // verus!
