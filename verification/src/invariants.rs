//! What holds of a region between operations: no two cells claim one sector,
//! no claimed sector is free, and free and claimed sectors together are the
//! planned space. What a write leaves of the file as it was.

use std::ops::Range;
use vstd::prelude::*;
use crate::compression::CompressionType;
use crate::allocator::{
    free_after, lemma_placement, picked, placement, some_fit, span, wanted_end_after,
    FIRST_PAYLOAD_SECTOR, SECTOR_LIMIT,
};
use crate::layout::{
    as_read, claimed, entry_bytes, entry_count, entry_start, entry_timestamp, image_after_write,
    is_oversized, payload_body, payload_bytes, payload_length, payload_marker, sectors_wanted,
    stored, CELLS,
};
use crate::memory_mapped_file::written;
use crate::memory_util::be32_bytes;
use crate::range_util::{all_positive, covers, holds, separated};
use crate::region_file_util::{lemma_marker_for, marker_for};

verus! {

/// Whether byte `b` of the file is one that a write for cell `idx` at the
/// sectors `placed` stores: a byte of the payload's sectors or of the cell's
/// entries in the two tables.
pub open spec fn stored_at(idx: int, placed: Range<u32>, b: int) -> bool {
    ||| placed.start * 4096 <= b < placed.end * 4096
    ||| 4 * idx <= b < 4 * idx + 4
    ||| 4096 + 4 * idx <= b < 4096 + 4 * idx + 4
}

/// A write stores the payload in its sectors and the cell's entries in the
/// tables, and leaves every other byte of the file as it was.
pub proof fn lemma_write_bytes(
    image: Seq<u8>,
    idx: int,
    placed: Range<u32>,
    codec: CompressionType,
    body: Seq<u8>,
    timestamp: u32,
)
    requires
        0 <= idx < CELLS,
        image.len() >= 8192,
        2 <= placed.start,
        placed.end == placed.start + sectors_wanted(body.len() as int),
    ensures
        ({
            let after = image_after_write(image, idx, placed, codec, body, timestamp);
            let payload = payload_bytes(codec, body);
            &&& payload.len() == sectors_wanted(body.len() as int) * 4096
            &&& after.len() >= image.len()
            &&& after.len() >= placed.end * 4096
            &&& forall|b: int|
                0 <= b < image.len() && !stored_at(idx, placed, b) ==> #[trigger] after[b]
                    == image[b]
            &&& forall|b: int|
                placed.start * 4096 <= b < placed.end * 4096 ==> #[trigger] after[b]
                    == payload[b - placed.start * 4096]
            &&& forall|b: int|
                4 * idx <= b < 4 * idx + 4 ==> #[trigger] after[b] == entry_bytes(
                    placed.start as int,
                    placed.end - placed.start,
                )[b - 4 * idx]
            &&& forall|b: int|
                4096 + 4 * idx <= b < 4096 + 4 * idx + 4 ==> #[trigger] after[b] == be32_bytes(
                    timestamp as int,
                )[b - 4096 - 4 * idx]
        }),
{
    crate::layout::lemma_sectors_for(body.len() as int);
    crate::layout::lemma_oversized_threshold(body.len() as int);
    crate::memory_util::lemma_padding_completes(5, 4096);
    let payload = payload_bytes(codec, body);
    assert(payload.len() == sectors_wanted(body.len() as int) * 4096);
    let with_payload = written(image, placed.start * 4096, payload);
    let entry = entry_bytes(placed.start as int, placed.end - placed.start);
    assert(entry.len() == 4);
    let stamp = be32_bytes(timestamp as int);
    assert(stamp.len() == 4);
    let with_timestamp = written(with_payload, 4096 + 4 * idx, stamp);
    let after = written(with_timestamp, 4 * idx, entry);
    assert(after == image_after_write(image, idx, placed, codec, body, timestamp));
    assert(with_payload.len() >= image.len());
    assert(with_payload.len() >= placed.end * 4096);
    assert(with_timestamp.len() == with_payload.len());
    assert(after.len() == with_timestamp.len());
}

/// After a write the cell's entry names the sectors of the payload, its
/// timestamp entry holds the timestamp, and the entries of the other cells
/// are as they were.
pub proof fn lemma_write_entries(
    image: Seq<u8>,
    idx: int,
    placed: Range<u32>,
    codec: CompressionType,
    body: Seq<u8>,
    timestamp: u32,
)
    requires
        0 <= idx < CELLS,
        image.len() >= 8192,
        2 <= placed.start < 0x100_0000,
        placed.end == placed.start + sectors_wanted(body.len() as int),
    ensures
        ({
            let after = image_after_write(image, idx, placed, codec, body, timestamp);
            &&& entry_start(after, idx) == placed.start
            &&& entry_count(after, idx) == placed.end - placed.start
            &&& claimed(after, idx) == placed
            &&& entry_timestamp(after, idx) == timestamp
            &&& forall|other: int|
                0 <= other < CELLS && other != idx ==> #[trigger] entry_start(after, other)
                    == entry_start(image, other)
            &&& forall|other: int|
                0 <= other < CELLS && other != idx ==> #[trigger] entry_count(after, other)
                    == entry_count(image, other)
            &&& forall|other: int|
                0 <= other < CELLS && other != idx ==> #[trigger] entry_timestamp(after, other)
                    == entry_timestamp(image, other)
            &&& forall|other: int|
                0 <= other < CELLS && other != idx ==> #[trigger] claimed(after, other) == claimed(
                    image,
                    other,
                )
        }),
{
    let after = image_after_write(image, idx, placed, codec, body, timestamp);
    lemma_write_bytes(image, idx, placed, codec, body, timestamp);
    crate::layout::lemma_oversized_threshold(body.len() as int);
    let entry = entry_bytes(placed.start as int, placed.end - placed.start);
    crate::memory_util::lemma_be24_round_trip(placed.start);
    crate::memory_util::lemma_be32_round_trip(timestamp);
    assert(after[4 * idx] == entry[0]);
    assert(after[4 * idx + 1] == entry[1]);
    assert(after[4 * idx + 2] == entry[2]);
    assert(after[4 * idx + 3] == entry[3]);
    assert(after[4096 + 4 * idx] == be32_bytes(timestamp as int)[0]);
    assert(after[4096 + 4 * idx + 1] == be32_bytes(timestamp as int)[1]);
    assert(after[4096 + 4 * idx + 2] == be32_bytes(timestamp as int)[2]);
    assert(after[4096 + 4 * idx + 3] == be32_bytes(timestamp as int)[3]);
    assert forall|other: int| 0 <= other < CELLS && other != idx implies (#[trigger] entry_start(
        after,
        other,
    ) == entry_start(image, other) && entry_count(after, other) == entry_count(image, other)
        && entry_timestamp(after, other) == entry_timestamp(image, other)) by {
        assert(!stored_at(idx, placed, 4 * other));
        assert(!stored_at(idx, placed, 4 * other + 1));
        assert(!stored_at(idx, placed, 4 * other + 2));
        assert(!stored_at(idx, placed, 4 * other + 3));
        assert(!stored_at(idx, placed, 4096 + 4 * other));
        assert(!stored_at(idx, placed, 4096 + 4 * other + 1));
        assert(!stored_at(idx, placed, 4096 + 4 * other + 2));
        assert(!stored_at(idx, placed, 4096 + 4 * other + 3));
        assert(after[4 * other] == image[4 * other]);
        assert(after[4 * other + 1] == image[4 * other + 1]);
        assert(after[4 * other + 2] == image[4 * other + 2]);
        assert(after[4 * other + 3] == image[4 * other + 3]);
        assert(after[4096 + 4 * other] == image[4096 + 4 * other]);
        assert(after[4096 + 4 * other + 1] == image[4096 + 4 * other + 1]);
        assert(after[4096 + 4 * other + 2] == image[4096 + 4 * other + 2]);
        assert(after[4096 + 4 * other + 3] == image[4096 + 4 * other + 3]);
    }
}

/// After a write the payload at the cell's start sector records the length of
/// compression byte and body, names the codec, and holds the body; the
/// placeholder of an oversized payload records the compression byte alone and
/// carries the overflow mark.
pub proof fn lemma_write_payload(
    image: Seq<u8>,
    idx: int,
    placed: Range<u32>,
    codec: CompressionType,
    body: Seq<u8>,
    timestamp: u32,
)
    requires
        0 <= idx < CELLS,
        image.len() >= 8192,
        2 <= placed.start,
        placed.end == placed.start + sectors_wanted(body.len() as int),
    ensures
        ({
            let after = image_after_write(image, idx, placed, codec, body, timestamp);
            let oversized = is_oversized(body.len() as int);
            &&& payload_marker(after, placed.start as int) == marker_for(codec, oversized)
            &&& payload_length(after, placed.start as int) == if oversized {
                1
            } else {
                body.len() as int + 1
            }
            &&& !oversized ==> payload_body(after, placed.start as int) == body
            &&& 4 + payload_length(after, placed.start as int) <= (placed.end - placed.start)
                * 4096
        }),
{
    let after = image_after_write(image, idx, placed, codec, body, timestamp);
    let payload = payload_bytes(codec, body);
    let at = placed.start * 4096;
    lemma_write_bytes(image, idx, placed, codec, body, timestamp);
    crate::layout::lemma_sectors_for(body.len() as int);
    crate::layout::lemma_oversized_threshold(body.len() as int);
    assert(after[at] == payload[0]);
    assert(after[at + 1] == payload[1]);
    assert(after[at + 2] == payload[2]);
    assert(after[at + 3] == payload[3]);
    assert(after[at + 4] == payload[4]);
    if is_oversized(body.len() as int) {
        crate::memory_util::lemma_be32_round_trip(1);
        assert(payload[0] == be32_bytes(1)[0]);
        assert(payload[1] == be32_bytes(1)[1]);
        assert(payload[2] == be32_bytes(1)[2]);
        assert(payload[3] == be32_bytes(1)[3]);
    } else {
        let length = (body.len() + 1) as u32;
        crate::memory_util::lemma_be32_round_trip(length);
        assert(payload[0] == be32_bytes(length as int)[0]);
        assert(payload[1] == be32_bytes(length as int)[1]);
        assert(payload[2] == be32_bytes(length as int)[2]);
        assert(payload[3] == be32_bytes(length as int)[3]);
        assert(payload_length(after, placed.start as int) == body.len() + 1);
        assert forall|k: int| 0 <= k < body.len() implies payload_body(
            after,
            placed.start as int,
        )[k] == body[k] by {
            assert(after[at + 5 + k] == payload[5 + k]);
        }
        assert(payload_body(after, placed.start as int) =~= body);
    }
}

/// Whether cell `idx` holds a payload.
pub open spec fn live(image: Seq<u8>, idx: int) -> bool {
    entry_count(image, idx) > 0
}

/// Whether cell `idx` holds a payload whose sectors include sector `p`.
pub open spec fn claims(image: Seq<u8>, idx: int, p: int) -> bool {
    live(image, idx) && entry_start(image, idx) <= p < entry_start(image, idx) + entry_count(
        image,
        idx,
    )
}

/// Whether two ranges share no sector.
pub open spec fn apart(a: Range<u32>, b: Range<u32>) -> bool {
    a.end <= b.start || b.end <= a.start
}

/// Whether the entry of cell `idx` is sound: an empty cell has a zero entry;
/// any other claims sectors behind the tables and inside the planned space,
/// and its payload, as long as its header says, lies inside those sectors.
pub open spec fn cell_sound(image: Seq<u8>, idx: int, wanted_end: int) -> bool {
    let start = entry_start(image, idx);
    let count = entry_count(image, idx);
    if count == 0 {
        start == 0
    } else {
        &&& FIRST_PAYLOAD_SECTOR <= start
        &&& start + count <= wanted_end
        &&& 1 <= payload_length(image, start)
        &&& 4 + payload_length(image, start) <= count * 4096
    }
}

/// Whether every entry of the header table is sound.
pub open spec fn cells_sound(image: Seq<u8>, wanted_end: int) -> bool {
    forall|idx: int| 0 <= idx < CELLS ==> #[trigger] cell_sound(image, idx, wanted_end)
}

/// Whether no sector is claimed by two cells.
pub open spec fn cells_apart(image: Seq<u8>) -> bool {
    forall|i: int, j: int|
        0 <= i < CELLS && 0 <= j < CELLS && i != j && #[trigger] live(image, i) && #[trigger] live(
            image,
            j,
        ) ==> apart(claimed(image, i), claimed(image, j))
}

/// Whether every free range lies behind the tables and inside the planned
/// space.
pub open spec fn free_in_bounds(free: Seq<Range<u32>>, wanted_end: int) -> bool {
    forall|k: int|
        0 <= k < free.len() ==> FIRST_PAYLOAD_SECTOR <= (#[trigger] free[k]).start && free[k].end
            <= wanted_end
}

/// Whether no sector that a cell claims is free.
pub open spec fn free_unclaimed(image: Seq<u8>, free: Seq<Range<u32>>) -> bool {
    forall|idx: int, p: int| 0 <= idx < CELLS && #[trigger] claims(image, idx, p) ==> !covers(free, p)
}

/// Whether sector `p` is free or claimed by a cell.
pub open spec fn accounted(image: Seq<u8>, free: Seq<Range<u32>>, p: int) -> bool {
    covers(free, p) || exists|idx: int| 0 <= idx < CELLS && #[trigger] claims(image, idx, p)
}

/// The state of a region is consistent: the file holds the planned space, the
/// entries of the header table are sound, no two cells claim one sector, the
/// free ranges are in normal form inside the planned space, and no claimed
/// sector is free.
pub open spec fn consistent(image: Seq<u8>, free: Seq<Range<u32>>, wanted_end: int) -> bool {
    &&& image.len() >= 8192
    &&& FIRST_PAYLOAD_SECTOR <= wanted_end
    &&& wanted_end * 4096 <= image.len()
    &&& cells_sound(image, wanted_end)
    &&& cells_apart(image)
    &&& all_positive(free)
    &&& separated(free)
    &&& free_in_bounds(free, wanted_end)
    &&& free_unclaimed(image, free)
}

/// The free and the claimed sectors together are exactly the planned space
/// behind the tables: every sector of it is free or claimed, and, the state
/// being consistent, none is both and none is claimed twice.
pub open spec fn partitioned(image: Seq<u8>, free: Seq<Range<u32>>, wanted_end: int) -> bool {
    &&& consistent(image, free, wanted_end)
    &&& forall|p: int| FIRST_PAYLOAD_SECTOR <= p < wanted_end ==> #[trigger] accounted(image, free, p)
}

/// In a consistent state every free sector and every claimed sector lies
/// behind the tables and inside the planned space.
pub proof fn lemma_consistent_bounds(image: Seq<u8>, free: Seq<Range<u32>>, wanted_end: int, p: int)
    requires
        consistent(image, free, wanted_end),
    ensures
        covers(free, p) ==> FIRST_PAYLOAD_SECTOR <= p < wanted_end,
        forall|idx: int|
            0 <= idx < CELLS && #[trigger] claims(image, idx, p) ==> FIRST_PAYLOAD_SECTOR <= p
                < wanted_end,
{
    if covers(free, p) {
        let k = choose|k: int| 0 <= k < free.len() && holds(#[trigger] free[k], p);
        assert(FIRST_PAYLOAD_SECTOR <= free[k].start);
    }
    assert forall|idx: int| 0 <= idx < CELLS && #[trigger] claims(image, idx, p) implies FIRST_PAYLOAD_SECTOR
        <= p < wanted_end by {
        assert(cell_sound(image, idx, wanted_end));
    }
}

/// The sectors that a write in a consistent state is placed at lie behind the
/// tables, and no other cell claims one of them.
pub proof fn lemma_placed_apart(
    image: Seq<u8>,
    free: Seq<Range<u32>>,
    wanted_end: u32,
    idx: int,
    wanted: u32,
    placed: Range<u32>,
)
    requires
        consistent(image, free, wanted_end as int),
        0 <= idx < CELLS,
        1 <= wanted,
        placement(free, wanted_end, claimed(image, idx), wanted) == Some(placed),
    ensures
        FIRST_PAYLOAD_SECTOR <= placed.start < SECTOR_LIMIT,
        placed.end == placed.start + wanted,
        placed.end <= wanted_end_after(free, wanted_end, claimed(image, idx), wanted),
        wanted_end <= wanted_end_after(free, wanted_end, claimed(image, idx), wanted),
        forall|other: int|
            0 <= other < CELLS && other != idx && #[trigger] live(image, other) ==> apart(
                claimed(image, other),
                placed,
            ),
{
    let cur = claimed(image, idx);
    crate::layout::lemma_claimed_valid(image, idx);
    lemma_placement(free, wanted_end, cur, wanted);
    assert(cell_sound(image, idx, wanted_end as int));
    if wanted <= span(cur) {
        assert(live(image, idx));
        assert forall|other: int|
            0 <= other < CELLS && other != idx && #[trigger] live(image, other) implies apart(
            claimed(image, other),
            placed,
        ) by {
            assert(apart(claimed(image, other), claimed(image, idx)));
        }
    } else if some_fit(free, wanted) {
        let i = choose|i: int|
            0 <= i < free.len() && picked(free, cur, wanted, i) && (#[trigger] free[i]).start
                == placed.start && placed.end <= free[i].end;
        assert(FIRST_PAYLOAD_SECTOR <= free[i].start && free[i].end <= wanted_end);
        assert forall|other: int|
            0 <= other < CELLS && other != idx && #[trigger] live(image, other) implies apart(
            claimed(image, other),
            placed,
        ) by {
            crate::layout::lemma_claimed_valid(image, other);
            let c = claimed(image, other);
            if !apart(c, placed) {
                let p = if c.start >= placed.start { c.start as int } else { placed.start as int };
                assert(claims(image, other, p));
                assert(holds(free[i], p));
                assert(covers(free, p));
            }
        }
    } else {
        assert forall|other: int|
            0 <= other < CELLS && other != idx && #[trigger] live(image, other) implies apart(
            claimed(image, other),
            placed,
        ) by {
            crate::layout::lemma_claimed_valid(image, other);
            assert(cell_sound(image, other, wanted_end as int));
        }
    }
}

/// A write leaves the payload of every cell whose sectors it does not touch
/// as it was: its header and its body.
pub proof fn lemma_write_keeps_payload(
    image: Seq<u8>,
    idx: int,
    placed: Range<u32>,
    codec: CompressionType,
    body: Seq<u8>,
    timestamp: u32,
    other: int,
    wanted_end: int,
)
    requires
        0 <= idx < CELLS,
        0 <= other < CELLS,
        other != idx,
        image.len() >= 8192,
        wanted_end * 4096 <= image.len(),
        2 <= placed.start,
        placed.end == placed.start + sectors_wanted(body.len() as int),
        live(image, other),
        cell_sound(image, other, wanted_end),
        apart(claimed(image, other), placed),
    ensures
        ({
            let after = image_after_write(image, idx, placed, codec, body, timestamp);
            let start = entry_start(image, other);
            &&& payload_length(after, start) == payload_length(image, start)
            &&& payload_marker(after, start) == payload_marker(image, start)
            &&& payload_body(after, start) == payload_body(image, start)
        }),
{
    let after = image_after_write(image, idx, placed, codec, body, timestamp);
    let start = entry_start(image, other);
    let count = entry_count(image, other);
    crate::layout::lemma_claimed_valid(image, other);
    lemma_write_bytes(image, idx, placed, codec, body, timestamp);
    assert forall|b: int| start * 4096 <= b < (start + count) * 4096 implies after[b] == image[b] by {
        assert(!stored_at(idx, placed, b));
    }
    assert(after[start * 4096] == image[start * 4096]);
    assert(after[start * 4096 + 1] == image[start * 4096 + 1]);
    assert(after[start * 4096 + 2] == image[start * 4096 + 2]);
    assert(after[start * 4096 + 3] == image[start * 4096 + 3]);
    assert(after[start * 4096 + 4] == image[start * 4096 + 4]);
    assert(payload_body(after, start) =~= payload_body(image, start));
}

/// What a placement in a consistent state does to one sector `p`: a sector
/// that is free afterwards lies in the planned space; no sector of the
/// payload's new range and none that another cell claims is free afterwards;
/// and a sector that was free, or that the cell held, is free afterwards
/// unless it is one of the new range.
pub proof fn lemma_free_after(
    image: Seq<u8>,
    free: Seq<Range<u32>>,
    wanted_end: u32,
    idx: int,
    wanted: u32,
    placed: Range<u32>,
    p: int,
)
    requires
        consistent(image, free, wanted_end as int),
        0 <= idx < CELLS,
        1 <= wanted,
        placement(free, wanted_end, claimed(image, idx), wanted) == Some(placed),
    ensures
        ({
            let cur = claimed(image, idx);
            let after = free_after(free, wanted_end, cur, wanted, p);
            let end = wanted_end_after(free, wanted_end, cur, wanted);
            &&& after ==> FIRST_PAYLOAD_SECTOR <= p < end
            &&& holds(placed, p) ==> !after
            &&& forall|other: int|
                0 <= other < CELLS && other != idx && #[trigger] claims(image, other, p) ==> !after
            &&& !holds(placed, p) && (covers(free, p) || claims(image, idx, p)) ==> after
            &&& wanted_end <= p < end ==> holds(placed, p)
        }),
{
    let cur = claimed(image, idx);
    let after = free_after(free, wanted_end, cur, wanted, p);
    crate::layout::lemma_claimed_valid(image, idx);
    lemma_placement(free, wanted_end, cur, wanted);
    lemma_placed_apart(image, free, wanted_end, idx, wanted, placed);
    lemma_consistent_bounds(image, free, wanted_end as int, p);
    assert(cell_sound(image, idx, wanted_end as int));
    assert(holds(cur, p) == claims(image, idx, p));
    if claims(image, idx, p) {
        assert(!covers(free, p));
    }
    assert forall|other: int|
        0 <= other < CELLS && other != idx && #[trigger] claims(image, other, p) implies !after by {
        crate::layout::lemma_claimed_valid(image, other);
        assert(!covers(free, p));
        assert(live(image, other));
        if live(image, idx) {
            assert(apart(claimed(image, other), claimed(image, idx)));
        }
        assert(!holds(cur, p));
    }
    if wanted > span(cur) && some_fit(free, wanted) {
        let i = choose|i: int|
            0 <= i < free.len() && picked(free, cur, wanted, i) && (#[trigger] free[i]).start
                == placed.start && placed.end <= free[i].end;
        if holds(placed, p) {
            assert(holds(free[i], p));
            assert(covers(free, p));
        }
    }
}

/// A write in a consistent state leaves the state consistent.
pub proof fn lemma_write_keeps_consistent(
    image: Seq<u8>,
    free: Seq<Range<u32>>,
    wanted_end: u32,
    idx: int,
    codec: CompressionType,
    body: Seq<u8>,
    timestamp: u32,
    placed: Range<u32>,
    free2: Seq<Range<u32>>,
)
    requires
        consistent(image, free, wanted_end as int),
        0 <= idx < CELLS,
        placement(free, wanted_end, claimed(image, idx), sectors_wanted(body.len() as int) as u32)
            == Some(placed),
        all_positive(free2),
        separated(free2),
        forall|p: int|
            #![trigger covers(free2, p)]
            covers(free2, p) == free_after(
                free,
                wanted_end,
                claimed(image, idx),
                sectors_wanted(body.len() as int) as u32,
                p,
            ),
    ensures
        consistent(
            image_after_write(image, idx, placed, codec, body, timestamp),
            free2,
            wanted_end_after(
                free,
                wanted_end,
                claimed(image, idx),
                sectors_wanted(body.len() as int) as u32,
            ),
        ),
{
    let wanted = sectors_wanted(body.len() as int) as u32;
    let cur = claimed(image, idx);
    let after = image_after_write(image, idx, placed, codec, body, timestamp);
    let end = wanted_end_after(free, wanted_end, cur, wanted);
    crate::layout::lemma_oversized_threshold(body.len() as int);
    lemma_placed_apart(image, free, wanted_end, idx, wanted, placed);
    lemma_write_bytes(image, idx, placed, codec, body, timestamp);
    lemma_write_entries(image, idx, placed, codec, body, timestamp);
    lemma_write_payload(image, idx, placed, codec, body, timestamp);
    assert(end * 4096 <= after.len());
    assert forall|cell: int| 0 <= cell < CELLS implies #[trigger] cell_sound(after, cell, end) by {
        assert(cell_sound(image, cell, wanted_end as int));
        if cell != idx {
            assert(entry_start(after, cell) == entry_start(image, cell));
            assert(entry_count(after, cell) == entry_count(image, cell));
            if live(image, cell) {
                lemma_write_keeps_payload(
                    image,
                    idx,
                    placed,
                    codec,
                    body,
                    timestamp,
                    cell,
                    wanted_end as int,
                );
            }
        }
    }
    assert forall|i: int, j: int|
        0 <= i < CELLS && 0 <= j < CELLS && i != j && #[trigger] live(after, i) && #[trigger] live(
            after,
            j,
        ) implies apart(claimed(after, i), claimed(after, j)) by {
        if i != idx {
            assert(entry_count(after, i) == entry_count(image, i));
            assert(claimed(after, i) == claimed(image, i));
            assert(live(image, i));
        }
        if j != idx {
            assert(entry_count(after, j) == entry_count(image, j));
            assert(claimed(after, j) == claimed(image, j));
            assert(live(image, j));
        }
        if i != idx && j != idx {
            assert(apart(claimed(image, i), claimed(image, j)));
        }
    }
    assert forall|k: int| 0 <= k < free2.len() implies FIRST_PAYLOAD_SECTOR <= (
    #[trigger] free2[k]).start && free2[k].end <= end by {
        let first = free2[k].start as int;
        let last = free2[k].end - 1;
        assert(holds(free2[k], first));
        assert(holds(free2[k], last));
        assert(covers(free2, first));
        assert(covers(free2, last));
        lemma_free_after(image, free, wanted_end, idx, wanted, placed, first);
        lemma_free_after(image, free, wanted_end, idx, wanted, placed, last);
    }
    assert forall|cell: int, p: int| 0 <= cell < CELLS && #[trigger] claims(after, cell, p) implies !covers(
        free2,
        p,
    ) by {
        lemma_free_after(image, free, wanted_end, idx, wanted, placed, p);
        if cell == idx {
            assert(holds(placed, p));
        } else {
            assert(entry_start(after, cell) == entry_start(image, cell));
            assert(entry_count(after, cell) == entry_count(image, cell));
            assert(claims(image, cell, p));
        }
    }
}

/// A write in a state where free and claimed sectors are exactly the planned
/// space leaves them so.
pub proof fn lemma_write_keeps_partitioned(
    image: Seq<u8>,
    free: Seq<Range<u32>>,
    wanted_end: u32,
    idx: int,
    codec: CompressionType,
    body: Seq<u8>,
    timestamp: u32,
    placed: Range<u32>,
    free2: Seq<Range<u32>>,
)
    requires
        partitioned(image, free, wanted_end as int),
        0 <= idx < CELLS,
        placement(free, wanted_end, claimed(image, idx), sectors_wanted(body.len() as int) as u32)
            == Some(placed),
        all_positive(free2),
        separated(free2),
        forall|p: int|
            #![trigger covers(free2, p)]
            covers(free2, p) == free_after(
                free,
                wanted_end,
                claimed(image, idx),
                sectors_wanted(body.len() as int) as u32,
                p,
            ),
    ensures
        partitioned(
            image_after_write(image, idx, placed, codec, body, timestamp),
            free2,
            wanted_end_after(
                free,
                wanted_end,
                claimed(image, idx),
                sectors_wanted(body.len() as int) as u32,
            ),
        ),
{
    let wanted = sectors_wanted(body.len() as int) as u32;
    let cur = claimed(image, idx);
    let after = image_after_write(image, idx, placed, codec, body, timestamp);
    let end = wanted_end_after(free, wanted_end, cur, wanted);
    crate::layout::lemma_oversized_threshold(body.len() as int);
    lemma_write_keeps_consistent(image, free, wanted_end, idx, codec, body, timestamp, placed, free2);
    lemma_placed_apart(image, free, wanted_end, idx, wanted, placed);
    lemma_write_entries(image, idx, placed, codec, body, timestamp);
    assert forall|p: int| FIRST_PAYLOAD_SECTOR <= p < end implies #[trigger] accounted(
        after,
        free2,
        p,
    ) by {
        lemma_free_after(image, free, wanted_end, idx, wanted, placed, p);
        if holds(placed, p) {
            assert(claims(after, idx, p));
        } else {
            assert(p < wanted_end);
            assert(accounted(image, free, p));
            if covers(free, p) {
                assert(covers(free2, p));
            } else {
                let cell = choose|cell: int| 0 <= cell < CELLS && #[trigger] claims(image, cell, p);
                if cell == idx {
                    assert(covers(free2, p));
                } else {
                    assert(entry_start(after, cell) == entry_start(image, cell));
                    assert(entry_count(after, cell) == entry_count(image, cell));
                    assert(claims(after, cell, p));
                }
            }
        }
    }
}

/// Whether cell `idx` of the file holds what an accepted write of `body` with
/// `timestamp` and `codec` stores.
///
/// The cell's entry names a start sector behind the tables and counts the
/// sectors that header and body fill, which lie in the file; its timestamp
/// entry holds `timestamp`. The payload header names the codec, and its high
/// bit is set exactly for a body too long for 255 sectors. Such a body is the
/// whole content of the overflow file, and the cell claims one sector, whose
/// payload records the compression byte alone. Any other body stands behind
/// the payload header, which records its length and the compression byte.
/// Reading the cell gives what decoding `body` gives.
pub open spec fn cell_written(
    image: Seq<u8>,
    overflow: Option<Seq<u8>>,
    idx: int,
    timestamp: u32,
    codec: CompressionType,
    body: Seq<u8>,
) -> bool {
    let start = entry_start(image, idx);
    let count = entry_count(image, idx);
    let oversized = is_oversized(body.len() as int);
    &&& FIRST_PAYLOAD_SECTOR <= start
    &&& 1 <= count == sectors_wanted(body.len() as int)
    &&& (start + count) * 4096 <= image.len()
    &&& entry_timestamp(image, idx) == timestamp
    &&& payload_marker(image, start) == marker_for(codec, oversized)
    &&& payload_marker(image, start) >= 128 <==> body.len() > 255 * 4096 - 5
    &&& if oversized {
        &&& count == 1
        &&& payload_length(image, start) == 1
        &&& overflow == Some(body)
    } else {
        &&& payload_length(image, start) == body.len() + 1
        &&& payload_body(image, start) == body
    }
    &&& stored(image, overflow, idx) == as_read(codec.decompressed(body))
}

/// Whether a write to cell `idx` left every other cell as it was: its entries
/// in both tables, and what reading it gives.
pub open spec fn others_kept(before: Seq<u8>, after: Seq<u8>, idx: int) -> bool {
    &&& forall|other: int|
        0 <= other < CELLS && other != idx ==> {
            &&& #[trigger] entry_start(after, other) == entry_start(before, other)
            &&& entry_count(after, other) == entry_count(before, other)
            &&& entry_timestamp(after, other) == entry_timestamp(before, other)
        }
    &&& forall|other: int, overflow: Option<Seq<u8>>|
        0 <= other < CELLS && other != idx ==> #[trigger] stored(after, overflow, other) == stored(
            before,
            overflow,
            other,
        )
}

/// A write in a consistent state stores the payload in the cell it is for,
/// so that the cell reads as what decoding the body gives, and leaves every
/// other cell as it was.
pub proof fn lemma_write_effect(
    image: Seq<u8>,
    free: Seq<Range<u32>>,
    wanted_end: u32,
    idx: int,
    codec: CompressionType,
    body: Seq<u8>,
    timestamp: u32,
    placed: Range<u32>,
    overflow: Option<Seq<u8>>,
)
    requires
        consistent(image, free, wanted_end as int),
        0 <= idx < CELLS,
        placement(free, wanted_end, claimed(image, idx), sectors_wanted(body.len() as int) as u32)
            == Some(placed),
        is_oversized(body.len() as int) ==> overflow == Some(body),
    ensures
        cell_written(
            image_after_write(image, idx, placed, codec, body, timestamp),
            overflow,
            idx,
            timestamp,
            codec,
            body,
        ),
        others_kept(image, image_after_write(image, idx, placed, codec, body, timestamp), idx),
        claimed(image_after_write(image, idx, placed, codec, body, timestamp), idx) == placed,
{
    let after = image_after_write(image, idx, placed, codec, body, timestamp);
    let wanted = sectors_wanted(body.len() as int) as u32;
    let oversized = is_oversized(body.len() as int);
    crate::layout::lemma_oversized_threshold(body.len() as int);
    lemma_placed_apart(image, free, wanted_end, idx, wanted, placed);
    lemma_write_bytes(image, idx, placed, codec, body, timestamp);
    lemma_write_entries(image, idx, placed, codec, body, timestamp);
    lemma_write_payload(image, idx, placed, codec, body, timestamp);
    lemma_marker_for(codec, oversized);
    assert(entry_start(after, idx) == placed.start);
    assert(payload_marker(after, placed.start as int) == marker_for(codec, oversized) as u8);
    assert forall|other: int, ov: Option<Seq<u8>>|
        0 <= other < CELLS && other != idx implies #[trigger] stored(after, ov, other) == stored(
        image,
        ov,
        other,
    ) by {
        assert(entry_start(after, other) == entry_start(image, other));
        assert(entry_count(after, other) == entry_count(image, other));
        assert(cell_sound(image, other, wanted_end as int));
        if live(image, other) {
            lemma_write_keeps_payload(
                image,
                idx,
                placed,
                codec,
                body,
                timestamp,
                other,
                wanted_end as int,
            );
            let start = entry_start(image, other);
            assert(start * 4096 + 4 + payload_length(image, start) <= image.len());
        }
    }
}

/// In a consistent state whose file this machine can address, a payload that
/// wants no more sectors than its cell holds finds its place, and so does any
/// payload while the planned space ends within the first million sectors.
pub proof fn lemma_place_found(
    image: Seq<u8>,
    free: Seq<Range<u32>>,
    wanted_end: u32,
    idx: int,
    wanted: u32,
)
    requires
        consistent(image, free, wanted_end as int),
        image.len() <= usize::MAX,
        0 <= idx < CELLS,
        1 <= wanted <= 255,
        wanted <= entry_count(image, idx) || wanted_end + wanted <= 0xf_ffff,
    ensures
        placement(free, wanted_end, claimed(image, idx), wanted) is Some,
{
    crate::layout::lemma_claimed_valid(image, idx);
    crate::allocator::lemma_end_limit();
    lemma_placement(free, wanted_end, claimed(image, idx), wanted);
    assert(cell_sound(image, idx, wanted_end as int));
}

} // verus!
