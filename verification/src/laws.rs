//! What holds of a region over any run of operations.

use vstd::prelude::*;
use crate::allocator::{is_top, top_of, FIRST_PAYLOAD_SECTOR};
use crate::chunk::write_outcome;
use crate::compression::CompressionType;
use crate::error::RegionError;
use crate::invariants::{
    accounted, cell_sound, claims, consistent, lemma_placed_apart, lemma_write_entries,
    lemma_write_keeps_consistent, lemma_write_keeps_partitioned, lemma_write_keeps_payload,
    lemma_write_payload, live, partitioned,
};
use crate::layout::{
    as_read, claimed, entry_count, entry_start, entry_timestamp, image_after_write, is_oversized,
    payload_length, payload_marker, sectors_wanted, CELLS,
};
use crate::model::{
    attached, closed, file_sectors, fresh, opened_image, opens, sound_file, taken_of, wrote,
    RegionView,
};
use crate::range_util::{covers, holds};
use crate::region_file_util::{codec_of, lemma_marker_for, marker_for, oversized_of};

verus! {

/// The free ranges of a region never overlap or touch one another, and each
/// holds at least one sector.
pub proof fn lemma_free_ranges_normal(region: RegionView, i: int, j: int)
    requires
        region.wf(),
        0 <= i < j < region.free.len(),
    ensures
        region.free[i].start < region.free[i].end,
        region.free[i].end < region.free[j].start,
        region.free[j].start < region.free[j].end,
{
}

/// A region opened over a sound file is consistent: no two cells claim one
/// sector, and no claimed sector is free. Where the file ends with the last
/// claimed sector, free and claimed sectors are exactly the planned space.
pub proof fn lemma_open_consistent(contents: Seq<u8>, directory: Seq<char>, region: RegionView)
    requires
        opens(contents, directory, Ok(region)),
        sound_file(opened_image(contents)),
    ensures
        region.consistent(),
        region.wanted_end == file_sectors(opened_image(contents)),
        top_of(taken_of(opened_image(contents))) == file_sectors(opened_image(contents))
            ==> region.partitioned(),
{
    let image = opened_image(contents);
    let taken = taken_of(image);
    let top = top_of(taken);
    let sectors = file_sectors(image);
    let free = region.free;
    assert(sectors * 4096 <= image.len());
    assert(sectors >= 2);
    assert(top <= sectors) by {
        if top != FIRST_PAYLOAD_SECTOR {
            let i = choose|i: int|
                0 <= i < taken.len() && (#[trigger] taken[i]).start < taken[i].end && taken[i].end
                    == top;
            crate::layout::lemma_claimed_valid(image, i);
            assert(cell_sound(image, i, sectors));
        }
    }
    assert(region.wanted_end == sectors);
    assert forall|k: int| 0 <= k < free.len() implies FIRST_PAYLOAD_SECTOR <= (#[trigger] free[k]).start
        && free[k].end <= sectors by {
        let first = free[k].start as int;
        let last = free[k].end - 1;
        assert(holds(free[k], first));
        assert(holds(free[k], last));
        assert(covers(free, first));
        assert(covers(free, last));
    }
    assert forall|idx: int, p: int| 0 <= idx < CELLS && #[trigger] claims(image, idx, p) implies !covers(
        free,
        p,
    ) by {
        crate::layout::lemma_claimed_valid(image, idx);
        assert(holds(taken[idx], p));
        assert(covers(taken, p));
        if covers(free, p) {
        }
    }
    assert(consistent(image, free, sectors));
    if top == sectors {
        assert forall|p: int| FIRST_PAYLOAD_SECTOR <= p < sectors implies #[trigger] accounted(
            image,
            free,
            p,
        ) by {
            if !covers(free, p) {
                assert(covers(taken, p));
                let k = choose|k: int| 0 <= k < taken.len() && holds(#[trigger] taken[k], p);
                crate::layout::lemma_claimed_valid(image, k);
                assert(claims(image, k, p));
            }
        }
    }
}

/// Every cell of a sound file opens, so a region opens over it.
pub proof fn lemma_sound_opens(image: Seq<u8>, idx: int)
    requires
        sound_file(image),
        0 <= idx < CELLS,
    ensures
        crate::chunk::opened(Some(image), idx) is Ok,
{
    assert(cell_sound(image, idx, file_sectors(image)));
    crate::layout::lemma_claimed_valid(image, idx);
}

/// A file that is as new, once filled up to the tables, is sound; no cell of
/// it claims a sector, and it ends with the tables.
pub proof fn lemma_fresh_is_sound(contents: Seq<u8>)
    requires
        fresh(contents),
    ensures
        sound_file(opened_image(contents)),
        top_of(taken_of(opened_image(contents))) == 2,
        file_sectors(opened_image(contents)) == 2,
        is_top(taken_of(opened_image(contents)), 2),
{
    let image = opened_image(contents);
    let taken = taken_of(image);
    assert(image.len() == 8192);
    assert forall|b: int| 0 <= b < 8192 implies image[b] == 0 by {}
    assert forall|cell: int| 0 <= cell < CELLS implies #[trigger] cell_sound(image, cell, 2) by {}
    assert(is_top(taken, 2));
    crate::allocator::lemma_top_unique(taken, 2, top_of(taken));
}

/// A region opened over a file that holds nothing but zeroed tables is
/// consistent, has no free range, and plans no sector behind the tables;
/// every cell of it reads as empty.
pub proof fn lemma_open_fresh(contents: Seq<u8>, directory: Seq<char>, region: RegionView, idx: int)
    requires
        contents.len() <= 8192,
        forall|b: int| 0 <= b < contents.len() ==> contents[b] == 0,
        opens(contents, directory, Ok(region)),
        0 <= idx < CELLS,
    ensures
        region.partitioned(),
        region.free.len() == 0,
        region.wanted_end == 2,
        region.read(idx) == Ok::<Option<Seq<u8>>, RegionError>(None),
{
    let image = opened_image(contents);
    let taken = taken_of(image);
    assert(image.len() == 8192);
    assert forall|b: int| 0 <= b < 8192 implies image[b] == 0 by {}
    assert forall|cell: int| 0 <= cell < CELLS implies #[trigger] cell_sound(image, cell, 2) by {}
    assert(is_top(taken, 2));
    crate::allocator::lemma_top_unique(taken, 2, top_of(taken));
    lemma_open_consistent(contents, directory, region);
    if region.free.len() > 0 {
        let first = region.free[0].start as int;
        assert(holds(region.free[0], first));
        assert(covers(region.free, first));
    }
}

/// A write to a consistent region leaves it consistent: afterwards, as
/// before, every cell is empty or claims sectors that no other cell claims
/// and that are not free.
pub proof fn lemma_write_consistent(
    pre: RegionView,
    post: RegionView,
    idx: int,
    timestamp: u32,
    codec: CompressionType,
    body: Seq<u8>,
    out: Result<(), RegionError>,
)
    requires
        pre.consistent(),
        0 <= idx < CELLS,
        wrote(pre, post, idx, timestamp, codec, body, out),
    ensures
        post.consistent(),
{
    if timestamp > pre.last_seen[idx] {
        match write_outcome(pre.image, pre.free, pre.wanted_end, idx, body.len() as int) {
            Ok(placed) => {
                lemma_write_keeps_consistent(
                    pre.image->0,
                    pre.free,
                    pre.wanted_end,
                    idx,
                    codec,
                    body,
                    timestamp,
                    placed,
                    post.free,
                );
            },
            Err(_) => {},
        }
    }
}

/// A write to a region whose free and claimed sectors are exactly the
/// planned space leaves them so.
pub proof fn lemma_write_partitioned(
    pre: RegionView,
    post: RegionView,
    idx: int,
    timestamp: u32,
    codec: CompressionType,
    body: Seq<u8>,
    out: Result<(), RegionError>,
)
    requires
        pre.partitioned(),
        0 <= idx < CELLS,
        wrote(pre, post, idx, timestamp, codec, body, out),
    ensures
        post.partitioned(),
{
    if timestamp > pre.last_seen[idx] {
        match write_outcome(pre.image, pre.free, pre.wanted_end, idx, body.len() as int) {
            Ok(placed) => {
                lemma_write_keeps_partitioned(
                    pre.image->0,
                    pre.free,
                    pre.wanted_end,
                    idx,
                    codec,
                    body,
                    timestamp,
                    placed,
                    post.free,
                );
            },
            Err(_) => {},
        }
    }
}

/// No operation lowers the timestamp that a cell has seen.
pub proof fn lemma_last_seen_rises(
    pre: RegionView,
    post: RegionView,
    idx: int,
    timestamp: u32,
    codec: CompressionType,
    body: Seq<u8>,
    out: Result<(), RegionError>,
    cell: int,
)
    requires
        pre.wf(),
        0 <= idx < CELLS,
        0 <= cell < CELLS,
        wrote(pre, post, idx, timestamp, codec, body, out) || closed(pre, post) || exists|
            bytes: Seq<u8>,
            mapped: int,
        | attached(pre, post, idx, bytes, mapped),
    ensures
        post.last_seen[cell] >= pre.last_seen[cell],
        wrote(pre, post, idx, timestamp, codec, body, out) ==> post.last_seen[idx] >= timestamp,
{
}

/// Reading a cell after a write to it that was accepted and returned gives
/// what decoding the written body gives.
pub proof fn lemma_read_after_write(
    pre: RegionView,
    post: RegionView,
    idx: int,
    timestamp: u32,
    codec: CompressionType,
    body: Seq<u8>,
    out: Result<(), RegionError>,
)
    requires
        pre.wf(),
        pre.consistent(),
        0 <= idx < CELLS,
        wrote(pre, post, idx, timestamp, codec, body, out),
        timestamp > pre.last_seen[idx],
        out is Ok,
    ensures
        post.read(idx) == as_read(codec.decompressed(body)),
        entry_timestamp(post.image->0, idx) == timestamp,
{
    let image = pre.image->0;
    let placed = write_outcome(pre.image, pre.free, pre.wanted_end, idx, body.len() as int)->Ok_0;
    let after = image_after_write(image, idx, placed, codec, body, timestamp);
    let wanted = sectors_wanted(body.len() as int) as u32;
    crate::layout::lemma_oversized_threshold(body.len() as int);
    lemma_placed_apart(image, pre.free, pre.wanted_end, idx, wanted, placed);
    crate::invariants::lemma_write_bytes(image, idx, placed, codec, body, timestamp);
    lemma_write_entries(image, idx, placed, codec, body, timestamp);
    lemma_write_payload(image, idx, placed, codec, body, timestamp);
    lemma_marker_for(codec, is_oversized(body.len() as int));
    assert(post.image == Some(after));
    assert(entry_count(after, idx) > 0);
    assert(entry_start(after, idx) == placed.start);
    assert(payload_marker(after, placed.start as int) == marker_for(
        codec,
        is_oversized(body.len() as int),
    ) as u8);
}

/// A write leaves what every other cell reads as it was.
pub proof fn lemma_write_elsewhere(
    pre: RegionView,
    post: RegionView,
    idx: int,
    timestamp: u32,
    codec: CompressionType,
    body: Seq<u8>,
    out: Result<(), RegionError>,
    other: int,
)
    requires
        pre.wf(),
        pre.consistent(),
        0 <= idx < CELLS,
        0 <= other < CELLS,
        other != idx,
        wrote(pre, post, idx, timestamp, codec, body, out),
    ensures
        post.read(other) == pre.read(other),
{
    if timestamp > pre.last_seen[idx] {
        match write_outcome(pre.image, pre.free, pre.wanted_end, idx, body.len() as int) {
            Ok(placed) => {
                let image = pre.image->0;
                let after = image_after_write(image, idx, placed, codec, body, timestamp);
                let wanted = sectors_wanted(body.len() as int) as u32;
                crate::layout::lemma_oversized_threshold(body.len() as int);
                lemma_placed_apart(image, pre.free, pre.wanted_end, idx, wanted, placed);
                crate::invariants::lemma_write_bytes(image, idx, placed, codec, body, timestamp);
                lemma_write_entries(image, idx, placed, codec, body, timestamp);
                assert(entry_start(after, other) == entry_start(image, other));
                assert(entry_count(after, other) == entry_count(image, other));
                assert(cell_sound(image, other, pre.wanted_end as int));
                if live(image, other) {
                    lemma_write_keeps_payload(
                        image,
                        idx,
                        placed,
                        codec,
                        body,
                        timestamp,
                        other,
                        pre.wanted_end as int,
                    );
                    let start = entry_start(image, other);
                    assert(start * 4096 + 4 + payload_length(image, start) <= image.len());
                }
            },
            Err(_) => {},
        }
    }
}

/// A write that follows a write to the same cell and shows a timestamp no
/// higher succeeds and changes nothing: every cell reads as after the first.
pub proof fn lemma_stale_write(
    first: RegionView,
    second: RegionView,
    third: RegionView,
    idx: int,
    timestamp: u32,
    codec: CompressionType,
    body: Seq<u8>,
    out: Result<(), RegionError>,
    later_timestamp: u32,
    later_codec: CompressionType,
    later_body: Seq<u8>,
    later_out: Result<(), RegionError>,
    cell: int,
)
    requires
        first.wf(),
        0 <= idx < CELLS,
        0 <= cell < CELLS,
        wrote(first, second, idx, timestamp, codec, body, out),
        wrote(second, third, idx, later_timestamp, later_codec, later_body, later_out),
        later_timestamp <= timestamp,
    ensures
        later_out is Ok,
        third.same_storage(second),
        third.last_seen == second.last_seen,
        third.read(cell) == second.read(cell),
{
    assert(second.last_seen[idx] >= timestamp);
    assert(third.last_seen =~= second.last_seen);
}

/// Whether the payload of cell `idx` is marked as living in an overflow file.
pub open spec fn wants_overflow(image: Seq<u8>, idx: int) -> bool {
    &&& entry_count(image, idx) > 0
    &&& entry_start(image, idx) * 4096 + 5 <= image.len()
    &&& codec_of(payload_marker(image, entry_start(image, idx))) is Some
    &&& oversized_of(payload_marker(image, entry_start(image, idx)))
}

/// The file of a consistent region opens again: over the bytes the file held,
/// every cell opens, and the region that opens is consistent and holds the
/// same bytes. Every cell of it reads as before, but for the cells whose
/// payload lives in an overflow file: those ask for the overflow file.
pub proof fn lemma_reopen(
    before: RegionView,
    directory: Seq<char>,
    out: Result<RegionView, RegionError>,
    idx: int,
)
    requires
        before.consistent(),
        0 <= idx < CELLS,
        opens(before.image->0, directory, out),
    ensures
        out is Ok,
        out->Ok_0.image == before.image,
        out->Ok_0.consistent(),
        !wants_overflow(before.image->0, idx) ==> out->Ok_0.read(idx) == before.read(idx),
        wants_overflow(before.image->0, idx) ==> out->Ok_0.read(idx) == Err::<
            Option<Seq<u8>>,
            RegionError,
        >(RegionError::OverflowNotOpen),
{
    let image = before.image->0;
    let end = before.wanted_end as int;
    assert(opened_image(image) == image);
    assert forall|cell: int| 0 <= cell < CELLS implies (#[trigger] crate::chunk::opened(
        Some(image),
        cell,
    )) is Ok by {
        assert(cell_sound(image, cell, end));
        crate::layout::lemma_claimed_valid(image, cell);
    }
    assert(end <= file_sectors(image));
    assert forall|cell: int| 0 <= cell < CELLS implies #[trigger] cell_sound(
        image,
        cell,
        file_sectors(image),
    ) by {
        assert(cell_sound(image, cell, end));
    }
    assert(sound_file(image));
    lemma_open_consistent(image, directory, out->Ok_0);
}

/// A region that was opened again reads a cell whose payload lives in an
/// overflow file as before, once the overflow file is attached with the bytes
/// it held.
pub proof fn lemma_reopen_with_overflow(
    before: RegionView,
    reopened: RegionView,
    with_overflow: RegionView,
    idx: int,
    mapped: int,
)
    requires
        0 <= idx < CELLS,
        reopened.wf(),
        reopened.image == before.image,
        before.overflow[idx] is Some,
        attached(reopened, with_overflow, idx, before.overflow[idx]->0, mapped),
    ensures
        with_overflow.read(idx) == before.read(idx),
{
}

/// A cell whose entry counts no sector reads as empty, whatever else the
/// file holds: never as a codec error.
pub proof fn lemma_empty_cell(region: RegionView, idx: int)
    requires
        0 <= idx < CELLS,
        region.image matches Some(image) && image.len() >= 8192 && entry_count(image, idx) == 0,
    ensures
        region.read(idx) == Ok::<Option<Seq<u8>>, RegionError>(None),
{
}

/// An accepted write of a body too long for 255 sectors makes the body the
/// content of the cell's overflow file; in the region file the cell claims one
/// sector, whose compression byte names the codec and has the high bit set.
pub proof fn lemma_oversized_write(
    pre: RegionView,
    post: RegionView,
    idx: int,
    timestamp: u32,
    codec: CompressionType,
    body: Seq<u8>,
    out: Result<(), RegionError>,
)
    requires
        pre.wf(),
        pre.consistent(),
        0 <= idx < CELLS,
        wrote(pre, post, idx, timestamp, codec, body, out),
        timestamp > pre.last_seen[idx],
        out is Ok,
        body.len() > 255 * 4096 - 5,
    ensures
        post.overflow[idx] == Some(body),
        entry_count(post.image->0, idx) == 1,
        payload_marker(post.image->0, entry_start(post.image->0, idx)) == 128 + codec.marker(),
        wants_overflow(post.image->0, idx),
{
    let image = pre.image->0;
    let placed = write_outcome(pre.image, pre.free, pre.wanted_end, idx, body.len() as int)->Ok_0;
    let after = image_after_write(image, idx, placed, codec, body, timestamp);
    let wanted = sectors_wanted(body.len() as int) as u32;
    crate::layout::lemma_oversized_threshold(body.len() as int);
    lemma_placed_apart(image, pre.free, pre.wanted_end, idx, wanted, placed);
    crate::invariants::lemma_write_bytes(image, idx, placed, codec, body, timestamp);
    lemma_write_entries(image, idx, placed, codec, body, timestamp);
    lemma_write_payload(image, idx, placed, codec, body, timestamp);
    lemma_marker_for(codec, true);
    assert(post.image == Some(after));
    assert(payload_marker(after, placed.start as int) == marker_for(codec, true) as u8);
}

/// An accepted write of a body of exactly `k * 4096 - 5` bytes, for `k` from
/// 1 to 255, claims exactly `k` sectors, and no padding follows the body.
pub proof fn lemma_exact_fit_write(
    pre: RegionView,
    post: RegionView,
    idx: int,
    timestamp: u32,
    codec: CompressionType,
    body: Seq<u8>,
    out: Result<(), RegionError>,
    k: int,
)
    requires
        pre.wf(),
        pre.consistent(),
        0 <= idx < CELLS,
        wrote(pre, post, idx, timestamp, codec, body, out),
        timestamp > pre.last_seen[idx],
        out is Ok,
        1 <= k <= 255,
        body.len() == k * 4096 - 5,
    ensures
        entry_count(post.image->0, idx) == k,
        crate::memory_util::padding_len(body.len() as int + 5, 4096) == 0,
        crate::layout::payload_bytes(codec, body).len() == body.len() + 5,
{
    let image = pre.image->0;
    let placed = write_outcome(pre.image, pre.free, pre.wanted_end, idx, body.len() as int)->Ok_0;
    let wanted = sectors_wanted(body.len() as int) as u32;
    crate::layout::lemma_exact_fit(k);
    lemma_placed_apart(image, pre.free, pre.wanted_end, idx, wanted, placed);
    crate::invariants::lemma_write_bytes(image, idx, placed, codec, body, timestamp);
    lemma_write_entries(image, idx, placed, codec, body, timestamp);
}

/// What a write makes of a region is determined: the state before it and
/// what is written leave one outcome and one state only.
pub proof fn lemma_write_determined(
    pre: RegionView,
    post: RegionView,
    other_post: RegionView,
    idx: int,
    timestamp: u32,
    codec: CompressionType,
    body: Seq<u8>,
    out: Result<(), RegionError>,
    other_out: Result<(), RegionError>,
)
    requires
        wrote(pre, post, idx, timestamp, codec, body, out),
        wrote(pre, other_post, idx, timestamp, codec, body, other_out),
    ensures
        out == other_out,
        post == other_post,
{
    if timestamp > pre.last_seen[idx] {
        match write_outcome(pre.image, pre.free, pre.wanted_end, idx, body.len() as int) {
            Ok(placed) => {
                assert forall|p: int| covers(post.free, p) == covers(other_post.free, p) by {
                    assert(covers(post.free, p) == crate::allocator::free_after(
                        pre.free,
                        pre.wanted_end,
                        claimed(pre.image->0, idx),
                        sectors_wanted(body.len() as int) as u32,
                        p,
                    ));
                    assert(covers(other_post.free, p) == crate::allocator::free_after(
                        pre.free,
                        pre.wanted_end,
                        claimed(pre.image->0, idx),
                        sectors_wanted(body.len() as int) as u32,
                        p,
                    ));
                }
                crate::range_util::lemma_normal_form_unique(post.free, other_post.free);
            },
            Err(_) => {},
        }
    }
}

/// What opening a region over given bytes gives is determined.
pub proof fn lemma_open_determined(
    contents: Seq<u8>,
    directory: Seq<char>,
    out: Result<RegionView, RegionError>,
    other_out: Result<RegionView, RegionError>,
)
    requires
        opens(contents, directory, out),
        opens(contents, directory, other_out),
    ensures
        out == other_out,
{
    let image = opened_image(contents);
    let taken = taken_of(image);
    if out is Ok {
        if other_out is Err {
            let bad = choose|bad: int|
                0 <= bad < CELLS && (#[trigger] crate::chunk::opened(Some(image), bad)) is Err;
            assert(crate::chunk::opened(Some(image), bad) is Ok);
        }
        let region = out->Ok_0;
        let other = other_out->Ok_0;
        assert forall|p: int| covers(region.free, p) == covers(other.free, p) by {
            assert(covers(region.free, p) == (FIRST_PAYLOAD_SECTOR <= p < top_of(taken) && !covers(
                taken,
                p,
            )));
            assert(covers(other.free, p) == (FIRST_PAYLOAD_SECTOR <= p < top_of(taken) && !covers(
                taken,
                p,
            )));
        }
        crate::range_util::lemma_normal_form_unique(region.free, other.free);
    } else {
        if other_out is Ok {
            let bad = choose|bad: int|
                0 <= bad < CELLS && (#[trigger] crate::chunk::opened(Some(image), bad)) is Err;
            assert(crate::chunk::opened(Some(image), bad) is Ok);
        }
    }
}

/// One write: the cell, the timestamp, the codec and the compressed body.
pub struct WriteCall {
    pub idx: int,
    pub timestamp: u32,
    pub codec: CompressionType,
    pub body: Seq<u8>,
}

/// Whether `states` are the states that a region goes through under the
/// writes `calls`, one after the other, with the outcomes `outs`.
pub open spec fn ran(
    states: Seq<RegionView>,
    calls: Seq<WriteCall>,
    outs: Seq<Result<(), RegionError>>,
) -> bool {
    &&& states.len() == calls.len() + 1
    &&& outs.len() == calls.len()
    &&& forall|k: int|
        0 <= k < calls.len() ==> 0 <= (#[trigger] calls[k]).idx < CELLS && wrote(
            states[k],
            states[k + 1],
            calls[k].idx,
            calls[k].timestamp,
            calls[k].codec,
            calls[k].body,
            outs[k],
        )
}

/// Whether write `k` of a run changed what the region stores: it showed a
/// timestamp above what its cell had seen, and it returned without error.
pub open spec fn accepted(
    states: Seq<RegionView>,
    calls: Seq<WriteCall>,
    outs: Seq<Result<(), RegionError>>,
    k: int,
) -> bool {
    calls[k].timestamp > states[k].last_seen[calls[k].idx] && outs[k] is Ok
}

/// After any run of writes on a consistent region, the region is consistent:
/// every cell is empty or claims sectors that no other cell claims and that
/// are not free, and the free ranges are in normal form. Where free and
/// claimed sectors were exactly the planned space, they still are.
pub proof fn lemma_run_consistent(
    states: Seq<RegionView>,
    calls: Seq<WriteCall>,
    outs: Seq<Result<(), RegionError>>,
    k: int,
)
    requires
        ran(states, calls, outs),
        states[0].wf(),
        states[0].consistent(),
        0 <= k <= calls.len(),
    ensures
        states[k].wf(),
        states[k].consistent(),
        states[0].partitioned() ==> states[k].partitioned(),
    decreases k,
{
    if k > 0 {
        lemma_run_consistent(states, calls, outs, k - 1);
        let call = calls[k - 1];
        lemma_write_consistent(
            states[k - 1],
            states[k],
            call.idx,
            call.timestamp,
            call.codec,
            call.body,
            outs[k - 1],
        );
        if states[0].partitioned() {
            lemma_write_partitioned(
                states[k - 1],
                states[k],
                call.idx,
                call.timestamp,
                call.codec,
                call.body,
                outs[k - 1],
            );
        }
    }
}

/// Over any run of writes, the timestamp that a cell has seen never falls.
pub proof fn lemma_run_last_seen(
    states: Seq<RegionView>,
    calls: Seq<WriteCall>,
    outs: Seq<Result<(), RegionError>>,
    from: int,
    to: int,
    cell: int,
)
    requires
        ran(states, calls, outs),
        states[0].wf(),
        0 <= from <= to <= calls.len(),
        0 <= cell < CELLS,
    ensures
        states[from].last_seen[cell] <= states[to].last_seen[cell],
        states[to].wf(),
    decreases to,
{
    if to > 0 {
        if from < to {
            lemma_run_last_seen(states, calls, outs, from, to - 1, cell);
        } else {
            lemma_run_last_seen(states, calls, outs, 0, to - 1, cell);
        }
        assert(wrote(
            states[to - 1],
            states[to],
            calls[to - 1].idx,
            calls[to - 1].timestamp,
            calls[to - 1].codec,
            calls[to - 1].body,
            outs[to - 1],
        ));
    }
}

/// After a run of writes on a consistent region, a cell reads as what decoding
/// the body of the last accepted write to it gives, whatever was written to
/// other cells since, and whatever later writes to it were turned away or
/// failed.
pub proof fn lemma_run_reads_last_accepted(
    states: Seq<RegionView>,
    calls: Seq<WriteCall>,
    outs: Seq<Result<(), RegionError>>,
    k: int,
    end: int,
)
    requires
        ran(states, calls, outs),
        states[0].wf(),
        states[0].consistent(),
        0 <= k < end <= calls.len(),
        accepted(states, calls, outs, k),
        forall|j: int|
            k < j < end && (#[trigger] calls[j]).idx == calls[k].idx ==> !accepted(
                states,
                calls,
                outs,
                j,
            ),
    ensures
        states[end].read(calls[k].idx) == as_read(calls[k].codec.decompressed(calls[k].body)),
    decreases end,
{
    let cell = calls[k].idx;
    lemma_run_consistent(states, calls, outs, end - 1);
    let last = calls[end - 1];
    assert(wrote(
        states[end - 1],
        states[end],
        last.idx,
        last.timestamp,
        last.codec,
        last.body,
        outs[end - 1],
    ));
    if end - 1 == k {
        lemma_read_after_write(
            states[k],
            states[end],
            last.idx,
            last.timestamp,
            last.codec,
            last.body,
            outs[k],
        );
    } else {
        lemma_run_reads_last_accepted(states, calls, outs, k, end - 1);
        if last.idx != cell {
            lemma_write_elsewhere(
                states[end - 1],
                states[end],
                last.idx,
                last.timestamp,
                last.codec,
                last.body,
                outs[end - 1],
                cell,
            );
        } else {
            assert(!accepted(states, calls, outs, end - 1));
            lemma_turned_away(
                states[end - 1],
                states[end],
                last.idx,
                last.timestamp,
                last.codec,
                last.body,
                outs[end - 1],
            );
        }
    }
}

/// A write that shows a timestamp no higher than its cell had seen, or that
/// fails, leaves file, free sectors and overflow files as they were.
pub proof fn lemma_turned_away(
    pre: RegionView,
    post: RegionView,
    idx: int,
    timestamp: u32,
    codec: CompressionType,
    body: Seq<u8>,
    out: Result<(), RegionError>,
)
    requires
        wrote(pre, post, idx, timestamp, codec, body, out),
        timestamp <= pre.last_seen[idx] || out is Err,
    ensures
        post.same_storage(pre),
        forall|cell: int| post.read(cell) == pre.read(cell),
{
}

/// An accepted write to a consistent region succeeds where the payload wants
/// no more sectors than its cell holds, and wherever the planned space ends
/// within the first million sectors: it fails only where a header cannot name
/// the place or this machine cannot address it.
pub proof fn lemma_write_succeeds(
    pre: RegionView,
    post: RegionView,
    idx: int,
    timestamp: u32,
    codec: CompressionType,
    body: Seq<u8>,
    out: Result<(), RegionError>,
)
    requires
        pre.wf(),
        pre.consistent(),
        0 <= idx < CELLS,
        wrote(pre, post, idx, timestamp, codec, body, out),
        timestamp > pre.last_seen[idx],
        sectors_wanted(body.len() as int) <= entry_count(pre.image->0, idx) || pre.wanted_end
            + sectors_wanted(body.len() as int) <= 0xf_ffff,
    ensures
        out == Ok::<(), RegionError>(()),
{
    crate::layout::lemma_oversized_threshold(body.len() as int);
    crate::invariants::lemma_place_found(
        pre.image->0,
        pre.free,
        pre.wanted_end,
        idx,
        sectors_wanted(body.len() as int) as u32,
    );
}

/// The first write to a cell of a region that was opened over a file that
/// holds nothing but zeroed tables succeeds, whatever is written, if its
/// timestamp is above zero.
pub proof fn lemma_first_write_succeeds(
    contents: Seq<u8>,
    directory: Seq<char>,
    region: RegionView,
    post: RegionView,
    idx: int,
    timestamp: u32,
    codec: CompressionType,
    body: Seq<u8>,
    out: Result<(), RegionError>,
)
    requires
        contents.len() <= 8192,
        forall|b: int| 0 <= b < contents.len() ==> contents[b] == 0,
        opens(contents, directory, Ok(region)),
        0 <= idx < CELLS,
        timestamp > 0,
        wrote(region, post, idx, timestamp, codec, body, out),
    ensures
        out == Ok::<(), RegionError>(()),
        post.holds_write(idx, timestamp, codec, body),
        entry_start(post.image->0, idx) == 2,
{
    lemma_open_fresh(contents, directory, region, idx);
    crate::layout::lemma_oversized_threshold(body.len() as int);
    lemma_write_succeeds(region, post, idx, timestamp, codec, body, out);
    lemma_accepted_write(region, post, idx, timestamp, codec, body, out);
    let image = region.image->0;
    let wanted = sectors_wanted(body.len() as int) as u32;
    crate::allocator::lemma_placement(region.free, region.wanted_end, claimed(image, idx), wanted);
    assert(!crate::allocator::some_fit(region.free, wanted));
    assert(image[4 * idx + 3] == 0);
}

/// After an accepted write to a consistent region that returned, the cell
/// holds what was written: its entry names sectors behind the tables, as many
/// as header and body fill; the marker names the codec and carries the high
/// bit exactly for a body too long for 255 sectors, which is then the content
/// of the overflow file; and the cell reads as what decoding the body gives.
/// Every other cell is as it was.
pub proof fn lemma_accepted_write(
    pre: RegionView,
    post: RegionView,
    idx: int,
    timestamp: u32,
    codec: CompressionType,
    body: Seq<u8>,
    out: Result<(), RegionError>,
)
    requires
        pre.wf(),
        pre.consistent(),
        0 <= idx < CELLS,
        wrote(pre, post, idx, timestamp, codec, body, out),
        timestamp > pre.last_seen[idx],
        out is Ok,
    ensures
        post.holds_write(idx, timestamp, codec, body),
        post.keeps_others(pre, idx),
{
    let placed = write_outcome(pre.image, pre.free, pre.wanted_end, idx, body.len() as int)->Ok_0;
    crate::invariants::lemma_write_effect(
        pre.image->0,
        pre.free,
        pre.wanted_end,
        idx,
        codec,
        body,
        timestamp,
        placed,
        post.overflow[idx],
    );
}

/// Where decoding the body that was written gives the caller's data, reading
/// the cell after an accepted write that returned gives that data.
pub proof fn lemma_read_gives_data(
    pre: RegionView,
    post: RegionView,
    idx: int,
    timestamp: u32,
    codec: CompressionType,
    body: Seq<u8>,
    out: Result<(), RegionError>,
    data: Seq<u8>,
)
    requires
        pre.wf(),
        pre.consistent(),
        0 <= idx < CELLS,
        wrote(pre, post, idx, timestamp, codec, body, out),
        timestamp > pre.last_seen[idx],
        out is Ok,
        codec.decompressed(body) == Ok::<Seq<u8>, RegionError>(data),
    ensures
        post.read(idx) == Ok::<Option<Seq<u8>>, RegionError>(Some(data)),
{
    lemma_read_after_write(pre, post, idx, timestamp, codec, body, out);
}

} // verus!
