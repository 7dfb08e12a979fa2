//! The free-range allocator of a region: which sectors of the file no payload
//! claims, and where a payload that changes size is placed.

use std::ops::Range;
use vstd::prelude::*;
use crate::range_util::{
    all_positive, consolidate_all, covers, holds, lemma_covers_push, separated,
    sort_by_start, sorted_by_start,
};

verus! {

/// The first sector that can hold a payload: the two before it hold the tables.
pub const FIRST_PAYLOAD_SECTOR: u32 = 2;

/// One past the last sector that a header-table entry can name as a start.
pub const SECTOR_LIMIT: u32 = 0x100_0000;

/// How many sectors a range holds.
pub open spec fn span(r: Range<u32>) -> int {
    r.end - r.start
}

/// One past the last sector whose bytes this machine can address, as far as
/// 32 bits count sectors.
pub open spec fn end_limit() -> int {
    if usize::MAX / 4096 > u32::MAX {
        u32::MAX as int
    } else {
        usize::MAX as int / 4096
    }
}

/// Whether `wanted` sectors from sector `start` on can be addressed.
pub open spec fn addressable(start: int, wanted: int) -> bool {
    start + wanted <= end_limit()
}

/// Whether `wanted` sectors can be carved from the front of the free range
/// `r`: it holds as many, a header can name its start, and the sectors can be
/// addressed.
pub open spec fn fits(r: Range<u32>, wanted: u32) -> bool {
    span(r) >= wanted && r.start < SECTOR_LIMIT && addressable(r.start as int, wanted as int)
}

/// Whether the free range `r` touches the range `cur` that a payload holds now.
pub open spec fn adjacent(r: Range<u32>, cur: Range<u32>) -> bool {
    cur.start < cur.end && (r.end == cur.start || r.start == cur.end)
}

/// Whether `free[i]` is a range that fits and no earlier range fits.
pub open spec fn first_fit(free: Seq<Range<u32>>, wanted: u32, i: int) -> bool {
    &&& 0 <= i < free.len()
    &&& fits(free[i], wanted)
    &&& forall|j: int| 0 <= j < i ==> !fits(#[trigger] free[j], wanted)
}

/// Whether `free[i]` fits and touches `cur`, and no earlier range does both.
pub open spec fn first_adjacent_fit(
    free: Seq<Range<u32>>,
    cur: Range<u32>,
    wanted: u32,
    i: int,
) -> bool {
    &&& 0 <= i < free.len()
    &&& fits(free[i], wanted)
    &&& adjacent(free[i], cur)
    &&& forall|j: int| 0 <= j < i ==> !(fits(#[trigger] free[j], wanted) && adjacent(free[j], cur))
}

/// Whether any free range fits.
pub open spec fn some_fit(free: Seq<Range<u32>>, wanted: u32) -> bool {
    exists|i: int| 0 <= i < free.len() && fits(#[trigger] free[i], wanted)
}

/// Whether any free range fits and touches `cur`.
pub open spec fn some_adjacent_fit(free: Seq<Range<u32>>, cur: Range<u32>, wanted: u32) -> bool {
    exists|i: int| 0 <= i < free.len() && fits(#[trigger] free[i], wanted) && adjacent(free[i], cur)
}

/// Whether `free[i]` is the range a growing payload is carved from: the first
/// that fits and touches the payload's current range, or, where none touches
/// it, the first that fits.
pub open spec fn picked(free: Seq<Range<u32>>, cur: Range<u32>, wanted: u32, i: int) -> bool {
    first_adjacent_fit(free, cur, wanted, i) || (!some_adjacent_fit(free, cur, wanted)
        && first_fit(free, wanted, i))
}

/// Where a payload that holds `cur` and wants `wanted` sectors is placed, given
/// the free ranges and the end of the planned sector space.
///
/// A payload that wants no more than it holds keeps the front of its range.
/// One that wants more is carved from the front of the picked free range or,
/// where no free range fits, put at the end of the planned space, which a
/// header must be able to name as a start. `None` where the sectors cannot be
/// addressed or a header cannot name that end as a start.
pub open spec fn placement(
    free: Seq<Range<u32>>,
    wanted_end: u32,
    cur: Range<u32>,
    wanted: u32,
) -> Option<Range<u32>> {
    if wanted <= span(cur) {
        if addressable(cur.start as int, wanted as int) {
            Some(Range { start: cur.start, end: (cur.start + wanted) as u32 })
        } else {
            None
        }
    } else if some_fit(free, wanted) {
        let i = choose|i: int| picked(free, cur, wanted, i);
        Some(Range { start: free[i].start, end: (free[i].start + wanted) as u32 })
    } else if wanted_end < SECTOR_LIMIT && addressable(wanted_end as int, wanted as int) {
        Some(Range { start: wanted_end, end: (wanted_end + wanted) as u32 })
    } else {
        None
    }
}

/// The end of the planned sector space after a placement: it moves only when
/// the payload is put past the old end.
pub open spec fn wanted_end_after(
    free: Seq<Range<u32>>,
    wanted_end: u32,
    cur: Range<u32>,
    wanted: u32,
) -> int {
    if wanted > span(cur) && !some_fit(free, wanted) && placement(free, wanted_end, cur, wanted)
        is Some {
        wanted_end + wanted
    } else {
        wanted_end as int
    }
}

/// Whether sector `p` is free after a placement: a shrinking payload gives up
/// its tail; a growing one gives up the range it held and, where it was carved
/// from a free range, takes its new range out of the free set.
pub open spec fn free_after(
    free: Seq<Range<u32>>,
    wanted_end: u32,
    cur: Range<u32>,
    wanted: u32,
    p: int,
) -> bool {
    match placement(free, wanted_end, cur, wanted) {
        None => covers(free, p),
        Some(new) => if wanted <= span(cur) {
            covers(free, p) || new.end <= p < cur.end
        } else if some_fit(free, wanted) {
            (covers(free, p) && !holds(new, p)) || holds(cur, p)
        } else {
            covers(free, p) || holds(cur, p)
        },
    }
}

/// At most one free range is the picked one.
pub proof fn lemma_picked_unique(
    free: Seq<Range<u32>>,
    cur: Range<u32>,
    wanted: u32,
    i: int,
    j: int,
)
    requires
        picked(free, cur, wanted, i),
        picked(free, cur, wanted, j),
    ensures
        i == j,
{
    if first_adjacent_fit(free, cur, wanted, i) {
        assert(some_adjacent_fit(free, cur, wanted));
        if i < j {
            assert(fits(free[i], wanted) && adjacent(free[i], cur));
        }
        if j < i {
            assert(fits(free[j], wanted) && adjacent(free[j], cur));
        }
    } else {
        if first_adjacent_fit(free, cur, wanted, j) {
            assert(some_adjacent_fit(free, cur, wanted));
        }
        if i < j {
            assert(fits(free[i], wanted));
        }
        if j < i {
            assert(fits(free[j], wanted));
        }
    }
}

/// Among the first `n` free ranges, where one fits, one is the first that fits.
proof fn lemma_first_fit_exists(free: Seq<Range<u32>>, wanted: u32, n: int)
    requires
        0 <= n <= free.len(),
        exists|i: int| 0 <= i < n && fits(#[trigger] free[i], wanted),
    ensures
        exists|i: int| 0 <= i < n && first_fit(free, wanted, i),
    decreases n,
{
    if exists|i: int| 0 <= i < n - 1 && fits(#[trigger] free[i], wanted) {
        lemma_first_fit_exists(free, wanted, n - 1);
        let i = choose|i: int| 0 <= i < n - 1 && first_fit(free, wanted, i);
        assert(first_fit(free, wanted, i));
    } else {
        assert(first_fit(free, wanted, n - 1));
    }
}

/// Among the first `n` free ranges, where one fits and touches `cur`, one is
/// the first that does.
proof fn lemma_first_adjacent_fit_exists(
    free: Seq<Range<u32>>,
    cur: Range<u32>,
    wanted: u32,
    n: int,
)
    requires
        0 <= n <= free.len(),
        exists|i: int| 0 <= i < n && fits(#[trigger] free[i], wanted) && adjacent(free[i], cur),
    ensures
        exists|i: int| 0 <= i < n && first_adjacent_fit(free, cur, wanted, i),
    decreases n,
{
    if exists|i: int| 0 <= i < n - 1 && fits(#[trigger] free[i], wanted) && adjacent(free[i], cur) {
        lemma_first_adjacent_fit_exists(free, cur, wanted, n - 1);
        let i = choose|i: int| 0 <= i < n - 1 && first_adjacent_fit(free, cur, wanted, i);
        assert(first_adjacent_fit(free, cur, wanted, i));
    } else {
        assert(first_adjacent_fit(free, cur, wanted, n - 1));
    }
}

/// Where a free range fits, one is picked, and it fits.
pub proof fn lemma_picked_exists(free: Seq<Range<u32>>, cur: Range<u32>, wanted: u32)
    requires
        some_fit(free, wanted),
    ensures
        picked(free, cur, wanted, choose|i: int| picked(free, cur, wanted, i)),
        0 <= (choose|i: int| picked(free, cur, wanted, i)) < free.len(),
        fits(free[choose|i: int| picked(free, cur, wanted, i)], wanted),
{
    if some_adjacent_fit(free, cur, wanted) {
        lemma_first_adjacent_fit_exists(free, cur, wanted, free.len() as int);
        let i = choose|i: int| 0 <= i < free.len() && first_adjacent_fit(free, cur, wanted, i);
        assert(picked(free, cur, wanted, i));
    } else {
        lemma_first_fit_exists(free, wanted, free.len() as int);
        let i = choose|i: int| 0 <= i < free.len() && first_fit(free, wanted, i);
        assert(picked(free, cur, wanted, i));
    }
}

/// A placement holds exactly the sectors wanted, and they can be addressed.
/// One that keeps or shrinks the payload starts where the payload started;
/// one that grows it lies in a free range or right past the end of the
/// planned space, and a header can name its start. There is none only where
/// the sectors cannot be addressed, or where the payload must be put at the
/// end of the planned space and a header cannot name that end.
pub proof fn lemma_placement(free: Seq<Range<u32>>, wanted_end: u32, cur: Range<u32>, wanted: u32)
    requires
        cur.start <= cur.end,
    ensures
        match placement(free, wanted_end, cur, wanted) {
            None => if wanted <= span(cur) {
                !addressable(cur.start as int, wanted as int)
            } else {
                !some_fit(free, wanted) && (wanted_end >= SECTOR_LIMIT || !addressable(
                    wanted_end as int,
                    wanted as int,
                ))
            },
            Some(placed) => {
                &&& placed.end == placed.start + wanted
                &&& placed.end <= end_limit()
                &&& placed.end * 4096 <= usize::MAX
                &&& wanted <= span(cur) ==> placed.start == cur.start
                &&& wanted > span(cur) ==> placed.start < SECTOR_LIMIT
                &&& wanted > span(cur) && some_fit(free, wanted) ==> exists|i: int|
                    0 <= i < free.len() && picked(free, cur, wanted, i) && (#[trigger] free[i]).start
                        == placed.start && placed.end <= free[i].end
                &&& wanted > span(cur) && !some_fit(free, wanted) ==> placed.start == wanted_end
            },
        },
{
    if wanted > span(cur) && some_fit(free, wanted) {
        lemma_picked_exists(free, cur, wanted);
        let i = choose|i: int| picked(free, cur, wanted, i);
        assert(fits(free[i], wanted));
    }
}

/// Every machine can address the first million sectors of a file.
pub proof fn lemma_end_limit()
    ensures
        end_limit() >= 0xf_ffff,
        end_limit() <= u32::MAX,
        end_limit() * 4096 <= usize::MAX,
{
}

/// The number of sectors that this machine can address, as far as 32 bits
/// count them.
pub fn addressable_sectors() -> (limit: u32)
    ensures
        limit == end_limit(),
{
    let sectors: usize = usize::MAX / 4096;
    if sectors > u32::MAX as usize {
        u32::MAX
    } else {
        sectors as u32
    }
}

/// Whether `top` is the end of the sectors that the ranges of `taken` claim:
/// the first payload sector where none holds a sector, else the highest end of
/// one that does.
pub open spec fn is_top(taken: Seq<Range<u32>>, top: int) -> bool {
    &&& top >= FIRST_PAYLOAD_SECTOR
    &&& forall|i: int|
        0 <= i < taken.len() && (#[trigger] taken[i]).start < taken[i].end ==> taken[i].end <= top
    &&& (top == FIRST_PAYLOAD_SECTOR || exists|i: int|
        0 <= i < taken.len() && (#[trigger] taken[i]).start < taken[i].end && taken[i].end == top)
}

/// The end of the sectors that the ranges of `taken` claim.
pub open spec fn top_of(taken: Seq<Range<u32>>) -> int {
    choose|top: int| is_top(taken, top)
}

/// The claimed sectors have one end only.
pub proof fn lemma_top_unique(taken: Seq<Range<u32>>, a: int, b: int)
    requires
        is_top(taken, a),
        is_top(taken, b),
    ensures
        a == b,
        top_of(taken) == a,
{
}

/// Lists with the same ranges, in whatever order, have the same end of claimed
/// sectors.
pub proof fn lemma_top_of_permutation(s: Seq<Range<u32>>, t: Seq<Range<u32>>, top: int)
    requires
        s.to_multiset() == t.to_multiset(),
        is_top(s, top),
    ensures
        is_top(t, top),
{
    s.to_multiset_ensures();
    t.to_multiset_ensures();
    assert forall|i: int| 0 <= i < t.len() && (#[trigger] t[i]).start < t[i].end implies t[i].end
        <= top by {
        assert(t.contains(t[i]));
        assert(s.to_multiset().count(t[i]) > 0);
        assert(s.contains(t[i]));
        let j = choose|j: int| 0 <= j < s.len() && s[j] == t[i];
        assert(s[j].start < s[j].end);
    }
    if top != FIRST_PAYLOAD_SECTOR {
        let i = choose|i: int|
            0 <= i < s.len() && (#[trigger] s[i]).start < s[i].end && s[i].end == top;
        assert(s.contains(s[i]));
        assert(t.to_multiset().count(s[i]) > 0);
        assert(t.contains(s[i]));
        let j = choose|j: int| 0 <= j < t.len() && t[j] == s[i];
        assert(t[j].start < t[j].end && t[j].end == top);
    }
}

/// Whether `free` covers exactly the payload sectors below `top` that no range
/// of `taken` holds.
pub open spec fn covers_gaps(free: Seq<Range<u32>>, top: int, taken: Seq<Range<u32>>) -> bool {
    forall|p: int|
        #![trigger covers(free, p)]
        covers(free, p) == (FIRST_PAYLOAD_SECTOR <= p < top && !covers(taken, p))
}

/// Taking `w` sectors from the front of one range of a list in normal form
/// leaves a list in normal form that covers what it covered but those sectors.
pub proof fn lemma_carve_front(free: Seq<Range<u32>>, i: int, w: u32)
    requires
        all_positive(free),
        separated(free),
        0 <= i < free.len(),
        w < span(free[i]),
    ensures
        ({
            let rest = free.update(i, Range { start: (free[i].start + w) as u32, end: free[i].end });
            &&& all_positive(rest)
            &&& separated(rest)
            &&& forall|p: int|
                #![trigger covers(rest, p)]
                covers(rest, p) == (covers(free, p) && !(free[i].start <= p < free[i].start + w))
        }),
{
    let cut = Range { start: (free[i].start + w) as u32, end: free[i].end };
    let rest = free.update(i, cut);
    assert forall|k: int| 0 <= k < rest.len() implies (#[trigger] rest[k]).start < rest[k].end by {
        if k != i {
            assert(rest[k] == free[k]);
        }
    }
    assert forall|a: int, b: int| 0 <= a < b < rest.len() implies (#[trigger] rest[a]).end < (
    #[trigger] rest[b]).start by {
        assert(free[a].end < free[b].start);
    }
    assert forall|p: int|
        #![trigger covers(rest, p)]
        covers(rest, p) == (covers(free, p) && !(free[i].start <= p < free[i].start + w)) by {
        if covers(rest, p) {
            let k = choose|k: int| 0 <= k < rest.len() && holds(#[trigger] rest[k], p);
            assert(holds(free[k], p));
            if k != i {
                if k < i {
                    assert(free[k].end < free[i].start);
                } else {
                    assert(free[i].end < free[k].start);
                }
            }
        }
        if covers(free, p) && !(free[i].start <= p < free[i].start + w) {
            let k = choose|k: int| 0 <= k < free.len() && holds(#[trigger] free[k], p);
            assert(holds(rest[k], p));
        }
    }
}

/// Taking one range out of a list in normal form leaves a list in normal form
/// that covers what it covered but that range.
pub proof fn lemma_carve_whole(free: Seq<Range<u32>>, i: int)
    requires
        all_positive(free),
        separated(free),
        0 <= i < free.len(),
    ensures
        ({
            let rest = free.remove(i);
            &&& all_positive(rest)
            &&& separated(rest)
            &&& forall|p: int|
                #![trigger covers(rest, p)]
                covers(rest, p) == (covers(free, p) && !holds(free[i], p))
        }),
{
    let rest = free.remove(i);
    assert forall|k: int| 0 <= k < rest.len() implies (#[trigger] rest[k]).start < rest[k].end by {
        if k < i {
            assert(rest[k] == free[k]);
        } else {
            assert(rest[k] == free[k + 1]);
        }
    }
    assert forall|a: int, b: int| 0 <= a < b < rest.len() implies (#[trigger] rest[a]).end < (
    #[trigger] rest[b]).start by {
        let fa = if a < i { a } else { a + 1 };
        let fb = if b < i { b } else { b + 1 };
        assert(rest[a] == free[fa]);
        assert(rest[b] == free[fb]);
        assert(free[fa].end < free[fb].start);
    }
    assert forall|p: int|
        #![trigger covers(rest, p)]
        covers(rest, p) == (covers(free, p) && !holds(free[i], p)) by {
        if covers(rest, p) {
            let k = choose|k: int| 0 <= k < rest.len() && holds(#[trigger] rest[k], p);
            let fk = if k < i { k } else { k + 1 };
            assert(rest[k] == free[fk]);
            assert(holds(free[fk], p));
            if fk < i {
                assert(free[fk].end < free[i].start);
            } else {
                assert(free[i].end < free[fk].start);
            }
        }
        if covers(free, p) && !holds(free[i], p) {
            let k = choose|k: int| 0 <= k < free.len() && holds(#[trigger] free[k], p);
            let rk = if k < i { k } else { k - 1 };
            assert(rest[rk] == free[k]);
            assert(holds(rest[rk], p));
        }
    }
}

/// The free ranges of a region and the end of its planned sector space.
pub struct MutableRegionMetadata {
    free_ranges: Vec<Range<u32>>,
    wanted_space: u32,
}

impl MutableRegionMetadata {
    /// The free ranges, in rising order.
    pub closed spec fn free(&self) -> Seq<Range<u32>> {
        self.free_ranges@
    }

    /// One past the highest sector that a payload holds or is planned to hold.
    pub closed spec fn wanted_end(&self) -> u32 {
        self.wanted_space
    }

    /// The free ranges are in normal form: each holds a sector, they rise, and
    /// a gap parts any two. The planned space includes the two table sectors.
    pub open spec fn wf(&self) -> bool {
        &&& all_positive(self.free())
        &&& separated(self.free())
        &&& self.wanted_end() >= FIRST_PAYLOAD_SECTOR
    }

    /// The free ranges, in rising order.
    pub fn free_ranges(&self) -> (ranges: &Vec<Range<u32>>)
        ensures
            ranges@ == self.free(),
    {
        &self.free_ranges
    }

    /// One past the highest sector that a payload holds or is planned to hold.
    pub fn wanted_space(&self) -> (end: u32)
        ensures
            end == self.wanted_end(),
    {
        self.wanted_space
    }

    /// Builds the free set of a region from the ranges its cells claim and the
    /// number of whole sectors its file has.
    ///
    /// The gaps between the claimed ranges, from the first payload sector up
    /// to the end of the last claimed range, become the free ranges. The
    /// planned space ends where the claimed sectors or the file end, whichever
    /// is later. A range that ends where it starts, or before, claims nothing.
    pub fn new(taken: Vec<Range<u32>>, file_sectors: u32) -> (metadata: MutableRegionMetadata)
        ensures
            metadata.wf(),
            metadata.wanted_end() == if file_sectors > top_of(taken@) {
                file_sectors as int
            } else {
                top_of(taken@)
            },
            is_top(taken@, top_of(taken@)),
            covers_gaps(metadata.free(), top_of(taken@), taken@),
    {
        let ghost input = taken@;
        let mut taken = taken;
        sort_by_start(&mut taken);
        let n: usize = taken.len();
        let mut free: Vec<Range<u32>> = Vec::new();
        let mut cursor: u32 = FIRST_PAYLOAD_SECTOR;
        let mut i: usize = 0;
        let ghost mut last_start: int = 0;
        while i < n
            invariant
                i <= n,
                n == taken@.len(),
                sorted_by_start(taken@),
                is_top(taken@.take(i as int), cursor as int),
                all_positive(free@),
                separated(free@),
                forall|k: int| 0 <= k < free@.len() ==> (#[trigger] free@[k]).end < cursor,
                forall|k: int| 0 <= k < free@.len() ==> (#[trigger] free@[k]).end <= last_start,
                forall|j: int| i <= j < n ==> last_start <= (#[trigger] taken@[j]).start,
                covers_gaps(free@, cursor as int, taken@.take(i as int)),
            decreases n - i,
        {
            let start: u32 = taken[i].start;
            let end: u32 = taken[i].end;
            let ghost r = taken@[i as int];
            let ghost before = free@;
            let ghost done = taken@.take(i as int);
            let ghost old_cursor = cursor;
            proof {
                assert(taken@.take(i as int + 1) =~= done.push(r));
                assert forall|p: int|
                    #![trigger covers(taken@.take(i as int + 1), p)]
                    covers(taken@.take(i as int + 1), p) == (covers(done, p) || holds(r, p)) by {
                    lemma_covers_push(done, r, p);
                }
                assert forall|k: int| 0 <= k < done.len() implies done[k] == taken@[k] by {}
            }
            if start < end {
                if start > cursor {
                    free.push(Range { start: cursor, end: start });
                    proof {
                        assert forall|p: int| covers(free@, p) == (covers(before, p) || (old_cursor
                            <= p < start)) by {
                            lemma_covers_push(before, Range { start: old_cursor, end: start }, p);
                        }
                        assert forall|k: int| 0 <= k < free@.len() implies (#[trigger] free@[k]).start
                            < free@[k].end by {
                            if k < before.len() {
                                assert(free@[k] == before[k]);
                            }
                        }
                        assert forall|a: int, b: int| 0 <= a < b < free@.len() implies (
                        #[trigger] free@[a]).end < (#[trigger] free@[b]).start by {
                            assert(free@[a] == before[a]);
                            if b < before.len() {
                                assert(free@[b] == before[b]);
                            }
                        }
                    }
                }
                if end > cursor {
                    cursor = end;
                }
                proof {
                    let now = taken@.take(i as int + 1);
                    assert(now[i as int] == r);
                    assert forall|k: int|
                        0 <= k < now.len() && (#[trigger] now[k]).start < now[k].end implies now[k].end
                        <= cursor by {
                        if k < i {
                            assert(now[k] == done[k]);
                        }
                    }
                    if cursor != FIRST_PAYLOAD_SECTOR {
                        if cursor == old_cursor {
                            let w = choose|w: int|
                                0 <= w < done.len() && (#[trigger] done[w]).start < done[w].end
                                    && done[w].end == old_cursor;
                            assert(now[w] == done[w]);
                        } else {
                            assert(now[i as int].end == cursor);
                        }
                    }
                    assert(is_top(now, cursor as int));
                    assert forall|k: int| 0 <= k < free@.len() implies (#[trigger] free@[k]).end
                        < cursor && free@[k].end <= start by {
                        if k < before.len() {
                            assert(free@[k] == before[k]);
                        }
                    }
                    assert forall|p: int|
                        #![trigger covers(free@, p)]
                        covers(free@, p) == (FIRST_PAYLOAD_SECTOR <= p < cursor && !covers(
                            taken@.take(i as int + 1),
                            p,
                        )) by {
                        lemma_covers_push(done, r, p);
                        assert(covers(before, p) == (FIRST_PAYLOAD_SECTOR <= p < old_cursor
                            && !covers(done, p)));
                        if start > old_cursor {
                            lemma_covers_push(before, Range { start: old_cursor, end: start }, p);
                        }
                        if covers(before, p) {
                            let k = choose|k: int| 0 <= k < before.len() && holds(#[trigger] before[k], p);
                            assert(before[k].end <= last_start);
                            assert(p < start);
                        }
                        if old_cursor <= p && covers(done, p) {
                            let k = choose|k: int| 0 <= k < done.len() && holds(#[trigger] done[k], p);
                            assert(done[k].end <= old_cursor);
                        }
                    }
                    last_start = start as int;
                }
            } else {
                proof {
                    let now = taken@.take(i as int + 1);
                    assert forall|k: int|
                        0 <= k < now.len() && (#[trigger] now[k]).start < now[k].end implies now[k].end
                        <= cursor by {
                        if k < i {
                            assert(now[k] == done[k]);
                        }
                    }
                    if cursor != FIRST_PAYLOAD_SECTOR {
                        let w = choose|w: int|
                            0 <= w < done.len() && (#[trigger] done[w]).start < done[w].end
                                && done[w].end == old_cursor;
                        assert(now[w] == done[w]);
                    }
                    assert forall|p: int|
                        #![trigger covers(free@, p)]
                        covers(free@, p) == (FIRST_PAYLOAD_SECTOR <= p < cursor && !covers(
                            taken@.take(i as int + 1),
                            p,
                        )) by {
                        lemma_covers_push(done, r, p);
                        assert(covers(before, p) == (FIRST_PAYLOAD_SECTOR <= p < old_cursor
                            && !covers(done, p)));
                    }
                }
            }
            i = i + 1;
        }
        proof {
            assert(taken@.take(n as int) =~= taken@);
            lemma_top_of_permutation(taken@, input, cursor as int);
            lemma_top_unique(input, cursor as int, cursor as int);
            assert forall|p: int|
                #![trigger covers(free@, p)]
                covers(free@, p) == (FIRST_PAYLOAD_SECTOR <= p < top_of(input) && !covers(
                    input,
                    p,
                )) by {
                crate::range_util::lemma_covers_of_permutation(input, taken@, p);
                assert(covers(free@, p) == (FIRST_PAYLOAD_SECTOR <= p < cursor && !covers(
                    taken@.take(n as int),
                    p,
                )));
            }
        }
        let wanted_space: u32 = if file_sectors > cursor { file_sectors } else { cursor };
        MutableRegionMetadata { free_ranges: free, wanted_space }
    }

    /// Returns a range of sectors to the free set and merges it with the free
    /// ranges it overlaps or touches. A range that holds no sector changes
    /// nothing.
    pub fn release(&mut self, range: Range<u32>)
        requires
            old(self).wf(),
        ensures
            final(self).wf(),
            final(self).wanted_end() == old(self).wanted_end(),
            range.start >= range.end ==> final(self).free() == old(self).free(),
            forall|p: int|
                #![trigger covers(final(self).free(), p)]
                covers(final(self).free(), p) == (covers(old(self).free(), p) || holds(range, p)),
    {
        if range.start < range.end {
            let ghost before = self.free_ranges@;
            let mut ranges: Vec<Range<u32>> = Vec::new();
            std::mem::swap(&mut ranges, &mut self.free_ranges);
            ranges.push(range);
            proof {
                assert forall|k: int| 0 <= k < ranges@.len() implies (#[trigger] ranges@[k]).start
                    < ranges@[k].end by {
                    if k < before.len() {
                        assert(ranges@[k] == before[k]);
                    }
                }
            }
            let ghost pushed = ranges@;
            self.free_ranges = consolidate_all(ranges);
            proof {
                assert forall|p: int|
                    #![trigger covers(self.free_ranges@, p)]
                    covers(self.free_ranges@, p) == (covers(before, p) || holds(range, p)) by {
                    lemma_covers_push(before, range, p);
                    assert(covers(self.free_ranges@, p) == covers(pushed, p));
                }
            }
        }
    }

    /// Places a payload that holds `current` and wants `wanted` sectors.
    ///
    /// A payload that keeps its size stays. One that shrinks keeps the front
    /// of its range and frees the tail. One that grows is carved from the
    /// front of a free range that fits, one that touches its current range
    /// before any other and the first in rising order otherwise, or is put
    /// at the end of the planned space where none fits; it frees the range
    /// it held. `None`, with nothing changed, where this machine cannot
    /// address the sectors, or where the payload must be put at the end of
    /// the planned space and a header cannot name that end as a start.
    pub fn allocate(&mut self, current: Range<u32>, wanted: u32) -> (placed: Option<Range<u32>>)
        requires
            old(self).wf(),
            current.start <= current.end,
        ensures
            final(self).wf(),
            placed == placement(old(self).free(), old(self).wanted_end(), current, wanted),
            final(self).wanted_end() == wanted_end_after(
                old(self).free(),
                old(self).wanted_end(),
                current,
                wanted,
            ),
            placed is None ==> final(self).free() == old(self).free(),
            forall|p: int|
                #![trigger covers(final(self).free(), p)]
                covers(final(self).free(), p) == free_after(
                    old(self).free(),
                    old(self).wanted_end(),
                    current,
                    wanted,
                    p,
                ),
    {
        let ghost free = self.free_ranges@;
        let ghost end = self.wanted_space;
        let held: u32 = current.end - current.start;
        let limit: u32 = addressable_sectors();
        if wanted <= held {
            if current.start + wanted > limit {
                return None;
            }
            let kept: Range<u32> = Range { start: current.start, end: current.start + wanted };
            self.release(Range { start: current.start + wanted, end: current.end });
            return Some(kept);
        }
        let n: usize = self.free_ranges.len();
        let mut first: usize = n;
        let mut first_adjacent: usize = n;
        let mut i: usize = 0;
        while i < n && first_adjacent == n
            invariant
                i <= n,
                n == free.len(),
                self.free_ranges@ == free,
                first <= n,
                first_adjacent <= n,
                first < n ==> first_fit(free, wanted, first as int) && first < i,
                first == n ==> forall|j: int| 0 <= j < i ==> !fits(#[trigger] free[j], wanted),
                first_adjacent < n ==> first_adjacent_fit(free, current, wanted, first_adjacent as int),
                first_adjacent == n ==> forall|j: int|
                    0 <= j < i ==> !(fits(#[trigger] free[j], wanted) && adjacent(free[j], current)),
                limit == end_limit(),
            decreases n - i,
        {
            let start: u32 = self.free_ranges[i].start;
            let stop: u32 = self.free_ranges[i].end;
            if start <= stop && stop - start >= wanted && start < SECTOR_LIMIT && start as u64
                + wanted as u64 <= limit as u64 {
                if first == n {
                    first = i;
                }
                if current.start < current.end && (stop == current.start || start == current.end) {
                    first_adjacent = i;
                }
            }
            i = i + 1;
        }
        let pick: usize = if first_adjacent < n { first_adjacent } else { first };
        if pick < n {
            let start: u32 = self.free_ranges[pick].start;
            let stop: u32 = self.free_ranges[pick].end;
            proof {
                if first_adjacent < n {
                    assert(some_adjacent_fit(free, current, wanted));
                } else {
                    assert(i == n);
                    assert(!some_adjacent_fit(free, current, wanted));
                }
                assert(picked(free, current, wanted, pick as int));
                assert(fits(free[pick as int], wanted));
                assert(some_fit(free, wanted));
                let chosen = choose|c: int| picked(free, current, wanted, c);
                lemma_picked_unique(free, current, wanted, pick as int, chosen);
            }
            if stop - start == wanted {
                self.free_ranges.remove(pick);
                proof {
                    lemma_carve_whole(free, pick as int);
                }
            } else {
                self.free_ranges.set(pick, Range { start: start + wanted, end: stop });
                proof {
                    lemma_carve_front(free, pick as int, wanted);
                }
            }
            let ghost carved = self.free_ranges@;
            let placed: Range<u32> = Range { start, end: start + wanted };
            proof {
                assert forall|p: int|
                    #![trigger covers(carved, p)]
                    covers(carved, p) == (covers(free, p) && !holds(placed, p)) by {}
            }
            self.release(current);
            proof {
                assert forall|p: int|
                    #![trigger covers(self.free_ranges@, p)]
                    covers(self.free_ranges@, p) == free_after(free, end, current, wanted, p) by {
                    assert(covers(self.free_ranges@, p) == (covers(carved, p) || holds(current, p)));
                }
            }
            Some(placed)
        } else {
            proof {
                assert(i == n);
                assert(!some_fit(free, wanted));
            }
            if self.wanted_space < SECTOR_LIMIT && self.wanted_space as u64 + wanted as u64
                <= limit as u64 {
                let start: u32 = self.wanted_space;
                self.wanted_space = start + wanted;
                self.release(current);
                proof {
                    assert forall|p: int|
                        #![trigger covers(self.free_ranges@, p)]
                        covers(self.free_ranges@, p) == free_after(free, end, current, wanted, p) by {
                        assert(covers(self.free_ranges@, p) == (covers(free, p) || holds(current, p)));
                    }
                }
                Some(Range { start, end: start + wanted })
            } else {
                None
            }
        }
    }
}

} // verus!
