//! Half-open ranges of sectors: merging two, and bringing a list into its
//! normal form.

use std::ops::Range;
use vstd::prelude::*;

verus! {

/// Whether `p` lies in the half-open range `r`.
pub open spec fn holds(r: Range<u32>, p: int) -> bool {
    r.start <= p < r.end
}

/// Whether some range of `s` holds `p`.
pub open spec fn covers(s: Seq<Range<u32>>, p: int) -> bool {
    exists|i: int| 0 <= i < s.len() && holds(#[trigger] s[i], p)
}

/// Whether no range of `s` ends before it starts.
pub open spec fn all_valid(s: Seq<Range<u32>>) -> bool {
    forall|i: int| 0 <= i < s.len() ==> (#[trigger] s[i]).start <= s[i].end
}

/// Whether every range of `s` holds at least one sector.
pub open spec fn all_positive(s: Seq<Range<u32>>) -> bool {
    forall|i: int| 0 <= i < s.len() ==> (#[trigger] s[i]).start < s[i].end
}

/// Whether the ranges of `s` come in rising order with a gap between any two:
/// none overlaps or touches another.
pub open spec fn separated(s: Seq<Range<u32>>) -> bool {
    forall|i: int, j: int| 0 <= i < j < s.len() ==> (#[trigger] s[i]).end < (#[trigger] s[j]).start
}

/// Whether the starts of `s` never fall from one range to a later one.
pub open spec fn sorted_by_start(s: Seq<Range<u32>>) -> bool {
    forall|i: int, j: int| 0 <= i <= j < s.len() ==> (#[trigger] s[i]).start <= (#[trigger] s[j]).start
}

/// The ranges of `s` that start at `start`, in the order they have in `s`.
pub open spec fn starting_at(s: Seq<Range<u32>>, start: u32) -> Seq<Range<u32>> {
    s.filter(|r: Range<u32>| r.start == start)
}

/// Whether two ranges overlap or touch.
pub open spec fn touching(a: Range<u32>, b: Range<u32>) -> bool {
    a.start <= b.end && b.start <= a.end
}

/// The smallest range that holds both `a` and `b`.
pub open spec fn hull(a: Range<u32>, b: Range<u32>) -> Range<u32> {
    Range {
        start: if a.start <= b.start { a.start } else { b.start },
        end: if a.end >= b.end { a.end } else { b.end },
    }
}

/// The one range that two ranges make, where the one that starts later ends
/// inside the other or starts no later than the other ends; `None` where a
/// gap parts them.
pub open spec fn consolidated(a: Range<u32>, b: Range<u32>) -> Option<Range<u32>> {
    let (lo, hi) = if a.start <= b.start { (a, b) } else { (b, a) };
    if hi.end <= lo.end || hi.start <= lo.end {
        Some(Range { start: lo.start, end: if hi.end <= lo.end { lo.end } else { hi.end } })
    } else {
        None
    }
}

/// Two ranges that do not end before they start make one range exactly when
/// they overlap or touch, and that range is their hull: it holds what either
/// holds and nothing else.
pub proof fn lemma_consolidated_is_hull(a: Range<u32>, b: Range<u32>)
    requires
        a.start <= a.end,
        b.start <= b.end,
    ensures
        consolidated(a, b) == if touching(a, b) { Some(hull(a, b)) } else { None },
        consolidated(a, b) == consolidated(b, a),
        touching(a, b) ==> forall|p: int| holds(hull(a, b), p) <==> holds(a, p) || holds(b, p),
{
}

/// Merges two ranges into one where no gap parts them.
pub fn consolidate(a: &Range<u32>, b: &Range<u32>) -> (out: Option<Range<u32>>)
    ensures
        out == consolidated(*a, *b),
    decreases (if a.start <= b.start { 0int } else { 1int }),
{
    if a.start <= b.start {
        if b.end <= a.end {
            Some(Range { start: a.start, end: a.end })
        } else if a.end < b.start {
            None
        } else {
            Some(Range { start: a.start, end: b.end })
        }
    } else {
        consolidate(b, a)
    }
}

/// How the starts of two ranges compare.
pub fn order_by_start(a: &Range<u32>, b: &Range<u32>) -> (order: std::cmp::Ordering)
    ensures
        order is Less <==> a.start < b.start,
        order is Equal <==> a.start == b.start,
        order is Greater <==> a.start > b.start,
{
    if a.start < b.start {
        std::cmp::Ordering::Less
    } else if a.start == b.start {
        std::cmp::Ordering::Equal
    } else {
        std::cmp::Ordering::Greater
    }
}

/// Calls `glidesort::sort_by` with a comparison of the ranges' starts.
/// Trusted: afterwards the same ranges stand in rising order of start, and
/// ranges with one start keep the order they had.
#[verifier::external_body]
pub(crate) fn sort_by_start(ranges: &mut Vec<Range<u32>>)
    ensures
        final(ranges)@.to_multiset() == old(ranges)@.to_multiset(),
        sorted_by_start(final(ranges)@),
        forall|start: u32| #[trigger] starting_at(final(ranges)@, start) == starting_at(old(ranges)@, start),
{
    glidesort::sort_by(ranges.as_mut_slice(), |a, b| order_by_start(a, b));
}

/// Two lists with the same ranges, in whatever order, cover the same sectors.
pub proof fn lemma_covers_of_permutation(s: Seq<Range<u32>>, t: Seq<Range<u32>>, p: int)
    requires
        s.to_multiset() == t.to_multiset(),
    ensures
        covers(s, p) == covers(t, p),
{
    s.to_multiset_ensures();
    t.to_multiset_ensures();
    if covers(s, p) {
        let i = choose|i: int| 0 <= i < s.len() && holds(#[trigger] s[i], p);
        assert(s.contains(s[i]));
        assert(t.to_multiset().count(s[i]) > 0);
        assert(t.contains(s[i]));
        let j = choose|j: int| 0 <= j < t.len() && t[j] == s[i];
        assert(holds(t[j], p));
    }
    if covers(t, p) {
        let i = choose|i: int| 0 <= i < t.len() && holds(#[trigger] t[i], p);
        assert(t.contains(t[i]));
        assert(s.to_multiset().count(t[i]) > 0);
        assert(s.contains(t[i]));
        let j = choose|j: int| 0 <= j < s.len() && s[j] == t[i];
        assert(holds(s[j], p));
    }
}

/// Two lists with the same ranges agree on whether all are valid and on
/// whether all are positive.
pub proof fn lemma_valid_of_permutation(s: Seq<Range<u32>>, t: Seq<Range<u32>>)
    requires
        s.to_multiset() == t.to_multiset(),
    ensures
        all_valid(s) ==> all_valid(t),
        all_positive(s) ==> all_positive(t),
        s.len() == t.len(),
{
    s.to_multiset_ensures();
    t.to_multiset_ensures();
    assert forall|j: int| 0 <= j < t.len() implies exists|i: int|
        0 <= i < s.len() && s[i] == #[trigger] t[j] by {
        assert(t.contains(t[j]));
        assert(s.to_multiset().count(t[j]) > 0);
        assert(s.contains(t[j]));
    }
    if all_valid(s) {
        assert forall|j: int| 0 <= j < t.len() implies (#[trigger] t[j]).start <= t[j].end by {
            let i = choose|i: int| 0 <= i < s.len() && s[i] == t[j];
            assert(s[i].start <= s[i].end);
        }
    }
    if all_positive(s) {
        assert forall|j: int| 0 <= j < t.len() implies (#[trigger] t[j]).start < t[j].end by {
            let i = choose|i: int| 0 <= i < s.len() && s[i] == t[j];
            assert(s[i].start < s[i].end);
        }
    }
}

/// A list with one more range covers what the list covered and what the new
/// range holds.
pub proof fn lemma_covers_push(s: Seq<Range<u32>>, r: Range<u32>, p: int)
    ensures
        covers(s.push(r), p) == (covers(s, p) || holds(r, p)),
{
    let t = s.push(r);
    if covers(s, p) {
        let i = choose|i: int| 0 <= i < s.len() && holds(#[trigger] s[i], p);
        assert(holds(t[i], p));
    }
    if holds(r, p) {
        assert(holds(t[s.len() as int], p));
    }
    if covers(t, p) {
        let i = choose|i: int| 0 <= i < t.len() && holds(#[trigger] t[i], p);
        if i < s.len() {
            assert(holds(s[i], p));
        }
    }
}

/// Whether the ranges of `done` and the range `acc` together cover exactly
/// what `prefix` covers.
pub open spec fn folds_to(done: Seq<Range<u32>>, acc: Range<u32>, prefix: Seq<Range<u32>>) -> bool {
    forall|p: int| #![trigger covers(prefix, p)] (covers(done, p) || holds(acc, p)) == covers(prefix, p)
}

/// For two ranges of which the first starts no later, the one range they make
/// holds what either holds and nothing else; where they make none, the first
/// ends before the second starts.
pub proof fn lemma_consolidated_covers(a: Range<u32>, b: Range<u32>)
    requires
        a.start <= b.start,
    ensures
        match consolidated(a, b) {
            Some(merger) => {
                &&& merger.start == a.start
                &&& forall|p: int| holds(merger, p) == (holds(a, p) || holds(b, p))
                &&& a.start <= a.end && b.start <= b.end ==> merger.start <= merger.end
                &&& a.start < a.end ==> merger.start < merger.end
            },
            None => a.end < b.start,
        },
{
}

/// Brings a list of ranges into normal form: sorted by start, with every run
/// of overlapping or touching ranges merged into one.
///
/// The result covers exactly the sectors the input covers, in rising order
/// with a gap between any two ranges. If no input range ends before it
/// starts, none of the result does; if every input range holds a sector, so
/// does every range of the result.
pub fn consolidate_all(ranges: Vec<Range<u32>>) -> (out: Vec<Range<u32>>)
    ensures
        out@.len() <= ranges@.len(),
        ranges@.len() > 0 ==> out@.len() > 0,
        separated(out@),
        forall|p: int| covers(out@, p) == covers(ranges@, p),
        all_valid(ranges@) ==> all_valid(out@),
        all_positive(ranges@) ==> all_positive(out@),
{
    let ghost input = ranges@;
    let mut ranges = ranges;
    sort_by_start(&mut ranges);
    proof {
        lemma_valid_of_permutation(input, ranges@);
    }
    let mut result: Vec<Range<u32>> = Vec::new();
    let n: usize = ranges.len();
    if n == 0 {
        assert forall|p: int| covers(result@, p) == covers(input, p) by {}
        return result;
    }
    let mut acc: Range<u32> = Range { start: ranges[0].start, end: ranges[0].end };
    let mut i: usize = 1;
    proof {
        assert forall|p: int|
            #![trigger covers(ranges@.take(1), p)]
            (covers(result@, p) || holds(acc, p)) == covers(ranges@.take(1), p) by {
            if holds(acc, p) {
                assert(holds(ranges@.take(1)[0], p));
            }
        }
    }
    while i < n
        invariant
            1 <= i <= n,
            n == ranges@.len(),
            input.len() == n,
            sorted_by_start(ranges@),
            result@.len() + 1 <= i,
            forall|k: int| i <= k < n ==> acc.start <= (#[trigger] ranges@[k]).start,
            separated(result@),
            forall|k: int| 0 <= k < result@.len() ==> (#[trigger] result@[k]).end < acc.start,
            folds_to(result@, acc, ranges@.take(i as int)),
            all_valid(ranges@) ==> acc.start <= acc.end && all_valid(result@),
            all_positive(ranges@) ==> acc.start < acc.end && all_positive(result@),
        decreases n - i,
    {
        let ghost before = result@;
        let ghost old_acc = acc;
        let next: Range<u32> = Range { start: ranges[i].start, end: ranges[i].end };
        proof {
            assert(next == ranges@[i as int]);
            assert(ranges@.take(i as int + 1) =~= ranges@.take(i as int).push(next));
            lemma_consolidated_covers(old_acc, next);
        }
        match consolidate(&acc, &next) {
            Some(merger) => {
                acc = merger;
                proof {
                    assert forall|p: int|
                        #![trigger covers(ranges@.take(i as int + 1), p)]
                        (covers(result@, p) || holds(acc, p)) == covers(
                            ranges@.take(i as int + 1),
                            p,
                        ) by {
                        assert(holds(acc, p) == (holds(old_acc, p) || holds(next, p)));
                        lemma_covers_push(ranges@.take(i as int), next, p);
                    }
                }
            },
            None => {
                result.push(acc);
                acc = next;
                proof {
                    assert forall|k: int| 0 <= k < before.len() implies result@[k] == before[k] by {}
                    assert forall|p: int|
                        #![trigger covers(ranges@.take(i as int + 1), p)]
                        (covers(result@, p) || holds(acc, p)) == covers(
                            ranges@.take(i as int + 1),
                            p,
                        ) by {
                        lemma_covers_push(before, old_acc, p);
                        lemma_covers_push(ranges@.take(i as int), next, p);
                        assert((covers(before, p) || holds(old_acc, p)) == covers(
                            ranges@.take(i as int),
                            p,
                        ));
                    }
                    lemma_pushed(before, old_acc, acc.start as int);
                }
            },
        }
        i = i + 1;
    }
    let ghost before = result@;
    let ghost last = acc;
    result.push(acc);
    proof {
        assert(ranges@.take(n as int) =~= ranges@);
        assert forall|p: int| covers(result@, p) == covers(input, p) by {
            lemma_covers_of_permutation(input, ranges@, p);
            lemma_covers_push(before, last, p);
            assert((covers(before, p) || holds(last, p)) == covers(ranges@.take(i as int), p));
        }
        lemma_pushed(before, last, last.end + 1);
    }
    result
}

/// A list in rising order with gaps stays so when a range is put behind it
/// that starts past the end of every range of the list; the new list ends
/// before `bound` if the old one ended before the new range and the new range
/// ends before `bound`. What held of every range of the list, and holds of
/// the new range, holds of every range of the new list.
proof fn lemma_pushed(s: Seq<Range<u32>>, r: Range<u32>, bound: int)
    requires
        separated(s),
        forall|k: int| 0 <= k < s.len() ==> (#[trigger] s[k]).end < r.start,
    ensures
        separated(s.push(r)),
        r.start <= bound && r.end < bound ==> forall|k: int|
            0 <= k < s.push(r).len() ==> (#[trigger] s.push(r)[k]).end < bound,
        all_valid(s) && r.start <= r.end ==> all_valid(s.push(r)),
        all_positive(s) && r.start < r.end ==> all_positive(s.push(r)),
{
    let t = s.push(r);
    assert forall|k: int| 0 <= k < s.len() implies t[k] == s[k] by {}
    assert forall|a: int, b: int| 0 <= a < b < t.len() implies (#[trigger] t[a]).end < (
    #[trigger] t[b]).start by {
        assert(t[a] == s[a]);
        if b < s.len() {
            assert(t[b] == s[b]);
        }
    }
    if r.start <= bound && r.end < bound {
        assert forall|k: int| 0 <= k < t.len() implies (#[trigger] t[k]).end < bound by {
            if k < s.len() {
                assert(t[k] == s[k]);
            }
        }
    }
    if all_valid(s) && r.start <= r.end {
        assert forall|k: int| 0 <= k < t.len() implies (#[trigger] t[k]).start <= t[k].end by {
            if k < s.len() {
                assert(t[k] == s[k]);
            }
        }
    }
    if all_positive(s) && r.start < r.end {
        assert forall|k: int| 0 <= k < t.len() implies (#[trigger] t[k]).start < t[k].end by {
            if k < s.len() {
                assert(t[k] == s[k]);
            }
        }
    }
}

/// A set of sectors has one normal form only: two lists of ranges that each
/// hold a sector, rise, and are parted by gaps are the same list if they
/// cover the same sectors.
pub proof fn lemma_normal_form_unique(a: Seq<Range<u32>>, b: Seq<Range<u32>>)
    requires
        all_positive(a),
        separated(a),
        all_positive(b),
        separated(b),
        forall|p: int| covers(a, p) == covers(b, p),
    ensures
        a == b,
    decreases a.len(),
{
    if a.len() == 0 {
        if b.len() > 0 {
            assert(holds(b[0], b[0].start as int));
            assert(covers(b, b[0].start as int));
            assert(covers(a, b[0].start as int));
        }
        assert(a =~= b);
    } else if b.len() == 0 {
        assert(holds(a[0], a[0].start as int));
        assert(covers(a, a[0].start as int));
        assert(covers(b, a[0].start as int));
    } else {
        lemma_first_range_agrees(a, b);
        lemma_first_range_agrees(b, a);
        assert(a[0] == b[0]);
        let rest_a = a.drop_first();
        let rest_b = b.drop_first();
        assert forall|p: int| covers(rest_a, p) == covers(rest_b, p) by {
            lemma_covers_rest(a, p);
            lemma_covers_rest(b, p);
            assert(covers(a, p) == covers(b, p));
        }
        assert(all_positive(rest_a)) by {
            assert forall|i: int| 0 <= i < rest_a.len() implies (#[trigger] rest_a[i]).start
                < rest_a[i].end by {
                assert(rest_a[i] == a[i + 1]);
            }
        }
        assert(all_positive(rest_b)) by {
            assert forall|i: int| 0 <= i < rest_b.len() implies (#[trigger] rest_b[i]).start
                < rest_b[i].end by {
                assert(rest_b[i] == b[i + 1]);
            }
        }
        assert(separated(rest_a)) by {
            assert forall|i: int, j: int| 0 <= i < j < rest_a.len() implies (#[trigger] rest_a[i]).end
                < (#[trigger] rest_a[j]).start by {
                assert(rest_a[i] == a[i + 1]);
                assert(rest_a[j] == a[j + 1]);
            }
        }
        assert(separated(rest_b)) by {
            assert forall|i: int, j: int| 0 <= i < j < rest_b.len() implies (#[trigger] rest_b[i]).end
                < (#[trigger] rest_b[j]).start by {
                assert(rest_b[i] == b[i + 1]);
                assert(rest_b[j] == b[j + 1]);
            }
        }
        lemma_normal_form_unique(rest_a, rest_b);
        assert(a =~= seq![a[0]] + rest_a);
        assert(b =~= seq![b[0]] + rest_b);
    }
}

/// In a list in normal form, the ranges behind the first cover what the list
/// covers but for the first range.
proof fn lemma_covers_rest(s: Seq<Range<u32>>, p: int)
    requires
        s.len() > 0,
        all_positive(s),
        separated(s),
    ensures
        covers(s.drop_first(), p) == (covers(s, p) && !holds(s[0], p)),
{
    let rest = s.drop_first();
    if covers(rest, p) {
        let i = choose|i: int| 0 <= i < rest.len() && holds(#[trigger] rest[i], p);
        assert(rest[i] == s[i + 1]);
        assert(holds(s[i + 1], p));
        assert(s[0].end < s[i + 1].start);
    }
    if covers(s, p) && !holds(s[0], p) {
        let i = choose|i: int| 0 <= i < s.len() && holds(#[trigger] s[i], p);
        assert(rest[i - 1] == s[i]);
        assert(holds(rest[i - 1], p));
    }
}

/// Of two lists in normal form that cover the same sectors, the first range
/// of the one starts no later and ends no later than the first of the other.
proof fn lemma_first_range_agrees(a: Seq<Range<u32>>, b: Seq<Range<u32>>)
    requires
        a.len() > 0,
        b.len() > 0,
        all_positive(a),
        separated(a),
        all_positive(b),
        separated(b),
        forall|p: int| covers(a, p) == covers(b, p),
    ensures
        a[0].start <= b[0].start,
        a[0].start == b[0].start ==> a[0].end <= b[0].end,
{
    let first = b[0].start as int;
    assert(holds(b[0], first));
    assert(covers(b, first));
    assert(covers(a, first));
    let i = choose|i: int| 0 <= i < a.len() && holds(#[trigger] a[i], first);
    if i > 0 {
        assert(a[0].end < a[i].start);
    }
    if a[0].start == b[0].start && a[0].end > b[0].end {
        let gap = b[0].end as int;
        assert(holds(a[0], gap));
        assert(covers(a, gap));
        assert(covers(b, gap));
        let j = choose|j: int| 0 <= j < b.len() && holds(#[trigger] b[j], gap);
        if j > 0 {
            assert(b[0].end < b[j].start);
        }
    }
}

} // verus!
