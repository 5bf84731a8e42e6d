//! Ranges of bytes and lists of them.

use core::ops::Range;

use vstd::prelude::*;

verus! {

/// Do the ranges share a byte?
pub open spec fn overlap(a: Range<usize>, c: Range<usize>) -> bool {
    a.start < c.end && c.start < a.end
}

/// Do the ranges share a byte or meet?
pub open spec fn touch(a: Range<usize>, c: Range<usize>) -> bool {
    a.start <= c.end && c.start <= a.end
}

pub fn overlaps(a: &Range<usize>, c: &Range<usize>) -> (found: bool)
    ensures
        found == overlap(*a, *c),
{
    a.start < c.end && c.start < a.end
}

pub fn touches(a: &Range<usize>, c: &Range<usize>) -> (found: bool)
    ensures
        found == touch(*a, *c),
{
    a.start <= c.end && c.start <= a.end
}

pub open spec fn lesser(a: usize, c: usize) -> usize {
    if a <= c {
        a
    } else {
        c
    }
}

pub open spec fn greater(a: usize, c: usize) -> usize {
    if a <= c {
        c
    } else {
        a
    }
}

pub fn min_offset(a: usize, c: usize) -> (m: usize)
    ensures
        m == lesser(a, c),
{
    if a <= c {
        a
    } else {
        c
    }
}

pub fn max_offset(a: usize, c: usize) -> (m: usize)
    ensures
        m == greater(a, c),
{
    if a <= c {
        c
    } else {
        a
    }
}

/// `sorted` with `r` put after the last range that does not start after it.
pub open spec fn insert_range(sorted: Seq<Range<usize>>, r: Range<usize>) -> Seq<Range<usize>>
    decreases sorted.len(),
{
    if sorted.len() == 0 || sorted.last().start <= r.start {
        sorted.push(r)
    } else {
        insert_range(sorted.drop_last(), r).push(sorted.last())
    }
}

/// The ranges by their start; equal ones keep the order they came in.
pub open spec fn sorted_ranges(ranges: Seq<Range<usize>>) -> Seq<Range<usize>>
    decreases ranges.len(),
{
    if ranges.len() == 0 {
        ranges
    } else {
        insert_range(sorted_ranges(ranges.drop_last()), ranges.last())
    }
}

/// `out` with the next range by start: joined to the last one where the two
/// meet.
pub open spec fn join_range(out: Seq<Range<usize>>, r: Range<usize>) -> Seq<Range<usize>> {
    if out.len() > 0 && r.start <= out.last().end {
        out.drop_last().push(
            Range { start: out.last().start, end: greater(out.last().end, r.end) },
        )
    } else {
        out.push(r)
    }
}

/// Sorted ranges with those that meet joined.
pub open spec fn joined_ranges(ranges: Seq<Range<usize>>) -> Seq<Range<usize>>
    decreases ranges.len(),
{
    if ranges.len() == 0 {
        ranges
    } else {
        join_range(joined_ranges(ranges.drop_last()), ranges.last())
    }
}

/// The union of the ranges, as ranges that lie apart.
pub open spec fn merged(ranges: Seq<Range<usize>>) -> Seq<Range<usize>> {
    joined_ranges(sorted_ranges(ranges))
}

fn sort_ranges(ranges: &Vec<Range<usize>>) -> (sorted: Vec<Range<usize>>)
    ensures
        sorted@ == sorted_ranges(ranges@),
{
    let ghost all = ranges@;
    let mut sorted: Vec<Range<usize>> = Vec::new();
    let mut i: usize = 0;
    assert(sorted@ =~= sorted_ranges(all.take(0)));
    while i < ranges.len()
        invariant
            i <= ranges@.len(),
            all == ranges@,
            sorted@ == sorted_ranges(all.take(i as int)),
        decreases ranges@.len() - i,
    {
        let r = ranges[i].start..ranges[i].end;
        let ghost before = sorted@;
        proof {
            assert(all.take(i + 1).drop_last() =~= all.take(i as int));
            assert(all.take(i + 1).last() == r);
        }
        let mut j: usize = sorted.len();
        assert(before.take(j as int) =~= before);
        assert(before.skip(j as int) =~= Seq::empty());
        while j > 0 && sorted[j - 1].start > r.start
            invariant
                j <= sorted@.len(),
                before == sorted@,
                insert_range(before, r) == insert_range(before.take(j as int), r) + before.skip(
                    j as int,
                ),
            decreases j,
        {
            proof {
                let head = before.take(j as int);
                assert(head.last() == before[j - 1]);
                assert(head.drop_last() =~= before.take(j - 1));
                assert(before.skip(j - 1) =~= seq![before[j - 1]] + before.skip(j as int));
                assert(insert_range(before, r) =~= insert_range(before.take(j - 1), r)
                    + before.skip(j - 1));
            }
            j = j - 1;
        }
        proof {
            if j > 0 {
                assert(before.take(j as int).last() == before[j - 1]);
            }
            assert(insert_range(before.take(j as int), r) == before.take(j as int).push(r));
        }
        sorted.insert(j, r);
        assert(sorted@ =~= insert_range(before, r));
        i = i + 1;
    }
    assert(all.take(i as int) =~= all);
    sorted
}

/// The union of the ranges, as ranges that lie apart.
pub fn merge_ranges(ranges: Vec<Range<usize>>) -> (out: Vec<Range<usize>>)
    ensures
        out@ == merged(ranges@),
{
    let sorted = sort_ranges(&ranges);
    let ghost all = sorted@;
    let mut out: Vec<Range<usize>> = Vec::new();
    let mut i: usize = 0;
    assert(out@ =~= joined_ranges(all.take(0)));
    while i < sorted.len()
        invariant
            i <= sorted@.len(),
            all == sorted@,
            out@ == joined_ranges(all.take(i as int)),
        decreases sorted@.len() - i,
    {
        proof {
            assert(all.take(i + 1).drop_last() =~= all.take(i as int));
            assert(all.take(i + 1).last() == all[i as int]);
        }
        let start: usize = sorted[i].start;
        let end: usize = sorted[i].end;
        let ghost before = out@;
        let count: usize = out.len();
        if count > 0 && start <= out[count - 1].end {
            let joined = out[count - 1].start..max_offset(out[count - 1].end, end);
            out.pop();
            out.push(joined);
        } else {
            out.push(start..end);
        }
        assert(out@ =~= join_range(before, all[i as int]));
        i = i + 1;
    }
    assert(all.take(i as int) =~= all);
    out
}

/// `r` as a list, empty if the range is.
pub open spec fn nonempty(r: Range<usize>) -> Seq<Range<usize>> {
    if r.start < r.end {
        seq![r]
    } else {
        Seq::empty()
    }
}

/// What is left of a range without the bytes of `removed`.
pub open spec fn without(r: Range<usize>, removed: Range<usize>) -> Seq<Range<usize>> {
    if overlap(r, removed) {
        nonempty(Range { start: r.start, end: lesser(removed.start, r.end) }) + nonempty(
            Range { start: greater(removed.end, r.start), end: r.end },
        )
    } else {
        nonempty(r)
    }
}

/// What is left of the ranges without the bytes of `removed`.
pub open spec fn subtracted(ranges: Seq<Range<usize>>, removed: Range<usize>) -> Seq<Range<usize>>
    decreases ranges.len(),
{
    if ranges.len() == 0 {
        Seq::empty()
    } else {
        subtracted(ranges.drop_last(), removed) + without(ranges.last(), removed)
    }
}

fn push_nonempty(out: &mut Vec<Range<usize>>, start: usize, end: usize)
    ensures
        final(out)@ == old(out)@ + nonempty(Range { start, end }),
{
    let ghost before = out@;
    if start < end {
        out.push(start..end);
    }
    assert(out@ =~= before + nonempty(Range { start, end }));
}

/// What is left of the ranges without the bytes of `removed`.
pub fn subtract_ranges(ranges: &Vec<Range<usize>>, removed: &Range<usize>) -> (out: Vec<
    Range<usize>,
>)
    ensures
        out@ == subtracted(ranges@, *removed),
{
    let ghost all = ranges@;
    let mut out: Vec<Range<usize>> = Vec::new();
    let mut i: usize = 0;
    while i < ranges.len()
        invariant
            i <= ranges@.len(),
            all == ranges@,
            out@ == subtracted(all.take(i as int), *removed),
        decreases ranges@.len() - i,
    {
        proof {
            assert(all.take(i + 1).drop_last() =~= all.take(i as int));
            assert(all.take(i + 1).last() == all[i as int]);
        }
        let start: usize = ranges[i].start;
        let end: usize = ranges[i].end;
        let ghost before = out@;
        if overlaps(&ranges[i], removed) {
            push_nonempty(&mut out, start, min_offset(removed.start, end));
            push_nonempty(&mut out, max_offset(removed.end, start), end);
        } else {
            push_nonempty(&mut out, start, end);
        }
        assert(out@ =~= before + without(all[i as int], *removed));
        i = i + 1;
    }
    assert(all.take(i as int) =~= all);
    out
}

// ---------------------------------------------------------------------------
// Laws
// ---------------------------------------------------------------------------

/// Does one of the ranges hold `p`?
pub open spec fn covered_by(ranges: Seq<Range<usize>>, p: int) -> bool {
    exists|i: int| 0 <= i < ranges.len() && (#[trigger] ranges[i]).start <= p < ranges[i].end
}

/// Does each range end before the next one starts?
pub open spec fn apart(ranges: Seq<Range<usize>>) -> bool {
    forall|i: int, j: int|
        0 <= i < j < ranges.len() ==> (#[trigger] ranges[i]).end < (#[trigger] ranges[j]).start
}

pub open spec fn all_proper(ranges: Seq<Range<usize>>) -> bool {
    forall|i: int| 0 <= i < ranges.len() ==> (#[trigger] ranges[i]).start <= ranges[i].end
}

pub open spec fn by_start(ranges: Seq<Range<usize>>) -> bool {
    forall|i: int, j: int|
        0 <= i < j < ranges.len() ==> (#[trigger] ranges[i]).start <= (#[trigger] ranges[j]).start
}

proof fn lemma_covered_push(ranges: Seq<Range<usize>>, r: Range<usize>, p: int)
    ensures
        covered_by(ranges.push(r), p) == (covered_by(ranges, p) || r.start <= p < r.end),
{
    let next = ranges.push(r);
    if covered_by(ranges, p) {
        let i = choose|i: int|
            0 <= i < ranges.len() && (#[trigger] ranges[i]).start <= p < ranges[i].end;
        assert(next[i] == ranges[i]);
    }
    if r.start <= p < r.end {
        assert(next[ranges.len() as int] == r);
    }
    if covered_by(next, p) {
        let i = choose|i: int| 0 <= i < next.len() && (#[trigger] next[i]).start <= p < next[i].end;
        if i < ranges.len() {
            assert(ranges[i] == next[i]);
        }
    }
}

proof fn lemma_insert_range(sorted: Seq<Range<usize>>, r: Range<usize>, p: int)
    requires
        by_start(sorted),
        all_proper(sorted),
        r.start <= r.end,
    ensures
        by_start(insert_range(sorted, r)),
        all_proper(insert_range(sorted, r)),
        insert_range(sorted, r).len() == sorted.len() + 1,
        forall|i: int|
            0 <= i < insert_range(sorted, r).len() ==> (#[trigger] insert_range(sorted, r)[i]).start
                <= r.start || (sorted.len() > 0 && insert_range(sorted, r)[i].start
                <= sorted.last().start),
        covered_by(insert_range(sorted, r), p) == (covered_by(sorted, p) || r.start <= p < r.end),
    decreases sorted.len(),
{
    if sorted.len() == 0 || sorted.last().start <= r.start {
        lemma_covered_push(sorted, r, p);
        let next = sorted.push(r);
        assert forall|i: int, j: int| 0 <= i < j < next.len() implies (#[trigger] next[i]).start <= (
        #[trigger] next[j]).start by {
            if j == sorted.len() {
                assert(sorted[i].start <= sorted[sorted.len() - 1].start);
            }
        }
    } else {
        let head = sorted.drop_last();
        let last = sorted.last();
        assert(by_start(head));
        lemma_insert_range(head, r, p);
        lemma_covered_push(insert_range(head, r), last, p);
        lemma_covered_push(head, last, p);
        assert(head.push(last) =~= sorted);
        let next = insert_range(sorted, r);
        let inner = insert_range(head, r);
        assert forall|i: int, j: int| 0 <= i < j < next.len() implies (#[trigger] next[i]).start <= (
        #[trigger] next[j]).start by {
            assert(next[i] == inner[i]);
            if j == inner.len() {
                if head.len() > 0 {
                    assert(sorted[head.len() - 1].start <= sorted[sorted.len() - 1].start);
                }
            } else {
                assert(next[j] == inner[j]);
            }
        }
        assert forall|i: int| 0 <= i < next.len() implies (#[trigger] next[i]).start <= r.start
            || next[i].start <= sorted.last().start by {
            if i < inner.len() {
                assert(next[i] == inner[i]);
                if head.len() > 0 {
                    assert(sorted[head.len() - 1].start <= sorted[sorted.len() - 1].start);
                }
            }
        }
        assert forall|i: int| 0 <= i < next.len() implies (#[trigger] next[i]).start
            <= next[i].end by {
            if i < inner.len() {
                assert(next[i] == inner[i]);
            }
        }
    }
}

proof fn lemma_sorted_ranges(ranges: Seq<Range<usize>>, p: int)
    requires
        all_proper(ranges),
    ensures
        by_start(sorted_ranges(ranges)),
        all_proper(sorted_ranges(ranges)),
        covered_by(sorted_ranges(ranges), p) == covered_by(ranges, p),
    decreases ranges.len(),
{
    if ranges.len() > 0 {
        let head = ranges.drop_last();
        assert(all_proper(head));
        lemma_sorted_ranges(head, p);
        lemma_insert_range(sorted_ranges(head), ranges.last(), p);
        lemma_covered_push(head, ranges.last(), p);
        assert(head.push(ranges.last()) =~= ranges);
    }
}

proof fn lemma_joined_ranges(ranges: Seq<Range<usize>>, p: int)
    requires
        by_start(ranges),
        all_proper(ranges),
    ensures
        apart(joined_ranges(ranges)),
        all_proper(joined_ranges(ranges)),
        ranges.len() > 0 ==> joined_ranges(ranges).len() > 0 && joined_ranges(ranges).last().start
            <= ranges.last().start,
        covered_by(joined_ranges(ranges), p) == covered_by(ranges, p),
    decreases ranges.len(),
{
    if ranges.len() > 0 {
        let head = ranges.drop_last();
        let r = ranges.last();
        assert(by_start(head));
        assert(all_proper(head));
        lemma_joined_ranges(head, p);
        lemma_covered_push(head, r, p);
        assert(head.push(r) =~= ranges);
        let out = joined_ranges(head);
        let next = join_range(out, r);
        if head.len() > 0 {
            assert(ranges[head.len() - 1].start <= ranges[ranges.len() - 1].start);
        }
        assert(ranges[ranges.len() - 1].start <= ranges[ranges.len() - 1].end);
        if out.len() > 0 && r.start <= out.last().end {
            let front = out.drop_last();
            let last = out.last();
            let wide = Range { start: last.start, end: greater(last.end, r.end) };
            assert(out[out.len() - 1].start <= out[out.len() - 1].end);
            lemma_covered_push(front, wide, p);
            lemma_covered_push(front, last, p);
            assert(front.push(last) =~= out);
            assert forall|i: int, j: int| 0 <= i < j < next.len() implies (#[trigger] next[i]).end < (
            #[trigger] next[j]).start by {
                assert(next[i] == out[i]);
                assert(next[j].start == out[j].start);
            }
            assert forall|i: int| 0 <= i < next.len() implies (#[trigger] next[i]).start
                <= next[i].end by {
                assert(next[i].start == out[i].start);
                assert(out[i].start <= out[i].end);
            }
        } else {
            lemma_covered_push(out, r, p);
            assert forall|i: int, j: int| 0 <= i < j < next.len() implies (#[trigger] next[i]).end < (
            #[trigger] next[j]).start by {
                assert(next[i] == out[i]);
                if j < out.len() {
                    assert(next[j] == out[j]);
                } else if i < out.len() - 1 {
                    assert(out[i].end < out[out.len() - 1].start);
                    assert(out[out.len() - 1].start <= out[out.len() - 1].end);
                }
            }
            assert forall|i: int| 0 <= i < next.len() implies (#[trigger] next[i]).start
                <= next[i].end by {
                if i < out.len() {
                    assert(next[i] == out[i]);
                    assert(out[i].start <= out[i].end);
                }
            }
        }
    }
}

/// Merging keeps the bytes that the ranges cover, and leaves ranges that lie
/// apart.
pub proof fn merging_keeps_the_bytes(ranges: Seq<Range<usize>>, p: int)
    requires
        all_proper(ranges),
    ensures
        apart(merged(ranges)),
        covered_by(merged(ranges), p) == covered_by(ranges, p),
{
    lemma_sorted_ranges(ranges, p);
    lemma_joined_ranges(sorted_ranges(ranges), p);
}

proof fn lemma_covered_concat(a: Seq<Range<usize>>, c: Seq<Range<usize>>, p: int)
    ensures
        covered_by(a + c, p) == (covered_by(a, p) || covered_by(c, p)),
    decreases c.len(),
{
    if c.len() == 0 {
        assert(a + c =~= a);
    } else {
        lemma_covered_concat(a, c.drop_last(), p);
        lemma_covered_push(a + c.drop_last(), c.last(), p);
        lemma_covered_push(c.drop_last(), c.last(), p);
        assert((a + c.drop_last()).push(c.last()) =~= a + c);
        assert(c.drop_last().push(c.last()) =~= c);
    }
}

proof fn lemma_covered_nonempty(r: Range<usize>, p: int)
    ensures
        covered_by(nonempty(r), p) == (r.start <= p < r.end),
{
    if r.start <= p < r.end {
        assert(nonempty(r)[0] == r);
    }
}

/// Subtracting takes out exactly the bytes of `removed`.
pub proof fn subtracting_removes_the_bytes(
    ranges: Seq<Range<usize>>,
    removed: Range<usize>,
    p: int,
)
    requires
        removed.start < removed.end,
    ensures
        covered_by(subtracted(ranges, removed), p) == (covered_by(ranges, p) && !(removed.start <= p
            < removed.end)),
    decreases ranges.len(),
{
    if ranges.len() > 0 {
        let r = ranges.last();
        subtracting_removes_the_bytes(ranges.drop_last(), removed, p);
        lemma_covered_concat(
            subtracted(ranges.drop_last(), removed),
            without(r, removed),
            p,
        );
        lemma_covered_push(ranges.drop_last(), r, p);
        assert(ranges.drop_last().push(r) =~= ranges);
        let left = Range { start: r.start, end: lesser(removed.start, r.end) };
        let right = Range { start: greater(removed.end, r.start), end: r.end };
        lemma_covered_concat(nonempty(left), nonempty(right), p);
        lemma_covered_nonempty(left, p);
        lemma_covered_nonempty(right, p);
        lemma_covered_nonempty(r, p);
    }
}

} // verus!
