//! Where the delimiters of a style may stand: they close before the syntax of
//! another construct and open again behind it, and leave no text out.

use core::ops::Range;

use vstd::prelude::*;

use crate::formatting::atoms::{InlineContext, Part};
use crate::formatting::plan::{carries, closed, split_parts, split_ranges, split_step, Split};
use crate::formatting::ranges::overlap;
use crate::formatting::reach::trimming_takes_white_space;
use crate::strings::byte_offset;
use crate::text::bytes_of;
use crate::words::{
    index_at,
    lemma_index_at,
    lemma_offsets_grow,
    trimmed,
    white_end,
    white_start,
    whitespace,
};

verus! {

/// Does a character begin, or the text end, at the byte?
pub open spec fn on_char(text: Seq<char>, p: int) -> bool {
    byte_offset(text, index_at(text, p)) == p
}

/// Do the pieces follow one another, none of them from or to the middle of a
/// character?
pub open spec fn well_placed(text: Seq<char>, parts: Seq<Part>) -> bool {
    &&& forall|j: int|
        0 <= j < parts.len() ==> (#[trigger] parts[j]).range.start <= parts[j].range.end && on_char(
            text,
            parts[j].range.start as int,
        ) && on_char(text, parts[j].range.end as int)
    &&& forall|j: int, k: int|
        0 <= j < k < parts.len() ==> (#[trigger] parts[j]).range.end <= (
        #[trigger] parts[k]).range.start
}

/// Is the byte in the piece and in the range?
pub open spec fn shares(part: Part, r: Range<usize>, p: int) -> bool {
    part.range.start <= p < part.range.end && r.start <= p < r.end
}

/// Are all pieces with a byte in the range in the same constructs?
pub open spec fn in_context(parts: Seq<Part>, r: Range<usize>, context: Seq<InlineContext>) -> bool {
    forall|j: int, p: int|
        0 <= j < parts.len() && #[trigger] shares(parts[j], r, p) ==> parts[j].context == context
}

/// Are all pieces with a byte in the range in the same constructs?
pub open spec fn in_one_context(parts: Seq<Part>, r: Range<usize>) -> bool {
    exists|context: Seq<InlineContext>| in_context(parts, r, context)
}

/// Is the character in one of the ranges?
pub open spec fn char_in(text: Seq<char>, ranges: Seq<Range<usize>>, i: int) -> bool {
    exists|k: int|
        0 <= k < ranges.len() && (#[trigger] ranges[k]).start <= byte_offset(text, i)
            < ranges[k].end
}

proof fn lemma_trimmed_within(text: Seq<char>, s: int, e: int)
    requires
        bytes_of(text).len() <= usize::MAX,
        s <= e,
        on_char(text, s),
        on_char(text, e),
    ensures
        trimmed(text, s, e) matches Some(r) ==> s <= r.start < r.end <= e,
{
    lemma_index_at(text, s);
    lemma_index_at(text, e);
    let first = index_at(text, s);
    let limit = index_at(text, e);
    if let Some(r) = trimmed(text, s, e) {
        if limit < first {
            lemma_offsets_grow(text, limit, first);
        }
        lemma_ends_within(text, first, limit);
        let start = white_end(text, first, limit);
        let end = white_start(text, limit, start);
        lemma_offsets_grow(text, first, start);
        lemma_offsets_grow(text, start, end);
        lemma_offsets_grow(text, end, limit);
        lemma_offsets_grow(text, limit, text.len() as int);
    }
}

proof fn lemma_ends_within(text: Seq<char>, i: int, limit: int)
    requires
        i <= limit,
    ensures
        i <= white_end(text, i, limit) <= limit,
        white_end(text, i, limit) <= white_start(text, limit, white_end(text, i, limit)) <= limit,
    decreases limit - i,
{
    if i < limit && whitespace(text[i]) {
        lemma_ends_within(text, i + 1, limit);
    }
    lemma_start_within(text, limit, white_end(text, i, limit));
}

proof fn lemma_start_within(text: Seq<char>, i: int, floor: int)
    ensures
        floor <= i ==> floor <= white_start(text, i, floor) <= i,
    decreases i - floor,
{
    if i > floor && whitespace(text[i - 1]) {
        lemma_start_within(text, i - 1, floor);
    }
}

/// What holds after the first `n` pieces: the finished ranges are in one context
/// each, the growing one is in its own, and no text of the pieces is left out.
spec fn split_holds(
    text: Seq<char>,
    parts: Seq<Part>,
    n: int,
    desired: Range<usize>,
    before: Seq<Range<usize>>,
    split: Split,
) -> bool {
    &&& forall|k: int|
        0 <= k < split.out.len() ==> in_one_context(parts, #[trigger] split.out[k]) || before.contains(
            split.out[k],
        )
    &&& forall|k: int| 0 <= k < before.len() ==> split.out.contains(#[trigger] before[k])
    &&& match split.open {
        Some((context, range)) => {
            &&& desired.start <= range.start <= range.end <= desired.end
            &&& on_char(text, range.start as int)
            &&& on_char(text, range.end as int)
            &&& forall|j: int, p: int|
                0 <= j < n && #[trigger] shares(parts[j], range, p) ==> parts[j].context == context
            &&& forall|j: int, p: int|
                0 <= j < n && #[trigger] shares(parts[j], desired, p) ==> p < range.end
            &&& forall|j: int| n <= j < parts.len() ==> range.end <= (#[trigger] parts[j]).range.start
        },
        None => true,
    }
    &&& forall|j: int, i: int|
        0 <= j < n && 0 <= i < text.len() && !whitespace(text[i]) && carries(parts[j], desired)
            && #[trigger] shares(parts[j], desired, byte_offset(text, i)) ==> char_in(
            text,
            split.out,
            i,
        ) || (split.open matches Some((_, range)) && range.start <= byte_offset(text, i) < range.end)
}

proof fn lemma_closed(
    text: Seq<char>,
    parts: Seq<Part>,
    n: int,
    desired: Range<usize>,
    before: Seq<Range<usize>>,
    split: Split,
)
    requires
        bytes_of(text).len() <= usize::MAX,
        0 <= n <= parts.len(),
        split_holds(text, parts, n, desired, before, split),
    ensures
        split_holds(
            text,
            parts,
            n,
            desired,
            before,
            Split { out: closed(text, split), open: None },
        ),
{
    let out = closed(text, split);
    if let Some((context, range)) = split.open {
        lemma_trimmed_within(text, range.start as int, range.end as int);
        if let Some(r) = trimmed(text, range.start as int, range.end as int) {
            assert(out == split.out.push(r));
            assert(in_context(parts, r, context)) by {
                assert forall|j: int, p: int|
                    0 <= j < parts.len() && #[trigger] shares(parts[j], r, p) implies parts[j].context
                    == context by {
                    assert(shares(parts[j], range, p));
                    if j >= n {
                        assert(range.end <= parts[j].range.start);
                    }
                }
            }
            assert(out.last() == r);
            assert forall|k: int| 0 <= k < before.len() implies out.contains(
                #[trigger] before[k],
            ) by {
                assert(split.out.contains(before[k]));
                let m = choose|m: int| 0 <= m < split.out.len() && split.out[m] == before[k];
                assert(out[m] == before[k]);
            }
            assert forall|k: int| 0 <= k < out.len() implies in_one_context(
                parts,
                #[trigger] out[k],
            ) || before.contains(out[k]) by {
                if k < split.out.len() {
                    assert(out[k] == split.out[k]);
                }
            }
        }
        assert forall|j: int, i: int|
            0 <= j < n && 0 <= i < text.len() && !whitespace(text[i]) && carries(parts[j], desired)
                && #[trigger] shares(parts[j], desired, byte_offset(text, i)) implies char_in(
            text,
            out,
            i,
        ) by {
            if char_in(text, split.out, i) {
                let k = choose|k: int|
                    0 <= k < split.out.len() && (#[trigger] split.out[k]).start <= byte_offset(
                        text,
                        i,
                    ) < split.out[k].end;
                assert(out[k] == split.out[k]);
            } else {
                trimming_takes_white_space(text, range.start as int, range.end as int, i);
                assert(out[out.len() - 1].start <= byte_offset(text, i) < out[out.len() - 1].end);
            }
        }
    }
}

proof fn lemma_split_step(
    text: Seq<char>,
    parts: Seq<Part>,
    n: int,
    desired: Range<usize>,
    before: Seq<Range<usize>>,
    split: Split,
)
    requires
        bytes_of(text).len() <= usize::MAX,
        well_placed(text, parts),
        on_char(text, desired.start as int),
        on_char(text, desired.end as int),
        0 <= n < parts.len(),
        split_holds(text, parts, n, desired, before, split),
    ensures
        split_holds(
            text,
            parts,
            n + 1,
            desired,
            before,
            split_step(text, split, parts[n], desired),
        ),
{
    let p = parts[n];
    let start = if p.range.start >= desired.start {
        p.range.start
    } else {
        desired.start
    };
    let end = if p.range.end <= desired.end {
        p.range.end
    } else {
        desired.end
    };
    let next = split_step(text, split, p, desired);
    let shut = Split { out: closed(text, split), open: None };
    lemma_closed(text, parts, n, desired, before, split);
    if !overlap(p.range, desired) || start >= end {
        assert(forall|q: int| !#[trigger] shares(parts[n], desired, q));
        if let Some((context, range)) = split.open {
            assert forall|q: int| !#[trigger] shares(parts[n], range, q) by {
                assert(!shares(parts[n], desired, q));
            }
        }
    } else if !carries(p, desired) {
        assert(next == shut);
    } else {
        assert forall|j: int| n + 1 <= j < parts.len() implies end <= (
        #[trigger] parts[j]).range.start by {
            assert(parts[n].range.end <= parts[j].range.start);
        }
        assert forall|j: int, q: int|
            0 <= j < n && #[trigger] shares(parts[j], desired, q) implies q < start by {
            assert(parts[j].range.end <= parts[n].range.start);
        }
        let (context, range) = next.open->0;
        assert(next.out == split.out || next.out == shut.out);
        assert forall|k: int| 0 <= k < next.out.len() implies in_one_context(
            parts,
            #[trigger] next.out[k],
        ) || before.contains(next.out[k]) by {
            if next.out == split.out {
                assert(split.out[k] == next.out[k]);
            } else {
                assert(shut.out[k] == next.out[k]);
            }
        }
        assert(context == p.context && range.end == end);
        assert(on_char(text, range.start as int) && on_char(text, range.end as int));
        assert forall|j: int, q: int|
            0 <= j < n + 1 && #[trigger] shares(parts[j], desired, q) implies q < range.end by {
            if j < n {
                assert(q < start);
            }
        }
        assert forall|j: int, q: int|
            0 <= j < n + 1 && #[trigger] shares(parts[j], range, q) implies parts[j].context
            == context by {
            if j < n {
                assert(shares(parts[j], desired, q));
                assert(q < start);
                if let Some((old, grown)) = split.open {
                    if old == p.context {
                        assert(q < grown.end);
                        assert(shares(parts[j], grown, q));
                    }
                }
            }
        }
        assert forall|j: int, i: int|
            0 <= j < n + 1 && 0 <= i < text.len() && !whitespace(text[i]) && carries(
                parts[j],
                desired,
            ) && #[trigger] shares(parts[j], desired, byte_offset(text, i)) implies char_in(
            text,
            next.out,
            i,
        ) || range.start <= byte_offset(text, i) < range.end by {
            if j < n {
                assert(byte_offset(text, i) < start);
            }
        }
    }
}

proof fn lemma_split_parts(
    text: Seq<char>,
    parts: Seq<Part>,
    n: int,
    desired: Range<usize>,
    before: Seq<Range<usize>>,
)
    requires
        bytes_of(text).len() <= usize::MAX,
        well_placed(text, parts),
        on_char(text, desired.start as int),
        on_char(text, desired.end as int),
        0 <= n <= parts.len(),
    ensures
        split_holds(
            text,
            parts,
            n,
            desired,
            before,
            split_parts(text, parts.take(n), desired, before),
        ),
    decreases n,
{
    if n > 0 {
        lemma_split_parts(text, parts, n - 1, desired, before);
        assert(parts.take(n).drop_last() =~= parts.take(n - 1));
        assert(parts.take(n).last() == parts[n - 1]);
        lemma_split_step(
            text,
            parts,
            n - 1,
            desired,
            before,
            split_parts(text, parts.take(n - 1), desired, before),
        );
    } else {
        let split = split_parts(text, parts.take(0), desired, before);
        assert(split.out == before);
        assert forall|k: int| 0 <= k < before.len() implies split.out.contains(
            #[trigger] before[k],
        ) by {
            assert(split.out[k] == before[k]);
        }
        assert forall|k: int| 0 <= k < split.out.len() implies in_one_context(
            parts,
            #[trigger] split.out[k],
        ) || before.contains(split.out[k]) by {
            assert(before[k] == split.out[k]);
        }
    }
}

/// Each range that gets delimiters is in one context: no delimiter pair has the
/// start or the end of a link, or of another style, between its ends.
pub proof fn styled_ranges_cross_no_syntax(
    text: Seq<char>,
    parts: Seq<Part>,
    ranges: Seq<Range<usize>>,
    k: int,
    i: int,
    j: int,
    p: int,
    q: int,
)
    requires
        bytes_of(text).len() <= usize::MAX,
        well_placed(text, parts),
        forall|m: int|
            0 <= m < ranges.len() ==> on_char(text, (#[trigger] ranges[m]).start as int) && on_char(
                text,
                ranges[m].end as int,
            ),
        0 <= k < split_ranges(text, parts, ranges).len(),
        0 <= i < parts.len(),
        0 <= j < parts.len(),
        shares(parts[i], split_ranges(text, parts, ranges)[k], p),
        shares(parts[j], split_ranges(text, parts, ranges)[k], q),
    ensures
        parts[i].context == parts[j].context,
    decreases ranges.len(),
{
    let r = split_ranges(text, parts, ranges)[k];
    let before = split_ranges(text, parts, ranges.drop_last());
    let desired = ranges.last();
    assert(ranges[ranges.len() - 1] == desired);
    lemma_split_parts(text, parts, parts.len() as int, desired, before);
    assert(parts.take(parts.len() as int) =~= parts);
    lemma_closed(
        text,
        parts,
        parts.len() as int,
        desired,
        before,
        split_parts(text, parts, desired, before),
    );
    let shut = Split {
        out: closed(text, split_parts(text, parts, desired, before)),
        open: None,
    };
    assert(shut.out[k] == r);
    if in_one_context(parts, r) {
        let context = choose|context: Seq<InlineContext>| in_context(parts, r, context);
        assert(in_context(parts, r, context));
    } else {
        let m = choose|m: int| 0 <= m < before.len() && before[m] == r;
        styled_ranges_cross_no_syntax(text, parts, ranges.drop_last(), m, i, j, p, q);
    }
}

/// No text is left without delimiters: each character that is to carry the style,
/// white space apart, is in one of the ranges that get them.
pub proof fn styled_ranges_leave_no_text_out(
    text: Seq<char>,
    parts: Seq<Part>,
    ranges: Seq<Range<usize>>,
    m: int,
    j: int,
    i: int,
)
    requires
        bytes_of(text).len() <= usize::MAX,
        well_placed(text, parts),
        forall|k: int|
            0 <= k < ranges.len() ==> on_char(text, (#[trigger] ranges[k]).start as int) && on_char(
                text,
                ranges[k].end as int,
            ),
        0 <= m < ranges.len(),
        0 <= j < parts.len(),
        parts[j].eligibility is Partial,
        0 <= i < text.len(),
        !whitespace(text[i]),
        shares(parts[j], ranges[m], byte_offset(text, i)),
    ensures
        char_in(text, split_ranges(text, parts, ranges), i),
    decreases ranges.len(),
{
    let before = split_ranges(text, parts, ranges.drop_last());
    let desired = ranges.last();
    let n = parts.len() as int;
    assert(ranges[ranges.len() - 1] == desired);
    lemma_split_parts(text, parts, n, desired, before);
    assert(parts.take(n) =~= parts);
    lemma_closed(text, parts, n, desired, before, split_parts(text, parts, desired, before));
    let out = split_ranges(text, parts, ranges);
    if m < ranges.len() - 1 {
        assert(ranges.drop_last()[m] == ranges[m]);
        styled_ranges_leave_no_text_out(text, parts, ranges.drop_last(), m, j, i);
        let k = choose|k: int|
            0 <= k < before.len() && (#[trigger] before[k]).start <= byte_offset(text, i)
                < before[k].end;
        assert(out.contains(before[k]));
        let l = choose|l: int| 0 <= l < out.len() && out[l] == before[k];
        assert(out[l].start <= byte_offset(text, i) < out[l].end);
    } else {
        assert(carries(parts[j], desired));
        assert(shares(parts[j], desired, byte_offset(text, i)));
    }
}

} // verus!
