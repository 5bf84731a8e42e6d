//! Shift+Tab takes back what Tab did to a document.

use core::ops::Range;

use vstd::prelude::*;

use super::chain::{chain_of, ListItemContext};
use super::depth::{
    dedent_edits, indent_edits, inner_strips, inserts, item_lines, lemma_line_reaches,
    lemma_spaces_taken, starts_between, strip,
};
use super::edits::{
    adjacent_strips, disjoint, disjoint_edits_stay, edit, is_in_order, is_strip, ordered,
    well_ranged, Edit,
};
use super::lists::sibling_width;
use super::prefix::{item_in_item, last_item, lemma_last_item_bounds, prefix_width};
use crate::parser::syntax_tree;
use crate::strings::spaces;
use crate::syntax::ListKind;
use crate::text::{bytes_of, lemma_line_start_bounds, line_end, line_start, NL, SPACE};

verus! {

// ---------------------------------------------------------------------------
// Edits on bytes
// ---------------------------------------------------------------------------

/// The bytes from `last` on with the edits from `k` on.
pub open spec fn spliced_from(b: Seq<u8>, edits: Seq<Edit>, k: int, last: int) -> Seq<u8>
    decreases edits.len() - k,
{
    if k >= edits.len() {
        b.skip(last)
    } else {
        b.subrange(last, edits[k].range.start as int) + bytes_of(edits[k].text) + spliced_from(
            b,
            edits,
            k + 1,
            edits[k].range.end as int,
        )
    }
}

/// The bytes with the edits.
pub open spec fn spliced(b: Seq<u8>, edits: Seq<Edit>) -> Seq<u8> {
    spliced_from(b, edits, 0, 0)
}

// ---------------------------------------------------------------------------
// Line starts
// ---------------------------------------------------------------------------

pub proof fn lemma_starts_complete(b: Seq<u8>, s: int, p: int, end: int, q: int)
    requires
        0 <= s < q <= p,
        q < end <= usize::MAX,
        b[q - 1] == NL,
    ensures
        starts_between(b, s, p, end).contains(q as usize),
    decreases p - s,
{
    let all = starts_between(b, s, p, end);
    if q == p {
        assert(all[all.len() - 1] == q as usize);
    } else {
        lemma_starts_complete(b, s, p - 1, end, q);
        let before = starts_between(b, s, p - 1, end);
        let i = choose|i: int| 0 <= i < before.len() && before[i] == q as usize;
        assert(all[i] == before[i]);
    }
}

proof fn lemma_starts_ascend(b: Seq<u8>, s: int, p: int, end: int)
    requires
        0 <= s,
        end <= usize::MAX,
    ensures
        forall|i: int|
            0 <= i < starts_between(b, s, p, end).len() ==> s < #[trigger] starts_between(
                b,
                s,
                p,
                end,
            )[i] <= p && starts_between(b, s, p, end)[i] < end && b[starts_between(b, s, p, end)[i]
                - 1] == NL,
        forall|i: int, j: int|
            0 <= i < j < starts_between(b, s, p, end).len() ==> #[trigger] starts_between(
                b,
                s,
                p,
                end,
            )[i] < #[trigger] starts_between(b, s, p, end)[j],
    decreases p - s,
{
    if p > s {
        lemma_starts_ascend(b, s, p - 1, end);
        let before = starts_between(b, s, p - 1, end);
        let all = starts_between(b, s, p, end);
        assert forall|i: int| 0 <= i < all.len() implies s < #[trigger] all[i] <= p && all[i] < end
            && b[all[i] - 1] == NL by {
            if i < before.len() {
                assert(all[i] == before[i]);
            }
        }
        assert forall|i: int, j: int| 0 <= i < j < all.len() implies #[trigger] all[i]
            < #[trigger] all[j] by {
            assert(all[i] == before[i]);
            if j < before.len() {
                assert(all[j] == before[j]);
            }
        }
    }
}

/// The line starts in a range are the one ascending list of them all.
proof fn lemma_starts_unique(b: Seq<u8>, s: int, p: int, end: int, lines: Seq<usize>)
    requires
        0 <= s,
        end <= usize::MAX,
        forall|i: int|
            0 <= i < lines.len() ==> s < #[trigger] lines[i] <= p && lines[i] < end && b[lines[i] - 1]
                == NL,
        forall|i: int, j: int| 0 <= i < j < lines.len() ==> #[trigger] lines[i] < #[trigger] lines[j],
        forall|q: int|
            s < q <= p && q < end && #[trigger] b[q - 1] == NL ==> lines.contains(q as usize),
    ensures
        starts_between(b, s, p, end) == lines,
    decreases p - s,
{
    if p <= s {
        if lines.len() > 0 {
            assert(lines[0] <= p);
        }
        assert(lines =~= Seq::empty());
    } else if b[p - 1] == NL && p < end {
        assert(lines.contains(p as usize));
        let i = choose|i: int| 0 <= i < lines.len() && lines[i] == p as usize;
        if i < lines.len() - 1 {
            assert(lines[i] < lines[lines.len() - 1]);
        }
        let rest = lines.drop_last();
        assert forall|j: int| 0 <= j < rest.len() implies s < #[trigger] rest[j] <= p - 1 && rest[j]
            < end && b[rest[j] - 1] == NL by {
            assert(rest[j] == lines[j]);
            assert(lines[j] < lines[lines.len() - 1]);
        }
        assert forall|j: int, k: int| 0 <= j < k < rest.len() implies #[trigger] rest[j]
            < #[trigger] rest[k] by {
            assert(rest[j] == lines[j] && rest[k] == lines[k]);
        }
        assert forall|q: int| s < q <= p - 1 && q < end && #[trigger] b[q - 1] == NL implies rest.contains(
            q as usize,
        ) by {
            assert(lines.contains(q as usize));
            let j = choose|j: int| 0 <= j < lines.len() && lines[j] == q as usize;
            assert(rest[j] == lines[j]);
        }
        lemma_starts_unique(b, s, p - 1, end, rest);
        assert(lines =~= rest.push(p as usize));
    } else {
        assert forall|j: int| 0 <= j < lines.len() implies s < #[trigger] lines[j] <= p - 1
            && lines[j] < end && b[lines[j] - 1] == NL by {
            if lines[j] == p {
                assert(b[p - 1] == NL);
            }
        }
        lemma_starts_unique(b, s, p - 1, end, lines);
    }
}

// ---------------------------------------------------------------------------
// Indented lines
// ---------------------------------------------------------------------------

/// Where the piece of `b` begins that follows the spaces put into the first `k`
/// of the lines.
spec fn cut(lines: Seq<usize>, skip: int, k: int) -> int {
    if k <= 0 {
        0
    } else {
        lines[k - 1] + skip
    }
}

/// Where that piece ends.
spec fn cut_end(b: Seq<u8>, lines: Seq<usize>, skip: int, k: int) -> int {
    if k < lines.len() {
        lines[k] + skip
    } else {
        b.len() as int
    }
}

/// Does each of the lines hold the prefix of `skip` bytes, no further than `end`?
pub open spec fn lines_hold_prefix(b: Seq<u8>, lines: Seq<usize>, skip: int, end: int) -> bool {
    forall|k: int|
        0 <= k < lines.len() ==> (#[trigger] lines[k]) + skip <= end && forall|i: int|
            lines[k] <= i < lines[k] + skip ==> b[i] != NL
}

/// Do the lines come one after the other, each with the prefix of `skip` bytes?
spec fn spread(b: Seq<u8>, lines: Seq<usize>, skip: int) -> bool {
    &&& 0 <= skip
    &&& forall|k: int| 0 <= k < lines.len() ==> (#[trigger] lines[k]) + skip <= b.len()
    &&& forall|j: int, k: int|
        0 <= j < k < lines.len() ==> (#[trigger] lines[j]) + skip < #[trigger] lines[k]
}

/// The indented text piece by piece.
proof fn lemma_pieces(b: Seq<u8>, lines: Seq<usize>, skip: int, w: nat, k: int)
    requires
        spread(b, lines, skip),
        b.len() + skip <= usize::MAX,
        0 <= k <= lines.len(),
    ensures
        ({
            let out = spliced_from(b, inserts(lines, skip, spaces(w)), k, cut(lines, skip, k));
            let n = lines.len();
            &&& out.len() == b.len() - cut(lines, skip, k) + w * (n - k)
            &&& forall|d: int|
                0 <= d < cut_end(b, lines, skip, k) - cut(lines, skip, k) ==> #[trigger] out[d]
                    == b[cut(lines, skip, k) + d]
            &&& k < n ==> {
                let size = cut_end(b, lines, skip, k) - cut(lines, skip, k);
                &&& forall|d: int| size <= d < size + w ==> #[trigger] out[d] == SPACE
                &&& out.skip(size + w) == spliced_from(
                    b,
                    inserts(lines, skip, spaces(w)),
                    k + 1,
                    cut(lines, skip, k + 1),
                )
            }
        }),
    decreases lines.len() - k,
{
    let edits = inserts(lines, skip, spaces(w));
    let out = spliced_from(b, edits, k, cut(lines, skip, k));
    let n = lines.len();
    if k > 0 {
        assert(lines[k - 1] + skip <= b.len());
    }
    if k < n {
        assert(lines[k] + skip <= b.len());
        if k > 0 {
            assert(lines[k - 1] + skip < lines[k]);
        }
        lemma_pieces(b, lines, skip, w, k + 1);
        lemma_spaces_are_bytes(w);
        let rest = spliced_from(b, edits, k + 1, cut(lines, skip, k + 1));
        let head = b.subrange(cut(lines, skip, k), lines[k] + skip);
        assert(edits[k].range.start == lines[k] + skip && edits[k].range.end == lines[k] + skip);
        assert(out == head + bytes_of(spaces(w)) + rest);
        assert(out.skip(head.len() as int + w) =~= rest);
        assert(w * (n - k) == w + w * (n - k - 1)) by (nonlinear_arith);
    } else {
        assert(w * (n - k) == 0) by (nonlinear_arith)
            requires
                n == k,
        ;
    }
}

proof fn lemma_spaces_are_bytes(w: nat)
    ensures
        bytes_of(spaces(w)).len() == w,
        forall|i: int| 0 <= i < w ==> #[trigger] bytes_of(spaces(w))[i] == SPACE,
{
    vstd::utf8::is_ascii_chars_encode_utf8(spaces(w));
}

/// The indented text in one view: piece `k` of `b` comes after `w * k` further
/// bytes, and the `w` bytes before each piece but the first are spaces.
proof fn lemma_indented(b: Seq<u8>, lines: Seq<usize>, skip: int, w: nat, k: int)
    requires
        spread(b, lines, skip),
        b.len() + skip <= usize::MAX,
        0 <= k <= lines.len(),
    ensures
        ({
            let out = spliced(b, inserts(lines, skip, spaces(w)));
            let at = cut(lines, skip, k) + w * k;
            &&& out.len() == b.len() + w * lines.len()
            &&& 0 <= at <= out.len()
            &&& out.skip(at) == spliced_from(
                b,
                inserts(lines, skip, spaces(w)),
                k,
                cut(lines, skip, k),
            )
            &&& forall|d: int|
                0 <= d < cut_end(b, lines, skip, k) - cut(lines, skip, k) ==> #[trigger] out[at + d]
                    == b[cut(lines, skip, k) + d]
            &&& k > 0 ==> w <= at && forall|i: int| at - w <= i < at ==> #[trigger] out[i] == SPACE
        }),
    decreases k,
{
    let edits = inserts(lines, skip, spaces(w));
    let out = spliced(b, edits);
    let n = lines.len();
    let at = cut(lines, skip, k) + w * k;
    lemma_pieces(b, lines, skip, w, 0);
    lemma_pieces(b, lines, skip, w, k);
    assert(0 <= w * k <= w * n) by (nonlinear_arith)
        requires
            0 <= k <= n,
    ;
    if k > 0 {
        assert(lines[k - 1] + skip <= b.len());
        lemma_indented(b, lines, skip, w, k - 1);
        lemma_pieces(b, lines, skip, w, k - 1);
        let before = cut(lines, skip, k - 1) + w * (k - 1);
        let size = cut_end(b, lines, skip, k - 1) - cut(lines, skip, k - 1);
        assert(w * k == w + w * (k - 1)) by (nonlinear_arith);
        assert(at == before + size + w);
        let tail = out.skip(before);
        if k > 1 {
            assert(lines[k - 2] + skip < lines[k - 1]);
        }
        assert(0 <= size);
        assert(tail.skip(size + w) =~= out.skip(at));
        assert forall|i: int| at - w <= i < at implies #[trigger] out[i] == SPACE by {
            assert(tail[i - before] == SPACE);
        }
    } else {
        assert(out.skip(0) =~= out);
        assert(w * k == 0) by (nonlinear_arith)
            requires
                k == 0,
        ;
    }
    let tail = out.skip(at);
    assert forall|d: int|
        0 <= d < cut_end(b, lines, skip, k) - cut(lines, skip, k) implies #[trigger] out[at + d]
        == b[cut(lines, skip, k) + d] by {
        assert(tail[d] == out[at + d]);
    }
}

/// Which piece of `b`, or which spaces, the byte `x` of the indented text is in.
proof fn lemma_located(b: Seq<u8>, lines: Seq<usize>, skip: int, w: nat, x: int, k: int) -> (found: (
    int,
    bool,
))
    requires
        spread(b, lines, skip),
        b.len() + skip <= usize::MAX,
        0 <= k <= lines.len(),
        cut(lines, skip, k) + w * k <= x < b.len() + w * lines.len(),
    ensures
        ({
            let (j, inside) = found;
            let at = cut(lines, skip, j) + w * j;
            let end = cut_end(b, lines, skip, j) + w * j;
            &&& k <= j <= lines.len()
            &&& inside ==> at <= x < end
            &&& !inside ==> j < lines.len() && end <= x < end + w
        }),
    decreases lines.len() - k,
{
    let end = cut_end(b, lines, skip, k) + w * k;
    if x < end {
        (k, true)
    } else if k == lines.len() {
        assert(w * k == w * lines.len());
        (k, true)
    } else if x < end + w {
        (k, false)
    } else {
        assert(w * (k + 1) == w + w * k) by (nonlinear_arith);
        lemma_located(b, lines, skip, w, x, k + 1)
    }
}

/// The lines of the indented text.
pub open spec fn indented_lines(lines: Seq<usize>, w: nat) -> Seq<usize> {
    Seq::new(lines.len(), |k: int| (lines[k] + w * k) as usize)
}

/// What Shift+Tab strips from the indented lines.
spec fn taken_back(lines: Seq<usize>, skip: int, w: nat) -> Seq<Edit> {
    Seq::new(
        lines.len(),
        |k: int| edit(lines[k] + w * k + skip, lines[k] + w * k + skip + w, Seq::empty()),
    )
}

/// Each line of the indented text holds its prefix, then the spaces.
proof fn lemma_strip(b: Seq<u8>, lines: Seq<usize>, skip: int, w: nat, k: int)
    requires
        spread(b, lines, skip),
        lines_hold_prefix(b, lines, skip, b.len() as int),
        b.len() + skip <= usize::MAX,
        0 <= k < lines.len(),
    ensures
        ({
            let out = spliced(b, inserts(lines, skip, spaces(w)));
            let start = lines[k] + w * k;
            &&& 0 <= start + skip + w <= out.len()
            &&& strip(out, start, skip, w) == (start + skip, start + skip + w)
        }),
{
    let out = spliced(b, inserts(lines, skip, spaces(w)));
    let start = lines[k] + w * k;
    let q = start + skip;
    lemma_indented(b, lines, skip, w, k);
    lemma_indented(b, lines, skip, w, k + 1);
    assert(w * (k + 1) == w + w * k) by (nonlinear_arith);
    assert(0 <= w * k) by (nonlinear_arith)
        requires
            0 <= k,
    ;
    assert(lines[k] + skip <= b.len());
    if k > 0 {
        assert(lines[k - 1] + skip < lines[k]);
    }
    assert forall|i: int| start <= i < q + w implies out[i] != NL by {
        if i < q {
            let at = cut(lines, skip, k) + w * k;
            assert(out[at + (i - at)] == b[cut(lines, skip, k) + (i - at)]);
            assert(b[i - w * k] != NL);
        } else {
            assert(out[i] == SPACE);
        }
    }
    lemma_line_reaches(out, start, q + w as int);
    assert forall|i: int| q <= i < q + w implies out[i] == SPACE by {}
    lemma_spaces_taken(out, q, line_end(out, start, out.len() as int), w);
}

proof fn lemma_inner_strips(b: Seq<u8>, lines: Seq<usize>, skip: int, w: nat, m: int)
    requires
        spread(b, lines, skip),
        lines_hold_prefix(b, lines, skip, b.len() as int),
        b.len() + skip <= usize::MAX,
        spliced(b, inserts(lines, skip, spaces(w))).len() <= usize::MAX,
        0 <= m <= lines.len(),
        w > 0,
    ensures
        inner_strips(
            spliced(b, inserts(lines, skip, spaces(w))),
            indented_lines(lines, w).take(m),
            skip,
            w,
        ) == taken_back(lines, skip, w).take(m),
    decreases m,
{
    let out = spliced(b, inserts(lines, skip, spaces(w)));
    let part = indented_lines(lines, w).take(m);
    let wanted = taken_back(lines, skip, w).take(m);
    if m > 0 {
        lemma_inner_strips(b, lines, skip, w, m - 1);
        lemma_strip(b, lines, skip, w, m - 1);
        assert(0 <= w * (m - 1)) by (nonlinear_arith)
            requires
                m > 0,
        ;
        assert(part.drop_last() =~= indented_lines(lines, w).take(m - 1));
        assert(part.last() == lines[m - 1] + w * (m - 1));
        assert(wanted =~= taken_back(lines, skip, w).take(m - 1).push(wanted.last()));
    } else {
        assert(part =~= Seq::empty());
        assert(wanted =~= Seq::empty());
    }
}

/// Taking the strips out of the indented text gives the text back.
proof fn lemma_taken_out(b: Seq<u8>, lines: Seq<usize>, skip: int, w: nat, k: int)
    requires
        spread(b, lines, skip),
        b.len() + skip <= usize::MAX,
        spliced(b, inserts(lines, skip, spaces(w))).len() <= usize::MAX,
        0 <= k <= lines.len(),
    ensures
        spliced_from(
            spliced(b, inserts(lines, skip, spaces(w))),
            taken_back(lines, skip, w),
            k,
            cut(lines, skip, k) + w * k,
        ) == b.skip(cut(lines, skip, k)),
    decreases lines.len() - k,
{
    let out = spliced(b, inserts(lines, skip, spaces(w)));
    let strips = taken_back(lines, skip, w);
    let at = cut(lines, skip, k) + w * k;
    lemma_indented(b, lines, skip, w, k);
    if k > 0 {
        assert(lines[k - 1] + skip <= b.len());
    }
    if k < lines.len() {
        lemma_taken_out(b, lines, skip, w, k + 1);
        lemma_indented(b, lines, skip, w, k + 1);
        assert(w * (k + 1) == w + w * k) by (nonlinear_arith);
        assert(0 <= w * k) by (nonlinear_arith)
            requires
                0 <= k,
        ;
        assert(lines[k] + skip <= b.len());
        if k > 0 {
            assert(lines[k - 1] + skip < lines[k]);
        }
        let stop = lines[k] + w * k + skip;
        assert(strips[k].range.start == stop && strips[k].range.end == stop + w);
        assert(bytes_of(Seq::<char>::empty()) =~= Seq::<u8>::empty());
        assert(out.subrange(at, stop) =~= b.subrange(cut(lines, skip, k), lines[k] + skip)) by {
            assert forall|d: int| 0 <= d < stop - at implies out.subrange(at, stop)[d] == b.subrange(
                cut(lines, skip, k),
                lines[k] + skip,
            )[d] by {
                assert(out[at + d] == b[cut(lines, skip, k) + d]);
            }
        }
        assert(b.subrange(cut(lines, skip, k), lines[k] + skip) + b.skip(lines[k] + skip)
            =~= b.skip(cut(lines, skip, k)));
        assert(out.subrange(at, stop) + Seq::<u8>::empty() =~= out.subrange(at, stop));
    } else {
        assert(out.skip(at) =~= b.skip(cut(lines, skip, k)));
    }
}

proof fn lemma_spread(b: Seq<u8>, item: Range<usize>, skip: int)
    requires
        item.start <= item.end <= b.len(),
        b.len() + skip <= usize::MAX,
        0 <= skip,
        line_start(b, item.start as int) + skip <= item.start,
        lines_hold_prefix(b, item_lines(b, item), skip, item.end as int),
    ensures
        spread(b, item_lines(b, item), skip),
{
    let lines = item_lines(b, item);
    let s = item.start as int;
    let e = item.end as int;
    let rest = starts_between(b, s, e, e);
    let n = lines.len() as int;
    lemma_line_start_bounds(b, s);
    lemma_starts_ascend(b, s, e, e);
    assert forall|k: int| 1 <= k < n implies #[trigger] lines[k] == rest[k - 1] by {}
    assert forall|k: int| 0 <= k < n implies (#[trigger] lines[k]) + skip <= b.len() by {}
    assert forall|j: int, k: int| 0 <= j < k < n implies (#[trigger] lines[j]) + skip
        < #[trigger] lines[k] by {
        assert(lines[k] == rest[k - 1]);
        if j > 0 {
            assert(lines[j] == rest[j - 1]);
            assert(rest[j - 1] < rest[k - 1]);
        }
        assert(lines[j] < lines[k]);
        let i = lines[k] - 1;
        assert(b[i] == NL);
        if lines[k] <= lines[j] + skip {
            assert(lines[j] <= i < lines[j] + skip);
        }
    }
}

/// An item whose lines hold the prefix, and its range once they are indented.
spec fn grows(b: Seq<u8>, item: Range<usize>, skip: int, w: nat, grown: Range<usize>) -> bool {
    let lines = item_lines(b, item);
    &&& item.start <= item.end <= b.len()
    &&& b.len() + skip <= usize::MAX
    &&& 0 <= skip
    &&& line_start(b, item.start as int) + skip <= item.start
    &&& lines_hold_prefix(b, lines, skip, item.end as int)
    &&& spliced(b, inserts(lines, skip, spaces(w))).len() <= usize::MAX
    &&& grown.start == item.start + w
    &&& grown.end == item.end + w * lines.len()
}

/// The marker line begins where it began.
proof fn lemma_first_line(b: Seq<u8>, item: Range<usize>, skip: int, w: nat, grown: Range<usize>)
    requires
        grows(b, item, skip, w, grown),
    ensures
        line_start(
            spliced(b, inserts(item_lines(b, item), skip, spaces(w))),
            grown.start as int,
        ) == item_lines(b, item)[0],
{
    let lines = item_lines(b, item);
    let s = item.start as int;
    let e = item.end as int;
    let rest = starts_between(b, s, e, e);
    let out = spliced(b, inserts(lines, skip, spaces(w)));
    let first = lines[0] as int;
    lemma_line_start_bounds(b, s);
    lemma_starts_ascend(b, s, e, e);
    lemma_spread(b, item, skip);
    lemma_indented(b, lines, skip, w, 0);
    lemma_indented(b, lines, skip, w, 1);
    assert(w * 1 == w && w * 0 == 0) by (nonlinear_arith);
    assert forall|i: int| first <= i < grown.start implies out[i] != NL by {
        if i < first + skip {
            assert(out[0 + i] == b[0 + i]);
            assert(b[i] != NL);
        } else if i < first + skip + w {
            assert(out[i] == SPACE);
        } else {
            let at = first + skip + w;
            let d = i - at;
            assert(first + skip + d < s);
            if lines.len() > 1 {
                assert(lines[1] == rest[0]);
            }
            assert(out[at + d] == b[first + skip + d]);
            assert(b[i - w] != NL);
        }
    }
    if first > 0 {
        assert(out[0 + (first - 1)] == b[0 + (first - 1)]);
    }
    lemma_line_start_is(out, first, grown.start as int);
}

/// Line `k` begins after a newline of the indented text.
proof fn lemma_line_begins(
    b: Seq<u8>,
    item: Range<usize>,
    skip: int,
    w: nat,
    grown: Range<usize>,
    k: int,
)
    requires
        grows(b, item, skip, w, grown),
        1 <= k < item_lines(b, item).len(),
    ensures
        ({
            let out = spliced(b, inserts(item_lines(b, item), skip, spaces(w)));
            let start = item_lines(b, item)[k] + w * k;
            grown.start < start < grown.end && start <= out.len() && out[start - 1] == NL
        }),
{
    let lines = item_lines(b, item);
    let s = item.start as int;
    let e = item.end as int;
    let rest = starts_between(b, s, e, e);
    let out = spliced(b, inserts(lines, skip, spaces(w)));
    let n = lines.len() as int;
    lemma_starts_ascend(b, s, e, e);
    lemma_spread(b, item, skip);
    lemma_indented(b, lines, skip, w, k);
    assert(lines[k] == rest[k - 1]);
    assert(lines[k - 1] + skip < lines[k]);
    assert(w <= w * k <= w * n) by (nonlinear_arith)
        requires
            1 <= k <= n,
    ;
    let at = cut(lines, skip, k) + w * k;
    let d = lines[k] - 1 - cut(lines, skip, k);
    assert(out[at + d] == b[cut(lines, skip, k) + d]);
}

/// A newline of the indented item opens one of its lines.
proof fn lemma_newline_opens(
    b: Seq<u8>,
    item: Range<usize>,
    skip: int,
    w: nat,
    grown: Range<usize>,
    x: int,
) -> (k: int)
    requires
        grows(b, item, skip, w, grown),
        grown.start <= x < grown.end - 1,
        spliced(b, inserts(item_lines(b, item), skip, spaces(w)))[x] == NL,
    ensures
        1 <= k < item_lines(b, item).len(),
        x + 1 == item_lines(b, item)[k] + w * k,
{
    let lines = item_lines(b, item);
    let s = item.start as int;
    let e = item.end as int;
    let rest = starts_between(b, s, e, e);
    let out = spliced(b, inserts(lines, skip, spaces(w)));
    let n = lines.len() as int;
    lemma_line_start_bounds(b, s);
    lemma_starts_ascend(b, s, e, e);
    lemma_spread(b, item, skip);
    assert(w * 1 == w && w * 0 == 0) by (nonlinear_arith);
    let (k, inside) = lemma_located(b, lines, skip, w, x, 0);
    lemma_indented(b, lines, skip, w, k);
    if !inside {
        lemma_indented(b, lines, skip, w, k + 1);
        assert(w * (k + 1) == w + w * k) by (nonlinear_arith);
        assert(out[x] == SPACE);
    }
    let at = cut(lines, skip, k) + w * k;
    let d = x - at;
    let y = cut(lines, skip, k) + d;
    assert(out[at + d] == b[cut(lines, skip, k) + d]);
    assert(b[y] == NL);
    assert(x == y + w * k);
    assert(k >= 1) by {
        if k == 0 {
            assert(x < lines[0] + skip);
        }
    }
    assert(y >= s) by {
        if k == 1 {
            assert(x >= s + w);
        } else {
            assert(lines[k - 1] == rest[k - 2]);
        }
    }
    if k < n {
        assert(lines[k] == rest[k - 1]);
        assert(lines[k] + skip <= e);
        if lines[k] <= y {
            assert(lines[k] <= y < lines[k] + skip);
            assert(b[y] != NL);
        }
        assert(y + 1 <= lines[k] < e);
    } else {
        assert(k == n);
        assert(y + 1 < e);
    }
    lemma_starts_complete(b, s, e, e, y + 1);
    let i = choose|i: int| 0 <= i < rest.len() && rest[i] == (y + 1) as usize;
    assert(lines[i + 1] == rest[i]);
    assert(cut(lines, skip, k) == lines[k - 1] + skip);
    if i + 1 < k {
        if i + 1 < k - 1 {
            assert(lines[i + 1] + skip < lines[k - 1]);
        }
        assert(false);
    }
    if i + 1 > k {
        assert(lines[k] + skip < lines[i + 1]);
        assert(false);
    }
    k
}

/// The lines of the item in the indented text.
proof fn lemma_item_lines(b: Seq<u8>, item: Range<usize>, skip: int, w: nat, grown: Range<usize>)
    requires
        grows(b, item, skip, w, grown),
    ensures
        item_lines(spliced(b, inserts(item_lines(b, item), skip, spaces(w))), grown)
            == indented_lines(item_lines(b, item), w),
{
    let lines = item_lines(b, item);
    let n = lines.len() as int;
    let out = spliced(b, inserts(lines, skip, spaces(w)));
    let wanted = indented_lines(lines, w);
    let found = wanted.skip(1);
    lemma_spread(b, item, skip);
    lemma_first_line(b, item, skip, w, grown);
    assert forall|i: int| 0 <= i < found.len() implies grown.start < #[trigger] found[i] <= grown.end
        && found[i] < grown.end && out[found[i] - 1] == NL && found[i] == lines[i + 1] + w * (i
        + 1) by {
        lemma_line_begins(b, item, skip, w, grown, i + 1);
    }
    assert forall|i: int, j: int| 0 <= i < j < found.len() implies #[trigger] found[i]
        < #[trigger] found[j] by {
        assert(lines[i + 1] + skip < lines[j + 1]);
        assert(w * (i + 1) <= w * (j + 1)) by (nonlinear_arith)
            requires
                0 <= i < j,
        ;
    }
    assert forall|q: int|
        grown.start < q <= grown.end && q < grown.end && #[trigger] out[q - 1]
            == NL implies found.contains(q as usize) by {
        let k = lemma_newline_opens(b, item, skip, w, grown, q - 1);
        assert(found[k - 1] == q as usize);
    }
    lemma_starts_unique(out, grown.start as int, grown.end as int, grown.end as int, found);
    assert(w * 0 == 0) by (nonlinear_arith);
    assert(wanted =~= seq![lines[0]] + found);
}

proof fn lemma_line_start_is(b: Seq<u8>, start: int, p: int)
    requires
        0 <= start <= p,
        start > 0 ==> b[start - 1] == NL,
        forall|i: int| start <= i < p ==> b[i] != NL,
    ensures
        line_start(b, p) == start,
    decreases p - start,
{
    if start < p {
        assert(b[p - 1] != NL);
        lemma_line_start_is(b, start, p - 1);
    }
}

// ---------------------------------------------------------------------------
// The law
// ---------------------------------------------------------------------------

/// The innermost list item around the cursor.
pub open spec fn item_at(text: Seq<char>, cursor: int) -> ListItemContext {
    let chain = chain_of(text, cursor);
    chain[last_item(chain)->0]->ListItem_0
}

/// Is the item at `cursor`, all its lines indented by `width`, the one at `to`
/// in `next`, directly inside of an item whose marker is `width` bytes wide, and
/// are the containers around that item as wide as those around it were?
pub open spec fn nests_in_sibling(
    text: Seq<char>,
    cursor: int,
    next: Seq<char>,
    to: int,
    width: nat,
) -> bool {
    let chain = chain_of(text, cursor);
    let after = chain_of(next, to);
    let item = item_at(text, cursor);
    let nested = item_at(next, to);
    &&& item_in_item(after)
    &&& after[last_item(after)->0 - 1]->ListItem_0.width() == width
    &&& prefix_width(after.take(last_item(after)->0 - 1)) == prefix_width(
        chain.take(last_item(chain)->0),
    )
    &&& nested.item_range.start == item.item_range.start + width
    &&& nested.item_range.end == item.item_range.end + width * item_lines(
        bytes_of(text),
        item.item_range,
    ).len()
}

/// Shift+Tab undoes Tab. Where the edits of Tab nest a bulleted item under the
/// item before it, the edits of Shift+Tab give the document back. Every line of
/// the item holds the prefix of the containers around it.
pub proof fn shift_tab_undoes_tab(text: Seq<char>, cursor: int, next: Seq<char>, to: int)
    requires
        indent_edits(text, cursor) is Some,
        item_at(text, cursor).list_kind == ListKind::Unordered,
        bytes_of(next) == spliced(bytes_of(text), indent_edits(text, cursor)->0),
        nests_in_sibling(
            text,
            cursor,
            next,
            to,
            sibling_width(
                syntax_tree(text),
                item_at(text, cursor).item_range.start as int,
            )->0,
        ),
        ({
            let b = bytes_of(text);
            let chain = chain_of(text, cursor);
            let item = item_at(text, cursor).item_range;
            let skip = prefix_width(chain.take(last_item(chain)->0)) as int;
            &&& b.len() + skip <= usize::MAX
            &&& bytes_of(next).len() + skip <= usize::MAX
            &&& item.start <= item.end <= b.len()
            &&& line_start(b, item.start as int) + skip <= item.start
            &&& lines_hold_prefix(b, item_lines(b, item), skip, item.end as int)
        }),
    ensures
        dedent_edits(next, to) matches Some(edits) && spliced(bytes_of(next), edits) == bytes_of(
            text,
        ),
{
    let b = bytes_of(text);
    let c = bytes_of(next);
    let chain = chain_of(text, cursor);
    let after = chain_of(next, to);
    let item = item_at(text, cursor);
    let nested = item_at(next, to);
    let w = sibling_width(syntax_tree(text), item.item_range.start as int)->0;
    let lines = item_lines(b, item.item_range);
    let skip = prefix_width(chain.take(last_item(chain)->0)) as int;
    let pads = inserts(lines, skip, spaces(w));
    let strips = taken_back(lines, skip, w);
    lemma_last_item_bounds(chain);
    lemma_last_item_bounds(after);
    lemma_line_start_bounds(b, item.item_range.start as int);
    lemma_starts_ascend(
        b,
        item.item_range.start as int,
        item.item_range.end as int,
        item.item_range.end as int,
    );
    lemma_spread(b, item.item_range, skip);
    assert forall|k: int| 0 <= k < pads.len() implies well_ranged(#[trigger] pads[k]) && !is_strip(
        pads[k],
    ) && pads[k].range.start == lines[k] + skip && pads[k].range.end == lines[k] + skip by {
        assert(lines[k] + skip <= b.len());
    }
    assert forall|i: int, j: int| 0 <= i < j < pads.len() implies ordered(
        #[trigger] pads[i],
        #[trigger] pads[j],
    ) && pads[i].range.end <= pads[j].range.start by {
        assert(lines[i] + skip < lines[j]);
    }
    assert(disjoint(pads));
    assert(is_in_order(pads));
    disjoint_edits_stay(pads);
    assert(indent_edits(text, cursor) == Some(pads));
    lemma_item_lines(b, item.item_range, skip, w, nested.item_range);
    lemma_inner_strips(b, lines, skip, w, lines.len() as int);
    assert(indented_lines(lines, w).take(lines.len() as int) =~= indented_lines(lines, w));
    assert(strips.take(lines.len() as int) =~= strips);
    lemma_taken_out(b, lines, skip, w, 0);
    assert(w * 0 == 0) by (nonlinear_arith);
    assert(b.skip(0) =~= b);
    assert forall|k: int| 0 <= k < strips.len() implies well_ranged(#[trigger] strips[k])
        && strips[k].range.start == lines[k] + w * k + skip && strips[k].range.end == lines[k] + w
        * k + skip + w by {
        lemma_strip(b, lines, skip, w, k);
        assert(0 <= w * k) by (nonlinear_arith)
            requires
                0 <= k,
        ;
    }
    assert forall|i: int, j: int| 0 <= i < j < strips.len() implies ordered(
        #[trigger] strips[i],
        #[trigger] strips[j],
    ) && strips[i].range.end <= strips[j].range.start && !adjacent_strips(strips[i], strips[j]) by {
        assert(lines[i] + skip < lines[j]);
        assert(w * i + w <= w * j) by (nonlinear_arith)
            requires
                0 <= i < j,
        ;
    }
    assert(disjoint(strips));
    assert(is_in_order(strips));
    disjoint_edits_stay(strips);
    assert(strips.len() > 0);
    assert(dedent_edits(next, to) == Some(strips));
}

/// Does one of the edits put something in at the byte?
pub open spec fn puts_in_at(edits: Seq<Edit>, p: int) -> bool {
    exists|k: int|
        0 <= k < edits.len() && (#[trigger] edits[k]).range.start == p && edits[k].range.end == p
}

/// Does the edit put in `w` spaces, `skip` bytes into a line of the item?
pub open spec fn is_indent(e: Edit, b: Seq<u8>, item: Range<usize>, skip: int, w: nat) -> bool {
    let line = e.range.start - skip;
    &&& e.range.start == e.range.end
    &&& e.text.len() == w
    &&& forall|i: int| 0 <= i < w ==> e.text[i] == ' '
    &&& line == line_start(b, item.start as int) || item.start < line < item.end && b[line - 1]
        == NL
}

/// Tab moves every line of a bulleted item, the first and all further ones, by
/// the width of the marker of the item before it, and touches nothing else. The
/// spaces go behind the prefix of the containers around the item.
pub proof fn tab_indents_every_line(text: Seq<char>, cursor: int, q: int)
    requires
        last_item(chain_of(text, cursor)) is Some,
        item_at(text, cursor).list_kind == ListKind::Unordered,
        ({
            let b = bytes_of(text);
            let chain = chain_of(text, cursor);
            let item = item_at(text, cursor).item_range;
            let skip = prefix_width(chain.take(last_item(chain)->0)) as int;
            &&& sibling_width(syntax_tree(text), item.start as int) matches Some(w) && w > 0
            &&& b.len() + skip <= usize::MAX
            &&& item.start <= item.end <= b.len()
            &&& line_start(b, item.start as int) + skip <= item.start
            &&& lines_hold_prefix(b, item_lines(b, item), skip, item.end as int)
            &&& q == line_start(b, item.start as int) || item.start < q < item.end && b[q - 1] == NL
        }),
    ensures
        ({
            let b = bytes_of(text);
            let chain = chain_of(text, cursor);
            let item = item_at(text, cursor).item_range;
            let skip = prefix_width(chain.take(last_item(chain)->0)) as int;
            let w = sibling_width(syntax_tree(text), item.start as int)->0;
            &&& indent_edits(text, cursor) is Some
            &&& puts_in_at(indent_edits(text, cursor)->0, q + skip)
            &&& forall|k: int|
                0 <= k < indent_edits(text, cursor)->0.len() ==> is_indent(
                    #[trigger] indent_edits(text, cursor)->0[k],
                    b,
                    item,
                    skip,
                    w,
                )
        }),
{
    let b = bytes_of(text);
    let chain = chain_of(text, cursor);
    let item = item_at(text, cursor);
    let s = item.item_range.start as int;
    let e = item.item_range.end as int;
    let w = sibling_width(syntax_tree(text), s)->0;
    let lines = item_lines(b, item.item_range);
    let rest = starts_between(b, s, e, e);
    let skip = prefix_width(chain.take(last_item(chain)->0)) as int;
    let pads = inserts(lines, skip, spaces(w));
    lemma_last_item_bounds(chain);
    lemma_line_start_bounds(b, s);
    lemma_starts_ascend(b, s, e, e);
    lemma_spread(b, item.item_range, skip);
    assert forall|k: int| 0 <= k < pads.len() implies well_ranged(#[trigger] pads[k]) && !is_strip(
        pads[k],
    ) && pads[k].range.start == lines[k] + skip && pads[k].range.end == lines[k] + skip by {
        assert(lines[k] + skip <= b.len());
    }
    assert forall|i: int, j: int| 0 <= i < j < pads.len() implies ordered(
        #[trigger] pads[i],
        #[trigger] pads[j],
    ) && pads[i].range.end <= pads[j].range.start by {
        assert(lines[i] + skip < lines[j]);
    }
    assert(disjoint(pads));
    assert(is_in_order(pads));
    disjoint_edits_stay(pads);
    assert(indent_edits(text, cursor) == Some(pads));
    if q == line_start(b, s) {
        assert(lines[0] == q);
        assert(pads[0].range.start == q + skip);
    } else {
        lemma_starts_complete(b, s, e, e, q);
        let k = choose|k: int| 0 <= k < rest.len() && rest[k] == q as usize;
        assert(lines[k + 1] == q);
        assert(pads[k + 1].range.start == q + skip);
    }
    assert(puts_in_at(pads, q + skip));
    assert forall|k: int| 0 <= k < pads.len() implies is_indent(
        #[trigger] pads[k],
        b,
        item.item_range,
        skip,
        w,
    ) by {
        if k > 0 {
            assert(lines[k] == rest[k - 1]);
        }
    }
}

} // verus!
