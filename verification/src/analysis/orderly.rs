//! The edits that bring the lists of a document into canonical form do not
//! overlap.

use vstd::prelude::*;

use super::chain::item_count;
use super::depth::starts_between;
use super::edits::{by_start, disjoint, insert_by_start, well_ranged, Edit};
use super::normalize::{
    first_number, in_nested_block, inner_edits, item_edits, item_text_end, line_edits, lines_edits,
    list_edits, normalization, owns_line, renumbering, spacing, target_marker, target_width,
    tightening, tree_edits,
};
use crate::strings::capped;
use crate::syntax::{ListKind, Node, NodeKind};
use crate::text::{
    lemma_line_end_bounds, lemma_run_end_bounds, lemma_run_start_bounds, line_end, run_end,
    run_start, NL, SPACE,
};

verus! {

// ---------------------------------------------------------------------------
// Trees
// ---------------------------------------------------------------------------

/// Is there a list among the nodes or below them?
pub open spec fn has_list(nodes: Seq<Node>) -> bool
    decreases nodes,
{
    if nodes.len() == 0 {
        false
    } else {
        let n = nodes.last();
        n.kind is List || has_list(n.children) || has_list(nodes.drop_last())
    }
}

/// Of the blocks of an item only lists and blockquotes hold lists, and these
/// begin with neither a space nor a newline.
pub open spec fn holders_stand_out(blocks: Seq<Node>, b: Seq<u8>) -> bool {
    forall|i: int|
        0 <= i < blocks.len() && ((#[trigger] blocks[i]).kind is List || has_list(
            blocks[i].children,
        )) ==> {
            &&& blocks[i].kind is List || blocks[i].kind is BlockQuote
            &&& blocks[i].range.start < blocks[i].range.end
            &&& b[blocks[i].range.start as int] != NL
            &&& b[blocks[i].range.start as int] != SPACE
        }
}

/// Do the nodes lie in `[low, high)`, one after the other, and what is below
/// them inside of them? An item begins with its marker, all on one line.
pub open spec fn orderly(nodes: Seq<Node>, b: Seq<u8>, low: int, high: int) -> bool
    decreases nodes, 0int,
{
    if nodes.len() == 0 {
        low <= high
    } else {
        let n = nodes.last();
        &&& n.range.start <= n.range.end <= high
        &&& orderly(nodes.drop_last(), b, low, n.range.start as int)
        &&& match n.kind {
            NodeKind::List { .. } => orderly_items(
                n.children,
                b,
                n.range.start as int,
                n.range.end as int,
            ),
            _ => orderly(n.children, b, n.range.start as int, n.range.end as int),
        }
    }
}

/// [`orderly`] for what is directly below a list.
pub open spec fn orderly_items(nodes: Seq<Node>, b: Seq<u8>, low: int, high: int) -> bool
    decreases nodes, 1int,
{
    if nodes.len() == 0 {
        low <= high
    } else {
        let n = nodes.last();
        &&& n.range.start <= n.range.end <= high
        &&& orderly_items(nodes.drop_last(), b, low, n.range.start as int)
        &&& match n.kind {
            NodeKind::ListItem { marker_range } => {
                &&& n.range.start == marker_range.start < marker_range.end <= n.range.end
                &&& forall|i: int| marker_range.start <= i < marker_range.end ==> b[i] != NL
                &&& orderly(n.children, b, marker_range.end as int, n.range.end as int)
                &&& holders_stand_out(n.children, b)
            },
            _ => true,
        }
    }
}

/// Where the text of `[low, high)` ends before its trailing newlines.
spec fn text_end(b: Seq<u8>, low: int, high: int) -> int {
    run_start(b, high, low, NL)
}

proof fn lemma_text_end(b: Seq<u8>, p: int, low: int, high: int)
    requires
        low < p <= high,
        b[p - 1] != NL,
    ensures
        p <= text_end(b, low, high) <= high,
{
    lemma_run_start_bounds(b, high, low, NL);
}

proof fn lemma_text_end_grows(b: Seq<u8>, s: int, e: int, low: int, high: int)
    requires
        low <= s <= e <= high,
        text_end(b, s, e) > s,
    ensures
        text_end(b, s, e) <= text_end(b, low, high),
{
    lemma_run_start_bounds(b, e, s, NL);
    lemma_text_end(b, text_end(b, s, e), low, high);
}

// ---------------------------------------------------------------------------
// Edits that can be sorted
// ---------------------------------------------------------------------------

/// Does `e`, which came before `f`, go before it, or strictly after it?
spec fn apart(e: Edit, f: Edit) -> bool {
    ||| e.range.end <= f.range.start
    ||| f.range.end <= e.range.start && f.range.start < e.range.start
}

spec fn all_apart(edits: Seq<Edit>) -> bool {
    &&& forall|i: int| 0 <= i < edits.len() ==> well_ranged(#[trigger] edits[i])
    &&& forall|i: int, j: int|
        0 <= i < j < edits.len() ==> apart(#[trigger] edits[i], #[trigger] edits[j])
}

spec fn apart_from(a: Seq<Edit>, c: Seq<Edit>) -> bool {
    forall|i: int, j: int|
        0 <= i < a.len() && 0 <= j < c.len() ==> apart(#[trigger] a[i], #[trigger] c[j])
}

/// Do the edits begin at `low` or later, begin before `high` and end there at
/// the latest?
spec fn within(edits: Seq<Edit>, low: int, high: int) -> bool {
    forall|i: int|
        0 <= i < edits.len() ==> low <= (#[trigger] edits[i]).range.start < high
            && edits[i].range.end <= high
}

proof fn lemma_apart_concat(a: Seq<Edit>, c: Seq<Edit>)
    requires
        all_apart(a),
        all_apart(c),
        apart_from(a, c),
    ensures
        all_apart(a + c),
{
    let all = a + c;
    assert forall|i: int| 0 <= i < all.len() implies well_ranged(#[trigger] all[i]) by {
        if i < a.len() {
            assert(all[i] == a[i]);
        } else {
            assert(all[i] == c[i - a.len()]);
        }
    }
    assert forall|i: int, j: int| 0 <= i < j < all.len() implies apart(
        #[trigger] all[i],
        #[trigger] all[j],
    ) by {
        if j < a.len() {
            assert(all[i] == a[i] && all[j] == a[j]);
        } else if i < a.len() {
            assert(all[i] == a[i] && all[j] == c[j - a.len()]);
        } else {
            assert(all[i] == c[i - a.len()] && all[j] == c[j - a.len()]);
        }
    }
}

proof fn lemma_from_concat(a: Seq<Edit>, c: Seq<Edit>, d: Seq<Edit>)
    ensures
        apart_from(a, d) && apart_from(c, d) ==> apart_from(a + c, d),
        apart_from(d, a) && apart_from(d, c) ==> apart_from(d, a + c),
{
    let all = a + c;
    if apart_from(a, d) && apart_from(c, d) {
        assert forall|i: int, j: int| 0 <= i < all.len() && 0 <= j < d.len() implies apart(
            #[trigger] all[i],
            #[trigger] d[j],
        ) by {
            if i < a.len() {
                assert(all[i] == a[i]);
            } else {
                assert(all[i] == c[i - a.len()]);
            }
        }
    }
    if apart_from(d, a) && apart_from(d, c) {
        assert forall|i: int, j: int| 0 <= i < d.len() && 0 <= j < all.len() implies apart(
            #[trigger] d[i],
            #[trigger] all[j],
        ) by {
            if j < a.len() {
                assert(all[j] == a[j]);
            } else {
                assert(all[j] == c[j - a.len()]);
            }
        }
    }
}

proof fn lemma_within_concat(a: Seq<Edit>, c: Seq<Edit>, low: int, high: int)
    requires
        within(a, low, high),
        within(c, low, high),
    ensures
        within(a + c, low, high),
{
    let all = a + c;
    assert forall|i: int| 0 <= i < all.len() implies low <= (#[trigger] all[i]).range.start < high
        && all[i].range.end <= high by {
        if i < a.len() {
            assert(all[i] == a[i]);
        } else {
            assert(all[i] == c[i - a.len()]);
        }
    }
}

/// Edits that end where the others begin are apart from them, whichever come
/// first.
proof fn lemma_before_and_after(a: Seq<Edit>, c: Seq<Edit>, low: int, mid: int, high: int)
    requires
        within(a, low, mid),
        within(c, mid, high),
    ensures
        apart_from(a, c),
        apart_from(c, a),
{
    assert forall|i: int, j: int| 0 <= i < a.len() && 0 <= j < c.len() implies apart(
        #[trigger] a[i],
        #[trigger] c[j],
    ) && apart(c[j], a[i]) by {
        assert(a[i].range.end <= mid);
        assert(mid <= c[j].range.start);
    }
}

proof fn lemma_sorted_in(sorted: Seq<Edit>, e: Edit)
    requires
        disjoint(sorted),
        well_ranged(e),
        forall|i: int| 0 <= i < sorted.len() ==> apart(#[trigger] sorted[i], e),
    ensures
        disjoint(insert_by_start(sorted, e)),
        forall|i: int|
            0 <= i < insert_by_start(sorted, e).len() ==> (#[trigger] insert_by_start(sorted, e)[i])
                == e || sorted.contains(insert_by_start(sorted, e)[i]),
    decreases sorted.len(),
{
    let out = insert_by_start(sorted, e);
    if sorted.len() == 0 || sorted.last().range.start <= e.range.start {
        assert forall|i: int| 0 <= i < sorted.len() implies (#[trigger] sorted[i]).range.end
            <= e.range.start by {
            assert(apart(sorted[i], e));
            assert(well_ranged(sorted[i]));
            if i < sorted.len() - 1 {
                assert(sorted[i].range.end <= sorted[sorted.len() - 1].range.start);
            }
        }
        assert forall|i: int| 0 <= i < out.len() implies well_ranged(#[trigger] out[i]) by {
            if i < sorted.len() {
                assert(out[i] == sorted[i]);
            }
        }
        assert forall|i: int, j: int| 0 <= i < j < out.len() implies (
        #[trigger] out[i]).range.end <= (#[trigger] out[j]).range.start by {
            assert(out[i] == sorted[i]);
            if j < sorted.len() {
                assert(out[j] == sorted[j]);
            }
        }
        assert forall|i: int| 0 <= i < out.len() implies (#[trigger] out[i]) == e
            || sorted.contains(out[i]) by {
            if i < sorted.len() {
                assert(out[i] == sorted[i]);
            }
        }
    } else {
        let head = sorted.drop_last();
        let last = sorted.last();
        assert(disjoint(head)) by {
            assert forall|i: int| 0 <= i < head.len() implies well_ranged(#[trigger] head[i]) by {
                assert(head[i] == sorted[i]);
            }
            assert forall|i: int, j: int| 0 <= i < j < head.len() implies (
            #[trigger] head[i]).range.end <= (#[trigger] head[j]).range.start by {
                assert(head[i] == sorted[i] && head[j] == sorted[j]);
            }
        }
        assert forall|i: int| 0 <= i < head.len() implies apart(#[trigger] head[i], e) by {
            assert(head[i] == sorted[i]);
        }
        lemma_sorted_in(head, e);
        let inner = insert_by_start(head, e);
        assert(out == inner.push(last));
        assert(sorted[sorted.len() - 1] == last);
        assert(well_ranged(last));
        assert(apart(last, e));
        assert forall|i: int| 0 <= i < inner.len() implies (#[trigger] inner[i]).range.end
            <= last.range.start by {
            if inner[i] != e {
                let k = choose|k: int| 0 <= k < head.len() && head[k] == inner[i];
                assert(head[k] == sorted[k]);
                assert(sorted[k].range.end <= sorted[sorted.len() - 1].range.start);
            }
        }
        assert forall|i: int| 0 <= i < out.len() implies well_ranged(#[trigger] out[i]) by {
            if i < inner.len() {
                assert(out[i] == inner[i]);
            }
        }
        assert forall|i: int, j: int| 0 <= i < j < out.len() implies (
        #[trigger] out[i]).range.end <= (#[trigger] out[j]).range.start by {
            assert(out[i] == inner[i]);
            if j < inner.len() {
                assert(out[j] == inner[j]);
            }
        }
        assert forall|i: int| 0 <= i < out.len() implies (#[trigger] out[i]) == e
            || sorted.contains(out[i]) by {
            if i < inner.len() {
                assert(out[i] == inner[i]);
                if inner[i] != e {
                    let k = choose|k: int| 0 <= k < head.len() && head[k] == inner[i];
                    assert(sorted[k] == inner[i]);
                }
            }
        }
    }
}

proof fn lemma_sorting(edits: Seq<Edit>)
    requires
        all_apart(edits),
    ensures
        disjoint(by_start(edits)),
        forall|i: int|
            0 <= i < by_start(edits).len() ==> edits.contains(#[trigger] by_start(edits)[i]),
    decreases edits.len(),
{
    if edits.len() > 0 {
        let head = edits.drop_last();
        let e = edits.last();
        assert(all_apart(head)) by {
            assert forall|i: int| 0 <= i < head.len() implies well_ranged(#[trigger] head[i]) by {
                assert(head[i] == edits[i]);
            }
            assert forall|i: int, j: int| 0 <= i < j < head.len() implies apart(
                #[trigger] head[i],
                #[trigger] head[j],
            ) by {
                assert(head[i] == edits[i] && head[j] == edits[j]);
            }
        }
        lemma_sorting(head);
        let sorted = by_start(head);
        assert(edits[edits.len() - 1] == e);
        assert(well_ranged(e));
        assert forall|i: int| 0 <= i < sorted.len() implies apart(#[trigger] sorted[i], e) by {
            let k = choose|k: int| 0 <= k < head.len() && head[k] == sorted[i];
            assert(head[k] == edits[k]);
            assert(apart(edits[k], edits[edits.len() - 1]));
        }
        lemma_sorted_in(sorted, e);
        let out = by_start(edits);
        assert forall|i: int| 0 <= i < out.len() implies edits.contains(#[trigger] out[i]) by {
            if out[i] == e {
                assert(edits.contains(e));
            } else {
                let k = choose|k: int| 0 <= k < sorted.len() && sorted[k] == out[i];
                let m = choose|m: int| 0 <= m < head.len() && head[m] == sorted[k];
                assert(edits[m] == out[i]);
            }
        }
    }
}

// ---------------------------------------------------------------------------
// The lines of an item
// ---------------------------------------------------------------------------

/// Where the newlines before the line at `start` begin.
spec fn breaks_before(b: Seq<u8>, item: Node, start: int) -> int {
    run_start(b, start, item.range.start as int, NL)
}

/// Is this a further line of an item whose text ends at `end`?
spec fn further_line(b: Seq<u8>, item: Node, end: int, start: int) -> bool {
    item.range.start < start < end <= item.range.end <= b.len() && b[start - 1] == NL
}

proof fn lemma_starts(b: Seq<u8>, s: int, p: int, end: int)
    requires
        0 <= s,
        p <= end <= usize::MAX,
    ensures
        forall|i: int|
            0 <= i < starts_between(b, s, p, end).len() ==> s < (#[trigger] starts_between(
                b,
                s,
                p,
                end,
            )[i]) < end && starts_between(b, s, p, end)[i] <= p && b[starts_between(b, s, p, end)[i]
                - 1] == NL,
        forall|i: int, j: int|
            0 <= i < j < starts_between(b, s, p, end).len() ==> (#[trigger] starts_between(
                b,
                s,
                p,
                end,
            )[i]) < (#[trigger] starts_between(b, s, p, end)[j]),
    decreases p - s,
{
    if p > s {
        lemma_starts(b, s, p - 1, end);
        let before = starts_between(b, s, p - 1, end);
        let all = starts_between(b, s, p, end);
        if b[p - 1] == NL && p < end {
            assert(all == before.push(p as usize));
            assert forall|i: int| 0 <= i < all.len() implies s < (#[trigger] all[i]) < end && all[i]
                <= p && b[all[i] - 1] == NL by {
                if i < before.len() {
                    assert(all[i] == before[i]);
                }
            }
            assert forall|i: int, j: int| 0 <= i < j < all.len() implies (#[trigger] all[i]) < (
            #[trigger] all[j]) by {
                assert(all[i] == before[i]);
                if j < before.len() {
                    assert(all[j] == before[j]);
                }
            }
        }
    }
}

proof fn lemma_breaks(b: Seq<u8>, item: Node, end: int, start: int)
    requires
        further_line(b, item, end, start),
    ensures
        item.range.start <= breaks_before(b, item, start) < start,
        forall|i: int| breaks_before(b, item, start) <= i < start ==> b[i] == NL,
{
    lemma_run_start_bounds(b, start, item.range.start as int, NL);
}

/// The edits of a line lie between the newlines before it and its end, and an
/// empty line has none.
proof fn lemma_line(
    b: Seq<u8>,
    item: Node,
    end: int,
    indent: usize,
    cursors: Seq<usize>,
    start: int,
)
    requires
        further_line(b, item, end, start),
        b.len() <= usize::MAX,
    ensures
        ({
            let edits = line_edits(b, item, end, indent, cursors, start);
            &&& all_apart(edits)
            &&& forall|i: int|
                0 <= i < edits.len() ==> breaks_before(b, item, start) <= (
                #[trigger] edits[i]).range.start <= start && edits[i].range.end <= line_end(
                    b,
                    start,
                    end,
                )
            &&& edits.len() > 0 ==> b[start] != NL
        }),
        start <= line_end(b, start, end) <= end,
{
    lemma_breaks(b, item, end, start);
    lemma_line_end_bounds(b, start, end);
    let line = line_end(b, start, end);
    lemma_run_end_bounds(b, start, line, SPACE);
}

/// A line with edits ends before the newlines of a later one begin.
proof fn lemma_later_breaks(b: Seq<u8>, item: Node, end: int, start: int, later: int)
    requires
        further_line(b, item, end, start),
        further_line(b, item, end, later),
        start < later,
        b[start] != NL,
    ensures
        line_end(b, start, end) <= breaks_before(b, item, later),
{
    lemma_breaks(b, item, end, later);
    lemma_line_end_bounds(b, start, end);
    let from = breaks_before(b, item, later);
    let line = line_end(b, start, end);
    if from < line {
        assert(b[from] == NL);
        if start <= from {
            assert(b[from] != NL);
        } else {
            assert(b[start] == NL);
        }
    }
}

spec fn further_lines(b: Seq<u8>, item: Node, end: int, lines: Seq<usize>) -> bool {
    &&& forall|i: int|
        0 <= i < lines.len() ==> further_line(b, item, end, #[trigger] lines[i] as int)
    &&& forall|i: int, j: int|
        0 <= i < j < lines.len() ==> #[trigger] lines[i] < #[trigger] lines[j]
}

proof fn lemma_fewer_lines(b: Seq<u8>, item: Node, end: int, lines: Seq<usize>)
    requires
        further_lines(b, item, end, lines),
        lines.len() > 0,
    ensures
        further_lines(b, item, end, lines.drop_last()),
        further_line(b, item, end, lines.last() as int),
{
    let rest = lines.drop_last();
    assert(lines[lines.len() - 1] == lines.last());
    assert forall|i: int| 0 <= i < rest.len() implies further_line(
        b,
        item,
        end,
        #[trigger] rest[i] as int,
    ) by {
        assert(rest[i] == lines[i]);
    }
    assert forall|i: int, j: int| 0 <= i < j < rest.len() implies #[trigger] rest[i]
        < #[trigger] rest[j] by {
        assert(rest[i] == lines[i] && rest[j] == lines[j]);
    }
}

/// The edits of the lines come in order, end at `limit` at the latest and begin
/// at `floor`, which no newline of theirs comes before.
proof fn lemma_lines(
    b: Seq<u8>,
    item: Node,
    end: int,
    indent: usize,
    cursors: Seq<usize>,
    lines: Seq<usize>,
    floor: int,
    limit: int,
)
    requires
        further_lines(b, item, end, lines),
        b.len() <= usize::MAX,
        limit <= end,
        forall|i: int|
            0 <= i < lines.len() ==> floor <= breaks_before(b, item, #[trigger] lines[i] as int),
        forall|i: int|
            0 <= i < lines.len() && b[#[trigger] lines[i] as int] != NL ==> line_end(
                b,
                lines[i] as int,
                end,
            ) <= limit,
    ensures
        all_apart(lines_edits(b, item, end, indent, cursors, lines)),
        within(lines_edits(b, item, end, indent, cursors, lines), floor, end),
        forall|i: int|
            0 <= i < lines_edits(b, item, end, indent, cursors, lines).len() ==> (
            #[trigger] lines_edits(b, item, end, indent, cursors, lines)[i]).range.end <= limit,
    decreases lines.len(),
{
    if lines.len() > 0 {
        let rest = lines.drop_last();
        let start = lines.last() as int;
        let from = breaks_before(b, item, start);
        let before = lines_edits(b, item, end, indent, cursors, rest);
        let here = line_edits(b, item, end, indent, cursors, start);
        lemma_fewer_lines(b, item, end, lines);
        lemma_line(b, item, end, indent, cursors, start);
        lemma_breaks(b, item, end, start);
        assert(lines[lines.len() - 1] == start);
        assert forall|i: int| 0 <= i < rest.len() implies floor <= breaks_before(
            b,
            item,
            #[trigger] rest[i] as int,
        ) by {
            assert(rest[i] == lines[i]);
        }
        assert forall|i: int|
            0 <= i < rest.len() && b[#[trigger] rest[i] as int] != NL implies line_end(
            b,
            rest[i] as int,
            end,
        ) <= from by {
            assert(rest[i] == lines[i]);
            assert(lines[i] < lines[lines.len() - 1]);
            lemma_later_breaks(b, item, end, rest[i] as int, start);
        }
        lemma_lines(b, item, end, indent, cursors, rest, floor, from);
        assert forall|i: int|
            0 <= i < rest.len() && b[#[trigger] rest[i] as int] != NL implies line_end(
            b,
            rest[i] as int,
            end,
        ) <= limit by {
            assert(rest[i] == lines[i]);
        }
        lemma_lines(b, item, end, indent, cursors, rest, floor, limit);
        assert(apart_from(before, here)) by {
            assert forall|i: int, j: int| 0 <= i < before.len() && 0 <= j < here.len() implies apart(
                #[trigger] before[i],
                #[trigger] here[j],
            ) by {
                assert(before[i].range.end <= from);
                assert(from <= here[j].range.start);
            }
        }
        lemma_apart_concat(before, here);
        assert(within(here, floor, end)) by {
            assert forall|i: int| 0 <= i < here.len() implies floor <= (
            #[trigger] here[i]).range.start < end && here[i].range.end <= end by {}
        }
        lemma_within_concat(before, here, floor, end);
        let all = before + here;
        assert forall|i: int| 0 <= i < all.len() implies (#[trigger] all[i]).range.end <= limit by {
            if i < before.len() {
                assert(all[i] == before[i]);
            } else {
                assert(all[i] == here[i - before.len()]);
                assert(line_end(b, start, end) <= limit);
            }
        }
    }
}

// ---------------------------------------------------------------------------
// Items
// ---------------------------------------------------------------------------

/// Does the item begin with its marker, all on one line?
spec fn opens_with_marker(b: Seq<u8>, item: Node) -> bool {
    match item.kind {
        NodeKind::ListItem { marker_range } => {
            &&& item.range.start == marker_range.start < marker_range.end <= item.range.end
                <= b.len()
            &&& forall|i: int| marker_range.start <= i < marker_range.end ==> b[i] != NL
        },
        _ => false,
    }
}

proof fn lemma_item_lines(b: Seq<u8>, item: Node)
    requires
        opens_with_marker(b, item),
        b.len() <= usize::MAX,
    ensures
        ({
            let end = item_text_end(b, item.range);
            let marker = item.kind->marker_range;
            let lines = starts_between(b, item.range.start as int, end, end);
            let first = line_end(b, marker.end as int, item.range.end as int);
            &&& marker.end <= end <= item.range.end
            &&& b[end - 1] != NL
            &&& further_lines(b, item, end, lines)
            &&& forall|i: int|
                0 <= i < lines.len() ==> first <= breaks_before(b, item, #[trigger] lines[i] as int)
            &&& forall|i: int|
                0 <= i < lines.len() ==> line_end(b, #[trigger] lines[i] as int, end) <= end
        }),
{
    let marker = item.kind->marker_range;
    let end = item_text_end(b, item.range);
    let s = item.range.start as int;
    let lines = starts_between(b, s, end, end);
    let first = line_end(b, marker.end as int, item.range.end as int);
    lemma_run_start_bounds(b, item.range.end as int, s, NL);
    lemma_text_end(b, marker.end as int, s, item.range.end as int);
    lemma_starts(b, s, end, end);
    lemma_line_end_bounds(b, marker.end as int, item.range.end as int);
    assert forall|i: int| 0 <= i < lines.len() implies further_line(
        b,
        item,
        end,
        #[trigger] lines[i] as int,
    ) by {}
    assert forall|i: int| 0 <= i < lines.len() implies first <= breaks_before(
        b,
        item,
        #[trigger] lines[i] as int,
    ) by {
        lemma_breaks(b, item, end, lines[i] as int);
        let from = breaks_before(b, item, lines[i] as int);
        assert(b[from] == NL);
        if from < first {
            if from < marker.end {
                assert(b[from] != NL);
            }
        }
    }
    assert forall|i: int| 0 <= i < lines.len() implies line_end(b, #[trigger] lines[i] as int, end)
        <= end by {
        lemma_line_end_bounds(b, lines[i] as int, end);
    }
}

/// The edits of an item are apart and lie in it; those of the last one end with
/// its text.
proof fn lemma_item(
    b: Seq<u8>,
    item: Node,
    target: Option<Seq<char>>,
    indent: usize,
    is_last: bool,
    cursors: Seq<usize>,
)
    requires
        opens_with_marker(b, item),
        b.len() <= usize::MAX,
    ensures
        all_apart(item_edits(b, item, target, indent, is_last, cursors)),
        within(
            item_edits(b, item, target, indent, is_last, cursors),
            item.range.start as int,
            item.range.end as int,
        ),
        is_last ==> within(
            item_edits(b, item, target, indent, is_last, cursors),
            item.range.start as int,
            item_text_end(b, item.range),
        ),
{
    let marker = item.kind->marker_range;
    let s = item.range.start as int;
    let end = item_text_end(b, item.range);
    let width = capped(indent + target_width(marker, target));
    let lines = starts_between(b, s, end, end);
    let first = line_end(b, marker.end as int, item.range.end as int);
    lemma_item_lines(b, item);
    lemma_line_end_bounds(b, marker.end as int, item.range.end as int);
    lemma_run_end_bounds(b, marker.end as int, first, SPACE);
    lemma_lines(b, item, end, width, cursors, lines, first, end);
    let numbered = renumbering(b, marker, target);
    let spaced = spacing(b, item.range, marker, cursors);
    let tight = tightening(b, item.range, is_last);
    let inside = lines_edits(b, item, end, width, cursors, lines);
    let extra = run_end(b, marker.end as int, first, SPACE);
    if spaced.len() > 0 {
        assert(b[extra] != SPACE && b[extra] != NL);
        lemma_text_end(b, extra + 1, s, item.range.end as int);
    }
    assert(all_apart(numbered) && all_apart(spaced) && all_apart(tight));
    assert(within(numbered, s, marker.end as int));
    assert(within(spaced, marker.end as int, first));
    lemma_before_and_after(numbered, spaced, s, marker.end as int, first);
    lemma_apart_concat(numbered, spaced);
    let head = numbered + spaced;
    lemma_within_concat(numbered, spaced, s, first);
    lemma_before_and_after(head, inside, s, first, end);
    assert(within(head, s, end)) by {
        assert forall|i: int| 0 <= i < head.len() implies s <= (#[trigger] head[i]).range.start
            < end && head[i].range.end <= end by {
            if i < numbered.len() {
                assert(head[i] == numbered[i]);
            } else {
                assert(head[i] == spaced[i - numbered.len()]);
            }
        }
    }
    assert(within(tight, end + 1, item.range.end as int));
    assert(within(inside, s, end)) by {
        assert forall|i: int| 0 <= i < inside.len() implies s <= (#[trigger] inside[i]).range.start
            < end && inside[i].range.end <= end by {}
    }
    assert(apart_from(head, tight)) by {
        assert forall|i: int, j: int| 0 <= i < head.len() && 0 <= j < tight.len() implies apart(
            #[trigger] head[i],
            #[trigger] tight[j],
        ) by {
            assert(head[i].range.end <= end);
        }
    }
    lemma_apart_concat(head, tight);
    assert(apart_from(tight, inside)) by {
        assert forall|i: int, j: int| 0 <= i < tight.len() && 0 <= j < inside.len() implies apart(
            #[trigger] tight[i],
            #[trigger] inside[j],
        ) by {
            assert(inside[j].range.end <= end);
        }
    }
    lemma_from_concat(head, tight, inside);
    lemma_apart_concat(head + tight, inside);
    let e = item.range.end as int;
    assert(within(head, s, e) && within(tight, s, e) && within(inside, s, e)) by {
        assert forall|i: int| 0 <= i < head.len() implies s <= (#[trigger] head[i]).range.start < e
            && head[i].range.end <= e by {}
        assert forall|i: int| 0 <= i < inside.len() implies s <= (#[trigger] inside[i]).range.start
            < e && inside[i].range.end <= e by {}
    }
    lemma_within_concat(head, tight, s, e);
    lemma_within_concat(head + tight, inside, s, e);
    if is_last {
        assert(head + tight =~= head);
        lemma_within_concat(head + tight, inside, s, end);
    }
}

// ---------------------------------------------------------------------------
// Items and what they hold
// ---------------------------------------------------------------------------

/// Does a block of the item stand out, so that the edits of its lists can be
/// told from those of the item?
spec fn stands_out(b: Seq<u8>, item: Node, block: Node) -> bool {
    &&& block.kind is List || block.kind is BlockQuote
    &&& item.kind->marker_range.end <= block.range.start < block.range.end <= item.range.end
    &&& b[block.range.start as int] != NL
    &&& b[block.range.start as int] != SPACE
}

/// Does the edit end before the block, or begin after its text?
spec fn clear_of(b: Seq<u8>, block: Node, e: Edit) -> bool {
    ||| e.range.end <= block.range.start
    ||| text_end(b, block.range.start as int, block.range.end as int) <= e.range.start
}

spec fn all_clear_of(b: Seq<u8>, block: Node, edits: Seq<Edit>) -> bool {
    forall|i: int| 0 <= i < edits.len() ==> clear_of(b, block, #[trigger] edits[i])
}

proof fn lemma_line_is_clear(
    b: Seq<u8>,
    item: Node,
    end: int,
    indent: usize,
    cursors: Seq<usize>,
    start: int,
    k: int,
)
    requires
        further_line(b, item, end, start),
        b.len() <= usize::MAX,
        0 <= k < item.children.len(),
        stands_out(b, item, item.children[k]),
    ensures
        all_clear_of(b, item.children[k], line_edits(b, item, end, indent, cursors, start)),
{
    let block = item.children[k];
    let s = block.range.start as int;
    let e = block.range.end as int;
    let edits = line_edits(b, item, end, indent, cursors, start);
    lemma_breaks(b, item, end, start);
    lemma_line_end_bounds(b, start, end);
    let line = line_end(b, start, end);
    lemma_run_end_bounds(b, start, line, SPACE);
    lemma_run_start_bounds(b, e, s, NL);
    lemma_text_end(b, s + 1, s, e);
    let text = run_end(b, start, line, SPACE);
    let from = breaks_before(b, item, start);
    let stop = text_end(b, s, e);
    assert(b[stop - 1] != NL);
    if edits.len() > 0 {
        if s <= start < e {
            assert(owns_line(item.children[k], start));
            assert(in_nested_block(item.children, start));
        } else if start < s {
            if s < text {
                assert(b[s] == SPACE);
            }
        } else {
            if from < stop {
                assert(b[stop - 1] == NL);
            }
        }
    }
}

proof fn lemma_lines_are_clear(
    b: Seq<u8>,
    item: Node,
    end: int,
    indent: usize,
    cursors: Seq<usize>,
    lines: Seq<usize>,
    k: int,
)
    requires
        further_lines(b, item, end, lines),
        b.len() <= usize::MAX,
        0 <= k < item.children.len(),
        stands_out(b, item, item.children[k]),
    ensures
        all_clear_of(b, item.children[k], lines_edits(b, item, end, indent, cursors, lines)),
    decreases lines.len(),
{
    if lines.len() > 0 {
        lemma_fewer_lines(b, item, end, lines);
        lemma_lines_are_clear(b, item, end, indent, cursors, lines.drop_last(), k);
        lemma_line_is_clear(b, item, end, indent, cursors, lines.last() as int, k);
        let before = lines_edits(b, item, end, indent, cursors, lines.drop_last());
        let here = line_edits(b, item, end, indent, cursors, lines.last() as int);
        let all = before + here;
        assert forall|i: int| 0 <= i < all.len() implies clear_of(
            b,
            item.children[k],
            #[trigger] all[i],
        ) by {
            if i < before.len() {
                assert(all[i] == before[i]);
            } else {
                assert(all[i] == here[i - before.len()]);
            }
        }
    }
}

proof fn lemma_item_is_clear(
    b: Seq<u8>,
    item: Node,
    target: Option<Seq<char>>,
    indent: usize,
    is_last: bool,
    cursors: Seq<usize>,
    k: int,
)
    requires
        opens_with_marker(b, item),
        b.len() <= usize::MAX,
        0 <= k < item.children.len(),
        stands_out(b, item, item.children[k]),
    ensures
        all_clear_of(
            b,
            item.children[k],
            item_edits(b, item, target, indent, is_last, cursors),
        ),
{
    let block = item.children[k];
    let marker = item.kind->marker_range;
    let s = item.range.start as int;
    let end = item_text_end(b, item.range);
    let width = capped(indent + target_width(marker, target));
    let lines = starts_between(b, s, end, end);
    let first = line_end(b, marker.end as int, item.range.end as int);
    lemma_item_lines(b, item);
    lemma_line_end_bounds(b, marker.end as int, item.range.end as int);
    lemma_run_end_bounds(b, marker.end as int, first, SPACE);
    lemma_lines_are_clear(b, item, end, width, cursors, lines, k);
    let numbered = renumbering(b, marker, target);
    let spaced = spacing(b, item.range, marker, cursors);
    let tight = tightening(b, item.range, is_last);
    let inside = lines_edits(b, item, end, width, cursors, lines);
    let extra = run_end(b, marker.end as int, first, SPACE);
    lemma_text_end(b, block.range.start + 1, block.range.start as int, block.range.end as int);
    lemma_text_end_grows(
        b,
        block.range.start as int,
        block.range.end as int,
        s,
        item.range.end as int,
    );
    if block.range.start < extra {
        assert(b[block.range.start as int] == SPACE);
    }
    let all = numbered + spaced + tight + inside;
    assert forall|i: int| 0 <= i < all.len() implies clear_of(b, block, #[trigger] all[i]) by {
        let a = numbered.len() as int;
        let c = a + spaced.len();
        let d = c + tight.len();
        if i < a {
            assert(all[i] == numbered[i]);
        } else if i < c {
            assert(all[i] == spaced[i - a]);
        } else if i < d {
            assert(all[i] == tight[i - c]);
        } else {
            assert(all[i] == inside[i - d]);
        }
    }
}

// ---------------------------------------------------------------------------
// Trees
// ---------------------------------------------------------------------------

/// The edits of a node and of what is below it.
spec fn node_edits(b: Seq<u8>, n: Node, indent: usize, cursors: Seq<usize>) -> Seq<Edit> {
    match n.kind {
        NodeKind::List { kind } => list_edits(
            b,
            n.children,
            kind,
            indent,
            cursors,
            n.children.len() as int,
        ) + inner_edits(b, n.children, kind, first_number(n.children, kind), indent, cursors),
        _ => tree_edits(b, n.children, indent, cursors),
    }
}

/// [`orderly`] for one node.
spec fn orderly_node(n: Node, b: Seq<u8>) -> bool {
    &&& n.range.start <= n.range.end
    &&& match n.kind {
        NodeKind::List { .. } => orderly_items(
            n.children,
            b,
            n.range.start as int,
            n.range.end as int,
        ),
        _ => orderly(n.children, b, n.range.start as int, n.range.end as int),
    }
}

proof fn lemma_orderly_bounds(nodes: Seq<Node>, b: Seq<u8>, low: int, high: int)
    requires
        orderly(nodes, b, low, high),
    ensures
        low <= high,
        forall|i: int|
            0 <= i < nodes.len() ==> low <= (#[trigger] nodes[i]).range.start
                <= nodes[i].range.end <= high && orderly_node(nodes[i], b),
    decreases nodes.len(),
{
    if nodes.len() > 0 {
        let rest = nodes.drop_last();
        lemma_orderly_bounds(rest, b, low, nodes.last().range.start as int);
        assert forall|i: int| 0 <= i < nodes.len() implies low <= (#[trigger] nodes[i]).range.start
            <= nodes[i].range.end <= high && orderly_node(nodes[i], b) by {
            if i < rest.len() {
                assert(rest[i] == nodes[i]);
            }
        }
    }
}

proof fn lemma_items_bounds(nodes: Seq<Node>, b: Seq<u8>, low: int, high: int)
    requires
        orderly_items(nodes, b, low, high),
    ensures
        low <= high,
    decreases nodes.len(),
{
    if nodes.len() > 0 {
        lemma_items_bounds(nodes.drop_last(), b, low, nodes.last().range.start as int);
    }
}

/// Without lists there is nothing to edit.
proof fn lemma_listless(b: Seq<u8>, nodes: Seq<Node>, indent: usize, cursors: Seq<usize>)
    requires
        !has_list(nodes),
    ensures
        tree_edits(b, nodes, indent, cursors).len() == 0,
    decreases nodes,
{
    if nodes.len() > 0 {
        lemma_listless(b, nodes.drop_last(), indent, cursors);
        lemma_listless(b, nodes.last().children, indent, cursors);
    }
}

proof fn lemma_tree(
    b: Seq<u8>,
    nodes: Seq<Node>,
    indent: usize,
    cursors: Seq<usize>,
    low: int,
    high: int,
)
    requires
        orderly(nodes, b, low, high),
        0 <= low,
        high <= b.len() <= usize::MAX,
    ensures
        all_apart(tree_edits(b, nodes, indent, cursors)),
        within(tree_edits(b, nodes, indent, cursors), low, text_end(b, low, high)),
    decreases nodes, 0int,
{
    if nodes.len() > 0 {
        let rest = nodes.drop_last();
        let n = nodes[nodes.len() - 1];
        let s = n.range.start as int;
        let e = n.range.end as int;
        let before = tree_edits(b, rest, indent, cursors);
        let here = node_edits(b, n, indent, cursors);
        lemma_tree(b, rest, indent, cursors, low, s);
        lemma_orderly_bounds(nodes, b, low, high);
        lemma_node(b, n, indent, cursors);
        assert(tree_edits(b, nodes, indent, cursors) == before + here);
        lemma_run_start_bounds(b, s, low, NL);
        lemma_run_start_bounds(b, e, s, NL);
        assert(within(before, low, s)) by {
            assert forall|i: int| 0 <= i < before.len() implies low <= (
            #[trigger] before[i]).range.start < s && before[i].range.end <= s by {}
        }
        assert(within(here, s, e)) by {
            assert forall|i: int| 0 <= i < here.len() implies s <= (#[trigger] here[i]).range.start
                < e && here[i].range.end <= e by {}
        }
        lemma_before_and_after(before, here, low, s, e);
        lemma_apart_concat(before, here);
        lemma_within_text(before, b, low, s, low, high);
        lemma_within_text(here, b, s, e, low, high);
        lemma_within_concat(before, here, low, text_end(b, low, high));
    }
}

proof fn lemma_node(b: Seq<u8>, n: Node, indent: usize, cursors: Seq<usize>)
    requires
        orderly_node(n, b),
        n.range.end <= b.len() <= usize::MAX,
    ensures
        all_apart(node_edits(b, n, indent, cursors)),
        within(
            node_edits(b, n, indent, cursors),
            n.range.start as int,
            text_end(b, n.range.start as int, n.range.end as int),
        ),
    decreases n, 2int,
{
    let s = n.range.start as int;
    let e = n.range.end as int;
    match n.kind {
        NodeKind::List { kind } => {
            assert(n.children =~= n.children.take(n.children.len() as int));
            lemma_list(b, n.children, kind, indent, cursors, n.children, s, e);
            let own = list_edits(b, n.children, kind, indent, cursors, n.children.len() as int);
            let inner = inner_edits(
                b,
                n.children,
                kind,
                first_number(n.children, kind),
                indent,
                cursors,
            );
            lemma_apart_concat(own, inner);
            lemma_within_concat(own, inner, s, text_end(b, s, e));
        },
        _ => {
            lemma_tree(b, n.children, indent, cursors, s, e);
        },
    }
}

/// The first items of a list, `first` of them.
proof fn lemma_list(
    b: Seq<u8>,
    children: Seq<Node>,
    kind: ListKind,
    indent: usize,
    cursors: Seq<usize>,
    first: Seq<Node>,
    low: int,
    high: int,
)
    requires
        first.len() <= children.len(),
        first == children.take(first.len() as int),
        orderly_items(first, b, low, high),
        0 <= low,
        high <= b.len() <= usize::MAX,
    ensures
        ({
            let own = list_edits(b, children, kind, indent, cursors, first.len() as int);
            let inner = inner_edits(
                b,
                first,
                kind,
                first_number(children, kind),
                indent,
                cursors,
            );
            &&& all_apart(own)
            &&& all_apart(inner)
            &&& apart_from(own, inner)
            &&& within(own, low, high)
            &&& within(inner, low, high)
            &&& item_count(first) == item_count(children) ==> within(
                own,
                low,
                text_end(b, low, high),
            ) && within(inner, low, text_end(b, low, high))
        }),
    decreases first, 1int,
{
    if first.len() > 0 {
        let rest = first.drop_last();
        let item = first[first.len() - 1];
        let s = item.range.start as int;
        let e = item.range.end as int;
        let start = first_number(children, kind);
        assert(rest =~= children.take(rest.len() as int));
        assert(item == children[first.len() - 1]);
        assert(children.take(first.len() - 1) =~= rest);
        lemma_list(b, children, kind, indent, cursors, rest, low, s);
        lemma_items_bounds(rest, b, low, s);
        let own_before = list_edits(b, children, kind, indent, cursors, rest.len() as int);
        let inner_before = inner_edits(b, rest, kind, start, indent, cursors);
        lemma_run_start_bounds(b, s, low, NL);
        lemma_run_start_bounds(b, high, low, NL);
        let limit = text_end(b, low, high);
        lemma_widen(own_before, low, s, high);
        lemma_widen(inner_before, low, s, high);
        if item.kind is ListItem {
            let idx = item_count(rest);
            let target = target_marker(kind, start, idx);
            let marker = item.kind->marker_range;
            let is_last = idx + 1 == item_count(children);
            let width = capped(indent + target_width(marker, target));
            let own = item_edits(b, item, target, indent, is_last, cursors);
            let inner = tree_edits(b, item.children, width, cursors);
            assert(opens_with_marker(b, item));
            lemma_item(b, item, target, indent, is_last, cursors);
            lemma_tree(b, item.children, width, cursors, marker.end as int, e);
            assert(item.children =~= item.children.take(item.children.len() as int));
            lemma_own_and_inner(
                b,
                item,
                target,
                indent,
                is_last,
                cursors,
                width,
                item.children,
            );
            lemma_run_start_bounds(b, e, marker.end as int, NL);
            assert(within(inner, s, e)) by {
                assert forall|i: int| 0 <= i < inner.len() implies s <= (
                #[trigger] inner[i]).range.start < e && inner[i].range.end <= e by {}
            }
            lemma_before_and_after(own_before, own, low, s, e);
            lemma_before_and_after(own_before, inner, low, s, e);
            lemma_before_and_after(inner_before, own, low, s, e);
            lemma_before_and_after(inner_before, inner, low, s, e);
            lemma_apart_concat(own_before, own);
            lemma_apart_concat(inner_before, inner);
            lemma_from_concat(own_before, own, inner_before);
            lemma_from_concat(own_before, own, inner);
            lemma_from_concat(inner_before, inner, own_before + own);
            lemma_widen(own, s, e, high);
            lemma_lower(own, low, s, high);
            lemma_widen(inner, s, e, high);
            lemma_lower(inner, low, s, high);
            lemma_within_concat(own_before, own, low, high);
            lemma_within_concat(inner_before, inner, low, high);
            if item_count(first) == item_count(children) {
                let end = item_text_end(b, item.range);
                lemma_item_lines(b, item);
                lemma_text_end(b, end, low, high);
                lemma_widen(own, s, end, limit);
                lemma_lower(own, low, s, limit);
                lemma_widen(own_before, low, s, limit);
                lemma_widen(inner_before, low, s, limit);
                lemma_within_text(inner, b, marker.end as int, e, low, high);
                lemma_within_concat(own_before, own, low, limit);
                lemma_within_concat(inner_before, inner, low, limit);
            }
        } else if item_count(first) == item_count(children) {
            lemma_within_text(own_before, b, low, s, low, high);
            lemma_within_text(inner_before, b, low, s, low, high);
        }
    }
}

proof fn lemma_within_text(
    edits: Seq<Edit>,
    b: Seq<u8>,
    s: int,
    e: int,
    low: int,
    high: int,
)
    requires
        within(edits, s, text_end(b, s, e)),
        low <= s <= e <= high,
    ensures
        within(edits, low, text_end(b, low, high)),
{
    let limit = text_end(b, low, high);
    assert forall|i: int| 0 <= i < edits.len() implies low <= (#[trigger] edits[i]).range.start
        < limit && edits[i].range.end <= limit by {
        assert(edits[i].range.start < text_end(b, s, e));
        lemma_text_end_grows(b, s, e, low, high);
    }
}

proof fn lemma_widen(edits: Seq<Edit>, low: int, mid: int, high: int)
    requires
        within(edits, low, mid),
        mid <= high,
    ensures
        within(edits, low, high),
{
    assert forall|i: int| 0 <= i < edits.len() implies low <= (#[trigger] edits[i]).range.start
        < high && edits[i].range.end <= high by {}
}

proof fn lemma_lower(edits: Seq<Edit>, low: int, mid: int, high: int)
    requires
        within(edits, mid, high),
        low <= mid,
    ensures
        within(edits, low, high),
{
    assert forall|i: int| 0 <= i < edits.len() implies low <= (#[trigger] edits[i]).range.start
        < high && edits[i].range.end <= high by {}
}

/// The edits of an item are apart from those of its first blocks.
proof fn lemma_own_and_inner(
    b: Seq<u8>,
    item: Node,
    target: Option<Seq<char>>,
    indent: usize,
    is_last: bool,
    cursors: Seq<usize>,
    width: usize,
    blocks: Seq<Node>,
)
    requires
        opens_with_marker(b, item),
        b.len() <= usize::MAX,
        orderly(item.children, b, item.kind->marker_range.end as int, item.range.end as int),
        holders_stand_out(item.children, b),
        blocks.len() <= item.children.len(),
        blocks == item.children.take(blocks.len() as int),
    ensures
        apart_from(
            item_edits(b, item, target, indent, is_last, cursors),
            tree_edits(b, blocks, width, cursors),
        ),
    decreases blocks, 0int,
{
    if blocks.len() > 0 {
        let k = blocks.len() - 1;
        let rest = blocks.drop_last();
        let block = blocks[k];
        assert(block == item.children[k]);
        assert(rest =~= item.children.take(rest.len() as int));
        lemma_own_and_inner(b, item, target, indent, is_last, cursors, width, rest);
        lemma_orderly_bounds(
            item.children,
            b,
            item.kind->marker_range.end as int,
            item.range.end as int,
        );
        let own = item_edits(b, item, target, indent, is_last, cursors);
        let before = tree_edits(b, rest, width, cursors);
        let here = node_edits(b, block, width, cursors);
        assert(tree_edits(b, blocks, width, cursors) == before + here);
        if block.kind is List || has_list(block.children) {
            assert(stands_out(b, item, item.children[k]));
            lemma_item_is_clear(b, item, target, indent, is_last, cursors, k);
            lemma_node(b, block, width, cursors);
            assert forall|i: int, j: int| 0 <= i < own.len() && 0 <= j < here.len() implies apart(
                #[trigger] own[i],
                #[trigger] here[j],
            ) by {
                assert(clear_of(b, item.children[k], own[i]));
            }
        } else {
            lemma_listless(b, block.children, width, cursors);
            assert(here.len() == 0);
        }
        lemma_from_concat(before, here, own);
    }
}

// ---------------------------------------------------------------------------
// The law
// ---------------------------------------------------------------------------

/// The edits that bring the lists of a tree into canonical form do not overlap,
/// so that they can be applied one after the other.
pub proof fn normalizing_edits_are_apart(b: Seq<u8>, nodes: Seq<Node>, cursors: Seq<usize>)
    requires
        b.len() <= usize::MAX,
        orderly(nodes, b, 0, b.len() as int),
    ensures
        disjoint(normalization(b, nodes, cursors)),
{
    lemma_tree(b, nodes, 0, cursors, 0, b.len() as int);
    lemma_sorting(tree_edits(b, nodes, 0, cursors));
}

} // verus!
