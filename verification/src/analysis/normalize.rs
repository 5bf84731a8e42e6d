//! Canonical form of the source: doubled hard breaks and lists.

use core::ops::Range;

use vstd::prelude::*;

use super::chain::item_count;
use super::depth::{spaces_within, starts_between};
use super::edits::{
    by_start, disjoint, edit, edits_view, insert_by_start, sort_edits_by_start, Edit, SourceEdit,
};
use super::lists::{DASH, PLUS, STAR};
use super::prefix::walk_forward_exact;
use crate::parser::{digits_end, is_digit, parse, skip_digits, syntax_tree, BACKTICK};
use crate::strings::{capped, decimal, push_decimal, push_spaces, spaces};
use crate::syntax::{
    lemma_children_view, node_fits, nodes_view, tree_fits, ListKind, Node, NodeKind, SyntaxNode,
};
use crate::text::{
    bytes_of, hard_break_before, is_already_hard_break, lemma_run_end_bounds, line_end, next_line_end,
    run_end, run_end_offset, run_start, run_start_offset, BACKSLASH, GT, NL, SPACE, TAB,
};

verus! {

/// Is some cursor in `[low, high]`?
pub open spec fn cursor_within(cursors: Seq<usize>, low: int, high: int) -> bool {
    exists|i: int| 0 <= i < cursors.len() && low <= #[trigger] cursors[i] <= high
}

fn has_cursor_within(cursors: &[usize], low: usize, high: usize) -> (found: bool)
    ensures
        found == cursor_within(cursors@, low as int, high as int),
{
    let mut i: usize = 0;
    while i < cursors.len()
        invariant
            i <= cursors@.len(),
            forall|j: int| 0 <= j < i ==> !(low <= #[trigger] cursors@[j] <= high),
        decreases cursors@.len() - i,
    {
        if low <= cursors[i] && cursors[i] <= high {
            return true;
        }
        i = i + 1;
    }
    false
}

// ---------------------------------------------------------------------------
// Consecutive hard breaks
// ---------------------------------------------------------------------------

/// Where the hard-break marker (two spaces or a backslash) before the newline
/// at `nl` begins.
pub open spec fn break_marker(b: Seq<u8>, nl: int) -> Option<int> {
    if nl >= 2 && b[nl - 1] == SPACE && b[nl - 2] == SPACE {
        Some(nl - 2)
    } else if nl >= 1 && b[nl - 1] == BACKSLASH {
        Some(nl - 1)
    } else {
        None
    }
}

/// Past the spaces, tabs and `>`s from `p`.
pub open spec fn past_continuation(b: Seq<u8>, p: int) -> int
    decreases b.len() - p,
{
    if p < b.len() && (b[p] == SPACE || b[p] == TAB || b[p] == GT) {
        past_continuation(b, p + 1)
    } else {
        p
    }
}

/// The end of the line from `p` on if it holds container prefix only, and
/// perhaps the backslash of a hard break.
pub open spec fn past_gap(b: Seq<u8>, p: int) -> int {
    let q = past_continuation(b, p);
    if q + 1 < b.len() && b[q] == BACKSLASH && b[q + 1] == NL {
        q + 1
    } else {
        q
    }
}

/// Is the newline at `i` a hard break that another one follows with only
/// container prefix between them, and no cursor there?
pub open spec fn doubled_break_at(b: Seq<u8>, cursors: Seq<usize>, i: int) -> bool {
    let j = past_gap(b, i + 1);
    &&& b[i] == NL
    &&& break_marker(b, i) is Some
    &&& j < b.len()
    &&& b[j] == NL
    &&& break_marker(b, j) is Some
    &&& !cursor_within(cursors, i + 1, j)
}

/// The strips of both markers of every doubled hard break from `i` on.
pub open spec fn break_edits(b: Seq<u8>, cursors: Seq<usize>, i: int) -> Seq<Edit>
    decreases b.len() - i,
{
    let j = past_gap(b, i + 1);
    if i >= b.len() {
        Seq::empty()
    } else if doubled_break_at(b, cursors, i) && i < j {
        seq![
            edit(break_marker(b, i)->0, i, Seq::empty()),
            edit(break_marker(b, j)->0, j, Seq::empty()),
        ] + break_edits(b, cursors, j + 1)
    } else {
        break_edits(b, cursors, i + 1)
    }
}

pub proof fn lemma_past_continuation(b: Seq<u8>, p: int)
    ensures
        p <= past_continuation(b, p),
        p <= b.len() ==> past_continuation(b, p) <= b.len(),
        forall|k: int|
            p <= k < past_continuation(b, p) ==> b[k] == SPACE || b[k] == TAB || b[k] == GT,
    decreases b.len() - p,
{
    if p < b.len() && (b[p] == SPACE || b[p] == TAB || b[p] == GT) {
        lemma_past_continuation(b, p + 1);
    }
}

/// The range of the hard-break marker before the newline at `nl`.
fn hard_break_trailing_at(bytes: &[u8], nl: usize) -> (found: Option<Range<usize>>)
    requires
        nl <= bytes@.len(),
    ensures
        match break_marker(bytes@, nl as int) {
            Some(start) => found matches Some(r) && r.start == start && r.end == nl,
            None => found is None,
        },
{
    if nl >= 2 && bytes[nl - 1] == SPACE && bytes[nl - 2] == SPACE {
        return Some(nl - 2..nl);
    }
    if nl >= 1 && bytes[nl - 1] == BACKSLASH {
        return Some(nl - 1..nl);
    }
    None
}

fn skip_gap(bytes: &[u8], p: usize) -> (end: usize)
    requires
        p <= bytes@.len(),
    ensures
        end == past_gap(bytes@, p as int),
        p <= end <= bytes@.len(),
{
    let mut q: usize = p;
    while q < bytes.len() && (bytes[q] == SPACE || bytes[q] == TAB || bytes[q] == GT)
        invariant
            p <= q <= bytes@.len(),
            past_continuation(bytes@, q as int) == past_continuation(bytes@, p as int),
        decreases bytes@.len() - q,
    {
        q = q + 1;
    }
    if bytes.len() - q > 1 && bytes[q] == BACKSLASH && bytes[q + 1] == NL {
        q = q + 1;
    }
    q
}

/// Finds every pair of consecutive hard breaks and gives the edits that drop
/// both of their markers, so that two plain newlines stay. The marker of a
/// break is two spaces or a backslash. A pair with one of
/// `cursors` between its breaks is left alone.
pub fn consecutive_hard_break_edits(markdown: &str, cursors: &[usize]) -> (edits: Vec<SourceEdit>)
    ensures
        edits_view(edits@) == break_edits(bytes_of(markdown@), cursors@, 0),
{
    let bytes = markdown.as_bytes();
    let ghost b = bytes@;
    let ghost all = break_edits(b, cursors@, 0);
    let mut out: Vec<SourceEdit> = Vec::new();
    let mut i: usize = 0;
    assert(edits_view(out@) + all =~= all);
    while i < bytes.len()
        invariant
            i <= bytes@.len(),
            b == bytes@,
            all == break_edits(b, cursors@, 0),
            edits_view(out@) + break_edits(b, cursors@, i as int) == all,
        decreases bytes@.len() - i,
    {
        if bytes[i] != NL {
            i = i + 1;
            continue ;
        }
        let first = hard_break_trailing_at(bytes, i);
        let j = skip_gap(bytes, i + 1);
        let second = if j < bytes.len() && bytes[j] == NL {
            hard_break_trailing_at(bytes, j)
        } else {
            None
        };
        match (first, second) {
            (Some(one), Some(two)) => {
                if has_cursor_within(cursors, i + 1, j) {
                    i = i + 1;
                    continue ;
                }
                let ghost before = edits_view(out@);
                out.push(SourceEdit { range: one, replacement: String::new() });
                out.push(SourceEdit { range: two, replacement: String::new() });
                proof {
                    let pair = seq![
                        edit(break_marker(b, i as int)->0, i as int, Seq::empty()),
                        edit(break_marker(b, j as int)->0, j as int, Seq::empty()),
                    ];
                    assert(edits_view(out@) =~= before + pair);
                    assert(edits_view(out@) + break_edits(b, cursors@, j + 1) =~= before + (pair
                        + break_edits(b, cursors@, j + 1)));
                }
                i = j + 1;
            },
            _ => {
                i = i + 1;
            },
        }
    }
    assert(edits_view(out@) =~= all);
    out
}

// ---------------------------------------------------------------------------
// Lines that open a construct
// ---------------------------------------------------------------------------

pub const DOT: u8 = 46;

pub const CLOSE_PAREN: u8 = 41;

pub const TILDE: u8 = 126;

/// Does the text of `[p, end)` open a list item, a blockquote or a fenced code
/// block?
pub open spec fn opens_construct(b: Seq<u8>, p: int, end: int) -> bool {
    let digits = digits_end(b, p, end);
    &&& p < end
    &&& {
        ||| (b[p] == DASH || b[p] == STAR || b[p] == PLUS) && p + 1 < end && b[p + 1] == SPACE
        ||| is_digit(b[p]) && digits + 1 < end && (b[digits] == DOT || b[digits] == CLOSE_PAREN)
            && b[digits + 1] == SPACE
        ||| b[p] == GT
        ||| (b[p] == BACKTICK || b[p] == TILDE) && run_end(b, p, end, b[p]) - p >= 3
    }
}

/// Does the line `[start, end)` open a nested construct, behind an indent of at
/// most `width` + 4 spaces?
pub open spec fn line_opens_construct(b: Seq<u8>, start: int, end: int, width: int) -> bool {
    opens_construct(b, spaces_within(b, start, end, capped(width + 4) as nat), end)
}

/// Does the line `[line_start, line_end)` open a nested list, blockquote or
/// fenced code block at an indent that suits an item of the given width?
pub fn line_starts_nested_construct(
    bytes: &[u8],
    line_start: usize,
    line_end: usize,
    parent_marker_width: usize,
) -> (found: bool)
    requires
        line_start <= line_end <= bytes@.len(),
    ensures
        found == line_opens_construct(
            bytes@,
            line_start as int,
            line_end as int,
            parent_marker_width as int,
        ),
{
    let cap: usize = parent_marker_width.saturating_add(4);
    let mut p: usize = line_start;
    let mut indent: usize = 0;
    while p < line_end && indent < cap && bytes[p] == SPACE
        invariant
            line_start <= p <= line_end <= bytes@.len(),
            indent <= cap,
            spaces_within(bytes@, line_start as int, line_end as int, cap as nat) == spaces_within(
                bytes@,
                p as int,
                line_end as int,
                (cap - indent) as nat,
            ),
        decreases line_end - p,
    {
        p = p + 1;
        indent = indent + 1;
    }
    if p >= line_end {
        return false;
    }
    let c = bytes[p];
    if (c == DASH || c == STAR || c == PLUS) && p + 1 < line_end && bytes[p + 1] == SPACE {
        return true;
    }
    if c >= 48 && c <= 57 {
        let q = skip_digits(bytes, p, line_end);
        if q < line_end && (bytes[q] == DOT || bytes[q] == CLOSE_PAREN) && q + 1 < line_end
            && bytes[q + 1] == SPACE {
            return true;
        }
    }
    if c == GT {
        return true;
    }
    if c == BACKTICK || c == TILDE {
        let q = run_end_offset(bytes, p, line_end, c);
        if q - p >= 3 {
            return true;
        }
    }
    false
}

// ---------------------------------------------------------------------------
// One list item
// ---------------------------------------------------------------------------

/// `<n>. `, the marker of an ordered item.
pub open spec fn number_marker(n: nat) -> Seq<char> {
    decimal(n) + seq!['.', ' ']
}

/// The number of item `idx` of a list that starts at `start`.
pub open spec fn item_number(start: u64, idx: nat) -> nat {
    if start + idx <= u64::MAX {
        (start + idx) as nat
    } else {
        u64::MAX as nat
    }
}

/// The marker gets its number where it holds another.
pub open spec fn renumbering(b: Seq<u8>, marker: Range<usize>, target: Option<Seq<char>>) -> Seq<Edit> {
    match target {
        Some(text) => if b.subrange(marker.start as int, marker.end as int) == bytes_of(text) {
            Seq::empty()
        } else {
            seq![Edit { range: marker, text }]
        },
        None => Seq::empty(),
    }
}

/// Extra spaces between marker and content go, unless the line holds nothing
/// else or a cursor is among them.
pub open spec fn spacing(
    b: Seq<u8>,
    item: Range<usize>,
    marker: Range<usize>,
    cursors: Seq<usize>,
) -> Seq<Edit> {
    let end = line_end(b, marker.end as int, item.end as int);
    let extra = run_end(b, marker.end as int, end, SPACE);
    if extra <= marker.end || extra >= end || cursor_within(cursors, marker.end as int, extra) {
        Seq::empty()
    } else {
        seq![edit(marker.end as int, extra, Seq::empty())]
    }
}

/// Where the item ends before its trailing newlines.
pub open spec fn item_text_end(b: Seq<u8>, item: Range<usize>) -> int {
    run_start(b, item.end as int, item.start as int, NL)
}

/// Between items one newline stays; the last item keeps its trailing ones.
pub open spec fn tightening(b: Seq<u8>, item: Range<usize>, is_last: bool) -> Seq<Edit> {
    let end = item_text_end(b, item);
    if !is_last && item.end - end > 1 {
        seq![edit(end + 1, item.end as int, Seq::empty())]
    } else {
        Seq::empty()
    }
}

/// Is the child a block that keeps its own lines in order?
pub open spec fn owns_line(child: Node, p: int) -> bool {
    &&& child.kind is List || child.kind is BlockQuote || child.kind is CodeBlock
    &&& child.range.start <= p < child.range.end
}

/// Does a nested list, blockquote or code block of the item hold `p`?
pub open spec fn in_nested_block(children: Seq<Node>, p: int) -> bool {
    exists|i: int| 0 <= i < children.len() && owns_line(#[trigger] children[i], p)
}

/// The edits of the item's line that starts at `start`, `end` being where the
/// item's text ends.
///
/// A blank line loses its spaces unless a nested block owns it or a cursor is
/// on it. Lines of an outer blockquote, lines of a nested block and lines that
/// open one stay. Any other line follows a hard break or a blank line and is
/// indented by `indent` spaces.
pub open spec fn line_edits(
    b: Seq<u8>,
    item: Node,
    end: int,
    indent: usize,
    cursors: Seq<usize>,
    start: int,
) -> Seq<Edit> {
    let line = line_end(b, start, end);
    let text = run_end(b, start, line, SPACE);
    let breaks = run_start(b, start, item.range.start as int, NL);
    if text >= line {
        if line > start && !in_nested_block(item.children, start) && !cursor_within(
            cursors,
            start,
            line,
        ) {
            seq![edit(start, line, Seq::empty())]
        } else {
            Seq::empty()
        }
    } else if b[text] == GT && text - start <= 3 {
        Seq::empty()
    } else if in_nested_block(item.children, start) || line_opens_construct(
        b,
        start,
        line,
        indent as int,
    ) {
        Seq::empty()
    } else {
        let hard = if start - breaks < 2 && !hard_break_before(b, breaks) {
            seq![edit(breaks, breaks, seq![' ', ' '])]
        } else {
            Seq::empty()
        };
        let aligned = if text - start != indent {
            seq![edit(start, text, spaces(indent as nat))]
        } else {
            Seq::empty()
        };
        hard + aligned
    }
}

/// [`line_edits`] of all the lines.
pub open spec fn lines_edits(
    b: Seq<u8>,
    item: Node,
    end: int,
    indent: usize,
    cursors: Seq<usize>,
    lines: Seq<usize>,
) -> Seq<Edit>
    decreases lines.len(),
{
    if lines.len() == 0 {
        Seq::empty()
    } else {
        lines_edits(b, item, end, indent, cursors, lines.drop_last()) + line_edits(
            b,
            item,
            end,
            indent,
            cursors,
            lines.last() as int,
        )
    }
}

/// Width of the item's marker once it is `target`.
pub open spec fn target_width(marker: Range<usize>, target: Option<Seq<char>>) -> int {
    match target {
        Some(text) => bytes_of(text).len() as int,
        None => marker.end - marker.start,
    }
}

/// All the edits of one item at the given indent of the items around it.
pub open spec fn item_edits(
    b: Seq<u8>,
    item: Node,
    target: Option<Seq<char>>,
    indent: usize,
    is_last: bool,
    cursors: Seq<usize>,
) -> Seq<Edit> {
    let marker = item.kind->marker_range;
    let end = item_text_end(b, item.range);
    renumbering(b, marker, target) + spacing(b, item.range, marker, cursors) + tightening(
        b,
        item.range,
        is_last,
    ) + lines_edits(
        b,
        item,
        end,
        capped(indent + target_width(marker, target)),
        cursors,
        starts_between(b, item.range.start as int, end, end),
    )
}

fn push_edit(out: &mut Vec<SourceEdit>, start: usize, end: usize, replacement: String)
    ensures
        edits_view(final(out)@) == edits_view(old(out)@).push(
            edit(start as int, end as int, replacement@),
        ),
{
    let ghost before = edits_view(out@);
    let ghost text = replacement@;
    out.push(SourceEdit { range: start..end, replacement });
    assert(edits_view(out@) =~= before.push(edit(start as int, end as int, text)));
}

fn renumber_ordered_marker_if_needed(
    marker_range: &Range<usize>,
    target: &Option<String>,
    bytes: &[u8],
    out: &mut Vec<SourceEdit>,
)
    requires
        marker_range.start <= marker_range.end <= bytes@.len(),
    ensures
        edits_view(final(out)@) == edits_view(old(out)@) + renumbering(
            bytes@,
            *marker_range,
            match *target {
                Some(text) => Some(text@),
                None => None,
            },
        ),
{
    let ghost before = edits_view(out@);
    if let Some(text) = target {
        let wanted = text.as_str().as_bytes();
        let mut q: usize = marker_range.start;
        let same = wanted.len() == marker_range.end - marker_range.start && walk_forward_exact(
            bytes,
            &mut q,
            wanted,
        );
        if !same {
            push_edit(out, marker_range.start, marker_range.end, text.clone());
        }
    }
    assert(edits_view(out@) =~= before + renumbering(
        bytes@,
        *marker_range,
        match *target {
            Some(text) => Some(text@),
            None => None,
        },
    ));
}

fn normalize_marker_content_spacing(
    item_range: &Range<usize>,
    marker_range: &Range<usize>,
    bytes: &[u8],
    cursors: &[usize],
    out: &mut Vec<SourceEdit>,
)
    requires
        marker_range.end <= item_range.end <= bytes@.len(),
    ensures
        edits_view(final(out)@) == edits_view(old(out)@) + spacing(
            bytes@,
            *item_range,
            *marker_range,
            cursors@,
        ),
{
    let ghost before = edits_view(out@);
    let line_limit = next_line_end(bytes, marker_range.end, item_range.end);
    let extra = run_end_offset(bytes, marker_range.end, line_limit, SPACE);
    if !(extra <= marker_range.end || extra >= line_limit || has_cursor_within(
        cursors,
        marker_range.end,
        extra,
    )) {
        push_edit(out, marker_range.end, extra, String::new());
    }
    assert(edits_view(out@) =~= before + spacing(bytes@, *item_range, *marker_range, cursors@));
}

fn tighten_trailing_separator(
    item_range: &Range<usize>,
    is_last_item: bool,
    bytes: &[u8],
    out: &mut Vec<SourceEdit>,
) -> (end: usize)
    requires
        item_range.start <= item_range.end <= bytes@.len(),
    ensures
        edits_view(final(out)@) == edits_view(old(out)@) + tightening(
            bytes@,
            *item_range,
            is_last_item,
        ),
        end == item_text_end(bytes@, *item_range),
        item_range.start <= end <= item_range.end,
{
    let ghost before = edits_view(out@);
    let end = run_start_offset(bytes, item_range.end, item_range.start, NL);
    if !is_last_item && item_range.end - end > 1 {
        push_edit(out, end + 1, item_range.end, String::new());
    }
    assert(edits_view(out@) =~= before + tightening(bytes@, *item_range, is_last_item));
    end
}

fn line_inside_nested_block_child(item: &SyntaxNode, line_start: usize) -> (found: bool)
    ensures
        found == in_nested_block(item@.children, line_start as int),
{
    let children = item.children.as_slice();
    proof {
        lemma_children_view(*item);
    }
    let mut i: usize = 0;
    while i < children.len()
        invariant
            i <= children@.len(),
            item@.children == nodes_view(children@),
            forall|j: int|
                0 <= j < i ==> !owns_line(#[trigger] item@.children[j], line_start as int),
        decreases children@.len() - i,
    {
        let c = &children[i];
        let is_block = match c.kind {
            NodeKind::List { .. } | NodeKind::BlockQuote | NodeKind::CodeBlock { .. } => true,
            _ => false,
        };
        assert(item@.children[i as int] == c@);
        if is_block && line_start >= c.range.start && line_start < c.range.end {
            assert(owns_line(item@.children[i as int], line_start as int));
            return true;
        }
        i = i + 1;
    }
    false
}

fn push_line_edits(
    item: &SyntaxNode,
    item_end: usize,
    indent: usize,
    bytes: &[u8],
    cursors: &[usize],
    line_start: usize,
    out: &mut Vec<SourceEdit>,
)
    requires
        item.range.start <= line_start <= item_end <= bytes@.len(),
    ensures
        edits_view(final(out)@) == edits_view(old(out)@) + line_edits(
            bytes@,
            item@,
            item_end as int,
            indent,
            cursors@,
            line_start as int,
        ),
{
    let ghost before = edits_view(out@);
    let ghost wanted = line_edits(
        bytes@,
        item@,
        item_end as int,
        indent,
        cursors@,
        line_start as int,
    );
    let line = next_line_end(bytes, line_start, item_end);
    let text = run_end_offset(bytes, line_start, line, SPACE);
    if text >= line {
        if line > line_start && !line_inside_nested_block_child(item, line_start)
            && !has_cursor_within(cursors, line_start, line) {
            push_edit(out, line_start, line, String::new());
        }
        assert(edits_view(out@) =~= before + wanted);
        return ;
    }
    if bytes[text] == GT && text - line_start <= 3 {
        assert(edits_view(out@) =~= before + wanted);
        return ;
    }
    if line_inside_nested_block_child(item, line_start) || line_starts_nested_construct(
        bytes,
        line_start,
        line,
        indent,
    ) {
        assert(edits_view(out@) =~= before + wanted);
        return ;
    }
    let breaks = run_start_offset(bytes, line_start, item.range.start, NL);
    if line_start - breaks < 2 && !is_already_hard_break(bytes, breaks) {
        let mut hard = String::new();
        hard.push(' ');
        hard.push(' ');
        assert(hard@ =~= seq![' ', ' ']);
        push_edit(out, breaks, breaks, hard);
    }
    if text - line_start != indent {
        let mut pad = String::new();
        push_spaces(&mut pad, indent);
        assert(pad@ =~= spaces(indent as nat));
        push_edit(out, line_start, text, pad);
    }
    assert(edits_view(out@) =~= before + wanted);
}

/// The edits of the item's lines beyond its marker line.
fn walk_item_content_lines(
    item: &SyntaxNode,
    item_end: usize,
    indent: usize,
    bytes: &[u8],
    cursors: &[usize],
    out: &mut Vec<SourceEdit>,
)
    requires
        item.range.start <= item_end <= bytes@.len(),
    ensures
        edits_view(final(out)@) == edits_view(old(out)@) + lines_edits(
            bytes@,
            item@,
            item_end as int,
            indent,
            cursors@,
            starts_between(bytes@, item.range.start as int, item_end as int, item_end as int),
        ),
{
    let size: usize = bytes.len();
    let ghost before = edits_view(out@);
    let ghost b = bytes@;
    let start: usize = item.range.start;
    let mut p: usize = start;
    assert(edits_view(out@) =~= before + lines_edits(
        b,
        item@,
        item_end as int,
        indent,
        cursors@,
        starts_between(b, start as int, p as int, item_end as int),
    ));
    while p < item_end
        invariant
            start == item.range.start,
            start <= p <= item_end <= bytes@.len() == size,
            b == bytes@,
            edits_view(out@) =~= before + lines_edits(
                b,
                item@,
                item_end as int,
                indent,
                cursors@,
                starts_between(b, start as int, p as int, item_end as int),
            ),
        decreases item_end - p,
    {
        if bytes[p] == NL && p + 1 < item_end {
            proof {
                let now = starts_between(b, start as int, p + 1, item_end as int);
                assert(now.drop_last() =~= starts_between(
                    b,
                    start as int,
                    p as int,
                    item_end as int,
                ));
                assert(now.last() == p + 1);
            }
            push_line_edits(item, item_end, indent, bytes, cursors, p + 1, out);
        }
        p = p + 1;
    }
}

#[verifier::spinoff_prover]
#[verifier::rlimit(30)]
fn normalize_item(
    item: &SyntaxNode,
    marker_range: &Range<usize>,
    target: &Option<String>,
    ancestor_indent: usize,
    bytes: &[u8],
    is_last_item: bool,
    cursors: &[usize],
    out: &mut Vec<SourceEdit>,
)
    requires
        node_fits(item@, bytes@),
        item.kind == (NodeKind::ListItem { marker_range: *marker_range }),
    ensures
        edits_view(final(out)@) == edits_view(old(out)@) + item_edits(
            bytes@,
            item@,
            match *target {
                Some(text) => Some(text@),
                None => None,
            },
            ancestor_indent,
            is_last_item,
            cursors@,
        ),
{
    let ghost before = edits_view(out@);
    renumber_ordered_marker_if_needed(marker_range, target, bytes, out);
    normalize_marker_content_spacing(&item.range, marker_range, bytes, cursors, out);
    let width: usize = match target {
        Some(text) => text.as_str().as_bytes().len(),
        None => marker_range.end - marker_range.start,
    };
    let indent: usize = ancestor_indent.saturating_add(width);
    let item_end = tighten_trailing_separator(&item.range, is_last_item, bytes, out);
    walk_item_content_lines(item, item_end, indent, bytes, cursors, out);
    assert(edits_view(out@) =~= before + item_edits(
        bytes@,
        item@,
        match *target {
            Some(text) => Some(text@),
            None => None,
        },
        ancestor_indent,
        is_last_item,
        cursors@,
    ));
}

// ---------------------------------------------------------------------------
// Lists
// ---------------------------------------------------------------------------

/// The number that the first item of a list gets: the one it has, but 1 for a
/// lone item; 0 for a bulleted list.
pub open spec fn first_number(children: Seq<Node>, kind: ListKind) -> u64 {
    match kind {
        ListKind::Unordered => 0,
        ListKind::Ordered { start } => if start > 1 && item_count(children) <= 1 {
            1
        } else {
            start
        },
    }
}

/// The marker that item `idx` of the list gets; none for a bulleted list.
pub open spec fn target_marker(kind: ListKind, first: u64, idx: nat) -> Option<Seq<char>> {
    match kind {
        ListKind::Unordered => None,
        ListKind::Ordered { .. } => Some(number_marker(item_number(first, idx))),
    }
}

/// The edits of the first `n` children of a list that are items.
pub open spec fn list_edits(
    b: Seq<u8>,
    children: Seq<Node>,
    kind: ListKind,
    indent: usize,
    cursors: Seq<usize>,
    n: int,
) -> Seq<Edit>
    decreases n,
{
    if n <= 0 {
        Seq::empty()
    } else {
        let rest = list_edits(b, children, kind, indent, cursors, n - 1);
        let child = children[n - 1];
        let idx = item_count(children.take(n - 1));
        if child.kind is ListItem {
            rest + item_edits(
                b,
                child,
                target_marker(kind, first_number(children, kind), idx),
                indent,
                idx + 1 == item_count(children),
                cursors,
            )
        } else {
            rest
        }
    }
}

/// The edits of all lists of the tree, each list before the lists inside its
/// items. `indent` is the width of the markers around the nodes.
pub open spec fn tree_edits(
    b: Seq<u8>,
    nodes: Seq<Node>,
    indent: usize,
    cursors: Seq<usize>,
) -> Seq<Edit>
    decreases nodes, 0int,
{
    if nodes.len() == 0 {
        Seq::empty()
    } else {
        let n = nodes.last();
        tree_edits(b, nodes.drop_last(), indent, cursors) + match n.kind {
            NodeKind::List { kind } => list_edits(
                b,
                n.children,
                kind,
                indent,
                cursors,
                n.children.len() as int,
            ) + inner_edits(b, n.children, kind, first_number(n.children, kind), indent, cursors),
            _ => tree_edits(b, n.children, indent, cursors),
        }
    }
}

/// The edits below the items of a list.
pub open spec fn inner_edits(
    b: Seq<u8>,
    children: Seq<Node>,
    kind: ListKind,
    first: u64,
    indent: usize,
    cursors: Seq<usize>,
) -> Seq<Edit>
    decreases children, 1int,
{
    if children.len() == 0 {
        Seq::empty()
    } else {
        let child = children.last();
        let rest = inner_edits(b, children.drop_last(), kind, first, indent, cursors);
        match child.kind {
            NodeKind::ListItem { marker_range } => rest + tree_edits(
                b,
                child.children,
                capped(
                    indent + target_width(
                        marker_range,
                        target_marker(kind, first, item_count(children.drop_last())),
                    ),
                ),
                cursors,
            ),
            _ => rest,
        }
    }
}

/// The edits that bring the lists of a tree into canonical form, by start.
pub open spec fn normalization(b: Seq<u8>, nodes: Seq<Node>, cursors: Seq<usize>) -> Seq<Edit> {
    by_start(tree_edits(b, nodes, 0, cursors))
}

fn marker_text(number: u64) -> (text: String)
    ensures
        text@ == number_marker(number as nat),
{
    let mut out = String::new();
    push_decimal(&mut out, number);
    out.push('.');
    out.push(' ');
    assert(out@ =~= number_marker(number as nat));
    out
}

fn count_list_items(nodes: &[SyntaxNode]) -> (count: usize)
    ensures
        count == item_count(nodes_view(nodes@)),
        count <= nodes@.len(),
{
    let ghost all = nodes_view(nodes@);
    let mut count: usize = 0;
    let mut i: usize = 0;
    while i < nodes.len()
        invariant
            i <= nodes@.len(),
            all == nodes_view(nodes@),
            count <= i,
            count == item_count(all.take(i as int)),
        decreases nodes@.len() - i,
    {
        proof {
            assert(all.take(i + 1).drop_last() =~= all.take(i as int));
            assert(all.take(i + 1).last() == all[i as int]);
        }
        if let NodeKind::ListItem { .. } = nodes[i].kind {
            count = count + 1;
        }
        i = i + 1;
    }
    assert(all.take(i as int) =~= all);
    count
}

fn effective_list_start(children: &[SyntaxNode], kind: ListKind) -> (first: u64)
    ensures
        first == first_number(nodes_view(children@), kind),
{
    match kind {
        ListKind::Unordered => 0,
        ListKind::Ordered { start } => {
            let count = count_list_items(children);
            if start > 1 && count <= 1 {
                1
            } else {
                start
            }
        },
    }
}

fn target_marker_text(kind: ListKind, first: u64, idx: usize) -> (target: Option<String>)
    ensures
        match target_marker(kind, first, idx as nat) {
            Some(text) => target matches Some(s) && s@ == text,
            None => target is None,
        },
{
    match kind {
        ListKind::Unordered => None,
        ListKind::Ordered { .. } => Some(marker_text(first.saturating_add(idx as u64))),
    }
}

fn normalize_list_node(
    children: &[SyntaxNode],
    kind: ListKind,
    bytes: &[u8],
    ancestor_indent: usize,
    first: u64,
    cursors: &[usize],
    out: &mut Vec<SourceEdit>,
)
    requires
        tree_fits(nodes_view(children@), bytes@),
        first == first_number(nodes_view(children@), kind),
    ensures
        edits_view(final(out)@) == edits_view(old(out)@) + list_edits(
            bytes@,
            nodes_view(children@),
            kind,
            ancestor_indent,
            cursors@,
            children@.len() as int,
        ),
{
    let ghost all = nodes_view(children@);
    let ghost before = edits_view(out@);
    let count = count_list_items(children);
    let mut idx: usize = 0;
    let mut i: usize = 0;
    assert(all.take(0) =~= Seq::empty());
    assert(edits_view(out@) =~= before + list_edits(
        bytes@,
        all,
        kind,
        ancestor_indent,
        cursors@,
        0,
    ));
    while i < children.len()
        invariant
            i <= children@.len(),
            all == nodes_view(children@),
            tree_fits(all, bytes@),
            first == first_number(all, kind),
            count == item_count(all),
            idx <= i,
            idx == item_count(all.take(i as int)),
            edits_view(out@) =~= before + list_edits(
                bytes@,
                all,
                kind,
                ancestor_indent,
                cursors@,
                i as int,
            ),
        decreases children@.len() - i,
    {
        let child = &children[i];
        proof {
            assert(all.take(i + 1).drop_last() =~= all.take(i as int));
            assert(all.take(i + 1).last() == all[i as int]);
            assert(all[i as int] == child@);
            assert(node_fits(all[i as int], bytes@));
        }
        if let NodeKind::ListItem { marker_range } = &child.kind {
            let target = target_marker_text(kind, first, idx);
            normalize_item(
                child,
                marker_range,
                &target,
                ancestor_indent,
                bytes,
                idx + 1 == count,
                cursors,
                out,
            );
            idx = idx + 1;
        }
        i = i + 1;
    }
}

fn walk_normalize_lists(
    nodes: &[SyntaxNode],
    bytes: &[u8],
    ancestor_indent: usize,
    cursors: &[usize],
    out: &mut Vec<SourceEdit>,
)
    requires
        tree_fits(nodes_view(nodes@), bytes@),
    ensures
        edits_view(final(out)@) == edits_view(old(out)@) + tree_edits(
            bytes@,
            nodes_view(nodes@),
            ancestor_indent,
            cursors@,
        ),
    decreases nodes_view(nodes@), 0int,
{
    let ghost all = nodes_view(nodes@);
    let ghost before = edits_view(out@);
    let mut i: usize = 0;
    assert(all.take(0) =~= Seq::empty());
    assert(edits_view(out@) =~= before + tree_edits(
        bytes@,
        all.take(0),
        ancestor_indent,
        cursors@,
    ));
    while i < nodes.len()
        invariant
            i <= nodes@.len(),
            all == nodes_view(nodes@),
            tree_fits(all, bytes@),
            edits_view(out@) =~= before + tree_edits(
                bytes@,
                all.take(i as int),
                ancestor_indent,
                cursors@,
            ),
        decreases nodes@.len() - i,
    {
        let node = &nodes[i];
        proof {
            assert(all.take(i + 1).drop_last() =~= all.take(i as int));
            assert(all.take(i + 1).last() == all[i as int]);
            assert(all[i as int] == node@);
            assert(node_fits(all[i as int], bytes@));
            lemma_children_view(*node);
        }
        let children = node.children.as_slice();
        match &node.kind {
            NodeKind::List { kind } => {
                let first = effective_list_start(children, *kind);
                normalize_list_node(
                    children,
                    *kind,
                    bytes,
                    ancestor_indent,
                    first,
                    cursors,
                    out,
                );
                walk_items(children, *kind, first, bytes, ancestor_indent, cursors, out);
            },
            _ => {
                walk_normalize_lists(children, bytes, ancestor_indent, cursors, out);
            },
        }
        i = i + 1;
    }
    assert(all.take(i as int) =~= all);
}

fn walk_items(
    children: &[SyntaxNode],
    kind: ListKind,
    first: u64,
    bytes: &[u8],
    ancestor_indent: usize,
    cursors: &[usize],
    out: &mut Vec<SourceEdit>,
)
    requires
        tree_fits(nodes_view(children@), bytes@),
    ensures
        edits_view(final(out)@) == edits_view(old(out)@) + inner_edits(
            bytes@,
            nodes_view(children@),
            kind,
            first,
            ancestor_indent,
            cursors@,
        ),
    decreases nodes_view(children@), 1int,
{
    let ghost all = nodes_view(children@);
    let ghost before = edits_view(out@);
    let mut idx: usize = 0;
    let mut i: usize = 0;
    assert(all.take(0) =~= Seq::empty());
    assert(edits_view(out@) =~= before + inner_edits(
        bytes@,
        all.take(0),
        kind,
        first,
        ancestor_indent,
        cursors@,
    ));
    while i < children.len()
        invariant
            i <= children@.len(),
            all == nodes_view(children@),
            tree_fits(all, bytes@),
            idx <= i,
            idx == item_count(all.take(i as int)),
            edits_view(out@) =~= before + inner_edits(
                bytes@,
                all.take(i as int),
                kind,
                first,
                ancestor_indent,
                cursors@,
            ),
        decreases children@.len() - i,
    {
        let child = &children[i];
        proof {
            assert(all.take(i + 1).drop_last() =~= all.take(i as int));
            assert(all.take(i + 1).last() == all[i as int]);
            assert(all[i as int] == child@);
            assert(node_fits(all[i as int], bytes@));
            lemma_children_view(*child);
        }
        if let NodeKind::ListItem { marker_range } = &child.kind {
            let width: usize = match target_marker_text(kind, first, idx) {
                Some(text) => text.as_str().as_bytes().len(),
                None => marker_range.end - marker_range.start,
            };
            let inner: usize = ancestor_indent.saturating_add(width);
            walk_normalize_lists(child.children.as_slice(), bytes, inner, cursors, out);
            idx = idx + 1;
        }
        i = i + 1;
    }
    assert(all.take(i as int) =~= all);
}

/// The edits that bring the lists of a tree over `bytes` into canonical form:
/// consecutive numbers, one space after markers, one newline between items, no
/// lazy continuation lines, and continuation lines aligned with the content.
/// `cursors` are the ends of the selection; text around them is not pulled
/// away.
pub fn list_normalization_edits_in_tree(tree: &[SyntaxNode], bytes: &[u8], cursors: &[usize]) -> (edits:
    Vec<SourceEdit>)
    requires
        tree_fits(nodes_view(tree@), bytes@),
    ensures
        edits_view(edits@) == normalization(bytes@, nodes_view(tree@), cursors@),
{
    let mut edits: Vec<SourceEdit> = Vec::new();
    walk_normalize_lists(tree, bytes, 0, cursors, &mut edits);
    assert(edits_view(edits@) =~= tree_edits(bytes@, nodes_view(tree@), 0, cursors@));
    sort_edits_by_start(&edits)
}

/// The edits that bring the lists of `markdown` into canonical form.
pub fn list_normalization_edits(markdown: &str, cursors: &[usize]) -> (edits: Vec<SourceEdit>)
    ensures
        edits_view(edits@) == normalization(
            bytes_of(markdown@),
            syntax_tree(markdown@),
            cursors@,
        ),
{
    let tree = parse(markdown);
    list_normalization_edits_in_tree(tree.as_slice(), markdown.as_bytes(), cursors)
}

// ---------------------------------------------------------------------------
// Laws
// ---------------------------------------------------------------------------

/// Does the edit take out bytes of a hard-break marker and nothing else?
pub open spec fn takes_break_marker(b: Seq<u8>, e: Edit) -> bool {
    &&& e.text.len() == 0
    &&& e.range.start < e.range.end < b.len()
    &&& b[e.range.end as int] == NL
    &&& forall|p: int|
        e.range.start <= p < e.range.end ==> #[trigger] b[p] == SPACE || b[p] == BACKSLASH
}

proof fn lemma_break_edits(b: Seq<u8>, cursors: Seq<usize>, i: int, low: int)
    requires
        0 <= low <= i,
        low == 0 || b[low - 1] == NL,
        b.len() <= usize::MAX,
    ensures
        disjoint(break_edits(b, cursors, i)),
        forall|k: int|
            0 <= k < break_edits(b, cursors, i).len() ==> low <= (#[trigger] break_edits(
                b,
                cursors,
                i,
            )[k]).range.start && takes_break_marker(b, break_edits(b, cursors, i)[k]),
    decreases b.len() - i,
{
    let j = past_gap(b, i + 1);
    let all = break_edits(b, cursors, i);
    if i < b.len() {
        if doubled_break_at(b, cursors, i) && i < j {
            lemma_past_continuation(b, i + 1);
            lemma_break_edits(b, cursors, j + 1, j + 1);
            let rest = break_edits(b, cursors, j + 1);
            let first = edit(break_marker(b, i)->0, i, Seq::empty());
            let second = edit(break_marker(b, j)->0, j, Seq::empty());
            assert(all == seq![first, second] + rest);
            let start = break_marker(b, j)->0;
            assert(i < start && (start == j - 1 || start == j - 2));
            assert forall|k: int| 0 <= k < all.len() implies low <= (
            #[trigger] all[k]).range.start && takes_break_marker(b, all[k]) by {
                if k >= 2 {
                    assert(all[k] == rest[k - 2]);
                }
            }
            assert forall|k: int, m: int| 0 <= k < m < all.len() implies (
            #[trigger] all[k]).range.end <= (#[trigger] all[m]).range.start by {
                if m >= 2 {
                    assert(all[m] == rest[m - 2]);
                    if k >= 2 {
                        assert(all[k] == rest[k - 2]);
                    }
                }
            }
        } else {
            lemma_break_edits(b, cursors, i + 1, low);
        }
    }
}

/// The edits of doubled hard breaks come in order, do not overlap, and take out
/// nothing but the markers of the breaks.
pub proof fn break_edits_are_apart(b: Seq<u8>, cursors: Seq<usize>)
    requires
        b.len() <= usize::MAX,
    ensures
        disjoint(break_edits(b, cursors, 0)),
        forall|k: int|
            0 <= k < break_edits(b, cursors, 0).len() ==> takes_break_marker(
                b,
                #[trigger] break_edits(b, cursors, 0)[k],
            ),
{
    lemma_break_edits(b, cursors, 0, 0);
}

/// Do the edits come by start?
pub open spec fn starts_ascend(edits: Seq<Edit>) -> bool {
    forall|i: int, j: int|
        0 <= i < j < edits.len() ==> (#[trigger] edits[i]).range.start <= (
        #[trigger] edits[j]).range.start
}

proof fn lemma_insert_by_start(sorted: Seq<Edit>, e: Edit)
    requires
        starts_ascend(sorted),
    ensures
        starts_ascend(insert_by_start(sorted, e)),
        insert_by_start(sorted, e).to_multiset() == sorted.to_multiset().insert(e),
        insert_by_start(sorted, e).len() == sorted.len() + 1,
        forall|i: int|
            0 <= i < insert_by_start(sorted, e).len() ==> (#[trigger] insert_by_start(
                sorted,
                e,
            )[i]).range.start <= e.range.start || (sorted.len() > 0 && insert_by_start(
                sorted,
                e,
            )[i].range.start <= sorted.last().range.start),
    decreases sorted.len(),
{
    broadcast use vstd::seq_lib::group_to_multiset_ensures;

    if sorted.len() == 0 || sorted.last().range.start <= e.range.start {
        let out = sorted.push(e);
        assert forall|i: int| 0 <= i < out.len() implies (#[trigger] out[i]).range.start
            <= e.range.start by {
            if i < sorted.len() - 1 {
                assert(sorted[i].range.start <= sorted[sorted.len() - 1].range.start);
            }
        }
    } else {
        let head = sorted.drop_last();
        let last = sorted.last();
        lemma_insert_by_start(head, e);
        let inner = insert_by_start(head, e);
        let out = inner.push(last);
        assert(sorted =~= head.push(last));
        assert forall|i: int| 0 <= i < inner.len() implies (#[trigger] inner[i]).range.start
            <= last.range.start by {
            if head.len() > 0 {
                assert(sorted[sorted.len() - 2].range.start <= sorted[sorted.len()
                    - 1].range.start);
            }
        }
        assert(out.to_multiset() =~= sorted.to_multiset().insert(e));
    }
}

pub proof fn lemma_by_start(edits: Seq<Edit>)
    ensures
        starts_ascend(by_start(edits)),
        by_start(edits).to_multiset() == edits.to_multiset(),
    decreases edits.len(),
{
    broadcast use vstd::seq_lib::group_to_multiset_ensures;

    if edits.len() > 0 {
        lemma_by_start(edits.drop_last());
        lemma_insert_by_start(by_start(edits.drop_last()), edits.last());
        assert(edits =~= edits.drop_last().push(edits.last()));
    }
}

/// The edits of lists come by start, and sorting them neither adds nor loses one.
pub proof fn list_edits_come_by_start(b: Seq<u8>, nodes: Seq<Node>, cursors: Seq<usize>)
    ensures
        starts_ascend(normalization(b, nodes, cursors)),
        normalization(b, nodes, cursors).to_multiset() == tree_edits(
            b,
            nodes,
            0,
            cursors,
        ).to_multiset(),
{
    lemma_by_start(tree_edits(b, nodes, 0, cursors));
}

/// A line opens a construct of its own, behind an indent that suits the item,
/// with a bullet and a space, a number with a full stop or a bracket and a space,
/// a quote marker, or three backticks or tildes.
pub proof fn constructs_are_told_by_their_marks(
    b: Seq<u8>,
    start: int,
    n: int,
    end: int,
    width: int,
)
    requires
        0 <= start,
        0 <= n <= width + 4 <= usize::MAX,
        start + n < end <= b.len(),
        forall|i: int| start <= i < start + n ==> b[i] == 32,
        b[start + n] != 32,
    ensures
        ({
            let p = start + n;
            let c = b[p];
            let opens = line_opens_construct(b, start, end, width);
            &&& c == 62 ==> opens
            &&& c == 45 || c == 42 || c == 43 ==> (opens <==> p + 1 < end && b[p + 1] == 32)
            &&& c == 96 || c == 126 ==> (opens <==> p + 2 < end && b[p + 1] == c && b[p + 2] == c)
            &&& 48 <= c <= 57 ==> forall|q: int|
                p < q < end && (forall|i: int| p <= i < q ==> 48 <= #[trigger] b[i] <= 57) && !(48
                    <= #[trigger] b[q] <= 57) ==> (opens <==> q + 1 < end && (b[q] == 46 || b[q]
                    == 41) && b[q + 1] == 32)
            &&& !(c == 62 || c == 45 || c == 42 || c == 43 || c == 96 || c == 126 || 48 <= c <= 57)
                ==> !opens
        }),
{
    let p = start + n;
    let c = b[p];
    lemma_indent_end(b, start, n as nat, end, (width + 4) as nat);
    if c == 96 || c == 126 {
        lemma_run_of_three(b, p, end, c);
    }
    if 48 <= c <= 57 {
        assert forall|q: int|
            p < q < end && (forall|i: int| p <= i < q ==> 48 <= #[trigger] b[i] <= 57) && !(48
                <= #[trigger] b[q] <= 57) implies (line_opens_construct(b, start, end, width)
            <==> q + 1 < end && (b[q] == 46 || b[q] == 41) && b[q + 1] == 32) by {
            lemma_digits_until(b, p, q, end);
        }
    }
}

proof fn lemma_indent_end(b: Seq<u8>, q: int, n: nat, limit: int, most: nat)
    requires
        n <= most,
        q + n < limit,
        forall|i: int| q <= i < q + n ==> b[i] == 32,
        b[q + n] != 32,
    ensures
        spaces_within(b, q, limit, most) == q + n,
    decreases n,
{
    if n > 0 {
        assert(b[q] == 32);
        lemma_indent_end(b, q + 1, (n - 1) as nat, limit, (most - 1) as nat);
    } else {
        assert(b[q + 0] != 32);
    }
}

proof fn lemma_run_of_three(b: Seq<u8>, p: int, end: int, c: u8)
    requires
        0 <= p < end <= b.len(),
        b[p] == c,
    ensures
        run_end(b, p, end, c) - p >= 3 <==> p + 2 < end && b[p + 1] == c && b[p + 2] == c,
{
    reveal_with_fuel(run_end, 4);
    if p + 2 < end && b[p + 1] == c && b[p + 2] == c {
        lemma_run_end_bounds(b, p + 3, end, c);
    }
}

proof fn lemma_digits_until(b: Seq<u8>, p: int, q: int, end: int)
    requires
        p <= q < end,
        forall|i: int| p <= i < q ==> 48 <= #[trigger] b[i] <= 57,
        !(48 <= b[q] <= 57),
    ensures
        digits_end(b, p, end) == q,
    decreases q - p,
{
    if p < q {
        assert(48 <= b[p] <= 57);
        lemma_digits_until(b, p + 1, q, end);
    }
}

} // verus!
