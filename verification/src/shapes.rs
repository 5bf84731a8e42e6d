//! How the constructs of a text are taken apart: delimiters and what they
//! enclose, the markers of items, the fences of code, the text and the address of
//! a link.

use core::ops::Range;

use vstd::prelude::*;

use crate::parser::{
    address,
    code_end,
    construct,
    digits_end,
    fence_opener,
    find_byte,
    leaf,
    opener_line_end,
    EventKind,
    Opening,
};
use crate::syntax::{ListKind, Node, NodeKind};
use crate::text::{boundary, boundary_before, line_end, run_end};

verus! {

/// The bytes `[start, end)`.
pub open spec fn span(start: int, end: int) -> Range<usize> {
    Range { start: start as usize, end: end as usize }
}

/// Do `n` bytes on either side leave something of the range, or nothing, between
/// them, and cut no character?
pub open spec fn encloses(b: Seq<u8>, r: Range<usize>, n: int) -> bool {
    &&& 0 <= n
    &&& r.start + 2 * n <= r.end <= b.len() <= usize::MAX
    &&& boundary(b, r.start + n)
    &&& boundary(b, r.end - n)
}

/// Bold has two delimiters of two bytes, italic two of one, and both enclose what
/// is between them.
pub proof fn styles_stand_between_delimiters(b: Seq<u8>, r: Range<usize>, children: Seq<Node>)
    ensures
        encloses(b, r, 2) ==> construct(Opening::OpenStrong, r, children, b) == (NodeKind::Strong {
            content_range: span(r.start + 2, r.end - 2),
            opener: span(r.start as int, r.start + 2),
            closer: span(r.end - 2, r.end as int),
        }),
        encloses(b, r, 1) ==> construct(Opening::OpenEmphasis, r, children, b) == (
        NodeKind::Emphasis {
            content_range: span(r.start + 1, r.end - 1),
            opener: span(r.start as int, r.start + 1),
            closer: span(r.end - 1, r.end as int),
        }),
        construct(Opening::OpenStrike, r, children, b) is Strikethrough,
{
    assert(boundary(b, r.start + 2) ==> boundary_before(b, r.start + 2) == r.start + 2);
    assert(boundary(b, r.end - 2) ==> boundary_before(b, r.end - 2) == r.end - 2);
    assert(boundary(b, r.start + 1) ==> boundary_before(b, r.start + 1) == r.start + 1);
    assert(boundary(b, r.end - 1) ==> boundary_before(b, r.end - 1) == r.end - 1);
}

/// A formula in a line stands between single dollar signs, a display formula
/// between double ones, and code between as many backticks as it begins with.
pub proof fn leaves_stand_between_delimiters(b: Seq<u8>, r: Range<usize>, k: int)
    ensures
        encloses(b, r, 1) ==> leaf(EventKind::MathSpan, r, b) == (NodeKind::InlineMath {
            content_range: span(r.start + 1, r.end - 1),
        }),
        encloses(b, r, 2) ==> leaf(EventKind::MathBlock, r, b) == (NodeKind::DisplayMath {
            content_range: span(r.start + 2, r.end - 2),
        }),
        k > 0 && encloses(b, r, k) && (forall|i: int| r.start <= i < r.start + k ==> b[i] == 96)
            && r.start + k < r.end && b[r.start + k] != 96 ==> leaf(EventKind::CodeSpan, r, b) == (
        NodeKind::InlineCode { content_range: span(r.start + k, r.end - k) }),
{
    assert(boundary(b, r.start + 1) ==> boundary_before(b, r.start + 1) == r.start + 1);
    assert(boundary(b, r.end - 1) ==> boundary_before(b, r.end - 1) == r.end - 1);
    assert(boundary(b, r.start + 2) ==> boundary_before(b, r.start + 2) == r.start + 2);
    assert(boundary(b, r.end - 2) ==> boundary_before(b, r.end - 2) == r.end - 2);
    if k > 0 && encloses(b, r, k) && (forall|i: int| r.start <= i < r.start + k ==> b[i] == 96)
        && r.start + k < r.end && b[r.start + k] != 96 {
        lemma_run(b, r.start as int, k, r.end as int, 96);
        assert(boundary_before(b, r.start + k) == r.start + k);
        assert(boundary_before(b, r.end - k) == r.end - k);
    }
}

proof fn lemma_run(b: Seq<u8>, p: int, k: int, limit: int, byte: u8)
    requires
        0 <= k,
        p + k <= limit,
        forall|i: int| p <= i < p + k ==> b[i] == byte,
        p + k < limit ==> b[p + k] != byte,
    ensures
        run_end(b, p, limit, byte) == p + k,
    decreases k,
{
    if k > 0 {
        assert(b[p] == byte);
        lemma_run(b, p + 1, k - 1, limit, byte);
    } else if p < limit {
        assert(b[p + k] != byte);
    }
}

/// What is not delimited is what it was read as.
pub proof fn plain_leaves_keep_their_kind(b: Seq<u8>, r: Range<usize>, checked: bool)
    ensures
        leaf(EventKind::PlainText, r, b) is Text,
        leaf(EventKind::LineBreak, r, b) is LineBreak,
        leaf(EventKind::ForcedBreak, r, b) is LineBreak,
        leaf(EventKind::Divider, r, b) is ThematicBreak,
        leaf(EventKind::Task(checked), r, b) == (NodeKind::TaskMarker { checked }),
{
}

/// The marker of a bulleted item is its bullet, that of a numbered one its digits
/// and the byte behind them, both with one space where there is one.
pub proof fn items_begin_with_their_marker(
    b: Seq<u8>,
    r: Range<usize>,
    children: Seq<Node>,
    digits: int,
)
    requires
        0 <= digits,
        r.start + digits + 1 < r.end <= b.len() <= usize::MAX,
        forall|i: int| r.start <= i < r.start + digits ==> 48 <= #[trigger] b[i] <= 57,
        !(48 <= b[r.start + digits] <= 57),
    ensures
        construct(Opening::OpenItem, r, children, b) == (NodeKind::ListItem {
            marker_range: span(
                r.start as int,
                if b[r.start + digits + 1] == 32 {
                    r.start + digits + 2
                } else {
                    r.start + digits + 1
                },
            ),
        }),
{
    lemma_digits(b, r.start as int, digits, r.end as int);
}

proof fn lemma_digits(b: Seq<u8>, p: int, n: int, limit: int)
    requires
        0 <= n,
        p + n < limit,
        forall|i: int| p <= i < p + n ==> 48 <= #[trigger] b[i] <= 57,
        !(48 <= b[p + n] <= 57),
    ensures
        digits_end(b, p, limit) == p + n,
    decreases n,
{
    if n > 0 {
        assert(48 <= b[p] <= 57);
        lemma_digits(b, p + 1, n - 1, limit);
    } else {
        assert(!(48 <= b[p + 0] <= 57));
    }
}

/// A code block begins with its fence, which the rest of the line names the
/// language behind. Its code is from its first line of code to its last, and its
/// end fence is the first run of the same byte behind that; a block without one
/// is not closed.
pub proof fn code_stands_between_fences(
    b: Seq<u8>,
    r: Range<usize>,
    children: Seq<Node>,
    c: u8,
    k: int,
    line: int,
    at: int,
    m: int,
)
    requires
        0 < k,
        c != 10,
        r.start + k <= line < r.end <= b.len() <= usize::MAX,
        forall|i: int| r.start <= i < r.start + k ==> b[i] == c,
        b[r.start + k] != c,
        b[line] == 10,
        forall|i: int| r.start + k <= i < line ==> b[i] != 10,
        children.len() > 0,
        line < children[0].range.start <= children.last().range.end <= at <= r.end,
        forall|i: int| children.last().range.end <= i < at ==> b[i] != c,
        0 < m,
        at < r.end ==> at + m <= r.end && (forall|i: int| at <= i < at + m ==> b[i] == c) && (at + m < r.end ==> b[at + m] != c),
    ensures
        construct(Opening::OpenCode, r, children, b) == (NodeKind::CodeBlock {
            fence: span(r.start as int, r.start + k),
            end_fence: if at < r.end {
                Some(span(at, at + m))
            } else {
                None
            },
            info_range: span(r.start + k, line),
            content_range: span(
                children[0].range.start as int,
                children.last().range.end as int,
            ),
        }),
{
    lemma_run(b, r.start as int, k, r.end as int, c);
    assert(fence_opener(b, r).end == r.start + k);
    lemma_line(b, r.start + k, line, r.end as int);
    assert(opener_line_end(b, r) == line);
    let from = children.last().range.end as int;
    assert(code_end(b, r, children) == from);
    lemma_found(b, from, at, r.end as int, c);
    if at < r.end {
        assert(b[at] == c);
        lemma_run(b, at, m, r.end as int, c);
    }
}

proof fn lemma_line(b: Seq<u8>, p: int, line: int, limit: int)
    requires
        0 <= p <= line < limit <= b.len(),
        b[line] == 10,
        forall|i: int| p <= i < line ==> b[i] != 10,
    ensures
        line_end(b, p, limit) == line,
    decreases line - p,
{
    if p < line {
        assert(b[p] != 10);
        lemma_line(b, p + 1, line, limit);
    }
}

proof fn lemma_found(b: Seq<u8>, p: int, at: int, limit: int, byte: u8)
    requires
        p <= at <= limit,
        forall|i: int| p <= i < at ==> b[i] != byte,
        at < limit ==> b[at] == byte,
    ensures
        find_byte(b, p, limit, byte) == at,
    decreases at - p,
{
    if p < at {
        assert(b[p] != byte);
        lemma_found(b, p + 1, at, limit, byte);
    }
}

/// A heading keeps its level, and its content is what its marks enclose.
pub proof fn headings_keep_their_level(
    b: Seq<u8>,
    r: Range<usize>,
    children: Seq<Node>,
    level: u8,
)
    requires
        children.len() > 0,
        children[0].range.start <= children.last().range.end,
    ensures
        construct(Opening::OpenHeading(level), r, children, b) == (NodeKind::Heading {
            level,
            content_range: Range {
                start: children[0].range.start,
                end: children.last().range.end,
            },
        }),
{
}

/// The address of a link or an image begins where its text ends.
pub proof fn addresses_follow_the_text(
    b: Seq<u8>,
    r: Range<usize>,
    children: Seq<Node>,
    url: Seq<char>,
)
    requires
        children.len() > 0,
        r.start <= children.last().range.end <= r.end,
    ensures
        construct(Opening::OpenLink(url), r, children, b) == (NodeKind::Link {
            destination: Range { start: children.last().range.end, end: r.end },
        }),
        construct(Opening::OpenImage(url), r, children, b) == (NodeKind::Image {
            destination: Range { start: children.last().range.end, end: r.end },
        }),
        address(Opening::OpenLink(url)) == url,
        address(Opening::OpenImage(url)) == url,
{
}

/// Lists, tables and quotes are what they were read as: a list with its first
/// number or without numbers, a row that is the head of its table or not.
pub proof fn containers_keep_their_kind(
    b: Seq<u8>,
    r: Range<usize>,
    children: Seq<Node>,
    first: u64,
)
    ensures
        construct(Opening::OpenList(Some(first)), r, children, b) == (NodeKind::List {
            kind: ListKind::Ordered { start: first },
        }),
        construct(Opening::OpenList(None), r, children, b) == (NodeKind::List {
            kind: ListKind::Unordered,
        }),
        construct(Opening::OpenQuote, r, children, b) is BlockQuote,
        construct(Opening::OpenTable, r, children, b) is Table,
        construct(Opening::OpenHead, r, children, b) == (NodeKind::TableRow { is_header: true }),
        construct(Opening::OpenRow, r, children, b) == (NodeKind::TableRow { is_header: false }),
        construct(Opening::OpenCell, r, children, b) is TableCell,
        construct(Opening::OpenParagraph, r, children, b) is Paragraph,
{
}

} // verus!
