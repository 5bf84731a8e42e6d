//! How blocks stand to each other and to the cursor.

use core::ops::Range;

use vstd::prelude::*;

use crate::display::block::{BlockKind, Container};
use crate::display::markers::holder_from;
use crate::formatting::ranges::{greater, lesser, max_offset, min_offset};
use crate::state::Selection;

verus! {

// ---------------------------------------------------------------------------
// Containers of neighbors
// ---------------------------------------------------------------------------

/// Are the containers alike, wherever the cursor is?
pub open spec fn alike(a: Container, b: Container) -> bool {
    match (a, b) {
        (Container::BlockQuote { .. }, Container::BlockQuote { .. }) => true,
        (
            Container::ListItem { kind: ka, marker_byte_len: ma, list_max_marker_text: la, .. },
            Container::ListItem { kind: kb, marker_byte_len: mb, list_max_marker_text: lb, .. },
        ) => ka == kb && ma == mb && la@ == lb@,
        _ => false,
    }
}

/// Are the first `n` containers alike?
pub open spec fn alike_up_to(a: Seq<Container>, b: Seq<Container>, n: int) -> bool {
    forall|i: int| 0 <= i < n ==> alike(#[trigger] a[i], b[i])
}

/// Are the chains of containers alike?
pub open spec fn chains_alike(a: Seq<Container>, b: Seq<Container>) -> bool {
    a.len() == b.len() && alike_up_to(a, b, a.len() as int)
}

/// Is the container at `level`, with all around it, one of the neighbor too?
pub open spec fn shared(level: int, a: Seq<Container>, b: Option<Seq<Container>>) -> bool {
    match b {
        Some(b) => level < a.len() && level < b.len() && alike_up_to(a, b, level + 1),
        None => false,
    }
}

/// Are the containers alike, wherever the cursor is?
pub fn containers_match_structurally(a: &Container, b: &Container) -> (found: bool)
    ensures
        found == alike(*a, *b),
{
    match (a, b) {
        (Container::BlockQuote { .. }, Container::BlockQuote { .. }) => true,
        (
            Container::ListItem { kind: ka, marker_byte_len: ma, list_max_marker_text: la, .. },
            Container::ListItem { kind: kb, marker_byte_len: mb, list_max_marker_text: lb, .. },
        ) => *ka == *kb && *ma == *mb && *la == *lb,
        _ => false,
    }
}

fn match_up_to(a: &Vec<Container>, b: &Vec<Container>, n: usize) -> (found: bool)
    requires
        n <= a@.len(),
        n <= b@.len(),
    ensures
        found == alike_up_to(a@, b@, n as int),
{
    let mut i: usize = 0;
    while i < n
        invariant
            i <= n,
            n <= a@.len(),
            n <= b@.len(),
            alike_up_to(a@, b@, i as int),
        decreases n - i,
    {
        if !containers_match_structurally(&a[i], &b[i]) {
            assert(!alike(a@[i as int], b@[i as int]));
            return false;
        }
        i = i + 1;
    }
    true
}

/// Are the chains of containers alike?
pub fn chains_match_structurally(a: &Vec<Container>, b: &Vec<Container>) -> (found: bool)
    ensures
        found == chains_alike(a@, b@),
{
    a.len() == b.len() && match_up_to(a, b, a.len())
}

/// Is there a boundary between containers on the side of a neighbor? There is
/// none at the ends of the document.
pub fn has_container_boundary(containers: &Vec<Container>, neighbor: Option<&Vec<Container>>) -> (
    found: bool)
    ensures
        found == match neighbor {
            Some(other) => !chains_alike(other@, containers@),
            None => false,
        },
{
    match neighbor {
        Some(other) => !chains_match_structurally(other, containers),
        None => false,
    }
}

/// Is the container at `level`, with all around it, one of the neighbor too? Its
/// bar then goes on beyond the block.
pub fn level_shared_with_neighbor(
    level: usize,
    containers: &Vec<Container>,
    neighbor: Option<&Vec<Container>>,
) -> (found: bool)
    ensures
        found == shared(
            level as int,
            containers@,
            match neighbor {
                Some(other) => Some(other@),
                None => None,
            },
        ),
{
    match neighbor {
        Some(other) => level < containers.len() && level < other.len() && match_up_to(
            containers,
            other,
            level + 1,
        ),
        None => false,
    }
}

/// How far blocks are kept apart.
#[derive(Debug, Clone, Copy, PartialEq, Eq, Structural)]
pub enum Spacing {
    MajorHeading,
    MinorHeading,
    ListItem,
    Paragraph,
}

/// Is one of the containers a list item?
pub open spec fn in_list_item(containers: Seq<Container>) -> bool {
    exists|i: int| 0 <= i < containers.len() && #[trigger] containers[i] is ListItem
}

pub open spec fn spacing(kind: BlockKind, containers: Seq<Container>) -> Spacing {
    match kind {
        BlockKind::Heading { level } => if level <= 2 {
            Spacing::MajorHeading
        } else {
            Spacing::MinorHeading
        },
        _ => if in_list_item(containers) {
            Spacing::ListItem
        } else {
            Spacing::Paragraph
        },
    }
}

/// How far a block is kept apart from its neighbors: those of a list are kept
/// closer together.
pub fn spacing_for_block(kind: &BlockKind, containers: &Vec<Container>) -> (space: Spacing)
    ensures
        space == spacing(*kind, containers@),
{
    if let BlockKind::Heading { level } = kind {
        return if *level <= 2 {
            Spacing::MajorHeading
        } else {
            Spacing::MinorHeading
        };
    }
    let mut i: usize = 0;
    while i < containers.len()
        invariant
            i <= containers@.len(),
            !(kind is Heading),
            forall|j: int| 0 <= j < i ==> !(#[trigger] containers@[j] is ListItem),
        decreases containers@.len() - i,
    {
        if let Container::ListItem { .. } = &containers[i] {
            assert(containers@[i as int] is ListItem);
            return Spacing::ListItem;
        }
        i = i + 1;
    }
    Spacing::Paragraph
}

// ---------------------------------------------------------------------------
// The cursor
// ---------------------------------------------------------------------------

/// Is the cursor drawn in the block? At the end of a block it is drawn in the
/// next one where that begins there.
pub open spec fn claims(cursor: usize, start: usize, end: usize, next_start: Option<usize>) -> bool {
    ||| start <= cursor < end
    ||| cursor == end && next_start != Some(cursor)
}

/// Is the cursor drawn in the block?
pub fn block_claims_cursor(cursor: usize, start: usize, end: usize, next_start: Option<usize>) -> (
    found: bool)
    ensures
        found == claims(cursor, start, end, next_start),
{
    let strict = cursor >= start && cursor < end;
    let next_claims = match next_start {
        Some(s) => s == cursor,
        None => false,
    };
    strict || (cursor == end && !next_claims)
}

/// The first line from `i` on that the cursor stands at the end of: the end of
/// the block, but in the last block any end.
pub open spec fn first_at_end(
    lines: Seq<Range<usize>>,
    cursor: usize,
    block_end: usize,
    is_last: bool,
    i: int,
) -> Option<usize>
    decreases lines.len() - i,
{
    if i >= lines.len() {
        None
    } else if cursor == lines[i].end && (is_last || lines[i].end == block_end) {
        Some(i as usize)
    } else {
        first_at_end(lines, cursor, block_end, is_last, i + 1)
    }
}

/// The line that the caret is drawn on: the first that holds the cursor before
/// its end, else the first that the cursor stands at the end of.
pub open spec fn caret_line_of(
    lines: Seq<Range<usize>>,
    cursor: usize,
    block: Range<usize>,
    next_start: Option<usize>,
    is_last: bool,
) -> Option<usize> {
    if !claims(cursor, block.start, block.end, next_start) {
        None
    } else {
        match holder_from(lines, cursor, 0) {
            Some(line) => Some(line),
            None => first_at_end(lines, cursor, block.end, is_last, 0),
        }
    }
}

/// The line of a block that the caret is drawn on.
pub fn caret_line(
    lines: &Vec<Range<usize>>,
    cursor: usize,
    block: &Range<usize>,
    next_start: Option<usize>,
    is_last: bool,
) -> (line: Option<usize>)
    ensures
        line == caret_line_of(lines@, cursor, *block, next_start, is_last),
{
    if !block_claims_cursor(cursor, block.start, block.end, next_start) {
        return None;
    }
    let mut fallback: Option<usize> = None;
    let mut i: usize = 0;
    while i < lines.len()
        invariant
            i <= lines@.len(),
            holder_from(lines@, cursor, 0) == holder_from(lines@, cursor, i as int),
            match fallback {
                Some(line) => first_at_end(lines@, cursor, block.end, is_last, 0) == Some(line),
                None => first_at_end(lines@, cursor, block.end, is_last, 0) == first_at_end(
                    lines@,
                    cursor,
                    block.end,
                    is_last,
                    i as int,
                ),
            },
            claims(cursor, block.start, block.end, next_start),
        decreases lines@.len() - i,
    {
        let line = &lines[i];
        if cursor >= line.start && cursor < line.end {
            return Some(i);
        }
        if fallback.is_none() && cursor == line.end && (is_last || line.end == block.end) {
            fallback = Some(i);
        }
        i = i + 1;
    }
    fallback
}

// ---------------------------------------------------------------------------
// Washes
// ---------------------------------------------------------------------------

/// A part of a line that a wash is drawn over.
#[derive(Debug, Clone, Copy, PartialEq, Eq, Structural)]
pub struct Wash {
    pub line: usize,
    pub start: usize,
    pub end: usize,
    /// Does the wash reach the end of the line? It is then drawn a bit further.
    pub to_line_end: bool,
}

/// The wash of a range over a line.
pub open spec fn wash_of(lines: Seq<Range<usize>>, range: Range<usize>, i: int) -> Seq<Wash> {
    let start = greater(range.start, lines[i].start);
    let end = lesser(range.end, lines[i].end);
    if end > start {
        seq![Wash { line: i as usize, start, end, to_line_end: end == lines[i].end }]
    } else {
        Seq::empty()
    }
}

/// The washes of the first `k` ranges over a line.
pub open spec fn line_washes(
    lines: Seq<Range<usize>>,
    ranges: Seq<Range<usize>>,
    i: int,
    k: int,
) -> Seq<Wash>
    decreases k,
{
    if k <= 0 {
        Seq::empty()
    } else {
        line_washes(lines, ranges, i, k - 1) + wash_of(lines, ranges[k - 1], i)
    }
}

/// The washes of the ranges over the first `i` lines, line by line.
pub open spec fn washes(lines: Seq<Range<usize>>, ranges: Seq<Range<usize>>, i: int) -> Seq<Wash>
    decreases i,
{
    if i <= 0 {
        Seq::empty()
    } else {
        washes(lines, ranges, i - 1) + line_washes(lines, ranges, i - 1, ranges.len() as int)
    }
}

/// The washes of the ranges over the lines of a block.
pub fn highlight_washes(lines: &Vec<Range<usize>>, ranges: &Vec<Range<usize>>) -> (out: Vec<Wash>)
    ensures
        out@ == washes(lines@, ranges@, lines@.len() as int),
{
    let mut out: Vec<Wash> = Vec::new();
    let mut i: usize = 0;
    while i < lines.len()
        invariant
            i <= lines@.len(),
            out@ == washes(lines@, ranges@, i as int),
        decreases lines@.len() - i,
    {
        let mut k: usize = 0;
        assert(out@ + Seq::<Wash>::empty() =~= out@);
        while k < ranges.len()
            invariant
                i < lines@.len(),
                k <= ranges@.len(),
                out@ == washes(lines@, ranges@, i as int) + line_washes(
                    lines@,
                    ranges@,
                    i as int,
                    k as int,
                ),
            decreases ranges@.len() - k,
        {
            let ghost before = out@;
            let start: usize = max_offset(ranges[k].start, lines[i].start);
            let end: usize = min_offset(ranges[k].end, lines[i].end);
            if end > start {
                out.push(Wash { line: i, start, end, to_line_end: end == lines[i].end });
            }
            assert(out@ =~= before + wash_of(lines@, ranges@[k as int], i as int));
            assert(out@ =~= washes(lines@, ranges@, i as int) + line_washes(
                lines@,
                ranges@,
                i as int,
                k + 1,
            ));
            k = k + 1;
        }
        i = i + 1;
    }
    out
}

/// The washes of the selection over the lines of a block; a collapsed selection
/// has none.
pub fn selection_washes(lines: &Vec<Range<usize>>, selection: &Selection) -> (out: Vec<Wash>)
    ensures
        out@ == if selection.low() != selection.high() {
            washes(
                lines@,
                seq![Range { start: selection.low(), end: selection.high() }],
                lines@.len() as int,
            )
        } else {
            Seq::empty()
        },
{
    let range = selection.selection_range();
    if range.start == range.end {
        return Vec::new();
    }
    let mut ranges: Vec<Range<usize>> = Vec::new();
    ranges.push(range);
    assert(ranges@ =~= seq![Range { start: selection.low(), end: selection.high() }]);
    highlight_washes(lines, &ranges)
}

/// Is an embed selected as a whole?
pub fn embed_is_selected(selection: &Selection, block: &Range<usize>) -> (selected: bool)
    ensures
        selected == (selection.low() != selection.high() && selection.low() <= block.start
            && selection.high() >= block.end),
{
    let range = selection.selection_range();
    range.start != range.end && range.start <= block.start && range.end >= block.end
}

/// A place on a wrapped line: the row, and how far to the right.
#[derive(Debug, Clone, Copy, PartialEq, Eq, Structural)]
pub struct RowPoint {
    pub row: usize,
    pub x: u64,
}

/// A part of a row.
#[derive(Debug, Clone, Copy, PartialEq, Eq, Structural)]
pub struct RowSpan {
    pub row: usize,
    pub left: u64,
    pub right: u64,
}

/// The whole rows `[from, to)`.
pub open spec fn whole_rows(from: int, to: int, width: u64) -> Seq<RowSpan> {
    Seq::new(
        if from < to {
            (to - from) as nat
        } else {
            0
        },
        |i: int| RowSpan { row: (from + i) as usize, left: 0, right: width },
    )
}

/// The parts of the rows of a line between two places: to the right of the first
/// place, the rows in between, and to the left of the second place.
pub open spec fn spans_between(
    start: RowPoint,
    end: RowPoint,
    rows: usize,
    width: u64,
    pad: u64,
) -> Seq<RowSpan> {
    let last = (end.x + pad) as u64;
    if start.row == end.row {
        seq![RowSpan { row: start.row, left: start.x, right: last }]
    } else {
        seq![RowSpan { row: start.row, left: start.x, right: width }] + whole_rows(
            start.row + 1,
            lesser(end.row, rows) as int,
            width,
        ) + seq![RowSpan { row: end.row, left: 0, right: last }]
    }
}

/// The parts of the rows of a wrapped line that a wash between two places is
/// drawn over; `pad` is how much further it is drawn.
pub fn wash_spans(start: RowPoint, end: RowPoint, rows: usize, width: u64, pad: u64) -> (out: Vec<
    RowSpan,
>)
    requires
        end.x + pad <= u64::MAX,
    ensures
        out@ == spans_between(start, end, rows, width, pad),
{
    let mut out: Vec<RowSpan> = Vec::new();
    if start.row == end.row {
        out.push(RowSpan { row: start.row, left: start.x, right: end.x + pad });
        assert(out@ =~= spans_between(start, end, rows, width, pad));
        return out;
    }
    let first = RowSpan { row: start.row, left: start.x, right: width };
    out.push(first);
    let to: usize = min_offset(end.row, rows);
    if start.row < to {
        let mut row: usize = start.row + 1;
        while row < to
            invariant
                start.row < row <= to,
                out@ =~= seq![first] + whole_rows(start.row + 1, row as int, width),
            decreases to - row,
        {
            out.push(RowSpan { row, left: 0, right: width });
            row = row + 1;
        }
    }
    out.push(RowSpan { row: end.row, left: 0, right: end.x + pad });
    assert(out@ =~= spans_between(start, end, rows, width, pad));
    out
}

// ---------------------------------------------------------------------------
// Rows and scrolling
// ---------------------------------------------------------------------------

/// The row that the caret is drawn on at a place where a line is wrapped: `upper`
/// is the row that ends there, and `next_start` the first byte of the row below.
/// A caret that leans downstream is drawn on the lower row.
pub fn caret_row(upper: usize, last: usize, next_start: usize, shown: usize, downstream: bool) -> (
    row: usize)
    ensures
        row == if downstream && upper < last && next_start == shown {
            upper + 1
        } else {
            upper as int
        },
{
    if downstream && upper < last && next_start == shown {
        upper + 1
    } else {
        upper
    }
}

/// How far a block can be scrolled.
pub open spec fn scroll_limit(content: u64, visible: u64) -> u64 {
    if content > visible {
        (content - visible) as u64
    } else {
        0
    }
}

/// The scroll position of a block, no further than it can be scrolled.
pub fn clamped_scroll(position: u64, content: u64, visible: u64) -> (clamped: u64)
    ensures
        clamped == if position <= scroll_limit(content, visible) {
            position
        } else {
            scroll_limit(content, visible)
        },
{
    let limit: u64 = if content > visible {
        content - visible
    } else {
        0
    };
    if position <= limit {
        position
    } else {
        limit
    }
}

/// The scroll position after the wheel: the content follows the fingers.
pub fn scrolled(position: u64, delta: i64, limit: u64) -> (next: u64)
    ensures
        next == if position - delta < 0 {
            0
        } else if position - delta > limit {
            limit as int
        } else {
            position - delta
        },
{
    let moved: i128 = position as i128 - delta as i128;
    if moved < 0 {
        0
    } else if moved > limit as i128 {
        limit
    } else {
        moved as u64
    }
}

/// The height of a block: while a formula or an image is edited, that of its
/// drawing at least, so that what is below does not move.
pub fn reserved_height(content: u64, drawing: Option<u64>, line_height: u64, padding: u64) -> (
    height: u64)
    requires
        drawing matches Some(h) ==> h + 2 * padding <= u64::MAX,
        line_height + 2 * padding <= u64::MAX,
    ensures
        height == match drawing {
            Some(h) => {
                let least = 2 * padding + if h > line_height {
                    h
                } else {
                    line_height
                };
                if content < least {
                    least
                } else {
                    content as int
                }
            },
            None => content as int,
        },
{
    match drawing {
        Some(h) => {
            let tallest: u64 = if h > line_height {
                h
            } else {
                line_height
            };
            let least: u64 = padding + padding + tallest;
            if content < least {
                least
            } else {
                content
            }
        },
        None => content,
    }
}

// ---------------------------------------------------------------------------
// Laws
// ---------------------------------------------------------------------------

/// Whether containers are alike does not depend on the cursor.
pub proof fn likeness_ignores_the_cursor(
    kind: crate::display::block::ListItemKind,
    marker_byte_len: usize,
    list_max_marker_text: String,
    here: bool,
    there: bool,
)
    ensures
        alike(
            Container::BlockQuote { cursor_inside: here },
            Container::BlockQuote { cursor_inside: there },
        ),
        alike(
            Container::ListItem {
                kind,
                cursor_inside: here,
                marker_byte_len,
                list_max_marker_text,
            },
            Container::ListItem {
                kind,
                cursor_inside: there,
                marker_byte_len,
                list_max_marker_text,
            },
        ),
{
}

/// Whether neighbors have a boundary between them does not depend on the side it
/// is seen from.
pub proof fn boundaries_are_mutual(a: Seq<Container>, b: Seq<Container>)
    ensures
        chains_alike(a, b) == chains_alike(b, a),
{
    if chains_alike(a, b) {
        assert forall|i: int| 0 <= i < b.len() implies alike(#[trigger] b[i], a[i]) by {
            assert(alike(a[i], b[i]));
        }
    }
    if chains_alike(b, a) {
        assert forall|i: int| 0 <= i < a.len() implies alike(#[trigger] a[i], b[i]) by {
            assert(alike(b[i], a[i]));
        }
    }
}

/// Are the blocks one after the other, none of them empty but the last?
pub open spec fn blocks_in_order(blocks: Seq<Range<usize>>) -> bool {
    &&& forall|i: int| 0 <= i < blocks.len() ==> (#[trigger] blocks[i]).start <= blocks[i].end
    &&& forall|i: int|
        0 <= i < blocks.len() - 1 ==> (#[trigger] blocks[i]).start < blocks[i].end
    &&& forall|i: int, j: int|
        0 <= i < j < blocks.len() ==> (#[trigger] blocks[i]).end <= (#[trigger] blocks[j]).start
}

/// Where the block after `i` begins.
pub open spec fn start_after(blocks: Seq<Range<usize>>, i: int) -> Option<usize> {
    if i + 1 < blocks.len() {
        Some(blocks[i + 1].start)
    } else {
        None
    }
}

pub open spec fn block_claims(blocks: Seq<Range<usize>>, i: int, cursor: usize) -> bool {
    claims(cursor, blocks[i].start, blocks[i].end, start_after(blocks, i))
}

/// No two blocks draw the cursor.
pub proof fn one_block_draws_the_cursor(blocks: Seq<Range<usize>>, cursor: usize, i: int, j: int)
    requires
        blocks_in_order(blocks),
        0 <= i < j < blocks.len(),
    ensures
        !(block_claims(blocks, i, cursor) && block_claims(blocks, j, cursor)),
{
    assert(blocks[i].end <= blocks[j].start);
    assert(blocks[i].end <= blocks[i + 1].start);
    if i + 1 < j {
        assert(blocks[i + 1].end <= blocks[j].start);
    }
    if block_claims(blocks, i, cursor) && block_claims(blocks, j, cursor) {
        assert(cursor == blocks[i].end);
        assert(cursor >= blocks[j].start);
        if i + 1 < j {
            assert(blocks[i + 1].start < blocks[i + 1].end);
        }
        assert(false);
    }
}

/// A block draws the cursor everywhere in it; at its end, unless the next block
/// begins there.
pub proof fn blocks_draw_their_cursors(blocks: Seq<Range<usize>>, cursor: usize, i: int)
    requires
        blocks_in_order(blocks),
        0 <= i < blocks.len(),
        blocks[i].start <= cursor <= blocks[i].end,
    ensures
        block_claims(blocks, i, cursor) || (i + 1 < blocks.len() && block_claims(
            blocks,
            i + 1,
            cursor,
        )),
{
}

/// A wash lies on its line and in one of the ranges.
pub proof fn washes_lie_on_their_lines(
    lines: Seq<Range<usize>>,
    ranges: Seq<Range<usize>>,
    i: int,
    w: int,
)
    requires
        0 <= i <= lines.len(),
        lines.len() <= usize::MAX,
        0 <= w < washes(lines, ranges, i).len(),
    ensures
        ({
            let wash = washes(lines, ranges, i)[w];
            &&& wash.line < i
            &&& lines[wash.line as int].start <= wash.start < wash.end <= lines[wash.line as int].end
            &&& exists|k: int|
                0 <= k < ranges.len() && (#[trigger] ranges[k]).start <= wash.start && wash.end
                    <= ranges[k].end
        }),
    decreases i,
{
    let before = washes(lines, ranges, i - 1);
    if w < before.len() {
        washes_lie_on_their_lines(lines, ranges, i - 1, w);
        assert(washes(lines, ranges, i)[w] == before[w]);
    } else {
        lemma_line_washes(lines, ranges, i - 1, ranges.len() as int, w - before.len());
    }
}

proof fn lemma_line_washes(
    lines: Seq<Range<usize>>,
    ranges: Seq<Range<usize>>,
    i: int,
    k: int,
    w: int,
)
    requires
        0 <= i < lines.len(),
        lines.len() <= usize::MAX,
        0 <= k <= ranges.len(),
        0 <= w < line_washes(lines, ranges, i, k).len(),
    ensures
        ({
            let wash = line_washes(lines, ranges, i, k)[w];
            &&& wash.line == i
            &&& lines[i].start <= wash.start < wash.end <= lines[i].end
            &&& exists|m: int|
                0 <= m < ranges.len() && (#[trigger] ranges[m]).start <= wash.start && wash.end
                    <= ranges[m].end
        }),
    decreases k,
{
    let before = line_washes(lines, ranges, i, k - 1);
    if w < before.len() {
        lemma_line_washes(lines, ranges, i, k - 1, w);
    } else {
        assert(line_washes(lines, ranges, i, k)[w] == wash_of(lines, ranges[k - 1], i)[w
            - before.len()]);
        assert(ranges[k - 1].start <= line_washes(lines, ranges, i, k)[w].start);
    }
}

} // verus!
