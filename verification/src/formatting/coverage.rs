//! Islands cover the inline content of a document.

use core::ops::Range;

use vstd::prelude::*;

use crate::embed::EmbedBlock;
use crate::escapes::Span;
use crate::formatting::atoms::{
    inner_context, parts_in, parts_of, plain_part, text_parts, AtomEligibility, InlineContext,
    InlineFormat, Part,
};
use crate::formatting::islands::{
    areas_below, areas_in, areas_of, block_kind, first_start, group_island, groups_from,
    inline_groups, inline_kind, kept_parts, last_end, spans_between, Area,
};
use crate::syntax::{Node, NodeKind};

verus! {

// ---------------------------------------------------------------------------
// Where text is
// ---------------------------------------------------------------------------

/// Is the block among the nodes, or below them in quotes, lists, items, tables or
/// rows?
pub open spec fn block_in(nodes: Seq<Node>, block: Node) -> bool
    decreases nodes,
{
    exists|i: int|
        0 <= i < nodes.len() && {
            ||| #[trigger] nodes[i] == block
            ||| (nodes[i].kind is BlockQuote || nodes[i].kind is List || nodes[i].kind is ListItem
                || nodes[i].kind is Table || nodes[i].kind is TableRow) && block_in(
                nodes[i].children,
                block,
            )
        }
}

/// Is the text among the inline nodes, or below them in bold, italic, struck out
/// or linked text? `styled` tells whether an occurrence of the style is around it,
/// where `inherited` tells it of the nodes.
pub open spec fn text_in(
    nodes: Seq<Node>,
    leaf: Node,
    format: InlineFormat,
    inherited: bool,
    styled: bool,
) -> bool
    decreases nodes,
{
    exists|i: int| 0 <= i < nodes.len() && text_at(#[trigger] nodes[i], leaf, format, inherited, styled)
}

/// Is the text the inline node itself, or below it?
pub open spec fn text_at(
    node: Node,
    leaf: Node,
    format: InlineFormat,
    inherited: bool,
    styled: bool,
) -> bool
    decreases node,
{
    ||| node == leaf && leaf.kind is Text && styled == inherited
    ||| {
        &&& node.kind is Strong || node.kind is Emphasis || node.kind is Strikethrough
            || node.kind is Link
        &&& node.range.start <= leaf.range.start
        &&& leaf.range.end <= node.range.end
        &&& text_in(
            node.children,
            leaf,
            format,
            inherited || match format {
                InlineFormat::Strong => node.kind is Strong,
                InlineFormat::Emphasis => node.kind is Emphasis,
            },
            styled,
        )
    }
}

/// Is the byte part of no escape and of no character reference, wherever their
/// search begins and ends?
pub open spec fn is_literal(b: Seq<u8>, p: int) -> bool {
    forall|start: usize, end: usize, k: int|
        0 <= k < spans_between(b, start, end).len() ==> !((#[trigger] spans_between(
            b,
            start,
            end,
        )[k]).range.start <= p < spans_between(b, start, end)[k].range.end)
}

/// Is the byte one of the block's own content? That of a heading is without its
/// marks, that of a cell without its bars. A paragraph that is an embed or a
/// display formula has none.
pub open spec fn holds_content(block: Node, blocks: Seq<EmbedBlock>, p: int) -> bool {
    match block.kind {
        NodeKind::Paragraph => {
            &&& forall|k: int| 0 <= k < blocks.len() ==> (#[trigger] blocks[k]).range != block.range
            &&& !(block.children.len() == 1 && block.children[0].kind is DisplayMath)
        },
        NodeKind::Heading { content_range, .. } => content_range.start <= p < content_range.end,
        NodeKind::TableCell => block.range.start <= p < block.range.end,
        NodeKind::ListItem { .. } => true,
        _ => false,
    }
}

/// Does the island hold the bytes from `low` to `high`, and a piece of it the byte
/// `p` among them, as ordinary text that is, or is not, styled?
pub open spec fn has_text_at(area: Area, low: int, high: int, p: int, styled: bool) -> bool {
    &&& area.range.start <= low <= p < high <= area.range.end
    &&& exists|k: int|
        0 <= k < area.parts.len() && is_text_part(#[trigger] area.parts[k], p, styled)
}

pub open spec fn is_text_part(part: Part, p: int, styled: bool) -> bool {
    &&& part.range.start <= p < part.range.end
    &&& part.eligibility is Partial
    &&& part.styled == styled
}

// ---------------------------------------------------------------------------
// Pieces
// ---------------------------------------------------------------------------

spec fn some_part(parts: Seq<Part>, p: int, styled: bool) -> bool {
    exists|k: int| 0 <= k < parts.len() && is_text_part(#[trigger] parts[k], p, styled)
}

proof fn lemma_either_part(a: Seq<Part>, c: Seq<Part>, p: int, styled: bool)
    requires
        some_part(a, p, styled) || some_part(c, p, styled),
    ensures
        some_part(a + c, p, styled),
{
    if some_part(a, p, styled) {
        let k = choose|k: int| 0 <= k < a.len() && is_text_part(#[trigger] a[k], p, styled);
        assert((a + c)[k] == a[k]);
    } else {
        let k = choose|k: int| 0 <= k < c.len() && is_text_part(#[trigger] c[k], p, styled);
        assert((a + c)[a.len() + k] == c[k]);
    }
}

proof fn lemma_text_parts(
    range: Range<usize>,
    spans: Seq<Span>,
    k: int,
    start: usize,
    styled: bool,
    context: Seq<InlineContext>,
    p: int,
)
    requires
        0 <= k,
        start <= p < range.end,
        range.start <= p,
        forall|j: int|
            0 <= j < spans.len() ==> !((#[trigger] spans[j]).range.start <= p < spans[j].range.end),
    ensures
        some_part(text_parts(range, spans, k, start, styled, context), p, styled),
    decreases spans.len() - k,
{
    if k >= spans.len() {
        assert(is_text_part(plain_part(start, range.end, styled, context)[0], p, styled));
    } else {
        let span = spans[k].range;
        let overlapping = span.start < range.end && range.start < span.end;
        if !overlapping {
            lemma_text_parts(range, spans, k + 1, start, styled, context, p);
        } else if span.start < range.start {
            lemma_text_parts(
                range,
                spans,
                k + 1,
                crate::formatting::ranges::greater(start, span.end),
                styled,
                context,
                p,
            );
        } else {
            let head = plain_part(start, span.start, styled, context);
            let own = head.push(
                crate::formatting::atoms::part(span, styled, AtomEligibility::Atomic, context),
            );
            let rest = text_parts(range, spans, k + 1, span.end, styled, context);
            if p < span.start {
                assert(is_text_part(own[0], p, styled));
            } else {
                lemma_text_parts(range, spans, k + 1, span.end, styled, context, p);
            }
            lemma_either_part(own, rest, p, styled);
        }
    }
}

proof fn lemma_part_of(
    node: Node,
    leaf: Node,
    spans: Seq<Span>,
    inherited: bool,
    styled: bool,
    format: InlineFormat,
    context: Seq<InlineContext>,
    p: int,
)
    requires
        text_at(node, leaf, format, inherited, styled),
        leaf.range.start <= p < leaf.range.end,
        forall|j: int|
            0 <= j < spans.len() ==> !((#[trigger] spans[j]).range.start <= p < spans[j].range.end),
    ensures
        some_part(parts_of(node, spans, inherited, format, context), p, styled),
        node.range.start <= p < node.range.end,
        inline_kind(node.kind),
    decreases node,
{
    let inner = inner_context(node, format, context);
    if node == leaf && leaf.kind is Text && styled == inherited {
        lemma_text_parts(node.range, spans, 0, node.range.start, styled, inner, p);
    } else {
        let below = inherited || match format {
            InlineFormat::Strong => node.kind is Strong,
            InlineFormat::Emphasis => node.kind is Emphasis,
        };
        let i = choose|i: int|
            0 <= i < node.children.len() && text_at(
                #[trigger] node.children[i],
                leaf,
                format,
                below,
                styled,
            );
        assert(text_in(node.children, leaf, format, below, styled));
        assert(decreases_to!(node.children => node.children[i]));
        lemma_part_of(node.children[i], leaf, spans, below, styled, format, inner, p);
        lemma_part_in(node.children, spans, below, styled, format, inner, i, p);
    }
}

proof fn lemma_part_in(
    nodes: Seq<Node>,
    spans: Seq<Span>,
    inherited: bool,
    styled: bool,
    format: InlineFormat,
    context: Seq<InlineContext>,
    i: int,
    p: int,
)
    requires
        0 <= i < nodes.len(),
        some_part(parts_of(nodes[i], spans, inherited, format, context), p, styled),
    ensures
        some_part(parts_in(nodes, spans, inherited, format, context), p, styled),
    decreases nodes.len(),
{
    let rest = parts_in(nodes.drop_last(), spans, inherited, format, context);
    if i < nodes.len() - 1 {
        assert(nodes.drop_last()[i] == nodes[i]);
        lemma_part_in(nodes.drop_last(), spans, inherited, styled, format, context, i, p);
    }
    lemma_either_part(
        rest,
        parts_of(nodes.last(), spans, inherited, format, context),
        p,
        styled,
    );
}

proof fn lemma_kept(parts: Seq<Part>, clamp: Option<Range<usize>>, p: int, styled: bool)
    requires
        some_part(parts, p, styled),
        clamp matches Some(limits) ==> limits.start <= p < limits.end,
    ensures
        some_part(kept_parts(parts, clamp), p, styled),
    decreases parts.len(),
{
    let k = choose|k: int| 0 <= k < parts.len() && is_text_part(#[trigger] parts[k], p, styled);
    let rest = parts.drop_last();
    let kept = kept_parts(rest, clamp);
    let all = kept_parts(parts, clamp);
    if k < rest.len() {
        assert(is_text_part(rest[k], p, styled));
        lemma_kept(rest, clamp, p, styled);
        let m = choose|m: int| 0 <= m < kept.len() && is_text_part(#[trigger] kept[m], p, styled);
        assert(all[m] == kept[m]);
    } else {
        assert(all == kept.push(parts.last()));
        assert(all[kept.len() as int] == parts[k]);
    }
}

// ---------------------------------------------------------------------------
// Groups
// ---------------------------------------------------------------------------

proof fn lemma_extent(nodes: Seq<Node>, i: int)
    requires
        0 <= i < nodes.len(),
    ensures
        first_start(nodes) <= nodes[i].range.start,
        nodes[i].range.end <= last_end(nodes),
    decreases nodes.len(),
{
    if i < nodes.len() - 1 {
        assert(nodes.drop_last()[i] == nodes[i]);
        lemma_extent(nodes.drop_last(), i);
    }
}

/// Are `low` and `high` around the byte, in the leaf and in the clamp?
spec fn within(leaf: Node, clamp: Option<Range<usize>>, low: int, high: int, p: int) -> bool {
    &&& leaf.range.start <= low <= p < high <= leaf.range.end
    &&& clamp matches Some(limits) ==> limits.start <= low && high <= limits.end
}

spec fn some_area(areas: Seq<Area>, low: int, high: int, p: int, styled: bool) -> bool {
    exists|k: int| 0 <= k < areas.len() && has_text_at(#[trigger] areas[k], low, high, p, styled)
}

proof fn lemma_either_area(
    a: Seq<Area>,
    c: Seq<Area>,
    low: int,
    high: int,
    p: int,
    styled: bool,
)
    requires
        some_area(a, low, high, p, styled) || some_area(c, low, high, p, styled),
    ensures
        some_area(a + c, low, high, p, styled),
{
    if some_area(a, low, high, p, styled) {
        let k = choose|k: int| 0 <= k < a.len() && has_text_at(#[trigger] a[k], low, high, p, styled);
        assert((a + c)[k] == a[k]);
    } else {
        let k = choose|k: int| 0 <= k < c.len() && has_text_at(#[trigger] c[k], low, high, p, styled);
        assert((a + c)[a.len() + k] == c[k]);
    }
}

proof fn lemma_group(
    group: Seq<Node>,
    i: int,
    leaf: Node,
    b: Seq<u8>,
    clamp: Option<Range<usize>>,
    format: InlineFormat,
    styled: bool,
    low: int,
    high: int,
    p: int,
)
    requires
        0 <= i < group.len(),
        text_at(group[i], leaf, format, false, styled),
        leaf.range.start <= p < leaf.range.end,
        is_literal(b, p),
        within(leaf, clamp, low, high, p),
    ensures
        some_area(group_island(group, b, clamp, format), low, high, p, styled),
{
    let start = first_start(group);
    let end = last_end(group);
    let spans = spans_between(b, start, end);
    assert forall|j: int| 0 <= j < spans.len() implies !((#[trigger] spans[j]).range.start <= p
        < spans[j].range.end) by {
        assert(!((spans_between(b, start, end)[j]).range.start <= p < spans_between(
            b,
            start,
            end,
        )[j].range.end));
    }
    lemma_part_of(group[i], leaf, spans, false, styled, format, Seq::empty(), p);
    lemma_part_in(group, spans, false, styled, format, Seq::empty(), i, p);
    let parts = parts_in(group, spans, false, format, Seq::empty());
    lemma_kept(parts, clamp, p, styled);
    lemma_extent(group, i);
    let island = group_island(group, b, clamp, format);
    let kept = kept_parts(parts, clamp);
    let k = choose|k: int| 0 <= k < kept.len() && is_text_part(#[trigger] kept[k], p, styled);
    assert(group[i].range.start <= p < group[i].range.end);
    assert(start <= p < end);
    assert(island.len() == 1);
    assert(island[0].parts[k] == kept[k]);
    assert(has_text_at(island[0], low, high, p, styled));
}

proof fn lemma_groups(
    children: Seq<Node>,
    g: int,
    j: int,
    i: int,
    leaf: Node,
    b: Seq<u8>,
    clamp: Option<Range<usize>>,
    format: InlineFormat,
    styled: bool,
    low: int,
    high: int,
    p: int,
)
    requires
        0 <= g <= j <= children.len(),
        g <= i < children.len(),
        text_at(children[i], leaf, format, false, styled),
        inline_kind(children[i].kind),
        leaf.range.start <= p < leaf.range.end,
        is_literal(b, p),
        within(leaf, clamp, low, high, p),
    ensures
        some_area(groups_from(children, g, j, b, clamp, format), low, high, p, styled),
    decreases children.len() - j,
{
    if j >= children.len() {
        let group = children.subrange(g, children.len() as int);
        assert(group[i - g] == children[i]);
        lemma_group(group, i - g, leaf, b, clamp, format, styled, low, high, p);
    } else if inline_kind(children[j].kind) {
        lemma_groups(children, g, j + 1, i, leaf, b, clamp, format, styled, low, high, p);
    } else {
        let group = children.subrange(g, j);
        if i < j {
            assert(group[i - g] == children[i]);
            lemma_group(group, i - g, leaf, b, clamp, format, styled, low, high, p);
        } else {
            lemma_groups(children, j + 1, j + 1, i, leaf, b, clamp, format, styled, low, high, p);
        }
        lemma_either_area(
            group_island(group, b, clamp, format),
            groups_from(children, j + 1, j + 1, b, clamp, format),
            low,
            high,
            p,
            styled,
        );
    }
}

// ---------------------------------------------------------------------------
// Blocks
// ---------------------------------------------------------------------------

proof fn lemma_area_in(
    nodes: Seq<Node>,
    i: int,
    b: Seq<u8>,
    blocks: Seq<EmbedBlock>,
    format: InlineFormat,
    low: int,
    high: int,
    p: int,
    styled: bool,
)
    requires
        0 <= i < nodes.len(),
        some_area(areas_of(nodes[i], b, blocks, format), low, high, p, styled),
    ensures
        some_area(areas_in(nodes, b, blocks, format), low, high, p, styled),
    decreases nodes.len(),
{
    let rest = nodes.drop_last();
    if i < rest.len() {
        assert(rest[i] == nodes[i]);
        lemma_area_in(rest, i, b, blocks, format, low, high, p, styled);
    }
    lemma_either_area(
        areas_in(rest, b, blocks, format),
        areas_of(nodes.last(), b, blocks, format),
        low,
        high,
        p,
        styled,
    );
}

proof fn lemma_area_below(
    nodes: Seq<Node>,
    i: int,
    b: Seq<u8>,
    blocks: Seq<EmbedBlock>,
    format: InlineFormat,
    low: int,
    high: int,
    p: int,
    styled: bool,
)
    requires
        0 <= i < nodes.len(),
        block_kind(nodes[i].kind),
        some_area(areas_of(nodes[i], b, blocks, format), low, high, p, styled),
    ensures
        some_area(areas_below(nodes, b, blocks, format), low, high, p, styled),
    decreases nodes.len(),
{
    let rest = nodes.drop_last();
    let last = nodes.last();
    if i < rest.len() {
        assert(rest[i] == nodes[i]);
        lemma_area_below(rest, i, b, blocks, format, low, high, p, styled);
    }
    let own = if block_kind(last.kind) {
        areas_of(last, b, blocks, format)
    } else {
        areas_below(last.children, b, blocks, format)
    };
    lemma_either_area(areas_below(rest, b, blocks, format), own, low, high, p, styled);
}

proof fn lemma_block_in(
    nodes: Seq<Node>,
    block: Node,
    b: Seq<u8>,
    blocks: Seq<EmbedBlock>,
    format: InlineFormat,
    low: int,
    high: int,
    p: int,
    styled: bool,
)
    requires
        block_in(nodes, block),
        block_kind(block.kind),
        some_area(areas_of(block, b, blocks, format), low, high, p, styled),
    ensures
        some_area(areas_in(nodes, b, blocks, format), low, high, p, styled),
        some_area(areas_below(nodes, b, blocks, format), low, high, p, styled),
    decreases nodes,
{
    let i = choose|i: int|
        0 <= i < nodes.len() && {
            ||| #[trigger] nodes[i] == block
            ||| (nodes[i].kind is BlockQuote || nodes[i].kind is List || nodes[i].kind is ListItem
                || nodes[i].kind is Table || nodes[i].kind is TableRow) && block_in(
                nodes[i].children,
                block,
            )
        };
    let node = nodes[i];
    assert(decreases_to!(nodes => nodes[i]));
    if node != block {
        lemma_block_in(node.children, block, b, blocks, format, low, high, p, styled);
        if node.kind is ListItem {
            lemma_either_area(
                inline_groups(node.children, b, None, format),
                areas_below(node.children, b, blocks, format),
                low,
                high,
                p,
                styled,
            );
        }
    }
    lemma_area_in(nodes, i, b, blocks, format, low, high, p, styled);
    lemma_area_below(nodes, i, b, blocks, format, low, high, p, styled);
}

/// All text can be styled. Every byte of text that is no escape lies in an island,
/// in a piece that can be styled in part and that knows whether it is styled:
/// whatever bold, italic, struck out or linked text is around it, in whatever
/// paragraph, heading, cell or item, at whatever depth of quotes, lists and tables.
/// The island of a text of a paragraph or of an item holds the whole text.
pub proof fn islands_cover_the_text(
    tree: Seq<Node>,
    b: Seq<u8>,
    blocks: Seq<EmbedBlock>,
    format: InlineFormat,
    block: Node,
    leaf: Node,
    styled: bool,
    p: int,
)
    requires
        block_in(tree, block),
        holds_content(block, blocks, p),
        text_in(block.children, leaf, format, false, styled),
        leaf.range.start <= p < leaf.range.end,
        is_literal(b, p),
    ensures
        ({
            let areas = areas_in(tree, b, blocks, format);
            &&& exists|k: int|
                0 <= k < areas.len() && has_text_at(#[trigger] areas[k], p, p + 1, p, styled)
            &&& block.kind is Paragraph || block.kind is ListItem ==> exists|k: int|
                0 <= k < areas.len() && has_text_at(
                    #[trigger] areas[k],
                    leaf.range.start as int,
                    leaf.range.end as int,
                    p,
                    styled,
                )
        }),
{
    lemma_covered(tree, b, blocks, format, block, leaf, styled, p, p + 1, p);
    if block.kind is Paragraph || block.kind is ListItem {
        lemma_covered(
            tree,
            b,
            blocks,
            format,
            block,
            leaf,
            styled,
            leaf.range.start as int,
            leaf.range.end as int,
            p,
        );
    }
}

proof fn lemma_covered(
    tree: Seq<Node>,
    b: Seq<u8>,
    blocks: Seq<EmbedBlock>,
    format: InlineFormat,
    block: Node,
    leaf: Node,
    styled: bool,
    low: int,
    high: int,
    p: int,
)
    requires
        block_in(tree, block),
        holds_content(block, blocks, p),
        text_in(block.children, leaf, format, false, styled),
        leaf.range.start <= low <= p < high <= leaf.range.end,
        low == p && high == p + 1 || block.kind is Paragraph || block.kind is ListItem,
        is_literal(b, p),
    ensures
        some_area(areas_in(tree, b, blocks, format), low, high, p, styled),
{
    let i = choose|i: int|
        0 <= i < block.children.len() && text_at(
            #[trigger] block.children[i],
            leaf,
            format,
            false,
            styled,
        );
    assert(text_in(block.children, leaf, format, false, styled));
    let none: Seq<Span> = Seq::empty();
    lemma_part_of(block.children[i], leaf, none, false, styled, format, Seq::empty(), p);
    let clamp = match block.kind {
        NodeKind::Heading { content_range, .. } => Some(content_range),
        NodeKind::TableCell => Some(block.range),
        _ => None,
    };
    lemma_groups(block.children, 0, 0, i, leaf, b, clamp, format, styled, low, high, p);
    let own = inline_groups(block.children, b, clamp, format);
    if !(block.kind is TableCell) {
        lemma_either_area(
            own,
            areas_below(block.children, b, blocks, format),
            low,
            high,
            p,
            styled,
        );
    }
    assert(some_area(areas_of(block, b, blocks, format), low, high, p, styled));
    lemma_block_in(tree, block, b, blocks, format, low, high, p, styled);
}

} // verus!
