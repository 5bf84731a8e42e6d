//! Toggling the style of a word in a quote.

use core::ops::Range;

use vstd::prelude::*;

use crate::analysis::breaks::{nothing_between, single_breaks_stay};
use crate::analysis::canonical::{lists_in_order_stay, listless};
use crate::analysis::edits::{edit, Edit};
use crate::analysis::fences::fences_in;
use crate::analysis::lists::list_ranges;
use crate::embed::{blocks_in, blocks_of, EmbedBlock};
use crate::escapes::{spans_from, Span};
use crate::formatting::atoms::{
    formats_in,
    formats_of,
    part,
    parts_in,
    text_parts,
    AtomEligibility,
    FormatNode,
    InlineContext,
    InlineFormat,
    Part,
};
use crate::formatting::fingerprint::{
    block_signs,
    embed_signs,
    literal_ranges,
    protected_signs,
    resolved_signs,
    sole_image,
    Sign,
};
use crate::formatting::islands::{
    areas_in, areas_of, areas_below, first_start, group_island, groups_from, inline_groups,
    kept_parts, last_end, spans_between, Area,
};
use crate::formatting::plan::{
    expectations_in,
    no_styles,
    part_expectations,
    part_styles,
    reach_of,
    with_style,
    Reach,
    StyleExpectation,
};
use crate::formatting::ranges::merged;
use crate::formatting::rewrite::{moved, moved_from};
use crate::formatting::selected::{is_plain, is_stretch, plain_text_gets_delimiters};
use crate::formatting::styles::{char_keeps, met, nodes_keep, range_keeps, styles_in, styles_of};
use crate::formatting::targets::{removes, targets};
use crate::formatting::toggle::{
    ends,
    glued_at,
    glued_block,
    glued_bullet,
    math_ranges,
    plan,
    settled,
    soft_at,
    soft_breaks,
    target_expectations,
    toggled,
};
use crate::parser::syntax_tree;
use crate::references::spans_begin_with_their_sign;
use crate::state::{Document, Selection};
use crate::strings::{byte_offset, lemma_bytes_concat};
use crate::syntax::Node;
use crate::text::bytes_of;
use crate::words::{index_at, lemma_index_at, whitespace};

verus! {

/// Is the tree one paragraph inside of `depth` quotes, from `low` to `high`, with
/// these children?
pub open spec fn is_quoted(
    nodes: Seq<Node>,
    depth: nat,
    low: int,
    high: int,
    children: Seq<Node>,
) -> bool
    decreases depth,
{
    &&& nodes.len() == 1
    &&& nodes[0].range.start <= low
    &&& high <= nodes[0].range.end
    &&& if depth == 0 {
        nodes[0].kind is Paragraph && nodes[0].range.start == low && nodes[0].children == children
    } else {
        nodes[0].kind is BlockQuote && is_quoted(
            nodes[0].children,
            (depth - 1) as nat,
            low,
            high,
            children,
        )
    }
}

/// Is the node text from `low` to `high`?
pub open spec fn is_text(node: Node, low: int, high: int) -> bool {
    node.kind is Text && node.range.start == low && node.range.end == high && node.children.len()
        == 0
}

/// Is the node an occurrence of the style from `low` to `high`, with delimiters of
/// `width` bytes around one text?
pub open spec fn is_styled_text(
    node: Node,
    format: InlineFormat,
    low: int,
    high: int,
    width: int,
) -> bool {
    &&& match format {
        InlineFormat::Strong => node.kind is Strong,
        InlineFormat::Emphasis => node.kind is Emphasis,
    }
    &&& node.range.start == low
    &&& node.range.end == high
    &&& node.children.len() == 1
    &&& is_text(node.children[0], low + width, high - width)
}

/// Are the nodes the text from `low` to `high` with the style from `s` to `e`, once
/// the delimiters, `width` bytes each, are in?
pub open spec fn is_restyled(
    nodes: Seq<Node>,
    format: InlineFormat,
    low: int,
    s: int,
    e: int,
    high: int,
    width: int,
) -> bool {
    let head = if low < s { 1int } else { 0int };
    let tail = if e < high { 1int } else { 0int };
    &&& nodes.len() == head + 1 + tail
    &&& low < s ==> is_text(nodes[0], low, s)
    &&& is_styled_text(nodes[head], format, s, e + 2 * width, width)
    &&& e < high ==> is_text(nodes[head + 1], e + 2 * width, high + 2 * width)
}

/// Is the text one line without escapes and references?
pub open spec fn is_plain_line(text: Seq<char>) -> bool {
    forall|p: int|
        0 <= p < bytes_of(text).len() ==> (#[trigger] bytes_of(text)[p]) as char != '\n'
            && bytes_of(text)[p] as char != '\\' && bytes_of(text)[p] as char != '&'
}

// ---------------------------------------------------------------------------
// The tree before
// ---------------------------------------------------------------------------

proof fn lemma_no_spans(b: Seq<u8>, start: int, limit: int, verbatim: Seq<Range<usize>>)
    requires
        0 <= start,
        limit <= b.len() <= usize::MAX,
        forall|p: int|
            0 <= p < b.len() ==> (#[trigger] b[p]) as char != '\\' && b[p] as char != '&',
    ensures
        spans_from(b, start, limit, verbatim) == Seq::<Span>::empty(),
{
    let spans = spans_from(b, start, limit, verbatim);
    if spans.len() > 0 {
        spans_begin_with_their_sign(b, start, limit, verbatim, 0);
        crate::escapes::scanned_spans_are_in_order(b, start, limit, verbatim);
        let p = spans[0].range.start as int;
        assert(0 <= p < b.len());
        assert(b[p] as char != '\\' && b[p] as char != '&');
    }
    assert(spans =~= Seq::empty());
}

proof fn lemma_area(
    nodes: Seq<Node>,
    depth: nat,
    low: int,
    high: int,
    leaf: Node,
    b: Seq<u8>,
    format: InlineFormat,
)
    requires
        is_quoted(nodes, depth, low, high, seq![leaf]),
        is_text(leaf, low, high),
        0 <= low < high <= b.len() <= usize::MAX,
        forall|p: int|
            0 <= p < b.len() ==> (#[trigger] b[p]) as char != '\\' && b[p] as char != '&',
    ensures
        areas_in(nodes, b, Seq::empty(), format) == seq![
            Area {
                range: Range { start: low as usize, end: high as usize },
                parts: seq![
                    part(
                        Range { start: low as usize, end: high as usize },
                        false,
                        AtomEligibility::Partial,
                        Seq::empty(),
                    ),
                ],
                formats: Seq::empty(),
            },
        ],
    decreases depth,
{
    let none: Seq<EmbedBlock> = Seq::empty();
    let range = Range { start: low as usize, end: high as usize };
    let node = nodes[0];
    assert(nodes.drop_last() =~= Seq::empty());
    assert(nodes.last() == node);
    let before: Seq<Node> = Seq::empty();
    assert(areas_in(before, b, none, format) == Seq::<Area>::empty());
    assert(areas_in(nodes, b, none, format) =~= areas_of(node, b, none, format));
    if depth == 0 {
        let children = seq![leaf];
        assert(node.children == children);
        assert(children.subrange(0, 1) =~= children);
        reveal_with_fuel(groups_from, 3);
        reveal_with_fuel(first_start, 2);
        reveal_with_fuel(last_end, 2);
        assert(children.drop_last() =~= Seq::empty());
        assert(first_start(children) == low as usize);
        assert(last_end(children) == high as usize);
        lemma_no_spans(b, low, high, Seq::empty());
        let spans = spans_between(b, low as usize, high as usize);
        assert(spans == Seq::<Span>::empty());
        let context: Seq<InlineContext> = Seq::empty();
        let piece = part(range, false, AtomEligibility::Partial, context);
        reveal_with_fuel(parts_in, 2);
        assert(leaf.range == range);
        assert(text_parts(range, spans, 0, low as usize, false, context) =~= seq![piece]);
        let parts = parts_in(children, spans, false, format, context);
        assert(parts =~= seq![piece]);
        reveal_with_fuel(kept_parts, 2);
        assert(parts.drop_last() =~= Seq::empty());
        assert(kept_parts(parts, None) =~= seq![piece]);
        reveal_with_fuel(formats_in, 2);
        reveal_with_fuel(formats_of, 2);
        assert(formats_in(children, format) =~= Seq::<FormatNode>::empty());
        let area = Area { range, parts: seq![piece], formats: Seq::empty() };
        assert(group_island(children, b, None, format) =~= seq![area]);
        assert(inline_groups(children, b, None, format) =~= seq![area]);
        reveal_with_fuel(areas_below, 3);
        assert(leaf.children =~= Seq::empty());
        assert(areas_below(children, b, none, format) =~= Seq::empty());
        assert(areas_of(node, b, none, format) =~= seq![area]);
    } else {
        lemma_area(node.children, (depth - 1) as nat, low, high, leaf, b, format);
    }
}

// ---------------------------------------------------------------------------
// Both trees
// ---------------------------------------------------------------------------

/// Are the nodes text and styled text alone?
spec fn only_inline(nodes: Seq<Node>) -> bool
    decreases nodes,
{
    forall|i: int|
        0 <= i < nodes.len() ==> ((#[trigger] nodes[i]).kind is Text || nodes[i].kind is Strong
            || nodes[i].kind is Emphasis) && only_inline(nodes[i].children)
}

proof fn lemma_inline(nodes: Seq<Node>, b: Seq<u8>)
    requires
        only_inline(nodes),
    ensures
        block_signs(nodes) == Seq::<Sign>::empty(),
        protected_signs(nodes, b) == Seq::<Sign>::empty(),
        literal_ranges(nodes) == Seq::<Range<usize>>::empty(),
        !glued_bullet(nodes, b),
        listless(nodes),
    decreases nodes,
{
    if nodes.len() > 0 {
        let rest = nodes.drop_last();
        assert forall|i: int| 0 <= i < rest.len() implies ((#[trigger] rest[i]).kind is Text
            || rest[i].kind is Strong || rest[i].kind is Emphasis) && only_inline(
            rest[i].children,
        ) by {
            assert(rest[i] == nodes[i]);
        }
        lemma_inline(rest, b);
        let last = nodes.len() - 1;
        assert(nodes[last].kind is Text || nodes[last].kind is Strong || nodes[last].kind
            is Emphasis);
        lemma_inline(nodes.last().children, b);
        assert(block_signs(nodes) =~= Seq::empty());
        assert(protected_signs(nodes, b) =~= Seq::empty());
        assert(literal_ranges(nodes) =~= Seq::empty());
        assert forall|i: int| 0 <= i < nodes.len() implies !((#[trigger] nodes[i]).kind is List)
            && listless(nodes[i].children) by {
            if i < last {
                assert(rest[i] == nodes[i]);
            }
        }
    }
}

/// The signs of a paragraph of text inside of quotes.
spec fn quoted_signs(depth: nat) -> Seq<Sign>
    decreases depth,
{
    if depth == 0 {
        seq![crate::formatting::fingerprint::sign(
            crate::formatting::fingerprint::MarkKind::Paragraph,
            0,
        )]
    } else {
        seq![crate::formatting::fingerprint::sign(
            crate::formatting::fingerprint::MarkKind::BlockQuote,
            0,
        )] + quoted_signs((depth - 1) as nat)
    }
}

proof fn lemma_quoted(
    nodes: Seq<Node>,
    depth: nat,
    low: int,
    high: int,
    children: Seq<Node>,
    b: Seq<u8>,
)
    requires
        is_quoted(nodes, depth, low, high, children),
        only_inline(children),
        children.len() > 0,
        !glued_at(b, low),
    ensures
        block_signs(nodes) == quoted_signs(depth),
        protected_signs(nodes, b) == Seq::<Sign>::empty(),
        literal_ranges(nodes) == Seq::<Range<usize>>::empty(),
        !glued_bullet(nodes, b),
        listless(nodes),
    decreases depth,
{
    let node = nodes[0];
    let before: Seq<Node> = Seq::empty();
    assert(nodes.drop_last() =~= before);
    assert(nodes.last() == node);
    assert(block_signs(before) == Seq::<Sign>::empty());
    assert(protected_signs(before, b) == Seq::<Sign>::empty());
    assert(literal_ranges(before) == Seq::<Range<usize>>::empty());
    assert(!glued_bullet(before, b));
    assert(!glued_block(node, b));
    if depth == 0 {
        lemma_inline(children, b);
        assert(children[0].kind is Text || children[0].kind is Strong || children[0].kind
            is Emphasis);
        assert(sole_image(children) is None);
    } else {
        lemma_quoted(node.children, (depth - 1) as nat, low, high, children, b);
    }
    assert(block_signs(nodes) =~= quoted_signs(depth));
    assert(protected_signs(nodes, b) =~= Seq::empty());
    assert(literal_ranges(nodes) =~= Seq::empty());
    assert(listless(node.children));
    assert(listless(nodes)) by {
        assert forall|i: int| 0 <= i < nodes.len() implies !((#[trigger] nodes[i]).kind is List)
            && listless(nodes[i].children) by {
            assert(nodes[i] == node);
        }
    }
}

proof fn lemma_no_soft_breaks(
    nodes: Seq<Node>,
    b: Seq<u8>,
    fences: Seq<crate::analysis::fences::FencedCodeBlock>,
    apart: Seq<Range<usize>>,
)
    requires
        forall|p: int| 0 <= p < b.len() ==> (#[trigger] b[p]) as char != '\n',
    ensures
        !soft_breaks(nodes, b, fences, apart),
    decreases nodes,
{
    if nodes.len() > 0 {
        lemma_no_soft_breaks(nodes.drop_last(), b, fences, apart);
        lemma_no_soft_breaks(nodes.last().children, b, fences, apart);
        assert forall|p: int| !#[trigger] soft_at(b, fences, apart, p) by {
            if soft_at(b, fences, apart, p) {
                assert(b[p] as char != '\n');
            }
        }
    }
}

// ---------------------------------------------------------------------------
// Styles
// ---------------------------------------------------------------------------

proof fn lemma_styles_quoted(
    nodes: Seq<Node>,
    depth: nat,
    low: int,
    high: int,
    children: Seq<Node>,
    offset: usize,
)
    requires
        is_quoted(nodes, depth, low, high, children),
        low <= offset < high,
    ensures
        styles_in(children, offset, no_styles()) is Some ==> styles_in(nodes, offset, no_styles())
            == styles_in(children, offset, no_styles()),
    decreases depth,
{
    let node = nodes[0];
    reveal_with_fuel(styles_in, 2);
    assert(nodes.drop_first() =~= Seq::empty());
    if depth > 0 {
        lemma_styles_quoted(node.children, (depth - 1) as nat, low, high, children, offset);
    }
}

proof fn lemma_styles_leaf(leaf: Node, low: int, high: int, offset: usize)
    requires
        is_text(leaf, low, high),
        low <= offset < high,
    ensures
        styles_in(seq![leaf], offset, no_styles()) == Some(no_styles()),
{
    reveal_with_fuel(styles_in, 2);
}

proof fn lemma_styles_restyled(
    nodes: Seq<Node>,
    format: InlineFormat,
    low: int,
    s: int,
    e: int,
    high: int,
    width: int,
    at: int,
)
    requires
        is_restyled(nodes, format, low, s, e, high, width),
        low <= s < e <= high,
        width > 0,
        0 <= low,
        high + 2 * width <= usize::MAX,
        low <= at < s || s + width <= at < e + width || e + 2 * width <= at < high + 2 * width,
    ensures
        styles_in(nodes, at as usize, no_styles()) == Some(
            with_style(no_styles(), format, s <= at < e + width),
        ),
{
    let offset = at as usize;
    let head = if low < s { 1int } else { 0int };
    let styled = nodes[head];
    let inner = styled.children[0];
    let on = with_style(no_styles(), format, true);
    assert(styled.children =~= seq![inner]);
    assert(styled.children.drop_first() =~= Seq::empty());
    let middle = styles_of(styled, offset, no_styles());
    assert(crate::formatting::styles::node_styles(styled.kind, no_styles()) == on);
    assert(s + width <= at < e + width ==> middle == Some(on)) by {
        reveal_with_fuel(styles_in, 2);
        reveal_with_fuel(styles_of, 2);
    }
    assert(with_style(no_styles(), format, false) == no_styles());
    if low < s {
        let rest = nodes.drop_first();
        assert(rest[0] == styled);
        if at < s {
            assert(styles_of(nodes[0], offset, no_styles()) == Some(no_styles()));
        } else {
            assert(styles_of(nodes[0], offset, no_styles()) is None);
            assert(styles_in(nodes, offset, no_styles()) == styles_in(rest, offset, no_styles()));
            if at >= e + 2 * width {
                let last = rest.drop_first();
                assert(last[0] == nodes[2]);
                assert(middle is None);
                assert(styles_in(rest, offset, no_styles()) == styles_in(
                    last,
                    offset,
                    no_styles(),
                ));
                assert(styles_of(last[0], offset, no_styles()) == Some(no_styles()));
                assert(styles_in(last, offset, no_styles()) == Some(no_styles()));
            } else {
                assert(styles_in(rest, offset, no_styles()) == middle);
            }
        }
    } else {
        assert(at >= s);
        if at >= e + 2 * width {
            let last = nodes.drop_first();
            assert(last[0] == nodes[1]);
            assert(middle is None);
            assert(styles_in(nodes, offset, no_styles()) == styles_in(last, offset, no_styles()));
            assert(styles_of(last[0], offset, no_styles()) == Some(no_styles()));
            assert(styles_in(last, offset, no_styles()) == Some(no_styles()));
        } else {
            assert(styles_in(nodes, offset, no_styles()) == middle);
        }
    }
}

proof fn lemma_moved(offset: usize, s: usize, e: usize, sign: Seq<char>, width: int)
    requires
        s < e,
        bytes_of(sign).len() == width,
        offset + 2 * width <= usize::MAX,
        0 <= width,
    ensures
        moved(
            offset,
            seq![edit(s as int, s as int, sign), edit(e as int, e as int, sign)],
            true,
        ) == if offset < s {
            offset as int
        } else if offset < e {
            offset + width
        } else {
            offset + 2 * width
        },
{
    let edits = seq![edit(s as int, s as int, sign), edit(e as int, e as int, sign)];
    reveal_with_fuel(moved_from, 3);
}

/// The style of a byte of the leaf, once it has moved.
proof fn lemma_moved_style(
    tree: Seq<Node>,
    depth: nat,
    children: Seq<Node>,
    format: InlineFormat,
    low: int,
    s: usize,
    e: usize,
    high: int,
    sign: Seq<char>,
    width: int,
    offset: usize,
)
    requires
        is_quoted(tree, depth, low, high + 2 * width, children),
        is_restyled(children, format, low, s as int, e as int, high, width),
        low <= s < e <= high,
        0 <= low,
        width > 0,
        bytes_of(sign).len() == width,
        high + 2 * width <= usize::MAX,
        low <= offset < high,
    ensures
        styles_in(
            tree,
            moved(
                offset,
                seq![edit(s as int, s as int, sign), edit(e as int, e as int, sign)],
                true,
            ),
            no_styles(),
        ) == Some(with_style(no_styles(), format, s <= offset < e)),
{
    lemma_moved(offset, s, e, sign, width);
    let at = if offset < s {
        offset as int
    } else if offset < e {
        offset + width
    } else {
        offset + 2 * width
    };
    lemma_styles_restyled(children, format, low, s as int, e as int, high, width, at);
    lemma_styles_quoted(tree, depth, low, high + 2 * width, children, at as usize);
}

proof fn lemma_expectation(
    text: Seq<char>,
    p: Part,
    i: int,
    limit: int,
    selected: Range<usize>,
    format: InlineFormat,
    k: int,
)
    requires
        0 <= i <= limit <= text.len(),
        p.context == Seq::<InlineContext>::empty(),
        !p.styled,
        p.eligibility is Partial,
        p.range.start <= selected.start < selected.end <= p.range.end,
        0 <= k < part_expectations(text, p, i, limit, selected, false, format).len(),
    ensures
        ({
            let found = part_expectations(text, p, i, limit, selected, false, format)[k];
            exists|m: int|
                i <= m < limit && found.offset == (#[trigger] byte_offset(text, m)) as usize
                    && found.styles == with_style(
                    no_styles(),
                    format,
                    selected.start <= found.offset < selected.end,
                )
        }),
    decreases limit - i,
{
    let rest = part_expectations(text, p, i + 1, limit, selected, false, format);
    let all = part_expectations(text, p, i, limit, selected, false, format);
    assert(part_styles(p, format) == no_styles());
    assert(i < limit);
    if whitespace(text[i]) {
        lemma_expectation(text, p, i + 1, limit, selected, format, k);
    } else if k > 0 {
        lemma_expectation(text, p, i + 1, limit, selected, format, k - 1);
        assert(all[k] == rest[k - 1]);
    } else {
        assert(all[0].offset == byte_offset(text, i) as usize);
    }
}

// ---------------------------------------------------------------------------
// The law
// ---------------------------------------------------------------------------

proof fn lemma_settled(
    b: Seq<u8>,
    tree: Seq<Node>,
    depth: nat,
    low: int,
    high: int,
    children: Seq<Node>,
    cursors: Seq<usize>,
)
    requires
        is_quoted(tree, depth, low, high, children),
        only_inline(children),
        children.len() > 0,
        !glued_at(b, low),
        b.len() <= usize::MAX,
        forall|p: int| 0 <= p < b.len() ==> (#[trigger] b[p]) as char != '\n',
    ensures
        settled(b, tree, cursors),
{
    lemma_quoted(tree, depth, low, high, children, b);
    lemma_no_soft_breaks(tree, b, fences_in(tree, b), list_ranges(tree, b) + math_ranges(tree));
    assert forall|i: int, j: int|
        0 <= i < j < b.len() && b[i] as char == '\n' && b[j] as char
            == '\n' implies !#[trigger] nothing_between(b, i, j) by {
        assert(b[i] as char != '\n');
    }
    single_breaks_stay(b, cursors);
    assert forall|i: int| 0 <= i < tree.len() implies crate::analysis::canonical::lines_in_order(
        b,
        #[trigger] tree[i],
    ) || (!(tree[i].kind is List) && listless(tree[i].children)) by {}
    lists_in_order_stay(b, tree, cursors);
}

proof fn lemma_no_embeds(nodes: Seq<Node>, b: Seq<u8>, map: Map<u64, String>)
    requires
        nodes.len() == 1,
        !(nodes[0].kind is Paragraph),
    ensures
        blocks_in(nodes, b, map) == Seq::<EmbedBlock>::empty(),
{
    assert(nodes.drop_last() =~= Seq::empty());
    assert(nodes.last() == nodes[0]);
    reveal_with_fuel(blocks_in, 2);
}

proof fn lemma_keeps(
    tree: Seq<Node>,
    depth: nat,
    low: int,
    high: int,
    leaf: Node,
    text: Seq<char>,
    original: Seq<Node>,
    next: Seq<Node>,
    edits: Seq<Edit>,
    format: InlineFormat,
)
    requires
        is_quoted(tree, depth, low, high, seq![leaf]),
        is_text(leaf, low, high),
        range_keeps(text, leaf.range, original, next, edits, format),
    ensures
        nodes_keep(tree, text, original, next, edits, format),
    decreases depth,
{
    let node = tree[0];
    assert(tree.drop_last() =~= Seq::empty());
    assert(tree.last() == node);
    assert(nodes_keep(tree.drop_last(), text, original, next, edits, format));
    if depth == 0 {
        assert(seq![leaf].drop_last() =~= Seq::empty());
        assert(nodes_keep(seq![leaf].drop_last(), text, original, next, edits, format));
        assert(nodes_keep(seq![leaf], text, original, next, edits, format));
    } else {
        lemma_keeps(
            node.children,
            (depth - 1) as nat,
            low,
            high,
            leaf,
            text,
            original,
            next,
            edits,
            format,
        );
    }
}

/// Toggling the style of a word in a quote puts delimiters around it. The document
/// is one line, text inside of one or more quotes, without escapes and references,
/// in which no bullet stands without its space. A stretch of that text is selected,
/// either way, that begins and ends with something other than white space. Where the
/// line with the delimiters is read as the same quotes around the text with the style
/// on that stretch, the toggle gives that line.
pub proof fn quoted_words_are_toggled(
    document: Document,
    format: InlineFormat,
    depth: nat,
    leaf: Node,
    low: int,
    high: int,
    i: int,
    j: int,
    children: Seq<Node>,
)
    requires
        ({
            let text = document.text;
            let s = document.selection.low() as int;
            let e = document.selection.high() as int;
            let stars = match format {
                InlineFormat::Strong => seq!['*', '*'],
                InlineFormat::Emphasis => seq!['*'],
            };
            let width = stars.len() as int;
            let next = text.take(i) + stars + text.subrange(i, j) + stars + text.skip(j);
            &&& depth > 0
            &&& is_quoted(syntax_tree(text), depth, low, high, seq![leaf])
            &&& is_text(leaf, low, high)
            &&& 0 <= low <= s < e <= high <= bytes_of(text).len()
            &&& is_stretch(text, i, j, s, e)
            &&& is_plain_line(text)
            &&& bytes_of(text)[low] as char != '-' && bytes_of(text)[low] as char != '+'
            &&& bytes_of(next).len() <= usize::MAX
            &&& is_quoted(syntax_tree(next), depth, low, high + 2 * width, children)
            &&& is_restyled(children, format, low, s, e, high, width)
        }),
    ensures
        ({
            let stars = match format {
                InlineFormat::Strong => seq!['*', '*'],
                InlineFormat::Emphasis => seq!['*'],
            };
            toggled(document, format).text == document.text.take(i) + stars
                + document.text.subrange(i, j) + stars + document.text.skip(j)
        }),
{
    let text = document.text;
    let stars = match format {
        InlineFormat::Strong => seq!['*', '*'],
        InlineFormat::Emphasis => seq!['*'],
    };
    let next = text.take(i) + stars + text.subrange(i, j) + stars + text.skip(j);
    lemma_bytes_of_next(text, i, j, stars);
    lemma_plain_next(text, i, j, stars);
    lemma_first_byte(text, i, j, stars, low, document.selection.low() as int);
    lemma_planned(document, format, depth, leaf, low, high, i, j);
    lemma_accepted(document, format, depth, leaf, low, high, i, j, children, stars, next);
}

/// What is planned for such a document.
proof fn lemma_planned(
    document: Document,
    format: InlineFormat,
    depth: nat,
    leaf: Node,
    low: int,
    high: int,
    i: int,
    j: int,
)
    requires
        ({
            let text = document.text;
            let s = document.selection.low() as int;
            let e = document.selection.high() as int;
            &&& depth > 0
            &&& is_quoted(syntax_tree(text), depth, low, high, seq![leaf])
            &&& is_text(leaf, low, high)
            &&& 0 <= low <= s < e <= high <= bytes_of(text).len() <= usize::MAX
            &&& is_stretch(text, i, j, s, e)
            &&& is_plain_line(text)
        }),
    ensures
        ({
            let text = document.text;
            let s = document.selection.low() as int;
            let e = document.selection.high() as int;
            let stars = match format {
                InlineFormat::Strong => seq!['*', '*'],
                InlineFormat::Emphasis => seq!['*'],
            };
            let none: Seq<EmbedBlock> = Seq::empty();
            let found = plan(text, document.selection, syntax_tree(text), none, format);
            let piece = part(
                Range { start: low as usize, end: high as usize },
                false,
                AtomEligibility::Partial,
                Seq::empty(),
            );
            &&& blocks_of(text, document.embeds) == none
            &&& found is Some
            &&& found->0.edits == seq![edit(s, s, stars), edit(e, e, stars)]
            &&& found->0.expectations == part_expectations(
                text,
                piece,
                index_at(text, low),
                index_at(text, high),
                Range { start: document.selection.low(), end: document.selection.high() },
                false,
                format,
            )
            &&& crate::formatting::rewrite::applied(text, found->0.edits) == text.take(i) + stars
                + text.subrange(i, j) + stars + text.skip(j)
        }),
{
    let text = document.text;
    let b = bytes_of(text);
    let tree = syntax_tree(text);
    let none: Seq<EmbedBlock> = Seq::empty();
    lemma_no_embeds(tree, b, document.embeds);
    lemma_area(tree, depth, low, high, leaf, b, format);
    let areas = areas_in(tree, b, none, format);
    let s = document.selection.low() as int;
    let e = document.selection.high() as int;
    assert(is_plain(areas, 0, 0, s, e));
    plain_text_gets_delimiters(text, document.selection, tree, none, format, 0, 0, i, j);
    lemma_expectations(text, document.selection, areas, format, i, j);
}

proof fn lemma_accepted(
    document: Document,
    format: InlineFormat,
    depth: nat,
    leaf: Node,
    low: int,
    high: int,
    i: int,
    j: int,
    children: Seq<Node>,
    stars: Seq<char>,
    next: Seq<char>,
)
    requires
        ({
            let text = document.text;
            let none: Seq<EmbedBlock> = Seq::empty();
            let b = bytes_of(text);
            let c = bytes_of(next);
            let s = document.selection.low();
            let e = document.selection.high();
            let width = stars.len() as int;
            let found = plan(text, document.selection, syntax_tree(text), none, format);
            let piece = part(
                Range { start: low as usize, end: high as usize },
                false,
                AtomEligibility::Partial,
                Seq::empty(),
            );
            &&& depth > 0
            &&& width > 0
            &&& bytes_of(stars).len() == width
            &&& is_quoted(syntax_tree(text), depth, low, high, seq![leaf])
            &&& is_text(leaf, low, high)
            &&& 0 <= low <= s < e <= high <= b.len() <= usize::MAX
            &&& high + 2 * width <= c.len() <= usize::MAX
            &&& is_plain_line(text)
            &&& is_plain_line(next)
            &&& !glued_at(b, low)
            &&& !glued_at(c, low)
            &&& is_quoted(syntax_tree(next), depth, low, high + 2 * width, children)
            &&& is_restyled(children, format, low, s as int, e as int, high, width)
            &&& blocks_of(text, document.embeds) == none
            &&& found is Some
            &&& found->0.edits == seq![
                edit(s as int, s as int, stars),
                edit(e as int, e as int, stars),
            ]
            &&& found->0.expectations == part_expectations(
                text,
                piece,
                index_at(text, low),
                index_at(text, high),
                Range { start: s, end: e },
                false,
                format,
            )
            &&& crate::formatting::rewrite::applied(text, found->0.edits) == next
        }),
    ensures
        toggled(document, format).text == next,
{
    let text = document.text;
    let b = bytes_of(text);
    let c = bytes_of(next);
    let tree = syntax_tree(text);
    let next_tree = syntax_tree(next);
    let s = document.selection.low();
    let e = document.selection.high();
    let width = stars.len() as int;
    let blocks = blocks_of(text, document.embeds);
    let next_blocks = blocks_of(next, document.embeds);
    let planned = plan(text, document.selection, tree, blocks, format)->0;
    let edits = planned.edits;
    let selection = crate::formatting::rewrite::moved_selection(document.selection, edits);
    lemma_no_embeds(next_tree, c, document.embeds);
    assert(only_inline(seq![leaf])) by {
        assert(only_inline(leaf.children));
    }
    lemma_only_inline(children, format, low, s as int, e as int, high, width);
    lemma_same_signs(b, tree, depth, low, high, seq![leaf], c, next_tree, high + 2 * width, children);
    lemma_settled(c, next_tree, depth, low, high + 2 * width, children, ends(selection));
    assert(embed_signs(blocks, b) =~= embed_signs(next_blocks, c));
    lemma_range_keeps(
        text,
        tree,
        depth,
        leaf,
        next_tree,
        children,
        format,
        low,
        s,
        e,
        high,
        stars,
        width,
    );
    lemma_keeps(tree, depth, low, high, leaf, text, tree, next_tree, edits, format);
    lemma_met(
        text,
        part(
            Range { start: low as usize, end: high as usize },
            false,
            AtomEligibility::Partial,
            Seq::empty(),
        ),
        planned.expectations,
        next_tree,
        depth,
        children,
        format,
        low,
        s,
        e,
        high,
        stars,
        width,
    );
}

proof fn lemma_same_signs(
    b: Seq<u8>,
    tree: Seq<Node>,
    depth: nat,
    low: int,
    high: int,
    leaves: Seq<Node>,
    c: Seq<u8>,
    next: Seq<Node>,
    next_high: int,
    children: Seq<Node>,
)
    requires
        is_quoted(tree, depth, low, high, leaves),
        only_inline(leaves),
        leaves.len() > 0,
        !glued_at(b, low),
        is_quoted(next, depth, low, next_high, children),
        only_inline(children),
        children.len() > 0,
        !glued_at(c, low),
        b.len() <= usize::MAX,
        c.len() <= usize::MAX,
        forall|p: int|
            0 <= p < b.len() ==> (#[trigger] b[p]) as char != '\\' && b[p] as char != '&',
        forall|p: int|
            0 <= p < c.len() ==> (#[trigger] c[p]) as char != '\\' && c[p] as char != '&',
    ensures
        block_signs(tree) == block_signs(next),
        protected_signs(tree, b) == protected_signs(next, c),
        resolved_signs(b, tree) == resolved_signs(c, next),
{
    lemma_quoted(tree, depth, low, high, leaves, b);
    lemma_quoted(next, depth, low, next_high, children, c);
    lemma_no_spans(b, 0, b.len() as int, merged(literal_ranges(tree)));
    lemma_no_spans(c, 0, c.len() as int, merged(literal_ranges(next)));
    assert(resolved_signs(b, tree) =~= Seq::<Sign>::empty());
    assert(resolved_signs(c, next) =~= Seq::<Sign>::empty());
}

proof fn lemma_range_keeps(
    text: Seq<char>,
    tree: Seq<Node>,
    depth: nat,
    leaf: Node,
    next: Seq<Node>,
    children: Seq<Node>,
    format: InlineFormat,
    low: int,
    s: usize,
    e: usize,
    high: int,
    stars: Seq<char>,
    width: int,
)
    requires
        is_quoted(tree, depth, low, high, seq![leaf]),
        is_text(leaf, low, high),
        is_quoted(next, depth, low, high + 2 * width, children),
        is_restyled(children, format, low, s as int, e as int, high, width),
        0 <= low <= s < e <= high <= bytes_of(text).len() <= usize::MAX,
        width > 0,
        bytes_of(stars).len() == width,
        high + 2 * width <= usize::MAX,
    ensures
        range_keeps(
            text,
            leaf.range,
            tree,
            next,
            seq![edit(s as int, s as int, stars), edit(e as int, e as int, stars)],
            format,
        ),
{
    let edits = seq![edit(s as int, s as int, stars), edit(e as int, e as int, stars)];
    assert forall|m: int|
        index_at(text, low) <= m < index_at(text, high) implies #[trigger] char_keeps(
        text,
        m,
        tree,
        next,
        edits,
        format,
    ) by {
        lemma_inside(text, m, low, high);
        let offset = byte_offset(text, m) as usize;
        lemma_styles_leaf(leaf, low, high, offset);
        lemma_styles_quoted(tree, depth, low, high, seq![leaf], offset);
        lemma_moved_style(
            next,
            depth,
            children,
            format,
            low,
            s,
            e,
            high,
            stars,
            width,
            offset,
        );
    }
}

proof fn lemma_met(
    text: Seq<char>,
    piece: Part,
    expected: Seq<StyleExpectation>,
    next: Seq<Node>,
    depth: nat,
    children: Seq<Node>,
    format: InlineFormat,
    low: int,
    s: usize,
    e: usize,
    high: int,
    stars: Seq<char>,
    width: int,
)
    requires
        piece == part(
            Range { start: low as usize, end: high as usize },
            false,
            AtomEligibility::Partial,
            Seq::empty(),
        ),
        expected == part_expectations(
            text,
            piece,
            index_at(text, low),
            index_at(text, high),
            Range { start: s, end: e },
            false,
            format,
        ),
        is_quoted(next, depth, low, high + 2 * width, children),
        is_restyled(children, format, low, s as int, e as int, high, width),
        0 <= low <= s < e <= high <= bytes_of(text).len() <= usize::MAX,
        width > 0,
        bytes_of(stars).len() == width,
        high + 2 * width <= usize::MAX,
    ensures
        met(
            next,
            seq![edit(s as int, s as int, stars), edit(e as int, e as int, stars)],
            expected,
        ),
{
    let edits = seq![edit(s as int, s as int, stars), edit(e as int, e as int, stars)];
    assert forall|k: int| 0 <= k < expected.len() implies styles_in(
        next,
        moved((#[trigger] expected[k]).offset, edits, true),
        no_styles(),
    ) == Some(expected[k].styles) by {
        let found = expected[k];
        let selected = Range { start: s, end: e };
        let first = index_at(text, low);
        let limit = index_at(text, high);
        crate::words::lemma_index_grows(text, low, high);
        lemma_expectation(text, piece, first, limit, selected, format, k);
        let m = choose|m: int|
            first <= m < limit && found.offset == (#[trigger] byte_offset(text, m)) as usize
                && found.styles == with_style(
                no_styles(),
                format,
                selected.start <= found.offset < selected.end,
            );
        lemma_inside(text, m, low, high);
        lemma_moved_style(
            next,
            depth,
            children,
            format,
            low,
            s,
            e,
            high,
            stars,
            width,
            found.offset,
        );
    }
}

/// A character of the leaf begins inside of it.
proof fn lemma_inside(text: Seq<char>, m: int, low: int, high: int)
    requires
        0 <= low <= high <= bytes_of(text).len() <= usize::MAX,
        index_at(text, low) <= m < index_at(text, high),
    ensures
        0 <= m < text.len(),
        low <= byte_offset(text, m) < high,
        byte_offset(text, m) <= usize::MAX,
{
    lemma_index_at(text, low);
    lemma_index_at(text, high);
    assert(byte_offset(text, m) < high);
    assert(byte_offset(text, m) >= low);
}

proof fn lemma_bytes_of_next(text: Seq<char>, i: int, j: int, stars: Seq<char>)
    requires
        0 <= i <= j <= text.len(),
        vstd::utf8::is_ascii_chars(stars),
    ensures
        ({
            let next = text.take(i) + stars + text.subrange(i, j) + stars + text.skip(j);
            &&& bytes_of(next) == bytes_of(text.take(i)) + bytes_of(stars) + bytes_of(
                text.subrange(i, j),
            ) + bytes_of(stars) + bytes_of(text.skip(j))
            &&& bytes_of(text) == bytes_of(text.take(i)) + bytes_of(text.subrange(i, j)) + bytes_of(
                text.skip(j),
            )
            &&& bytes_of(stars).len() == stars.len()
        }),
{
    let a = text.take(i);
    let m = text.subrange(i, j);
    let z = text.skip(j);
    lemma_bytes_concat(a, stars);
    lemma_bytes_concat(a + stars, m);
    lemma_bytes_concat(a + stars + m, stars);
    lemma_bytes_concat(a + stars + m + stars, z);
    assert(text =~= a + m + z);
    lemma_bytes_concat(a, m);
    lemma_bytes_concat(a + m, z);
    vstd::utf8::is_ascii_chars_encode_utf8(stars);
}

proof fn lemma_plain_next(text: Seq<char>, i: int, j: int, stars: Seq<char>)
    requires
        0 <= i <= j <= text.len(),
        is_plain_line(text),
        stars == seq!['*', '*'] || stars == seq!['*'],
    ensures
        is_plain_line(text.take(i) + stars + text.subrange(i, j) + stars + text.skip(j)),
{
    let next = text.take(i) + stars + text.subrange(i, j) + stars + text.skip(j);
    let c = bytes_of(next);
    let b = bytes_of(text);
    lemma_bytes_of_next(text, i, j, stars);
    vstd::utf8::is_ascii_chars_encode_utf8(stars);
    let w = stars.len() as int;
    let x = bytes_of(text.take(i)).len() as int;
    let y = x + bytes_of(text.subrange(i, j)).len() as int;
    assert forall|p: int| 0 <= p < c.len() implies (#[trigger] c[p]) as char != '\n' && c[p] as char
        != '\\' && c[p] as char != '&' by {
        if p < x {
            assert(c[p] == b[p]);
        } else if p < x + w {
            assert(c[p] == bytes_of(stars)[p - x]);
            assert(stars[p - x] == '*');
        } else if p < y + w {
            assert(c[p] == b[p - w]);
        } else if p < y + 2 * w {
            assert(c[p] == bytes_of(stars)[p - y - w]);
            assert(stars[p - y - w] == '*');
        } else {
            assert(c[p] == b[p - 2 * w]);
        }
    }
}

proof fn lemma_first_byte(text: Seq<char>, i: int, j: int, stars: Seq<char>, low: int, s: int)
    requires
        0 <= i <= j <= text.len(),
        s == byte_offset(text, i),
        0 <= low <= s,
        low < bytes_of(text).len(),
        bytes_of(text)[low] as char != '-',
        bytes_of(text)[low] as char != '+',
        stars == seq!['*', '*'] || stars == seq!['*'],
    ensures
        !glued_at(
            bytes_of(text.take(i) + stars + text.subrange(i, j) + stars + text.skip(j)),
            low,
        ),
{
    let next = text.take(i) + stars + text.subrange(i, j) + stars + text.skip(j);
    let c = bytes_of(next);
    lemma_bytes_of_next(text, i, j, stars);
    vstd::utf8::is_ascii_chars_encode_utf8(stars);
    if low < s {
        assert(c[low] == bytes_of(text)[low]);
    } else {
        assert(c[low] == bytes_of(stars)[0]);
        assert(stars[0] == '*');
    }
}

proof fn lemma_only_inline(
    nodes: Seq<Node>,
    format: InlineFormat,
    low: int,
    s: int,
    e: int,
    high: int,
    width: int,
)
    requires
        is_restyled(nodes, format, low, s, e, high, width),
    ensures
        only_inline(nodes),
        nodes.len() > 0,
{
    let head = if low < s { 1int } else { 0int };
    assert forall|i: int| 0 <= i < nodes.len() implies ((#[trigger] nodes[i]).kind is Text
        || nodes[i].kind is Strong || nodes[i].kind is Emphasis) && only_inline(
        nodes[i].children,
    ) by {
        if i == head {
            let below = nodes[i].children;
            assert forall|m: int| 0 <= m < below.len() implies ((#[trigger] below[m]).kind is Text
                || below[m].kind is Strong || below[m].kind is Emphasis) && only_inline(
                below[m].children,
            ) by {
                assert(below[m] == below[0]);
            }
        }
    }
}

proof fn lemma_expectations(
    text: Seq<char>,
    selection: Selection,
    areas: Seq<Area>,
    format: InlineFormat,
    i: int,
    j: int,
)
    requires
        areas.len() == 1,
        areas[0].parts.len() == 1,
        areas[0].formats == Seq::<FormatNode>::empty(),
        is_plain(areas, 0, 0, selection.low() as int, selection.high() as int),
        is_stretch(text, i, j, selection.low() as int, selection.high() as int),
        bytes_of(text).len() <= usize::MAX,
    ensures
        ({
            let found = targets(text, selection, areas);
            let piece = areas[0].parts[0];
            target_expectations(text, areas, found, removes(text, areas, found), format)
                == part_expectations(
                text,
                piece,
                index_at(text, piece.range.start as int),
                index_at(text, piece.range.end as int),
                Range { start: selection.low(), end: selection.high() },
                false,
                format,
            )
        }),
{
    let selected = Range { start: selection.low(), end: selection.high() };
    crate::formatting::selected::lemma_found(text, selection, areas, 0, 0, i, j);
    let found = targets(text, selection, areas);
    assert(found == seq![(0usize, selected)]);
    assert(found.drop_last() =~= Seq::empty());
    reveal_with_fuel(target_expectations, 2);
    let parts = areas[0].parts;
    assert(parts.drop_last() =~= Seq::empty());
    reveal_with_fuel(expectations_in, 2);
    let none = Reach { component: selected, members: Seq::<usize>::empty() };
    assert(reach_of(areas[0].formats, selected) == none);
    let wanted = part_expectations(
        text,
        parts[0],
        index_at(text, parts[0].range.start as int),
        index_at(text, parts[0].range.end as int),
        selected,
        false,
        format,
    );
    assert(parts.last() == parts[0]);
    assert(expectations_in(text, parts, selected, selected, false, format) =~= wanted);
    assert(target_expectations(text, areas, found, false, format) =~= wanted);
}

} // verus!
