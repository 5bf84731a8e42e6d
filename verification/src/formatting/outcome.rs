//! What a reader finds after a toggle: the style on all that was selected, or on
//! none of it, and every other style where it was.

use core::ops::Range;

use vstd::prelude::*;

use crate::analysis::edits::Edit;
use crate::embed::blocks_of;
use crate::formatting::atoms::{FormatNode, InlineFormat, Part};
use crate::formatting::islands::{areas_in, Area};
use crate::formatting::plan::{
    expectations_in,
    island_expectations,
    no_styles,
    part_expectations,
    reach_of,
    reaches,
    sweep,
    swept,
    InlineStyles,
    Reach,
    StyleExpectation,
};
use crate::formatting::ranges::{greater, lesser, overlap};
use crate::formatting::rewrite::moved;
use crate::formatting::styles::{
    char_keeps,
    content_kind,
    node_styles,
    nodes_keep,
    range_keeps,
    styles_in,
    styles_of,
};
use crate::formatting::targets::{all_styled, participates, removes, substantive, targets};
use crate::formatting::toggle::{plan, target_expectations, toggled};
use crate::parser::syntax_tree;
use crate::state::Document;
use crate::strings::byte_offset;
use crate::syntax::{Node, NodeKind};
use crate::text::bytes_of;
use crate::words::{has_text, index_at, lemma_index_at, lemma_offsets_grow, whitespace};

verus! {

// ---------------------------------------------------------------------------
// Styles of a tree
// ---------------------------------------------------------------------------

/// Is the content at the byte in exactly these styles, as far as the nodes tell?
/// Of the nodes beside each other one alone holds the byte: text, code, a formula
/// or an image, or a construct around what does.
pub open spec fn is_set_in(
    nodes: Seq<Node>,
    offset: usize,
    strong: bool,
    emphasis: bool,
    struck: bool,
) -> bool
    decreases nodes,
{
    exists|i: int|
        0 <= i < nodes.len() && is_set_at(#[trigger] nodes[i], offset, strong, emphasis, struck)
            && forall|j: int|
            0 <= j < nodes.len() && j != i ==> !((#[trigger] nodes[j]).range.start <= offset
                < nodes[j].range.end)
}

/// Is the content at the byte in exactly these styles, as far as the node tells?
pub open spec fn is_set_at(
    node: Node,
    offset: usize,
    strong: bool,
    emphasis: bool,
    struck: bool,
) -> bool
    decreases node,
{
    &&& node.range.start <= offset < node.range.end
    &&& match node.kind {
        NodeKind::Text => !strong && !emphasis && !struck,
        NodeKind::InlineCode { .. } => !strong && !emphasis && !struck,
        NodeKind::InlineMath { .. } => !strong && !emphasis && !struck,
        NodeKind::Image { .. } => !strong && !emphasis && !struck,
        NodeKind::Strong { .. } => strong && (is_set_in(
            node.children,
            offset,
            false,
            emphasis,
            struck,
        ) || is_set_in(node.children, offset, true, emphasis, struck)),
        NodeKind::Emphasis { .. } => emphasis && (is_set_in(
            node.children,
            offset,
            strong,
            false,
            struck,
        ) || is_set_in(node.children, offset, strong, true, struck)),
        NodeKind::Strikethrough => struck && (is_set_in(
            node.children,
            offset,
            strong,
            emphasis,
            false,
        ) || is_set_in(node.children, offset, strong, emphasis, true)),
        _ => is_set_in(node.children, offset, strong, emphasis, struck),
    }
}

proof fn lemma_other_nodes(nodes: Seq<Node>, offset: usize, inherited: InlineStyles, i: int)
    requires
        0 <= i < nodes.len(),
        styles_of(nodes[i], offset, inherited) is Some,
        forall|j: int|
            0 <= j < nodes.len() && j != i ==> !((#[trigger] nodes[j]).range.start <= offset
                < nodes[j].range.end),
    ensures
        styles_in(nodes, offset, inherited) == styles_of(nodes[i], offset, inherited),
    decreases nodes.len(),
{
    if i > 0 {
        let rest = nodes.drop_first();
        assert(!(nodes[0].range.start <= offset < nodes[0].range.end));
        assert(styles_of(nodes[0], offset, inherited) is None);
        assert(rest[i - 1] == nodes[i]);
        assert forall|j: int| 0 <= j < rest.len() && j != i - 1 implies !((
        #[trigger] rest[j]).range.start <= offset < rest[j].range.end) by {
            assert(rest[j] == nodes[j + 1]);
        }
        lemma_other_nodes(rest, offset, inherited, i - 1);
    }
}

proof fn lemma_set_at(
    node: Node,
    offset: usize,
    inherited: InlineStyles,
    strong: bool,
    emphasis: bool,
    struck: bool,
)
    requires
        is_set_at(node, offset, strong, emphasis, struck),
    ensures
        styles_of(node, offset, inherited) == Some(
            InlineStyles {
                strong: inherited.strong || strong,
                emphasis: inherited.emphasis || emphasis,
                strikethrough: inherited.strikethrough || struck,
            },
        ),
    decreases node, 0int,
{
    if !content_kind(node.kind) {
        let below = node_styles(node.kind, inherited);
        match node.kind {
            NodeKind::Strong { .. } => {
                let again = !is_set_in(node.children, offset, false, emphasis, struck);
                lemma_set_in(node.children, offset, below, again, emphasis, struck);
            },
            NodeKind::Emphasis { .. } => {
                let again = !is_set_in(node.children, offset, strong, false, struck);
                lemma_set_in(node.children, offset, below, strong, again, struck);
            },
            NodeKind::Strikethrough => {
                let again = !is_set_in(node.children, offset, strong, emphasis, false);
                lemma_set_in(node.children, offset, below, strong, emphasis, again);
            },
            _ => {
                lemma_set_in(node.children, offset, below, strong, emphasis, struck);
            },
        }
    }
}

proof fn lemma_set_in(
    nodes: Seq<Node>,
    offset: usize,
    inherited: InlineStyles,
    strong: bool,
    emphasis: bool,
    struck: bool,
)
    requires
        is_set_in(nodes, offset, strong, emphasis, struck),
    ensures
        styles_in(nodes, offset, inherited) == Some(
            InlineStyles {
                strong: inherited.strong || strong,
                emphasis: inherited.emphasis || emphasis,
                strikethrough: inherited.strikethrough || struck,
            },
        ),
    decreases nodes, 1int,
{
    let i = choose|i: int|
        0 <= i < nodes.len() && is_set_at(#[trigger] nodes[i], offset, strong, emphasis, struck)
            && forall|j: int|
            0 <= j < nodes.len() && j != i ==> !((#[trigger] nodes[j]).range.start <= offset
                < nodes[j].range.end);
    assert(decreases_to!(nodes => nodes[i]));
    lemma_set_at(nodes[i], offset, inherited, strong, emphasis, struck);
    lemma_other_nodes(nodes, offset, inherited, i);
}

/// Content is bold, italic or struck out where, and only where, a construct
/// around it says so.
pub proof fn styles_come_from_the_constructs(
    nodes: Seq<Node>,
    offset: usize,
    strong: bool,
    emphasis: bool,
    struck: bool,
)
    requires
        is_set_in(nodes, offset, strong, emphasis, struck),
    ensures
        styles_in(
            nodes,
            offset,
            InlineStyles { strong: false, emphasis: false, strikethrough: false },
        ) == Some(InlineStyles { strong, emphasis, strikethrough: struck }),
{
    lemma_set_in(nodes, offset, no_styles(), strong, emphasis, struck);
}

// ---------------------------------------------------------------------------
// The other styles
// ---------------------------------------------------------------------------

/// Is the leaf text, code, a formula or an image of the tree, at any depth?
pub open spec fn content_in(nodes: Seq<Node>, leaf: Node) -> bool
    decreases nodes,
{
    &&& leaf.kind is Text || leaf.kind is InlineCode || leaf.kind is InlineMath
        || leaf.kind is Image
    &&& exists|i: int|
        0 <= i < nodes.len() && (#[trigger] nodes[i] == leaf || !(nodes[i].kind is Text
            || nodes[i].kind is InlineCode || nodes[i].kind is InlineMath
            || nodes[i].kind is Image) && content_in(nodes[i].children, leaf))
}

proof fn lemma_content_keeps(
    nodes: Seq<Node>,
    leaf: Node,
    text: Seq<char>,
    original: Seq<Node>,
    candidate: Seq<Node>,
    edits: Seq<Edit>,
    target: InlineFormat,
)
    requires
        content_in(nodes, leaf),
        nodes_keep(nodes, text, original, candidate, edits, target),
    ensures
        range_keeps(text, leaf.range, original, candidate, edits, target),
    decreases nodes,
{
    let i = choose|i: int|
        0 <= i < nodes.len() && (#[trigger] nodes[i] == leaf || !(nodes[i].kind is Text
            || nodes[i].kind is InlineCode || nodes[i].kind is InlineMath
            || nodes[i].kind is Image) && content_in(nodes[i].children, leaf));
    if i == nodes.len() - 1 {
        if nodes[i] != leaf {
            assert(decreases_to!(nodes => nodes[i]));
            lemma_content_keeps(
                nodes[i].children,
                leaf,
                text,
                original,
                candidate,
                edits,
                target,
            );
        }
    } else {
        let head = nodes.drop_last();
        assert(head[i] == nodes[i]);
        lemma_content_keeps(head, leaf, text, original, candidate, edits, target);
    }
}

/// A toggle changes no style but its own: whatever is struck out stays struck
/// out, and with bold what is italic stays italic, with italic what is bold
/// stays bold. That holds of all content of the document.
pub proof fn toggles_keep_the_other_styles(
    document: Document,
    format: InlineFormat,
    leaf: Node,
    i: int,
)
    requires
        toggled(document, format).text != document.text,
        content_in(syntax_tree(document.text), leaf),
        0 <= i < document.text.len(),
        leaf.range.start <= byte_offset(document.text, i) < leaf.range.end,
    ensures
        ({
            let text = document.text;
            let tree = syntax_tree(text);
            let next_tree = syntax_tree(toggled(document, format).text);
            let blocks = blocks_of(text, document.embeds);
            let plain = InlineStyles { strong: false, emphasis: false, strikethrough: false };
            let offset = byte_offset(text, i) as usize;
            plan(text, document.selection, tree, blocks, format) matches Some(planned) && {
                let before = styles_in(tree, offset, plain);
                let after = styles_in(next_tree, moved(offset, planned.edits, true), plain);
                &&& before is Some
                &&& after is Some
                &&& before->0.strikethrough == after->0.strikethrough
                &&& format is Strong ==> before->0.emphasis == after->0.emphasis
                &&& format is Emphasis ==> before->0.strong == after->0.strong
            }
        }),
{
    let text = document.text;
    let tree = syntax_tree(text);
    let next_tree = syntax_tree(toggled(document, format).text);
    let planned = plan(
        text,
        document.selection,
        tree,
        blocks_of(text, document.embeds),
        format,
    )->0;
    lemma_content_keeps(tree, leaf, text, tree, next_tree, planned.edits, format);
    lemma_index_at(text, leaf.range.start as int);
    lemma_index_at(text, leaf.range.end as int);
    assert(index_at(text, leaf.range.start as int) <= i < index_at(text, leaf.range.end as int));
    assert(char_keeps(text, i, tree, next_tree, planned.edits, format));
}

// ---------------------------------------------------------------------------
// The toggled style
// ---------------------------------------------------------------------------

proof fn lemma_sweep_grows(formats: Seq<FormatNode>, i: int, reach: Reach)
    ensures
        sweep(formats, i, reach).component.start <= reach.component.start,
        sweep(formats, i, reach).component.end >= reach.component.end,
    decreases formats.len() - i,
{
    if i < formats.len() {
        if reach.members.contains(i as usize) || !reaches(
            formats[i],
            reach.component,
        ) {
            lemma_sweep_grows(formats, i + 1, reach);
        } else {
            lemma_sweep_grows(
                formats,
                i + 1,
                Reach {
                    component: Range {
                        start: lesser(
                            reach.component.start,
                            formats[i].content.start,
                        ),
                        end: greater(
                            reach.component.end,
                            formats[i].content.end,
                        ),
                    },
                    members: reach.members.push(i as usize),
                },
            );
        }
    }
}

proof fn lemma_swept_grows(formats: Seq<FormatNode>, reach: Reach, rounds: nat)
    ensures
        swept(formats, reach, rounds).component.start <= reach.component.start,
        swept(formats, reach, rounds).component.end >= reach.component.end,
    decreases rounds,
{
    let next = sweep(formats, 0, reach);
    if !(rounds == 0 || next.members.len() == reach.members.len()) {
        lemma_sweep_grows(formats, 0, reach);
        lemma_swept_grows(formats, next, (rounds - 1) as nat);
    }
}

/// Does one of the expectations ask for the toggled style at the byte, or for its
/// absence?
spec fn asks(
    expected: Seq<StyleExpectation>,
    offset: usize,
    format: InlineFormat,
    on: bool,
) -> bool {
    exists|k: int|
        0 <= k < expected.len() && (#[trigger] expected[k]).offset == offset && (match format {
            InlineFormat::Strong => expected[k].styles.strong == on,
            InlineFormat::Emphasis => expected[k].styles.emphasis == on,
        })
}

proof fn lemma_asks_joined(
    a: Seq<StyleExpectation>,
    c: Seq<StyleExpectation>,
    offset: usize,
    format: InlineFormat,
    on: bool,
)
    requires
        asks(a, offset, format, on) || asks(c, offset, format, on),
    ensures
        asks(a + c, offset, format, on),
{
    if asks(a, offset, format, on) {
        let k = choose|k: int|
            0 <= k < a.len() && (#[trigger] a[k]).offset == offset && (match format {
                InlineFormat::Strong => a[k].styles.strong == on,
                InlineFormat::Emphasis => a[k].styles.emphasis == on,
            });
        assert((a + c)[k] == a[k]);
    } else {
        let k = choose|k: int|
            0 <= k < c.len() && (#[trigger] c[k]).offset == offset && (match format {
                InlineFormat::Strong => c[k].styles.strong == on,
                InlineFormat::Emphasis => c[k].styles.emphasis == on,
            });
        assert((a + c)[a.len() + k] == c[k]);
    }
}

proof fn lemma_part_asks(
    text: Seq<char>,
    p: Part,
    from: int,
    limit: int,
    selected: Range<usize>,
    remove: bool,
    format: InlineFormat,
    i: int,
)
    requires
        from <= i < limit,
        !whitespace(text[i]),
        participates(p, selected),
        selected.start <= byte_offset(text, i) < selected.end,
    ensures
        asks(
            part_expectations(text, p, from, limit, selected, remove, format),
            byte_offset(text, i) as usize,
            format,
            !remove,
        ),
    decreases i - from,
{
    let offset = byte_offset(text, i) as usize;
    let all = part_expectations(text, p, from, limit, selected, remove, format);
    if from == i {
        assert(all[0].offset == offset);
    } else {
        let rest = part_expectations(text, p, from + 1, limit, selected, remove, format);
        lemma_part_asks(text, p, from + 1, limit, selected, remove, format, i);
        if !whitespace(text[from]) {
            assert(all =~= seq![all[0]] + rest);
            lemma_asks_joined(seq![all[0]], rest, offset, format, !remove);
        }
    }
}

proof fn lemma_island_asks(
    text: Seq<char>,
    parts: Seq<Part>,
    component: Range<usize>,
    selected: Range<usize>,
    remove: bool,
    format: InlineFormat,
    k: int,
    i: int,
)
    requires
        0 <= k < parts.len(),
        component.start <= selected.start,
        selected.end <= component.end,
        0 <= i < text.len(),
        !whitespace(text[i]),
        participates(parts[k], selected),
        selected.start <= byte_offset(text, i) < selected.end,
        parts[k].range.start <= byte_offset(text, i) < parts[k].range.end,
    ensures
        asks(
            expectations_in(text, parts, component, selected, remove, format),
            byte_offset(text, i) as usize,
            format,
            !remove,
        ),
    decreases parts.len(),
{
    let p = parts.last();
    let offset = byte_offset(text, i) as usize;
    let before = expectations_in(text, parts.drop_last(), component, selected, remove, format);
    let from = index_at(text, p.range.start as int);
    let limit = index_at(text, p.range.end as int);
    let own = part_expectations(text, p, from, limit, selected, remove, format);
    if k == parts.len() - 1 {
        lemma_index_at(text, p.range.start as int);
        lemma_index_at(text, p.range.end as int);
        lemma_part_asks(text, p, from, limit, selected, remove, format, i);
        assert(overlap(p.range, component));
    } else {
        assert(parts.drop_last()[k] == parts[k]);
        lemma_island_asks(text, parts.drop_last(), component, selected, remove, format, k, i);
    }
    if overlap(p.range, component) {
        lemma_asks_joined(before, own, offset, format, !remove);
    }
}

proof fn lemma_targets_ask(
    text: Seq<char>,
    areas: Seq<Area>,
    found: Seq<(usize, Range<usize>)>,
    remove: bool,
    format: InlineFormat,
    t: int,
    k: int,
    i: int,
)
    requires
        0 <= t < found.len(),
        0 <= k < areas[found[t].0 as int].parts.len(),
        0 <= i < text.len(),
        !whitespace(text[i]),
        participates(areas[found[t].0 as int].parts[k], found[t].1),
        found[t].1.start <= byte_offset(text, i) < found[t].1.end,
        areas[found[t].0 as int].parts[k].range.start <= byte_offset(text, i)
            < areas[found[t].0 as int].parts[k].range.end,
    ensures
        asks(
            target_expectations(text, areas, found, remove, format),
            byte_offset(text, i) as usize,
            format,
            !remove,
        ),
    decreases found.len(),
{
    let offset = byte_offset(text, i) as usize;
    let head = found.drop_last();
    let area = areas[found.last().0 as int];
    let selected = found.last().1;
    let own = island_expectations(text, area, selected, remove, format);
    if t == found.len() - 1 {
        lemma_swept_grows(
            area.formats,
            Reach { component: selected, members: Seq::empty() },
            area.formats.len(),
        );
        lemma_island_asks(
            text,
            area.parts,
            reach_of(area.formats, selected).component,
            selected,
            remove,
            format,
            k,
            i,
        );
    } else {
        assert(head[t] == found[t]);
        lemma_targets_ask(text, areas, head, remove, format, t, k, i);
    }
    lemma_asks_joined(
        target_expectations(text, areas, head, remove, format),
        own,
        offset,
        format,
        !remove,
    );
}

/// After a toggle the text that it acted on is of one kind: every character of
/// it, white space apart, has the style where the toggle applies it, and none has
/// it where the toggle removes it.
pub proof fn toggled_text_is_of_one_style(
    document: Document,
    format: InlineFormat,
    t: int,
    k: int,
    i: int,
)
    requires
        toggled(document, format).text != document.text,
        bytes_of(document.text).len() <= usize::MAX,
        ({
            let text = document.text;
            let blocks = blocks_of(text, document.embeds);
            let areas = areas_in(syntax_tree(text), bytes_of(text), blocks, format);
            let found = targets(text, document.selection, areas);
            let part = areas[found[t].0 as int].parts[k];
            &&& 0 <= t < found.len()
            &&& 0 <= k < areas[found[t].0 as int].parts.len()
            &&& part.eligibility is Partial
            &&& 0 <= i < text.len()
            &&& !whitespace(text[i])
            &&& part.range.start <= byte_offset(text, i) < part.range.end
            &&& found[t].1.start <= byte_offset(text, i) < found[t].1.end
        }),
    ensures
        ({
            let text = document.text;
            let tree = syntax_tree(text);
            let next_tree = syntax_tree(toggled(document, format).text);
            let blocks = blocks_of(text, document.embeds);
            let areas = areas_in(tree, bytes_of(text), blocks, format);
            let remove = removes(text, areas, targets(text, document.selection, areas));
            let plain = InlineStyles { strong: false, emphasis: false, strikethrough: false };
            plan(text, document.selection, tree, blocks, format) matches Some(planned)
                && styles_in(
                next_tree,
                moved(byte_offset(text, i) as usize, planned.edits, true),
                plain,
            ) matches Some(after) && match format {
                InlineFormat::Strong => after.strong == !remove,
                InlineFormat::Emphasis => after.emphasis == !remove,
            }
        }),
{
    let text = document.text;
    let tree = syntax_tree(text);
    let blocks = blocks_of(text, document.embeds);
    let areas = areas_in(tree, bytes_of(text), blocks, format);
    let found = targets(text, document.selection, areas);
    let remove = removes(text, areas, found);
    let planned = plan(text, document.selection, tree, blocks, format)->0;
    let expected = planned.expectations;
    lemma_offsets_grow(text, i, text.len() as int);
    lemma_targets_ask(text, areas, found, remove, format, t, k, i);
    let offset = byte_offset(text, i) as usize;
    let e = choose|e: int|
        0 <= e < expected.len() && (#[trigger] expected[e]).offset == offset && (match format {
            InlineFormat::Strong => expected[e].styles.strong == !remove,
            InlineFormat::Emphasis => expected[e].styles.emphasis == !remove,
        });
    assert(expected[e].offset == offset);
}

/// A toggle applies the style where a character that it acts on, white space
/// apart, is without it.
pub proof fn unstyled_text_is_styled(
    text: Seq<char>,
    areas: Seq<Area>,
    found: Seq<(usize, Range<usize>)>,
    t: int,
    k: int,
    i: int,
)
    requires
        0 <= t < found.len(),
        0 <= k < areas[found[t].0 as int].parts.len(),
        areas[found[t].0 as int].parts[k].eligibility is Partial,
        !areas[found[t].0 as int].parts[k].styled,
        0 <= i < text.len(),
        !whitespace(text[i]),
        areas[found[t].0 as int].parts[k].range.start <= byte_offset(text, i)
            < areas[found[t].0 as int].parts[k].range.end,
        found[t].1.start <= byte_offset(text, i) < found[t].1.end,
    ensures
        !removes(text, areas, found),
{
    let p = areas[found[t].0 as int].parts[k];
    let selected = found[t].1;
    let start = if p.range.start >= selected.start {
        p.range.start as int
    } else {
        selected.start as int
    };
    let end = if p.range.end <= selected.end {
        p.range.end as int
    } else {
        selected.end as int
    };
    lemma_index_at(text, start);
    lemma_index_at(text, end);
    assert(index_at(text, start) <= i < index_at(text, end));
    assert(has_text(text, start, end));
    assert(participates(p, selected));
    assert(substantive(text, p, selected));
    assert(!all_styled(text, areas[found[t].0 as int].parts, selected));
}

/// A toggle removes the style where all pieces of what it acts on have it.
pub proof fn styled_text_is_unstyled(
    text: Seq<char>,
    areas: Seq<Area>,
    found: Seq<(usize, Range<usize>)>,
)
    requires
        forall|t: int, k: int|
            0 <= t < found.len() && 0 <= k < areas[(#[trigger] found[t]).0 as int].parts.len()
                && areas[found[t].0 as int].parts[k].range.start < found[t].1.end
                && found[t].1.start < areas[found[t].0 as int].parts[k].range.end
                ==> (#[trigger] areas[found[t].0 as int].parts[k]).styled,
    ensures
        removes(text, areas, found),
{
    assert forall|t: int| 0 <= t < found.len() implies all_styled(
        text,
        areas[(#[trigger] found[t]).0 as int].parts,
        found[t].1,
    ) by {
        let parts = areas[found[t].0 as int].parts;
        assert forall|k: int|
            0 <= k < parts.len() && participates(#[trigger] parts[k], found[t].1)
                && substantive(text, parts[k], found[t].1) implies parts[k].styled by {
            assert(areas[found[t].0 as int].parts[k].styled);
        }
    }
}

} // verus!
