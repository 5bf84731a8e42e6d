//! The styles of the characters of a tree, and whether a toggle kept or set
//! them as it should.

use core::ops::Range;

use vstd::prelude::*;

use crate::analysis::edits::{disjoint, edits_view, Edit, SourceEdit};
use crate::formatting::atoms::InlineFormat;
use crate::formatting::plan::{no_styles, plain_styles, InlineStyles, StyleExpectation};
use crate::formatting::rewrite::{map_offset, moved};
use crate::strings::byte_offset;
use crate::syntax::{lemma_children_view, nodes_view, Node, NodeKind, SyntaxNode};
use crate::words::{index_at, Glyphs};

verus! {

/// Is a node of this kind content, rather than a construct around content?
pub open spec fn content_kind(kind: NodeKind) -> bool {
    kind is Text || kind is InlineCode || kind is InlineMath || kind is Image
}

/// `styles` with the one that a node of this kind gives.
pub open spec fn node_styles(kind: NodeKind, styles: InlineStyles) -> InlineStyles {
    match kind {
        NodeKind::Strong { .. } => InlineStyles {
            strong: true,
            emphasis: styles.emphasis,
            strikethrough: styles.strikethrough,
        },
        NodeKind::Emphasis { .. } => InlineStyles {
            strong: styles.strong,
            emphasis: true,
            strikethrough: styles.strikethrough,
        },
        NodeKind::Strikethrough => InlineStyles {
            strong: styles.strong,
            emphasis: styles.emphasis,
            strikethrough: true,
        },
        _ => styles,
    }
}

/// The styles of the content at `offset` in a node.
pub open spec fn styles_of(node: Node, offset: usize, inherited: InlineStyles) -> Option<
    InlineStyles,
>
    decreases node,
{
    if offset < node.range.start || offset >= node.range.end {
        None
    } else if content_kind(node.kind) {
        Some(node_styles(node.kind, inherited))
    } else {
        styles_in(node.children, offset, node_styles(node.kind, inherited))
    }
}

/// The styles of the first content at `offset` among the nodes.
pub open spec fn styles_in(nodes: Seq<Node>, offset: usize, inherited: InlineStyles) -> Option<
    InlineStyles,
>
    decreases nodes,
{
    if nodes.len() == 0 {
        None
    } else {
        match styles_of(nodes[0], offset, inherited) {
            Some(styles) => Some(styles),
            None => styles_in(nodes.drop_first(), offset, inherited),
        }
    }
}

fn is_content(kind: &NodeKind) -> (found: bool)
    ensures
        found == content_kind(*kind),
{
    match kind {
        NodeKind::Text => true,
        NodeKind::InlineCode { .. } => true,
        NodeKind::InlineMath { .. } => true,
        NodeKind::Image { .. } => true,
        _ => false,
    }
}

fn add_node_style(kind: &NodeKind, styles: InlineStyles) -> (more: InlineStyles)
    ensures
        more == node_styles(*kind, styles),
{
    let mut more = styles;
    match kind {
        NodeKind::Strong { .. } => {
            more.strong = true;
        },
        NodeKind::Emphasis { .. } => {
            more.emphasis = true;
        },
        NodeKind::Strikethrough => {
            more.strikethrough = true;
        },
        _ => {},
    }
    more
}

/// The styles of the content at `offset`.
pub fn inline_styles_at(nodes: &Vec<SyntaxNode>, offset: usize, inherited: InlineStyles) -> (styles:
    Option<InlineStyles>)
    ensures
        styles == styles_in(nodes_view(nodes@), offset, inherited),
    decreases nodes_view(nodes@),
{
    let ghost all = nodes_view(nodes@);
    let mut i: usize = 0;
    assert(all.skip(0) =~= all);
    while i < nodes.len()
        invariant
            i <= nodes@.len(),
            all == nodes_view(nodes@),
            styles_in(all, offset, inherited) == styles_in(all.skip(i as int), offset, inherited),
        decreases nodes@.len() - i,
    {
        let node = &nodes[i];
        proof {
            assert(all.skip(i as int)[0] == all[i as int]);
            assert(all[i as int] == node@);
            assert(all.skip(i as int).drop_first() =~= all.skip(i + 1));
            lemma_children_view(*node);
            assert(styles_in(all.skip(i as int), offset, inherited) == match styles_of(
                node@,
                offset,
                inherited,
            ) {
                Some(styles) => Some(styles),
                None => styles_in(all.skip(i + 1), offset, inherited),
            });
        }
        if node.range.start <= offset && offset < node.range.end {
            let styles = add_node_style(&node.kind, inherited);
            if is_content(&node.kind) {
                return Some(styles);
            }
            if let Some(found) = inline_styles_at(&node.children, offset, styles) {
                return Some(found);
            }
        }
        i = i + 1;
    }
    None
}

/// Does the content at `offset` carry the style?
pub fn style_at(nodes: &Vec<SyntaxNode>, offset: usize, format: InlineFormat, inherited: bool) -> (
    found: bool)
    ensures
        found == match styles_in(
            nodes_view(nodes@),
            offset,
            crate::formatting::plan::with_style(no_styles(), format, inherited),
        ) {
            Some(styles) => match format {
                InlineFormat::Strong => styles.strong,
                InlineFormat::Emphasis => styles.emphasis,
            },
            None => false,
        },
{
    let mut styles = plain_styles();
    match format {
        InlineFormat::Strong => {
            styles.strong = inherited;
        },
        InlineFormat::Emphasis => {
            styles.emphasis = inherited;
        },
    }
    match inline_styles_at(nodes, offset, styles) {
        Some(found) => match format {
            InlineFormat::Strong => found.strong,
            InlineFormat::Emphasis => found.emphasis,
        },
        None => false,
    }
}

// ---------------------------------------------------------------------------
// Expectations
// ---------------------------------------------------------------------------

/// Does the tree after the edits show the styles that are expected?
pub open spec fn met(tree: Seq<Node>, edits: Seq<Edit>, expected: Seq<StyleExpectation>) -> bool {
    forall|i: int|
        0 <= i < expected.len() ==> styles_in(
            tree,
            moved((#[trigger] expected[i]).offset, edits, true),
            no_styles(),
        ) == Some(expected[i].styles)
}

pub fn expectations_hold(
    tree: &Vec<SyntaxNode>,
    edits: &Vec<SourceEdit>,
    expectations: &Vec<StyleExpectation>,
) -> (hold: bool)
    requires
        disjoint(edits_view(edits@)),
    ensures
        hold == met(nodes_view(tree@), edits_view(edits@), expectations@),
{
    let mut i: usize = 0;
    while i < expectations.len()
        invariant
            i <= expectations@.len(),
            disjoint(edits_view(edits@)),
            forall|j: int|
                0 <= j < i ==> styles_in(
                    nodes_view(tree@),
                    moved((#[trigger] expectations@[j]).offset, edits_view(edits@), true),
                    no_styles(),
                ) == Some(expectations@[j].styles),
        decreases expectations@.len() - i,
    {
        let expected = expectations[i];
        let to: usize = map_offset(expected.offset, edits, true);
        let found = inline_styles_at(tree, to, plain_styles());
        let same = match found {
            Some(styles) => styles == expected.styles,
            None => false,
        };
        if !same {
            assert(styles_in(
                nodes_view(tree@),
                moved(expectations@[i as int].offset, edits_view(edits@), true),
                no_styles(),
            ) != Some(expectations@[i as int].styles));
            return false;
        }
        i = i + 1;
    }
    true
}

// ---------------------------------------------------------------------------
// The other styles
// ---------------------------------------------------------------------------

/// Do the two agree on all styles but the toggled one?
pub open spec fn same_other_styles(
    before: InlineStyles,
    after: InlineStyles,
    target: InlineFormat,
) -> bool {
    before.strikethrough == after.strikethrough && match target {
        InlineFormat::Strong => before.emphasis == after.emphasis,
        InlineFormat::Emphasis => before.strong == after.strong,
    }
}

/// Does character `i` keep its other styles?
pub open spec fn char_keeps(
    text: Seq<char>,
    i: int,
    original: Seq<Node>,
    candidate: Seq<Node>,
    edits: Seq<Edit>,
    target: InlineFormat,
) -> bool {
    let offset = byte_offset(text, i) as usize;
    match styles_in(original, offset, no_styles()) {
        Some(before) => match styles_in(candidate, moved(offset, edits, true), no_styles()) {
            Some(after) => same_other_styles(before, after, target),
            None => false,
        },
        None => false,
    }
}

/// Do the characters of the bytes of `range` keep their other styles?
pub open spec fn range_keeps(
    text: Seq<char>,
    range: Range<usize>,
    original: Seq<Node>,
    candidate: Seq<Node>,
    edits: Seq<Edit>,
    target: InlineFormat,
) -> bool {
    forall|i: int|
        index_at(text, range.start as int) <= i < index_at(text, range.end as int)
            ==> #[trigger] char_keeps(text, i, original, candidate, edits, target)
}

/// Does the content of the nodes keep its other styles?
pub open spec fn nodes_keep(
    nodes: Seq<Node>,
    text: Seq<char>,
    original: Seq<Node>,
    candidate: Seq<Node>,
    edits: Seq<Edit>,
    target: InlineFormat,
) -> bool
    decreases nodes,
{
    if nodes.len() == 0 {
        true
    } else {
        nodes_keep(nodes.drop_last(), text, original, candidate, edits, target) && if content_kind(
            nodes.last().kind,
        ) {
            range_keeps(text, nodes.last().range, original, candidate, edits, target)
        } else {
            nodes_keep(nodes.last().children, text, original, candidate, edits, target)
        }
    }
}

fn range_styles_hold(
    glyphs: &Glyphs,
    range: &Range<usize>,
    original: &Vec<SyntaxNode>,
    candidate: &Vec<SyntaxNode>,
    edits: &Vec<SourceEdit>,
    target: InlineFormat,
) -> (hold: bool)
    requires
        disjoint(edits_view(edits@)),
    ensures
        hold == range_keeps(
            glyphs@,
            *range,
            nodes_view(original@),
            nodes_view(candidate@),
            edits_view(edits@),
            target,
        ),
{
    let first: usize = glyphs.index_of(range.start);
    let limit: usize = glyphs.index_of(range.end);
    let mut i: usize = first;
    while i < limit
        invariant
            first == index_at(glyphs@, range.start as int),
            limit == index_at(glyphs@, range.end as int),
            first <= i,
            limit <= glyphs@.len(),
            disjoint(edits_view(edits@)),
            forall|j: int|
                first <= j < i ==> #[trigger] char_keeps(
                    glyphs@,
                    j,
                    nodes_view(original@),
                    nodes_view(candidate@),
                    edits_view(edits@),
                    target,
                ),
        decreases limit - i,
    {
        let offset: usize = glyphs.offset_of(i);
        let before = inline_styles_at(original, offset, plain_styles());
        let to: usize = map_offset(offset, edits, true);
        let after = inline_styles_at(candidate, to, plain_styles());
        let kept = match before {
            Some(b) => match after {
                Some(a) => b.strikethrough == a.strikethrough && match target {
                    InlineFormat::Strong => b.emphasis == a.emphasis,
                    InlineFormat::Emphasis => b.strong == a.strong,
                },
                None => false,
            },
            None => false,
        };
        assert(kept == char_keeps(
            glyphs@,
            i as int,
            nodes_view(original@),
            nodes_view(candidate@),
            edits_view(edits@),
            target,
        ));
        if !kept {
            return false;
        }
        i = i + 1;
    }
    true
}

/// Does all content of `nodes` keep its other styles?
fn nodes_styles_hold(
    nodes: &Vec<SyntaxNode>,
    glyphs: &Glyphs,
    original: &Vec<SyntaxNode>,
    candidate: &Vec<SyntaxNode>,
    edits: &Vec<SourceEdit>,
    target: InlineFormat,
) -> (hold: bool)
    requires
        disjoint(edits_view(edits@)),
    ensures
        hold == nodes_keep(
            nodes_view(nodes@),
            glyphs@,
            nodes_view(original@),
            nodes_view(candidate@),
            edits_view(edits@),
            target,
        ),
    decreases nodes_view(nodes@),
{
    let ghost all = nodes_view(nodes@);
    let ghost old_tree = nodes_view(original@);
    let ghost new_tree = nodes_view(candidate@);
    let ghost list = edits_view(edits@);
    let mut hold = true;
    let mut i: usize = 0;
    assert(all.take(0) =~= Seq::empty());
    while i < nodes.len()
        invariant
            i <= nodes@.len(),
            all == nodes_view(nodes@),
            old_tree == nodes_view(original@),
            new_tree == nodes_view(candidate@),
            list == edits_view(edits@),
            disjoint(list),
            hold == nodes_keep(all.take(i as int), glyphs@, old_tree, new_tree, list, target),
        decreases nodes@.len() - i,
    {
        let node = &nodes[i];
        proof {
            assert(all.take(i + 1).drop_last() =~= all.take(i as int));
            assert(all.take(i + 1).last() == all[i as int]);
            assert(all[i as int] == node@);
            lemma_children_view(*node);
        }
        let kept = if is_content(&node.kind) {
            range_styles_hold(glyphs, &node.range, original, candidate, edits, target)
        } else {
            nodes_styles_hold(&node.children, glyphs, original, candidate, edits, target)
        };
        hold = hold && kept;
        i = i + 1;
    }
    assert(all.take(i as int) =~= all);
    hold
}

/// Does all content keep the styles that are not toggled?
pub fn opposite_styles_hold(
    glyphs: &Glyphs,
    original: &Vec<SyntaxNode>,
    candidate: &Vec<SyntaxNode>,
    edits: &Vec<SourceEdit>,
    target: InlineFormat,
) -> (hold: bool)
    requires
        disjoint(edits_view(edits@)),
    ensures
        hold == nodes_keep(
            nodes_view(original@),
            glyphs@,
            nodes_view(original@),
            nodes_view(candidate@),
            edits_view(edits@),
            target,
        ),
{
    nodes_styles_hold(original, glyphs, original, candidate, edits, target)
}

} // verus!
