//! Islands: the runs of inline content that are styled independently.

use core::ops::Range;

use vstd::prelude::*;

use crate::embed::EmbedBlock;
use crate::escapes::{scan, spans_from, spans_view, Span};
use crate::formatting::atoms::{
    atoms_view, collect_inline, formats_in, parts_in, Atom, FormatNode, InlineContext, InlineFormat,
    Part,
};
use crate::formatting::ranges::{greater, lesser, max_offset, min_offset, overlap, overlaps};
use crate::syntax::{lemma_children_view, nodes_view, Node, NodeKind, SyntaxNode};

verus! {

/// A run of inline content, with its pieces and the occurrences of the style.
#[derive(Debug)]
pub struct Island {
    pub range: Range<usize>,
    pub atoms: Vec<Atom>,
    pub formats: Vec<FormatNode>,
}

/// The mathematical form of an [`Island`].
#[verifier::ext_equal]
pub struct Area {
    pub range: Range<usize>,
    pub parts: Seq<Part>,
    pub formats: Seq<FormatNode>,
}

impl View for Island {
    type V = Area;

    open spec fn view(&self) -> Area {
        Area { range: self.range, parts: atoms_view(self.atoms@), formats: self.formats@ }
    }
}

/// The mathematical form of a list of islands.
pub open spec fn islands_view(islands: Seq<Island>) -> Seq<Area> {
    Seq::new(islands.len(), |i: int| islands[i]@)
}

// ---------------------------------------------------------------------------
// Kinds of nodes
// ---------------------------------------------------------------------------

pub open spec fn block_kind(kind: NodeKind) -> bool {
    match kind {
        NodeKind::Paragraph => true,
        NodeKind::Heading { .. } => true,
        NodeKind::CodeBlock { .. } => true,
        NodeKind::BlockQuote => true,
        NodeKind::List { .. } => true,
        NodeKind::ListItem { .. } => true,
        NodeKind::Table => true,
        NodeKind::TableRow { .. } => true,
        NodeKind::TableCell => true,
        NodeKind::ThematicBreak => true,
        _ => false,
    }
}

pub open spec fn inline_kind(kind: NodeKind) -> bool {
    match kind {
        NodeKind::Text => true,
        NodeKind::Strong { .. } => true,
        NodeKind::Emphasis { .. } => true,
        NodeKind::Strikethrough => true,
        NodeKind::InlineCode { .. } => true,
        NodeKind::InlineMath { .. } => true,
        NodeKind::Image { .. } => true,
        NodeKind::Link { .. } => true,
        NodeKind::LineBreak => true,
        _ => false,
    }
}

pub fn is_block_node(kind: &NodeKind) -> (found: bool)
    ensures
        found == block_kind(*kind),
{
    match kind {
        NodeKind::Paragraph => true,
        NodeKind::Heading { .. } => true,
        NodeKind::CodeBlock { .. } => true,
        NodeKind::BlockQuote => true,
        NodeKind::List { .. } => true,
        NodeKind::ListItem { .. } => true,
        NodeKind::Table => true,
        NodeKind::TableRow { .. } => true,
        NodeKind::TableCell => true,
        NodeKind::ThematicBreak => true,
        _ => false,
    }
}

pub fn is_inline_node(kind: &NodeKind) -> (found: bool)
    ensures
        found == inline_kind(*kind),
{
    match kind {
        NodeKind::Text => true,
        NodeKind::Strong { .. } => true,
        NodeKind::Emphasis { .. } => true,
        NodeKind::Strikethrough => true,
        NodeKind::InlineCode { .. } => true,
        NodeKind::InlineMath { .. } => true,
        NodeKind::Image { .. } => true,
        NodeKind::Link { .. } => true,
        NodeKind::LineBreak => true,
        _ => false,
    }
}

// ---------------------------------------------------------------------------
// Groups of inline children
// ---------------------------------------------------------------------------

/// Where the first of the nodes starts.
pub open spec fn first_start(nodes: Seq<Node>) -> usize
    decreases nodes.len(),
{
    if nodes.len() == 0 {
        usize::MAX
    } else {
        lesser(first_start(nodes.drop_last()), nodes.last().range.start)
    }
}

/// Where the last of the nodes ends.
pub open spec fn last_end(nodes: Seq<Node>) -> usize
    decreases nodes.len(),
{
    if nodes.len() == 0 {
        0
    } else {
        greater(last_end(nodes.drop_last()), nodes.last().range.end)
    }
}

/// The escapes and character references of the bytes `[start, end)`.
pub open spec fn spans_between(b: Seq<u8>, start: usize, end: usize) -> Seq<Span> {
    spans_from(
        b,
        start as int,
        if end <= b.len() {
            end as int
        } else {
            b.len() as int
        },
        Seq::empty(),
    )
}

/// The pieces that reach into `clamp`.
pub open spec fn kept_parts(parts: Seq<Part>, clamp: Option<Range<usize>>) -> Seq<Part>
    decreases parts.len(),
{
    if parts.len() == 0 {
        parts
    } else {
        let kept = kept_parts(parts.drop_last(), clamp);
        match clamp {
            Some(range) => if overlap(parts.last().range, range) {
                kept.push(parts.last())
            } else {
                kept
            },
            None => kept.push(parts.last()),
        }
    }
}

/// The island that a group of inline siblings is, if it has content.
pub open spec fn group_island(
    group: Seq<Node>,
    b: Seq<u8>,
    clamp: Option<Range<usize>>,
    format: InlineFormat,
) -> Seq<Area> {
    let start = first_start(group);
    let end = last_end(group);
    let parts = kept_parts(
        parts_in(group, spans_between(b, start, end), false, format, Seq::empty()),
        clamp,
    );
    let range = match clamp {
        Some(limits) => Range { start: greater(start, limits.start), end: lesser(end, limits.end) },
        None => Range { start, end },
    };
    if parts.len() == 0 || range.start >= range.end {
        Seq::empty()
    } else {
        seq![Area { range, parts, formats: formats_in(group, format) }]
    }
}

/// The islands among the children from `i` on, where the current group began
/// with child `g`.
pub open spec fn groups_from(
    children: Seq<Node>,
    g: int,
    i: int,
    b: Seq<u8>,
    clamp: Option<Range<usize>>,
    format: InlineFormat,
) -> Seq<Area>
    decreases children.len() - i,
{
    if i >= children.len() {
        group_island(children.subrange(g, children.len() as int), b, clamp, format)
    } else if inline_kind(children[i].kind) {
        groups_from(children, g, i + 1, b, clamp, format)
    } else {
        group_island(children.subrange(g, i), b, clamp, format) + groups_from(
            children,
            i + 1,
            i + 1,
            b,
            clamp,
            format,
        )
    }
}

/// The islands that the inline children of a node form.
pub open spec fn inline_groups(
    children: Seq<Node>,
    b: Seq<u8>,
    clamp: Option<Range<usize>>,
    format: InlineFormat,
) -> Seq<Area> {
    groups_from(children, 0, 0, b, clamp, format)
}

fn keep_atoms(atoms: &Vec<Atom>, clamp: &Option<Range<usize>>) -> (kept: Vec<Atom>)
    ensures
        atoms_view(kept@) == kept_parts(atoms_view(atoms@), *clamp),
{
    let ghost all = atoms_view(atoms@);
    let mut kept: Vec<Atom> = Vec::new();
    let mut i: usize = 0;
    assert(atoms_view(kept@) =~= kept_parts(all.take(0), *clamp));
    while i < atoms.len()
        invariant
            i <= atoms@.len(),
            all == atoms_view(atoms@),
            atoms_view(kept@) == kept_parts(all.take(i as int), *clamp),
        decreases atoms@.len() - i,
    {
        let ghost before = atoms_view(kept@);
        proof {
            assert(all.take(i + 1).drop_last() =~= all.take(i as int));
            assert(all.take(i + 1).last() == all[i as int]);
        }
        let keep = match clamp {
            Some(range) => overlaps(&atoms[i].range, range),
            None => true,
        };
        if keep {
            kept.push(atoms[i].clone());
            assert(atoms_view(kept@) =~= before.push(all[i as int]));
        }
        i = i + 1;
    }
    assert(all.take(i as int) =~= all);
    kept
}

/// Appends the island of the inline siblings `children[g..i]`.
fn push_group(
    children: &Vec<SyntaxNode>,
    g: usize,
    i: usize,
    bytes: &[u8],
    clamp: &Option<Range<usize>>,
    format: InlineFormat,
    out: &mut Vec<Island>,
)
    requires
        g <= i <= children@.len(),
    ensures
        islands_view(final(out)@) == islands_view(old(out)@) + group_island(
            nodes_view(children@).subrange(g as int, i as int),
            bytes@,
            *clamp,
            format,
        ),
{
    let ghost before = islands_view(out@);
    let ghost group = nodes_view(children@).subrange(g as int, i as int);
    let ghost area = group_island(group, bytes@, *clamp, format);
    let mut start: usize = usize::MAX;
    let mut end: usize = 0;
    let mut k: usize = g;
    assert(group.take(0) =~= Seq::empty());
    while k < i
        invariant
            g <= k <= i <= children@.len(),
            group == nodes_view(children@).subrange(g as int, i as int),
            start == first_start(group.take(k - g)),
            end == last_end(group.take(k - g)),
        decreases i - k,
    {
        assert(group.take(k + 1 - g).drop_last() =~= group.take(k - g));
        assert(group.take(k + 1 - g).last() == children@[k as int]@);
        start = min_offset(start, children[k].range.start);
        end = max_offset(end, children[k].range.end);
        k = k + 1;
    }
    assert(group.take(i - g) =~= group);
    let none: Vec<Range<usize>> = Vec::new();
    let resolved = scan(bytes, start..end, none.as_slice());
    let ghost spans = spans_between(bytes@, start, end);
    assert(none@ =~= Seq::empty());
    assert(spans_view(resolved@) == spans);
    let context: Vec<InlineContext> = Vec::new();
    assert(context@ =~= Seq::empty());
    let mut atoms: Vec<Atom> = Vec::new();
    let mut formats: Vec<FormatNode> = Vec::new();
    k = g;
    assert(atoms_view(atoms@) =~= Seq::empty());
    while k < i
        invariant
            g <= k <= i <= children@.len(),
            group == nodes_view(children@).subrange(g as int, i as int),
            spans == spans_view(resolved@),
            context@ == Seq::<InlineContext>::empty(),
            atoms_view(atoms@) =~= parts_in(
                group.take(k - g),
                spans,
                false,
                format,
                Seq::empty(),
            ),
            formats@ =~= formats_in(group.take(k - g), format),
        decreases i - k,
    {
        assert(group.take(k + 1 - g).drop_last() =~= group.take(k - g));
        assert(group.take(k + 1 - g).last() == children@[k as int]@);
        collect_inline(&children[k], &resolved, false, format, &context, &mut atoms, &mut formats);
        k = k + 1;
    }
    assert(group.take(i - g) =~= group);
    let atoms = keep_atoms(&atoms, clamp);
    if let Some(limits) = clamp {
        start = max_offset(start, limits.start);
        end = min_offset(end, limits.end);
    }
    if atoms.len() > 0 && start < end {
        out.push(Island { range: start..end, atoms, formats });
    }
    assert(islands_view(out@) =~= before + area);
}

/// Appends the islands that the inline children of a node form.
fn push_inline_groups(
    children: &Vec<SyntaxNode>,
    bytes: &[u8],
    clamp: Option<Range<usize>>,
    format: InlineFormat,
    out: &mut Vec<Island>,
)
    ensures
        islands_view(final(out)@) == islands_view(old(out)@) + inline_groups(
            nodes_view(children@),
            bytes@,
            clamp,
            format,
        ),
{
    let ghost all = nodes_view(children@);
    let ghost wanted = islands_view(out@) + inline_groups(all, bytes@, clamp, format);
    let mut g: usize = 0;
    let mut i: usize = 0;
    while i < children.len()
        invariant
            g <= i <= children@.len(),
            all == nodes_view(children@),
            wanted == islands_view(out@) + groups_from(
                all,
                g as int,
                i as int,
                bytes@,
                clamp,
                format,
            ),
        decreases children@.len() - i,
    {
        assert(all[i as int] == children@[i as int]@);
        if !is_inline_node(&children[i].kind) {
            let ghost before = islands_view(out@);
            push_group(children, g, i, bytes, &clamp, format, out);
            g = i + 1;
            assert(wanted =~= islands_view(out@) + groups_from(
                all,
                g as int,
                i + 1,
                bytes@,
                clamp,
                format,
            ));
        }
        i = i + 1;
    }
    push_group(children, g, i, bytes, &clamp, format, out);
}

// ---------------------------------------------------------------------------
// Blocks
// ---------------------------------------------------------------------------

/// Is the range that of an embed block?
pub open spec fn is_embed(blocks: Seq<EmbedBlock>, range: Range<usize>) -> bool {
    exists|i: int| 0 <= i < blocks.len() && (#[trigger] blocks[i]).range == range
}

/// Does the paragraph consist of display math alone?
pub open spec fn only_display_math(children: Seq<Node>) -> bool {
    children.len() == 1 && children[0].kind is DisplayMath
}

/// The islands of a block.
pub open spec fn areas_of(
    node: Node,
    b: Seq<u8>,
    blocks: Seq<EmbedBlock>,
    format: InlineFormat,
) -> Seq<Area>
    decreases node,
{
    match node.kind {
        NodeKind::Paragraph => {
            let own = if is_embed(blocks, node.range) || only_display_math(node.children) {
                Seq::empty()
            } else {
                inline_groups(node.children, b, None, format)
            };
            own + areas_below(node.children, b, blocks, format)
        },
        NodeKind::Heading { content_range, .. } => inline_groups(
            node.children,
            b,
            Some(content_range),
            format,
        ) + areas_below(node.children, b, blocks, format),
        NodeKind::TableCell => inline_groups(node.children, b, Some(node.range), format),
        NodeKind::ListItem { .. } => inline_groups(node.children, b, None, format) + areas_below(
            node.children,
            b,
            blocks,
            format,
        ),
        NodeKind::CodeBlock { .. } => Seq::empty(),
        NodeKind::DisplayMath { .. } => Seq::empty(),
        NodeKind::ThematicBreak => Seq::empty(),
        _ => areas_in(node.children, b, blocks, format),
    }
}

/// The islands of blocks.
pub open spec fn areas_in(
    nodes: Seq<Node>,
    b: Seq<u8>,
    blocks: Seq<EmbedBlock>,
    format: InlineFormat,
) -> Seq<Area>
    decreases nodes,
{
    if nodes.len() == 0 {
        Seq::empty()
    } else {
        areas_in(nodes.drop_last(), b, blocks, format) + areas_of(nodes.last(), b, blocks, format)
    }
}

/// The islands of the blocks at or below inline and block nodes.
pub open spec fn areas_below(
    nodes: Seq<Node>,
    b: Seq<u8>,
    blocks: Seq<EmbedBlock>,
    format: InlineFormat,
) -> Seq<Area>
    decreases nodes,
{
    if nodes.len() == 0 {
        Seq::empty()
    } else {
        areas_below(nodes.drop_last(), b, blocks, format) + if block_kind(nodes.last().kind) {
            areas_of(nodes.last(), b, blocks, format)
        } else {
            areas_below(nodes.last().children, b, blocks, format)
        }
    }
}

fn find_embed(blocks: &Vec<EmbedBlock>, range: &Range<usize>) -> (found: bool)
    ensures
        found == is_embed(blocks@, *range),
{
    let mut i: usize = 0;
    while i < blocks.len()
        invariant
            i <= blocks@.len(),
            forall|j: int| 0 <= j < i ==> (#[trigger] blocks@[j]).range != *range,
        decreases blocks@.len() - i,
    {
        if blocks[i].range.start == range.start && blocks[i].range.end == range.end {
            assert(blocks@[i as int].range == *range);
            return true;
        }
        i = i + 1;
    }
    false
}

fn collect_node_islands(
    node: &SyntaxNode,
    bytes: &[u8],
    blocks: &Vec<EmbedBlock>,
    format: InlineFormat,
    out: &mut Vec<Island>,
)
    ensures
        islands_view(final(out)@) == islands_view(old(out)@) + areas_of(
            node@,
            bytes@,
            blocks@,
            format,
        ),
    decreases node@,
{
    let ghost before = islands_view(out@);
    proof {
        lemma_children_view(*node);
    }
    match &node.kind {
        NodeKind::Paragraph => {
            let mut opaque = find_embed(blocks, &node.range);
            if node.children.len() == 1 {
                assert(node@.children[0] == node.children@[0]@);
                if let NodeKind::DisplayMath { .. } = node.children[0].kind {
                    opaque = true;
                }
            }
            if !opaque {
                push_inline_groups(&node.children, bytes, None, format, out);
            }
            collect_block_children(&node.children, bytes, blocks, format, out);
        },
        NodeKind::Heading { content_range, .. } => {
            let clamp = Some(content_range.start..content_range.end);
            push_inline_groups(&node.children, bytes, clamp, format, out);
            collect_block_children(&node.children, bytes, blocks, format, out);
        },
        NodeKind::TableCell => {
            let clamp = Some(node.range.start..node.range.end);
            push_inline_groups(&node.children, bytes, clamp, format, out);
        },
        NodeKind::ListItem { .. } => {
            push_inline_groups(&node.children, bytes, None, format, out);
            collect_block_children(&node.children, bytes, blocks, format, out);
        },
        NodeKind::CodeBlock { .. } => {},
        NodeKind::DisplayMath { .. } => {},
        NodeKind::ThematicBreak => {},
        _ => {
            collect_islands(&node.children, bytes, blocks, format, out);
        },
    }
    assert(islands_view(out@) =~= before + areas_of(node@, bytes@, blocks@, format));
}

/// Appends the islands of the blocks of a tree.
pub fn collect_islands(
    nodes: &Vec<SyntaxNode>,
    bytes: &[u8],
    blocks: &Vec<EmbedBlock>,
    format: InlineFormat,
    out: &mut Vec<Island>,
)
    ensures
        islands_view(final(out)@) == islands_view(old(out)@) + areas_in(
            nodes_view(nodes@),
            bytes@,
            blocks@,
            format,
        ),
    decreases nodes_view(nodes@),
{
    let ghost before = islands_view(out@);
    let ghost all = nodes_view(nodes@);
    assert(all.take(0) =~= Seq::empty());
    let mut i: usize = 0;
    while i < nodes.len()
        invariant
            i <= nodes@.len(),
            all == nodes_view(nodes@),
            islands_view(out@) =~= before + areas_in(all.take(i as int), bytes@, blocks@, format),
        decreases nodes@.len() - i,
    {
        let node = &nodes[i];
        proof {
            assert(all.take(i + 1).drop_last() =~= all.take(i as int));
            assert(all.take(i + 1).last() == all[i as int]);
            assert(all[i as int] == node@);
        }
        collect_node_islands(node, bytes, blocks, format, out);
        i = i + 1;
    }
    assert(all.take(i as int) =~= all);
}

fn collect_block_children(
    nodes: &Vec<SyntaxNode>,
    bytes: &[u8],
    blocks: &Vec<EmbedBlock>,
    format: InlineFormat,
    out: &mut Vec<Island>,
)
    ensures
        islands_view(final(out)@) == islands_view(old(out)@) + areas_below(
            nodes_view(nodes@),
            bytes@,
            blocks@,
            format,
        ),
    decreases nodes_view(nodes@),
{
    let ghost before = islands_view(out@);
    let ghost all = nodes_view(nodes@);
    assert(all.take(0) =~= Seq::empty());
    let mut i: usize = 0;
    while i < nodes.len()
        invariant
            i <= nodes@.len(),
            all == nodes_view(nodes@),
            islands_view(out@) =~= before + areas_below(
                all.take(i as int),
                bytes@,
                blocks@,
                format,
            ),
        decreases nodes@.len() - i,
    {
        let node = &nodes[i];
        proof {
            assert(all.take(i + 1).drop_last() =~= all.take(i as int));
            assert(all.take(i + 1).last() == all[i as int]);
            assert(all[i as int] == node@);
            lemma_children_view(*node);
        }
        if is_block_node(&node.kind) {
            collect_node_islands(node, bytes, blocks, format, out);
        } else {
            collect_block_children(&node.children, bytes, blocks, format, out);
        }
        i = i + 1;
    }
    assert(all.take(i as int) =~= all);
}

} // verus!
