//! Toggling a style.

use core::ops::Range;

use vstd::prelude::*;

use crate::analysis::edits::{
    disjoint, edit, edits_view, in_order, insert_in_order, sort_edits, Edit, SourceEdit,
};
use crate::analysis::fences::{
    fenced_code_blocks_in_tree, fences_in, in_fences, in_some_range, is_in_fenced_code_blocks,
    is_in_ranges, FencedCodeBlock,
};
use crate::analysis::lists::{list_content_ranges_in_tree, list_ranges, DASH, PLUS};
use crate::analysis::normalize::{
    break_edits, consecutive_hard_break_edits, list_normalization_edits_in_tree, normalization,
};
use crate::analysis::pairs::{is_soft_break, soft_break};
use crate::embed::{blocks_of, embed_blocks_in_tree, EmbedBlock};
use crate::formatting::atoms::InlineFormat;
use crate::formatting::fingerprint::{
    block_fingerprint, block_signs, embed_fingerprint, embed_signs, protected_inline_fingerprint,
    protected_signs, resolved_signs, resolved_span_fingerprint, same_marks,
};
use crate::formatting::islands::{areas_in, collect_islands, islands_view, Area, Island};
use crate::formatting::plan::{
    desired_ranges, insertions, island_edits, island_expectations, plan_island, reach_is_closed,
    reach_of, removals, StyleExpectation,
};
use crate::formatting::rewrite::{
    applied, apply_edits, conflicting, dedup_edits, deduped, is_conflicting, moved_selection,
    remap_selection,
};
use crate::formatting::styles::{expectations_hold, met, nodes_keep, opposite_styles_hold};
use crate::formatting::targets::{
    is_removal, lemma_targets_in_bounds, removes, selected_ranges, targets,
};
use crate::parser::{parse, syntax_tree};
use crate::state::{Document, EditorState, Selection};
use crate::syntax::{lemma_children_view, node_fits, nodes_view, tree_fits, Node, NodeKind, SyntaxNode};
use crate::text::{bytes_of, NL, SPACE, TAB};
use crate::words::Glyphs;

verus! {

// ---------------------------------------------------------------------------
// Planning
// ---------------------------------------------------------------------------

/// The edits of a toggle, in order and free of overlaps, and what the text
/// should look like after them.
#[derive(Debug)]
pub struct TogglePlan {
    pub edits: Vec<SourceEdit>,
    pub expectations: Vec<StyleExpectation>,
}

/// The mathematical form of a [`TogglePlan`].
#[verifier::ext_equal]
pub struct Plan {
    pub edits: Seq<Edit>,
    pub expectations: Seq<StyleExpectation>,
}

impl View for TogglePlan {
    type V = Plan;

    open spec fn view(&self) -> Plan {
        Plan { edits: edits_view(self.edits@), expectations: self.expectations@ }
    }
}

/// The edits for the targets, island by island.
pub open spec fn target_edits(
    text: Seq<char>,
    areas: Seq<Area>,
    found: Seq<(usize, Range<usize>)>,
    remove: bool,
    format: InlineFormat,
) -> Seq<Edit>
    decreases found.len(),
{
    if found.len() == 0 {
        Seq::empty()
    } else {
        target_edits(text, areas, found.drop_last(), remove, format) + island_edits(
            text,
            areas[found.last().0 as int],
            found.last().1,
            remove,
            format,
        )
    }
}

/// What is expected for the targets.
pub open spec fn target_expectations(
    text: Seq<char>,
    areas: Seq<Area>,
    found: Seq<(usize, Range<usize>)>,
    remove: bool,
    format: InlineFormat,
) -> Seq<StyleExpectation>
    decreases found.len(),
{
    if found.len() == 0 {
        Seq::empty()
    } else {
        target_expectations(text, areas, found.drop_last(), remove, format) + island_expectations(
            text,
            areas[found.last().0 as int],
            found.last().1,
            remove,
            format,
        )
    }
}

/// The plan of a toggle; none where there is nothing to style or the edits
/// would overlap.
pub open spec fn plan(
    text: Seq<char>,
    selection: Selection,
    tree: Seq<Node>,
    blocks: Seq<EmbedBlock>,
    format: InlineFormat,
) -> Option<Plan> {
    let areas = areas_in(tree, bytes_of(text), blocks, format);
    let found = targets(text, selection, areas);
    let remove = removes(text, areas, found);
    let edits = deduped(in_order(target_edits(text, areas, found, remove, format)));
    if edits.len() == 0 || conflicting(edits) {
        None
    } else {
        Some(
            Plan {
                edits,
                expectations: target_expectations(text, areas, found, remove, format),
            },
        )
    }
}

/// Is `found` the plan `wanted`?
pub open spec fn same_plan(found: Option<TogglePlan>, wanted: Option<Plan>) -> bool {
    match found {
        Some(p) => wanted == Some(p@),
        None => wanted is None,
    }
}

/// Plans a toggle over a tree.
pub fn plan_toggle(
    markdown: &str,
    selection: Selection,
    tree: &Vec<SyntaxNode>,
    blocks: &Vec<EmbedBlock>,
    format: InlineFormat,
) -> (found: Option<TogglePlan>)
    ensures
        same_plan(found, plan(markdown@, selection, nodes_view(tree@), blocks@, format)),
        found matches Some(p) ==> disjoint(p@.edits),
{
    let glyphs = Glyphs::of(markdown);
    let mut islands: Vec<Island> = Vec::new();
    assert(islands_view(islands@) =~= Seq::empty());
    collect_islands(tree, markdown.as_bytes(), blocks, format, &mut islands);
    let ghost areas = areas_in(nodes_view(tree@), bytes_of(markdown@), blocks@, format);
    assert(islands_view(islands@) =~= areas);
    let found = selected_ranges(&glyphs, selection, &islands);
    let count: usize = islands.len();
    proof {
        assert forall|k: int| 0 <= k < found@.len() implies (#[trigger] found@[k]).0
            < islands@.len() by {
            lemma_targets_in_bounds(glyphs@, selection, areas, k);
        }
    }
    let remove = is_removal(&glyphs, &islands, &found);
    let mut edits: Vec<SourceEdit> = Vec::new();
    let mut expectations: Vec<StyleExpectation> = Vec::new();
    let mut k: usize = 0;
    assert(found@.take(0) =~= Seq::empty());
    assert(edits_view(edits@) =~= Seq::empty());
    while k < found.len()
        invariant
            k <= found@.len(),
            areas == islands_view(islands@),
            forall|i: int| 0 <= i < found@.len() ==> (#[trigger] found@[i]).0 < islands@.len(),
            edits_view(edits@) == target_edits(
                glyphs@,
                areas,
                found@.take(k as int),
                remove,
                format,
            ),
            expectations@ == target_expectations(
                glyphs@,
                areas,
                found@.take(k as int),
                remove,
                format,
            ),
        decreases found@.len() - k,
    {
        proof {
            assert(found@.take(k + 1).drop_last() =~= found@.take(k as int));
            assert(found@.take(k + 1).last() == found@[k as int]);
            assert(areas[found@[k as int].0 as int] == islands@[found@[k as int].0 as int]@);
        }
        plan_island(
            &glyphs,
            &islands[found[k].0],
            &found[k].1,
            remove,
            format,
            &mut edits,
            &mut expectations,
        );
        k = k + 1;
    }
    assert(found@.take(k as int) =~= found@);
    let edits = dedup_edits(&sort_edits(&edits));
    if edits.len() == 0 || is_conflicting(&edits) {
        return None;
    }
    Some(TogglePlan { edits, expectations })
}

// ---------------------------------------------------------------------------
// Acceptance
// ---------------------------------------------------------------------------

/// Is there a bullet at `p` with text right behind it? Such a line is given the
/// missing space and becomes a list item.
pub open spec fn glued_at(b: Seq<u8>, p: int) -> bool {
    &&& 0 <= p
    &&& p + 1 < b.len()
    &&& b[p] == DASH || b[p] == PLUS
    &&& b[p + 1] != SPACE && b[p + 1] != TAB && b[p + 1] != NL && b[p + 1] != b[p]
}

/// Does the content of the block begin with such a bullet?
pub open spec fn glued_block(node: Node, b: Seq<u8>) -> bool {
    match node.kind {
        NodeKind::Paragraph => glued_at(b, node.range.start as int),
        NodeKind::ListItem { marker_range } => glued_at(b, marker_range.end as int),
        _ => false,
    }
}

/// Does the content of a block begin with such a bullet?
pub open spec fn glued_bullet(nodes: Seq<Node>, b: Seq<u8>) -> bool
    decreases nodes,
{
    nodes.len() > 0 && (glued_bullet(nodes.drop_last(), b) || glued_block(nodes.last(), b)
        || glued_bullet(nodes.last().children, b))
}

/// The ranges of all display formulas of the tree.
pub open spec fn math_ranges(nodes: Seq<Node>) -> Seq<Range<usize>>
    decreases nodes,
{
    if nodes.len() == 0 {
        Seq::empty()
    } else {
        let n = nodes.last();
        let own = if n.kind is DisplayMath {
            seq![n.range]
        } else {
            Seq::empty()
        };
        math_ranges(nodes.drop_last()) + own + math_ranges(n.children)
    }
}

/// Is the newline at `p` a soft break that ends no line of code and lies in none
/// of the ranges `apart`? Such a newline becomes a paragraph break.
pub open spec fn soft_at(
    b: Seq<u8>,
    fences: Seq<FencedCodeBlock>,
    apart: Seq<Range<usize>>,
    p: int,
) -> bool {
    soft_break(b, p) && !in_fences(fences, p) && !in_some_range(apart, p)
}

/// Does the paragraph hold such a newline?
pub open spec fn soft_block(
    node: Node,
    b: Seq<u8>,
    fences: Seq<FencedCodeBlock>,
    apart: Seq<Range<usize>>,
) -> bool {
    node.kind is Paragraph && exists|p: int|
        node.range.start <= p < node.range.end && #[trigger] soft_at(b, fences, apart, p)
}

/// Does a paragraph of the tree hold such a newline?
pub open spec fn soft_breaks(
    nodes: Seq<Node>,
    b: Seq<u8>,
    fences: Seq<FencedCodeBlock>,
    apart: Seq<Range<usize>>,
) -> bool
    decreases nodes,
{
    nodes.len() > 0 && (soft_breaks(nodes.drop_last(), b, fences, apart) || soft_block(
        nodes.last(),
        b,
        fences,
        apart,
    ) || soft_breaks(nodes.last().children, b, fences, apart))
}

/// Is the text in canonical form as far as its tree tells: no bullet without
/// its space, no soft break in a paragraph outside of lists and display formulas,
/// no doubled hard break, and lists in order?
pub open spec fn settled(b: Seq<u8>, tree: Seq<Node>, cursors: Seq<usize>) -> bool {
    &&& !glued_bullet(tree, b)
    &&& !soft_breaks(tree, b, fences_in(tree, b), list_ranges(tree, b) + math_ranges(tree))
    &&& break_edits(b, cursors, 0).len() == 0
    &&& normalization(b, tree, cursors).len() == 0
}

fn is_glued_at(bytes: &[u8], p: usize) -> (found: bool)
    ensures
        found == glued_at(bytes@, p as int),
{
    let size: usize = bytes.len();
    if p >= size || size - p < 2 {
        return false;
    }
    let c = bytes[p];
    let next = bytes[p + 1];
    (c == DASH || c == PLUS) && next != SPACE && next != TAB && next != NL && next != c
}

fn has_glued_bullet(nodes: &Vec<SyntaxNode>, bytes: &[u8]) -> (found: bool)
    ensures
        found == glued_bullet(nodes_view(nodes@), bytes@),
    decreases nodes_view(nodes@),
{
    let ghost all = nodes_view(nodes@);
    let mut found = false;
    let mut i: usize = 0;
    assert(all.take(0) =~= Seq::empty());
    while i < nodes.len()
        invariant
            i <= nodes@.len(),
            all == nodes_view(nodes@),
            found == glued_bullet(all.take(i as int), bytes@),
        decreases nodes@.len() - i,
    {
        let node = &nodes[i];
        proof {
            assert(all.take(i + 1).drop_last() =~= all.take(i as int));
            assert(all.take(i + 1).last() == all[i as int]);
            assert(all[i as int] == node@);
            lemma_children_view(*node);
        }
        let own = match &node.kind {
            NodeKind::Paragraph => is_glued_at(bytes, node.range.start),
            NodeKind::ListItem { marker_range } => is_glued_at(bytes, marker_range.end),
            _ => false,
        };
        let below = has_glued_bullet(&node.children, bytes);
        found = found || own || below;
        i = i + 1;
    }
    assert(all.take(i as int) =~= all);
    found
}

fn collect_math_ranges(nodes: &Vec<SyntaxNode>, out: &mut Vec<Range<usize>>)
    ensures
        final(out)@ == old(out)@ + math_ranges(nodes_view(nodes@)),
    decreases nodes_view(nodes@),
{
    let ghost before = out@;
    let ghost all = nodes_view(nodes@);
    assert(all.take(0) =~= Seq::empty());
    let mut i: usize = 0;
    while i < nodes.len()
        invariant
            i <= nodes@.len(),
            all == nodes_view(nodes@),
            out@ =~= before + math_ranges(all.take(i as int)),
        decreases nodes@.len() - i,
    {
        let node = &nodes[i];
        proof {
            assert(all.take(i + 1).drop_last() =~= all.take(i as int));
            assert(all.take(i + 1).last() == all[i as int]);
            assert(all[i as int] == node@);
            lemma_children_view(*node);
        }
        if let NodeKind::DisplayMath { .. } = node.kind {
            out.push(node.range.start..node.range.end);
        }
        collect_math_ranges(&node.children, out);
        i = i + 1;
    }
    assert(all.take(i as int) =~= all);
}

fn has_soft_break(
    nodes: &Vec<SyntaxNode>,
    bytes: &[u8],
    fences: &Vec<FencedCodeBlock>,
    apart: &Vec<Range<usize>>,
) -> (found: bool)
    requires
        tree_fits(nodes_view(nodes@), bytes@),
    ensures
        found == soft_breaks(nodes_view(nodes@), bytes@, fences@, apart@),
    decreases nodes_view(nodes@),
{
    let ghost all = nodes_view(nodes@);
    let mut found = false;
    let mut i: usize = 0;
    assert(all.take(0) =~= Seq::empty());
    while i < nodes.len()
        invariant
            i <= nodes@.len(),
            all == nodes_view(nodes@),
            tree_fits(all, bytes@),
            found == soft_breaks(all.take(i as int), bytes@, fences@, apart@),
        decreases nodes@.len() - i,
    {
        let node = &nodes[i];
        proof {
            assert(all.take(i + 1).drop_last() =~= all.take(i as int));
            assert(all.take(i + 1).last() == all[i as int]);
            assert(all[i as int] == node@);
            assert(node_fits(all[i as int], bytes@));
            lemma_children_view(*node);
        }
        let mut own = false;
        if let NodeKind::Paragraph = node.kind {
            let mut p: usize = node.range.start;
            while p < node.range.end
                invariant
                    node.range.start <= p <= node.range.end <= bytes@.len(),
                    own == exists|q: int|
                        node.range.start <= q < p && #[trigger] soft_at(
                            bytes@,
                            fences@,
                            apart@,
                            q,
                        ),
                decreases node.range.end - p,
            {
                let here = is_soft_break(bytes, p) && !is_in_fenced_code_blocks(
                    fences.as_slice(),
                    p,
                ) && !is_in_ranges(p, apart.as_slice());
                assert(here == soft_at(bytes@, fences@, apart@, p as int));
                own = own || here;
                p = p + 1;
            }
        }
        let below = has_soft_break(&node.children, bytes, fences, apart);
        found = found || own || below;
        i = i + 1;
    }
    assert(all.take(i as int) =~= all);
    found
}

/// The ends of a selection.
pub open spec fn ends(selection: Selection) -> Seq<usize> {
    seq![selection.anchor_offset(), selection.head_offset()]
}

/// Is the text in canonical form as far as its tree tells?
pub fn is_settled(markdown: &str, tree: &Vec<SyntaxNode>, selection: Selection) -> (found: bool)
    requires
        tree_fits(nodes_view(tree@), bytes_of(markdown@)),
    ensures
        found == settled(bytes_of(markdown@), nodes_view(tree@), ends(selection)),
{
    let mut cursors: Vec<usize> = Vec::new();
    cursors.push(selection.anchor());
    cursors.push(selection.head());
    assert(cursors@ =~= ends(selection));
    let bytes = markdown.as_bytes();
    let breaks = consecutive_hard_break_edits(markdown, cursors.as_slice());
    let lists = list_normalization_edits_in_tree(tree.as_slice(), bytes, cursors.as_slice());
    let fences = fenced_code_blocks_in_tree(tree.as_slice(), bytes);
    let mut apart = list_content_ranges_in_tree(tree.as_slice(), bytes);
    collect_math_ranges(tree, &mut apart);
    !has_glued_bullet(tree, bytes) && !has_soft_break(tree, bytes, &fences, &apart)
        && breaks.len() == 0 && lists.len() == 0
}

/// Does the text after the edits read back as intended? It is in canonical
/// form, its blocks, protected constructs, escapes and embeds are the same, all
/// content keeps its other styles, and what is expected of the toggled style
/// holds.
pub open spec fn acceptable(
    text: Seq<char>,
    tree: Seq<Node>,
    blocks: Seq<EmbedBlock>,
    planned: Plan,
    next: Seq<char>,
    next_tree: Seq<Node>,
    next_blocks: Seq<EmbedBlock>,
    selection: Selection,
    format: InlineFormat,
) -> bool {
    let b = bytes_of(text);
    let c = bytes_of(next);
    &&& settled(c, next_tree, ends(selection))
    &&& block_signs(tree) == block_signs(next_tree)
    &&& protected_signs(tree, b) == protected_signs(next_tree, c)
    &&& resolved_signs(b, tree) == resolved_signs(c, next_tree)
    &&& embed_signs(blocks, b) == embed_signs(next_blocks, c)
    &&& nodes_keep(tree, text, tree, next_tree, planned.edits, format)
    &&& met(next_tree, planned.edits, planned.expectations)
}

/// Does the text `next` after the edits of a plan read back as intended?
pub fn accepts(
    markdown: &str,
    tree: &Vec<SyntaxNode>,
    blocks: &Vec<EmbedBlock>,
    planned: &TogglePlan,
    next: &str,
    next_tree: &Vec<SyntaxNode>,
    next_blocks: &Vec<EmbedBlock>,
    selection: Selection,
    format: InlineFormat,
) -> (accepted: bool)
    requires
        disjoint(planned@.edits),
        tree_fits(nodes_view(next_tree@), bytes_of(next@)),
    ensures
        accepted == acceptable(
            markdown@,
            nodes_view(tree@),
            blocks@,
            planned@,
            next@,
            nodes_view(next_tree@),
            next_blocks@,
            selection,
            format,
        ),
{
    let bytes = markdown.as_bytes();
    let next_bytes = next.as_bytes();
    let glyphs = Glyphs::of(markdown);
    is_settled(next, next_tree, selection) && same_marks(
        &block_fingerprint(tree),
        &block_fingerprint(next_tree),
    ) && same_marks(
        &protected_inline_fingerprint(bytes, tree),
        &protected_inline_fingerprint(next_bytes, next_tree),
    ) && same_marks(
        &resolved_span_fingerprint(bytes, tree),
        &resolved_span_fingerprint(next_bytes, next_tree),
    ) && same_marks(
        &embed_fingerprint(bytes, blocks),
        &embed_fingerprint(next_bytes, next_blocks),
    ) && opposite_styles_hold(&glyphs, tree, next_tree, &planned.edits, format)
        && expectations_hold(next_tree, &planned.edits, &planned.expectations)
}

// ---------------------------------------------------------------------------
// The toggle
// ---------------------------------------------------------------------------

/// The document after a toggle: that with the edits where they are acceptable,
/// and otherwise the one before.
pub open spec fn toggled(document: Document, format: InlineFormat) -> Document {
    let tree = syntax_tree(document.text);
    let blocks = blocks_of(document.text, document.embeds);
    match plan(document.text, document.selection, tree, blocks, format) {
        Some(planned) => {
            let next = applied(document.text, planned.edits);
            let selection = moved_selection(document.selection, planned.edits);
            if acceptable(
                document.text,
                tree,
                blocks,
                planned,
                next,
                syntax_tree(next),
                blocks_of(next, document.embeds),
                selection,
                format,
            ) {
                Document { text: next, selection, embeds: document.embeds }
            } else {
                document
            }
        },
        None => document,
    }
}

/// Toggles a style over the selection, or over the word at the caret.
pub fn toggle(state: EditorState, format: InlineFormat) -> (next: EditorState)
    ensures
        next@ == toggled(state@, format),
{
    let tree = parse(state.markdown.as_str());
    let blocks = embed_blocks_in_tree(&tree, state.markdown.as_str().as_bytes(), &state.embeds);
    let planned = match plan_toggle(
        state.markdown.as_str(),
        state.selection,
        &tree,
        &blocks,
        format,
    ) {
        Some(p) => p,
        None => {
            return state;
        },
    };
    let glyphs = Glyphs::of(state.markdown.as_str());
    let markdown = apply_edits(&glyphs, &planned.edits);
    let selection = remap_selection(state.selection, &planned.edits);
    let next_tree = parse(markdown.as_str());
    let next_blocks = embed_blocks_in_tree(&next_tree, markdown.as_str().as_bytes(), &state.embeds);
    if accepts(
        state.markdown.as_str(),
        &tree,
        &blocks,
        &planned,
        markdown.as_str(),
        &next_tree,
        &next_blocks,
        selection,
        format,
    ) {
        EditorState { markdown, selection, embeds: state.embeds }
    } else {
        state
    }
}

// ---------------------------------------------------------------------------
// Laws
// ---------------------------------------------------------------------------

/// A toggle never changes the blocks of a document, nor its links, images,
/// code, math, escapes or embeds.
pub proof fn toggling_keeps_the_structure(document: Document, format: InlineFormat)
    ensures
        ({
            let next = toggled(document, format);
            let tree = syntax_tree(document.text);
            let next_tree = syntax_tree(next.text);
            let b = bytes_of(document.text);
            let c = bytes_of(next.text);
            &&& block_signs(next_tree) == block_signs(tree)
            &&& protected_signs(next_tree, c) == protected_signs(tree, b)
            &&& resolved_signs(c, next_tree) == resolved_signs(b, tree)
            &&& embed_signs(blocks_of(next.text, document.embeds), c) == embed_signs(
                blocks_of(document.text, document.embeds),
                b,
            )
            &&& next.embeds == document.embeds
        }),
{
}

/// A toggle that changes the document reads back as it was meant: the style is
/// where it was to be, all content keeps its other styles, and the text is in
/// canonical form.
pub proof fn toggles_read_back(document: Document, format: InlineFormat)
    ensures
        ({
            let next = toggled(document, format);
            let tree = syntax_tree(document.text);
            let next_tree = syntax_tree(next.text);
            let blocks = blocks_of(document.text, document.embeds);
            next == document || (plan(
                document.text,
                document.selection,
                tree,
                blocks,
                format,
            ) matches Some(planned) && {
                &&& met(next_tree, planned.edits, planned.expectations)
                &&& nodes_keep(tree, document.text, tree, next_tree, planned.edits, format)
                &&& settled(bytes_of(next.text), next_tree, ends(next.selection))
            })
        }),
{
}

/// Is the range a delimiter of an occurrence of the style in the islands?
pub open spec fn is_delimiter(areas: Seq<Area>, range: Range<usize>) -> bool {
    exists|a: int, f: int| #[trigger] delimits(areas, a, f, range)
}

/// Is the range a delimiter of the occurrence `f` in the island `a`?
pub open spec fn delimits(areas: Seq<Area>, a: int, f: int, range: Range<usize>) -> bool {
    &&& 0 <= a < areas.len()
    &&& 0 <= f < areas[a].formats.len()
    &&& range == areas[a].formats[f].opener || range == areas[a].formats[f].closer
}

/// Does the edit take a delimiter out, or put one in?
pub open spec fn is_delimiter_edit(e: Edit, areas: Seq<Area>, format: InlineFormat) -> bool {
    ||| e.text.len() == 0 && is_delimiter(areas, e.range)
    ||| e.text == format.sign() && e.range.start == e.range.end
}

pub open spec fn all_delimiter_edits(
    edits: Seq<Edit>,
    areas: Seq<Area>,
    format: InlineFormat,
) -> bool {
    forall|i: int| 0 <= i < edits.len() ==> is_delimiter_edit(#[trigger] edits[i], areas, format)
}

proof fn lemma_push_delimiter(edits: Seq<Edit>, e: Edit, areas: Seq<Area>, format: InlineFormat)
    requires
        all_delimiter_edits(edits, areas, format),
        is_delimiter_edit(e, areas, format),
    ensures
        all_delimiter_edits(edits.push(e), areas, format),
{
    assert forall|i: int| 0 <= i < edits.push(e).len() implies is_delimiter_edit(
        #[trigger] edits.push(e)[i],
        areas,
        format,
    ) by {
        if i < edits.len() {
            assert(edits.push(e)[i] == edits[i]);
        }
    }
}

proof fn lemma_removals(areas: Seq<Area>, a: int, members: Seq<usize>, format: InlineFormat)
    requires
        0 <= a < areas.len(),
        forall|i: int|
            0 <= i < members.len() ==> (#[trigger] members[i]) < areas[a].formats.len(),
    ensures
        all_delimiter_edits(removals(areas[a].formats, members), areas, format),
    decreases members.len(),
{
    if members.len() > 0 {
        let formats = areas[a].formats;
        let before = removals(formats, members.drop_last());
        let f = members.last() as int;
        assert forall|i: int| 0 <= i < members.drop_last().len() implies (
        #[trigger] members.drop_last()[i]) < formats.len() by {
            assert(members.drop_last()[i] == members[i]);
        }
        lemma_removals(areas, a, members.drop_last(), format);
        assert(members[members.len() - 1] < formats.len());
        let opener = edit(
            formats[f].opener.start as int,
            formats[f].opener.end as int,
            Seq::empty(),
        );
        let closer = edit(
            formats[f].closer.start as int,
            formats[f].closer.end as int,
            Seq::empty(),
        );
        assert(delimits(areas, a, f, opener.range));
        assert(delimits(areas, a, f, closer.range));
        lemma_push_delimiter(before, opener, areas, format);
        lemma_push_delimiter(before.push(opener), closer, areas, format);
    }
}

proof fn lemma_insertions(ranges: Seq<Range<usize>>, areas: Seq<Area>, format: InlineFormat)
    ensures
        all_delimiter_edits(insertions(ranges, format), areas, format),
    decreases ranges.len(),
{
    if ranges.len() > 0 {
        lemma_insertions(ranges.drop_last(), areas, format);
    }
}

proof fn lemma_target_edits(
    text: Seq<char>,
    areas: Seq<Area>,
    found: Seq<(usize, Range<usize>)>,
    remove: bool,
    format: InlineFormat,
)
    requires
        forall|i: int| 0 <= i < found.len() ==> (#[trigger] found[i]).0 < areas.len(),
        forall|a: int| 0 <= a < areas.len() ==> (#[trigger] areas[a]).formats.len() <= usize::MAX,
    ensures
        all_delimiter_edits(target_edits(text, areas, found, remove, format), areas, format),
    decreases found.len(),
{
    if found.len() > 0 {
        assert forall|i: int| 0 <= i < found.drop_last().len() implies (
        #[trigger] found.drop_last()[i]).0 < areas.len() by {
            assert(found.drop_last()[i] == found[i]);
        }
        lemma_target_edits(text, areas, found.drop_last(), remove, format);
        assert(found[found.len() - 1].0 < areas.len());
        let a = found.last().0 as int;
        let area = areas[a];
        let selected = found.last().1;
        reach_is_closed(area.formats, selected);
        lemma_removals(areas, a, reach_of(area.formats, selected).members, format);
        lemma_insertions(desired_ranges(text, area, selected, remove), areas, format);
    }
}

proof fn lemma_insert_delimiter(
    sorted: Seq<Edit>,
    e: Edit,
    areas: Seq<Area>,
    format: InlineFormat,
)
    requires
        all_delimiter_edits(sorted, areas, format),
        is_delimiter_edit(e, areas, format),
    ensures
        all_delimiter_edits(insert_in_order(sorted, e), areas, format),
    decreases sorted.len(),
{
    if sorted.len() > 0 {
        assert(is_delimiter_edit(sorted[sorted.len() - 1], areas, format));
        assert(all_delimiter_edits(sorted.drop_last(), areas, format));
        lemma_insert_delimiter(sorted.drop_last(), e, areas, format);
        lemma_push_delimiter(
            insert_in_order(sorted.drop_last(), e),
            sorted.last(),
            areas,
            format,
        );
    }
    lemma_push_delimiter(sorted, e, areas, format);
}

proof fn lemma_ordered_delimiters(edits: Seq<Edit>, areas: Seq<Area>, format: InlineFormat)
    requires
        all_delimiter_edits(edits, areas, format),
    ensures
        all_delimiter_edits(in_order(edits), areas, format),
    decreases edits.len(),
{
    if edits.len() > 0 {
        assert(is_delimiter_edit(edits[edits.len() - 1], areas, format));
        assert(all_delimiter_edits(edits.drop_last(), areas, format));
        lemma_ordered_delimiters(edits.drop_last(), areas, format);
        lemma_insert_delimiter(in_order(edits.drop_last()), edits.last(), areas, format);
    }
}

proof fn lemma_deduped_delimiters(edits: Seq<Edit>, areas: Seq<Area>, format: InlineFormat)
    requires
        all_delimiter_edits(edits, areas, format),
    ensures
        all_delimiter_edits(deduped(edits), areas, format),
    decreases edits.len(),
{
    if edits.len() > 0 {
        assert(is_delimiter_edit(edits[edits.len() - 1], areas, format));
        assert(all_delimiter_edits(edits.drop_last(), areas, format));
        lemma_deduped_delimiters(edits.drop_last(), areas, format);
        lemma_push_delimiter(deduped(edits.drop_last()), edits.last(), areas, format);
    }
}

/// A toggle takes delimiters of the style out and puts delimiters in, and edits
/// nothing else.
pub proof fn toggles_edit_delimiters_only(
    text: Seq<char>,
    selection: Selection,
    tree: Seq<Node>,
    blocks: Seq<EmbedBlock>,
    format: InlineFormat,
)
    requires
        ({
            let areas = areas_in(tree, bytes_of(text), blocks, format);
            &&& areas.len() <= usize::MAX
            &&& forall|a: int|
                0 <= a < areas.len() ==> (#[trigger] areas[a]).formats.len() <= usize::MAX
        }),
    ensures
        plan(text, selection, tree, blocks, format) matches Some(planned) ==> all_delimiter_edits(
            planned.edits,
            areas_in(tree, bytes_of(text), blocks, format),
            format,
        ),
{
    let areas = areas_in(tree, bytes_of(text), blocks, format);
    let found = targets(text, selection, areas);
    let remove = removes(text, areas, found);
    let edits = target_edits(text, areas, found, remove, format);
    assert forall|i: int| 0 <= i < found.len() implies (#[trigger] found[i]).0 < areas.len() by {
        lemma_targets_in_bounds(text, selection, areas, i);
    }
    lemma_target_edits(text, areas, found, remove, format);
    lemma_ordered_delimiters(edits, areas, format);
    lemma_deduped_delimiters(in_order(edits), areas, format);
}

} // verus!
