//! Which byte positions a cursor may rest at.

use vstd::prelude::*;

use super::chain::{chain_of, enclosing_containers_at};
use super::fences::{fences_of, in_fences, is_in_fenced_code};
use super::pairs::{break_interior, is_paragraph_break_interior};
use super::prefix::{
    begins_with, blank_prefix, chain_blockquote_depth, chain_pair_shape, prefix_of, quote_count,
    walk_forward_exact,
};
use crate::parser::{parse, syntax_tree};
use crate::syntax::{
    lemma_children_view, node_fits, nodes_view, tree_fits, Node, NodeKind, SyntaxNode,
};
use crate::text::{
    bytes_of, hard_break_before, is_already_hard_break, line_end, line_start, line_start_offset,
    next_line_end, NL,
};

verus! {

// ---------------------------------------------------------------------------
// Hidden list indent
// ---------------------------------------------------------------------------

/// Width of the marker of a list item; 0 for other nodes.
pub open spec fn own_marker_width(n: Node) -> nat {
    match n.kind {
        NodeKind::ListItem { marker_range } => (marker_range.end - marker_range.start) as nat,
        _ => 0,
    }
}

/// Sum of the marker widths of the list items that overlap `[start, end)`. A
/// node that does not overlap it hides its descendants too.
pub open spec fn overlapping_width(nodes: Seq<Node>, start: int, end: int) -> nat
    decreases nodes,
{
    if nodes.len() == 0 {
        0
    } else {
        let n = nodes.last();
        overlapping_width(nodes.drop_last(), start, end) + if n.range.start >= end || n.range.end
            <= start {
            0
        } else {
            own_marker_width(n) + overlapping_width(n.children, start, end)
        }
    }
}

/// Bytes hidden at the start of the line that begins at `start`.
pub open spec fn line_indent(text: Seq<char>, start: int) -> nat {
    let b = bytes_of(text);
    overlapping_width(syntax_tree(text), start, line_end(b, start, b.len() as int))
}

/// Does `p` lie in the hidden indent of its line, before the line's content?
/// The start of the document does not.
pub open spec fn indent_interior(text: Seq<char>, p: int) -> bool {
    let b = bytes_of(text);
    let start = line_start(b, p);
    &&& p > 0
    &&& p < start + line_indent(text, start)
    &&& p < line_end(b, p, b.len() as int)
}

/// Adds `total` and the marker widths that overlap `[start, end)`, capped at
/// `usize::MAX`.
fn sum_overlapping(nodes: &[SyntaxNode], start: usize, end: usize, total: usize, Ghost(b): Ghost<
    Seq<u8>,
>) -> (sum: usize)
    requires
        tree_fits(nodes_view(nodes@), b),
    ensures
        sum == if total + overlapping_width(nodes_view(nodes@), start as int, end as int)
            <= usize::MAX {
            total + overlapping_width(nodes_view(nodes@), start as int, end as int)
        } else {
            usize::MAX as int
        },
    decreases nodes_view(nodes@),
{
    let ghost all = nodes_view(nodes@);
    let mut sum: usize = total;
    let mut i: usize = 0;
    assert(all.take(0) =~= Seq::empty());
    while i < nodes.len()
        invariant
            i <= nodes@.len(),
            all == nodes_view(nodes@),
            tree_fits(all, b),
            sum == if total + overlapping_width(all.take(i as int), start as int, end as int)
                <= usize::MAX {
                total + overlapping_width(all.take(i as int), start as int, end as int)
            } else {
                usize::MAX as int
            },
        decreases nodes@.len() - i,
    {
        let node = &nodes[i];
        proof {
            assert(all.take(i + 1).drop_last() =~= all.take(i as int));
            assert(all.take(i + 1).last() == all[i as int]);
            assert(all[i as int] == node@);
            assert(node_fits(all[i as int], b));
            lemma_children_view(*node);
        }
        if !(node.range.start >= end || node.range.end <= start) {
            if let NodeKind::ListItem { marker_range } = &node.kind {
                sum = sum.saturating_add(marker_range.end - marker_range.start);
            }
            sum = sum_overlapping(node.children.as_slice(), start, end, sum, Ghost(b));
        }
        i = i + 1;
    }
    assert(all.take(i as int) =~= all);
    sum
}

/// Sum of the marker widths of the list items that overlap `[start, end)`,
/// capped at `usize::MAX`.
fn sum_overlapping_item_marker_widths(markdown: &str, start: usize, end: usize) -> (sum: usize)
    ensures
        sum == if overlapping_width(syntax_tree(markdown@), start as int, end as int)
            <= usize::MAX {
            overlapping_width(syntax_tree(markdown@), start as int, end as int) as int
        } else {
            usize::MAX as int
        },
{
    let tree = parse(markdown);
    sum_overlapping(tree.as_slice(), start, end, 0, Ghost(bytes_of(markdown@)))
}

/// Bytes hidden at the start of the line at `line_start`, capped at
/// `usize::MAX`.
fn list_line_indent_at(markdown: &str, line_start: usize) -> (width: usize)
    ensures
        width == if line_indent(markdown@, line_start as int) <= usize::MAX {
            line_indent(markdown@, line_start as int) as int
        } else {
            usize::MAX as int
        },
{
    let bytes = markdown.as_bytes();
    let end = next_line_end(bytes, line_start, bytes.len());
    sum_overlapping_item_marker_widths(markdown, line_start, end)
}

/// Is `p` inside the hidden indent of a list line? On every line of a list
/// item the marker widths of all items around the line are hidden at its
/// start; only the content edge after them is a place for the cursor.
pub fn is_list_indent_interior(markdown: &str, p: usize) -> (found: bool)
    requires
        p <= bytes_of(markdown@).len(),
    ensures
        found == indent_interior(markdown@, p as int),
{
    if p == 0 {
        return false;
    }
    let bytes = markdown.as_bytes();
    let start = line_start_offset(bytes, p);
    let total = list_line_indent_at(markdown, start);
    if total == 0 {
        return false;
    }
    let end = next_line_end(bytes, p, bytes.len());
    p < end && p - start < total
}

// ---------------------------------------------------------------------------
// Pairs of the chain
// ---------------------------------------------------------------------------

/// Does `\n{blank}\n{content}` stand at `s`, its first newline ending no hard
/// break?
pub open spec fn pair_stands_at(b: Seq<u8>, s: int, blank: Seq<u8>, content: Seq<u8>) -> bool {
    &&& 0 <= s
    &&& s + 2 + blank.len() + content.len() <= b.len()
    &&& b[s] == NL
    &&& !hard_break_before(b, s)
    &&& begins_with(b, s + 1, blank)
    &&& b[s + 1 + blank.len()] == NL
    &&& begins_with(b, s + 2 + blank.len(), content)
}

/// Does `p` lie strictly inside a pair of the chain around it? Chains without
/// a blockquote have no such pair.
pub open spec fn chain_pair_interior(text: Seq<char>, p: int) -> bool {
    let b = bytes_of(text);
    let chain = chain_of(text, p);
    let blank = bytes_of(blank_prefix(chain));
    let content = bytes_of(prefix_of(chain));
    &&& 0 < p <= b.len()
    &&& quote_count(chain) > 0
    &&& exists|s: int|
        p - (2 + blank.len() + content.len()) < s < p && #[trigger] pair_stands_at(
            b,
            s,
            blank,
            content,
        )
}

/// Does a pair with these prefixes stand at `s`?
fn is_pair_at(bytes: &[u8], s: usize, blank: &[u8], content: &[u8]) -> (found: bool)
    requires
        s < bytes@.len(),
    ensures
        found == pair_stands_at(bytes@, s as int, blank@, content@),
{
    if bytes[s] != NL {
        return false;
    }
    if is_already_hard_break(bytes, s) {
        return false;
    }
    let mut q: usize = s + 1;
    if !walk_forward_exact(bytes, &mut q, blank) {
        return false;
    }
    if q >= bytes.len() || bytes[q] != NL {
        return false;
    }
    q = q + 1;
    walk_forward_exact(bytes, &mut q, content)
}

/// Is `p` strictly inside the paragraph-break pair of the chain around it?
pub fn is_chain_pair_interior(markdown: &str, p: usize) -> (found: bool)
    ensures
        found == chain_pair_interior(markdown@, p as int),
{
    let bytes = markdown.as_bytes();
    if p == 0 || p > bytes.len() {
        return false;
    }
    let chain = enclosing_containers_at(markdown, p);
    if chain_blockquote_depth(chain.as_slice()) == 0 {
        return false;
    }
    let (blank_text, content_text) = chain_pair_shape(chain.as_slice());
    let blank = blank_text.as_str().as_bytes();
    let content = content_text.as_str().as_bytes();
    let mut s: usize = p;
    while s > 0
        invariant
            s <= p <= bytes@.len(),
            0 < p,
            bytes@ == bytes_of(markdown@),
            blank@ == bytes_of(blank_prefix(chain@)),
            content@ == bytes_of(prefix_of(chain@)),
            chain@ == chain_of(markdown@, p as int),
            quote_count(chain@) > 0,
            p - s < 2 + blank@.len() + content@.len(),
            forall|t: int|
                s <= t < p ==> !#[trigger] pair_stands_at(bytes@, t, blank@, content@),
        decreases s,
    {
        s = s - 1;
        // A pair that begins this far back ends at or before `p`.
        if (p - s) - 1 > blank.len() && (p - s) - 1 - blank.len() > content.len() {
            return false;
        }
        if is_pair_at(bytes, s, blank, content) {
            return true;
        }
    }
    false
}

// ---------------------------------------------------------------------------
// Forbidden positions
// ---------------------------------------------------------------------------

/// May no cursor rest at `p`? It lies inside a structural pair outside code,
/// or inside hidden list indent.
pub open spec fn forbidden(text: Seq<char>, p: int) -> bool {
    let in_fence = in_fences(fences_of(text), p);
    ||| break_interior(bytes_of(text), p) && !in_fence
    ||| indent_interior(text, p)
    ||| chain_pair_interior(text, p) && !in_fence
}

/// Is byte index `p` a forbidden cursor position?
pub fn is_forbidden_position(markdown: &str, p: usize) -> (found: bool)
    requires
        p <= bytes_of(markdown@).len(),
    ensures
        found == forbidden(markdown@, p as int),
{
    let in_fence = is_in_fenced_code(markdown, p);
    if is_paragraph_break_interior(markdown.as_bytes(), p) && !in_fence {
        return true;
    }
    if is_list_indent_interior(markdown, p) {
        return true;
    }
    if is_chain_pair_interior(markdown, p) && !in_fence {
        return true;
    }
    false
}

/// The first position at or after `p` that is allowed; the end of the text if
/// there is none before it.
pub open spec fn next_allowed(text: Seq<char>, p: int) -> int
    decreases bytes_of(text).len() - p,
{
    if p >= bytes_of(text).len() || !forbidden(text, p) {
        p
    } else {
        next_allowed(text, p + 1)
    }
}

/// The last allowed position at or before `p`; 0 if there is none after it.
pub open spec fn prev_allowed(text: Seq<char>, p: int) -> int
    decreases p,
{
    if p <= 0 || !forbidden(text, p) {
        p
    } else {
        prev_allowed(text, p - 1)
    }
}

/// The closest allowed position, the one ahead winning ties. Inside hidden
/// list indent the one ahead is taken, if allowed, whatever the distance.
pub open spec fn nearest_allowed(text: Seq<char>, p: int) -> int {
    let next = next_allowed(text, p);
    let prev = prev_allowed(text, p);
    if !forbidden(text, p) {
        p
    } else if indent_interior(text, p) && !forbidden(text, next) {
        next
    } else if forbidden(text, prev) && forbidden(text, next) {
        p
    } else if forbidden(text, next) {
        prev
    } else if forbidden(text, prev) || next - p <= p - prev {
        next
    } else {
        prev
    }
}

proof fn lemma_next_allowed_bounds(text: Seq<char>, p: int)
    ensures
        p <= next_allowed(text, p),
        p <= bytes_of(text).len() ==> next_allowed(text, p) <= bytes_of(text).len(),
        next_allowed(text, p) < bytes_of(text).len() ==> !forbidden(text, next_allowed(text, p)),
    decreases bytes_of(text).len() - p,
{
    if !(p >= bytes_of(text).len() || !forbidden(text, p)) {
        lemma_next_allowed_bounds(text, p + 1);
    }
}

proof fn lemma_prev_allowed_bounds(text: Seq<char>, p: int)
    requires
        0 <= p,
    ensures
        0 <= prev_allowed(text, p) <= p,
        prev_allowed(text, p) > 0 ==> !forbidden(text, prev_allowed(text, p)),
    decreases p,
{
    if p > 0 && forbidden(text, p) {
        lemma_prev_allowed_bounds(text, p - 1);
    }
}

/// The first allowed position at or after `p`.
pub fn next_allowed_position(markdown: &str, p: usize) -> (next: usize)
    ensures
        next == next_allowed(markdown@, p as int),
{
    let len: usize = markdown.as_bytes().len();
    let mut q: usize = p;
    while q < len && is_forbidden_position(markdown, q)
        invariant
            len == bytes_of(markdown@).len(),
            next_allowed(markdown@, q as int) == next_allowed(markdown@, p as int),
        decreases len - q,
    {
        q = q + 1;
    }
    q
}

/// The last allowed position at or before `p`.
pub fn prev_allowed_position(markdown: &str, p: usize) -> (prev: usize)
    requires
        p <= bytes_of(markdown@).len(),
    ensures
        prev == prev_allowed(markdown@, p as int),
{
    let mut q: usize = p;
    while q > 0 && is_forbidden_position(markdown, q)
        invariant
            q <= p <= bytes_of(markdown@).len(),
            prev_allowed(markdown@, q as int) == prev_allowed(markdown@, p as int),
        decreases q,
    {
        q = q - 1;
    }
    q
}

/// Snaps `p` to the closest allowed position; the one ahead wins ties.
pub fn nearest_allowed_position(markdown: &str, p: usize) -> (nearest: usize)
    requires
        p <= bytes_of(markdown@).len(),
    ensures
        nearest == nearest_allowed(markdown@, p as int),
        nearest <= bytes_of(markdown@).len(),
{
    if !is_forbidden_position(markdown, p) {
        return p;
    }
    proof {
        lemma_next_allowed_bounds(markdown@, p as int);
        lemma_prev_allowed_bounds(markdown@, p as int);
    }
    let next = next_allowed_position(markdown, p);
    let next_ok = !is_forbidden_position(markdown, next);
    if is_list_indent_interior(markdown, p) && next_ok {
        return next;
    }
    let prev = prev_allowed_position(markdown, p);
    let prev_ok = !is_forbidden_position(markdown, prev);
    match (prev_ok, next_ok) {
        (true, true) => if next - p <= p - prev {
            next
        } else {
            prev
        },
        (true, false) => prev,
        (false, true) => next,
        (false, false) => p,
    }
}

// ---------------------------------------------------------------------------
// Laws
// ---------------------------------------------------------------------------

/// The start of the document is an allowed position.
pub proof fn document_start_is_allowed(text: Seq<char>)
    ensures
        !forbidden(text, 0),
{
}

/// The end of the document is an allowed position.
pub proof fn document_end_is_allowed(text: Seq<char>)
    ensures
        !forbidden(text, bytes_of(text).len() as int),
{
    let b = bytes_of(text);
    assert(!break_interior(b, b.len() as int));
}

/// Snapping a position of the text gives an allowed position of the text.
pub proof fn nearest_is_allowed(text: Seq<char>, p: int)
    requires
        0 <= p <= bytes_of(text).len(),
    ensures
        !forbidden(text, nearest_allowed(text, p)),
        0 <= nearest_allowed(text, p) <= bytes_of(text).len(),
{
    lemma_next_allowed_bounds(text, p);
    lemma_prev_allowed_bounds(text, p);
    document_start_is_allowed(text);
}

/// Snapping twice is snapping once, and an allowed position stays put.
pub proof fn snapping_is_idempotent(text: Seq<char>, p: int)
    requires
        0 <= p <= bytes_of(text).len(),
    ensures
        nearest_allowed(text, nearest_allowed(text, p)) == nearest_allowed(text, p),
        !forbidden(text, p) ==> nearest_allowed(text, p) == p,
{
    nearest_is_allowed(text, p);
}

/// No allowed position is passed over: between a position and the one that a
/// search finds, in either direction, every position is forbidden.
pub proof fn searches_stop_at_the_first(text: Seq<char>, p: int, q: int)
    requires
        0 <= p <= bytes_of(text).len(),
    ensures
        p <= q < next_allowed(text, p) ==> forbidden(text, q),
        prev_allowed(text, p) < q <= p ==> forbidden(text, q),
        !forbidden(text, next_allowed(text, p)),
        !forbidden(text, prev_allowed(text, p)),
{
    lemma_next_is_first(text, p, q);
    lemma_prev_is_last(text, p, q);
    lemma_next_allowed_bounds(text, p);
    lemma_prev_allowed_bounds(text, p);
    document_start_is_allowed(text);
    document_end_is_allowed(text);
}

proof fn lemma_next_is_first(text: Seq<char>, p: int, q: int)
    ensures
        p <= q < next_allowed(text, p) ==> forbidden(text, q),
    decreases bytes_of(text).len() - p,
{
    if p < bytes_of(text).len() && forbidden(text, p) {
        lemma_next_is_first(text, p + 1, q);
    }
}

proof fn lemma_prev_is_last(text: Seq<char>, p: int, q: int)
    ensures
        prev_allowed(text, p) < q <= p ==> forbidden(text, q),
    decreases p,
{
    if p > 0 && forbidden(text, p) {
        lemma_prev_is_last(text, p - 1, q);
    }
}

/// A position snaps to the closest allowed one, and at equal distance to the
/// one ahead. Inside of hidden list indent it snaps ahead, to the first allowed
/// position.
pub proof fn positions_snap_to_the_closest(text: Seq<char>, p: int, q: int)
    requires
        0 <= p <= bytes_of(text).len(),
        0 <= q <= bytes_of(text).len(),
        !forbidden(text, q),
    ensures
        ({
            let found = nearest_allowed(text, p);
            if indent_interior(text, p) {
                p < found && (p <= q ==> found <= q)
            } else {
                let near = if found >= p {
                    found - p
                } else {
                    p - found
                };
                &&& q > p ==> near < q - p || found == q
                &&& q < p ==> near <= p - q
                &&& q == p ==> found == p
            }
        }),
{
    searches_stop_at_the_first(text, p, q);
    lemma_next_allowed_bounds(text, p);
    lemma_prev_allowed_bounds(text, p);
}

/// Are these the widths of the markers of the items around the line, outer ones
/// first? Of the nodes beside each other at most one overlaps the line.
pub open spec fn markers_around(nodes: Seq<Node>, start: int, end: int, widths: Seq<nat>) -> bool
    decreases nodes,
{
    ||| widths.len() == 0 && forall|i: int|
        0 <= i < nodes.len() ==> (#[trigger] nodes[i]).range.start >= end || nodes[i].range.end
            <= start
    ||| exists|i: int|
        0 <= i < nodes.len() && markers_at(#[trigger] nodes[i], start, end, widths) && forall|j: int|
            0 <= j < nodes.len() && j != i ==> (#[trigger] nodes[j]).range.start >= end
                || nodes[j].range.end <= start
}

/// Are these the widths of the markers of the node and the items in it around the
/// line?
pub open spec fn markers_at(node: Node, start: int, end: int, widths: Seq<nat>) -> bool
    decreases node,
{
    &&& node.range.start < end
    &&& start < node.range.end
    &&& match node.kind {
        NodeKind::ListItem { marker_range } => {
            &&& widths.len() > 0
            &&& marker_range.start <= marker_range.end
            &&& widths[0] == marker_range.end - marker_range.start
            &&& markers_around(node.children, start, end, widths.drop_first())
        },
        _ => markers_around(node.children, start, end, widths),
    }
}

/// The widths together.
pub open spec fn total(widths: Seq<nat>) -> nat
    decreases widths.len(),
{
    if widths.len() == 0 {
        0
    } else {
        widths[0] + total(widths.drop_first())
    }
}

proof fn lemma_nothing_overlaps(nodes: Seq<Node>, start: int, end: int)
    requires
        forall|i: int|
            0 <= i < nodes.len() ==> (#[trigger] nodes[i]).range.start >= end || nodes[i].range.end
                <= start,
    ensures
        overlapping_width(nodes, start, end) == 0,
    decreases nodes.len(),
{
    if nodes.len() > 0 {
        let head = nodes.drop_last();
        assert(nodes[nodes.len() - 1].range.start >= end || nodes[nodes.len() - 1].range.end
            <= start);
        assert forall|i: int| 0 <= i < head.len() implies (#[trigger] head[i]).range.start >= end
            || head[i].range.end <= start by {
            assert(head[i] == nodes[i]);
        }
        lemma_nothing_overlaps(head, start, end);
    }
}

proof fn lemma_one_overlaps(nodes: Seq<Node>, start: int, end: int, i: int)
    requires
        0 <= i < nodes.len(),
        nodes[i].range.start < end,
        start < nodes[i].range.end,
        forall|j: int|
            0 <= j < nodes.len() && j != i ==> (#[trigger] nodes[j]).range.start >= end
                || nodes[j].range.end <= start,
    ensures
        overlapping_width(nodes, start, end) == own_marker_width(nodes[i]) + overlapping_width(
            nodes[i].children,
            start,
            end,
        ),
    decreases nodes.len(),
{
    let head = nodes.drop_last();
    if i == nodes.len() - 1 {
        assert forall|j: int| 0 <= j < head.len() implies (#[trigger] head[j]).range.start >= end
            || head[j].range.end <= start by {
            assert(head[j] == nodes[j]);
        }
        lemma_nothing_overlaps(head, start, end);
    } else {
        assert(nodes[nodes.len() - 1].range.start >= end || nodes[nodes.len() - 1].range.end
            <= start);
        assert(head[i] == nodes[i]);
        assert forall|j: int| 0 <= j < head.len() && j != i implies (
        #[trigger] head[j]).range.start >= end || head[j].range.end <= start by {
            assert(head[j] == nodes[j]);
        }
        lemma_one_overlaps(head, start, end, i);
    }
}

/// The hidden indent of a line is as wide as the markers of all items around the
/// line together.
pub proof fn indent_is_as_wide_as_the_markers(
    nodes: Seq<Node>,
    start: int,
    end: int,
    widths: Seq<nat>,
)
    requires
        markers_around(nodes, start, end, widths),
    ensures
        overlapping_width(nodes, start, end) == total(widths),
    decreases nodes,
{
    if widths.len() == 0 && forall|i: int|
        0 <= i < nodes.len() ==> (#[trigger] nodes[i]).range.start >= end || nodes[i].range.end
            <= start {
        lemma_nothing_overlaps(nodes, start, end);
    } else {
        let i = choose|i: int|
            0 <= i < nodes.len() && markers_at(#[trigger] nodes[i], start, end, widths)
                && forall|j: int|
                0 <= j < nodes.len() && j != i ==> (#[trigger] nodes[j]).range.start >= end
                    || nodes[j].range.end <= start;
        assert(decreases_to!(nodes => nodes[i]));
        lemma_one_overlaps(nodes, start, end, i);
        if nodes[i].kind is ListItem {
            indent_is_as_wide_as_the_markers(nodes[i].children, start, end, widths.drop_first());
        } else {
            indent_is_as_wide_as_the_markers(nodes[i].children, start, end, widths);
        }
    }
}

} // verus!
