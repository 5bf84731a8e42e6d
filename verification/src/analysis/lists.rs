//! Lists of the document: their ranges, bullets and neighbouring items.

use core::ops::Range;

use vstd::prelude::*;

use super::chain::{chain_of, enclosing_containers_at, ListItemContext};
use super::prefix::{chain_innermost_list_item, last_item};
use crate::parser::{parse, syntax_tree};
use crate::strings::{decimal, push_decimal};
use crate::syntax::{
    lemma_children_view, node_fits, nodes_view, tree_fits, ListKind, Node, NodeKind, SyntaxNode,
};
use crate::text::{bytes_of, run_start, run_start_offset, NL};

verus! {

// ---------------------------------------------------------------------------
// Ranges
// ---------------------------------------------------------------------------

/// The range of a list without the newlines at its end.
pub open spec fn trimmed_range(n: Node, b: Seq<u8>) -> Range<usize> {
    Range {
        start: n.range.start,
        end: run_start(b, n.range.end as int, n.range.start as int, NL) as usize,
    }
}

/// The trimmed ranges of all lists of the tree, in document order.
pub open spec fn list_ranges(nodes: Seq<Node>, b: Seq<u8>) -> Seq<Range<usize>>
    decreases nodes,
{
    if nodes.len() == 0 {
        Seq::empty()
    } else {
        let n = nodes.last();
        let own = if n.kind is List {
            seq![trimmed_range(n, b)]
        } else {
            Seq::empty()
        };
        list_ranges(nodes.drop_last(), b) + own + list_ranges(n.children, b)
    }
}

fn collect_list_ranges(nodes: &[SyntaxNode], bytes: &[u8], out: &mut Vec<Range<usize>>)
    requires
        tree_fits(nodes_view(nodes@), bytes@),
    ensures
        final(out)@ == old(out)@ + list_ranges(nodes_view(nodes@), bytes@),
    decreases nodes_view(nodes@),
{
    let ghost before = out@;
    let ghost all = nodes_view(nodes@);
    assert(all.take(0) =~= Seq::empty());
    let mut i: usize = 0;
    while i < nodes.len()
        invariant
            i <= nodes@.len(),
            all == nodes_view(nodes@),
            tree_fits(all, bytes@),
            out@ =~= before + list_ranges(all.take(i as int), bytes@),
        decreases nodes@.len() - i,
    {
        let node = &nodes[i];
        proof {
            assert(all.take(i + 1).drop_last() =~= all.take(i as int));
            assert(all.take(i + 1).last() == all[i as int]);
            assert(all[i as int] == node@);
            assert(node_fits(all[i as int], bytes@));
            lemma_children_view(*node);
        }
        if let NodeKind::List { .. } = node.kind {
            let end = run_start_offset(bytes, node.range.end, node.range.start, NL);
            out.push(node.range.start..end);
        }
        collect_list_ranges(node.children.as_slice(), bytes, out);
        i = i + 1;
    }
    assert(all.take(i as int) =~= all);
}

/// The range of every list of a tree over `bytes`, without the newlines at its
/// end.
pub fn list_content_ranges_in_tree(tree: &[SyntaxNode], bytes: &[u8]) -> (ranges: Vec<Range<usize>>)
    requires
        tree_fits(nodes_view(tree@), bytes@),
    ensures
        ranges@ == list_ranges(nodes_view(tree@), bytes@),
{
    let mut out: Vec<Range<usize>> = Vec::new();
    collect_list_ranges(tree, bytes, &mut out);
    assert(out@ =~= list_ranges(nodes_view(tree@), bytes@));
    out
}

/// The range of every list of `markdown`, without the newlines at its end.
pub fn list_content_ranges(markdown: &str) -> (ranges: Vec<Range<usize>>)
    ensures
        ranges@ == list_ranges(syntax_tree(markdown@), bytes_of(markdown@)),
{
    let tree = parse(markdown);
    list_content_ranges_in_tree(tree.as_slice(), markdown.as_bytes())
}

// ---------------------------------------------------------------------------
// Bullets
// ---------------------------------------------------------------------------

pub const DASH: u8 = 45;

pub const STAR: u8 = 42;

pub const PLUS: u8 = 43;

pub open spec fn is_bullet(c: u8) -> bool {
    c == DASH || c == STAR || c == PLUS
}

/// The first bullet byte in `[p, end)`.
pub open spec fn first_bullet(b: Seq<u8>, p: int, end: int) -> Option<u8>
    decreases end - p,
{
    if p >= end {
        None
    } else if is_bullet(b[p]) {
        Some(b[p])
    } else {
        first_bullet(b, p + 1, end)
    }
}

/// The bullet of `item` in `b`.
pub open spec fn bullet_of(item: ListItemContext, b: Seq<u8>) -> Option<u8> {
    let end = if item.marker_range.end <= b.len() {
        item.marker_range.end as int
    } else {
        b.len() as int
    };
    first_bullet(b, item.marker_range.start as int, end)
}

fn read_bullet(bytes: &[u8], item: &ListItemContext) -> (found: Option<u8>)
    ensures
        found == bullet_of(*item, bytes@),
{
    let end: usize = if item.marker_range.end <= bytes.len() {
        item.marker_range.end
    } else {
        bytes.len()
    };
    let mut p: usize = item.marker_range.start;
    while p < end
        invariant
            end <= bytes@.len(),
            end == if item.marker_range.end <= bytes@.len() {
                item.marker_range.end as int
            } else {
                bytes@.len() as int
            },
            first_bullet(bytes@, p as int, end as int) == first_bullet(
                bytes@,
                item.marker_range.start as int,
                end as int,
            ),
        decreases end - p,
    {
        let c = bytes[p];
        if c == DASH || c == STAR || c == PLUS {
            return Some(c);
        }
        p = p + 1;
    }
    None
}

/// The number of the item that would follow item `index` of a list that starts
/// at `start`.
pub open spec fn next_number(start: u64, index: usize) -> nat {
    if start + index + 1 <= u64::MAX {
        (start + index + 1) as nat
    } else {
        u64::MAX as nat
    }
}

/// The marker of a further item after `item`: the same bullet, or the next
/// number.
pub open spec fn next_marker(item: ListItemContext, text: Seq<char>) -> Seq<char> {
    match item.list_kind {
        ListKind::Unordered => {
            let bullet = match bullet_of(item, bytes_of(text)) {
                Some(c) => c,
                None => DASH,
            };
            seq![bullet as char, ' ']
        },
        ListKind::Ordered { start } => decimal(next_number(start, item.item_index)) + seq!['.', ' '],
    }
}

impl ListItemContext {
    /// The marker of the item that Enter at the end of this one creates.
    pub fn next_marker_text(&self, markdown: &str) -> (marker: String)
        ensures
            marker@ == next_marker(*self, markdown@),
    {
        let mut out = String::new();
        match self.list_kind {
            ListKind::Unordered => {
                let bullet: u8 = match read_bullet(markdown.as_bytes(), self) {
                    Some(c) => c,
                    None => DASH,
                };
                out.push(bullet as char);
                out.push(' ');
            },
            ListKind::Ordered { start } => {
                let number: u64 = start.saturating_add(self.item_index as u64).saturating_add(1);
                push_decimal(&mut out, number);
                out.push('.');
                out.push(' ');
            },
        }
        assert(out@ =~= next_marker(*self, markdown@));
        out
    }
}

/// The innermost list item around `cursor`.
pub open spec fn innermost_item(text: Seq<char>, cursor: int) -> Option<ListItemContext> {
    let chain = chain_of(text, cursor);
    match last_item(chain) {
        Some(i) => Some(chain[i]->ListItem_0),
        None => None,
    }
}

/// The innermost list item around `cursor`.
pub fn innermost_list_item_at(markdown: &str, cursor: usize) -> (item: Option<ListItemContext>)
    ensures
        item == innermost_item(markdown@, cursor as int),
        item matches Some(ctx) ==> {
            &&& ctx.marker_range.start == ctx.item_range.start
            &&& ctx.marker_range.start <= ctx.marker_range.end <= ctx.item_range.end
            &&& ctx.item_range.end <= bytes_of(markdown@).len()
        },
{
    let chain = enclosing_containers_at(markdown, cursor);
    proof {
        super::prefix::lemma_last_item_bounds(chain@);
        assert(last_item(chain@) matches Some(i) ==> chain@[i] is ListItem);
    }
    match chain_innermost_list_item(chain.as_slice()) {
        Some(ctx) => Some(ctx.clone()),
        None => None,
    }
}

// ---------------------------------------------------------------------------
// Siblings
// ---------------------------------------------------------------------------

/// Looks for the item that starts at `target`. When it is there, the width of
/// the marker of the item before it (`before` for the first one).
pub open spec fn width_before(nodes: Seq<Node>, target: int, before: Option<nat>) -> Option<
    Option<nat>,
>
    decreases nodes.len(),
{
    if nodes.len() == 0 {
        None
    } else {
        match nodes[0].kind {
            NodeKind::ListItem { marker_range } => if nodes[0].range.start == target {
                Some(before)
            } else {
                width_before(
                    nodes.drop_first(),
                    target,
                    Some((marker_range.end - marker_range.start) as nat),
                )
            },
            _ => width_before(nodes.drop_first(), target, before),
        }
    }
}

/// Width of the marker of the item right before the one that starts at
/// `target`, in the first list where there is one. A list that holds the item
/// ends the search among its own siblings.
pub open spec fn sibling_width(nodes: Seq<Node>, target: int) -> Option<nat>
    decreases nodes,
{
    if nodes.len() == 0 {
        None
    } else {
        let n = nodes[0];
        let here = if n.kind is List {
            width_before(n.children, target, None)
        } else {
            None
        };
        if here is Some {
            here->0
        } else {
            let inside = if n.kind is List {
                sibling_width_below(n.children, target)
            } else {
                sibling_width(n.children, target)
            };
            match inside {
                Some(w) => Some(w),
                None => sibling_width(nodes.drop_first(), target),
            }
        }
    }
}

/// [`sibling_width`] among the children of each node in turn.
pub open spec fn sibling_width_below(nodes: Seq<Node>, target: int) -> Option<nat>
    decreases nodes,
{
    if nodes.len() == 0 {
        None
    } else {
        match sibling_width(nodes[0].children, target) {
            Some(w) => Some(w),
            None => sibling_width_below(nodes.drop_first(), target),
        }
    }
}

/// Is `found` the width `wanted`?
pub open spec fn same_width(found: Option<usize>, wanted: Option<nat>) -> bool {
    match found {
        Some(w) => wanted == Some(w as nat),
        None => wanted is None,
    }
}

fn find_width_before(nodes: &[SyntaxNode], target: usize, Ghost(b): Ghost<Seq<u8>>) -> (found: Option<
    Option<usize>,
>)
    requires
        tree_fits(nodes_view(nodes@), b),
    ensures
        found is Some == width_before(nodes_view(nodes@), target as int, None) is Some,
        found matches Some(w) ==> same_width(
            w,
            width_before(nodes_view(nodes@), target as int, None)->0,
        ),
{
    let ghost all = nodes_view(nodes@);
    let mut before: Option<usize> = None;
    let mut i: usize = 0;
    let ghost mut seen: Option<nat> = None;
    assert(all.skip(0) =~= all);
    while i < nodes.len()
        invariant
            i <= nodes@.len(),
            all == nodes_view(nodes@),
            tree_fits(all, b),
            same_width(before, seen),
            width_before(all, target as int, None) == width_before(
                all.skip(i as int),
                target as int,
                seen,
            ),
        decreases nodes@.len() - i,
    {
        let node = &nodes[i];
        proof {
            assert(all.skip(i as int)[0] == all[i as int]);
            assert(all.skip(i as int).drop_first() =~= all.skip(i + 1));
            assert(all[i as int] == node@);
            assert(node_fits(all[i as int], b));
        }
        if let NodeKind::ListItem { marker_range } = &node.kind {
            if node.range.start == target {
                return Some(before);
            }
            before = Some(marker_range.end - marker_range.start);
            proof {
                seen = Some((marker_range.end - marker_range.start) as nat);
            }
        }
        i = i + 1;
    }
    None
}

fn find_sibling_width(nodes: &[SyntaxNode], target: usize, Ghost(b): Ghost<Seq<u8>>) -> (found: Option<
    usize,
>)
    requires
        tree_fits(nodes_view(nodes@), b),
    ensures
        same_width(found, sibling_width(nodes_view(nodes@), target as int)),
    decreases nodes_view(nodes@), 1int,
{
    let ghost all = nodes_view(nodes@);
    let mut i: usize = 0;
    assert(all.skip(0) =~= all);
    while i < nodes.len()
        invariant
            i <= nodes@.len(),
            all == nodes_view(nodes@),
            tree_fits(all, b),
            sibling_width(all, target as int) == sibling_width(all.skip(i as int), target as int),
        decreases nodes@.len() - i,
    {
        let node = &nodes[i];
        proof {
            assert(all.skip(i as int)[0] == all[i as int]);
            assert(all.skip(i as int).drop_first() =~= all.skip(i + 1));
            assert(all[i as int] == node@);
            assert(node_fits(all[i as int], b));
            lemma_children_view(*node);
        }
        let children = node.children.as_slice();
        let is_list = match node.kind {
            NodeKind::List { .. } => true,
            _ => false,
        };
        if is_list {
            if let Some(width) = find_width_before(children, target, Ghost(b)) {
                return width;
            }
            if let Some(width) = find_sibling_width_below(children, target, Ghost(b)) {
                return Some(width);
            }
        } else if let Some(width) = find_sibling_width(children, target, Ghost(b)) {
            return Some(width);
        }
        i = i + 1;
    }
    None
}

fn find_sibling_width_below(nodes: &[SyntaxNode], target: usize, Ghost(b): Ghost<Seq<u8>>) -> (found:
    Option<usize>)
    requires
        tree_fits(nodes_view(nodes@), b),
    ensures
        same_width(found, sibling_width_below(nodes_view(nodes@), target as int)),
    decreases nodes_view(nodes@), 0int,
{
    let ghost all = nodes_view(nodes@);
    let mut i: usize = 0;
    assert(all.skip(0) =~= all);
    while i < nodes.len()
        invariant
            i <= nodes@.len(),
            all == nodes_view(nodes@),
            tree_fits(all, b),
            sibling_width_below(all, target as int) == sibling_width_below(
                all.skip(i as int),
                target as int,
            ),
        decreases nodes@.len() - i,
    {
        let node = &nodes[i];
        proof {
            assert(all.skip(i as int)[0] == all[i as int]);
            assert(all.skip(i as int).drop_first() =~= all.skip(i + 1));
            assert(all[i as int] == node@);
            assert(node_fits(all[i as int], b));
            lemma_children_view(*node);
        }
        if let Some(width) = find_sibling_width(node.children.as_slice(), target, Ghost(b)) {
            return Some(width);
        }
        i = i + 1;
    }
    None
}

/// Width of the marker of the item right before the item at `item_range` in
/// its list.
pub fn previous_sibling_marker_width(markdown: &str, item_range: &Range<usize>) -> (found: Option<
    usize,
>)
    ensures
        same_width(found, sibling_width(syntax_tree(markdown@), item_range.start as int)),
{
    let tree = parse(markdown);
    find_sibling_width(tree.as_slice(), item_range.start, Ghost(bytes_of(markdown@)))
}

/// Is the node one of the tree, at any depth?
pub open spec fn lies_in(nodes: Seq<Node>, node: Node) -> bool
    decreases nodes,
{
    exists|i: int|
        0 <= i < nodes.len() && (#[trigger] nodes[i] == node || lies_in(nodes[i].children, node))
}

/// The range of every list of the tree is found, without the newlines at its end
/// and without anything else.
pub proof fn lists_are_found(nodes: Seq<Node>, b: Seq<u8>, node: Node)
    requires
        lies_in(nodes, node),
        node.kind is List,
        node.range.start <= node.range.end <= b.len(),
    ensures
        exists|k: int|
            0 <= k < list_ranges(nodes, b).len() && (#[trigger] list_ranges(nodes, b)[k]).start
                == node.range.start && node.range.start <= list_ranges(nodes, b)[k].end
                <= node.range.end && (forall|p: int|
                list_ranges(nodes, b)[k].end <= p < node.range.end ==> b[p] == NL) && (
            node.range.start < list_ranges(nodes, b)[k].end ==> b[list_ranges(nodes, b)[k].end - 1]
                != NL),
{
    let r = trimmed_range(node, b);
    lemma_list_range(nodes, b, node);
    lemma_trimmed_end(b, node.range.end as int, node.range.start as int);
    let k = choose|k: int| 0 <= k < list_ranges(nodes, b).len() && list_ranges(nodes, b)[k] == r;
    assert(list_ranges(nodes, b)[k].start == node.range.start);
}

proof fn lemma_trimmed_end(b: Seq<u8>, p: int, floor: int)
    requires
        0 <= floor <= p <= b.len(),
    ensures
        floor <= run_start(b, p, floor, NL) <= p,
        forall|i: int| run_start(b, p, floor, NL) <= i < p ==> b[i] == NL,
        floor < run_start(b, p, floor, NL) ==> b[run_start(b, p, floor, NL) - 1] != NL,
    decreases p - floor,
{
    if p > floor && b[p - 1] == NL {
        lemma_trimmed_end(b, p - 1, floor);
    }
}

proof fn lemma_list_range(nodes: Seq<Node>, b: Seq<u8>, node: Node)
    requires
        lies_in(nodes, node),
        node.kind is List,
    ensures
        list_ranges(nodes, b).contains(trimmed_range(node, b)),
    decreases nodes,
{
    let r = trimmed_range(node, b);
    let i = choose|i: int|
        0 <= i < nodes.len() && (#[trigger] nodes[i] == node || lies_in(nodes[i].children, node));
    let n = nodes.last();
    let head = list_ranges(nodes.drop_last(), b);
    let own = if n.kind is List {
        seq![trimmed_range(n, b)]
    } else {
        Seq::empty()
    };
    let below = list_ranges(n.children, b);
    let all = head + own + below;
    assert(list_ranges(nodes, b) == all);
    if i < nodes.len() - 1 {
        assert(nodes.drop_last()[i] == nodes[i]);
        lemma_list_range(nodes.drop_last(), b, node);
        let k = choose|k: int| 0 <= k < head.len() && head[k] == r;
        assert(all[k] == r);
    } else if nodes[i] == node {
        assert(own[0] == r);
        assert(all[head.len() as int] == r);
    } else {
        assert(decreases_to!(nodes => nodes[i]));
        lemma_list_range(n.children, b, node);
        let k = choose|k: int| 0 <= k < below.len() && below[k] == r;
        assert(all[head.len() + own.len() + k] == r);
    }
}

/// Is there no list item in the tree that starts at the byte?
pub open spec fn no_item_at(nodes: Seq<Node>, target: int) -> bool {
    forall|node: Node|
        #[trigger] lies_in(nodes, node) && node.kind is ListItem ==> node.range.start != target
}

proof fn lemma_no_item(nodes: Seq<Node>, target: int)
    requires
        no_item_at(nodes, target),
    ensures
        sibling_width(nodes, target) is None,
        sibling_width_below(nodes, target) is None,
        forall|before: Option<nat>| #[trigger] width_before(nodes, target, before) is None,
    decreases nodes,
{
    if nodes.len() > 0 {
        let rest = nodes.drop_first();
        assert forall|node: Node|
            #[trigger] lies_in(rest, node) && node.kind is ListItem implies node.range.start
            != target by {
            let i = choose|i: int|
                0 <= i < rest.len() && (#[trigger] rest[i] == node || lies_in(
                    rest[i].children,
                    node,
                ));
            assert(nodes[i + 1] == rest[i]);
            assert(lies_in(nodes, node));
        }
        lemma_no_item(rest, target);
        assert(decreases_to!(nodes => nodes[0]));
        assert forall|node: Node|
            #[trigger] lies_in(nodes[0].children, node) && node.kind is ListItem implies node.range.start
            != target by {
            assert(lies_in(nodes, node));
        }
        lemma_no_item(nodes[0].children, target);
        assert(lies_in(nodes, nodes[0]));
        assert forall|before: Option<nat>| #[trigger] width_before(
            nodes,
            target,
            before,
        ) is None by {
            if nodes[0].kind is ListItem {
                assert(width_before(rest, target, Some(own_width(nodes[0]))) is None);
            } else {
                assert(width_before(rest, target, before) is None);
            }
        }
    }
}

proof fn lemma_width_before(children: Seq<Node>, target: int, before: Option<nat>, k: int)
    requires
        0 <= k < children.len(),
        forall|j: int| 0 <= j < children.len() ==> (#[trigger] children[j]).kind is ListItem,
        forall|j: int| 0 <= j < k ==> (#[trigger] children[j]).range.start != target,
        children[k].range.start == target,
    ensures
        width_before(children, target, before) == Some(
            if k == 0 {
                before
            } else {
                Some(own_width(children[k - 1]))
            },
        ),
    decreases k,
{
    if k > 0 {
        let rest = children.drop_first();
        assert(children[0].kind is ListItem && children[0].range.start != target);
        assert(rest[k - 1] == children[k]);
        assert forall|j: int| 0 <= j < rest.len() implies (#[trigger] rest[j]).kind is ListItem by {
            assert(rest[j] == children[j + 1]);
        }
        assert forall|j: int| 0 <= j < k - 1 implies (#[trigger] rest[j]).range.start != target by {
            assert(rest[j] == children[j + 1]);
        }
        lemma_width_before(rest, target, Some(own_width(children[0])), k - 1);
        if k > 1 {
            assert(rest[k - 2] == children[k - 1]);
        }
    }
}

/// How many bytes the marker of a list item takes, the space behind it included.
pub open spec fn own_width(node: Node) -> nat {
    let marker = node.kind->ListItem_marker_range;
    (marker.end - marker.start) as nat
}

/// Does the list with these children hold an item at the byte? It is among the
/// nodes or at any depth below them, and no item before it starts there.
pub open spec fn list_at(nodes: Seq<Node>, target: int, children: Seq<Node>) -> bool
    decreases nodes,
{
    exists|i: int|
        0 <= i < nodes.len() && no_item_at(nodes.take(i), target) && list_below(
            #[trigger] nodes[i],
            target,
            children,
        )
}

pub open spec fn list_below(node: Node, target: int, children: Seq<Node>) -> bool
    decreases node,
{
    if node.kind is List {
        node.children == children
    } else {
        list_at(node.children, target, children)
    }
}

proof fn lemma_sibling_at(nodes: Seq<Node>, target: int, children: Seq<Node>, i: int, k: int)
    requires
        0 <= i < nodes.len(),
        no_item_at(nodes.take(i), target),
        list_below(nodes[i], target, children),
        0 < k < children.len(),
        forall|j: int| 0 <= j < children.len() ==> (#[trigger] children[j]).kind is ListItem,
        forall|j: int| 0 <= j < k ==> (#[trigger] children[j]).range.start != target,
        children[k].range.start == target,
    ensures
        sibling_width(nodes, target) == Some(own_width(children[k - 1])),
    decreases nodes, i,
{
    let first = nodes[0];
    if i > 0 {
        let rest = nodes.drop_first();
        assert(rest[i - 1] == nodes[i]);
        assert(nodes.take(i)[0] == first);
        assert(lies_in(nodes.take(i), first));
        assert forall|node: Node|
            #[trigger] lies_in(first.children, node) && node.kind is ListItem implies node.range.start
            != target by {
            assert(nodes.take(i)[0] == first);
            assert(lies_in(nodes.take(i), node));
        }
        lemma_no_item(first.children, target);
        assert forall|node: Node|
            #[trigger] lies_in(rest.take(i - 1), node) && node.kind is ListItem implies node.range.start
            != target by {
            let m = choose|m: int|
                0 <= m < rest.take(i - 1).len() && (#[trigger] rest.take(i - 1)[m] == node
                    || lies_in(rest.take(i - 1)[m].children, node));
            assert(nodes.take(i)[m + 1] == rest.take(i - 1)[m]);
            assert(lies_in(nodes.take(i), node));
        }
        lemma_sibling_at(rest, target, children, i - 1, k);
    } else if first.kind is List {
        lemma_width_before(children, target, None, k);
    } else {
        let c = first.children;
        let m = choose|m: int|
            0 <= m < c.len() && no_item_at(c.take(m), target) && list_below(
                #[trigger] c[m],
                target,
                children,
            );
        assert(decreases_to!(nodes => nodes[0]));
        lemma_sibling_at(c, target, children, m, k);
    }
}

/// The item before the one that starts at a byte gives its marker's width, in a
/// list at any depth of quotes.
pub proof fn the_item_before_gives_its_width(
    nodes: Seq<Node>,
    children: Seq<Node>,
    k: int,
)
    requires
        0 < k < children.len(),
        list_at(nodes, children[k].range.start as int, children),
        forall|j: int| 0 <= j < children.len() ==> (#[trigger] children[j]).kind is ListItem,
        forall|j: int|
            0 <= j < k ==> (#[trigger] children[j]).range.start != children[k].range.start,
    ensures
        sibling_width(nodes, children[k].range.start as int) == Some(
            (children[k - 1].kind->ListItem_marker_range.end
                - children[k - 1].kind->ListItem_marker_range.start) as nat,
        ),
{
    let target = children[k].range.start as int;
    let i = choose|i: int|
        0 <= i < nodes.len() && no_item_at(nodes.take(i), target) && list_below(
            #[trigger] nodes[i],
            target,
            children,
        );
    lemma_sibling_at(nodes, target, children, i, k);
}

} // verus!
