//! The containers that enclose a cursor, outermost first, and the line
//! prefixes they ask for.

use core::ops::Range;

use vstd::prelude::*;

use crate::parser::{parse, reads_bullets, syntax_tree};
use crate::syntax::{
    lemma_children_view, node_fits, nodes_view, tree_fits, ListKind, Node, NodeKind, SyntaxNode,
};
use crate::text::{bytes_of, run_start, run_start_offset, same_offset, NL};

verus! {

/// One list item around a cursor.
#[derive(Debug)]
pub struct ListItemContext {
    pub list_kind: ListKind,
    /// Position of the item among the items of its list, from zero.
    pub item_index: usize,
    pub item_range: Range<usize>,
    pub marker_range: Range<usize>,
}

/// One container around a cursor.
#[derive(Debug)]
pub enum EnclosingContainer {
    BlockQuote { range: Range<usize> },
    ListItem(ListItemContext),
}

/// Outermost-first chain of the containers around a cursor.
pub type EnclosingChain = Vec<EnclosingContainer>;

impl Clone for ListItemContext {
    fn clone(&self) -> (copy: Self)
        ensures
            copy == *self,
    {
        ListItemContext {
            list_kind: self.list_kind,
            item_index: self.item_index,
            item_range: self.item_range.start..self.item_range.end,
            marker_range: self.marker_range.start..self.marker_range.end,
        }
    }
}

impl Clone for EnclosingContainer {
    fn clone(&self) -> (copy: Self)
        ensures
            copy == *self,
    {
        match self {
            EnclosingContainer::BlockQuote { range } => EnclosingContainer::BlockQuote {
                range: range.start..range.end,
            },
            EnclosingContainer::ListItem(ctx) => EnclosingContainer::ListItem(ctx.clone()),
        }
    }
}

impl ListItemContext {
    /// Is the item's marker a range?
    pub open spec fn has_marker(&self) -> bool {
        self.marker_range.start <= self.marker_range.end
    }

    /// Width of the marker in bytes.
    pub open spec fn width(&self) -> nat {
        (self.marker_range.end - self.marker_range.start) as nat
    }

    /// Byte width of the item's marker (2 for `- `, 3 for `1. `).
    pub fn marker_width(&self) -> (width: usize)
        requires
            self.has_marker(),
        ensures
            width == self.width(),
    {
        self.marker_range.end - self.marker_range.start
    }

    /// Is the item part of an ordered list?
    pub fn is_ordered(&self) -> (ordered: bool)
        ensures
            ordered == (self.list_kind is Ordered),
    {
        match self.list_kind {
            ListKind::Ordered { .. } => true,
            ListKind::Unordered => false,
        }
    }
}

// ---------------------------------------------------------------------------
// The chain around a cursor
// ---------------------------------------------------------------------------

/// Where a node ends for a cursor. The run of two or more newlines at the end
/// of a list, an item or a blockquote separates it from what follows and does
/// not belong to it.
pub open spec fn effective_end(n: Node, b: Seq<u8>) -> int {
    let text = run_start(b, n.range.end as int, n.range.start as int, NL);
    match n.kind {
        NodeKind::List { .. } | NodeKind::ListItem { .. } | NodeKind::BlockQuote => if n.range.end
            - text >= 2 {
            text
        } else {
            n.range.end as int
        },
        _ => n.range.end as int,
    }
}

/// Does the node hold `cursor` before its end?
pub open spec fn holds_strictly(n: Node, cursor: int, b: Seq<u8>) -> bool {
    n.range.start <= cursor < effective_end(n, b)
}

/// Does the node hold `cursor`, its end included?
pub open spec fn holds(n: Node, cursor: int, b: Seq<u8>) -> bool {
    n.range.start <= cursor <= effective_end(n, b)
}

/// Index of the last sibling that holds `cursor` strictly; only list items
/// count where `items_only`.
pub open spec fn last_strict(nodes: Seq<Node>, cursor: int, b: Seq<u8>, items_only: bool) -> Option<
    int,
>
    decreases nodes.len(),
{
    if nodes.len() == 0 {
        None
    } else if (items_only ==> nodes.last().kind is ListItem) && holds_strictly(
        nodes.last(),
        cursor,
        b,
    ) {
        Some(nodes.len() - 1)
    } else {
        last_strict(nodes.drop_last(), cursor, b, items_only)
    }
}

/// Index of the last sibling that holds `cursor`.
pub open spec fn last_holding(nodes: Seq<Node>, cursor: int, b: Seq<u8>, items_only: bool) -> Option<
    int,
>
    decreases nodes.len(),
{
    if nodes.len() == 0 {
        None
    } else if (items_only ==> nodes.last().kind is ListItem) && holds(nodes.last(), cursor, b) {
        Some(nodes.len() - 1)
    } else {
        last_holding(nodes.drop_last(), cursor, b, items_only)
    }
}

/// The sibling that owns `cursor`: the last one that holds it strictly, or
/// else the last one that ends at it.
pub open spec fn owner(nodes: Seq<Node>, cursor: int, b: Seq<u8>, items_only: bool) -> Option<int> {
    match last_strict(nodes, cursor, b, items_only) {
        Some(i) => Some(i),
        None => last_holding(nodes, cursor, b, items_only),
    }
}

/// Number of list items among the nodes.
pub open spec fn item_count(nodes: Seq<Node>) -> nat
    decreases nodes.len(),
{
    if nodes.len() == 0 {
        0
    } else {
        item_count(nodes.drop_last()) + if nodes.last().kind is ListItem { 1nat } else { 0nat }
    }
}

/// The context of the item at index `i` of a list's children.
pub open spec fn item_context(kind: ListKind, children: Seq<Node>, i: int) -> ListItemContext {
    ListItemContext {
        list_kind: kind,
        item_index: item_count(children.take(i)) as usize,
        item_range: children[i].range,
        marker_range: children[i].kind->marker_range,
    }
}

/// The containers around `cursor` below the siblings `nodes`, outermost first.
/// At each level the owner of `cursor` is followed; in a list, the item that
/// owns it.
pub open spec fn chain_at(nodes: Seq<Node>, cursor: int, b: Seq<u8>) -> Seq<EnclosingContainer>
    decreases nodes,
{
    match owner(nodes, cursor, b, false) {
        Some(i) if 0 <= i < nodes.len() => {
            let n = nodes[i];
            match n.kind {
                NodeKind::BlockQuote => seq![EnclosingContainer::BlockQuote { range: n.range }]
                    + chain_at(n.children, cursor, b),
                NodeKind::List { kind } => match owner(n.children, cursor, b, true) {
                    Some(j) if 0 <= j < n.children.len() => seq![
                        EnclosingContainer::ListItem(item_context(kind, n.children, j)),
                    ] + chain_at(n.children[j].children, cursor, b),
                    _ => Seq::empty(),
                },
                _ => chain_at(n.children, cursor, b),
            }
        },
        _ => Seq::empty(),
    }
}

/// The containers around `cursor` in a text.
pub open spec fn chain_of(text: Seq<char>, cursor: int) -> Seq<EnclosingContainer> {
    chain_at(syntax_tree(text), cursor, bytes_of(text))
}

/// Do the markers and items of the chain lie in the buffer?
pub open spec fn chain_fits(chain: Seq<EnclosingContainer>, b: Seq<u8>) -> bool {
    forall|i: int|
        0 <= i < chain.len() ==> match #[trigger] chain[i] {
            EnclosingContainer::ListItem(ctx) => {
                &&& ctx.marker_range.start <= ctx.marker_range.end <= b.len()
                &&& ctx.item_range.start <= ctx.item_range.end <= b.len()
                &&& ctx.marker_range.start == ctx.item_range.start
                &&& ctx.marker_range.end <= ctx.item_range.end
            },
            EnclosingContainer::BlockQuote { range } => range.start <= range.end <= b.len(),
        }
}

proof fn lemma_item_count_bound(nodes: Seq<Node>)
    ensures
        item_count(nodes) <= nodes.len(),
    decreases nodes.len(),
{
    if nodes.len() > 0 {
        lemma_item_count_bound(nodes.drop_last());
    }
}

fn effective_node_end(node: &SyntaxNode, bytes: &[u8]) -> (end: usize)
    requires
        node_fits(node@, bytes@),
    ensures
        end == effective_end(node@, bytes@),
{
    let raw_end: usize = node.range.end;
    let trims = match node.kind {
        NodeKind::List { .. } | NodeKind::ListItem { .. } | NodeKind::BlockQuote => true,
        _ => false,
    };
    if !trims {
        return raw_end;
    }
    let text = run_start_offset(bytes, raw_end, node.range.start, NL);
    if raw_end - text >= 2 {
        text
    } else {
        raw_end
    }
}

/// The sibling that owns `cursor`, by index.
fn pick_chain_target(nodes: &[SyntaxNode], cursor: usize, bytes: &[u8], items_only: bool) -> (found:
    Option<usize>)
    requires
        tree_fits(nodes_view(nodes@), bytes@),
    ensures
        same_offset(found, owner(nodes_view(nodes@), cursor as int, bytes@, items_only)),
        found matches Some(i) ==> i < nodes@.len() && (items_only ==> nodes@[i as int].kind
            is ListItem),
{
    let ghost all = nodes_view(nodes@);
    let mut strict: Option<usize> = None;
    let mut holding: Option<usize> = None;
    let mut i: usize = 0;
    while i < nodes.len()
        invariant
            i <= nodes@.len(),
            all == nodes_view(nodes@),
            tree_fits(all, bytes@),
            same_offset(strict, last_strict(all.take(i as int), cursor as int, bytes@, items_only)),
            same_offset(
                holding,
                last_holding(all.take(i as int), cursor as int, bytes@, items_only),
            ),
            strict matches Some(k) ==> k < nodes@.len() && (items_only ==> nodes@[k as int].kind
                is ListItem),
            holding matches Some(k) ==> k < nodes@.len() && (items_only ==> nodes@[k as int].kind
                is ListItem),
        decreases nodes@.len() - i,
    {
        let node = &nodes[i];
        proof {
            assert(all.take(i + 1).drop_last() =~= all.take(i as int));
            assert(all.take(i + 1).last() == all[i as int]);
            assert(node_fits(all[i as int], bytes@));
        }
        let counts = !items_only || match node.kind {
            NodeKind::ListItem { .. } => true,
            _ => false,
        };
        if counts {
            let end = effective_node_end(node, bytes);
            if node.range.start <= cursor && cursor < end {
                strict = Some(i);
            }
            if node.range.start <= cursor && cursor <= end {
                holding = Some(i);
            }
        }
        i = i + 1;
    }
    assert(all.take(i as int) =~= all);
    match strict {
        Some(k) => Some(k),
        None => holding,
    }
}

fn count_items(nodes: &[SyntaxNode], end: usize) -> (count: usize)
    requires
        end <= nodes@.len(),
    ensures
        count == item_count(nodes_view(nodes@).take(end as int)),
        count <= end,
{
    let ghost all = nodes_view(nodes@);
    let mut count: usize = 0;
    let mut i: usize = 0;
    while i < end
        invariant
            i <= end <= nodes@.len(),
            all == nodes_view(nodes@),
            count <= i,
            count == item_count(all.take(i as int)),
        decreases end - i,
    {
        proof {
            assert(all.take(i + 1).drop_last() =~= all.take(i as int));
            assert(all.take(i + 1).last() == all[i as int]);
        }
        if let NodeKind::ListItem { .. } = nodes[i].kind {
            count = count + 1;
        }
        i = i + 1;
    }
    count
}

fn walk_chain(nodes: &[SyntaxNode], cursor: usize, bytes: &[u8], out: &mut EnclosingChain)
    requires
        tree_fits(nodes_view(nodes@), bytes@),
        chain_fits(old(out)@, bytes@),
    ensures
        final(out)@ == old(out)@ + chain_at(nodes_view(nodes@), cursor as int, bytes@),
        chain_fits(final(out)@, bytes@),
    decreases nodes_view(nodes@),
{
    let ghost all = nodes_view(nodes@);
    let target = pick_chain_target(nodes, cursor, bytes, false);
    if let Some(i) = target {
        let node = &nodes[i];
        let ghost before = out@;
        proof {
            assert(all[i as int] == node@);
            assert(node_fits(all[i as int], bytes@));
            lemma_children_view(*node);
        }
        match &node.kind {
            NodeKind::BlockQuote => {
                out.push(
                    EnclosingContainer::BlockQuote { range: node.range.start..node.range.end },
                );
                walk_chain(node.children.as_slice(), cursor, bytes, out);
                assert(out@ =~= before + chain_at(all, cursor as int, bytes@));
            },
            NodeKind::List { kind } => {
                let children = node.children.as_slice();
                let item_target = pick_chain_target(children, cursor, bytes, true);
                if let Some(j) = item_target {
                    let item = &children[j];
                    let ghost siblings = nodes_view(children@);
                    proof {
                        assert(siblings[j as int] == item@);
                        assert(node_fits(siblings[j as int], bytes@));
                        lemma_children_view(*item);
                    }
                    if let NodeKind::ListItem { marker_range } = &item.kind {
                        let item_index = count_items(children, j);
                        out.push(
                            EnclosingContainer::ListItem(
                                ListItemContext {
                                    list_kind: *kind,
                                    item_index,
                                    item_range: item.range.start..item.range.end,
                                    marker_range: marker_range.start..marker_range.end,
                                },
                            ),
                        );
                        walk_chain(item.children.as_slice(), cursor, bytes, out);
                        assert(out@ =~= before + chain_at(all, cursor as int, bytes@));
                    }
                } else {
                    assert(out@ =~= before + chain_at(all, cursor as int, bytes@));
                }
            },
            _ => {
                walk_chain(node.children.as_slice(), cursor, bytes, out);
            },
        }
    } else {
        assert(out@ =~= out@ + chain_at(all, cursor as int, bytes@));
    }
}

/// The containers around `cursor` in a tree over `bytes`, outermost first.
pub fn enclosing_containers_at_in_tree(tree: &[SyntaxNode], bytes: &[u8], cursor: usize) -> (chain:
    EnclosingChain)
    requires
        tree_fits(nodes_view(tree@), bytes@),
    ensures
        chain@ == chain_at(nodes_view(tree@), cursor as int, bytes@),
        chain_fits(chain@, bytes@),
{
    let mut chain: EnclosingChain = Vec::new();
    walk_chain(tree, cursor, bytes, &mut chain);
    assert(chain@ =~= chain_at(nodes_view(tree@), cursor as int, bytes@));
    chain
}

/// The containers around `cursor` in `markdown`, outermost first.
pub fn enclosing_containers_at(markdown: &str, cursor: usize) -> (chain: EnclosingChain)
    ensures
        chain@ == chain_of(markdown@, cursor as int),
        chain_fits(chain@, bytes_of(markdown@)),
        reads_bullets(markdown@),
{
    let tree = parse(markdown);
    enclosing_containers_at_in_tree(tree.as_slice(), markdown.as_bytes(), cursor)
}

} // verus!
