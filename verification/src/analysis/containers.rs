//! The chain of containers around a cursor, against the tree.

use vstd::prelude::*;

use super::chain::{
    chain_at, effective_end, holds, holds_strictly, item_context, item_count, last_holding,
    last_strict, owner, EnclosingContainer, ListItemContext,
};
use crate::syntax::{Node, NodeKind};
use crate::text::{lemma_run_start_bounds, run_start, NL};

verus! {

/// Does the node hold the cursor, with text of it at the cursor or behind it?
pub open spec fn surrounds(n: Node, cursor: int, b: Seq<u8>) -> bool {
    n.range.start <= cursor && exists|q: int|
        cursor <= q < n.range.end && #[trigger] b[q] as char != '\n'
}

/// Is `i` the sibling around the cursor: it surrounds it, and no later one has
/// begun?
pub open spec fn picks(nodes: Seq<Node>, i: int, cursor: int, b: Seq<u8>) -> bool {
    &&& 0 <= i < nodes.len()
    &&& surrounds(nodes[i], cursor, b)
    &&& forall|j: int| i < j < nodes.len() ==> cursor < (#[trigger] nodes[j]).range.start
}

pub open spec fn all_items(nodes: Seq<Node>) -> bool {
    forall|k: int| 0 <= k < nodes.len() ==> (#[trigger] nodes[k]).kind is ListItem
}

/// Do siblings around the cursor lead from the nodes to `n`? The children of a
/// list are items.
pub open spec fn leads_to(nodes: Seq<Node>, cursor: int, b: Seq<u8>, n: Node) -> bool
    decreases nodes,
{
    exists|i: int|
        picks(nodes, i, cursor, b) && 0 <= i < nodes.len() && {
            ||| #[trigger] nodes[i] == n
            ||| !(nodes[i].kind is List) && leads_to(nodes[i].children, cursor, b, n)
            ||| nodes[i].kind is List && all_items(nodes[i].children) && exists|j: int|
                picks(nodes[i].children, j, cursor, b) && 0 <= j < nodes[i].children.len()
                    && leads_to((#[trigger] nodes[i].children[j]).children, cursor, b, n)
        }
}

proof fn lemma_last_strict(nodes: Seq<Node>, i: int, cursor: int, b: Seq<u8>, items: bool)
    requires
        picks(nodes, i, cursor, b),
        items ==> nodes[i].kind is ListItem,
    ensures
        last_strict(nodes, cursor, b, items) == Some(i),
    decreases nodes.len(),
{
    let last = nodes.last();
    if i == nodes.len() - 1 {
        let q = choose|q: int| cursor <= q < last.range.end && #[trigger] b[q] as char != '\n';
        lemma_run_start_bounds(b, last.range.end as int, last.range.start as int, NL);
        let text = run_start(b, last.range.end as int, last.range.start as int, NL);
        assert(text > q) by {
            if text <= q {
                assert(b[q] == NL);
            }
        }
    } else {
        let rest = nodes.drop_last();
        assert(cursor < nodes[nodes.len() - 1].range.start);
        assert(rest[i] == nodes[i]);
        assert forall|j: int| i < j < rest.len() implies cursor < (#[trigger] rest[j]).range.start by {
            assert(rest[j] == nodes[j]);
        }
        lemma_last_strict(rest, i, cursor, b, items);
    }
}

proof fn lemma_count(nodes: Seq<Node>, k: int)
    requires
        all_items(nodes),
        0 <= k <= nodes.len(),
    ensures
        item_count(nodes.take(k)) == k,
    decreases k,
{
    if k > 0 {
        lemma_count(nodes, k - 1);
        assert(nodes.take(k).drop_last() =~= nodes.take(k - 1));
        assert(nodes.take(k).last() == nodes[k - 1]);
    }
}

proof fn lemma_behind(a: EnclosingContainer, rest: Seq<EnclosingContainer>, c: EnclosingContainer)
    requires
        a == c || rest.contains(c),
    ensures
        (seq![a] + rest).contains(c),
{
    if a == c {
        assert((seq![a] + rest)[0] == c);
    } else {
        let i = choose|i: int| 0 <= i < rest.len() && rest[i] == c;
        assert((seq![a] + rest)[i + 1] == c);
    }
}

/// The container that `n` is: a quote, or the item of it that is around the
/// cursor where `n` is a list.
pub open spec fn contributes(n: Node, cursor: int, b: Seq<u8>, c: EnclosingContainer) -> bool {
    match n.kind {
        NodeKind::BlockQuote => c == (EnclosingContainer::BlockQuote { range: n.range }),
        NodeKind::List { kind } => all_items(n.children) && exists|k: int|
            picks(n.children, k, cursor, b) && 0 <= k < n.children.len() && c
                == EnclosingContainer::ListItem(
                ListItemContext {
                    list_kind: kind,
                    item_index: k as usize,
                    item_range: (#[trigger] n.children[k]).range,
                    marker_range: n.children[k].kind->marker_range,
                },
            ),
        _ => false,
    }
}

/// Every container around the cursor is in the chain: each quote that leads to
/// it, and each item of a list, with its place in the list.
pub proof fn chains_hold_the_containers(
    nodes: Seq<Node>,
    cursor: int,
    b: Seq<u8>,
    n: Node,
    c: EnclosingContainer,
)
    requires
        leads_to(nodes, cursor, b, n),
        contributes(n, cursor, b, c),
    ensures
        chain_at(nodes, cursor, b).contains(c),
    decreases nodes,
{
    let i = choose|i: int|
        picks(nodes, i, cursor, b) && 0 <= i < nodes.len() && {
            ||| #[trigger] nodes[i] == n
            ||| !(nodes[i].kind is List) && leads_to(nodes[i].children, cursor, b, n)
            ||| nodes[i].kind is List && all_items(nodes[i].children) && exists|j: int|
                picks(nodes[i].children, j, cursor, b) && 0 <= j < nodes[i].children.len()
                    && leads_to((#[trigger] nodes[i].children[j]).children, cursor, b, n)
        };
    let m = nodes[i];
    assert(decreases_to!(nodes => nodes[i]));
    lemma_last_strict(nodes, i, cursor, b, false);
    assert(owner(nodes, cursor, b, false) == Some(i));
    if m == n {
        match n.kind {
            NodeKind::BlockQuote => {
                lemma_behind(
                    EnclosingContainer::BlockQuote { range: n.range },
                    chain_at(n.children, cursor, b),
                    c,
                );
            },
            NodeKind::List { kind } => {
                let k = choose|k: int|
                    picks(n.children, k, cursor, b) && 0 <= k < n.children.len() && c
                        == EnclosingContainer::ListItem(
                        ListItemContext {
                            list_kind: kind,
                            item_index: k as usize,
                            item_range: (#[trigger] n.children[k]).range,
                            marker_range: n.children[k].kind->marker_range,
                        },
                    );
                assert(n.children[k].kind is ListItem);
                lemma_last_strict(n.children, k, cursor, b, true);
                lemma_count(n.children, k);
                assert(EnclosingContainer::ListItem(item_context(kind, n.children, k)) == c);
                lemma_behind(c, chain_at(n.children[k].children, cursor, b), c);
            },
            _ => {},
        }
    } else if m.kind is List {
        let j = choose|j: int|
            picks(m.children, j, cursor, b) && 0 <= j < m.children.len() && leads_to(
                (#[trigger] m.children[j]).children,
                cursor,
                b,
                n,
            );
        assert(m.children[j].kind is ListItem);
        lemma_last_strict(m.children, j, cursor, b, true);
        assert(decreases_to!(m.children => m.children[j]));
        chains_hold_the_containers(m.children[j].children, cursor, b, n, c);
        lemma_behind(
            EnclosingContainer::ListItem(item_context(m.kind->kind, m.children, j)),
            chain_at(m.children[j].children, cursor, b),
            c,
        );
    } else {
        chains_hold_the_containers(m.children, cursor, b, n, c);
        if m.kind is BlockQuote {
            lemma_behind(
                EnclosingContainer::BlockQuote { range: m.range },
                chain_at(m.children, cursor, b),
                c,
            );
        }
    }
}

proof fn lemma_owner_holds(nodes: Seq<Node>, cursor: int, b: Seq<u8>, items: bool)
    ensures
        last_strict(nodes, cursor, b, items) matches Some(i) ==> 0 <= i < nodes.len()
            && holds_strictly(nodes[i], cursor, b) && (items ==> nodes[i].kind is ListItem),
        last_holding(nodes, cursor, b, items) matches Some(i) ==> 0 <= i < nodes.len() && holds(
            nodes[i],
            cursor,
            b,
        ) && (items ==> nodes[i].kind is ListItem),
    decreases nodes.len(),
{
    if nodes.len() > 0 {
        lemma_owner_holds(nodes.drop_last(), cursor, b, items);
    }
}

/// Does the range of the container hold the cursor, its end included?
pub open spec fn is_around(c: EnclosingContainer, cursor: int) -> bool {
    match c {
        EnclosingContainer::BlockQuote { range } => range.start <= cursor <= range.end,
        EnclosingContainer::ListItem(item) => item.item_range.start <= cursor
            <= item.item_range.end,
    }
}

/// Every container of the chain is around the cursor.
pub proof fn chains_are_around_the_cursor(nodes: Seq<Node>, cursor: int, b: Seq<u8>, k: int)
    requires
        crate::syntax::tree_fits(nodes, b),
        0 <= k < chain_at(nodes, cursor, b).len(),
    ensures
        is_around(chain_at(nodes, cursor, b)[k], cursor),
    decreases nodes,
{
    lemma_owner_holds(nodes, cursor, b, false);
    let i = owner(nodes, cursor, b, false)->0;
    let m = nodes[i];
    assert(decreases_to!(nodes => nodes[i]));
    assert(crate::syntax::node_fits(nodes[i], b));
    lemma_run_start_bounds(b, m.range.end as int, m.range.start as int, NL);
    match m.kind {
        NodeKind::BlockQuote => {
            if k > 0 {
                chains_are_around_the_cursor(m.children, cursor, b, k - 1);
            }
        },
        NodeKind::List { kind } => {
            lemma_owner_holds(m.children, cursor, b, true);
            let j = owner(m.children, cursor, b, true)->0;
            let item = m.children[j];
            assert(decreases_to!(m.children => m.children[j]));
            assert(crate::syntax::node_fits(item, b));
            lemma_run_start_bounds(b, item.range.end as int, item.range.start as int, NL);
            if k > 0 {
                chains_are_around_the_cursor(item.children, cursor, b, k - 1);
            }
        },
        _ => {
            chains_are_around_the_cursor(m.children, cursor, b, k);
        },
    }
}

} // verus!
