//! What bringing lists into canonical form does to each item of each list.

use core::ops::Range;

use vstd::prelude::*;

use super::chain::item_count;
use super::depth::{lemma_spaces_within_bounds, spaces_within, starts_between};
use super::edits::{by_start, edit, Edit};
use super::nesting::lemma_starts_complete;
use super::normalize::{
    first_number, in_nested_block, inner_edits, item_edits, item_text_end, lemma_by_start,
    line_edits, lines_edits, list_edits, normalization, opens_construct, renumbering, spacing,
    target_marker, target_width, tightening, tree_edits,
};
use super::tabs::lemma_no_starts;
use crate::strings::{capped, decimal, spaces};
use crate::syntax::{ListKind, Node, NodeKind};
use crate::text::{
    bytes_of, hard_break_before, lemma_line_end_bounds, lemma_run_end_bounds,
    lemma_run_start_bounds, line_end, run_end, run_start, NL, SPACE,
};

verus! {

// ---------------------------------------------------------------------------
// Where lists stand
// ---------------------------------------------------------------------------

/// The number of item `k` of an ordered list with `count` items whose first
/// number is `start`: they grow by one from item to item, and a lone item has no
/// number above 1.
pub open spec fn number_in_list(start: u64, count: nat, k: int) -> int {
    if count == 1 && start > 1 {
        1
    } else {
        start + k
    }
}

/// What the marker of item `k` of the list should be: its number, a dot and a
/// space, or the bullet that it is.
pub open spec fn proper_marker(list: Node, k: int) -> Option<Seq<char>> {
    match list.kind {
        NodeKind::List { kind: ListKind::Ordered { start } } => Some(
            decimal(number_in_list(start, list.children.len(), k) as nat) + seq!['.', ' '],
        ),
        _ => None,
    }
}

/// How wide that marker is.
pub open spec fn proper_width(list: Node, k: int) -> int {
    match proper_marker(list, k) {
        Some(text) => bytes_of(text).len() as int,
        None => list.children[k].kind->marker_range.end
            - list.children[k].kind->marker_range.start,
    }
}

/// Is the node a list whose children are items, whose numbers fit?
pub open spec fn is_list(list: Node) -> bool {
    &&& list.kind is List
    &&& list.kind matches NodeKind::List { kind: ListKind::Ordered { start } } ==> start
        + list.children.len() <= u64::MAX
    &&& forall|k: int|
        0 <= k < list.children.len() ==> (#[trigger] list.children[k]).kind is ListItem
            && list.children[k].kind->marker_range.start
            <= list.children[k].kind->marker_range.end
}

/// Does the list stand among the nodes, in blocks below them or in items of
/// their lists, where the markers of the items around it are `at` bytes wide?
/// Those around the nodes are `indent` wide.
pub open spec fn stands_at(nodes: Seq<Node>, indent: int, list: Node, at: int) -> bool
    decreases nodes, 1int,
{
    exists|i: int| 0 <= i < nodes.len() && stands_in(#[trigger] nodes[i], indent, list, at)
}

/// Is the node the list, or does the list stand below it?
pub open spec fn stands_in(node: Node, indent: int, list: Node, at: int) -> bool
    decreases node, 0int,
{
    ||| node == list && indent == at
    ||| !(node.kind is List) && stands_at(node.children, indent, list, at)
    ||| is_list(node) && exists|k: int|
        0 <= k < node.children.len() && stands_at(
            (#[trigger] node.children[k]).children,
            indent + proper_width(node, k),
            list,
            at,
        )
}

proof fn lemma_all_items(children: Seq<Node>, k: int)
    requires
        0 <= k <= children.len(),
        forall|j: int| 0 <= j < children.len() ==> (#[trigger] children[j]).kind is ListItem,
    ensures
        item_count(children.take(k)) == k,
    decreases k,
{
    if k > 0 {
        lemma_all_items(children, k - 1);
        assert(children.take(k).drop_last() =~= children.take(k - 1));
        assert(children.take(k).last() == children[k - 1]);
    }
}

proof fn lemma_target(list: Node, k: int)
    requires
        is_list(list),
        0 <= k < list.children.len(),
    ensures
        item_count(list.children.take(k)) == k,
        item_count(list.children) == list.children.len(),
        target_marker(
            list.kind->kind,
            first_number(list.children, list.kind->kind),
            k as nat,
        ) == proper_marker(list, k),
        target_width(
            list.children[k].kind->marker_range,
            target_marker(
                list.kind->kind,
                first_number(list.children, list.kind->kind),
                k as nat,
            ),
        ) == proper_width(list, k),
        0 <= proper_width(list, k),
{
    lemma_all_items(list.children, k);
    lemma_all_items(list.children, list.children.len() as int);
    assert(list.children.take(list.children.len() as int) =~= list.children);
    assert(list.children[k].kind is ListItem);
}

// ---------------------------------------------------------------------------
// Edits of a part are edits of the whole
// ---------------------------------------------------------------------------

/// The edits of a node, as they come among those of its siblings.
pub open spec fn node_edits(b: Seq<u8>, node: Node, indent: usize, cursors: Seq<usize>) -> Seq<Edit> {
    match node.kind {
        NodeKind::List { kind } => list_edits(
            b,
            node.children,
            kind,
            indent,
            cursors,
            node.children.len() as int,
        ) + inner_edits(
            b,
            node.children,
            kind,
            first_number(node.children, kind),
            indent,
            cursors,
        ),
        _ => tree_edits(b, node.children, indent, cursors),
    }
}

proof fn lemma_contains_left(a: Seq<Edit>, c: Seq<Edit>, e: Edit)
    requires
        a.contains(e) || c.contains(e),
    ensures
        (a + c).contains(e),
{
    if a.contains(e) {
        let i = choose|i: int| 0 <= i < a.len() && a[i] == e;
        assert((a + c)[i] == e);
    } else {
        let i = choose|i: int| 0 <= i < c.len() && c[i] == e;
        assert((a + c)[a.len() + i] == e);
    }
}

proof fn lemma_in_tree(
    b: Seq<u8>,
    nodes: Seq<Node>,
    indent: usize,
    cursors: Seq<usize>,
    i: int,
    e: Edit,
)
    requires
        0 <= i < nodes.len(),
        node_edits(b, nodes[i], indent, cursors).contains(e),
    ensures
        tree_edits(b, nodes, indent, cursors).contains(e),
    decreases nodes.len(),
{
    let rest = tree_edits(b, nodes.drop_last(), indent, cursors);
    let last = node_edits(b, nodes.last(), indent, cursors);
    assert(tree_edits(b, nodes, indent, cursors) == rest + last);
    if i < nodes.len() - 1 {
        assert(nodes.drop_last()[i] == nodes[i]);
        lemma_in_tree(b, nodes.drop_last(), indent, cursors, i, e);
    }
    lemma_contains_left(rest, last, e);
}

proof fn lemma_in_items(
    b: Seq<u8>,
    children: Seq<Node>,
    kind: ListKind,
    first: u64,
    indent: usize,
    cursors: Seq<usize>,
    k: int,
    e: Edit,
)
    requires
        0 <= k < children.len(),
        children[k].kind is ListItem,
        tree_edits(
            b,
            children[k].children,
            capped(
                indent + target_width(
                    children[k].kind->marker_range,
                    target_marker(kind, first, item_count(children.take(k))),
                ),
            ),
            cursors,
        ).contains(e),
    ensures
        inner_edits(b, children, kind, first, indent, cursors).contains(e),
    decreases children.len(),
{
    let rest = inner_edits(b, children.drop_last(), kind, first, indent, cursors);
    if k < children.len() - 1 {
        assert(children.drop_last()[k] == children[k]);
        assert(children.drop_last().take(k) =~= children.take(k));
        lemma_in_items(b, children.drop_last(), kind, first, indent, cursors, k, e);
    } else {
        assert(children.take(k) =~= children.drop_last());
    }
    match children.last().kind {
        NodeKind::ListItem { marker_range } => {
            lemma_contains_left(
                rest,
                tree_edits(
                    b,
                    children.last().children,
                    capped(
                        indent + target_width(
                            marker_range,
                            target_marker(kind, first, item_count(children.drop_last())),
                        ),
                    ),
                    cursors,
                ),
                e,
            );
        },
        _ => {},
    }
}

proof fn lemma_in_list(
    b: Seq<u8>,
    children: Seq<Node>,
    kind: ListKind,
    indent: usize,
    cursors: Seq<usize>,
    n: int,
    k: int,
    e: Edit,
)
    requires
        0 <= k < n <= children.len(),
        children[k].kind is ListItem,
        item_edits(
            b,
            children[k],
            target_marker(kind, first_number(children, kind), item_count(children.take(k))),
            indent,
            item_count(children.take(k)) + 1 == item_count(children),
            cursors,
        ).contains(e),
    ensures
        list_edits(b, children, kind, indent, cursors, n).contains(e),
    decreases n,
{
    let rest = list_edits(b, children, kind, indent, cursors, n - 1);
    if k < n - 1 {
        lemma_in_list(b, children, kind, indent, cursors, n - 1, k, e);
    }
    let child = children[n - 1];
    let idx = item_count(children.take(n - 1));
    if child.kind is ListItem {
        lemma_contains_left(
            rest,
            item_edits(
                b,
                child,
                target_marker(kind, first_number(children, kind), idx),
                indent,
                idx + 1 == item_count(children),
                cursors,
            ),
            e,
        );
    }
}

proof fn lemma_standing(
    b: Seq<u8>,
    nodes: Seq<Node>,
    indent: int,
    cursors: Seq<usize>,
    list: Node,
    at: int,
    e: Edit,
)
    requires
        0 <= indent,
        at <= usize::MAX,
        stands_at(nodes, indent, list, at),
        list.kind is List,
        list_edits(
            b,
            list.children,
            list.kind->kind,
            at as usize,
            cursors,
            list.children.len() as int,
        ).contains(e),
    ensures
        indent <= at,
        tree_edits(b, nodes, indent as usize, cursors).contains(e),
    decreases nodes,
{
    let i = choose|i: int|
        0 <= i < nodes.len() && stands_in(#[trigger] nodes[i], indent, list, at);
    let node = nodes[i];
    assert(exists|i: int|
        0 <= i < nodes.len() && stands_in(#[trigger] nodes[i], indent, list, at));
    assert(decreases_to!(nodes => nodes[i]));
    reveal_with_fuel(stands_in, 2);
    if node == list && indent == at {
        lemma_contains_left(
            list_edits(
                b,
                list.children,
                list.kind->kind,
                at as usize,
                cursors,
                list.children.len() as int,
            ),
            inner_edits(
                b,
                list.children,
                list.kind->kind,
                first_number(list.children, list.kind->kind),
                at as usize,
                cursors,
            ),
            e,
        );
    } else if !(node.kind is List) && stands_at(node.children, indent, list, at) {
        lemma_standing(b, node.children, indent, cursors, list, at, e);
    } else {
        let k = choose|k: int|
            0 <= k < node.children.len() && stands_at(
                (#[trigger] node.children[k]).children,
                indent + proper_width(node, k),
                list,
                at,
            );
        lemma_target(node, k);
        lemma_standing(
            b,
            node.children[k].children,
            indent + proper_width(node, k),
            cursors,
            list,
            at,
            e,
        );
        lemma_in_items(
            b,
            node.children,
            node.kind->kind,
            first_number(node.children, node.kind->kind),
            indent as usize,
            cursors,
            k,
            e,
        );
        lemma_contains_left(
            list_edits(
                b,
                node.children,
                node.kind->kind,
                indent as usize,
                cursors,
                node.children.len() as int,
            ),
            inner_edits(
                b,
                node.children,
                node.kind->kind,
                first_number(node.children, node.kind->kind),
                indent as usize,
                cursors,
            ),
            e,
        );
    }
    lemma_in_tree(b, nodes, indent as usize, cursors, i, e);
}

proof fn lemma_of_item(
    b: Seq<u8>,
    nodes: Seq<Node>,
    cursors: Seq<usize>,
    list: Node,
    at: int,
    k: int,
    e: Edit,
)
    requires
        at <= usize::MAX,
        stands_at(nodes, 0, list, at),
        is_list(list),
        0 <= k < list.children.len(),
        item_edits(
            b,
            list.children[k],
            proper_marker(list, k),
            at as usize,
            k + 1 == list.children.len(),
            cursors,
        ).contains(e),
    ensures
        normalization(b, nodes, cursors).contains(e),
{
    lemma_target(list, k);
    lemma_in_list(
        b,
        list.children,
        list.kind->kind,
        at as usize,
        cursors,
        list.children.len() as int,
        k,
        e,
    );
    lemma_standing(b, nodes, 0, cursors, list, at, e);
    lemma_by_start(tree_edits(b, nodes, 0, cursors));
    broadcast use vstd::seq_lib::group_to_multiset_ensures;

    assert(tree_edits(b, nodes, 0, cursors).to_multiset().contains(e));
    assert(by_start(tree_edits(b, nodes, 0, cursors)).to_multiset().contains(e));
}

// ---------------------------------------------------------------------------
// Laws
// ---------------------------------------------------------------------------

/// The numbers of an ordered list grow by one from item to item. Item `k` of a
/// list that starts at `start`, wherever the list stands, gets the number `start`
/// and `k`, unless that is what its marker reads; a lone item gets 1 at most.
pub proof fn items_are_numbered_in_turn(
    b: Seq<u8>,
    nodes: Seq<Node>,
    cursors: Seq<usize>,
    list: Node,
    start: u64,
    at: int,
    k: int,
)
    requires
        stands_at(nodes, 0, list, at),
        at <= usize::MAX,
        is_list(list),
        list.kind == (NodeKind::List { kind: ListKind::Ordered { start } }),
        0 <= k < list.children.len(),
    ensures
        ({
            let marker = list.children[k].kind->marker_range;
            let number: nat = if list.children.len() == 1 && start > 1 {
                1
            } else {
                (start + k) as nat
            };
            let text = decimal(number) + seq!['.', ' '];
            b.subrange(marker.start as int, marker.end as int) != bytes_of(text)
                ==> normalization(b, nodes, cursors).contains(Edit { range: marker, text })
        }),
{
    let marker = list.children[k].kind->marker_range;
    let text = proper_marker(list, k)->0;
    if b.subrange(marker.start as int, marker.end as int) != bytes_of(text) {
        let e = Edit { range: marker, text };
        let own = renumbering(b, marker, proper_marker(list, k));
        assert(own[0] == e);
        let all = item_edits(
            b,
            list.children[k],
            proper_marker(list, k),
            at as usize,
            k + 1 == list.children.len(),
            cursors,
        );
        assert(all[0] == e);
        lemma_of_item(b, nodes, cursors, list, at, k, e);
    }
}

proof fn lemma_item_part(
    b: Seq<u8>,
    item: Node,
    target: Option<Seq<char>>,
    indent: usize,
    is_last: bool,
    cursors: Seq<usize>,
    e: Edit,
)
    requires
        ({
            let marker = item.kind->marker_range;
            let end = item_text_end(b, item.range);
            ||| spacing(b, item.range, marker, cursors).contains(e)
            ||| tightening(b, item.range, is_last).contains(e)
            ||| lines_edits(
                b,
                item,
                end,
                capped(indent + target_width(marker, target)),
                cursors,
                starts_between(b, item.range.start as int, end, end),
            ).contains(e)
        }),
    ensures
        item_edits(b, item, target, indent, is_last, cursors).contains(e),
{
    let marker = item.kind->marker_range;
    let end = item_text_end(b, item.range);
    let one = renumbering(b, marker, target);
    let two = spacing(b, item.range, marker, cursors);
    let three = tightening(b, item.range, is_last);
    let four = lines_edits(
        b,
        item,
        end,
        capped(indent + target_width(marker, target)),
        cursors,
        starts_between(b, item.range.start as int, end, end),
    );
    if two.contains(e) {
        lemma_contains_left(one, two, e);
    }
    if two.contains(e) || three.contains(e) {
        lemma_contains_left(one + two, three, e);
    }
    lemma_contains_left(one + two + three, four, e);
}

proof fn lemma_line_part(
    b: Seq<u8>,
    item: Node,
    end: int,
    indent: usize,
    cursors: Seq<usize>,
    lines: Seq<usize>,
    p: usize,
    e: Edit,
)
    requires
        lines.contains(p),
        line_edits(b, item, end, indent, cursors, p as int).contains(e),
    ensures
        lines_edits(b, item, end, indent, cursors, lines).contains(e),
    decreases lines.len(),
{
    let i = choose|i: int| 0 <= i < lines.len() && lines[i] == p;
    let rest = lines_edits(b, item, end, indent, cursors, lines.drop_last());
    if i < lines.len() - 1 {
        assert(lines.drop_last()[i] == p);
        assert(lines.drop_last().contains(p));
        lemma_line_part(b, item, end, indent, cursors, lines.drop_last(), p, e);
    }
    lemma_contains_left(
        rest,
        line_edits(b, item, end, indent, cursors, lines.last() as int),
        e,
    );
}

/// One space stays between a marker and the text of its item: the spaces beyond
/// it go, unless a cursor is among them.
pub proof fn markers_are_followed_by_one_space(
    b: Seq<u8>,
    nodes: Seq<Node>,
    cursors: Seq<usize>,
    list: Node,
    at: int,
    k: int,
    text: int,
)
    requires
        stands_at(nodes, 0, list, at),
        at <= usize::MAX,
        is_list(list),
        0 <= k < list.children.len(),
        ({
            let marker = list.children[k].kind->marker_range;
            &&& marker.end < text < list.children[k].range.end
            &&& list.children[k].range.end <= b.len() <= usize::MAX
            &&& forall|p: int| marker.end <= p < text ==> #[trigger] b[p] as char == ' '
            &&& b[text] as char != ' ' && b[text] as char != '\n'
            &&& forall|i: int|
                0 <= i < cursors.len() ==> !(marker.end <= #[trigger] cursors[i] <= text)
        }),
    ensures
        normalization(b, nodes, cursors).contains(
            edit(list.children[k].kind->marker_range.end as int, text, Seq::empty()),
        ),
{
    let item = list.children[k];
    let marker = item.kind->marker_range;
    let e = edit(marker.end as int, text, Seq::empty());
    let end = line_end(b, marker.end as int, item.range.end as int);
    lemma_line_end_bounds(b, marker.end as int, item.range.end as int);
    assert(end > text) by {
        if end <= text {
            assert(b[end] == NL);
            assert(b[end] as char == '\n');
            if end < text {
                assert(b[end] as char == ' ');
            }
        }
    }
    lemma_run_end_bounds(b, marker.end as int, end, SPACE);
    let extra = run_end(b, marker.end as int, end, SPACE);
    assert(extra == text) by {
        if extra < text {
            assert(b[extra] as char == ' ');
        }
        if extra > text {
            assert(b[text] == SPACE);
        }
    }
    assert(spacing(b, item.range, marker, cursors)[0] == e);
    lemma_item_part(
        b,
        item,
        proper_marker(list, k),
        at as usize,
        k + 1 == list.children.len(),
        cursors,
        e,
    );
    lemma_of_item(b, nodes, cursors, list, at, k, e);
}

/// One newline stays between two items: where an item that is not the last one
/// ends with more than one, all but the first go.
pub proof fn items_are_one_newline_apart(
    b: Seq<u8>,
    nodes: Seq<Node>,
    cursors: Seq<usize>,
    list: Node,
    at: int,
    k: int,
    text: int,
)
    requires
        stands_at(nodes, 0, list, at),
        at <= usize::MAX,
        is_list(list),
        0 <= k < list.children.len() - 1,
        ({
            let item = list.children[k].range;
            &&& item.start < text
            &&& text + 1 < item.end <= b.len() <= usize::MAX
            &&& b[text - 1] as char != '\n'
            &&& forall|p: int| text <= p < item.end ==> #[trigger] b[p] as char == '\n'
        }),
    ensures
        normalization(b, nodes, cursors).contains(
            edit(text + 1, list.children[k].range.end as int, Seq::empty()),
        ),
{
    let item = list.children[k];
    let e = edit(text + 1, item.range.end as int, Seq::empty());
    lemma_run_start_bounds(b, item.range.end as int, item.range.start as int, NL);
    let end = item_text_end(b, item.range);
    assert(end == text) by {
        if end < text {
            assert(b[text - 1] == NL);
        }
        if end > text {
            assert(b[end - 1] as char == '\n');
        }
    }
    assert(tightening(b, item.range, false)[0] == e);
    lemma_item_part(b, item, proper_marker(list, k), at as usize, false, cursors, e);
    lemma_of_item(b, nodes, cursors, list, at, k, e);
}

/// Does a line of the item start at `p` whose text, from `text` on, begins with a
/// letter, and that is none of a nested list, quote or code block?
pub open spec fn text_line(b: Seq<u8>, item: Node, p: int, text: int) -> bool {
    &&& 0 <= item.range.start < p <= text < item.range.end
    &&& item.range.end <= b.len()
    &&& b[p - 1] as char == '\n'
    &&& forall|q: int| p <= q < text ==> #[trigger] b[q] as char == ' '
    &&& crate::bullets::is_letter(b[text] as char)
    &&& forall|i: int|
        0 <= i < item.children.len() ==> !((#[trigger] item.children[i]).range.start <= p
            < item.children[i].range.end && (item.children[i].kind is List
            || item.children[i].kind is BlockQuote || item.children[i].kind is CodeBlock))
}

proof fn lemma_text_line(
    b: Seq<u8>,
    item: Node,
    p: int,
    text: int,
    indent: usize,
    cursors: Seq<usize>,
)
    requires
        text_line(b, item, p, text),
        b.len() <= usize::MAX,
    ensures
        ({
            let end = item_text_end(b, item.range);
            let breaks = run_start(b, p, item.range.start as int, NL);
            &&& starts_between(b, item.range.start as int, end, end).contains(p as usize)
            &&& line_edits(b, item, end, indent, cursors, p) == (if p - breaks < 2
                && !hard_break_before(b, breaks) {
                seq![edit(breaks, breaks, seq![' ', ' '])]
            } else {
                Seq::empty()
            }) + (if text - p != indent {
                seq![edit(p, text, spaces(indent as nat))]
            } else {
                Seq::empty()
            })
        }),
{
    let end = item_text_end(b, item.range);
    lemma_run_start_bounds(b, item.range.end as int, item.range.start as int, NL);
    assert(end > text) by {
        if end <= text {
            assert(b[text] == NL);
        }
    }
    lemma_starts_complete(b, item.range.start as int, end, end, p);
    let line = line_end(b, p, end);
    lemma_line_end_bounds(b, p, end);
    assert(line > text) by {
        if line <= text {
            assert(b[line] == NL);
            if line < text {
                assert(b[line] as char == ' ');
            }
        }
    }
    lemma_run_end_bounds(b, p, line, SPACE);
    let found = run_end(b, p, line, SPACE);
    assert(found == text) by {
        if found < text {
            assert(b[found] as char == ' ');
        }
        if found > text {
            assert(b[text] == SPACE);
        }
    }
    lemma_spaces_within_bounds(b, p, line, capped(indent + 4) as nat);
    let q = spaces_within(b, p, line, capped(indent + 4) as nat);
    assert(q <= text) by {
        if q > text {
            assert(b[text] == SPACE);
        }
    }
    if q < text {
        assert(b[q] as char == ' ');
    }
    assert(!opens_construct(b, q, line));
    assert(!in_nested_block(item.children, p));
}

/// The further lines of an item stand below its text: a line of text is indented
/// by the width of the markers around it and of the item's own, once that is in
/// order.
pub proof fn lines_stand_below_the_text(
    b: Seq<u8>,
    nodes: Seq<Node>,
    cursors: Seq<usize>,
    list: Node,
    at: int,
    k: int,
    p: int,
    text: int,
)
    requires
        stands_at(nodes, 0, list, at),
        is_list(list),
        0 <= k < list.children.len(),
        0 <= at,
        at + proper_width(list, k) <= usize::MAX,
        text_line(b, list.children[k], p, text),
        b.len() <= usize::MAX,
    ensures
        text - p != at + proper_width(list, k) ==> normalization(b, nodes, cursors).contains(
            edit(p, text, spaces((at + proper_width(list, k)) as nat)),
        ),
{
    if text - p != at + proper_width(list, k) {
        let item = list.children[k];
        let indent = (at + proper_width(list, k)) as usize;
        let e = edit(p, text, spaces(indent as nat));
        lemma_target(list, k);
        lemma_text_line(b, item, p, text, indent, cursors);
        let end = item_text_end(b, item.range);
        let own = line_edits(b, item, end, indent, cursors, p);
        assert(own.last() == e);
        assert(own[own.len() - 1] == e);
        let lines = starts_between(b, item.range.start as int, end, end);
        lemma_line_part(b, item, end, indent, cursors, lines, p as usize, e);
        lemma_item_part(
            b,
            item,
            proper_marker(list, k),
            at as usize,
            k + 1 == list.children.len(),
            cursors,
            e,
        );
        lemma_of_item(b, nodes, cursors, list, at, k, e);
    }
}

/// A further line of an item begins after a hard break: where the line before it
/// ends with a newline alone, two spaces are put before that newline.
pub proof fn lines_follow_a_hard_break(
    b: Seq<u8>,
    nodes: Seq<Node>,
    cursors: Seq<usize>,
    list: Node,
    at: int,
    k: int,
    p: int,
    text: int,
)
    requires
        stands_at(nodes, 0, list, at),
        is_list(list),
        0 <= k < list.children.len(),
        0 <= at,
        at + proper_width(list, k) <= usize::MAX,
        text_line(b, list.children[k], p, text),
        b.len() <= usize::MAX,
        list.children[k].range.start < p - 1,
        b[p - 2] as char != '\n',
        b[p - 2] as char != '\\',
        b[p - 2] as char != ' ',
    ensures
        normalization(b, nodes, cursors).contains(edit(p - 1, p - 1, seq![' ', ' '])),
{
    let item = list.children[k];
    let indent = (at + proper_width(list, k)) as usize;
    let e = edit(p - 1, p - 1, seq![' ', ' ']);
    lemma_target(list, k);
    lemma_text_line(b, item, p, text, indent, cursors);
    reveal_with_fuel(run_start, 3);
    assert(run_start(b, p, item.range.start as int, NL) == p - 1);
    let end = item_text_end(b, item.range);
    let own = line_edits(b, item, end, indent, cursors, p);
    assert(own[0] == e);
    let lines = starts_between(b, item.range.start as int, end, end);
    lemma_line_part(b, item, end, indent, cursors, lines, p as usize, e);
    lemma_item_part(
        b,
        item,
        proper_marker(list, k),
        at as usize,
        k + 1 == list.children.len(),
        cursors,
        e,
    );
    lemma_of_item(b, nodes, cursors, list, at, k, e);
}

/// Is there no list among the nodes and below them?
pub open spec fn listless(nodes: Seq<Node>) -> bool
    decreases nodes,
{
    forall|i: int|
        0 <= i < nodes.len() ==> !((#[trigger] nodes[i]).kind is List) && listless(
            nodes[i].children,
        )
}

/// Is the range one line up to `end`, and newlines from there on?
pub open spec fn ends_at(b: Seq<u8>, range: Range<usize>, end: int) -> bool {
    &&& range.start <= end <= range.end
    &&& forall|p: int| range.start <= p < end ==> #[trigger] b[p] as char != '\n'
    &&& forall|p: int| end <= p < range.end ==> #[trigger] b[p] as char == '\n'
}

/// Is item `k` of the list one line in order: its marker reads what it should,
/// text begins right behind it, there is one newline at its end, or any number at
/// the end of the list, and no list inside of it?
pub open spec fn line_in_order(b: Seq<u8>, list: Node, k: int) -> bool {
    let item = list.children[k];
    let marker = item.kind->marker_range;
    &&& item.kind is ListItem
    &&& marker.start == item.range.start
    &&& marker.start <= marker.end < item.range.end <= b.len()
    &&& proper_marker(list, k) matches Some(text) ==> b.subrange(
        marker.start as int,
        marker.end as int,
    ) == bytes_of(text)
    &&& b[marker.end as int] as char != ' '
    &&& exists|end: int|
        #[trigger] ends_at(b, item.range, end) && marker.end < end && (k + 1 < list.children.len()
            ==> item.range.end <= end + 1)
    &&& listless(item.children)
}

/// Is the list one whose items are all one line in order?
pub open spec fn lines_in_order(b: Seq<u8>, list: Node) -> bool {
    is_list(list) && forall|k: int|
        0 <= k < list.children.len() ==> #[trigger] line_in_order(b, list, k)
}

proof fn lemma_listless(b: Seq<u8>, nodes: Seq<Node>, indent: usize, cursors: Seq<usize>)
    requires
        listless(nodes),
    ensures
        tree_edits(b, nodes, indent, cursors) == Seq::<Edit>::empty(),
    decreases nodes,
{
    if nodes.len() > 0 {
        let rest = nodes.drop_last();
        assert forall|i: int| 0 <= i < rest.len() implies !((#[trigger] rest[i]).kind is List)
            && listless(rest[i].children) by {
            assert(rest[i] == nodes[i]);
        }
        lemma_listless(b, rest, indent, cursors);
        assert(!(nodes[nodes.len() - 1].kind is List));
        lemma_listless(b, nodes.last().children, indent, cursors);
    }
}

proof fn lemma_line_in_order(
    b: Seq<u8>,
    list: Node,
    k: int,
    indent: usize,
    cursors: Seq<usize>,
)
    requires
        0 <= k < list.children.len(),
        line_in_order(b, list, k),
        b.len() <= usize::MAX,
    ensures
        item_edits(
            b,
            list.children[k],
            proper_marker(list, k),
            indent,
            k + 1 == list.children.len(),
            cursors,
        ) == Seq::<Edit>::empty(),
{
    let item = list.children[k];
    let marker = item.kind->marker_range;
    let end = choose|end: int|
        #[trigger] ends_at(b, item.range, end) && marker.end < end && (k + 1 < list.children.len()
            ==> item.range.end <= end + 1);
    lemma_run_start_bounds(b, item.range.end as int, item.range.start as int, NL);
    let found = item_text_end(b, item.range);
    assert(found == end) by {
        if found < end {
            assert(b[end - 1] as char != '\n');
            assert(b[end - 1] == NL);
        }
        if found > end {
            assert(b[found - 1] as char == '\n');
        }
    }
    assert forall|i: int| item.range.start <= i < end implies #[trigger] b[i] != NL by {
        assert(b[i] as char != '\n');
    }
    lemma_no_starts(b, item.range.start as int, end, end);
    let line = line_end(b, marker.end as int, item.range.end as int);
    lemma_line_end_bounds(b, marker.end as int, item.range.end as int);
    assert(run_end(b, marker.end as int, line, SPACE) == marker.end);
}

proof fn lemma_lines_in_order(
    b: Seq<u8>,
    list: Node,
    indent: usize,
    cursors: Seq<usize>,
    n: int,
)
    requires
        lines_in_order(b, list),
        b.len() <= usize::MAX,
        0 <= n <= list.children.len(),
    ensures
        list_edits(b, list.children, list.kind->kind, indent, cursors, n) == Seq::<Edit>::empty(),
        inner_edits(
            b,
            list.children.take(n),
            list.kind->kind,
            first_number(list.children, list.kind->kind),
            indent,
            cursors,
        ) == Seq::<Edit>::empty(),
    decreases n,
{
    if n > 0 {
        lemma_lines_in_order(b, list, indent, cursors, n - 1);
        lemma_target(list, n - 1);
        assert(line_in_order(b, list, n - 1));
        lemma_line_in_order(b, list, n - 1, indent, cursors);
        let shown = list.children.take(n);
        assert(shown.drop_last() =~= list.children.take(n - 1));
        assert(shown.last() == list.children[n - 1]);
        lemma_listless(
            b,
            shown.last().children,
            capped(indent + proper_width(list, n - 1)),
            cursors,
        );
    }
}

/// Lists in order stay as they are. Where all lists of a document stand at its top
/// level, are numbered in turn and have one line per item, one space behind each
/// marker and one newline between items, nothing is edited.
pub proof fn lists_in_order_stay(b: Seq<u8>, nodes: Seq<Node>, cursors: Seq<usize>)
    requires
        b.len() <= usize::MAX,
        forall|i: int|
            0 <= i < nodes.len() ==> lines_in_order(b, #[trigger] nodes[i]) || (!(
            nodes[i].kind is List) && listless(nodes[i].children)),
    ensures
        normalization(b, nodes, cursors) == Seq::<Edit>::empty(),
    decreases nodes.len(),
{
    if nodes.len() > 0 {
        let rest = nodes.drop_last();
        assert forall|i: int| 0 <= i < rest.len() implies lines_in_order(b, #[trigger] rest[i])
            || (!(rest[i].kind is List) && listless(rest[i].children)) by {
            assert(rest[i] == nodes[i]);
        }
        lists_in_order_stay(b, rest, cursors);
        lemma_by_start(tree_edits(b, rest, 0, cursors));
        broadcast use vstd::seq_lib::group_to_multiset_ensures;

        assert(tree_edits(b, rest, 0, cursors).len() == 0) by {
            assert(tree_edits(b, rest, 0, cursors).to_multiset().len() == by_start(
                tree_edits(b, rest, 0, cursors),
            ).to_multiset().len());
        }
        let node = nodes[nodes.len() - 1];
        if lines_in_order(b, node) {
            let n = node.children.len() as int;
            lemma_lines_in_order(b, node, 0, cursors, n);
            assert(node.children.take(n) =~= node.children);
        } else {
            lemma_listless(b, node.children, 0, cursors);
        }
        assert(tree_edits(b, nodes, 0, cursors) =~= Seq::empty());
    }
}

} // verus!
