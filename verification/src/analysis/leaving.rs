//! What Enter does at the end of a container: it leaves it.

use vstd::prelude::*;

use super::chain::{chain_of, EnclosingContainer, ListItemContext};
use super::entering::{
    column, is_line_prefix, items_have_markers, lemma_columns_grow, prefixes_fill_their_columns,
};
use super::fences::{fence_holds, fences_in, fences_of, own_fence, FencedCodeBlock};
use super::insertions::{
    doubled_break, empty_at, empty_text, fence_close, first_fence, item_exit, pair_text, quote_exit,
    scope_break, scope_of,
};
use super::lists::innermost_item;
use super::prefix::{blank_prefix, chain_pair_ending, is_quote, last_item, prefix_of};
use crate::strings::lemma_ascii_length;
use crate::syntax::Node;
use crate::text::{bytes_of, lemma_line_end_bounds, line_end, line_start, NL, SPACE, TAB};

verus! {

/// Is the text a paragraph break inside of the containers: two newlines, each with
/// what a line inside of them begins with?
pub open spec fn is_paragraph_break(chain: Seq<EnclosingContainer>, text: Seq<char>) -> bool {
    let columns = column(chain, chain.len() as int);
    &&& 0 <= columns
    &&& text.len() == 2 + 2 * columns
    &&& text[0] == '\n' && text[1 + columns] == '\n'
    &&& is_line_prefix(chain, text.subrange(1, 1 + columns))
    &&& is_line_prefix(chain, text.skip(2 + columns))
}

proof fn lemma_scope_break(chain: Seq<EnclosingContainer>)
    requires
        items_have_markers(chain),
    ensures
        is_paragraph_break(chain, scope_break(prefix_of(chain))),
        bytes_of(scope_break(prefix_of(chain))).len() == scope_break(prefix_of(chain)).len(),
{
    let prefix = prefix_of(chain);
    let text = scope_break(prefix);
    let columns = column(chain, chain.len() as int);
    prefixes_fill_their_columns(chain);
    lemma_columns_grow(chain, 0, chain.len() as int);
    assert(text =~= doubled_break(prefix)) by {
        if prefix.len() == 0 {
            assert(doubled_break(prefix) =~= seq!['\n', '\n']);
        }
    }
    assert(text.subrange(1, 1 + columns) =~= prefix);
    assert(text.skip(2 + columns) =~= prefix);
    super::prefix::lemma_prefix_is_ascii(chain);
    assert forall|i: int| 0 <= i < text.len() implies '\0' <= #[trigger] text[i] <= '\u{7f}' by {
        if 1 <= i < 1 + prefix.len() {
            assert(text[i] == prefix[i - 1]);
        } else if i >= 2 + prefix.len() {
            assert(text[i] == prefix[i - 2 - prefix.len()]);
        }
    }
    lemma_ascii_length(text);
}

/// Does the line of the item begin at `start`?
pub open spec fn line_begins_at(b: Seq<u8>, start: int, p: int) -> bool {
    &&& 0 <= start <= p <= b.len()
    &&& start == 0 || b[start - 1] as char == '\n'
    &&& forall|q: int| start <= q < p ==> #[trigger] b[q] as char != '\n'
}

proof fn lemma_line_begins(b: Seq<u8>, start: int, p: int)
    requires
        line_begins_at(b, start, p),
    ensures
        line_start(b, p) == start,
    decreases p,
{
    if start < p {
        assert(b[p - 1] as char != '\n');
        lemma_line_begins(b, start, p - 1);
    }
}

/// Enter on an empty item leaves the list. The line of the item goes, with the
/// newline before it, and a paragraph of what is around the list begins there; at
/// the start of the document nothing takes its place.
pub proof fn enter_on_an_empty_item_leaves_the_list(
    text: Seq<char>,
    cursor: int,
    item: ListItemContext,
    outer: Seq<EnclosingContainer>,
    again: ListItemContext,
    start: int,
)
    requires
        ({
            let b = bytes_of(text);
            let chain = chain_of(text, cursor);
            let end = item.item_range.end as int;
            let marker = item.marker_range;
            &&& chain.len() > 0
            &&& chain.last() == EnclosingContainer::ListItem(item)
            &&& chain_of(text, marker.start as int) == outer.push(
                EnclosingContainer::ListItem(again),
            )
            &&& items_have_markers(outer)
            &&& marker.start <= marker.end <= end <= b.len() <= usize::MAX
            &&& line_begins_at(b, start, marker.start as int)
            &&& forall|q: int|
                marker.end <= q < end ==> #[trigger] b[q] as char == ' ' || b[q] as char == '\t'
                    || b[q] as char == '\n'
            &&& cursor == end || (marker.end <= cursor < end && b[cursor] as char == '\n' && forall|
                q: int,
            |
                marker.end <= q < cursor ==> #[trigger] b[q] as char != '\n')
            &&& start + 1 + 2 * column(outer, outer.len() as int) <= usize::MAX
        }),
    ensures
        item_exit(text, cursor) is Some,
        ({
            let e = item_exit(text, cursor)->0;
            &&& e.range.end == item.item_range.end
            &&& start > 1 ==> e.range.start == start - 1 && is_paragraph_break(outer, e.text)
                && e.cursor == start - 1 + e.text.len()
            &&& start <= 1 ==> e.range.start == 0 && e.text.len() == 0 && e.cursor == 0
        }),
{
    let b = bytes_of(text);
    let chain = chain_of(text, cursor);
    let marker = item.marker_range;
    let end = item.item_range.end as int;
    assert(last_item(chain) == Some(chain.len() - 1));
    assert(innermost_item(text, cursor) == Some(item));
    assert forall|q: int| marker.end <= q < end implies b[q] == SPACE || b[q] == TAB || b[q]
        == NL by {
        assert(b[q] as char == ' ' || b[q] as char == '\t' || b[q] as char == '\n');
    }
    assert(empty_text(b, marker.end as int, end));
    if cursor != end {
        lemma_line_end_bounds(b, marker.end as int, end);
        let found = line_end(b, marker.end as int, end);
        if found < cursor {
            assert(b[found] as char != '\n');
        }
        if found > cursor {
            assert(b[cursor] == NL);
        }
    }
    assert(empty_at(b, item, cursor));
    lemma_line_begins(b, start, marker.start as int);
    let inside = outer.push(EnclosingContainer::ListItem(again));
    assert(inside.drop_last() =~= outer);
    assert(scope_of(text, marker.start as int) == outer);
    lemma_scope_break(outer);
    assert(bytes_of(Seq::<char>::empty()).len() == 0) by {
        lemma_ascii_length(Seq::empty());
    }
}

/// Enter on an empty line of a quote leaves the innermost quote: the empty line and
/// the break before it, both with the marks of all quotes, become a break with those
/// of the quotes around.
pub proof fn enter_on_an_empty_line_leaves_the_quote(
    text: Seq<char>,
    cursor: int,
    start: int,
    line: Seq<char>,
)
    requires
        ({
            let b = bytes_of(text);
            let chain = chain_of(text, cursor);
            &&& chain.len() > 0
            &&& items_have_markers(chain)
            &&& chain.last() is BlockQuote
            &&& is_line_prefix(chain, line)
            &&& 0 <= start < cursor <= b.len() <= usize::MAX
            &&& b.subrange(start, cursor) == bytes_of(seq!['\n'] + line + seq!['\n'] + line)
            &&& start > 0 ==> b[start - 1] as char != ' ' && b[start - 1] as char != '\\'
        }),
    ensures
        quote_exit(text, cursor) is Some,
        ({
            let outer = chain_of(text, cursor).drop_last();
            let e = quote_exit(text, cursor)->0;
            let columns = column(outer, outer.len() as int);
            &&& e.range.start == start
            &&& e.range.end == cursor
            &&& e.cursor == start + e.text.len()
            &&& e.text.len() >= 2 + columns
            &&& is_line_prefix(outer, e.text.skip(e.text.len() - columns))
            &&& e.text[e.text.len() - columns - 1] == '\n'
            &&& e.text[0] == '\n'
            &&& outer.len() == 0 || outer.last() is BlockQuote ==> is_paragraph_break(outer, e.text)
        }),
{
    let b = bytes_of(text);
    let chain = chain_of(text, cursor);
    let outer = chain.drop_last();
    assert forall|i: int| 0 <= i < outer.len() implies (
    #[trigger] outer[i] matches EnclosingContainer::ListItem(item) ==> item.marker_range.start
        <= item.marker_range.end) by {
        assert(outer[i] == chain[i]);
    }
    prefixes_fill_their_columns(chain);
    lemma_prefix_is_unique(chain, line, prefix_of(chain));
    lemma_pair_ends(b, cursor, start, chain);
    lemma_outer_pair(chain, outer);
}

/// A pair with the prefix of a chain that ends in a quote is read as one.
proof fn lemma_pair_ends(b: Seq<u8>, cursor: int, start: int, chain: Seq<EnclosingContainer>)
    requires
        chain.len() > 0,
        chain.last() is BlockQuote,
        0 <= start < cursor <= b.len() <= usize::MAX,
        b.subrange(start, cursor) == bytes_of(
            seq!['\n'] + prefix_of(chain) + seq!['\n'] + prefix_of(chain),
        ),
        start > 0 ==> b[start - 1] as char != ' ' && b[start - 1] as char != '\\',
    ensures
        chain_pair_ending(b, cursor, chain) == Some(start),
{
    let prefix = prefix_of(chain);
    super::prefix::pair_shape_of_pure_chains(chain);
    super::prefix::lemma_prefix_is_ascii(chain);
    let w = bytes_of(prefix).len() as int;
    let pair = seq!['\n'] + prefix + seq!['\n'] + prefix;
    vstd::utf8::is_ascii_chars_encode_utf8(prefix);
    assert forall|i: int| 0 <= i < pair.len() implies '\0' <= #[trigger] pair[i] <= '\u{7f}' by {
        if 1 <= i < 1 + prefix.len() {
            assert(pair[i] == prefix[i - 1]);
        } else if i >= 2 + prefix.len() {
            assert(pair[i] == prefix[i - 2 - prefix.len()]);
        }
    }
    vstd::utf8::is_ascii_chars_encode_utf8(pair);
    let shown = b.subrange(start, cursor);
    assert(cursor == start + 2 + 2 * w);
    let one = b.subrange(start + 1, start + 1 + w);
    let two = b.subrange(cursor - w, cursor);
    assert forall|i: int| 0 <= i < w implies one[i] == bytes_of(prefix)[i] && two[i] == bytes_of(
        prefix,
    )[i] by {
        assert(shown[1 + i] == pair[1 + i] as u8);
        assert(pair[1 + i] == prefix[i]);
        assert(shown[2 + w + i] == pair[2 + w + i] as u8);
        assert(pair[2 + w + i] == prefix[i]);
    }
    assert(one =~= bytes_of(prefix));
    assert(two =~= bytes_of(prefix));
    assert(shown[0] == pair[0] as u8);
    assert(shown[1 + w] == pair[1 + w] as u8);
    assert(b[start] == NL && b[start + 1 + w] == NL);
    lemma_no_hard_break(b, start, w, chain.drop_last(), chain);
}

proof fn lemma_outer_pair(chain: Seq<EnclosingContainer>, outer: Seq<EnclosingContainer>)
    requires
        chain.len() > 0,
        chain.last() is BlockQuote,
        outer == chain.drop_last(),
        items_have_markers(outer),
    ensures
        ({
            let pair = pair_text(outer);
            let columns = column(outer, outer.len() as int);
            &&& bytes_of(pair).len() == pair.len()
            &&& bytes_of(pair).len() <= 2 + bytes_of(blank_prefix(chain)).len() + bytes_of(
                prefix_of(chain),
            ).len()
            &&& pair.len() >= 2 + columns
            &&& is_line_prefix(outer, pair.skip(pair.len() - columns))
            &&& pair[pair.len() - columns - 1] == '\n'
            &&& pair[0] == '\n'
            &&& outer.len() == 0 || outer.last() is BlockQuote ==> is_paragraph_break(outer, pair)
        }),
{
    let pair = pair_text(outer);
    let columns = column(outer, outer.len() as int);
    let prefix = prefix_of(outer);
    prefixes_fill_their_columns(outer);
    lemma_columns_grow(outer, 0, outer.len() as int);
    super::prefix::pair_shape_of_pure_chains(outer);
    super::insertions::lemma_shorter_chain(chain);
    lemma_ascii_length(pair);
    assert(pair.skip(pair.len() - columns) =~= prefix);
    if outer.len() == 0 || outer.last() is BlockQuote {
        assert(outer.len() > 0 ==> is_quote(outer.last()));
        assert(blank_prefix(outer) =~= prefix);
        assert(pair.subrange(1, 1 + columns) =~= prefix);
        assert(pair.skip(2 + columns) =~= prefix);
    }
}

proof fn lemma_prefix_is_unique(chain: Seq<EnclosingContainer>, a: Seq<char>, c: Seq<char>)
    requires
        items_have_markers(chain),
        is_line_prefix(chain, a),
        is_line_prefix(chain, c),
    ensures
        a == c,
{
    assert forall|p: int| 0 <= p < a.len() implies a[p] == c[p] by {
        let i = lemma_column_of(chain, p, chain.len() as int);
        assert(chain[i] == chain[i]);
        assert(a[p] == a[p]);
    }
    assert(a =~= c);
}

proof fn lemma_column_of(chain: Seq<EnclosingContainer>, p: int, n: int) -> (i: int)
    requires
        items_have_markers(chain),
        0 <= n <= chain.len(),
        0 <= p < column(chain, n),
    ensures
        0 <= i < n,
        column(chain, i) <= p < column(chain, i + 1),
    decreases n,
{
    if column(chain, n - 1) <= p {
        n - 1
    } else {
        lemma_column_of(chain, p, n - 1)
    }
}

/// The break ends no hard break: its second newline comes after `> `, one space
/// only.
proof fn lemma_no_hard_break(
    b: Seq<u8>,
    start: int,
    w: int,
    outer: Seq<EnclosingContainer>,
    chain: Seq<EnclosingContainer>,
)
    requires
        chain.len() > 0,
        chain.last() is BlockQuote,
        outer == chain.drop_last(),
        w == bytes_of(prefix_of(chain)).len(),
        0 <= start,
        start + 1 + w < b.len(),
        b.subrange(start + 1, start + 1 + w) == bytes_of(prefix_of(chain)),
    ensures
        w >= 2,
        b[start + w] == SPACE,
        b[start + w - 1] == 62,
{
    let prefix = prefix_of(chain);
    super::prefix::lemma_prefix_is_ascii(chain);
    vstd::utf8::is_ascii_chars_encode_utf8(prefix);
    assert(prefix == prefix_of(outer) + seq!['>', ' ']);
    assert(prefix[prefix.len() - 1] == ' ');
    assert(prefix[prefix.len() - 2] == '>');
    let shown = b.subrange(start + 1, start + 1 + w);
    assert(shown[w - 1] == b[start + w]);
    assert(shown[w - 2] == b[start + w - 1]);
}

proof fn lemma_first_fence(blocks: Seq<FencedCodeBlock>, cursor: int, m: int)
    requires
        0 <= m < blocks.len(),
        fence_holds(blocks[m], cursor),
        forall|k: int| 0 <= k < m ==> !fence_holds(#[trigger] blocks[k], cursor),
    ensures
        first_fence(blocks, cursor) == Some(blocks[m]),
    decreases blocks.len(),
{
    if m > 0 {
        assert(!fence_holds(blocks[0], cursor));
        let rest = blocks.drop_first();
        assert(rest[m - 1] == blocks[m]);
        assert forall|k: int| 0 <= k < m - 1 implies !fence_holds(#[trigger] rest[k], cursor) by {
            assert(rest[k] == blocks[k + 1]);
        }
        lemma_first_fence(rest, cursor, m - 1);
    }
}

/// Does the cursor stand in the block, or at the end of one without a closing
/// fence?
pub open spec fn stands_in_block(block: FencedCodeBlock, cursor: int) -> bool {
    block.range.start <= cursor && (cursor < block.range.end || (!block.terminated && cursor
        == block.range.end))
}

/// Enter in a code block whose closing fence is missing puts it in: a new line of
/// code at the cursor, where the cursor goes, and below it a line with a fence like
/// the opening one, both inside of the same containers. In a block that is closed
/// nothing is put in.
pub proof fn enter_closes_the_fence(text: Seq<char>, cursor: int, m: int)
    requires
        ({
            let blocks = fences_of(text);
            &&& 0 <= m < blocks.len()
            &&& stands_in_block(blocks[m], cursor)
            &&& forall|k: int| 0 <= k < m ==> !stands_in_block(#[trigger] blocks[k], cursor)
            &&& blocks[m].opener_fence_len > 0
            &&& items_have_markers(chain_of(text, cursor))
            &&& 0 <= cursor
            &&& cursor + 1 + column(chain_of(text, cursor), chain_of(text, cursor).len() as int)
                <= usize::MAX
        }),
    ensures
        ({
            let block = fences_of(text)[m];
            let chain = chain_of(text, cursor);
            let columns = column(chain, chain.len() as int);
            match fence_close(text, cursor) {
                None => block.terminated,
                Some(e) => {
                    &&& !block.terminated
                    &&& e.range.start == cursor && e.range.end == cursor
                    &&& e.text.len() == 2 + 2 * columns + block.opener_fence_len
                    &&& is_paragraph_break(chain, e.text.take(2 + 2 * columns))
                    &&& forall|i: int|
                        2 + 2 * columns <= i < e.text.len() ==> #[trigger] e.text[i]
                            == block.opener_fence_char as char
                    &&& e.cursor == cursor + 1 + columns
                },
            }
        }),
{
    let blocks = fences_of(text);
    let block = blocks[m];
    let chain = chain_of(text, cursor);
    let prefix = prefix_of(chain);
    let columns = column(chain, chain.len() as int);
    assert forall|k: int| 0 <= k < m implies !fence_holds(#[trigger] blocks[k], cursor) by {
        assert(!stands_in_block(blocks[k], cursor));
    }
    lemma_first_fence(blocks, cursor, m);
    prefixes_fill_their_columns(chain);
    lemma_columns_grow(chain, 0, chain.len() as int);
    super::prefix::lemma_prefix_is_ascii(chain);
    if let Some(e) = fence_close(text, cursor) {
        let row = seq!['\n'] + prefix;
        assert forall|i: int| 0 <= i < row.len() implies '\0' <= #[trigger] row[i] <= '\u{7f}' by {
            if i > 0 {
                assert(row[i] == prefix[i - 1]);
            }
        }
        lemma_ascii_length(row);
        let head = e.text.take(2 + 2 * columns);
        assert(head =~= row + row);
        assert(head.subrange(1, 1 + columns) =~= prefix);
        assert(head.skip(2 + columns) =~= prefix);
    }
}

/// Is the node in the tree?
pub open spec fn node_in(nodes: Seq<Node>, n: Node) -> bool
    decreases nodes,
{
    exists|i: int|
        0 <= i < nodes.len() && (#[trigger] nodes[i] == n || node_in(nodes[i].children, n))
}

/// Every code block of the tree is found, with its range, whether it has a closing
/// fence, and the character and the length of its opening one.
pub proof fn code_blocks_are_found(nodes: Seq<Node>, b: Seq<u8>, n: Node)
    requires
        node_in(nodes, n),
        n.kind is CodeBlock,
        n.kind->fence.start < n.kind->fence.end <= b.len(),
    ensures
        exists|k: int|
            0 <= k < fences_in(nodes, b).len() && {
                let block = #[trigger] fences_in(nodes, b)[k];
                &&& block.range == n.range
                &&& block.terminated == (n.kind->end_fence is Some)
                &&& block.opener_fence_char == b[n.kind->fence.start as int]
                &&& block.opener_fence_len == n.kind->fence.end - n.kind->fence.start
            },
    decreases nodes, 1int,
{
    let rest = nodes.drop_last();
    let last = nodes.last();
    let before = fences_in(rest, b);
    let own = own_fence(last, b);
    let below = fences_in(last.children, b);
    let all = fences_in(nodes, b);
    assert(all == before + own + below);
    let i = choose|i: int|
        0 <= i < nodes.len() && (#[trigger] nodes[i] == n || node_in(nodes[i].children, n));
    if i < nodes.len() - 1 {
        assert(rest[i] == nodes[i]);
        assert(node_in(rest, n));
        code_blocks_are_found(rest, b, n);
        let k = lemma_found(rest, b, n);
        assert(all[k] == before[k]);
    } else if last == n {
        assert(all[before.len() as int] == own[0]);
    } else {
        assert(decreases_to!(nodes => nodes[i]));
        code_blocks_are_found(last.children, b, n);
        let k = lemma_found(last.children, b, n);
        assert(all[before.len() + own.len() + k] == below[k]);
    }
}

proof fn lemma_found(nodes: Seq<Node>, b: Seq<u8>, n: Node) -> (k: int)
    requires
        exists|k: int|
            0 <= k < fences_in(nodes, b).len() && {
                let block = #[trigger] fences_in(nodes, b)[k];
                &&& block.range == n.range
                &&& block.terminated == (n.kind->end_fence is Some)
                &&& block.opener_fence_char == b[n.kind->fence.start as int]
                &&& block.opener_fence_len == n.kind->fence.end - n.kind->fence.start
            },
    ensures
        0 <= k < fences_in(nodes, b).len(),
        ({
            let block = fences_in(nodes, b)[k];
            &&& block.range == n.range
            &&& block.terminated == (n.kind->end_fence is Some)
            &&& block.opener_fence_char == b[n.kind->fence.start as int]
            &&& block.opener_fence_len == n.kind->fence.end - n.kind->fence.start
        }),
{
    choose|k: int|
        0 <= k < fences_in(nodes, b).len() && {
            let block = #[trigger] fences_in(nodes, b)[k];
            &&& block.range == n.range
            &&& block.terminated == (n.kind->end_fence is Some)
            &&& block.opener_fence_char == b[n.kind->fence.start as int]
            &&& block.opener_fence_len == n.kind->fence.end - n.kind->fence.start
        }
}

} // verus!
