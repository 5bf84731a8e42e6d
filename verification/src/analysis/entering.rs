//! What Enter and Shift+Enter do to the lines of a document.

use vstd::prelude::*;

use super::chain::{chain_of, EnclosingContainer, ListItemContext};
use super::fences::{fence_holds, fences_in, fences_of, in_fences, own_fence, FencedCodeBlock};
use super::insertions::{entered, line_broken};
use super::lists::{bullet_of, is_bullet, next_marker};
use super::prefix::{prefix_of, segment};
use super::tabs::{
    inner_item, lemma_item_below_chain, lemma_two_items_chain, outer_item, second_item,
};
use crate::bullets::{
    is_word,
    item_below,
    item_below_tree,
    lemma_item_below_bytes,
    lemma_two_items_bytes,
    two_items,
    two_items_tree,
};
use crate::parser::{reads_bullets, syntax_tree};
use crate::strings::{decimal, spaces};
use crate::syntax::{ListKind, Node, NodeKind};
use crate::text::{bytes_of, line_start};

verus! {

// ---------------------------------------------------------------------------
// Line prefixes by columns
// ---------------------------------------------------------------------------

/// The column at which the text of the first `n` containers begins: an item takes
/// as many columns as its marker has bytes, and a quote two.
pub open spec fn column(chain: Seq<EnclosingContainer>, n: int) -> int
    decreases n,
{
    if n <= 0 {
        0
    } else {
        column(chain, n - 1) + match chain[n - 1] {
            EnclosingContainer::ListItem(item) => item.marker_range.end - item.marker_range.start,
            EnclosingContainer::BlockQuote { .. } => 2,
        }
    }
}

/// Is the text what a line inside of all the containers begins with: blanks in
/// the columns of each item, and `> ` in those of each quote?
pub open spec fn is_line_prefix(chain: Seq<EnclosingContainer>, text: Seq<char>) -> bool {
    &&& text.len() == column(chain, chain.len() as int)
    &&& forall|i: int, p: int|
        0 <= i < chain.len() && column(chain, i) <= p < column(chain, i + 1) ==> (#[trigger] text[p])
            == (if #[trigger] chain[i] is BlockQuote && p == column(chain, i) {
            '>'
        } else {
            ' '
        })
}

/// Have the items of the chain markers?
pub open spec fn items_have_markers(chain: Seq<EnclosingContainer>) -> bool {
    forall|i: int|
        0 <= i < chain.len() ==> (#[trigger] chain[i] matches EnclosingContainer::ListItem(item)
            ==> item.marker_range.start <= item.marker_range.end)
}

proof fn lemma_columns(chain: Seq<EnclosingContainer>, shorter: Seq<EnclosingContainer>, n: int)
    requires
        0 <= n <= shorter.len() <= chain.len(),
        shorter == chain.take(shorter.len() as int),
    ensures
        column(shorter, n) == column(chain, n),
    decreases n,
{
    if n > 0 {
        lemma_columns(chain, shorter, n - 1);
        assert(shorter[n - 1] == chain[n - 1]);
    }
}

pub proof fn lemma_columns_grow(chain: Seq<EnclosingContainer>, i: int, j: int)
    requires
        items_have_markers(chain),
        0 <= i <= j <= chain.len(),
    ensures
        0 <= column(chain, i) <= column(chain, j),
    decreases j,
{
    if i < j {
        lemma_columns_grow(chain, i, j - 1);
        assert(chain[j - 1] matches EnclosingContainer::ListItem(item) ==> item.marker_range.start
            <= item.marker_range.end);
    } else if i > 0 {
        lemma_columns_grow(chain, i - 1, i - 1);
        assert(chain[i - 1] matches EnclosingContainer::ListItem(item) ==> item.marker_range.start
            <= item.marker_range.end);
    }
}

/// Every line of a container is continued in its columns.
pub proof fn prefixes_fill_their_columns(chain: Seq<EnclosingContainer>)
    requires
        items_have_markers(chain),
    ensures
        is_line_prefix(chain, prefix_of(chain)),
    decreases chain.len(),
{
    if chain.len() > 0 {
        let outer = chain.drop_last();
        let n = outer.len() as int;
        let last = chain.last();
        assert(outer =~= chain.take(n));
        assert forall|i: int| 0 <= i < outer.len() implies (
        #[trigger] outer[i] matches EnclosingContainer::ListItem(item) ==> item.marker_range.start
            <= item.marker_range.end) by {
            assert(outer[i] == chain[i]);
        }
        assert(chain[n] matches EnclosingContainer::ListItem(item) ==> item.marker_range.start
            <= item.marker_range.end);
        prefixes_fill_their_columns(outer);
        lemma_columns(chain, outer, n);
        let text = prefix_of(chain);
        assert(text == prefix_of(outer) + segment(last));
        assert forall|i: int, p: int|
            0 <= i < chain.len() && column(chain, i) <= p < column(chain, i + 1) implies (
        #[trigger] text[p]) == (if #[trigger] chain[i] is BlockQuote && p == column(chain, i) {
            '>'
        } else {
            ' '
        }) by {
            lemma_columns_grow(chain, i, n);
            lemma_columns_grow(chain, i, i);
            if i < n {
                lemma_columns(chain, outer, i);
                lemma_columns(chain, outer, i + 1);
                lemma_columns_grow(chain, i + 1, n);
                assert(outer[i] == chain[i]);
                assert(text[p] == prefix_of(outer)[p]);
            } else {
                assert(text[p] == segment(last)[p - column(chain, n)]);
            }
        }
    }
}

// ---------------------------------------------------------------------------
// Code
// ---------------------------------------------------------------------------

/// Is the cursor in a code block of the tree? The end of a block belongs to it
/// as long as its closing fence is missing.
pub open spec fn in_code(nodes: Seq<Node>, cursor: int) -> bool
    decreases nodes,
{
    exists|i: int|
        0 <= i < nodes.len() && {
            ||| {
                &&& (#[trigger] nodes[i]).range.start <= cursor
                &&& nodes[i].kind matches NodeKind::CodeBlock { end_fence, .. } && (cursor
                    < nodes[i].range.end || (end_fence is None && cursor == nodes[i].range.end))
            }
            ||| in_code(nodes[i].children, cursor)
        }
}

proof fn lemma_in_fences_of_either(
    a: Seq<FencedCodeBlock>,
    c: Seq<FencedCodeBlock>,
    cursor: int,
)
    ensures
        in_fences(a + c, cursor) == (in_fences(a, cursor) || in_fences(c, cursor)),
{
    if in_fences(a, cursor) {
        let i = choose|i: int| 0 <= i < a.len() && fence_holds(#[trigger] a[i], cursor);
        assert((a + c)[i] == a[i]);
    }
    if in_fences(c, cursor) {
        let i = choose|i: int| 0 <= i < c.len() && fence_holds(#[trigger] c[i], cursor);
        assert((a + c)[a.len() + i] == c[i]);
    }
    if in_fences(a + c, cursor) {
        let i = choose|i: int| 0 <= i < (a + c).len() && fence_holds(#[trigger] (a + c)[i], cursor);
        if i < a.len() {
            assert(a[i] == (a + c)[i]);
        } else {
            assert(c[i - a.len()] == (a + c)[i]);
        }
    }
}

proof fn lemma_in_code(nodes: Seq<Node>, b: Seq<u8>, cursor: int)
    ensures
        in_fences(fences_in(nodes, b), cursor) == in_code(nodes, cursor),
    decreases nodes,
{
    if nodes.len() > 0 {
        let rest = nodes.drop_last();
        let last = nodes.last();
        lemma_in_code(rest, b, cursor);
        lemma_in_code(last.children, b, cursor);
        let before = fences_in(rest, b);
        let own = own_fence(last, b);
        let below = fences_in(last.children, b);
        lemma_in_fences_of_either(before, own, cursor);
        lemma_in_fences_of_either(before + own, below, cursor);
        if last.kind is CodeBlock {
            assert(own.len() == 1);
            assert(in_fences(own, cursor) == fence_holds(own[0], cursor));
        }
        let n = nodes.len() - 1;
        assert(nodes[n] == last);
        if in_code(rest, cursor) {
            let i = choose|i: int|
                0 <= i < rest.len() && {
                    ||| {
                        &&& (#[trigger] rest[i]).range.start <= cursor
                        &&& rest[i].kind matches NodeKind::CodeBlock { end_fence, .. } && (cursor
                            < rest[i].range.end || (end_fence is None && cursor
                            == rest[i].range.end))
                    }
                    ||| in_code(rest[i].children, cursor)
                };
            assert(nodes[i] == rest[i]);
        }
        if in_code(nodes, cursor) {
            let i = choose|i: int|
                0 <= i < nodes.len() && {
                    ||| {
                        &&& (#[trigger] nodes[i]).range.start <= cursor
                        &&& nodes[i].kind matches NodeKind::CodeBlock { end_fence, .. } && (cursor
                            < nodes[i].range.end || (end_fence is None && cursor
                            == nodes[i].range.end))
                    }
                    ||| in_code(nodes[i].children, cursor)
                };
            if i < n {
                assert(rest[i] == nodes[i]);
            }
        }
    }
}

// ---------------------------------------------------------------------------
// Laws
// ---------------------------------------------------------------------------

/// Is the text the marker of an item that comes after `item`: the same bullet, or
/// the number after its own?
pub open spec fn follows_item(item: ListItemContext, b: Seq<u8>, text: Seq<char>) -> bool {
    match item.list_kind {
        ListKind::Unordered => {
            let bullet = b[item.marker_range.start as int] as char;
            (bullet == '-' || bullet == '*' || bullet == '+') ==> text == seq![bullet, ' ']
        },
        ListKind::Ordered { start } => start + item.item_index + 1 <= u64::MAX ==> text == decimal(
            (start + item.item_index + 1) as nat,
        ) + seq!['.', ' '],
    }
}

proof fn lemma_next_marker(item: ListItemContext, text: Seq<char>)
    requires
        item.marker_range.start < item.marker_range.end <= bytes_of(text).len(),
    ensures
        follows_item(item, bytes_of(text), next_marker(item, text)),
{
    let b = bytes_of(text);
    if item.list_kind is Unordered && is_bullet(b[item.marker_range.start as int]) {
        assert(bullet_of(item, b) == Some(b[item.marker_range.start as int]));
    }
}

/// Enter in a list item outside of code begins an item of the same list: a new
/// line that begins with what the containers around the item put there, and then
/// the next marker. The new marker stands as many columns into its line as those
/// containers take, so right below the marker of the item where that stands there
/// too.
pub proof fn enter_begins_the_next_item(text: Seq<char>, cursor: int, item: ListItemContext)
    requires
        ({
            let chain = chain_of(text, cursor);
            &&& chain.len() > 0
            &&& chain.last() == EnclosingContainer::ListItem(item)
            &&& items_have_markers(chain)
            &&& item.marker_range.start < item.marker_range.end <= bytes_of(text).len()
            &&& !in_code(syntax_tree(text), cursor)
        }),
    ensures
        ({
            let outer = chain_of(text, cursor).drop_last();
            let columns = column(outer, outer.len() as int);
            let inserted = entered(text, cursor);
            let below = item.marker_range.start - line_start(
                bytes_of(text),
                item.marker_range.start as int,
            );
            &&& 0 <= columns
            &&& inserted.len() > 1 + columns
            &&& inserted[0] == '\n'
            &&& is_line_prefix(outer, inserted.subrange(1, 1 + columns))
            &&& follows_item(item, bytes_of(text), inserted.skip(1 + columns))
            &&& below == columns ==> follows_item(item, bytes_of(text), inserted.skip(1 + below))
        }),
{
    let chain = chain_of(text, cursor);
    let outer = chain.drop_last();
    let b = bytes_of(text);
    lemma_in_code(syntax_tree(text), b, cursor);
    assert forall|i: int| 0 <= i < outer.len() implies (
    #[trigger] outer[i] matches EnclosingContainer::ListItem(item) ==> item.marker_range.start
        <= item.marker_range.end) by {
        assert(outer[i] == chain[i]);
    }
    prefixes_fill_their_columns(outer);
    lemma_columns_grow(outer, 0, outer.len() as int);
    lemma_next_marker(item, text);
    let columns = column(outer, outer.len() as int);
    let inserted = entered(text, cursor);
    let marker = next_marker(item, text);
    assert(inserted == seq!['\n'] + prefix_of(outer) + marker);
    assert(inserted.subrange(1, 1 + columns) =~= prefix_of(outer));
    assert(inserted.skip(1 + columns) =~= marker);
}

/// Enter in a quote outside of code begins a paragraph of the quote: two new
/// lines, both with what all the containers put there. At the top level it leaves
/// a blank line. In code it begins a line of code.
pub proof fn enter_begins_a_paragraph(text: Seq<char>, cursor: int)
    requires
        items_have_markers(chain_of(text, cursor)),
    ensures
        ({
            let chain = chain_of(text, cursor);
            let columns = column(chain, chain.len() as int);
            let inserted = entered(text, cursor);
            if in_code(syntax_tree(text), cursor) {
                &&& inserted.len() == 1 + columns
                &&& inserted[0] == '\n'
                &&& is_line_prefix(chain, inserted.skip(1))
            } else if chain.len() == 0 {
                inserted == seq!['\n', '\n']
            } else {
                chain.last() is BlockQuote ==> {
                    &&& inserted.len() == 2 + 2 * columns
                    &&& inserted[0] == '\n' && inserted[1 + columns] == '\n'
                    &&& is_line_prefix(chain, inserted.subrange(1, 1 + columns))
                    &&& is_line_prefix(chain, inserted.skip(2 + columns))
                }
            }
        }),
{
    let chain = chain_of(text, cursor);
    let columns = column(chain, chain.len() as int);
    let inserted = entered(text, cursor);
    lemma_in_code(syntax_tree(text), bytes_of(text), cursor);
    prefixes_fill_their_columns(chain);
    lemma_columns_grow(chain, 0, chain.len() as int);
    if in_code(syntax_tree(text), cursor) {
        assert(inserted.skip(1) =~= prefix_of(chain));
    } else if chain.len() > 0 && chain.last() is BlockQuote {
        assert(inserted.subrange(1, 1 + columns) =~= prefix_of(chain));
        assert(inserted.skip(2 + columns) =~= prefix_of(chain));
    }
}

/// Shift+Enter ends the line with a hard break, two spaces, and begins one inside
/// of the same containers.
pub proof fn shift_enter_stays_in_its_containers(text: Seq<char>, cursor: int)
    requires
        items_have_markers(chain_of(text, cursor)),
    ensures
        line_broken(text, cursor).take(3) == seq![' ', ' ', '\n'],
        is_line_prefix(chain_of(text, cursor), line_broken(text, cursor).skip(3)),
{
    let chain = chain_of(text, cursor);
    prefixes_fill_their_columns(chain);
    assert(line_broken(text, cursor).take(3) =~= seq![' ', ' ', '\n']);
    assert(line_broken(text, cursor).skip(3) =~= prefix_of(chain));
}

proof fn lemma_words_are_no_code(f: int, s: int, cursor: int)
    ensures
        !in_code(two_items_tree(f, s), cursor),
        !in_code(item_below_tree(f, s), cursor),
{
    reveal_with_fuel(in_code, 6);
}

/// Enter at the end of a list of two words begins a third item of it, and at the
/// end of a word below another one an item below it.
pub proof fn enter_goes_on_with_the_list(first: Seq<char>, second: Seq<char>)
    requires
        is_word(first),
        is_word(second),
        reads_bullets(two_items(first, second)),
        reads_bullets(item_below(first, second)),
        bytes_of(item_below(first, second)).len() <= usize::MAX,
    ensures
        ({
            let side = two_items(first, second);
            let below = item_below(first, second);
            &&& entered(side, bytes_of(side).len() as int) == seq!['\n', '-', ' ']
            &&& entered(below, bytes_of(below).len() as int) == seq!['\n', ' ', ' ', '-', ' ']
        }),
{
    let side = two_items(first, second);
    let below = item_below(first, second);
    let f = first.len() as int;
    let s = second.len() as int;
    lemma_two_items_bytes(first, second);
    lemma_item_below_bytes(first, second);
    lemma_two_items_chain(bytes_of(side), f, s);
    lemma_item_below_chain(bytes_of(below), f, s);
    let c1 = chain_of(side, bytes_of(side).len() as int);
    let c2 = chain_of(below, bytes_of(below).len() as int);
    assert(c1 == seq![EnclosingContainer::ListItem(second_item(f, s))]);
    assert(c2 == seq![
        EnclosingContainer::ListItem(outer_item(f, s)),
        EnclosingContainer::ListItem(inner_item(f, s)),
    ]);
    lemma_words_are_no_code(f, s, bytes_of(side).len() as int);
    lemma_words_are_no_code(f, s, bytes_of(below).len() as int);
    enter_begins_the_next_item(side, bytes_of(side).len() as int, second_item(f, s));
    enter_begins_the_next_item(below, bytes_of(below).len() as int, inner_item(f, s));
    reveal_with_fuel(column, 3);
    let one = entered(side, bytes_of(side).len() as int);
    let two = entered(below, bytes_of(below).len() as int);
    assert(column(c1.drop_last(), 0) == 0);
    assert(column(c2.drop_last(), 1) == 2);
    assert(one.skip(1) == seq!['-', ' ']);
    assert(one =~= seq!['\n'] + one.skip(1));
    assert(two.skip(3) == seq!['-', ' ']);
    let pad = two.subrange(1, 3);
    assert(c2.drop_last()[0] == EnclosingContainer::ListItem(outer_item(f, s)));
    assert(pad[0] == ' ' && pad[1] == ' ');
    assert(two =~= seq!['\n'] + pad + two.skip(3));
    assert(two =~= seq!['\n', ' ', ' ', '-', ' ']);
    assert(one =~= seq!['\n', '-', ' ']);
}

} // verus!
