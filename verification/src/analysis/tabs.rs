//! Tab and Shift+Tab on two bulleted words: Tab moves the second below the
//! first, Shift+Tab takes it back.

use vstd::prelude::*;

use super::chain::{chain_at, chain_of, item_context, owner, EnclosingContainer, ListItemContext};
use super::depth::{
    dedent_edits, indent_edits, inner_strips, inserts, item_lines, spaces_within, starts_between,
    strip,
};
use super::edits::{disjoint, disjoint_edits_stay, edit, in_order, is_in_order, resolved, Edit};
use super::lists::{sibling_width, width_before};
use super::nesting::{spliced, spliced_from};
use super::prefix::{item_in_item, last_item, prefix_width};
use crate::bullets::{
    between, bullet_node, bullets_node, is_word, item_below, item_below_bytes, item_below_tree,
    lemma_ascii_bytes, lemma_item_below_bytes, lemma_two_items_bytes, letters, text_node,
    two_items, two_items_bytes, two_items_tree,
};
use crate::parser::{reads_bullets, syntax_tree};
use crate::strings::spaces;
use crate::syntax::{ListKind, Node};
use crate::text::{bytes_of, line_end, line_start, NL};

verus! {

/// The second of [`two_items`], with words of `f` and of `s` letters.
pub open spec fn second_item(f: int, s: int) -> ListItemContext {
    ListItemContext {
        list_kind: ListKind::Unordered,
        item_index: 1,
        item_range: between(f + 3, f + s + 5),
        marker_range: between(f + 3, f + 5),
    }
}

proof fn lemma_chain_of_text(start: int, end: int, b: Seq<u8>, cursor: int)
    ensures
        chain_at(seq![text_node(start, end)], cursor, b) == Seq::<EnclosingContainer>::empty(),
{
    let nodes = seq![text_node(start, end)];
    reveal_with_fuel(chain_at, 3);
    assert(text_node(start, end).children =~= Seq::empty());
}

pub proof fn lemma_two_items_chain(b: Seq<u8>, f: int, s: int)
    requires
        two_items_bytes(b, f, s),
        b.len() <= usize::MAX,
    ensures
        chain_at(two_items_tree(f, s), b.len() as int, b) == seq![
            EnclosingContainer::ListItem(second_item(f, s)),
        ],
{
    let end = f + s + 5;
    let tree = two_items_tree(f, s);
    let items = tree[0].children;
    assert(b[end - 1] != NL) by {
        assert(letters(b, f + 5, f + s + 5));
    }
    assert(b[f + 1] != NL) by {
        assert(letters(b, 2, f + 2));
    }
    assert(owner(tree, end, b, false) == Some(0int)) by {
        reveal_with_fuel(super::chain::last_strict, 2);
        reveal_with_fuel(super::chain::last_holding, 2);
        reveal_with_fuel(crate::text::run_start, 3);
    }
    assert(owner(items, end, b, true) == Some(1int)) by {
        reveal_with_fuel(super::chain::last_strict, 3);
        reveal_with_fuel(super::chain::last_holding, 3);
        reveal_with_fuel(crate::text::run_start, 3);
        assert(items.drop_last() =~= seq![items[0]]);
    }
    assert(item_context(ListKind::Unordered, items, 1) == second_item(f, s)) by {
        reveal_with_fuel(super::chain::item_count, 3);
        assert(items.take(1) =~= seq![items[0]]);
        assert(items.take(1).drop_last() =~= Seq::empty());
    }
    lemma_chain_of_text(f + 5, end, b, end);
    assert(items[1].children == seq![text_node(f + 5, end)]);
    assert(chain_at(tree, end, b) =~= seq![EnclosingContainer::ListItem(second_item(f, s))]);
}

pub proof fn lemma_no_starts(b: Seq<u8>, start: int, p: int, end: int)
    requires
        forall|i: int| start <= i < p ==> #[trigger] b[i] != NL,
    ensures
        starts_between(b, start, p, end) == Seq::<usize>::empty(),
    decreases p - start,
{
    if p > start {
        assert(b[p - 1] != NL);
        lemma_no_starts(b, start, p - 1, end);
    }
}

proof fn lemma_line_to_end(b: Seq<u8>, p: int)
    requires
        0 <= p <= b.len(),
        forall|i: int| p <= i < b.len() ==> #[trigger] b[i] != NL,
    ensures
        line_end(b, p, b.len() as int) == b.len(),
    decreases b.len() - p,
{
    if p < b.len() {
        assert(b[p] != NL);
        lemma_line_to_end(b, p + 1);
    }
}

proof fn lemma_lone_edit(e: Edit)
    requires
        e.range.start <= e.range.end,
    ensures
        resolved(in_order(seq![e])) == seq![e],
{
    assert(disjoint(seq![e]));
    assert(is_in_order(seq![e]));
    disjoint_edits_stay(seq![e]);
}

proof fn lemma_spliced_once(b: Seq<u8>, e: Edit)
    requires
        e.range.start <= e.range.end <= b.len(),
    ensures
        spliced(b, seq![e]) == b.take(e.range.start as int) + bytes_of(e.text) + b.skip(
            e.range.end as int,
        ),
{
    reveal_with_fuel(spliced_from, 2);
    assert(b.subrange(0, e.range.start as int) =~= b.take(e.range.start as int));
}

proof fn lemma_sibling_width(f: int, s: int)
    requires
        f > 0,
        s > 0,
        f + s + 5 <= usize::MAX,
    ensures
        sibling_width(two_items_tree(f, s), f + 3) == Some(2nat),
{
    let items = two_items_tree(f, s)[0].children;
    reveal_with_fuel(width_before, 3);
    assert(items.drop_first() =~= seq![items[1]]);
    assert(width_before(items, f + 3, None) == Some(Some(2nat)));
}

/// Tab at the end of [`two_items`] gives [`item_below`].
pub proof fn lemma_tab_nests(first: Seq<char>, second: Seq<char>)
    requires
        is_word(first),
        is_word(second),
        bytes_of(two_items(first, second)).len() <= usize::MAX,
        syntax_tree(two_items(first, second)) == two_items_tree(
            first.len() as int,
            second.len() as int,
        ),
    ensures
        ({
            let text = two_items(first, second);
            let b = bytes_of(text);
            indent_edits(text, b.len() as int) matches Some(edits) && spliced(b, edits) == bytes_of(
                item_below(first, second),
            )
        }),
{
    let text = two_items(first, second);
    let b = bytes_of(text);
    let f = first.len() as int;
    let s = second.len() as int;
    let end = f + s + 5;
    let item = second_item(f, s);
    let chain = seq![EnclosingContainer::ListItem(item)];
    lemma_two_items_bytes(first, second);
    lemma_item_below_bytes(first, second);
    lemma_two_items_chain(b, f, s);
    assert(chain_of(text, end) == chain);
    assert(last_item(chain) == Some(0int));
    assert(prefix_width(chain.take(0)) == 0) by {
        assert(chain.take(0) =~= Seq::empty());
    }
    lemma_sibling_width(f, s);
    assert(line_start(b, f + 3) == f + 3);
    assert forall|i: int| f + 3 <= i < end implies #[trigger] b[i] != NL by {
        assert(letters(b, f + 5, f + s + 5));
    }
    lemma_no_starts(b, f + 3, end, end);
    let at = edit(f + 3, f + 3, spaces(2));
    assert(item_lines(b, item.item_range) =~= seq![(f + 3) as usize]);
    assert(inserts(item_lines(b, item.item_range), 0, spaces(2)) =~= seq![at]);
    lemma_lone_edit(at);
    assert(indent_edits(text, end) == Some(seq![at]));
    lemma_spliced_once(b, at);
    lemma_ascii_bytes(spaces(2));
    lemma_ascii_bytes(first);
    assert(spaces(2)[0] == ' ' && spaces(2)[1] == ' ');
    assert(bytes_of(spaces(2)) =~= seq![32u8, 32]);
    assert(b.take(f + 3) + seq![32u8, 32] + b.skip(f + 3) =~= bytes_of(item_below(first, second)));
}

/// The inner item of [`item_below`], with words of `f` and of `s` letters.
pub open spec fn inner_item(f: int, s: int) -> ListItemContext {
    ListItemContext {
        list_kind: ListKind::Unordered,
        item_index: 0,
        item_range: between(f + 5, f + s + 7),
        marker_range: between(f + 5, f + 7),
    }
}

/// The outer item of [`item_below`].
pub open spec fn outer_item(f: int, s: int) -> ListItemContext {
    ListItemContext {
        list_kind: ListKind::Unordered,
        item_index: 0,
        item_range: between(0, f + s + 7),
        marker_range: between(0, 2),
    }
}

/// A list of one item that ends with a letter at the end of the text.
proof fn lemma_only_item(b: Seq<u8>, start: int, children: Seq<Node>, before: Seq<Node>)
    requires
        0 <= start < b.len() <= usize::MAX,
        b[b.len() - 1] != NL,
        before.len() <= 1,
    ensures
        ({
            let end = b.len() as int;
            let item = bullet_node(start, end, children);
            let list = bullets_node(start, end, seq![item]);
            let ctx = ListItemContext {
                list_kind: ListKind::Unordered,
                item_index: 0,
                item_range: between(start, end),
                marker_range: between(start, start + 2),
            };
            (before.len() == 1 ==> before[0].kind is Text && before[0].range.end < end)
                ==> chain_at(before.push(list), end, b) == seq![EnclosingContainer::ListItem(ctx)]
                + chain_at(children, end, b)
        }),
{
    let end = b.len() as int;
    let item = bullet_node(start, end, children);
    let list = bullets_node(start, end, seq![item]);
    let nodes = before.push(list);
    let items = seq![item];
    if before.len() == 1 ==> before[0].kind is Text && before[0].range.end < end {
        assert(owner(nodes, end, b, false) == Some(before.len() as int)) by {
            reveal_with_fuel(super::chain::last_strict, 3);
            reveal_with_fuel(super::chain::last_holding, 3);
            reveal_with_fuel(crate::text::run_start, 2);
            assert(nodes.drop_last() =~= before);
        }
        assert(owner(items, end, b, true) == Some(0int)) by {
            reveal_with_fuel(super::chain::last_strict, 2);
            reveal_with_fuel(super::chain::last_holding, 2);
            reveal_with_fuel(crate::text::run_start, 2);
        }
        assert(items.take(0) =~= Seq::empty());
        assert(nodes[before.len() as int] == list);
        assert(items[0] == item);
    }
}

pub proof fn lemma_item_below_chain(b: Seq<u8>, f: int, s: int)
    requires
        item_below_bytes(b, f, s),
        b.len() <= usize::MAX,
    ensures
        chain_at(item_below_tree(f, s), b.len() as int, b) == seq![
            EnclosingContainer::ListItem(outer_item(f, s)),
            EnclosingContainer::ListItem(inner_item(f, s)),
        ],
{
    let end = f + s + 7;
    assert(b[end - 1] != NL) by {
        assert(letters(b, f + 7, f + s + 7));
    }
    let one = text_node(2, f + 2);
    let word = seq![text_node(f + 7, end)];
    let below = bullets_node(f + 5, end, seq![bullet_node(f + 5, end, word)]);
    let children = seq![one, below];
    lemma_only_item(b, 0, children, Seq::empty());
    lemma_only_item(b, f + 5, word, seq![one]);
    lemma_chain_of_text(f + 7, end, b, end);
    assert(seq![one].push(below) =~= children);
    assert(Seq::<Node>::empty().push(bullets_node(0, end, seq![bullet_node(0, end, children)]))
        =~= item_below_tree(f, s));
    assert(chain_at(item_below_tree(f, s), end, b) =~= seq![
        EnclosingContainer::ListItem(outer_item(f, s)),
        EnclosingContainer::ListItem(inner_item(f, s)),
    ]);
}

/// Shift+Tab at the end of [`item_below`] gives [`two_items`].
pub proof fn lemma_shift_tab_takes_back(first: Seq<char>, second: Seq<char>)
    requires
        is_word(first),
        is_word(second),
        bytes_of(item_below(first, second)).len() <= usize::MAX,
        syntax_tree(item_below(first, second)) == item_below_tree(
            first.len() as int,
            second.len() as int,
        ),
    ensures
        ({
            let text = item_below(first, second);
            let b = bytes_of(text);
            dedent_edits(text, b.len() as int) matches Some(edits) && spliced(b, edits) == bytes_of(
                two_items(first, second),
            )
        }),
{
    let text = item_below(first, second);
    let b = bytes_of(text);
    let f = first.len() as int;
    let s = second.len() as int;
    let end = f + s + 7;
    let item = inner_item(f, s);
    let parent = outer_item(f, s);
    let chain = seq![EnclosingContainer::ListItem(parent), EnclosingContainer::ListItem(item)];
    lemma_two_items_bytes(first, second);
    lemma_item_below_bytes(first, second);
    lemma_item_below_chain(b, f, s);
    assert(chain_of(text, end) == chain);
    assert(last_item(chain) == Some(1int));
    assert(item_in_item(chain));
    assert(prefix_width(chain.take(0)) == 0) by {
        assert(chain.take(0) =~= Seq::empty());
    }
    assert(line_start(b, f + 5) == f + 3) by {
        reveal_with_fuel(line_start, 4);
    }
    assert forall|i: int| f + 3 <= i < end implies #[trigger] b[i] != NL by {
        assert(letters(b, f + 7, f + s + 7));
    }
    lemma_no_starts(b, f + 5, end, end);
    lemma_line_to_end(b, f + 3);
    assert(spaces_within(b, f + 3, end, 2) == f + 5) by {
        reveal_with_fuel(spaces_within, 3);
    }
    assert(strip(b, f + 3, 0, 2) == (f + 3, f + 5));
    let cut = edit(f + 3, f + 5, Seq::empty());
    let lines = item_lines(b, item.item_range);
    assert(lines =~= seq![(f + 3) as usize]);
    assert(inner_strips(b, lines, 0, 2) =~= seq![cut]) by {
        reveal_with_fuel(inner_strips, 2);
        assert(lines.drop_last() =~= Seq::empty());
    }
    lemma_lone_edit(cut);
    assert(dedent_edits(text, end) == Some(seq![cut]));
    lemma_spliced_once(b, cut);
    lemma_ascii_bytes(Seq::empty());
    lemma_ascii_bytes(first);
    assert(bytes_of(Seq::<char>::empty()) =~= Seq::empty());
    assert(b.take(f + 3) + Seq::<u8>::empty() + b.skip(f + 5) =~= bytes_of(
        two_items(first, second),
    ));
}

/// Shift+Tab undoes Tab on a list of two words: at its end the edits of Tab give
/// a document, at whose end the edits of Shift+Tab give the list back. Every text
/// that is parsed is read as `reads_bullets` says.
pub proof fn words_move_below_and_back(first: Seq<char>, second: Seq<char>, next: Seq<char>)
    requires
        is_word(first),
        is_word(second),
        reads_bullets(two_items(first, second)),
        reads_bullets(next),
        ({
            let b = bytes_of(two_items(first, second));
            &&& b.len() <= usize::MAX
            &&& bytes_of(next).len() <= usize::MAX
            &&& indent_edits(two_items(first, second), b.len() as int) matches Some(edits)
                ==> bytes_of(next) == spliced(b, edits)
        }),
    ensures
        indent_edits(
            two_items(first, second),
            bytes_of(two_items(first, second)).len() as int,
        ) is Some,
        dedent_edits(next, bytes_of(next).len() as int) matches Some(edits) && spliced(
            bytes_of(next),
            edits,
        ) == bytes_of(two_items(first, second)),
{
    lemma_tab_nests(first, second);
    vstd::utf8::encode_utf8_decode_utf8(next);
    vstd::utf8::encode_utf8_decode_utf8(item_below(first, second));
    assert(next == item_below(first, second));
    lemma_shift_tab_takes_back(first, second);
}

} // verus!
