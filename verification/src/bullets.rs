//! Documents of two bulleted words, side by side or one below the other: how
//! they are read, and the tree they give.

use core::ops::Range;

use vstd::prelude::*;

use crate::parser::{
    after_event, after_events, close_top, closing_node, earliest_start, item_marker,
    lemma_fit_after, opening_at, tree_of, with_child, EventKind, Frame, Opening,
};
use crate::syntax::{ListKind, Node, NodeKind};
use crate::text::{bytes_of, NL, SPACE};

verus! {

// ---------------------------------------------------------------------------
// The documents
// ---------------------------------------------------------------------------

pub open spec fn is_letter(c: char) -> bool {
    ('a' <= c && c <= 'z') || ('A' <= c && c <= 'Z')
}

/// Is the text one or more ASCII letters?
pub open spec fn is_word(text: Seq<char>) -> bool {
    text.len() > 0 && forall|i: int| 0 <= i < text.len() ==> is_letter(#[trigger] text[i])
}

/// A list of two items, one line each.
pub open spec fn two_items(first: Seq<char>, second: Seq<char>) -> Seq<char> {
    seq!['-', ' '] + first + seq!['\n', '-', ' '] + second
}

/// An item that holds a list of one item, one line each.
pub open spec fn item_below(first: Seq<char>, second: Seq<char>) -> Seq<char> {
    seq!['-', ' '] + first + seq!['\n', ' ', ' ', '-', ' '] + second
}

// ---------------------------------------------------------------------------
// Their events
// ---------------------------------------------------------------------------

pub open spec fn between(start: int, end: int) -> Range<usize> {
    Range { start: start as usize, end: end as usize }
}

/// The events of [`two_items`] with words of `f` and of `s` letters: the list
/// spans the document, an item its line and the newline after it, a text its
/// word.
pub open spec fn two_items_events(f: int, s: int) -> Seq<(EventKind, Range<usize>)> {
    let second = f + 3;
    let end = f + s + 5;
    seq![
        (EventKind::Open, between(0, end)),
        (EventKind::Open, between(0, second)),
        (EventKind::PlainText, between(2, f + 2)),
        (EventKind::Close, between(0, second)),
        (EventKind::Open, between(second, end)),
        (EventKind::PlainText, between(second + 2, end)),
        (EventKind::Close, between(second, end)),
        (EventKind::Close, between(0, end)),
    ]
}

/// The construct that each of these events opens.
pub open spec fn two_items_openings() -> Seq<Opening<Seq<char>>> {
    seq![
        Opening::OpenList(None),
        Opening::OpenItem,
        Opening::NotOpening,
        Opening::NotOpening,
        Opening::OpenItem,
        Opening::NotOpening,
        Opening::NotOpening,
        Opening::NotOpening,
    ]
}

/// The events of [`item_below`] with words of `f` and of `s` letters: the inner
/// list and its item span the second bullet and its word, the outer ones the
/// document.
pub open spec fn item_below_events(f: int, s: int) -> Seq<(EventKind, Range<usize>)> {
    let second = f + 5;
    let end = f + s + 7;
    seq![
        (EventKind::Open, between(0, end)),
        (EventKind::Open, between(0, end)),
        (EventKind::PlainText, between(2, f + 2)),
        (EventKind::Open, between(second, end)),
        (EventKind::Open, between(second, end)),
        (EventKind::PlainText, between(second + 2, end)),
        (EventKind::Close, between(second, end)),
        (EventKind::Close, between(second, end)),
        (EventKind::Close, between(0, end)),
        (EventKind::Close, between(0, end)),
    ]
}

/// The construct that each of these events opens.
pub open spec fn item_below_openings() -> Seq<Opening<Seq<char>>> {
    seq![
        Opening::OpenList(None),
        Opening::OpenItem,
        Opening::NotOpening,
        Opening::OpenList(None),
        Opening::OpenItem,
        Opening::NotOpening,
        Opening::NotOpening,
        Opening::NotOpening,
        Opening::NotOpening,
        Opening::NotOpening,
    ]
}

// ---------------------------------------------------------------------------
// Their trees
// ---------------------------------------------------------------------------

pub open spec fn text_node(start: int, end: int) -> Node {
    Node {
        kind: NodeKind::Text,
        range: between(start, end),
        dest_url: Seq::empty(),
        children: Seq::empty(),
    }
}

/// An item whose bullet and the space after it start at `start`.
pub open spec fn bullet_node(start: int, end: int, children: Seq<Node>) -> Node {
    Node {
        kind: NodeKind::ListItem { marker_range: between(start, start + 2) },
        range: between(start, end),
        dest_url: Seq::empty(),
        children,
    }
}

pub open spec fn bullets_node(start: int, end: int, children: Seq<Node>) -> Node {
    Node {
        kind: NodeKind::List { kind: ListKind::Unordered },
        range: between(start, end),
        dest_url: Seq::empty(),
        children,
    }
}

/// The tree of [`two_items`] with words of `f` and of `s` letters.
pub open spec fn two_items_tree(f: int, s: int) -> Seq<Node> {
    let second = f + 3;
    let end = f + s + 5;
    seq![
        bullets_node(
            0,
            end,
            seq![
                bullet_node(0, second, seq![text_node(2, f + 2)]),
                bullet_node(second, end, seq![text_node(second + 2, end)]),
            ],
        ),
    ]
}

/// The tree of [`item_below`] with words of `f` and of `s` letters.
pub open spec fn item_below_tree(f: int, s: int) -> Seq<Node> {
    let second = f + 5;
    let end = f + s + 7;
    seq![
        bullets_node(
            0,
            end,
            seq![
                bullet_node(
                    0,
                    end,
                    seq![
                        text_node(2, f + 2),
                        bullets_node(
                            second,
                            end,
                            seq![bullet_node(second, end, seq![text_node(second + 2, end)])],
                        ),
                    ],
                ),
            ],
        ),
    ]
}

// ---------------------------------------------------------------------------
// Their bytes
// ---------------------------------------------------------------------------

/// The bytes of a text of ASCII characters.
pub proof fn lemma_ascii_bytes(text: Seq<char>)
    requires
        vstd::utf8::is_ascii_chars(text),
    ensures
        bytes_of(text).len() == text.len(),
        forall|i: int| 0 <= i < text.len() ==> bytes_of(text)[i] == #[trigger] text[i] as u8,
        forall|i: int| 0 <= i < text.len() ==> #[trigger] bytes_of(text)[i] < 0x80,
{
    vstd::utf8::is_ascii_chars_encode_utf8(text);
}

pub open spec fn is_letter_byte(c: u8) -> bool {
    65 <= c <= 90 || 97 <= c <= 122
}

/// Are all bytes from `start` to `end` letters?
pub open spec fn letters(b: Seq<u8>, start: int, end: int) -> bool {
    forall|i: int| start <= i < end ==> is_letter_byte(#[trigger] b[i])
}

/// Does a bullet with a space after it stand at `p`?
pub open spec fn bullet_at(b: Seq<u8>, p: int) -> bool {
    b[p] == 45 && b[p + 1] == SPACE
}

pub open spec fn ascii(b: Seq<u8>) -> bool {
    forall|i: int| 0 <= i < b.len() ==> #[trigger] b[i] < 0x80
}

/// Are these the bytes of [`two_items`], with words of `f` and of `s` letters?
pub open spec fn two_items_bytes(b: Seq<u8>, f: int, s: int) -> bool {
    &&& f > 0 && s > 0
    &&& b.len() == f + s + 5
    &&& ascii(b)
    &&& bullet_at(b, 0)
    &&& letters(b, 2, f + 2)
    &&& b[f + 2] == NL
    &&& bullet_at(b, f + 3)
    &&& letters(b, f + 5, f + s + 5)
}

/// Are these the bytes of [`item_below`], with words of `f` and of `s` letters?
pub open spec fn item_below_bytes(b: Seq<u8>, f: int, s: int) -> bool {
    &&& f > 0 && s > 0
    &&& b.len() == f + s + 7
    &&& ascii(b)
    &&& bullet_at(b, 0)
    &&& letters(b, 2, f + 2)
    &&& b[f + 2] == NL
    &&& b[f + 3] == SPACE
    &&& b[f + 4] == SPACE
    &&& bullet_at(b, f + 5)
    &&& letters(b, f + 7, f + s + 7)
}

pub proof fn lemma_two_items_bytes(first: Seq<char>, second: Seq<char>)
    requires
        is_word(first),
        is_word(second),
    ensures
        two_items_bytes(
            bytes_of(two_items(first, second)),
            first.len() as int,
            second.len() as int,
        ),
        bytes_of(two_items(first, second)) == seq![45u8, 32] + bytes_of(first) + seq![
            10u8,
            45,
            32,
        ] + bytes_of(second),
{
    let text = two_items(first, second);
    let f = first.len() as int;
    assert forall|i: int| 0 <= i < text.len() implies '\0' <= #[trigger] text[i] <= '\u{7f}' by {
        if 2 <= i < f + 2 {
            assert(text[i] == first[i - 2]);
        } else if f + 5 <= i {
            assert(text[i] == second[i - (f + 5)]);
        }
    }
    lemma_ascii_bytes(text);
    lemma_ascii_bytes(first);
    lemma_ascii_bytes(second);
    let b = bytes_of(text);
    assert(text[0] == '-' && text[1] == ' ' && text[f + 2] == '\n' && text[f + 3] == '-'
        && text[f + 4] == ' ');
    assert forall|i: int| 2 <= i < f + 2 implies is_letter_byte(#[trigger] b[i]) by {
        assert(text[i] == first[i - 2]);
    }
    assert forall|i: int| f + 5 <= i < text.len() implies is_letter_byte(#[trigger] b[i]) by {
        assert(text[i] == second[i - (f + 5)]);
    }
    let parts = seq![45u8, 32] + bytes_of(first) + seq![10u8, 45, 32] + bytes_of(second);
    assert forall|i: int| 0 <= i < text.len() implies b[i] == #[trigger] parts[i] by {
        if 2 <= i < f + 2 {
            assert(text[i] == first[i - 2]);
        } else if f + 5 <= i {
            assert(text[i] == second[i - (f + 5)]);
        }
    }
    assert(b =~= parts);
}

pub proof fn lemma_item_below_bytes(first: Seq<char>, second: Seq<char>)
    requires
        is_word(first),
        is_word(second),
    ensures
        item_below_bytes(
            bytes_of(item_below(first, second)),
            first.len() as int,
            second.len() as int,
        ),
        bytes_of(item_below(first, second)) == seq![45u8, 32] + bytes_of(first) + seq![
            10u8,
            32,
            32,
            45,
            32,
        ] + bytes_of(second),
{
    let text = item_below(first, second);
    let f = first.len() as int;
    assert forall|i: int| 0 <= i < text.len() implies '\0' <= #[trigger] text[i] <= '\u{7f}' by {
        if 2 <= i < f + 2 {
            assert(text[i] == first[i - 2]);
        } else if f + 7 <= i {
            assert(text[i] == second[i - (f + 7)]);
        }
    }
    lemma_ascii_bytes(text);
    lemma_ascii_bytes(first);
    lemma_ascii_bytes(second);
    let b = bytes_of(text);
    assert(text[0] == '-' && text[1] == ' ' && text[f + 2] == '\n' && text[f + 3] == ' ' && text[f
        + 4] == ' ' && text[f + 5] == '-' && text[f + 6] == ' ');
    assert forall|i: int| 2 <= i < f + 2 implies is_letter_byte(#[trigger] b[i]) by {
        assert(text[i] == first[i - 2]);
    }
    assert forall|i: int| f + 7 <= i < text.len() implies is_letter_byte(#[trigger] b[i]) by {
        assert(text[i] == second[i - (f + 7)]);
    }
    let parts = seq![45u8, 32] + bytes_of(first) + seq![10u8, 32, 32, 45, 32] + bytes_of(second);
    assert forall|i: int| 0 <= i < text.len() implies b[i] == #[trigger] parts[i] by {
        if 2 <= i < f + 2 {
            assert(text[i] == first[i - 2]);
        } else if f + 7 <= i {
            assert(text[i] == second[i - (f + 7)]);
        }
    }
    assert(b =~= parts);
}

// ---------------------------------------------------------------------------
// From events to trees
// ---------------------------------------------------------------------------

proof fn lemma_one_more(
    events: Seq<(EventKind, Range<usize>)>,
    openings: Seq<Opening<Seq<char>>>,
    b: Seq<u8>,
    n: int,
)
    requires
        0 <= n < events.len(),
    ensures
        after_events(events.take(n + 1), openings, b) == after_event(
            after_events(events.take(n), openings, b),
            events[n],
            opening_at(openings, n),
            b,
        ),
{
    assert(events.take(n + 1).drop_last() =~= events.take(n));
}

/// An event over a range of an ASCII text keeps its range.
proof fn lemma_opens(stack: Seq<Frame>, r: Range<usize>, opened: Opening<Seq<char>>, b: Seq<u8>)
    requires
        ascii(b),
        b.len() <= usize::MAX,
        r.start <= r.end <= b.len(),
        earliest_start(stack) == 0,
    ensures
        after_event(stack, (EventKind::Open, r), opened, b) == stack.push(
            Frame { opened, range: r, children: Seq::empty() },
        ),
{
    lemma_fit_after(b, 0, r);
}

proof fn lemma_adds_text(stack: Seq<Frame>, r: Range<usize>, opened: Opening<Seq<char>>, b: Seq<u8>)
    requires
        ascii(b),
        b.len() <= usize::MAX,
        r.start <= r.end <= b.len(),
        earliest_start(stack) == 0,
    ensures
        after_event(stack, (EventKind::PlainText, r), opened, b) == with_child(
            stack,
            text_node(r.start as int, r.end as int),
        ),
{
    lemma_fit_after(b, 0, r);
}

pub proof fn lemma_two_items_tree(b: Seq<u8>, f: int, s: int)
    requires
        two_items_bytes(b, f, s),
        b.len() <= usize::MAX,
    ensures
        tree_of(two_items_events(f, s), two_items_openings(), b) == two_items_tree(f, s),
{
    let events = two_items_events(f, s);
    let openings = two_items_openings();
    let second = f + 3;
    let end = f + s + 5;
    let root = Frame {
        opened: Opening::OpenOther,
        range: between(0, end),
        children: Seq::<Node>::empty(),
    };
    let list = Frame {
        opened: Opening::OpenList(None),
        range: between(0, end),
        children: Seq::<Node>::empty(),
    };
    let item = Frame {
        opened: Opening::OpenItem,
        range: between(0, second),
        children: Seq::<Node>::empty(),
    };
    let next = Frame {
        opened: Opening::OpenItem,
        range: between(second, end),
        children: Seq::<Node>::empty(),
    };
    let one = text_node(2, f + 2);
    let two = text_node(second + 2, end);
    let first_item = bullet_node(0, second, seq![one]);
    let second_item = bullet_node(second, end, seq![two]);
    let s0 = seq![root];
    let s1 = s0.push(list);
    let s2 = s1.push(item);
    let s3 = s1.push(Frame { children: seq![one], ..item });
    let s4 = s0.push(Frame { children: seq![first_item], ..list });
    let s5 = s4.push(next);
    let s6 = s4.push(Frame { children: seq![two], ..next });
    let s7 = s0.push(Frame { children: seq![first_item, second_item], ..list });
    let s8 = seq![Frame { children: two_items_tree(f, s), ..root }];
    assert(events.take(0) =~= Seq::empty());
    assert(after_events(events.take(0), openings, b) =~= s0);
    lemma_one_more(events, openings, b, 0);
    lemma_opens(s0, between(0, end), Opening::OpenList(None), b);
    lemma_one_more(events, openings, b, 1);
    lemma_opens(s1, between(0, second), Opening::OpenItem, b);
    lemma_one_more(events, openings, b, 2);
    lemma_adds_text(s2, between(2, f + 2), Opening::NotOpening, b);
    assert(item.children.push(one) =~= seq![one]);
    assert(with_child(s2, one) =~= s3);
    lemma_one_more(events, openings, b, 3);
    assert(item_marker(b, between(0, second)) == between(0, 2));
    assert(closing_node(s3, b) == first_item);
    assert(s3.drop_last() =~= s1);
    assert(list.children.push(first_item) =~= seq![first_item]);
    assert(close_top(s3, b) =~= s4);
    lemma_one_more(events, openings, b, 4);
    lemma_opens(s4, between(second, end), Opening::OpenItem, b);
    lemma_one_more(events, openings, b, 5);
    lemma_adds_text(s5, between(second + 2, end), Opening::NotOpening, b);
    assert(next.children.push(two) =~= seq![two]);
    assert(with_child(s5, two) =~= s6);
    lemma_one_more(events, openings, b, 6);
    assert(item_marker(b, between(second, end)) == between(second, second + 2));
    assert(closing_node(s6, b) == second_item);
    assert(s6.drop_last() =~= s4);
    assert(seq![first_item].push(second_item) =~= seq![first_item, second_item]);
    assert(close_top(s6, b) =~= s7);
    lemma_one_more(events, openings, b, 7);
    assert(closing_node(s7, b) == two_items_tree(f, s)[0]);
    assert(s7.drop_last() =~= s0);
    assert(root.children.push(two_items_tree(f, s)[0]) =~= two_items_tree(f, s));
    assert(close_top(s7, b) =~= s8);
    assert(events.take(8) =~= events);
}

pub proof fn lemma_item_below_tree(b: Seq<u8>, f: int, s: int)
    requires
        item_below_bytes(b, f, s),
        b.len() <= usize::MAX,
    ensures
        tree_of(item_below_events(f, s), item_below_openings(), b) == item_below_tree(f, s),
{
    let events = item_below_events(f, s);
    let openings = item_below_openings();
    let second = f + 5;
    let end = f + s + 7;
    let root = Frame {
        opened: Opening::OpenOther,
        range: between(0, end),
        children: Seq::<Node>::empty(),
    };
    let list = Frame {
        opened: Opening::OpenList(None),
        range: between(0, end),
        children: Seq::<Node>::empty(),
    };
    let item = Frame {
        opened: Opening::OpenItem,
        range: between(0, end),
        children: Seq::<Node>::empty(),
    };
    let below = Frame {
        opened: Opening::OpenList(None),
        range: between(second, end),
        children: Seq::<Node>::empty(),
    };
    let next = Frame {
        opened: Opening::OpenItem,
        range: between(second, end),
        children: Seq::<Node>::empty(),
    };
    let one = text_node(2, f + 2);
    let two = text_node(second + 2, end);
    let inner = bullet_node(second, end, seq![two]);
    let inner_list = bullets_node(second, end, seq![inner]);
    let outer = bullet_node(0, end, seq![one, inner_list]);
    let s0 = seq![root];
    let s1 = s0.push(list);
    let s2 = s1.push(item);
    let s3 = s1.push(Frame { children: seq![one], ..item });
    let s4 = s3.push(below);
    let s5 = s4.push(next);
    let s6 = s4.push(Frame { children: seq![two], ..next });
    let s7 = s3.push(Frame { children: seq![inner], ..below });
    let s8 = s1.push(Frame { children: seq![one, inner_list], ..item });
    let s9 = s0.push(Frame { children: seq![outer], ..list });
    let s10 = seq![Frame { children: item_below_tree(f, s), ..root }];
    assert(events.take(0) =~= Seq::empty());
    assert(after_events(events.take(0), openings, b) =~= s0);
    lemma_one_more(events, openings, b, 0);
    lemma_opens(s0, between(0, end), Opening::OpenList(None), b);
    lemma_one_more(events, openings, b, 1);
    lemma_opens(s1, between(0, end), Opening::OpenItem, b);
    lemma_one_more(events, openings, b, 2);
    lemma_adds_text(s2, between(2, f + 2), Opening::NotOpening, b);
    assert(item.children.push(one) =~= seq![one]);
    assert(with_child(s2, one) =~= s3);
    lemma_one_more(events, openings, b, 3);
    lemma_opens(s3, between(second, end), Opening::OpenList(None), b);
    lemma_one_more(events, openings, b, 4);
    lemma_opens(s4, between(second, end), Opening::OpenItem, b);
    lemma_one_more(events, openings, b, 5);
    lemma_adds_text(s5, between(second + 2, end), Opening::NotOpening, b);
    assert(next.children.push(two) =~= seq![two]);
    assert(with_child(s5, two) =~= s6);
    lemma_one_more(events, openings, b, 6);
    assert(item_marker(b, between(second, end)) == between(second, second + 2));
    assert(closing_node(s6, b) == inner);
    assert(s6.drop_last() =~= s4);
    assert(below.children.push(inner) =~= seq![inner]);
    assert(close_top(s6, b) =~= s7);
    lemma_one_more(events, openings, b, 7);
    assert(closing_node(s7, b) == inner_list);
    assert(s7.drop_last() =~= s3);
    assert(seq![one].push(inner_list) =~= seq![one, inner_list]);
    assert(close_top(s7, b) =~= s8);
    lemma_one_more(events, openings, b, 8);
    assert(item_marker(b, between(0, end)) == between(0, 2));
    assert(closing_node(s8, b) == outer);
    assert(s8.drop_last() =~= s1);
    assert(list.children.push(outer) =~= seq![outer]);
    assert(close_top(s8, b) =~= s9);
    lemma_one_more(events, openings, b, 9);
    assert(closing_node(s9, b) == item_below_tree(f, s)[0]);
    assert(s9.drop_last() =~= s0);
    assert(root.children.push(item_below_tree(f, s)[0]) =~= item_below_tree(f, s));
    assert(close_top(s9, b) =~= s10);
    assert(events.take(10) =~= events);
}

} // verus!
