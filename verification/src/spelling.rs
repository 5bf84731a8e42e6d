//! How the markers of embeds are spelled, and which paragraphs are embeds.

use vstd::prelude::*;

use crate::embed::{
    all_digits,
    bare_marker,
    blank,
    blanks_end,
    blanks_start,
    block_of,
    blocks_in,
    marker_ordinal,
    markers_are_read_off_their_bytes,
};
use crate::escapes::digit_value;
use crate::references::{are_digits, digit_of, lemma_numeral, numeral};
use crate::syntax::Node;
use crate::text::{lemma_run_start_bounds, run_start, NL};

verus! {

/// Are the bytes from `s` to `e` spaces and tabs?
pub open spec fn all_blank(c: Seq<u8>, s: int, e: int) -> bool {
    forall|i: int| s <= i < e ==> (#[trigger] c[i] as char == ' ' || c[i] as char == '\t')
}

/// Is the text the marker of a number: `{{`, the word `embed`, at least one blank,
/// decimal digits and `}}`, with blanks anywhere else between them and around? The
/// braces stand at `open` and `close`, the word at `word`, the digits from `first`
/// to `last`.
pub open spec fn is_spelled(
    c: Seq<u8>,
    open: int,
    word: int,
    first: int,
    last: int,
    close: int,
) -> bool {
    &&& 0 <= open
    &&& open + 2 <= word
    &&& word + 5 < first < last <= close
    &&& close + 2 <= c.len()
    &&& all_blank(c, 0, open)
    &&& c[open] as char == '{' && c[open + 1] as char == '{'
    &&& all_blank(c, open + 2, word)
    &&& c[word] as char == 'e' && c[word + 1] as char == 'm' && c[word + 2] as char == 'b' && c[word
        + 3] as char == 'e' && c[word + 4] as char == 'd'
    &&& all_blank(c, word + 5, first)
    &&& are_digits(c.subrange(first, last), false)
    &&& all_blank(c, last, close)
    &&& c[close] as char == '}' && c[close + 1] as char == '}'
    &&& all_blank(c, close + 2, c.len() as int)
}

proof fn lemma_blanks_end_is(c: Seq<u8>, p: int, limit: int, e: int)
    requires
        0 <= p <= e <= limit <= c.len(),
        all_blank(c, p, e),
        e < limit ==> !blank(c[e]),
    ensures
        blanks_end(c, p, limit) == e,
    decreases e - p,
{
    if p < e {
        assert(c[p] as char == ' ' || c[p] as char == '\t');
        lemma_blanks_end_is(c, p + 1, limit, e);
    }
}

proof fn lemma_blanks_start_is(c: Seq<u8>, p: int, floor: int, s: int)
    requires
        0 <= floor <= s <= p <= c.len(),
        all_blank(c, s, p),
        floor < s ==> !blank(c[s - 1]),
    ensures
        blanks_start(c, p, floor) == s,
    decreases p - s,
{
    if s < p {
        assert(c[p - 1] as char == ' ' || c[p - 1] as char == '\t');
        lemma_blanks_start_is(c, p - 1, floor, s);
    }
}

proof fn lemma_blanks_end_blank(c: Seq<u8>, p: int, limit: int)
    requires
        0 <= p <= limit <= c.len(),
    ensures
        p <= blanks_end(c, p, limit) <= limit,
        all_blank(c, p, blanks_end(c, p, limit)),
    decreases limit - p,
{
    if p < limit && blank(c[p]) {
        lemma_blanks_end_blank(c, p + 1, limit);
        assert forall|i: int| p <= i < blanks_end(c, p, limit) implies (#[trigger] c[i] as char
            == ' ' || c[i] as char == '\t') by {
            if i > p {
                assert(all_blank(c, p + 1, blanks_end(c, p + 1, limit)));
            }
        }
    }
}

proof fn lemma_blanks_start_blank(c: Seq<u8>, p: int, floor: int)
    requires
        0 <= floor <= p <= c.len(),
    ensures
        floor <= blanks_start(c, p, floor) <= p,
        all_blank(c, blanks_start(c, p, floor), p),
    decreases p - floor,
{
    if p > floor && blank(c[p - 1]) {
        lemma_blanks_start_blank(c, p - 1, floor);
        assert forall|i: int| blanks_start(c, p, floor) <= i < p implies (#[trigger] c[i] as char
            == ' ' || c[i] as char == '\t') by {
            if i < p - 1 {
                assert(all_blank(c, blanks_start(c, p - 1, floor), p - 1));
            }
        }
    }
}

/// A text that is spelled as a marker is read as the number that its digits write,
/// where that fits in 64 bits.
pub proof fn spelled_markers_are_read(
    c: Seq<u8>,
    open: int,
    word: int,
    first: int,
    last: int,
    close: int,
)
    requires
        is_spelled(c, open, word, first, last, close),
    ensures
        ({
            let n = numeral(c.subrange(first, last), false);
            marker_ordinal(c, 0, c.len() as int) == if 0 <= n <= u64::MAX {
                Some(n as u64)
            } else {
                None
            }
        }),
{
    lemma_numeral(c, first, last, false);
    lemma_blanks_end_is(c, 0, c.len() as int, open);
    lemma_blanks_start_is(c, c.len() as int, open, close + 2);
    assert(digit_value(c[last - 1], false) is Some);
    assert(digit_value(c[first], false) is Some);
    lemma_blanks_end_is(c, open + 2, close, word);
    lemma_blanks_start_is(c, close, word, last);
    lemma_blanks_end_is(c, word + 5, last, first);
    assert(all_digits(c, first, last));
}

/// Nothing else is read as a marker: a text that is read as a number is spelled as
/// its marker.
pub proof fn read_markers_are_spelled(c: Seq<u8>, n: u64)
    requires
        marker_ordinal(c, 0, c.len() as int) == Some(n),
    ensures
        is_marker(c, n),
{
    let size = c.len() as int;
    lemma_blanks_end_blank(c, 0, size);
    let open = blanks_end(c, 0, size);
    lemma_blanks_start_blank(c, size, open);
    let end = blanks_start(c, size, open);
    let close = end - 2;
    assert(bare_marker(c, open, end) == Some(n));
    assert(end - open >= 4);
    lemma_blanks_end_blank(c, open + 2, close);
    let word = blanks_end(c, open + 2, close);
    lemma_blanks_start_blank(c, close, word);
    let last = blanks_start(c, close, word);
    assert(last - word >= 5);
    lemma_blanks_end_blank(c, word + 5, last);
    let first = blanks_end(c, word + 5, last);
    let digits = c.subrange(first, last);
    assert(all_digits(c, first, last));
    assert forall|i: int| 0 <= i < digits.len() implies digit_of(
        #[trigger] digits[i] as char,
        false,
    ) is Some by {
        assert(digits[i] == c[first + i]);
        assert(digit_value(c[first + i], false) is Some);
    }
    lemma_numeral(c, first, last, false);
    assert(is_spelled(c, open, word, first, last, close));
}

/// Is the text a marker of the number?
pub open spec fn is_marker(c: Seq<u8>, n: u64) -> bool {
    exists|open: int, word: int, first: int, last: int, close: int|
        #[trigger] is_spelled(c, open, word, first, last, close) && numeral(
            c.subrange(first, last),
            false,
        ) == n
}

/// Every paragraph at the top level that is the marker of a mapped number, newlines
/// at its end apart, is an embed.
pub proof fn mapped_markers_are_embeds(
    nodes: Seq<Node>,
    b: Seq<u8>,
    map: Map<u64, String>,
    i: int,
    end: int,
    n: u64,
)
    requires
        0 <= i < nodes.len(),
        nodes[i].kind is Paragraph,
        nodes[i].range.start < end <= nodes[i].range.end <= b.len() <= usize::MAX,
        b[end - 1] as char != '\n',
        forall|p: int| end <= p < nodes[i].range.end ==> #[trigger] b[p] as char == '\n',
        is_marker(b.subrange(nodes[i].range.start as int, end), n),
        map.contains_key(n),
    ensures
        exists|k: int|
            0 <= k < blocks_in(nodes, b, map).len() && (#[trigger] blocks_in(
                nodes,
                b,
                map,
            )[k]).range.start == nodes[i].range.start && blocks_in(nodes, b, map)[k].range.end
                == end && blocks_in(nodes, b, map)[k].ordinal == n,
    decreases nodes.len(),
{
    let node = nodes[i];
    let start = node.range.start as int;
    let c = b.subrange(start, end);
    let before = blocks_in(nodes.drop_last(), b, map);
    let all = blocks_in(nodes, b, map);
    if i < nodes.len() - 1 {
        let rest = nodes.drop_last();
        assert(rest[i] == node);
        mapped_markers_are_embeds(rest, b, map, i, end, n);
        let k = choose|k: int|
            0 <= k < before.len() && (#[trigger] before[k]).range.start == node.range.start
                && before[k].range.end == end && before[k].ordinal == n;
        assert(all[k] == before[k]);
    } else {
        let (open, word, first, last, close) = choose|
            open: int,
            word: int,
            first: int,
            last: int,
            close: int,
        |
            #[trigger] is_spelled(c, open, word, first, last, close) && numeral(
                c.subrange(first, last),
                false,
            ) == n;
        spelled_markers_are_read(c, open, word, first, last, close);
        markers_are_read_off_their_bytes(b, start, end);
        lemma_run_start_bounds(b, node.range.end as int, start, NL);
        let found = run_start(b, node.range.end as int, start, NL);
        assert(found == end) by {
            if found < end {
                assert(b[end - 1] == NL);
            }
            if found > end {
                assert(b[found - 1] as char == '\n');
            }
        }
        assert(all == before.push(block_of(node, b, map)->0));
        assert(all[before.len() as int].range.start == start);
    }
}

/// Nothing but paragraphs of the top level are embeds.
pub proof fn embeds_are_paragraphs(
    nodes: Seq<Node>,
    b: Seq<u8>,
    map: Map<u64, String>,
    k: int,
)
    requires
        0 <= k < blocks_in(nodes, b, map).len(),
    ensures
        exists|i: int|
            0 <= i < nodes.len() && (#[trigger] nodes[i]).kind is Paragraph && nodes[i].range.start
                == blocks_in(nodes, b, map)[k].range.start,
    decreases nodes.len(),
{
    let before = blocks_in(nodes.drop_last(), b, map);
    if k < before.len() {
        let rest = nodes.drop_last();
        embeds_are_paragraphs(rest, b, map, k);
        let i = choose|i: int|
            0 <= i < rest.len() && (#[trigger] rest[i]).kind is Paragraph && rest[i].range.start
                == before[k].range.start;
        assert(nodes[i] == rest[i]);
    } else {
        assert(nodes[nodes.len() - 1] == nodes.last());
    }
}

} // verus!
