//! Putting embed markers into a document and taking them out.

use core::ops::Range;

use vstd::prelude::*;

use crate::embed::{
    blanks_end, blanks_start, blocks_are_mapped_markers, blocks_of, drop_blanks,
    embed_blocks_in_tree, embed_marker, lemma_blanks_end, lemma_blanks_start, marker, skip_blanks,
    EmbedBlock, EmbedMap,
};
use crate::formatting::ranges::min_offset;
use crate::parser::{parse, syntax_tree};
use crate::state::Selection;
use crate::strings::lemma_bytes_concat;
use crate::syntax::tree_fits;
use crate::text::{bytes_of, NL};

verus! {

pub const CR: u8 = 13;

// ---------------------------------------------------------------------------
// Inserting
// ---------------------------------------------------------------------------

/// What is missing before a paragraph that is to follow the first `p` bytes.
pub open spec fn padding_before(b: Seq<u8>, p: int) -> Seq<char> {
    if p <= 0 || (p >= 2 && b[p - 1] == NL && b[p - 2] == NL) {
        Seq::empty()
    } else if b[p - 1] == NL {
        "\n"@
    } else {
        "\n\n"@
    }
}

/// What is missing after a paragraph that is to stand before the bytes from `p`
/// on.
pub open spec fn padding_after(b: Seq<u8>, p: int) -> Seq<char> {
    if p >= b.len() || (p + 1 < b.len() && b[p] == NL && b[p + 1] == NL) {
        Seq::empty()
    } else if b[p] == NL {
        "\n"@
    } else {
        "\n\n"@
    }
}

/// The bytes that an inserted marker replaces: the selection, with the blanks
/// around it.
pub open spec fn replaced(b: Seq<u8>, selection: Selection) -> (int, int) {
    let low = if selection.low() <= b.len() {
        selection.low() as int
    } else {
        b.len() as int
    };
    let high = if selection.high() <= b.len() {
        selection.high() as int
    } else {
        b.len() as int
    };
    (blanks_start(b, low, 0), blanks_end(b, high, b.len() as int))
}

/// The selection of the bytes `[start, end)`.
pub open spec fn selecting(start: int, end: int) -> Selection {
    if start == end {
        Selection::Cursor(start as usize)
    } else {
        Selection::Range { anchor: start as usize, head: end as usize }
    }
}

/// The marker with the blank lines that are missing around it.
pub open spec fn placed_text(b: Seq<u8>, start: int, end: int, ordinal: nat) -> Seq<char> {
    padding_before(b, start) + marker(ordinal) + padding_after(b, end)
}

/// What to select and then insert, so that the marker of an ordinal becomes a
/// paragraph of its own.
pub fn insert_embed_marker(markdown: &str, selection: Selection, ordinal: u64) -> (result: (
    Selection,
    String,
))
    ensures
        ({
            let b = bytes_of(markdown@);
            let (start, end) = replaced(b, selection);
            &&& result.0 == selecting(start, end)
            &&& result.1@ == placed_text(b, start, end, ordinal as nat)
        }),
{
    let bytes = markdown.as_bytes();
    let size: usize = bytes.len();
    let low: usize = min_offset(selection.lower_bound(), size);
    let high: usize = min_offset(selection.upper_bound(), size);
    let start: usize = drop_blanks(bytes, low, 0);
    let end: usize = skip_blanks(bytes, high, size);
    let mut text = String::new();
    if start > 0 && !(start >= 2 && bytes[start - 1] == NL && bytes[start - 2] == NL) {
        if bytes[start - 1] == NL {
            text.push_str("\n");
        } else {
            text.push_str("\n\n");
        }
    }
    assert(text@ =~= padding_before(bytes@, start as int));
    text.push_str(embed_marker(ordinal).as_str());
    let ghost so_far = text@;
    if end < size && !(size - end > 1 && bytes[end] == NL && bytes[end + 1] == NL) {
        if bytes[end] == NL {
            text.push_str("\n");
        } else {
            text.push_str("\n\n");
        }
    }
    assert(text@ =~= so_far + padding_after(bytes@, end as int));
    let chosen = if start == end {
        Selection::Cursor(start)
    } else {
        Selection::range(start, end)
    };
    (chosen, text)
}

// ---------------------------------------------------------------------------
// Removing
// ---------------------------------------------------------------------------

/// Is `c` part of a line ending?
pub open spec fn ending(c: u8) -> bool {
    c == NL || c == CR
}

pub open spec fn endings_end(b: Seq<u8>, p: int) -> int
    decreases b.len() - p,
{
    if p < b.len() && ending(b[p]) {
        endings_end(b, p + 1)
    } else {
        p
    }
}

pub open spec fn endings_start(b: Seq<u8>, p: int) -> int
    decreases p,
{
    if p > 0 && ending(b[p - 1]) {
        endings_start(b, p - 1)
    } else {
        p
    }
}

/// The first block with the ordinal.
pub open spec fn block_with(blocks: Seq<EmbedBlock>, ordinal: u64) -> Option<EmbedBlock>
    decreases blocks.len(),
{
    if blocks.len() == 0 {
        None
    } else if blocks[0].ordinal == ordinal {
        Some(blocks[0])
    } else {
        block_with(blocks.drop_first(), ordinal)
    }
}

/// The bytes to remove with a block: the line endings after it, and those
/// before it where there are none after it.
pub open spec fn removed_with(b: Seq<u8>, block: Range<usize>) -> Range<usize> {
    let after = endings_end(b, block.end as int);
    if after > block.end {
        Range { start: block.start, end: after as usize }
    } else {
        Range { start: endings_start(b, block.start as int) as usize, end: block.end }
    }
}

/// What to remove, so that the block of an ordinal goes and its neighbours are
/// joined; nothing where there is no such block.
pub open spec fn removal(text: Seq<char>, embeds: Map<u64, String>, ordinal: u64) -> Option<
    Range<usize>,
> {
    match block_with(blocks_of(text, embeds), ordinal) {
        Some(block) => Some(removed_with(bytes_of(text), block.range)),
        None => None,
    }
}

/// What to remove along with the bytes of a block.
pub fn separator_range(bytes: &[u8], block: &Range<usize>) -> (range: Range<usize>)
    requires
        block.start <= block.end <= bytes@.len(),
    ensures
        range == removed_with(bytes@, *block),
{
    let mut after: usize = block.end;
    while after < bytes.len() && (bytes[after] == NL || bytes[after] == CR)
        invariant
            block.end <= after <= bytes@.len(),
            endings_end(bytes@, block.end as int) == endings_end(bytes@, after as int),
        decreases bytes@.len() - after,
    {
        after = after + 1;
    }
    if after > block.end {
        return block.start..after;
    }
    let mut start: usize = block.start;
    while start > 0 && (bytes[start - 1] == NL || bytes[start - 1] == CR)
        invariant
            start <= block.start <= bytes@.len(),
            endings_start(bytes@, block.start as int) == endings_start(bytes@, start as int),
        decreases start,
    {
        start = start - 1;
    }
    start..block.end
}

/// What to remove, so that the block of an ordinal goes and its neighbours are
/// joined.
pub fn remove_embed_marker(markdown: &str, embeds: &EmbedMap, ordinal: u64) -> (range: Option<
    Range<usize>,
>)
    ensures
        range == removal(markdown@, embeds@, ordinal),
{
    let bytes = markdown.as_bytes();
    let size: usize = bytes.len();
    let tree = parse(markdown);
    let blocks = embed_blocks_in_tree(&tree, bytes, embeds);
    let ghost all = blocks@;
    let mut i: usize = 0;
    assert(all.skip(0) =~= all);
    while i < blocks.len()
        invariant
            i <= blocks@.len(),
            all == blocks@,
            all == blocks_of(markdown@, embeds@),
            tree_fits(syntax_tree(markdown@), bytes@),
            bytes@ == bytes_of(markdown@),
            size == bytes@.len(),
            block_with(all, ordinal) == block_with(all.skip(i as int), ordinal),
        decreases blocks@.len() - i,
    {
        assert(all.skip(i as int).drop_first() =~= all.skip(i + 1));
        assert(all.skip(i as int)[0] == all[i as int]);
        if blocks[i].ordinal == ordinal {
            proof {
                blocks_are_mapped_markers(syntax_tree(markdown@), bytes@, embeds@, i as int);
            }
            return Some(separator_range(bytes, &blocks[i].range));
        }
        i = i + 1;
    }
    None
}

// ---------------------------------------------------------------------------
// Laws
// ---------------------------------------------------------------------------

/// An inserted marker stands alone: what is before it is nothing or ends with a
/// blank line, and what is after it is nothing or begins with one.
pub proof fn placed_markers_stand_alone(b: Seq<u8>, selection: Selection)
    requires
        b.len() <= usize::MAX,
    ensures
        ({
            let (start, end) = replaced(b, selection);
            let before = b.take(start) + bytes_of(padding_before(b, start));
            let after = bytes_of(padding_after(b, end)) + b.skip(end);
            &&& 0 <= start <= end <= b.len()
            &&& before.len() == 0 || (before.len() >= 2 && before[before.len() - 1] == NL
                && before[before.len() - 2] == NL)
            &&& after.len() == 0 || (after.len() >= 2 && after[0] == NL && after[1] == NL)
        }),
{
    let (start, end) = replaced(b, selection);
    let low = if selection.low() <= b.len() {
        selection.low() as int
    } else {
        b.len() as int
    };
    let high = if selection.high() <= b.len() {
        selection.high() as int
    } else {
        b.len() as int
    };
    lemma_blanks_start(b, low, 0);
    lemma_blanks_end(b, high, b.len() as int);
    reveal_strlit("\n");
    reveal_strlit("\n\n");
    lemma_newlines();
    let before = b.take(start) + bytes_of(padding_before(b, start));
    let after = bytes_of(padding_after(b, end)) + b.skip(end);
    if end < b.len() {
        assert(b.skip(end)[0] == b[end]);
        if end + 1 < b.len() {
            assert(b.skip(end)[1] == b[end + 1]);
        }
    } else {
        reveal_with_fuel(vstd::utf8::encode_utf8, 2);
        assert(b.skip(end) =~= Seq::empty());
    }
    if start == 0 {
        reveal_with_fuel(vstd::utf8::encode_utf8, 2);
    }
}

proof fn lemma_newlines()
    ensures
        bytes_of("\n"@) == seq![NL],
        bytes_of("\n\n"@) == seq![NL, NL],
        bytes_of(Seq::<char>::empty()) == Seq::<u8>::empty(),
{
    reveal_strlit("\n");
    reveal_strlit("\n\n");
    vstd::utf8::is_ascii_chars_encode_utf8("\n"@);
    vstd::utf8::is_ascii_chars_encode_utf8("\n\n"@);
    reveal_with_fuel(vstd::utf8::encode_utf8, 2);
    assert(bytes_of("\n"@) =~= seq![NL]);
    assert(bytes_of("\n\n"@) =~= seq![NL, NL]);
}

/// Removing a block takes out all of it, and besides it only line endings.
pub proof fn removals_take_line_endings_only(b: Seq<u8>, block: Range<usize>, p: int)
    requires
        block.start <= block.end <= b.len() <= usize::MAX,
    ensures
        ({
            let range = removed_with(b, block);
            &&& range.start <= block.start
            &&& block.end <= range.end <= b.len()
            &&& range.start <= p < range.end && !(block.start <= p < block.end) ==> ending(b[p])
        }),
{
    lemma_endings_end(b, block.end as int, p);
    lemma_endings_start(b, block.start as int, p);
}

proof fn lemma_endings_end(b: Seq<u8>, p: int, q: int)
    ensures
        p <= endings_end(b, p),
        p <= b.len() ==> endings_end(b, p) <= b.len(),
        p <= q < endings_end(b, p) ==> ending(b[q]),
    decreases b.len() - p,
{
    if p < b.len() && ending(b[p]) {
        lemma_endings_end(b, p + 1, q);
    }
}

proof fn lemma_endings_start(b: Seq<u8>, p: int, q: int)
    requires
        0 <= p,
    ensures
        0 <= endings_start(b, p) <= p,
        endings_start(b, p) <= q < p ==> ending(b[q]),
    decreases p,
{
    if p > 0 && ending(b[p - 1]) {
        lemma_endings_start(b, p - 1, q);
    }
}

/// The text after a marker went in.
pub open spec fn with_marker(b: Seq<u8>, selection: Selection, ordinal: nat) -> Seq<u8> {
    let (start, end) = replaced(b, selection);
    b.take(start) + bytes_of(placed_text(b, start, end, ordinal)) + b.skip(end)
}

/// Where the marker that went in stands.
pub open spec fn marker_range(b: Seq<u8>, selection: Selection, ordinal: nat) -> Range<usize> {
    let (start, _) = replaced(b, selection);
    let from = start + bytes_of(padding_before(b, start)).len();
    Range { start: from as usize, end: (from + bytes_of(marker(ordinal)).len()) as usize }
}

/// The bytes without those of a range.
pub open spec fn cut(b: Seq<u8>, range: Range<usize>) -> Seq<u8> {
    b.take(range.start as int) + b.skip(range.end as int)
}

/// Is what a marker replaced, with the line endings after it, just the blank line
/// that the marker asks for? At the end of the text: does nothing but text end
/// there?
pub open spec fn parts_paragraphs(b: Seq<u8>, selection: Selection) -> bool {
    let (start, end) = replaced(b, selection);
    if end < b.len() {
        b.subrange(start, endings_end(b, end)) == bytes_of(padding_before(b, start))
    } else {
        endings_start(b, start) == b.len()
    }
}

/// Removing a marker that went in leaves the text before it and the text after
/// it with one blank line between them. This is the text that was there before
/// exactly where the marker went between two paragraphs with one blank line
/// between them, or to an edge of the text.
pub proof fn removing_undoes_placing(b: Seq<u8>, selection: Selection, ordinal: u64)
    requires
        with_marker(b, selection, ordinal as nat).len() <= usize::MAX,
    ensures
        ({
            let (start, end) = replaced(b, selection);
            let placed = with_marker(b, selection, ordinal as nat);
            let range = marker_range(b, selection, ordinal as nat);
            let left = cut(placed, removed_with(placed, range));
            &&& placed.subrange(range.start as int, range.end as int) == bytes_of(
                marker(ordinal as nat),
            )
            &&& left == if end < b.len() {
                b.take(start) + bytes_of(padding_before(b, start)) + b.skip(endings_end(b, end))
            } else {
                b.take(endings_start(b, start))
            }
            &&& left == b <==> parts_paragraphs(b, selection)
        }),
{
    let (start, end) = replaced(b, selection);
    let before = bytes_of(padding_before(b, start));
    let sign = bytes_of(marker(ordinal as nat));
    let after = bytes_of(padding_after(b, end));
    let range = marker_range(b, selection, ordinal as nat);
    lemma_placed(b, selection, ordinal as nat);
    lemma_marker_stands(b, start, end, before, sign, after);
    if end < b.len() {
        lemma_cut_inside(b, start, end, before, sign, after, range);
        lemma_endings_end(b, end, 0);
        lemma_same_middle(b, start, endings_end(b, end), before);
    } else {
        lemma_cut_at_end(b, start, before, sign, range);
        lemma_endings_start(b, start, 0);
        let from = endings_start(b, start);
        assert(b.take(from).len() == from);
        if from == b.len() {
            assert(b.take(from) =~= b);
        }
    }
}

proof fn lemma_placed(b: Seq<u8>, selection: Selection, ordinal: nat)
    ensures
        ({
            let (start, end) = replaced(b, selection);
            let before = bytes_of(padding_before(b, start));
            let after = bytes_of(padding_after(b, end));
            &&& 0 <= start <= end <= b.len()
            &&& with_marker(b, selection, ordinal) == around(
                b,
                start,
                end,
                before,
                bytes_of(marker(ordinal)),
                after,
            )
            &&& forall|i: int| 0 <= i < before.len() ==> ending(#[trigger] before[i])
            &&& forall|i: int| 0 <= i < after.len() ==> ending(#[trigger] after[i])
            &&& end < b.len() && after.len() == 0 ==> ending(b[end])
            &&& end == b.len() ==> after == Seq::<u8>::empty()
        }),
{
    let (start, end) = replaced(b, selection);
    let low = if selection.low() <= b.len() {
        selection.low() as int
    } else {
        b.len() as int
    };
    let high = if selection.high() <= b.len() {
        selection.high() as int
    } else {
        b.len() as int
    };
    lemma_blanks_start(b, low, 0);
    lemma_blanks_end(b, high, b.len() as int);
    lemma_newlines();
    let sign = marker(ordinal);
    lemma_bytes_concat(padding_before(b, start), sign);
    lemma_bytes_concat(padding_before(b, start) + sign, padding_after(b, end));
    assert(with_marker(b, selection, ordinal) =~= around(
        b,
        start,
        end,
        bytes_of(padding_before(b, start)),
        bytes_of(sign),
        bytes_of(padding_after(b, end)),
    ));
}

proof fn lemma_marker_stands(
    b: Seq<u8>,
    start: int,
    end: int,
    before: Seq<u8>,
    sign: Seq<u8>,
    after: Seq<u8>,
)
    requires
        0 <= start <= end <= b.len(),
    ensures
        around(b, start, end, before, sign, after).subrange(
            start + before.len(),
            start + before.len() + sign.len(),
        ) == sign,
        around(b, start, end, before, sign, after).len() >= start + before.len() + sign.len(),
{
    assert(around(b, start, end, before, sign, after).subrange(
        start + before.len(),
        start + before.len() + sign.len(),
    ) =~= sign);
}

proof fn lemma_same_middle(b: Seq<u8>, start: int, stop: int, middle: Seq<u8>)
    requires
        0 <= start <= stop <= b.len(),
    ensures
        b.take(start) + middle + b.skip(stop) == b <==> b.subrange(start, stop) == middle,
{
    let whole = b.take(start) + middle + b.skip(stop);
    assert(whole.len() == start + middle.len() + (b.len() - stop));
    if b.subrange(start, stop) == middle {
        assert(whole =~= b);
    }
    if whole == b {
        assert forall|i: int| 0 <= i < middle.len() implies b.subrange(start, stop)[i]
            == middle[i] by {
            assert(whole[start + i] == middle[i]);
        }
        assert(b.subrange(start, stop) =~= middle);
    }
}

/// The text with something put in place of `[start, end)`.
spec fn around(
    b: Seq<u8>,
    start: int,
    end: int,
    before: Seq<u8>,
    sign: Seq<u8>,
    after: Seq<u8>,
) -> Seq<u8> {
    b.take(start) + before + sign + after + b.skip(end)
}

proof fn lemma_cut_inside(
    b: Seq<u8>,
    start: int,
    end: int,
    before: Seq<u8>,
    sign: Seq<u8>,
    after: Seq<u8>,
    range: Range<usize>,
)
    requires
        0 <= start <= end < b.len(),
        around(b, start, end, before, sign, after).len() <= usize::MAX,
        forall|i: int| 0 <= i < after.len() ==> ending(#[trigger] after[i]),
        after.len() == 0 ==> ending(b[end]),
        range.start == start + before.len(),
        range.end == range.start + sign.len(),
    ensures
        ({
            let placed = around(b, start, end, before, sign, after);
            cut(placed, removed_with(placed, range)) == b.take(start) + before + b.skip(
                endings_end(b, end),
            )
        }),
{
    let placed = around(b, start, end, before, sign, after);
    let s = range.start as int;
    let e = range.end as int;
    let q = e + after.len();
    let stop = endings_end(b, end);
    assert forall|i: int| e <= i < q implies ending(#[trigger] placed[i]) by {
        assert(placed[i] == after[i - e]);
    }
    assert(placed.skip(q) =~= b.skip(end));
    lemma_endings_run(placed, e, q);
    lemma_endings_shift(placed, q, b, end);
    lemma_endings_end(b, end, 0);
    if ending(b[end]) {
        lemma_endings_end(b, end + 1, 0);
    }
    assert(endings_end(placed, e) == q + (stop - end));
    assert(removed_with(placed, range).start == s);
    assert(removed_with(placed, range).end == q + (stop - end));
    assert(placed.take(s) =~= b.take(start) + before);
    assert(placed.skip(q + (stop - end)) =~= b.skip(stop));
}

proof fn lemma_cut_at_end(
    b: Seq<u8>,
    start: int,
    before: Seq<u8>,
    sign: Seq<u8>,
    range: Range<usize>,
)
    requires
        0 <= start <= b.len(),
        around(b, start, b.len() as int, before, sign, Seq::empty()).len() <= usize::MAX,
        forall|i: int| 0 <= i < before.len() ==> ending(#[trigger] before[i]),
        range.start == start + before.len(),
        range.end == range.start + sign.len(),
    ensures
        ({
            let placed = around(b, start, b.len() as int, before, sign, Seq::empty());
            cut(placed, removed_with(placed, range)) == b.take(endings_start(b, start))
        }),
{
    let placed = around(b, start, b.len() as int, before, sign, Seq::empty());
    let s = range.start as int;
    let e = range.end as int;
    let from = endings_start(b, start);
    assert(placed.len() == e);
    assert forall|i: int| start <= i < s implies ending(#[trigger] placed[i]) by {
        assert(placed[i] == before[i - start]);
    }
    lemma_endings_back_run(placed, start, s);
    assert(placed.take(start) =~= b.take(start));
    lemma_endings_back_shift(placed, b, start);
    lemma_endings_start(b, start, 0);
    assert(removed_with(placed, range).start == from);
    assert(removed_with(placed, range).end == e);
    assert(cut(placed, removed_with(placed, range)) =~= b.take(from));
}

proof fn lemma_endings_run(b: Seq<u8>, p: int, q: int)
    requires
        0 <= p <= q <= b.len(),
        forall|i: int| p <= i < q ==> ending(#[trigger] b[i]),
    ensures
        endings_end(b, p) == endings_end(b, q),
    decreases q - p,
{
    if p < q {
        assert(ending(b[p]));
        lemma_endings_run(b, p + 1, q);
    }
}

proof fn lemma_endings_shift(b: Seq<u8>, p: int, c: Seq<u8>, q: int)
    requires
        0 <= p <= b.len(),
        0 <= q <= c.len(),
        b.skip(p) == c.skip(q),
    ensures
        endings_end(b, p) - p == endings_end(c, q) - q,
    decreases b.len() - p,
{
    assert(b.skip(p).len() == b.len() - p);
    assert(c.skip(q).len() == c.len() - q);
    if p < b.len() {
        assert(b.skip(p)[0] == b[p]);
        assert(c.skip(q)[0] == c[q]);
        assert(b.skip(p + 1) =~= b.skip(p).skip(1));
        assert(c.skip(q + 1) =~= c.skip(q).skip(1));
        lemma_endings_shift(b, p + 1, c, q + 1);
    }
}

proof fn lemma_endings_back_run(b: Seq<u8>, p: int, q: int)
    requires
        0 <= p <= q <= b.len(),
        forall|i: int| p <= i < q ==> ending(#[trigger] b[i]),
    ensures
        endings_start(b, q) == endings_start(b, p),
    decreases q - p,
{
    if p < q {
        assert(ending(b[q - 1]));
        lemma_endings_back_run(b, p, q - 1);
    }
}

proof fn lemma_endings_back_shift(b: Seq<u8>, c: Seq<u8>, p: int)
    requires
        0 <= p <= b.len(),
        p <= c.len(),
        b.take(p) == c.take(p),
    ensures
        endings_start(b, p) == endings_start(c, p),
    decreases p,
{
    if p > 0 {
        assert(b.take(p)[p - 1] == b[p - 1]);
        assert(c.take(p)[p - 1] == c[p - 1]);
        assert(b.take(p - 1) =~= b.take(p).take(p - 1));
        assert(c.take(p - 1) =~= c.take(p).take(p - 1));
        lemma_endings_back_shift(b, c, p - 1);
    }
}

} // verus!
