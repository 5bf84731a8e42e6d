//! The text that is shown of a line, and which byte of the source each byte of
//! it comes from.

use core::ops::Range;

use vstd::prelude::*;

use crate::display::block::{RenderBlock, Substitution};
use crate::formatting::ranges::{greater, lesser, max_offset, min_offset};
use crate::strings::{byte_offset, char_width, lemma_bytes_concat, lemma_bytes_push, utf8_len};
use crate::text::bytes_of;
use crate::words::{index_at, lemma_index_at, lemma_offsets_grow, Glyphs};

verus! {

/// The text of a line as it is shown, and for each byte of it and the end the
/// byte of the source that it comes from.
#[verifier::ext_equal]
pub struct Shown {
    pub text: Seq<char>,
    pub map: Seq<usize>,
}

/// The first substitution that begins at `pos` and ends by `end`.
pub open spec fn substitution_at(subs: Seq<Substitution>, pos: int, end: int) -> Option<Substitution>
    decreases subs.len(),
{
    if subs.len() == 0 {
        None
    } else if subs[0].source_range.start == pos && subs[0].source_range.end <= end {
        Some(subs[0])
    } else {
        substitution_at(subs.drop_first(), pos, end)
    }
}

/// How far the hidden ranges that hold `pos` reach.
pub open spec fn hidden_until(hidden: Seq<Range<usize>>, pos: int) -> Option<usize>
    decreases hidden.len(),
{
    if hidden.len() == 0 {
        None
    } else {
        let before = hidden_until(hidden.drop_last(), pos);
        let r = hidden.last();
        if r.start <= pos < r.end {
            Some(
                match before {
                    Some(end) => greater(end, r.end),
                    None => r.end,
                },
            )
        } else {
            before
        }
    }
}

/// The first substitution that begins strictly between `pos` and `limit`, or
/// `limit`.
pub open spec fn next_substitution(subs: Seq<Substitution>, pos: int, limit: usize) -> usize
    decreases subs.len(),
{
    if subs.len() == 0 {
        limit
    } else {
        let rest = next_substitution(subs.drop_last(), pos, limit);
        let start = subs.last().source_range.start;
        if pos < start && start < limit {
            lesser(rest, start)
        } else {
            rest
        }
    }
}

/// Are the ranges that are substituted and begin in `within` not empty?
pub open spec fn proper_substitutions(subs: Seq<Substitution>, within: Range<usize>) -> bool {
    forall|i: int|
        0 <= i < subs.len() && within.start <= (#[trigger] subs[i]).source_range.start
            < within.end ==> subs[i].source_range.start < subs[i].source_range.end
}

/// `n` times the same offset.
pub open spec fn repeated(offset: usize, n: nat) -> Seq<usize> {
    Seq::new(n, |i: int| offset)
}

/// What is shown of the bytes `[pos, end)`: substitutions go before what is
/// hidden, and what is hidden goes before the source.
pub open spec fn shown_from(
    source: Seq<char>,
    subs: Seq<Substitution>,
    hidden: Seq<Range<usize>>,
    pos: int,
    end: int,
) -> Shown
    decreases if end > pos { end - pos } else { 0 },
{
    if pos >= end {
        Shown { text: Seq::empty(), map: Seq::empty() }
    } else {
        match substitution_at(subs, pos, end) {
            Some(sub) => if sub.source_range.end > pos {
                let rest = shown_from(source, subs, hidden, sub.source_range.end as int, end);
                Shown {
                    text: sub.display@ + rest.text,
                    map: repeated(sub.source_range.start, bytes_of(sub.display@).len())
                        + rest.map,
                }
            } else {
                Shown { text: Seq::empty(), map: Seq::empty() }
            },
            None => match hidden_until(hidden, pos) {
                Some(until) => {
                    let jump = next_substitution(
                        subs,
                        pos,
                        if until <= end {
                            until
                        } else {
                            end as usize
                        },
                    );
                    if jump > pos {
                        shown_from(source, subs, hidden, jump as int, end)
                    } else {
                        Shown { text: Seq::empty(), map: Seq::empty() }
                    }
                },
                None => {
                    let i = index_at(source, pos);
                    let at = byte_offset(source, i);
                    let next = at + char_width(source[i]);
                    if 0 <= i < source.len() && pos <= at < end && pos < next {
                        let rest = shown_from(source, subs, hidden, next, end);
                        Shown {
                            text: seq![source[i]] + rest.text,
                            map: repeated(at as usize, char_width(source[i])) + rest.map,
                        }
                    } else {
                        Shown { text: Seq::empty(), map: Seq::empty() }
                    }
                },
            },
        }
    }
}

/// What is shown of a line; the end is the end of the line.
pub open spec fn shown_line(
    source: Seq<char>,
    subs: Seq<Substitution>,
    hidden: Seq<Range<usize>>,
    line: Range<usize>,
) -> Shown {
    let shown = shown_from(source, subs, hidden, line.start as int, line.end as int);
    Shown { text: shown.text, map: shown.map.push(line.end) }
}

fn find_substitution(subs: &Vec<Substitution>, pos: usize, end: usize) -> (found: Option<usize>)
    ensures
        match found {
            Some(k) => k < subs@.len() && substitution_at(subs@, pos as int, end as int) == Some(
                subs@[k as int],
            ),
            None => substitution_at(subs@, pos as int, end as int) is None,
        },
{
    let ghost all = subs@;
    let mut k: usize = 0;
    assert(all.skip(0) =~= all);
    while k < subs.len()
        invariant
            k <= subs@.len(),
            all == subs@,
            substitution_at(all, pos as int, end as int) == substitution_at(
                all.skip(k as int),
                pos as int,
                end as int,
            ),
        decreases subs@.len() - k,
    {
        assert(all.skip(k as int)[0] == all[k as int]);
        assert(all.skip(k as int).drop_first() =~= all.skip(k + 1));
        if subs[k].source_range.start == pos && subs[k].source_range.end <= end {
            return Some(k);
        }
        k = k + 1;
    }
    None
}

fn find_hidden_until(hidden: &Vec<Range<usize>>, pos: usize) -> (found: Option<usize>)
    ensures
        found == hidden_until(hidden@, pos as int),
        found matches Some(end) ==> end > pos,
{
    let ghost all = hidden@;
    let mut best: Option<usize> = None;
    let mut k: usize = 0;
    assert(all.take(0) =~= Seq::empty());
    while k < hidden.len()
        invariant
            k <= hidden@.len(),
            all == hidden@,
            best == hidden_until(all.take(k as int), pos as int),
            best matches Some(end) ==> end > pos,
        decreases hidden@.len() - k,
    {
        assert(all.take(k + 1).drop_last() =~= all.take(k as int));
        assert(all.take(k + 1).last() == all[k as int]);
        if hidden[k].start <= pos && pos < hidden[k].end {
            best = Some(
                match best {
                    Some(end) => max_offset(end, hidden[k].end),
                    None => hidden[k].end,
                },
            );
        }
        k = k + 1;
    }
    assert(all.take(k as int) =~= all);
    best
}

fn find_next_substitution(subs: &Vec<Substitution>, pos: usize, limit: usize) -> (next: usize)
    requires
        pos < limit,
    ensures
        next == next_substitution(subs@, pos as int, limit),
        pos < next <= limit,
{
    let ghost all = subs@;
    let mut next: usize = limit;
    let mut k: usize = 0;
    assert(all.take(0) =~= Seq::empty());
    while k < subs.len()
        invariant
            k <= subs@.len(),
            all == subs@,
            next == next_substitution(all.take(k as int), pos as int, limit),
            pos < next <= limit,
        decreases subs@.len() - k,
    {
        assert(all.take(k + 1).drop_last() =~= all.take(k as int));
        assert(all.take(k + 1).last() == all[k as int]);
        let start: usize = subs[k].source_range.start;
        if pos < start && start < limit {
            next = min_offset(next, start);
        }
        k = k + 1;
    }
    assert(all.take(k as int) =~= all);
    next
}

fn push_repeated(map: &mut Vec<usize>, offset: usize, n: usize)
    ensures
        final(map)@ == old(map)@ + repeated(offset, n as nat),
{
    let ghost before = map@;
    let mut i: usize = 0;
    while i < n
        invariant
            i <= n,
            map@ =~= before + repeated(offset, i as nat),
        decreases n - i,
    {
        map.push(offset);
        i = i + 1;
    }
}

proof fn lemma_substitution_at(subs: Seq<Substitution>, pos: int, end: int)
    ensures
        substitution_at(subs, pos, end) matches Some(sub) ==> subs.contains(sub)
            && sub.source_range.start == pos && sub.source_range.end <= end,
    decreases subs.len(),
{
    if subs.len() > 0 && !(subs[0].source_range.start == pos && subs[0].source_range.end <= end) {
        lemma_substitution_at(subs.drop_first(), pos, end);
        if let Some(sub) = substitution_at(subs.drop_first(), pos, end) {
            let k = choose|k: int| 0 <= k < subs.drop_first().len() && subs.drop_first()[k] == sub;
            assert(subs[k + 1] == sub);
        }
    } else if subs.len() > 0 {
        assert(subs[0] == subs[0]);
    }
}

/// What is shown of a line.
pub fn build_display_line(source: &Glyphs, line: &Range<usize>, block: &RenderBlock) -> (shown: (
    String,
    Vec<usize>,
))
    requires
        proper_substitutions(block.substitutions@, *line),
    ensures
        (Shown { text: shown.0@, map: shown.1@ }) == shown_line(
            source@,
            block.substitutions@,
            block.hidden_ranges@,
            *line,
        ),
{
    let ghost subs = block.substitutions@;
    let ghost hidden = block.hidden_ranges@;
    let ghost all = shown_from(source@, subs, hidden, line.start as int, line.end as int);
    let size: usize = source.size();
    let mut text = String::new();
    let mut map: Vec<usize> = Vec::new();
    let mut pos: usize = line.start;
    assert(text@ + all.text =~= all.text);
    assert(map@ + all.map =~= all.map);
    while pos < line.end
        invariant_except_break
            all.text == text@ + shown_from(
                source@,
                subs,
                hidden,
                pos as int,
                line.end as int,
            ).text,
            all.map == map@ + shown_from(source@, subs, hidden, pos as int, line.end as int).map,
        invariant
            subs == block.substitutions@,
            hidden == block.hidden_ranges@,
            proper_substitutions(subs, *line),
            line.start <= pos,
            size == bytes_of(source@).len(),
        ensures
            all.text == text@,
            all.map == map@,
        decreases if line.end > pos { line.end - pos } else { 0 },
    {
        let ghost text_before = text@;
        let ghost map_before = map@;
        proof {
            lemma_substitution_at(subs, pos as int, line.end as int);
        }
        if let Some(k) = find_substitution(&block.substitutions, pos, line.end) {
            let sub = &block.substitutions[k];
            assert(subs[k as int].source_range.start < subs[k as int].source_range.end);
            push_repeated(&mut map, sub.source_range.start, sub.display.as_str().as_bytes().len());
            text.push_str(sub.display.as_str());
            let ghost rest = shown_from(
                source@,
                subs,
                hidden,
                sub.source_range.end as int,
                line.end as int,
            );
            assert(text_before + (sub.display@ + rest.text) =~= text@ + rest.text);
            assert(map_before + (repeated(
                sub.source_range.start,
                bytes_of(sub.display@).len(),
            ) + rest.map) =~= map@ + rest.map);
            pos = sub.source_range.end;
            continue ;
        }
        if let Some(until) = find_hidden_until(&block.hidden_ranges, pos) {
            pos = find_next_substitution(&block.substitutions, pos, min_offset(until, line.end));
            continue ;
        }
        let i: usize = source.index_of(pos);
        if i >= source.len() {
            assert(text@ + Seq::<char>::empty() =~= text@);
            assert(map@ + Seq::<usize>::empty() =~= map@);
            break ;
        }
        let at: usize = source.offset_of(i);
        proof {
            lemma_index_at(source@, pos as int);
            lemma_offsets_grow(source@, i + 1, i + 1);
            crate::strings::lemma_byte_offset_step(source@, i as int);
        }
        if at >= line.end {
            assert(text@ + Seq::<char>::empty() =~= text@);
            assert(map@ + Seq::<usize>::empty() =~= map@);
            break ;
        }
        let c = source.char_at(i);
        let width: usize = utf8_len(c);
        push_repeated(&mut map, at, width);
        text.push(c);
        let ghost rest = shown_from(
            source@,
            subs,
            hidden,
            at + width as int,
            line.end as int,
        );
        assert(text_before + (seq![c] + rest.text) =~= text@ + rest.text);
        assert(map_before + (repeated(at, char_width(c)) + rest.map) =~= map@ + rest.map);
        pos = at + width;
    }
    map.push(line.end);
    (text, map)
}

// ---------------------------------------------------------------------------
// Positions
// ---------------------------------------------------------------------------

/// The first byte that is shown and comes from `offset` or after it.
pub open spec fn first_shown(map: Seq<usize>, k: int, offset: usize) -> Option<int>
    decreases map.len() - k,
{
    if k >= map.len() {
        None
    } else if map[k] >= offset {
        Some(k)
    } else {
        first_shown(map, k + 1, offset)
    }
}

/// Where a position of the source is on a line: `size` is the length of what is
/// shown.
pub open spec fn shown_offset(
    line: Range<usize>,
    map: Seq<usize>,
    size: usize,
    offset: usize,
) -> usize {
    if offset <= line.start {
        0
    } else if offset >= line.end {
        size
    } else {
        match first_shown(map, 0, offset) {
            Some(k) => k as usize,
            None => size,
        }
    }
}

/// The position of the source at a byte of what is shown.
pub open spec fn source_offset(line: Range<usize>, map: Seq<usize>, index: usize) -> usize {
    if index < map.len() {
        map[index as int]
    } else {
        line.end
    }
}

/// Where a position of the source is on a line.
pub fn display_offset_for_source(
    line: &Range<usize>,
    map: &Vec<usize>,
    size: usize,
    offset: usize,
) -> (shown: usize)
    ensures
        shown == shown_offset(*line, map@, size, offset),
{
    if offset <= line.start {
        return 0;
    }
    if offset >= line.end {
        return size;
    }
    let mut k: usize = 0;
    while k < map.len()
        invariant
            k <= map@.len(),
            line.start < offset < line.end,
            first_shown(map@, 0, offset) == first_shown(map@, k as int, offset),
        decreases map@.len() - k,
    {
        if map[k] >= offset {
            return k;
        }
        k = k + 1;
    }
    size
}

/// The position of the source at a byte of what is shown.
pub fn source_offset_for_display(line: &Range<usize>, map: &Vec<usize>, index: usize) -> (offset:
    usize)
    ensures
        offset == source_offset(*line, map@, index),
{
    if index < map.len() {
        map[index]
    } else {
        line.end
    }
}

/// The words of a shown line: the runs of bytes other than ASCII white space.
pub open spec fn words_from(b: Seq<u8>, i: int, start: Option<int>) -> Seq<Range<usize>>
    decreases b.len() - i,
{
    let ended = match start {
        Some(s) => seq![Range { start: s as usize, end: i as usize }],
        None => Seq::empty(),
    };
    if i >= b.len() {
        ended
    } else if ascii_white(b[i]) {
        ended + words_from(b, i + 1, None)
    } else {
        words_from(
            b,
            i + 1,
            match start {
                Some(s) => Some(s),
                None => Some(i),
            },
        )
    }
}

/// Is the byte ASCII white space?
pub open spec fn ascii_white(c: u8) -> bool {
    c == 32 || c == 9 || c == 10 || c == 12 || c == 13
}

/// The words of a shown line: what a column must be wide enough for.
pub fn unbreakable_words(text: &str) -> (words: Vec<Range<usize>>)
    ensures
        words@ == words_from(bytes_of(text@), 0, None),
{
    let bytes = text.as_bytes();
    let ghost all = words_from(bytes@, 0, None);
    let mut words: Vec<Range<usize>> = Vec::new();
    let mut start: Option<usize> = None;
    let ghost mut began: Option<int> = None;
    let mut i: usize = 0;
    assert(words@ + all =~= all);
    while i < bytes.len()
        invariant
            i <= bytes@.len(),
            match start {
                Some(s) => began == Some(s as int),
                None => began is None,
            },
            words@ + words_from(bytes@, i as int, began) == all,
        decreases bytes@.len() - i,
    {
        let ghost before = words@;
        let c = bytes[i];
        if c == 32 || c == 9 || c == 10 || c == 12 || c == 13 {
            let ghost rest = words_from(bytes@, i + 1, None);
            if let Some(s) = start {
                words.push(s..i);
                assert(before + (seq![Range { start: s, end: i }] + rest) =~= words@ + rest);
            } else {
                assert(before + (Seq::<Range<usize>>::empty() + rest) =~= words@ + rest);
            }
            start = None;
            proof {
                began = None;
            }
        } else if start.is_none() {
            start = Some(i);
            proof {
                began = Some(i as int);
            }
        }
        i = i + 1;
    }
    if let Some(s) = start {
        words.push(s..i);
    }
    assert(words@ =~= all);
    words
}

// ---------------------------------------------------------------------------
// Laws
// ---------------------------------------------------------------------------

proof fn lemma_map_size(
    source: Seq<char>,
    subs: Seq<Substitution>,
    hidden: Seq<Range<usize>>,
    pos: int,
    end: int,
)
    ensures
        ({
            let shown = shown_from(source, subs, hidden, pos, end);
            shown.map.len() == bytes_of(shown.text).len()
        }),
    decreases if end > pos { end - pos } else { 0 },
{
    reveal_with_fuel(vstd::utf8::encode_utf8, 2);
    if pos < end {
        match substitution_at(subs, pos, end) {
            Some(sub) => if sub.source_range.end > pos {
                lemma_map_size(source, subs, hidden, sub.source_range.end as int, end);
                let rest = shown_from(source, subs, hidden, sub.source_range.end as int, end);
                lemma_bytes_concat(sub.display@, rest.text);
            },
            None => match hidden_until(hidden, pos) {
                Some(until) => {
                    let jump = next_substitution(
                        subs,
                        pos,
                        if until <= end {
                            until
                        } else {
                            end as usize
                        },
                    );
                    if jump > pos {
                        lemma_map_size(source, subs, hidden, jump as int, end);
                    }
                },
                None => {
                    let i = index_at(source, pos);
                    let at = byte_offset(source, i);
                    let next = at + char_width(source[i]);
                    if 0 <= i < source.len() && pos <= at < end && pos < next {
                        lemma_map_size(source, subs, hidden, next, end);
                        let rest = shown_from(source, subs, hidden, next, end);
                        lemma_bytes_concat(seq![source[i]], rest.text);
                        assert(seq![source[i]] =~= Seq::<char>::empty().push(source[i]));
                        lemma_bytes_push(Seq::empty(), source[i]);
                    }
                },
            },
        }
    }
}

/// There is one entry for each byte that is shown, and one for the end.
pub proof fn map_has_an_entry_for_each_byte(
    source: Seq<char>,
    subs: Seq<Substitution>,
    hidden: Seq<Range<usize>>,
    line: Range<usize>,
)
    ensures
        ({
            let shown = shown_line(source, subs, hidden, line);
            shown.map.len() == bytes_of(shown.text).len() + 1
        }),
{
    lemma_map_size(source, subs, hidden, line.start as int, line.end as int);
}

/// Do the entries never go back, and lie in `[low, high)`?
pub open spec fn ascending(map: Seq<usize>, low: int, high: int) -> bool {
    &&& forall|i: int| 0 <= i < map.len() ==> low <= #[trigger] map[i] < high
    &&& forall|i: int, j: int| 0 <= i < j < map.len() ==> #[trigger] map[i] <= #[trigger] map[j]
}

proof fn lemma_map_ascends(
    source: Seq<char>,
    subs: Seq<Substitution>,
    hidden: Seq<Range<usize>>,
    pos: int,
    end: int,
    line: Range<usize>,
)
    requires
        proper_substitutions(subs, line),
        line.start <= pos,
        end == line.end,
    ensures
        ascending(shown_from(source, subs, hidden, pos, end).map, pos, end),
    decreases if end > pos { end - pos } else { 0 },
{
    if pos < end {
        let map = shown_from(source, subs, hidden, pos, end).map;
        lemma_substitution_at(subs, pos, end);
        match substitution_at(subs, pos, end) {
            Some(sub) => {
                lemma_map_ascends(source, subs, hidden, sub.source_range.end as int, end, line);
                let rest = shown_from(source, subs, hidden, sub.source_range.end as int, end).map;
                let n = bytes_of(sub.display@).len() as int;
                let k = choose|k: int| 0 <= k < subs.len() && subs[k] == sub;
                assert(subs[k].source_range.start < subs[k].source_range.end);
                lemma_joined_map(repeated(sub.source_range.start, n as nat), rest, pos, end);
            },
            None => match hidden_until(hidden, pos) {
                Some(until) => {
                    let jump = next_substitution(
                        subs,
                        pos,
                        if until <= end {
                            until
                        } else {
                            end as usize
                        },
                    );
                    if jump > pos {
                        lemma_map_ascends(source, subs, hidden, jump as int, end, line);
                        let rest = shown_from(source, subs, hidden, jump as int, end).map;
                        lemma_joined_map(Seq::empty(), rest, pos, end);
                        assert(Seq::<usize>::empty() + rest =~= rest);
                    }
                },
                None => {
                    let i = index_at(source, pos);
                    let at = byte_offset(source, i);
                    let next = at + char_width(source[i]);
                    if 0 <= i < source.len() && pos <= at < end && pos < next {
                        lemma_map_ascends(source, subs, hidden, next, end, line);
                        let rest = shown_from(source, subs, hidden, next, end).map;
                        lemma_joined_map(
                            repeated(at as usize, char_width(source[i])),
                            rest,
                            pos,
                            end,
                        );
                    }
                },
            },
        }
    }
}

proof fn lemma_joined_map(a: Seq<usize>, c: Seq<usize>, low: int, high: int)
    requires
        ascending(a, low, high),
        exists|mid: int| low <= mid && ascending(c, mid, high) && forall|i: int|
            0 <= i < a.len() ==> #[trigger] a[i] <= mid,
    ensures
        ascending(a + c, low, high),
{
    let mid = choose|mid: int|
        low <= mid && ascending(c, mid, high) && forall|i: int|
            0 <= i < a.len() ==> #[trigger] a[i] <= mid;
    let all = a + c;
    assert forall|i: int| 0 <= i < all.len() implies low <= #[trigger] all[i] < high by {
        if i < a.len() {
            assert(all[i] == a[i]);
        } else {
            assert(all[i] == c[i - a.len()]);
        }
    }
    assert forall|i: int, j: int| 0 <= i < j < all.len() implies #[trigger] all[i]
        <= #[trigger] all[j] by {
        if j < a.len() {
            assert(all[i] == a[i] && all[j] == a[j]);
        } else if i < a.len() {
            assert(all[i] == a[i] && all[j] == c[j - a.len()]);
        } else {
            assert(all[i] == c[i - a.len()] && all[j] == c[j - a.len()]);
        }
    }
}

/// The positions of the source along a shown line never go back.
pub proof fn shown_positions_ascend(
    source: Seq<char>,
    subs: Seq<Substitution>,
    hidden: Seq<Range<usize>>,
    line: Range<usize>,
)
    requires
        proper_substitutions(subs, line),
    ensures
        ({
            let map = shown_line(source, subs, hidden, line).map;
            forall|i: int, j: int|
                0 <= i < j < map.len() ==> #[trigger] map[i] <= #[trigger] map[j]
        }),
{
    lemma_map_ascends(source, subs, hidden, line.start as int, line.end as int, line);
}

proof fn lemma_first_shown(map: Seq<usize>, k: int, offset: usize, j: int)
    requires
        0 <= k <= j < map.len(),
        map[j] >= offset,
    ensures
        first_shown(map, k, offset) matches Some(i) && k <= i <= j && map[i] >= offset,
    decreases map.len() - k,
{
    if map[k] < offset {
        lemma_first_shown(map, k + 1, offset, j);
    }
}

/// A click on a shown byte puts the caret where a caret at the same position of
/// the source is drawn: going from what is shown to the source and back leads to
/// a byte from the same position.
pub proof fn positions_come_back(line: Range<usize>, map: Seq<usize>, size: usize, k: usize)
    requires
        k < map.len() <= usize::MAX,
        forall|i: int, j: int| 0 <= i < j < map.len() ==> #[trigger] map[i] <= #[trigger] map[j],
        line.start < source_offset(line, map, k) < line.end,
    ensures
        ({
            let offset = source_offset(line, map, k);
            let back = shown_offset(line, map, size, offset);
            back <= k && source_offset(line, map, back) == offset
        }),
{
    let offset = source_offset(line, map, k);
    lemma_first_shown(map, 0, offset, k as int);
    if let Some(i) = first_shown(map, 0, offset) {
        if i < k {
            assert(map[i] <= map[k as int]);
        }
    }
}

} // verus!
