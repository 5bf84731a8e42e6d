//! What a toggle acts on: the word at the caret, or all that is selected but for
//! white space at the ends.

use core::ops::Range;

use vstd::prelude::*;

use crate::cjk::alphanumeric;
use crate::formatting::atoms::Part;
use crate::formatting::islands::Area;
use crate::formatting::plan::carries;
use crate::formatting::targets::{
    first_participant,
    last_participant,
    participates,
    range_in_area,
    ranges_in_areas,
    word_from,
};
use crate::strings::byte_offset;
use crate::text::bytes_of;
use crate::words::{
    index_at,
    is_word,
    lemma_index_at,
    lemma_index_of_offset,
    lemma_offsets_grow,
    piece_start,
    trimmed,
    white_end,
    white_start,
    whitespace,
};

verus! {

// ---------------------------------------------------------------------------
// The word at the caret
// ---------------------------------------------------------------------------

/// Is the piece a word: does it hold a letter or a digit?
pub open spec fn has_letter(piece: Seq<char>) -> bool {
    exists|i: int| 0 <= i < piece.len() && alphanumeric(#[trigger] piece[i])
}

/// Is piece `j` a word, and `[s, e)` its place?
pub open spec fn is_word_at(pieces: Seq<Seq<char>>, j: int, s: int, e: int) -> bool {
    &&& 0 <= j < pieces.len()
    &&& has_letter(pieces[j])
    &&& s == piece_start(pieces, j)
    &&& e == piece_start(pieces, j + 1)
}

proof fn lemma_word_from(
    pieces: Seq<Seq<char>>,
    k: int,
    local: int,
    previous: Option<(int, int)>,
)
    requires
        0 <= k <= pieces.len(),
    ensures
        match word_from(pieces, k, local, previous) {
            Some((s, e)) => {
                ||| previous == Some((s, e)) && forall|j: int, from: int, to: int|
                    k <= j && #[trigger] is_word_at(pieces, j, from, to) ==> !(from <= local < to)
                        && to != local
                ||| (exists|j: int| k <= j && #[trigger] is_word_at(pieces, j, s, e)) && (s <= local
                    < e || e == local && forall|j: int, from: int, to: int|
                    k <= j && #[trigger] is_word_at(pieces, j, from, to) ==> !(from <= local < to))
            },
            None => previous is None && forall|j: int, from: int, to: int|
                k <= j && #[trigger] is_word_at(pieces, j, from, to) ==> !(from <= local < to)
                    && to != local,
        },
    decreases pieces.len() - k,
{
    if k < pieces.len() {
        let start = piece_start(pieces, k);
        let end = piece_start(pieces, k + 1);
        assert(is_word(pieces[k]) <==> has_letter(pieces[k]));
        if is_word(pieces[k]) && start <= local < end {
            assert(is_word_at(pieces, k, start, end));
        } else if is_word(pieces[k]) && end == local {
            assert(is_word_at(pieces, k, start, end));
            lemma_word_from(pieces, k + 1, local, Some((start, end)));
        } else {
            lemma_word_from(pieces, k + 1, local, previous);
        }
    }
}

/// A caret stands for the word that it is in, and otherwise for one that it is at
/// the end of. It stands for none only where it touches none.
pub proof fn carets_stand_for_their_word(pieces: Seq<Seq<char>>, local: int, j: int, from: int, to: int)
    requires
        is_word_at(pieces, j, from, to),
    ensures
        match word_from(pieces, 0, local, None) {
            Some((s, e)) => {
                &&& exists|k: int| #[trigger] is_word_at(pieces, k, s, e)
                &&& s <= local < e || local == e
                &&& from <= local < to ==> s <= local < e
            },
            None => !(from <= local < to) && local != to,
        },
{
    lemma_word_from(pieces, 0, local, None);
}

// ---------------------------------------------------------------------------
// White space at the ends
// ---------------------------------------------------------------------------

proof fn lemma_white_end(text: Seq<char>, i: int, limit: int)
    requires
        i <= limit,
    ensures
        i <= white_end(text, i, limit) <= limit,
        forall|k: int| i <= k < white_end(text, i, limit) ==> whitespace(#[trigger] text[k]),
        white_end(text, i, limit) < limit ==> !whitespace(text[white_end(text, i, limit)]),
    decreases limit - i,
{
    if i < limit && whitespace(text[i]) {
        lemma_white_end(text, i + 1, limit);
    }
}

proof fn lemma_white_start(text: Seq<char>, i: int, floor: int)
    requires
        floor <= i,
    ensures
        floor <= white_start(text, i, floor) <= i,
        forall|k: int| white_start(text, i, floor) <= k < i ==> whitespace(#[trigger] text[k]),
        white_start(text, i, floor) > floor ==> !whitespace(text[white_start(text, i, floor) - 1]),
    decreases i - floor,
{
    if i > floor && whitespace(text[i - 1]) {
        lemma_white_start(text, i - 1, floor);
    }
}

/// Trimming takes white space off both ends and nothing else: what is left begins
/// and ends with another character, and holds every other character there is.
pub proof fn trimming_takes_white_space(text: Seq<char>, s: int, e: int, i: int)
    requires
        bytes_of(text).len() <= usize::MAX,
        0 <= i < text.len(),
        s <= byte_offset(text, i) < e,
    ensures
        match trimmed(text, s, e) {
            Some(r) => {
                &&& s <= r.start < r.end
                &&& !whitespace(text[i]) ==> r.start <= byte_offset(text, i) < r.end
                &&& byte_offset(text, i) == r.start ==> !whitespace(text[i])
                &&& byte_offset(text, i + 1) == r.end ==> !whitespace(text[i])
            },
            None => whitespace(text[i]),
        },
{
    let first = index_at(text, s);
    let limit = index_at(text, e);
    lemma_index_at(text, s);
    lemma_index_at(text, e);
    assert(first <= i < limit);
    lemma_white_end(text, first, limit);
    let start = white_end(text, first, limit);
    lemma_white_start(text, limit, start);
    let end = white_start(text, limit, start);
    if start < end {
        lemma_offsets_grow(text, start, end);
        lemma_offsets_grow(text, end, text.len() as int);
        lemma_offsets_grow(text, first, start);
        lemma_index_of_offset(text, i);
        lemma_index_of_offset(text, i + 1);
        lemma_index_of_offset(text, start);
        lemma_index_of_offset(text, end);
        if start <= i < end {
            lemma_offsets_grow(text, start, i);
            lemma_offsets_grow(text, i + 1, end);
            lemma_offsets_grow(text, i, i + 1);
        }
    }
}

// ---------------------------------------------------------------------------
// The selection
// ---------------------------------------------------------------------------

/// Do the pieces follow one another inside of the island?
pub open spec fn in_a_row(area: Area) -> bool {
    &&& forall|j: int|
        0 <= j < area.parts.len() ==> area.range.start <= (#[trigger] area.parts[j]).range.start
            <= area.parts[j].range.end && area.parts[j].range.end <= area.range.end
    &&& forall|j: int, k: int|
        0 <= j < k < area.parts.len() ==> (#[trigger] area.parts[j]).range.end <= (
        #[trigger] area.parts[k]).range.start
}

proof fn lemma_first_participant(parts: Seq<Part>, k: int, selected: Range<usize>, j: int)
    requires
        0 <= k <= j < parts.len(),
        participates(parts[j], selected),
    ensures
        exists|i: int|
            k <= i <= j && first_participant(parts, k, selected) == Some(#[trigger] parts[i])
                && participates(parts[i], selected),
    decreases j - k,
{
    if !participates(parts[k], selected) {
        lemma_first_participant(parts, k + 1, selected, j);
    }
}

proof fn lemma_last_participant(parts: Seq<Part>, k: int, selected: Range<usize>, j: int)
    requires
        0 <= j < k <= parts.len(),
        participates(parts[j], selected),
    ensures
        exists|i: int|
            j <= i < k && last_participant(parts, k, selected) == Some(#[trigger] parts[i])
                && participates(parts[i], selected),
    decreases k - j,
{
    if !participates(parts[k - 1], selected) {
        lemma_last_participant(parts, k - 1, selected, j);
    }
}

/// A selection acts on all that it holds of an island: no character that can be
/// styled, white space apart, is left out.
pub proof fn selections_act_on_all_they_hold(
    text: Seq<char>,
    area: Area,
    selected: Range<usize>,
    k: int,
    i: int,
)
    requires
        bytes_of(text).len() <= usize::MAX,
        in_a_row(area),
        0 <= k < area.parts.len(),
        area.parts[k].eligibility is Partial,
        0 <= i < text.len(),
        !whitespace(text[i]),
        area.parts[k].range.start <= byte_offset(text, i) < area.parts[k].range.end,
        selected.start <= byte_offset(text, i) < selected.end,
    ensures
        range_in_area(text, area, selected) matches Some(r) && r.start <= byte_offset(text, i)
            < r.end,
{
    let parts = area.parts;
    let p = byte_offset(text, i);
    assert(participates(parts[k], selected));
    lemma_first_participant(parts, 0, selected, k);
    lemma_last_participant(parts, parts.len() as int, selected, k);
    let f = choose|f: int|
        0 <= f <= k && first_participant(parts, 0, selected) == Some(#[trigger] parts[f])
            && participates(parts[f], selected);
    let l = choose|l: int|
        k <= l < parts.len() && last_participant(parts, parts.len() as int, selected) == Some(
            #[trigger] parts[l],
        ) && participates(parts[l], selected);
    assert(parts[f].range.start <= p) by {
        if f < k {
            assert(parts[f].range.end <= parts[k].range.start);
        }
    }
    assert(p < parts[l].range.end) by {
        if k < l {
            assert(parts[k].range.end <= parts[l].range.start);
        }
    }
    let start = if selected.start <= area.range.start {
        area.range.start as int
    } else if selected.start >= parts[f].range.start {
        selected.start as int
    } else {
        parts[f].range.start as int
    };
    let end = if selected.end >= area.range.end {
        area.range.end as int
    } else if selected.end <= parts[l].range.end {
        selected.end as int
    } else {
        parts[l].range.end as int
    };
    assert(start <= p < end);
    trimming_takes_white_space(text, start, end, i);
}

/// Every island that a selection reaches is acted on, each for itself.
pub proof fn selections_act_on_every_island(
    text: Seq<char>,
    areas: Seq<Area>,
    selected: Range<usize>,
    a: int,
)
    requires
        0 <= a < areas.len() <= usize::MAX,
        range_in_area(text, areas[a], selected) is Some,
    ensures
        exists|t: int|
            0 <= t < ranges_in_areas(text, areas, selected).len() && (#[trigger] ranges_in_areas(
                text,
                areas,
                selected,
            )[t]).0 == a && range_in_area(text, areas[a], selected) == Some(
                ranges_in_areas(text, areas, selected)[t].1,
            ),
    decreases areas.len(),
{
    let all = ranges_in_areas(text, areas, selected);
    let head = areas.drop_last();
    let before = ranges_in_areas(text, head, selected);
    if a == areas.len() - 1 {
        assert(all[all.len() - 1].0 == a);
    } else {
        assert(head[a] == areas[a]);
        selections_act_on_every_island(text, head, selected, a);
        let t = choose|t: int|
            0 <= t < before.len() && (#[trigger] before[t]).0 == a && range_in_area(
                text,
                head[a],
                selected,
            ) == Some(before[t].1);
        assert(all[t] == before[t]);
    }
}

/// Only ordinary text is styled in part. A piece that is styled as a whole takes
/// part where the selection holds all of it, and a piece that is never styled
/// takes no part.
pub proof fn other_pieces_are_styled_whole(p: Part, selected: Range<usize>)
    requires
        participates(p, selected),
    ensures
        p.range.start < selected.end && selected.start < p.range.end,
        p.eligibility !is Never,
        p.eligibility !is Partial ==> selected.start <= p.range.start && p.range.end
            <= selected.end,
{
}

/// A style goes over a piece that cannot be styled in part only where it was
/// there before, or where it goes over all of it.
pub proof fn styles_go_over_whole_pieces(p: Part, desired: Range<usize>)
    requires
        carries(p, desired),
        !p.styled,
    ensures
        p.eligibility !is Never,
        p.eligibility !is Partial ==> desired.start <= p.range.start && p.range.end <= desired.end,
{
}

} // verus!
