//! What a toggle acts on: the parts of the islands that the selection reaches.

use core::ops::Range;

use vstd::prelude::*;

use crate::formatting::atoms::{atoms_view, Atom, AtomEligibility, Part};
use crate::formatting::islands::{islands_view, Area, Island};
use crate::formatting::ranges::{greater, lesser, max_offset, min_offset, overlap, overlaps};
use crate::state::Selection;
use crate::strings::{byte_offset, lemma_bytes_concat};
use crate::text::bytes_of;
use crate::words::{
    has_text, holds_word, index_at, is_word, joined, lemma_index_at, lemma_offsets_grow,
    lemma_piece_step, piece_start, slice, strings_view, trimmed, word_bounds, word_pieces, Glyphs,
};

verus! {

/// Can the piece be styled over the selected bytes?
pub open spec fn participates(p: Part, selected: Range<usize>) -> bool {
    overlap(p.range, selected) && match p.eligibility {
        AtomEligibility::Partial => true,
        AtomEligibility::Whole => selected.start <= p.range.start && selected.end >= p.range.end,
        AtomEligibility::Atomic => selected.start <= p.range.start && selected.end >= p.range.end,
        AtomEligibility::Never => false,
    }
}

/// Does the selection hold more than white space of the piece?
pub open spec fn substantive(text: Seq<char>, p: Part, selected: Range<usize>) -> bool {
    let start = greater(p.range.start, selected.start);
    let end = lesser(p.range.end, selected.end);
    start < end && has_text(text, start as int, end as int)
}

pub fn atom_participates(atom: &Atom, selected: &Range<usize>) -> (found: bool)
    ensures
        found == participates(atom@, *selected),
{
    if !overlaps(&atom.range, selected) {
        return false;
    }
    match atom.eligibility {
        AtomEligibility::Partial => true,
        AtomEligibility::Whole => selected.start <= atom.range.start && selected.end
            >= atom.range.end,
        AtomEligibility::Atomic => selected.start <= atom.range.start && selected.end
            >= atom.range.end,
        AtomEligibility::Never => false,
    }
}

fn atom_has_substantive_overlap(glyphs: &Glyphs, atom: &Atom, selected: &Range<usize>) -> (found:
    bool)
    ensures
        found == substantive(glyphs@, atom@, *selected),
{
    let start: usize = max_offset(atom.range.start, selected.start);
    let end: usize = min_offset(atom.range.end, selected.end);
    start < end && glyphs.has_text(start, end)
}

// ---------------------------------------------------------------------------
// The word at a caret
// ---------------------------------------------------------------------------

/// The word among the pieces from `k` on that holds the offset `local`;
/// otherwise the last one, `previous` included, that ends at it.
pub open spec fn word_from(
    pieces: Seq<Seq<char>>,
    k: int,
    local: int,
    previous: Option<(int, int)>,
) -> Option<(int, int)>
    decreases pieces.len() - k,
{
    if k >= pieces.len() {
        previous
    } else {
        let start = piece_start(pieces, k);
        let end = piece_start(pieces, k + 1);
        if is_word(pieces[k]) && start <= local < end {
            Some((start, end))
        } else if is_word(pieces[k]) && end == local {
            word_from(pieces, k + 1, local, Some((start, end)))
        } else {
            word_from(pieces, k + 1, local, previous)
        }
    }
}

/// The caret's offset in the text of an atom.
pub open spec fn local_offset(atom: Range<usize>, cursor: usize, size: int) -> int {
    if cursor < atom.start {
        0
    } else if cursor - atom.start < size {
        cursor - atom.start
    } else {
        size
    }
}

/// The word of the text `source` at the caret, where `pieces` are the parts of
/// the text between its word boundaries.
pub open spec fn word_among(
    source: Seq<char>,
    pieces: Seq<Seq<char>>,
    atom: Range<usize>,
    cursor: usize,
) -> Option<Range<usize>> {
    match word_from(
        pieces,
        0,
        local_offset(atom, cursor, bytes_of(source).len() as int),
        None,
    ) {
        Some((start, end)) => Some(
            Range { start: (atom.start + start) as usize, end: (atom.start + end) as usize },
        ),
        None => None,
    }
}

/// The word of a piece of text at the caret.
pub open spec fn word_at(text: Seq<char>, atom: Range<usize>, cursor: usize) -> Option<
    Range<usize>,
> {
    let source = slice(text, atom.start as int, atom.end as int);
    word_among(source, word_bounds(source), atom, cursor)
}

proof fn lemma_slice_size(text: Seq<char>, s: usize, e: usize)
    requires
        bytes_of(text).len() <= usize::MAX,
    ensures
        s + bytes_of(slice(text, s as int, e as int)).len() <= usize::MAX,
{
    let a = index_at(text, s as int);
    let z = index_at(text, e as int);
    lemma_index_at(text, s as int);
    lemma_index_at(text, e as int);
    if a < z {
        assert(text.take(z) =~= text.take(a) + slice(text, s as int, e as int));
        lemma_bytes_concat(text.take(a), slice(text, s as int, e as int));
        lemma_offsets_grow(text, z, z);
        assert(byte_offset(text, a) >= s);
    } else {
        assert(slice(text, s as int, e as int) =~= Seq::empty());
    }
}

/// Finds the word at the caret among the parts of a text.
pub fn word_among_pieces(
    source: &str,
    pieces: &Vec<String>,
    atom: &Range<usize>,
    cursor: usize,
) -> (word: Option<Range<usize>>)
    requires
        joined(strings_view(pieces@)) == source@,
        atom.start + bytes_of(source@).len() <= usize::MAX,
    ensures
        word == word_among(source@, strings_view(pieces@), *atom, cursor),
{
    let ghost all = strings_view(pieces@);
    let size: usize = source.as_bytes().len();
    let local: usize = if cursor < atom.start {
        0
    } else if cursor - atom.start < size {
        cursor - atom.start
    } else {
        size
    };
    let mut previous: Option<Range<usize>> = None;
    let ghost mut found: Option<(int, int)> = None;
    let mut start: usize = 0;
    let mut k: usize = 0;
    proof {
        assert(all.take(0) =~= Seq::empty());
        reveal_with_fuel(vstd::utf8::encode_utf8, 2);
    }
    while k < pieces.len()
        invariant
            k <= pieces@.len(),
            all == strings_view(pieces@),
            joined(all) == source@,
            size == bytes_of(source@).len(),
            atom.start + size <= usize::MAX,
            local == local_offset(*atom, cursor, size as int),
            start == piece_start(all, k as int),
            start <= size,
            match previous {
                Some(r) => found matches Some((s, e)) && r.start == atom.start + s && r.end
                    == atom.start + e,
                None => found is None,
            },
            word_from(all, 0, local as int, None) == word_from(all, k as int, local as int, found),
        decreases pieces@.len() - k,
    {
        proof {
            lemma_piece_step(all, k as int);
        }
        assert(all[k as int] == pieces@[k as int]@);
        let end: usize = start + pieces[k].as_str().as_bytes().len();
        let word = holds_word(pieces[k].as_str());
        if word && start <= local && local < end {
            return Some(atom.start + start..atom.start + end);
        }
        if word && end == local {
            previous = Some(atom.start + start..atom.start + end);
            proof {
                found = Some((start as int, end as int));
            }
        }
        start = end;
        k = k + 1;
    }
    previous
}

/// Finds the word of a piece of text at the caret.
pub fn word_range_at(glyphs: &Glyphs, atom: &Range<usize>, cursor: usize) -> (word: Option<
    Range<usize>,
>)
    ensures
        word == word_at(glyphs@, *atom, cursor),
{
    let source = glyphs.text(atom.start, atom.end);
    let size: usize = glyphs.size();
    proof {
        lemma_slice_size(glyphs@, atom.start, atom.end);
    }
    let pieces = word_pieces(source.as_str());
    word_among_pieces(source.as_str(), &pieces, atom, cursor)
}

// ---------------------------------------------------------------------------
// Targets
// ---------------------------------------------------------------------------

/// What a caret in or at the edge of the piece stands for: the word, or the
/// escape or reference.
pub open spec fn caret_target(text: Seq<char>, p: Part, cursor: usize) -> Option<Range<usize>> {
    if cursor < p.range.start || cursor > p.range.end {
        None
    } else {
        match p.eligibility {
            AtomEligibility::Partial => word_at(text, p.range, cursor),
            AtomEligibility::Atomic => Some(p.range),
            _ => None,
        }
    }
}

/// The first target of the caret among the pieces from `k` on.
pub open spec fn caret_in_parts(
    text: Seq<char>,
    parts: Seq<Part>,
    k: int,
    cursor: usize,
) -> Option<Range<usize>>
    decreases parts.len() - k,
{
    if k >= parts.len() {
        None
    } else {
        match caret_target(text, parts[k], cursor) {
            Some(range) => Some(range),
            None => caret_in_parts(text, parts, k + 1, cursor),
        }
    }
}

/// The first target of the caret among the islands from `k` on.
pub open spec fn caret_in_areas(
    text: Seq<char>,
    areas: Seq<Area>,
    k: int,
    cursor: usize,
) -> Seq<(usize, Range<usize>)>
    decreases areas.len() - k,
{
    if k >= areas.len() {
        Seq::empty()
    } else {
        match caret_in_parts(text, areas[k].parts, 0, cursor) {
            Some(range) => seq![(k as usize, range)],
            None => caret_in_areas(text, areas, k + 1, cursor),
        }
    }
}

/// The first piece from `k` on that can be styled.
pub open spec fn first_participant(parts: Seq<Part>, k: int, selected: Range<usize>) -> Option<Part>
    decreases parts.len() - k,
{
    if k >= parts.len() {
        None
    } else if participates(parts[k], selected) {
        Some(parts[k])
    } else {
        first_participant(parts, k + 1, selected)
    }
}

/// The last piece before `k` that can be styled.
pub open spec fn last_participant(parts: Seq<Part>, k: int, selected: Range<usize>) -> Option<Part>
    decreases k,
{
    if k <= 0 {
        None
    } else if participates(parts[k - 1], selected) {
        Some(parts[k - 1])
    } else {
        last_participant(parts, k - 1, selected)
    }
}

/// What a selection reaches of an island: from the first piece that can be
/// styled to the last one, without white space at the ends. A selection that
/// covers an end of the island reaches to it.
pub open spec fn range_in_area(text: Seq<char>, area: Area, selected: Range<usize>) -> Option<
    Range<usize>,
> {
    match first_participant(area.parts, 0, selected) {
        Some(first) => match last_participant(area.parts, area.parts.len() as int, selected) {
            Some(last) => {
                let start = if selected.start <= area.range.start {
                    area.range.start
                } else {
                    greater(selected.start, first.range.start)
                };
                let end = if selected.end >= area.range.end {
                    area.range.end
                } else {
                    lesser(selected.end, last.range.end)
                };
                if start >= end {
                    None
                } else {
                    trimmed(text, start as int, end as int)
                }
            },
            None => None,
        },
        None => None,
    }
}

/// What a selection reaches of the islands.
pub open spec fn ranges_in_areas(
    text: Seq<char>,
    areas: Seq<Area>,
    selected: Range<usize>,
) -> Seq<(usize, Range<usize>)>
    decreases areas.len(),
{
    if areas.len() == 0 {
        Seq::empty()
    } else {
        let before = ranges_in_areas(text, areas.drop_last(), selected);
        match range_in_area(text, areas.last(), selected) {
            Some(range) => before.push(((areas.len() - 1) as usize, range)),
            None => before,
        }
    }
}

/// What a toggle acts on: for each target the island and the bytes in it.
pub open spec fn targets(text: Seq<char>, selection: Selection, areas: Seq<Area>) -> Seq<
    (usize, Range<usize>),
> {
    if selection.low() == selection.high() {
        caret_in_areas(text, areas, 0, selection.head_offset())
    } else {
        ranges_in_areas(text, areas, Range { start: selection.low(), end: selection.high() })
    }
}

fn find_caret_target(glyphs: &Glyphs, atom: &Atom, cursor: usize) -> (found: Option<Range<usize>>)
    ensures
        found == caret_target(glyphs@, atom@, cursor),
{
    if cursor < atom.range.start || cursor > atom.range.end {
        return None;
    }
    match atom.eligibility {
        AtomEligibility::Partial => word_range_at(glyphs, &atom.range, cursor),
        AtomEligibility::Atomic => Some(atom.range.start..atom.range.end),
        _ => None,
    }
}

fn find_caret_in_atoms(glyphs: &Glyphs, atoms: &Vec<Atom>, cursor: usize) -> (found: Option<
    Range<usize>,
>)
    ensures
        found == caret_in_parts(glyphs@, atoms_view(atoms@), 0, cursor),
{
    let ghost parts = atoms_view(atoms@);
    let mut k: usize = 0;
    while k < atoms.len()
        invariant
            k <= atoms@.len(),
            parts == atoms_view(atoms@),
            caret_in_parts(glyphs@, parts, 0, cursor) == caret_in_parts(
                glyphs@,
                parts,
                k as int,
                cursor,
            ),
        decreases atoms@.len() - k,
    {
        assert(parts[k as int] == atoms@[k as int]@);
        if let Some(range) = find_caret_target(glyphs, &atoms[k], cursor) {
            return Some(range);
        }
        k = k + 1;
    }
    None
}

fn find_range_in_island(glyphs: &Glyphs, island: &Island, selected: &Range<usize>) -> (found:
    Option<Range<usize>>)
    ensures
        found == range_in_area(glyphs@, island@, *selected),
{
    let atoms = &island.atoms;
    let ghost parts = atoms_view(atoms@);
    let mut first: usize = 0;
    while first < atoms.len() && !atom_participates(&atoms[first], selected)
        invariant
            first <= atoms@.len(),
            parts == atoms_view(atoms@),
            first_participant(parts, 0, *selected) == first_participant(
                parts,
                first as int,
                *selected,
            ),
        decreases atoms@.len() - first,
    {
        first = first + 1;
    }
    if first == atoms.len() {
        return None;
    }
    let mut last: usize = atoms.len();
    while last > 0 && !atom_participates(&atoms[last - 1], selected)
        invariant
            last <= atoms@.len(),
            parts == atoms_view(atoms@),
            last_participant(parts, parts.len() as int, *selected) == last_participant(
                parts,
                last as int,
                *selected,
            ),
        decreases last,
    {
        last = last - 1;
    }
    if last == 0 {
        return None;
    }
    assert(parts[first as int] == atoms@[first as int]@);
    assert(parts[last - 1] == atoms@[last - 1]@);
    let start: usize = if selected.start <= island.range.start {
        island.range.start
    } else {
        max_offset(selected.start, atoms[first].range.start)
    };
    let end: usize = if selected.end >= island.range.end {
        island.range.end
    } else {
        min_offset(selected.end, atoms[last - 1].range.end)
    };
    if start >= end {
        None
    } else {
        glyphs.trim(start, end)
    }
}

/// Finds what a toggle acts on.
pub fn selected_ranges(glyphs: &Glyphs, selection: Selection, islands: &Vec<Island>) -> (found: Vec<
    (usize, Range<usize>),
>)
    ensures
        found@ == targets(glyphs@, selection, islands_view(islands@)),
{
    let ghost areas = islands_view(islands@);
    let mut out: Vec<(usize, Range<usize>)> = Vec::new();
    let mut k: usize = 0;
    if selection.is_collapsed() {
        let cursor: usize = selection.head();
        while k < islands.len()
            invariant
                k <= islands@.len(),
                areas == islands_view(islands@),
                selection.low() == selection.high(),
                cursor == selection.head_offset(),
                out@ == Seq::<(usize, Range<usize>)>::empty(),
                caret_in_areas(glyphs@, areas, 0, cursor) == caret_in_areas(
                    glyphs@,
                    areas,
                    k as int,
                    cursor,
                ),
            decreases islands@.len() - k,
        {
            assert(areas[k as int] == islands@[k as int]@);
            if let Some(range) = find_caret_in_atoms(glyphs, &islands[k].atoms, cursor) {
                out.push((k, range));
                assert(out@ =~= caret_in_areas(glyphs@, areas, k as int, cursor));
                return out;
            }
            k = k + 1;
        }
        return out;
    }
    let selected = selection.selection_range();
    assert(areas.take(0) =~= Seq::empty());
    while k < islands.len()
        invariant
            k <= islands@.len(),
            areas == islands_view(islands@),
            out@ == ranges_in_areas(glyphs@, areas.take(k as int), selected),
        decreases islands@.len() - k,
    {
        proof {
            assert(areas.take(k + 1).drop_last() =~= areas.take(k as int));
            assert(areas.take(k + 1).last() == islands@[k as int]@);
        }
        if let Some(range) = find_range_in_island(glyphs, &islands[k], &selected) {
            out.push((k, range));
        }
        k = k + 1;
    }
    assert(areas.take(k as int) =~= areas);
    out
}

/// The islands of the targets exist.
pub proof fn lemma_targets_in_bounds(text: Seq<char>, selection: Selection, areas: Seq<Area>, i: int)
    requires
        areas.len() <= usize::MAX,
        0 <= i < targets(text, selection, areas).len(),
    ensures
        targets(text, selection, areas)[i].0 < areas.len(),
{
    if selection.low() == selection.high() {
        lemma_caret_in_bounds(text, areas, 0, selection.head_offset(), i);
    } else {
        lemma_ranges_in_bounds(
            text,
            areas,
            Range { start: selection.low(), end: selection.high() },
            i,
        );
    }
}

proof fn lemma_caret_in_bounds(text: Seq<char>, areas: Seq<Area>, k: int, cursor: usize, i: int)
    requires
        areas.len() <= usize::MAX,
        0 <= k,
        0 <= i < caret_in_areas(text, areas, k, cursor).len(),
    ensures
        caret_in_areas(text, areas, k, cursor)[i].0 < areas.len(),
    decreases areas.len() - k,
{
    if k < areas.len() && caret_in_parts(text, areas[k].parts, 0, cursor) is None {
        lemma_caret_in_bounds(text, areas, k + 1, cursor, i);
    }
}

proof fn lemma_ranges_in_bounds(text: Seq<char>, areas: Seq<Area>, selected: Range<usize>, i: int)
    requires
        areas.len() <= usize::MAX,
        0 <= i < ranges_in_areas(text, areas, selected).len(),
    ensures
        ranges_in_areas(text, areas, selected)[i].0 < areas.len(),
    decreases areas.len(),
{
    if areas.len() > 0 {
        if i < ranges_in_areas(text, areas.drop_last(), selected).len() {
            lemma_ranges_in_bounds(text, areas.drop_last(), selected, i);
        }
    }
}

// ---------------------------------------------------------------------------
// Apply or remove
// ---------------------------------------------------------------------------

/// Do all pieces that are selected, white space apart, carry the style?
pub open spec fn all_styled(text: Seq<char>, parts: Seq<Part>, selected: Range<usize>) -> bool {
    forall|j: int|
        0 <= j < parts.len() && participates(#[trigger] parts[j], selected) && substantive(
            text,
            parts[j],
            selected,
        ) ==> parts[j].styled
}

/// A toggle removes the style where all that is selected carries it, and
/// applies it otherwise.
pub open spec fn removes(
    text: Seq<char>,
    areas: Seq<Area>,
    found: Seq<(usize, Range<usize>)>,
) -> bool {
    forall|k: int|
        0 <= k < found.len() ==> all_styled(
            text,
            areas[(#[trigger] found[k]).0 as int].parts,
            found[k].1,
        )
}

fn is_all_styled(glyphs: &Glyphs, atoms: &Vec<Atom>, selected: &Range<usize>) -> (styled: bool)
    ensures
        styled == all_styled(glyphs@, atoms_view(atoms@), *selected),
{
    let ghost parts = atoms_view(atoms@);
    let mut j: usize = 0;
    while j < atoms.len()
        invariant
            j <= atoms@.len(),
            parts == atoms_view(atoms@),
            forall|i: int|
                0 <= i < j && participates(#[trigger] parts[i], *selected) && substantive(
                    glyphs@,
                    parts[i],
                    *selected,
                ) ==> parts[i].styled,
        decreases atoms@.len() - j,
    {
        let atom = &atoms[j];
        assert(parts[j as int] == atom@);
        if atom_participates(atom, selected) && atom_has_substantive_overlap(glyphs, atom, selected)
            && !atom.styled {
            return false;
        }
        j = j + 1;
    }
    true
}

/// Does the toggle remove the style?
pub fn is_removal(glyphs: &Glyphs, islands: &Vec<Island>, found: &Vec<(usize, Range<usize>)>) -> (
    removal: bool)
    requires
        forall|k: int| 0 <= k < found@.len() ==> (#[trigger] found@[k]).0 < islands@.len(),
    ensures
        removal == removes(glyphs@, islands_view(islands@), found@),
{
    let ghost areas = islands_view(islands@);
    let mut k: usize = 0;
    while k < found.len()
        invariant
            k <= found@.len(),
            areas == islands_view(islands@),
            forall|i: int| 0 <= i < found@.len() ==> (#[trigger] found@[i]).0 < islands@.len(),
            forall|i: int|
                0 <= i < k ==> all_styled(
                    glyphs@,
                    areas[(#[trigger] found@[i]).0 as int].parts,
                    found@[i].1,
                ),
        decreases found@.len() - k,
    {
        let index: usize = found[k].0;
        assert(found@[k as int].0 < islands@.len());
        assert(areas[index as int] == islands@[index as int]@);
        if !is_all_styled(glyphs, &islands[index].atoms, &found[k].1) {
            assert(!all_styled(glyphs@, areas[found@[k as int].0 as int].parts, found@[k as int].1));
            return false;
        }
        k = k + 1;
    }
    true
}

} // verus!
