//! Selecting with the pointer.

use core::ops::Range;

use vstd::prelude::*;

use crate::formatting::ranges::{greater, lesser, max_offset, min_offset};
use crate::state::Selection;
use crate::text::{
    bytes_of, lemma_line_start_bounds, line_end, line_start, line_start_offset, next_line_end,
};
use crate::words::{joined, lemma_piece_step, piece_start, strings_view, word_bounds, word_pieces};

verus! {

/// What a drag selects by, after one, two or three clicks.
#[derive(Debug, Clone, Copy, PartialEq, Eq, Structural)]
pub enum SelectMode {
    Char,
    Word,
    Line,
}

/// A drag: what it selects by, and the unit that it began with.
#[derive(Debug, PartialEq, Eq)]
pub struct Drag {
    pub mode: SelectMode,
    pub anchor: Range<usize>,
}

// ---------------------------------------------------------------------------
// Words and lines
// ---------------------------------------------------------------------------

/// The piece from `k` on that holds the offset; otherwise the last piece, which
/// is `last` where there are none.
pub open spec fn piece_from(
    pieces: Seq<Seq<char>>,
    k: int,
    offset: int,
    last: Range<usize>,
) -> Range<usize>
    decreases pieces.len() - k,
{
    if k >= pieces.len() {
        last
    } else {
        let range = Range {
            start: piece_start(pieces, k) as usize,
            end: piece_start(pieces, k + 1) as usize,
        };
        if range.start <= offset < range.end {
            range
        } else {
            piece_from(pieces, k + 1, offset, range)
        }
    }
}

/// `offset`, or the end of the text where that comes first.
pub open spec fn clamped(text: Seq<char>, offset: usize) -> usize {
    if offset <= bytes_of(text).len() {
        offset
    } else {
        bytes_of(text).len() as usize
    }
}

/// The segment between word boundaries at the offset: the one to the right at a
/// boundary, and the last one at the end of the text.
pub open spec fn segment_at(
    text: Seq<char>,
    pieces: Seq<Seq<char>>,
    offset: usize,
) -> Range<usize> {
    let at = clamped(text, offset);
    piece_from(pieces, 0, at as int, Range { start: at, end: at })
}

/// The line at the offset, without its newline.
pub open spec fn line_at(text: Seq<char>, offset: usize) -> Range<usize> {
    let b = bytes_of(text);
    let at = clamped(text, offset) as int;
    Range {
        start: line_start(b, at) as usize,
        end: line_end(b, at, b.len() as int) as usize,
    }
}

/// Finds the segment at the offset among the parts of a text.
pub fn segment_among(text: &str, pieces: &Vec<String>, offset: usize) -> (range: Range<usize>)
    requires
        joined(strings_view(pieces@)) == text@,
    ensures
        range == segment_at(text@, strings_view(pieces@), offset),
{
    let ghost all = strings_view(pieces@);
    let size: usize = text.as_bytes().len();
    let at: usize = min_offset(offset, size);
    let mut last: Range<usize> = at..at;
    let mut start: usize = 0;
    let mut k: usize = 0;
    proof {
        assert(all.take(0) =~= Seq::empty());
        reveal_with_fuel(vstd::utf8::encode_utf8, 2);
    }
    while k < pieces.len()
        invariant
            k <= pieces@.len(),
            all == strings_view(pieces@),
            joined(all) == text@,
            size == bytes_of(text@).len(),
            at == clamped(text@, offset),
            start == piece_start(all, k as int),
            start <= size,
            segment_at(text@, all, offset) == piece_from(all, k as int, at as int, last),
        decreases pieces@.len() - k,
    {
        proof {
            lemma_piece_step(all, k as int);
        }
        assert(all[k as int] == pieces@[k as int]@);
        let end: usize = start + pieces[k].as_str().as_bytes().len();
        if start <= at && at < end {
            return start..end;
        }
        last = start..end;
        start = end;
        k = k + 1;
    }
    last
}

/// The word, or the run of white space or punctuation, at the offset.
pub fn word_range_at(text: &str, offset: usize) -> (range: Range<usize>)
    ensures
        range == segment_at(text@, word_bounds(text@), offset),
{
    let pieces = word_pieces(text);
    segment_among(text, &pieces, offset)
}

/// The line at the offset, without its newline.
pub fn line_range_at(text: &str, offset: usize) -> (range: Range<usize>)
    ensures
        range == line_at(text@, offset),
{
    let bytes = text.as_bytes();
    let at: usize = min_offset(offset, bytes.len());
    proof {
        lemma_line_start_bounds(bytes@, at as int);
    }
    let start: usize = line_start_offset(bytes, at);
    let end: usize = next_line_end(bytes, at, bytes.len());
    start..end
}

// ---------------------------------------------------------------------------
// Drags
// ---------------------------------------------------------------------------

/// The unit at the offset; `pieces` are the parts of the text between its word
/// boundaries.
pub open spec fn unit_at(
    text: Seq<char>,
    pieces: Seq<Seq<char>>,
    mode: SelectMode,
    offset: usize,
) -> Range<usize> {
    match mode {
        SelectMode::Char => Range { start: offset, end: offset },
        SelectMode::Word => segment_at(text, pieces, offset),
        SelectMode::Line => line_at(text, offset),
    }
}

/// The selection of a drag that has come to `offset`, over the unit there. It
/// covers the first unit and the last, with the head on the side of the
/// pointer.
pub open spec fn dragged(drag: Drag, offset: usize, unit: Range<usize>) -> Selection {
    match drag.mode {
        SelectMode::Char => Selection::Range { anchor: drag.anchor.start, head: offset },
        _ => if offset >= drag.anchor.end {
            Selection::Range { anchor: drag.anchor.start, head: greater(unit.end, drag.anchor.end) }
        } else {
            Selection::Range { anchor: drag.anchor.end, head: lesser(unit.start, drag.anchor.start) }
        },
    }
}

/// What the number of clicks selects by.
pub open spec fn mode_of(click_count: usize) -> SelectMode {
    if click_count <= 1 {
        SelectMode::Char
    } else if click_count == 2 {
        SelectMode::Word
    } else {
        SelectMode::Line
    }
}

/// The drag that a press begins. With the shift key the unit stays where the
/// selection began.
pub open spec fn pressed(
    drag: Drag,
    selection: Selection,
    click_count: usize,
    shift: bool,
    unit: Range<usize>,
) -> Drag {
    let mode = mode_of(click_count);
    Drag {
        mode,
        anchor: if !shift {
            unit
        } else if mode == SelectMode::Char {
            Range { start: selection.anchor_offset(), end: selection.anchor_offset() }
        } else {
            drag.anchor
        },
    }
}

/// The selection that a press gives.
pub open spec fn press_selection(
    drag: Drag,
    offset: usize,
    shift: bool,
    unit: Range<usize>,
) -> Selection {
    if shift {
        dragged(drag, offset, unit)
    } else if drag.mode == SelectMode::Char {
        Selection::Cursor(offset)
    } else {
        Selection::Range { anchor: unit.start, head: unit.end }
    }
}

/// The unit at the offset.
pub fn find_unit(text: &str, mode: SelectMode, offset: usize) -> (unit: Range<usize>)
    ensures
        unit == unit_at(text@, word_bounds(text@), mode, offset),
{
    match mode {
        SelectMode::Char => offset..offset,
        SelectMode::Word => word_range_at(text, offset),
        SelectMode::Line => line_range_at(text, offset),
    }
}

/// The selection of a drag that has come to `offset`, over the unit there.
pub fn drag_over(drag: &Drag, offset: usize, unit: &Range<usize>) -> (selection: Selection)
    ensures
        selection == dragged(*drag, offset, *unit),
{
    match drag.mode {
        SelectMode::Char => Selection::range(drag.anchor.start, offset),
        _ => if offset >= drag.anchor.end {
            Selection::range(drag.anchor.start, max_offset(unit.end, drag.anchor.end))
        } else {
            Selection::range(drag.anchor.end, min_offset(unit.start, drag.anchor.start))
        },
    }
}

/// The selection of a drag that has come to `offset`.
pub fn extend_selection_to(text: &str, drag: &Drag, offset: usize) -> (selection: Selection)
    ensures
        selection == dragged(
            *drag,
            offset,
            unit_at(text@, word_bounds(text@), drag.mode, offset),
        ),
{
    let unit = find_unit(text, drag.mode, offset);
    drag_over(drag, offset, &unit)
}

/// The drag that a press begins, and the selection that it gives.
pub fn begin_selection(
    text: &str,
    drag: &Drag,
    selection: Selection,
    offset: usize,
    click_count: usize,
    shift: bool,
) -> (result: (Drag, Selection))
    ensures
        ({
            let unit = unit_at(text@, word_bounds(text@), mode_of(click_count), offset);
            &&& result.0 == pressed(*drag, selection, click_count, shift, unit)
            &&& result.1 == press_selection(result.0, offset, shift, unit)
        }),
{
    let mode = if click_count <= 1 {
        SelectMode::Char
    } else if click_count == 2 {
        SelectMode::Word
    } else {
        SelectMode::Line
    };
    let unit = find_unit(text, mode, offset);
    if shift {
        let anchor = if mode == SelectMode::Char {
            selection.anchor()..selection.anchor()
        } else {
            drag.anchor.start..drag.anchor.end
        };
        let next = Drag { mode, anchor };
        let extended = drag_over(&next, offset, &unit);
        return (next, extended);
    }
    let chosen = match mode {
        SelectMode::Char => Selection::cursor(offset),
        _ => Selection::range(unit.start, unit.end),
    };
    (Drag { mode, anchor: unit }, chosen)
}

/// The selection after a press for a context menu: one inside of the selection
/// leaves it, any other puts the caret there.
pub fn context_selection(selection: Selection, offset: usize) -> (next: Selection)
    ensures
        next == if selection.low() <= offset < selection.high() {
            selection
        } else {
            Selection::Cursor(offset)
        },
{
    if selection.lower_bound() <= offset && offset < selection.upper_bound() {
        selection
    } else {
        Selection::cursor(offset)
    }
}

// ---------------------------------------------------------------------------
// Laws
// ---------------------------------------------------------------------------

/// A drag by words or lines always covers the unit that it began with.
pub proof fn drags_cover_the_first_unit(drag: Drag, offset: usize, unit: Range<usize>)
    requires
        drag.mode != SelectMode::Char,
        drag.anchor.start <= drag.anchor.end,
    ensures
        dragged(drag, offset, unit).low() <= drag.anchor.start,
        drag.anchor.end <= dragged(drag, offset, unit).high(),
{
}

proof fn lemma_piece_from(pieces: Seq<Seq<char>>, k: int, offset: int, last: Range<usize>)
    requires
        0 <= k < pieces.len(),
        bytes_of(joined(pieces)).len() <= usize::MAX,
        piece_start(pieces, k) <= offset < bytes_of(joined(pieces)).len(),
    ensures
        piece_from(pieces, k, offset, last).start <= offset < piece_from(
            pieces,
            k,
            offset,
            last,
        ).end <= bytes_of(joined(pieces)).len(),
    decreases pieces.len() - k,
{
    lemma_piece_step(pieces, k);
    if offset >= piece_start(pieces, k + 1) {
        if k + 1 >= pieces.len() {
            assert(pieces.take(k + 1) =~= pieces);
        } else {
            let range = Range {
                start: piece_start(pieces, k) as usize,
                end: piece_start(pieces, k + 1) as usize,
            };
            lemma_piece_from(pieces, k + 1, offset, range);
        }
    }
}

/// A double click before the end of the text selects a segment around the
/// place that was clicked.
pub proof fn segments_hold_the_click(text: Seq<char>, pieces: Seq<Seq<char>>, offset: usize)
    requires
        joined(pieces) == text,
        bytes_of(text).len() <= usize::MAX,
        offset < bytes_of(text).len(),
    ensures
        segment_at(text, pieces, offset).start <= offset < segment_at(text, pieces, offset).end,
        segment_at(text, pieces, offset).end <= bytes_of(text).len(),
{
    if pieces.len() == 0 {
        assert(joined(pieces) =~= Seq::empty());
        reveal_with_fuel(vstd::utf8::encode_utf8, 2);
    } else {
        assert(pieces.take(0) =~= Seq::empty());
        reveal_with_fuel(vstd::utf8::encode_utf8, 2);
        lemma_piece_from(pieces, 0, offset as int, Range { start: offset, end: offset });
    }
}

/// A third click selects the line: all that is around the place without a newline,
/// from one newline to the next.
pub proof fn lines_are_selected_whole(text: Seq<char>, offset: usize)
    requires
        offset <= bytes_of(text).len() <= usize::MAX,
    ensures
        ({
            let b = bytes_of(text);
            let line = line_at(text, offset);
            &&& line.start <= offset <= line.end <= b.len()
            &&& forall|p: int| line.start <= p < line.end ==> #[trigger] b[p] as char != '\n'
            &&& line.start > 0 ==> b[line.start - 1] as char == '\n'
            &&& line.end < b.len() ==> b[line.end as int] as char == '\n'
        }),
{
    let b = bytes_of(text);
    crate::text::lemma_line_start_bounds(b, offset as int);
    crate::text::lemma_line_end_bounds(b, offset as int, b.len() as int);
    let line = line_at(text, offset);
    assert forall|p: int| line.start <= p < line.end implies #[trigger] b[p] as char != '\n' by {
        assert(b[p] != crate::text::NL);
    }
}

/// One click puts the caret there, two select a word and three or more a line; with
/// the shift key one click extends the selection to there. Dragging on from a single
/// click selects from the click to the pointer.
pub proof fn clicks_select_their_units(
    drag: Drag,
    selection: Selection,
    count: usize,
    text: Seq<char>,
    pieces: Seq<Seq<char>>,
    offset: usize,
    to: usize,
)
    ensures
        ({
            let unit = unit_at(text, pieces, mode_of(count), offset);
            let plain = pressed(drag, selection, count, false, unit);
            let shifted = pressed(drag, selection, count, true, unit);
            let first = press_selection(plain, offset, false, unit);
            &&& count <= 1 ==> first == Selection::Cursor(offset)
            &&& count == 2 ==> first == (Selection::Range {
                anchor: segment_at(text, pieces, offset).start,
                head: segment_at(text, pieces, offset).end,
            })
            &&& count > 2 ==> first == (Selection::Range {
                anchor: line_at(text, offset).start,
                head: line_at(text, offset).end,
            })
            &&& count <= 1 ==> press_selection(shifted, offset, true, unit) == (Selection::Range {
                anchor: selection.anchor_offset(),
                head: offset,
            })
            &&& count <= 1 ==> dragged(plain, to, unit_at(text, pieces, plain.mode, to)) == (
            Selection::Range { anchor: offset, head: to })
        }),
{
}

} // verus!
