//! Text that comes from an input method.

use core::ops::Range;

use vstd::prelude::*;

use crate::editor::utf16::{from_units, offset_from_utf16, range_from_utf16};
use crate::strings::capped;
use crate::text::bytes_of;
use crate::words::{slice, Glyphs};

verus! {

/// What an input method replaces: the range that it names in code units, else
/// the text that it is composing.
pub open spec fn named_range(
    text: Seq<char>,
    units: Option<Range<usize>>,
    marked: Option<Range<usize>>,
) -> Option<Range<usize>> {
    match units {
        Some(u) => Some(
            Range {
                start: from_units(text, u.start as int) as usize,
                end: from_units(text, u.end as int) as usize,
            },
        ),
        None => marked,
    }
}

/// What an input method replaces: the range that it names in code units, else
/// the text that it is composing.
pub fn replacement_target(
    text: &str,
    units: &Option<Range<usize>>,
    marked: &Option<Range<usize>>,
) -> (target: Option<Range<usize>>)
    ensures
        target == named_range(text@, *units, *marked),
{
    match units {
        Some(u) => Some(range_from_utf16(text, u)),
        None => match marked {
            Some(m) => Some(m.start..m.end),
            None => None,
        },
    }
}

/// The text, the range that is being composed and the caret, after an input
/// method put something in.
#[derive(Debug)]
pub struct Composition {
    pub markdown: String,
    pub marked: Option<Range<usize>>,
    pub cursor: usize,
}

/// The text with `[start, end)` replaced.
pub open spec fn spliced(text: Seq<char>, range: Range<usize>, inserted: Seq<char>) -> Seq<char> {
    slice(text, 0, range.start as int) + inserted + slice(
        text,
        range.end as int,
        bytes_of(text).len() as int,
    )
}

/// What is being composed after `inserted` went in at `start`.
pub open spec fn marked_after(start: usize, inserted: Seq<char>) -> Option<Range<usize>> {
    if inserted.len() == 0 {
        None
    } else {
        Some(Range { start, end: capped(start + bytes_of(inserted).len()) })
    }
}

/// Where the caret goes: to the end of what was put in, or to where the input
/// method wants it, counted in the code units of the new text.
pub open spec fn cursor_after(
    start: usize,
    inserted: Seq<char>,
    next: Seq<char>,
    wanted: Option<Range<usize>>,
) -> usize {
    match wanted {
        Some(units) => capped(start + from_units(next, units.end as int)),
        None => capped(start + bytes_of(inserted).len()),
    }
}

/// Replaces a range by text that is still being composed.
pub fn replace_and_mark(
    text: &str,
    range: &Range<usize>,
    inserted: &str,
    wanted: &Option<Range<usize>>,
) -> (result: Composition)
    ensures
        result.markdown@ == spliced(text@, *range, inserted@),
        result.marked == marked_after(range.start, inserted@),
        result.cursor == cursor_after(
            range.start,
            inserted@,
            spliced(text@, *range, inserted@),
            *wanted,
        ),
{
    let glyphs = Glyphs::of(text);
    let mut markdown = String::new();
    glyphs.push_text(&mut markdown, 0, range.start);
    markdown.push_str(inserted);
    glyphs.push_text(&mut markdown, range.end, glyphs.size());
    assert(markdown@ =~= spliced(text@, *range, inserted@));
    let size: usize = inserted.as_bytes().len();
    let marked = if inserted.is_empty() {
        None
    } else {
        Some(range.start..range.start.saturating_add(size))
    };
    let cursor: usize = match wanted {
        Some(units) => range.start.saturating_add(
            offset_from_utf16(markdown.as_str(), units.end),
        ),
        None => range.start.saturating_add(size),
    };
    Composition { markdown, marked, cursor }
}

// ---------------------------------------------------------------------------
// Laws
// ---------------------------------------------------------------------------

/// Putting in what was there changes nothing.
pub proof fn replacing_by_the_same_text_changes_nothing(text: Seq<char>, range: Range<usize>)
    requires
        range.start <= range.end <= bytes_of(text).len(),
    ensures
        spliced(text, range, slice(text, range.start as int, range.end as int)) == text,
{
    let size = bytes_of(text).len() as int;
    crate::words::lemma_index_grows(text, 0, range.start as int);
    crate::words::lemma_index_grows(text, range.start as int, range.end as int);
    crate::words::lemma_index_grows(text, range.end as int, size);
    crate::words::lemma_index_at(text, 0);
    crate::words::lemma_index_at(text, size);
    assert(text.take(0) =~= Seq::empty());
    assert(crate::words::index_at(text, 0) == 0) by {
        if crate::words::index_at(text, 0) > 0 {
            assert(crate::strings::byte_offset(text, 0) < 0);
        }
    }
    assert(crate::words::index_at(text, size) == text.len()) by {
        let last = crate::words::index_at(text, size);
        if last < text.len() {
            crate::words::lemma_offsets_grow(text, last, text.len() as int);
            assert(crate::strings::byte_offset(text, last) >= size);
        }
    }
    assert(spliced(text, range, slice(text, range.start as int, range.end as int)) =~= text);
}

/// Composed text takes the place of what it replaces and of nothing else. It is
/// marked, unless it is empty, and the caret goes right behind it.
pub proof fn composed_text_goes_in_place(
    left: Seq<char>,
    gone: Seq<char>,
    right: Seq<char>,
    inserted: Seq<char>,
    range: Range<usize>,
)
    requires
        range.start == bytes_of(left).len(),
        range.end == bytes_of(left + gone).len(),
        bytes_of(left + inserted + right).len() <= usize::MAX,
    ensures
        spliced(left + gone + right, range, inserted) == left + inserted + right,
        cursor_after(
            range.start,
            inserted,
            spliced(left + gone + right, range, inserted),
            None,
        ) == bytes_of(left + inserted).len(),
        inserted.len() == 0 ==> marked_after(range.start, inserted) is None,
        inserted.len() > 0 ==> marked_after(range.start, inserted) == Some(
            Range {
                start: bytes_of(left).len() as usize,
                end: bytes_of(left + inserted).len() as usize,
            },
        ),
{
    crate::words::lemma_slice_between(left, gone, right);
    crate::strings::lemma_bytes_concat(left, inserted);
    crate::strings::lemma_bytes_concat(left + inserted, right);
    assert(spliced(left + gone + right, range, inserted) =~= left + inserted + right);
}

/// An input method that names a range in code units replaces the text that begins
/// and ends there; one that names none replaces what it is composing.
pub proof fn named_ranges_are_replaced(
    left: Seq<char>,
    gone: Seq<char>,
    right: Seq<char>,
    units: Range<usize>,
    marked: Option<Range<usize>>,
)
    requires
        units.start == crate::editor::utf16::code_units(left),
        units.end == crate::editor::utf16::code_units(left + gone),
        bytes_of(left + gone + right).len() <= usize::MAX,
    ensures
        named_range(left + gone + right, Some(units), marked) == Some(
            Range {
                start: bytes_of(left).len() as usize,
                end: bytes_of(left + gone).len() as usize,
            },
        ),
        named_range(left + gone + right, None, marked) == marked,
{
    crate::editor::utf16::code_units_are_counted(left, gone + right);
    crate::editor::utf16::code_units_are_counted(left + gone, right);
    assert(left + (gone + right) =~= left + gone + right);
    crate::strings::lemma_bytes_concat(left + gone, right);
    crate::strings::lemma_bytes_concat(left, gone);
}

} // verus!
