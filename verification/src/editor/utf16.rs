//! Offsets in UTF-16 code units, as input methods count them.

use core::ops::Range;

use vstd::prelude::*;

use crate::strings::byte_offset;
use crate::text::bytes_of;
use crate::words::{index_at, lemma_index_of_offset, lemma_offsets_grow, Glyphs};

verus! {

/// Number of code units of a character.
pub open spec fn unit_width(c: char) -> int {
    if c as u32 >= 0x10000 {
        2
    } else {
        1
    }
}

/// Number of code units of the first `i` characters.
pub open spec fn unit_offset(text: Seq<char>, i: int) -> int
    decreases i,
{
    if i <= 0 {
        0
    } else {
        unit_offset(text, i - 1) + unit_width(text[i - 1])
    }
}

/// The first character from `i` on that begins at code unit `units` or after
/// it.
pub open spec fn unit_index_from(text: Seq<char>, i: int, units: int) -> int
    decreases text.len() - i,
{
    if i < text.len() && unit_offset(text, i) < units {
        unit_index_from(text, i + 1, units)
    } else {
        i
    }
}

/// The byte offset of the first character at or after a code unit.
pub open spec fn from_units(text: Seq<char>, units: int) -> int {
    byte_offset(text, unit_index_from(text, 0, units))
}

/// The code unit of the first character at or after a byte offset.
pub open spec fn to_units(text: Seq<char>, offset: int) -> int {
    unit_offset(text, index_at(text, offset))
}

proof fn lemma_unit_offset(text: Seq<char>, i: int)
    requires
        0 <= i <= text.len(),
    ensures
        0 <= unit_offset(text, i) <= byte_offset(text, i),
        i > 0 ==> unit_offset(text, i - 1) < unit_offset(text, i),
    decreases i,
{
    if i > 0 {
        lemma_unit_offset(text, i - 1);
        crate::strings::lemma_byte_offset_step(text, i - 1);
        let c = text[i - 1];
        assert(vstd::utf8::encode_scalar(c as u32).len() >= unit_width(c));
    }
}

/// Number of code units of the first `limit` characters.
fn count_units(glyphs: &Glyphs, limit: usize) -> (units: usize)
    requires
        limit <= glyphs@.len(),
    ensures
        units == unit_offset(glyphs@, limit as int),
{
    let size: usize = glyphs.size();
    let mut units: usize = 0;
    let mut i: usize = 0;
    while i < limit
        invariant
            i <= limit <= glyphs@.len(),
            size == bytes_of(glyphs@).len(),
            units == unit_offset(glyphs@, i as int),
        decreases limit - i,
    {
        proof {
            lemma_unit_offset(glyphs@, i + 1);
            lemma_offsets_grow(glyphs@, i + 1, i + 1);
        }
        if glyphs.char_at(i) as u32 >= 0x10000 {
            units = units + 2;
        } else {
            units = units + 1;
        }
        i = i + 1;
    }
    units
}

/// The code unit of the first character at or after a byte offset.
pub fn offset_to_utf16(text: &str, offset: usize) -> (units: usize)
    ensures
        units == to_units(text@, offset as int),
{
    let glyphs = Glyphs::of(text);
    let limit: usize = glyphs.index_of(offset);
    count_units(&glyphs, limit)
}

/// The byte offset of the first character at or after a code unit.
pub fn offset_from_utf16(text: &str, offset: usize) -> (bytes: usize)
    ensures
        bytes == from_units(text@, offset as int),
        bytes <= bytes_of(text@).len(),
{
    let glyphs = Glyphs::of(text);
    let size: usize = glyphs.size();
    let mut units: usize = 0;
    let mut i: usize = 0;
    while i < glyphs.len() && units < offset
        invariant
            i <= glyphs@.len(),
            glyphs@ == text@,
            size == bytes_of(text@).len(),
            units == unit_offset(text@, i as int),
            unit_index_from(text@, 0, offset as int) == unit_index_from(
                text@,
                i as int,
                offset as int,
            ),
        decreases glyphs@.len() - i,
    {
        proof {
            lemma_unit_offset(text@, i + 1);
            lemma_offsets_grow(text@, i + 1, i + 1);
        }
        if glyphs.char_at(i) as u32 >= 0x10000 {
            units = units + 2;
        } else {
            units = units + 1;
        }
        i = i + 1;
    }
    proof {
        lemma_offsets_grow(text@, i as int, i as int);
    }
    glyphs.offset_of(i)
}

/// A range of bytes in code units.
pub fn range_to_utf16(text: &str, range: &Range<usize>) -> (units: Range<usize>)
    ensures
        units.start == to_units(text@, range.start as int),
        units.end == to_units(text@, range.end as int),
{
    offset_to_utf16(text, range.start)..offset_to_utf16(text, range.end)
}

/// A range of code units in bytes.
pub fn range_from_utf16(text: &str, units: &Range<usize>) -> (range: Range<usize>)
    ensures
        range.start == from_units(text@, units.start as int),
        range.end == from_units(text@, units.end as int),
{
    offset_from_utf16(text, units.start)..offset_from_utf16(text, units.end)
}

// ---------------------------------------------------------------------------
// Laws
// ---------------------------------------------------------------------------

proof fn lemma_units_grow(text: Seq<char>, i: int, j: int)
    requires
        0 <= i <= j <= text.len(),
    ensures
        unit_offset(text, i) + (j - i) <= unit_offset(text, j),
    decreases j - i,
{
    if i < j {
        lemma_units_grow(text, i, j - 1);
    }
}

proof fn lemma_unit_index(text: Seq<char>, i: int, j: int)
    requires
        0 <= i <= j <= text.len(),
    ensures
        unit_index_from(text, i, unit_offset(text, j)) == j,
    decreases j - i,
{
    lemma_units_grow(text, i, j);
    if i < j {
        lemma_unit_index(text, i + 1, j);
    }
}

/// Where a character begins, counting in bytes and counting in code units lead
/// to each other.
pub proof fn units_and_bytes_agree(text: Seq<char>, i: int)
    requires
        0 <= i <= text.len(),
    ensures
        to_units(text, byte_offset(text, i)) == unit_offset(text, i),
        from_units(text, unit_offset(text, i)) == byte_offset(text, i),
        from_units(text, to_units(text, byte_offset(text, i))) == byte_offset(text, i),
{
    lemma_index_of_offset(text, i);
    lemma_unit_index(text, 0, i);
}

/// Number of code units of a text: two for a character beyond the first 65536, and
/// one for any other.
pub open spec fn code_units(text: Seq<char>) -> int
    decreases text.len(),
{
    if text.len() == 0 {
        0
    } else {
        code_units(text.drop_last()) + if text.last() as u32 > 0xffff {
            2int
        } else {
            1int
        }
    }
}

proof fn lemma_code_units(left: Seq<char>, text: Seq<char>)
    requires
        left.len() <= text.len(),
        left == text.take(left.len() as int),
    ensures
        unit_offset(text, left.len() as int) == code_units(left),
    decreases left.len(),
{
    if left.len() > 0 {
        let rest = left.drop_last();
        assert(rest =~= text.take(rest.len() as int));
        lemma_code_units(rest, text);
        assert(left.last() == text[left.len() - 1]);
    }
}

/// The byte behind a text and the code unit behind it lead to each other.
pub proof fn code_units_are_counted(left: Seq<char>, right: Seq<char>)
    ensures
        to_units(left + right, bytes_of(left).len() as int) == code_units(left),
        from_units(left + right, code_units(left)) == bytes_of(left).len(),
{
    let text = left + right;
    let i = left.len() as int;
    assert(text.take(i) =~= left);
    units_and_bytes_agree(text, i);
    lemma_code_units(left, text);
}

} // verus!
