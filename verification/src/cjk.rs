//! CJK script classification, for emphasis rendering.
//!
//! No CJK face has an italic, so emphasized CJK text takes a dot under each
//! character instead. This module tells which characters those are.

use core::ops::Range;

use vstd::prelude::*;

use crate::strings::{byte_offset, char_width, chars_of, lemma_byte_offset_step, utf8_len};
use crate::text::bytes_of;

verus! {

/// The Unicode blocks of CJK scripts: one entry per block, at the block's
/// official range, in order.
pub const CJK_BLOCKS: [(u32, u32); 40] = [
    (0x1100, 0x11FF),  // Hangul Jamo
    (0x2E80, 0x2EFF),  // CJK Radicals Supplement
    (0x2F00, 0x2FDF),  // Kangxi Radicals
    (0x2FF0, 0x2FFF),  // Ideographic Description Characters
    (0x3000, 0x303F),  // CJK Symbols and Punctuation
    (0x3040, 0x309F),  // Hiragana
    (0x30A0, 0x30FF),  // Katakana
    (0x3100, 0x312F),  // Bopomofo
    (0x3130, 0x318F),  // Hangul Compatibility Jamo
    (0x3190, 0x319F),  // Kanbun
    (0x31A0, 0x31BF),  // Bopomofo Extended
    (0x31C0, 0x31EF),  // CJK Strokes
    (0x31F0, 0x31FF),  // Katakana Phonetic Extensions
    (0x3200, 0x32FF),  // Enclosed CJK Letters and Months
    (0x3300, 0x33FF),  // CJK Compatibility
    (0x3400, 0x4DBF),  // CJK Unified Ideographs Extension A
    (0x4E00, 0x9FFF),  // CJK Unified Ideographs
    (0xA960, 0xA97F),  // Hangul Jamo Extended-A
    (0xAC00, 0xD7AF),  // Hangul Syllables
    (0xD7B0, 0xD7FF),  // Hangul Jamo Extended-B
    (0xF900, 0xFAFF),  // CJK Compatibility Ideographs
    (0xFE10, 0xFE1F),  // Vertical Forms
    (0xFE30, 0xFE4F),  // CJK Compatibility Forms
    (0xFE50, 0xFE6F),  // Small Form Variants
    (0xFF00, 0xFFEF),  // Halfwidth and Fullwidth Forms
    (0x16FE0, 0x16FFF),  // Ideographic Symbols and Punctuation
    (0x1AFF0, 0x1AFFF),  // Kana Extended-B
    (0x1B000, 0x1B0FF),  // Kana Supplement
    (0x1B100, 0x1B12F),  // Kana Extended-A
    (0x1B130, 0x1B16F),  // Small Kana Extension
    (0x20000, 0x2A6DF),  // CJK Unified Ideographs Extension B
    (0x2A700, 0x2B73F),  // CJK Unified Ideographs Extension C
    (0x2B740, 0x2B81F),  // CJK Unified Ideographs Extension D
    (0x2B820, 0x2CEAF),  // CJK Unified Ideographs Extension E
    (0x2CEB0, 0x2EBEF),  // CJK Unified Ideographs Extension F
    (0x2EBF0, 0x2EE5F),  // CJK Unified Ideographs Extension I
    (0x2F800, 0x2FA1F),  // CJK Compatibility Ideographs Supplement
    (0x30000, 0x3134F),  // CJK Unified Ideographs Extension G
    (0x31350, 0x323AF),  // CJK Unified Ideographs Extension H
    (0x323B0, 0x3347F),  // CJK Unified Ideographs Extension J
];

/// Is the scalar value `v` in one of the blocks?
pub open spec fn in_blocks(v: u32) -> bool {
    exists|i: int| 0 <= i < CJK_BLOCKS@.len() && (#[trigger] CJK_BLOCKS@[i]).0 <= v <= CJK_BLOCKS@[i].1
}

/// Is `c` written in a CJK script, punctuation between CJK characters
/// included?
pub fn is_cjk_script(c: char) -> (found: bool)
    ensures
        found == in_blocks(c as u32),
{
    let v = c as u32;
    let mut i: usize = 0;
    while i < CJK_BLOCKS.len()
        invariant
            i <= CJK_BLOCKS@.len(),
            v == c as u32,
            forall|j: int| 0 <= j < i ==> !((#[trigger] CJK_BLOCKS@[j]).0 <= v <= CJK_BLOCKS@[j].1),
        decreases CJK_BLOCKS@.len() - i,
    {
        let (lo, hi) = CJK_BLOCKS[i];
        if lo <= v && v <= hi {
            return true;
        }
        i = i + 1;
    }
    false
}

/// What `char::is_alphanumeric` answers for a character.
pub uninterp spec fn alphanumeric(c: char) -> bool;

/// `char::is_alphanumeric`: the answer depends on the character alone.
pub assume_specification[ char::is_alphanumeric ](c: char) -> (found: bool)
    ensures
        found == alphanumeric(c),
;

/// Does `c` take an emphasis dot of its own? Punctuation and spacing between
/// CJK characters do not.
pub fn takes_emphasis_dot(c: char) -> (found: bool)
    ensures
        found == (in_blocks(c as u32) && alphanumeric(c)),
{
    is_cjk_script(c) && c.is_alphanumeric()
}

/// Is the scalar value `v` a variation selector?
pub open spec fn selector(v: u32) -> bool {
    0xFE00 <= v <= 0xFE0F || 0xE0100 <= v <= 0xE01EF
}

/// Is `c` a variation selector?
pub fn is_variation_selector(c: char) -> (found: bool)
    ensures
        found == selector(c as u32),
{
    let v = c as u32;
    (0xFE00 <= v && v <= 0xFE0F) || (0xE0100 <= v && v <= 0xE01EF)
}

/// Does character `i` belong to a CJK segment? It is CJK itself, or a variation
/// selector right after a character that does.
pub open spec fn covered(text: Seq<char>, i: int) -> bool
    decreases i,
{
    0 <= i < text.len() && (in_blocks(text[i] as u32) || (selector(text[i] as u32) && i > 0
        && covered(text, i - 1)))
}

/// The maximal runs of covered characters among the first `n`, as byte ranges.
pub open spec fn segments(text: Seq<char>, n: int) -> Seq<Range<usize>>
    decreases n,
{
    if n <= 0 {
        Seq::empty()
    } else {
        let before = segments(text, n - 1);
        let start = byte_offset(text, n - 1) as usize;
        let end = byte_offset(text, n) as usize;
        if !covered(text, n - 1) {
            before
        } else if n >= 2 && covered(text, n - 2) {
            before.drop_last().push(Range { start: before.last().start, end })
        } else {
            before.push(Range { start, end })
        }
    }
}

/// The facts that a run of segments of the first `n` characters keeps.
spec fn segments_hold(text: Seq<char>, n: int) -> bool {
    let segs = segments(text, n);
    &&& forall|k: int| 0 <= k < segs.len() ==> (#[trigger] segs[k]).start < segs[k].end <= byte_offset(text, n)
    &&& forall|j: int, k: int| 0 <= j < k < segs.len() ==> (#[trigger] segs[j]).end < (#[trigger] segs[k]).start
    &&& n >= 1 && covered(text, n - 1) <==> segs.len() > 0 && segs.last().end == byte_offset(text, n)
}

proof fn lemma_segments(text: Seq<char>, n: int)
    requires
        0 <= n <= text.len(),
        bytes_of(text).len() <= usize::MAX,
    ensures
        segments_hold(text, n),
    decreases n,
{
    assert(text.take(0) =~= Seq::empty());
    if n > 0 {
        lemma_segments(text, n - 1);
        lemma_byte_offset_step(text, n - 1);
        if n >= 2 {
            lemma_byte_offset_step(text, n - 2);
        }
        let before = segments(text, n - 1);
        let segs = segments(text, n);
        assert(char_width(text[n - 1]) >= 1);
        assert forall|k: int| 0 <= k < segs.len() implies (#[trigger] segs[k]).start < segs[k].end
            <= byte_offset(text, n) by {
            if k < before.len() {
                assert(before[k].start < before[k].end <= byte_offset(text, n - 1));
            }
        }
        assert forall|j: int, k: int| 0 <= j < k < segs.len() implies (#[trigger] segs[j]).end < (
        #[trigger] segs[k]).start by {
            assert(before[j].start < before[j].end <= byte_offset(text, n - 1));
            if k < before.len() {
                assert(before[j].end < before[k].start);
            }
        }
        if segs.len() > 0 && !covered(text, n - 1) {
            assert(before[before.len() - 1].end <= byte_offset(text, n - 1));
        }
    }
}

/// The maximal CJK sub-ranges of `text`, as byte ranges. A segment runs
/// through the variation selectors attached to its characters.
pub fn cjk_segments(text: &str) -> (ranges: Vec<Range<usize>>)
    ensures
        ranges@ == segments(text@, text@.len() as int),
{
    let chars = chars_of(text);
    let size: usize = text.as_bytes().len();
    let mut out: Vec<Range<usize>> = Vec::new();
    let mut offset: usize = 0;
    let mut attached = false;
    let mut i: usize = 0;
    assert(text@.take(0) =~= Seq::empty());
    while i < chars.len()
        invariant
            i <= chars@.len(),
            chars@ == text@,
            size == bytes_of(text@).len(),
            offset == byte_offset(text@, i as int),
            attached == (i >= 1 && covered(text@, i - 1)),
            out@ == segments(text@, i as int),
        decreases chars@.len() - i,
    {
        let c = chars[i];
        proof {
            lemma_byte_offset_step(text@, i as int);
            lemma_segments(text@, i as int);
        }
        let end: usize = offset + utf8_len(c);
        let joins = is_cjk_script(c) || (attached && is_variation_selector(c));
        if joins {
            if attached {
                let last = out.pop().unwrap();
                out.push(last.start..end);
            } else {
                out.push(offset..end);
            }
        }
        attached = joins;
        offset = end;
        i = i + 1;
    }
    out
}

// ---------------------------------------------------------------------------
// Laws
// ---------------------------------------------------------------------------

/// The blocks are in order, and no two of them share a value.
pub proof fn blocks_are_sorted_and_disjoint(i: int, j: int)
    requires
        0 <= i < j < CJK_BLOCKS@.len(),
    ensures
        CJK_BLOCKS@[i].0 <= CJK_BLOCKS@[i].1 < CJK_BLOCKS@[j].0 <= CJK_BLOCKS@[j].1,
{
}

/// Ideographs, syllables, kana, the marks that stand between them and their wide
/// forms are CJK script: the ranges below, and nothing else.
pub proof fn cjk_scripts_are_in_the_blocks(v: u32)
    ensures
        in_blocks(v) <==> (0x1100 <= v <= 0x11FF || 0x2E80 <= v <= 0x2FDF || 0x2FF0 <= v <= 0x4DBF
            || 0x4E00 <= v <= 0x9FFF || 0xA960 <= v <= 0xA97F || 0xAC00 <= v <= 0xD7FF || 0xF900
            <= v <= 0xFAFF || 0xFE10 <= v <= 0xFE1F || 0xFE30 <= v <= 0xFE6F || 0xFF00 <= v
            <= 0xFFEF || 0x16FE0 <= v <= 0x16FFF || 0x1AFF0 <= v <= 0x1B16F || 0x20000 <= v
            <= 0x2A6DF || 0x2A700 <= v <= 0x2EE5F || 0x2F800 <= v <= 0x2FA1F || 0x30000 <= v
            <= 0x3347F),
{
    assert(CJK_BLOCKS@[0] == (0x1100u32, 0x11FFu32));
    assert(CJK_BLOCKS@[1] == (0x2E80u32, 0x2EFFu32));
    assert(CJK_BLOCKS@[2] == (0x2F00u32, 0x2FDFu32));
    assert(CJK_BLOCKS@[3] == (0x2FF0u32, 0x2FFFu32));
    assert(CJK_BLOCKS@[4] == (0x3000u32, 0x303Fu32));
    assert(CJK_BLOCKS@[5] == (0x3040u32, 0x309Fu32));
    assert(CJK_BLOCKS@[6] == (0x30A0u32, 0x30FFu32));
    assert(CJK_BLOCKS@[7] == (0x3100u32, 0x312Fu32));
    assert(CJK_BLOCKS@[8] == (0x3130u32, 0x318Fu32));
    assert(CJK_BLOCKS@[9] == (0x3190u32, 0x319Fu32));
    assert(CJK_BLOCKS@[10] == (0x31A0u32, 0x31BFu32));
    assert(CJK_BLOCKS@[11] == (0x31C0u32, 0x31EFu32));
    assert(CJK_BLOCKS@[12] == (0x31F0u32, 0x31FFu32));
    assert(CJK_BLOCKS@[13] == (0x3200u32, 0x32FFu32));
    assert(CJK_BLOCKS@[14] == (0x3300u32, 0x33FFu32));
    assert(CJK_BLOCKS@[15] == (0x3400u32, 0x4DBFu32));
    assert(CJK_BLOCKS@[16] == (0x4E00u32, 0x9FFFu32));
    assert(CJK_BLOCKS@[17] == (0xA960u32, 0xA97Fu32));
    assert(CJK_BLOCKS@[18] == (0xAC00u32, 0xD7AFu32));
    assert(CJK_BLOCKS@[19] == (0xD7B0u32, 0xD7FFu32));
    assert(CJK_BLOCKS@[20] == (0xF900u32, 0xFAFFu32));
    assert(CJK_BLOCKS@[21] == (0xFE10u32, 0xFE1Fu32));
    assert(CJK_BLOCKS@[22] == (0xFE30u32, 0xFE4Fu32));
    assert(CJK_BLOCKS@[23] == (0xFE50u32, 0xFE6Fu32));
    assert(CJK_BLOCKS@[24] == (0xFF00u32, 0xFFEFu32));
    assert(CJK_BLOCKS@[25] == (0x16FE0u32, 0x16FFFu32));
    assert(CJK_BLOCKS@[26] == (0x1AFF0u32, 0x1AFFFu32));
    assert(CJK_BLOCKS@[27] == (0x1B000u32, 0x1B0FFu32));
    assert(CJK_BLOCKS@[28] == (0x1B100u32, 0x1B12Fu32));
    assert(CJK_BLOCKS@[29] == (0x1B130u32, 0x1B16Fu32));
    assert(CJK_BLOCKS@[30] == (0x20000u32, 0x2A6DFu32));
    assert(CJK_BLOCKS@[31] == (0x2A700u32, 0x2B73Fu32));
    assert(CJK_BLOCKS@[32] == (0x2B740u32, 0x2B81Fu32));
    assert(CJK_BLOCKS@[33] == (0x2B820u32, 0x2CEAFu32));
    assert(CJK_BLOCKS@[34] == (0x2CEB0u32, 0x2EBEFu32));
    assert(CJK_BLOCKS@[35] == (0x2EBF0u32, 0x2EE5Fu32));
    assert(CJK_BLOCKS@[36] == (0x2F800u32, 0x2FA1Fu32));
    assert(CJK_BLOCKS@[37] == (0x30000u32, 0x3134Fu32));
    assert(CJK_BLOCKS@[38] == (0x31350u32, 0x323AFu32));
    assert(CJK_BLOCKS@[39] == (0x323B0u32, 0x3347Fu32));
}

/// A variation selector is of no CJK block, so it takes no dot.
pub proof fn selectors_are_no_cjk_script(v: u32)
    requires
        selector(v),
    ensures
        !in_blocks(v),
{
}

/// The segments of a text are not empty, in order, and no two of them touch.
pub proof fn segments_are_apart(text: Seq<char>)
    requires
        bytes_of(text).len() <= usize::MAX,
    ensures
        ({
            let segs = segments(text, text.len() as int);
            &&& forall|k: int|
                0 <= k < segs.len() ==> (#[trigger] segs[k]).start < segs[k].end <= bytes_of(
                    text,
                ).len()
            &&& forall|j: int, k: int|
                0 <= j < k < segs.len() ==> (#[trigger] segs[j]).end < (#[trigger] segs[k]).start
        }),
{
    lemma_segments(text, text.len() as int);
    assert(text.take(text.len() as int) =~= text);
}

/// Does some range hold the offset `p`?
pub open spec fn some_range_holds(ranges: Seq<Range<usize>>, p: int) -> bool {
    exists|k: int| 0 <= k < ranges.len() && (#[trigger] ranges[k]).start <= p < ranges[k].end
}

proof fn lemma_offsets_increase(text: Seq<char>, i: int, n: int)
    requires
        0 <= i < n <= text.len(),
    ensures
        byte_offset(text, i) < byte_offset(text, n),
    decreases n,
{
    lemma_byte_offset_step(text, n - 1);
    if i < n - 1 {
        lemma_offsets_increase(text, i, n - 1);
    }
}

proof fn lemma_coverage(text: Seq<char>, n: int, i: int)
    requires
        0 <= i < n <= text.len(),
        bytes_of(text).len() <= usize::MAX,
    ensures
        covered(text, i) <==> some_range_holds(segments(text, n), byte_offset(text, i)),
    decreases n,
{
    lemma_segments(text, n);
    lemma_segments(text, n - 1);
    lemma_byte_offset_step(text, n - 1);
    let before = segments(text, n - 1);
    let segs = segments(text, n);
    let at = byte_offset(text, i);
    if i < n - 1 {
        lemma_coverage(text, n - 1, i);
        lemma_offsets_increase(text, i, n - 1);
        if some_range_holds(before, at) {
            let k = choose|k: int| 0 <= k < before.len() && (#[trigger] before[k]).start <= at < before[k].end;
            assert(segs[k].start <= at < segs[k].end);
        }
        if some_range_holds(segs, at) {
            let k = choose|k: int| 0 <= k < segs.len() && (#[trigger] segs[k]).start <= at < segs[k].end;
            assert(before[k].start <= at < before[k].end);
        }
    } else if covered(text, i) {
        let k = segs.len() - 1;
        assert(segs[k].start <= at < segs[k].end);
    } else if some_range_holds(segs, at) {
        let k = choose|k: int| 0 <= k < segs.len() && (#[trigger] segs[k]).start <= at < segs[k].end;
        assert(before[k].end <= byte_offset(text, n - 1));
    }
}

/// The segments of a text hold exactly its CJK characters and the variation
/// selectors attached to them.
pub proof fn segments_hold_the_covered_characters(text: Seq<char>, i: int)
    requires
        0 <= i < text.len(),
        bytes_of(text).len() <= usize::MAX,
    ensures
        covered(text, i) <==> some_range_holds(
            segments(text, text.len() as int),
            byte_offset(text, i),
        ),
{
    lemma_coverage(text, text.len() as int, i);
}

/// The segments hold the characters of a CJK script, and a variation selector
/// where it stands behind one.
pub proof fn scripts_and_their_selectors_are_covered(text: Seq<char>, i: int)
    requires
        0 <= i < text.len(),
    ensures
        in_blocks(text[i] as u32) ==> covered(text, i),
        0xFE00 <= text[i] as u32 <= 0xFE0F || 0xE0100 <= text[i] as u32 <= 0xE01EF ==> (covered(
            text,
            i,
        ) <==> i > 0 && covered(text, i - 1)),
        covered(text, i) ==> in_blocks(text[i] as u32) || 0xFE00 <= text[i] as u32 <= 0xFE0F
            || 0xE0100 <= text[i] as u32 <= 0xE01EF,
{
    if selector(text[i] as u32) {
        selectors_are_no_cjk_script(text[i] as u32);
    }
}

} // verus!
