//! Applying the edits of a toggle, and finding positions again after them.

use core::ops::Range;

use vstd::prelude::*;

use crate::analysis::edits::{disjoint, edits_view, well_ranged, Edit, SourceEdit};
use crate::analysis::nesting::{spliced, spliced_from};
use crate::state::Selection;
use crate::strings::{byte_offset, capped, lemma_bytes_concat};
use crate::text::bytes_of;
use crate::words::{index_at, lemma_index_of_offset, lemma_offsets_grow, slice, Glyphs};

verus! {

/// The edits without those that repeat the one before them.
pub open spec fn deduped(edits: Seq<Edit>) -> Seq<Edit>
    decreases edits.len(),
{
    if edits.len() == 0 {
        edits
    } else {
        let kept = deduped(edits.drop_last());
        if kept.len() > 0 && kept.last() == edits.last() {
            kept
        } else {
            kept.push(edits.last())
        }
    }
}

/// Is an edit inverted, or does one overlap the next?
pub open spec fn conflicting(edits: Seq<Edit>) -> bool {
    ||| exists|i: int| 0 <= i < edits.len() && !well_ranged(#[trigger] edits[i])
    ||| exists|i: int, j: int|
        0 <= i < edits.len() && j == i + 1 && j < edits.len() && (#[trigger] edits[i]).range.end > (
        #[trigger] edits[j]).range.start
}

fn same_edit(a: &SourceEdit, c: &SourceEdit) -> (same: bool)
    ensures
        same == (a@ == c@),
{
    a.range.start == c.range.start && a.range.end == c.range.end && a.replacement == c.replacement
}

/// The edits without those that repeat the one before them.
pub fn dedup_edits(edits: &Vec<SourceEdit>) -> (kept: Vec<SourceEdit>)
    ensures
        edits_view(kept@) == deduped(edits_view(edits@)),
{
    let ghost all = edits_view(edits@);
    let mut kept: Vec<SourceEdit> = Vec::new();
    let mut i: usize = 0;
    assert(edits_view(kept@) =~= deduped(all.take(0)));
    while i < edits.len()
        invariant
            i <= edits@.len(),
            all == edits_view(edits@),
            edits_view(kept@) == deduped(all.take(i as int)),
        decreases edits@.len() - i,
    {
        let ghost before = edits_view(kept@);
        proof {
            assert(all.take(i + 1).drop_last() =~= all.take(i as int));
            assert(all.take(i + 1).last() == all[i as int]);
        }
        let count: usize = kept.len();
        if count == 0 || !same_edit(&kept[count - 1], &edits[i]) {
            kept.push(edits[i].clone());
            assert(edits_view(kept@) =~= before.push(all[i as int]));
        }
        i = i + 1;
    }
    assert(all.take(i as int) =~= all);
    kept
}

/// Is an edit inverted, or does one overlap the next?
pub fn is_conflicting(edits: &Vec<SourceEdit>) -> (found: bool)
    ensures
        found == conflicting(edits_view(edits@)),
        !found ==> disjoint(edits_view(edits@)),
{
    let ghost all = edits_view(edits@);
    let mut i: usize = 0;
    while i < edits.len()
        invariant
            i <= edits@.len(),
            all == edits_view(edits@),
            forall|j: int| 0 <= j < i ==> well_ranged(#[trigger] all[j]),
            forall|j: int, k: int|
                0 <= j < k < i ==> (#[trigger] all[j]).range.end <= (#[trigger] all[k]).range.start,
        decreases edits@.len() - i,
    {
        if edits[i].range.start > edits[i].range.end {
            assert(!well_ranged(all[i as int]));
            return true;
        }
        if i > 0 && edits[i - 1].range.end > edits[i].range.start {
            assert(all[i - 1].range.end > all[i as int].range.start);
            return true;
        }
        proof {
            assert forall|j: int, k: int| 0 <= j < k < i + 1 implies (#[trigger] all[j]).range.end
                <= (#[trigger] all[k]).range.start by {
                if k == i && j < i - 1 {
                    assert(all[j].range.end <= all[i - 1].range.start);
                    assert(well_ranged(all[i - 1]));
                }
            }
        }
        i = i + 1;
    }
    false
}

// ---------------------------------------------------------------------------
// The text
// ---------------------------------------------------------------------------

/// The text from byte `last` on with the edits from `k` on.
pub open spec fn applied_from(text: Seq<char>, edits: Seq<Edit>, k: int, last: int) -> Seq<char>
    decreases edits.len() - k,
{
    if k >= edits.len() {
        slice(text, last, bytes_of(text).len() as int)
    } else {
        slice(text, last, edits[k].range.start as int) + edits[k].text + applied_from(
            text,
            edits,
            k + 1,
            edits[k].range.end as int,
        )
    }
}

/// The text with the edits.
pub open spec fn applied(text: Seq<char>, edits: Seq<Edit>) -> Seq<char> {
    applied_from(text, edits, 0, 0)
}

/// The text with the edits.
pub fn apply_edits(glyphs: &Glyphs, edits: &Vec<SourceEdit>) -> (out: String)
    ensures
        out@ == applied(glyphs@, edits_view(edits@)),
{
    let ghost all = edits_view(edits@);
    let mut out = String::new();
    let mut last: usize = 0;
    let mut k: usize = 0;
    assert(out@ + applied_from(glyphs@, all, 0, 0) =~= applied(glyphs@, all));
    while k < edits.len()
        invariant
            k <= edits@.len(),
            all == edits_view(edits@),
            out@ + applied_from(glyphs@, all, k as int, last as int) == applied(glyphs@, all),
        decreases edits@.len() - k,
    {
        let ghost before = out@;
        let e = &edits[k];
        assert(all[k as int] == e@);
        glyphs.push_text(&mut out, last, e.range.start);
        out.push_str(e.replacement.as_str());
        proof {
            let rest = applied_from(glyphs@, all, k + 1, e.range.end as int);
            assert(before + (slice(glyphs@, last as int, e.range.start as int) + e@.text + rest)
                =~= out@ + rest);
        }
        last = e.range.end;
        k = k + 1;
    }
    glyphs.push_text(&mut out, last, glyphs.size());
    out
}

// ---------------------------------------------------------------------------
// Positions
// ---------------------------------------------------------------------------

/// Where the edit changes the length of the text, and by how much.
pub open spec fn growth(e: Edit) -> int {
    bytes_of(e.text).len() - (e.range.end - e.range.start)
}

/// Does the edit lie before the position? `after` tells whether an insertion at
/// the position does.
pub open spec fn lies_before(e: Edit, offset: usize, after: bool) -> bool {
    e.range.end < offset || (e.range.end == offset && (e.range.start != e.range.end || after))
}

/// The position after the edits from `k` on; those before moved it by `shift`.
/// A position inside of replaced bytes goes to the end of what replaces them.
pub open spec fn moved_from(offset: usize, edits: Seq<Edit>, k: int, shift: int, after: bool) -> int
    decreases edits.len() - k,
{
    if k >= edits.len() {
        offset + shift
    } else if lies_before(edits[k], offset, after) {
        moved_from(offset, edits, k + 1, shift + growth(edits[k]), after)
    } else if edits[k].range.start < offset < edits[k].range.end {
        edits[k].range.start + shift + bytes_of(edits[k].text).len()
    } else {
        offset + shift
    }
}

/// The position after the edits.
pub open spec fn moved(offset: usize, edits: Seq<Edit>, after: bool) -> usize {
    let to = moved_from(offset, edits, 0, 0, after);
    if to < 0 {
        0
    } else {
        capped(to)
    }
}

/// The position after the edits.
pub fn map_offset(offset: usize, edits: &Vec<SourceEdit>, after_insertions: bool) -> (to: usize)
    requires
        disjoint(edits_view(edits@)),
    ensures
        to == moved(offset, edits_view(edits@), after_insertions),
{
    let ghost all = edits_view(edits@);
    let ghost mut total: int = 0;
    let mut added: usize = 0;
    let mut removed: usize = 0;
    let mut k: usize = 0;
    while k < edits.len()
        invariant_except_break
            moved_from(offset, all, 0, 0, after_insertions) == moved_from(
                offset,
                all,
                k as int,
                total - removed,
                after_insertions,
            ),
        invariant
            k <= edits@.len(),
            all == edits_view(edits@),
            disjoint(all),
            total >= 0,
            added == capped(total),
            removed <= offset,
            k > 0 ==> removed <= all[k - 1].range.end,
            k == 0 ==> removed == 0,
        ensures
            moved_from(offset, all, 0, 0, after_insertions) == offset + total - removed,
        decreases edits@.len() - k,
    {
        let e = &edits[k];
        assert(all[k as int] == e@);
        assert(well_ranged(all[k as int]));
        proof {
            if k > 0 {
                assert(all[k - 1].range.end <= all[k as int].range.start);
            }
        }
        let size: usize = e.replacement.as_str().as_bytes().len();
        if e.range.end < offset || (e.range.end == offset && (e.range.start != e.range.end
            || after_insertions)) {
            proof {
                total = total + size;
            }
            added = added.saturating_add(size);
            removed = removed + (e.range.end - e.range.start);
        } else if e.range.start < offset && offset < e.range.end {
            return (e.range.start - removed).saturating_add(added).saturating_add(size);
        } else {
            break ;
        }
        k = k + 1;
    }
    (offset - removed).saturating_add(added)
}

/// The selection after the edits: a caret goes after what is inserted at it,
/// and a selection keeps its text.
pub open spec fn moved_selection(selection: Selection, edits: Seq<Edit>) -> Selection {
    match selection {
        Selection::Cursor(offset) => Selection::Cursor(moved(offset, edits, true)),
        Selection::Range { anchor, head } => if anchor <= head {
            Selection::Range { anchor: moved(anchor, edits, true), head: moved(head, edits, false) }
        } else {
            Selection::Range { anchor: moved(anchor, edits, false), head: moved(head, edits, true) }
        },
    }
}

/// The selection after the edits.
pub fn remap_selection(selection: Selection, edits: &Vec<SourceEdit>) -> (to: Selection)
    requires
        disjoint(edits_view(edits@)),
    ensures
        to == moved_selection(selection, edits_view(edits@)),
{
    match selection {
        Selection::Cursor(offset) => Selection::Cursor(map_offset(offset, edits, true)),
        Selection::Range { anchor, head } => if anchor <= head {
            Selection::Range {
                anchor: map_offset(anchor, edits, true),
                head: map_offset(head, edits, false),
            }
        } else {
            Selection::Range {
                anchor: map_offset(anchor, edits, false),
                head: map_offset(head, edits, true),
            }
        },
    }
}

// ---------------------------------------------------------------------------
// Laws
// ---------------------------------------------------------------------------

/// Does a character begin at byte `p`, or the text end there?
pub open spec fn at_character(text: Seq<char>, p: int) -> bool {
    0 <= index_at(text, p) <= text.len() && byte_offset(text, index_at(text, p)) == p
}

/// Do the edits lie in the text, from character to character?
pub open spec fn edits_on_characters(text: Seq<char>, edits: Seq<Edit>) -> bool {
    forall|k: int|
        0 <= k < edits.len() ==> at_character(text, (#[trigger] edits[k]).range.start as int)
            && at_character(text, edits[k].range.end as int)
}

/// The characters between two offsets have the bytes between them.
pub proof fn slices_keep_the_bytes(text: Seq<char>, s: int, e: int)
    requires
        at_character(text, s),
        at_character(text, e),
        s <= e,
    ensures
        bytes_of(slice(text, s, e)) == bytes_of(text).subrange(s, e),
        0 <= s <= e <= bytes_of(text).len(),
{
    let a = index_at(text, s);
    let z = index_at(text, e);
    if a > z {
        lemma_offsets_grow(text, z, a);
    }
    lemma_offsets_grow(text, z, z);
    assert(text.take(z) =~= text.take(a) + slice(text, s, e));
    lemma_bytes_concat(text.take(a), slice(text, s, e));
    assert(text =~= text.take(z) + text.skip(z));
    lemma_bytes_concat(text.take(z), text.skip(z));
    assert(bytes_of(text).subrange(s, e) =~= bytes_of(slice(text, s, e)));
}

proof fn lemma_text_end(text: Seq<char>)
    ensures
        at_character(text, 0),
        at_character(text, bytes_of(text).len() as int),
{
    assert(text.take(0) =~= Seq::empty());
    assert(byte_offset(text, 0) == 0);
    assert(text.take(text.len() as int) =~= text);
    lemma_index_of_offset(text, 0);
    lemma_index_of_offset(text, text.len() as int);
}

proof fn lemma_applied_from(text: Seq<char>, edits: Seq<Edit>, k: int, last: int)
    requires
        0 <= k,
        disjoint(edits),
        edits_on_characters(text, edits),
        at_character(text, last),
        k < edits.len() ==> last <= edits[k].range.start,
        last <= bytes_of(text).len(),
    ensures
        bytes_of(applied_from(text, edits, k, last)) == spliced_from(
            bytes_of(text),
            edits,
            k,
            last,
        ),
    decreases edits.len() - k,
{
    let b = bytes_of(text);
    lemma_text_end(text);
    if k >= edits.len() {
        slices_keep_the_bytes(text, last, b.len() as int);
        assert(b.subrange(last, b.len() as int) =~= b.skip(last));
    } else {
        let e = edits[k];
        assert(well_ranged(edits[k]));
        slices_keep_the_bytes(text, last, e.range.start as int);
        slices_keep_the_bytes(text, e.range.start as int, e.range.end as int);
        if k + 1 < edits.len() {
            assert(edits[k].range.end <= edits[k + 1].range.start);
        }
        lemma_applied_from(text, edits, k + 1, e.range.end as int);
        let head = slice(text, last, e.range.start as int);
        let rest = applied_from(text, edits, k + 1, e.range.end as int);
        lemma_bytes_concat(head + e.text, rest);
        lemma_bytes_concat(head, e.text);
    }
}

/// Editing the characters of a text is editing its bytes.
pub proof fn edits_apply_to_the_bytes(text: Seq<char>, edits: Seq<Edit>)
    requires
        disjoint(edits),
        edits_on_characters(text, edits),
    ensures
        bytes_of(applied(text, edits)) == spliced(bytes_of(text), edits),
{
    lemma_text_end(text);
    lemma_applied_from(text, edits, 0, 0);
}

proof fn lemma_moved_from(
    text: Seq<char>,
    edits: Seq<Edit>,
    k: int,
    last: int,
    shift: int,
    p: usize,
)
    requires
        0 <= k,
        disjoint(edits),
        edits_on_characters(text, edits),
        at_character(text, last),
        k < edits.len() ==> last <= edits[k].range.start,
        last <= p < bytes_of(text).len(),
        forall|j: int|
            k <= j < edits.len() ==> !((#[trigger] edits[j]).range.start <= p
                < edits[j].range.end),
    ensures
        ({
            let d = moved_from(p, edits, k, shift, true) - last - shift;
            let out = bytes_of(applied_from(text, edits, k, last));
            0 <= d < out.len() && out[d] == bytes_of(text)[p as int]
        }),
    decreases edits.len() - k,
{
    let size = bytes_of(text).len() as int;
    lemma_text_end(text);
    if k >= edits.len() {
        slices_keep_the_bytes(text, last, size);
    } else {
        let e = edits[k];
        let s = e.range.start as int;
        let end = e.range.end as int;
        assert(well_ranged(edits[k]));
        slices_keep_the_bytes(text, last, s);
        let rest = applied_from(text, edits, k + 1, end);
        let head = slice(text, last, s);
        lemma_bytes_concat(head + e.text, rest);
        lemma_bytes_concat(head, e.text);
        let out = bytes_of(applied_from(text, edits, k, last));
        assert(out == bytes_of(head) + bytes_of(e.text) + bytes_of(rest));
        if p < s {
            assert(out[p - last] == bytes_of(head)[p - last]);
        } else {
            assert(!(edits[k].range.start <= p < edits[k].range.end));
            assert(end <= p);
            assert(lies_before(e, p, true));
            if k + 1 < edits.len() {
                assert(edits[k].range.end <= edits[k + 1].range.start);
            }
            lemma_moved_from(text, edits, k + 1, end, shift + growth(e), p);
            let inner = moved_from(p, edits, k + 1, shift + growth(e), true) - end - shift - growth(
                e,
            );
            let before = bytes_of(head).len() + bytes_of(e.text).len();
            assert(before == s - last + bytes_of(e.text).len());
            assert(moved_from(p, edits, k, shift, true) - last - shift == inner + before);
            assert(out[inner + before] == bytes_of(rest)[inner]);
        }
    }
}

/// Every byte that no edit replaces is found again at its new position.
pub proof fn moved_positions_keep_their_bytes(text: Seq<char>, edits: Seq<Edit>, p: usize)
    requires
        disjoint(edits),
        edits_on_characters(text, edits),
        bytes_of(applied(text, edits)).len() <= usize::MAX,
        p < bytes_of(text).len(),
        forall|j: int|
            0 <= j < edits.len() ==> !((#[trigger] edits[j]).range.start <= p
                < edits[j].range.end),
    ensures
        moved(p, edits, true) < bytes_of(applied(text, edits)).len(),
        bytes_of(applied(text, edits))[moved(p, edits, true) as int] == bytes_of(text)[p as int],
{
    lemma_text_end(text);
    lemma_moved_from(text, edits, 0, 0, 0, p);
}

} // verus!
