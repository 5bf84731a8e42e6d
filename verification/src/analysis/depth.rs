//! Tab and Shift+Tab on list items.

use core::ops::Range;

use vstd::prelude::*;

use super::chain::{chain_of, enclosing_containers_at, EnclosingContainer, ListItemContext};
use super::edits::{
    all_well_ranged, disjoint, edit, edits_view, in_order, resolved, well_ranged, Edit, SourceEdit,
    SourceEditList,
};
use super::insertions::{scope_break, scope_break_text, scope_of, scope_prefix_at};
use super::lists::{previous_sibling_marker_width, sibling_width};
use super::nesting::spliced;
use super::pairs::past_spaces;
use super::prefix::{
    chain_continuation_prefix, innermost_li_immediate_parent_is_list_item, item_in_item, last_item,
    lemma_last_item_bounds, markers_valid, prefix_of, prefix_width, prefix_width_is_its_byte_length,
};
use super::tabs::{lemma_shift_tab_takes_back, lemma_tab_nests};
use crate::bullets::{is_word, item_below, two_items};
use crate::parser::syntax_tree;
use crate::strings::{push_spaces, spaces};
use crate::text::{
    bytes_of, lemma_line_end_bounds, lemma_line_start_bounds, line_end, line_start, line_start_offset, next_line_end, spans,
    NL, SPACE,
};

verus! {

// ---------------------------------------------------------------------------
// Lines of an item
// ---------------------------------------------------------------------------

/// The line starts after the newlines of `[s, p)` that lie before `end`.
pub open spec fn starts_between(b: Seq<u8>, s: int, p: int, end: int) -> Seq<usize>
    decreases p - s,
{
    if p <= s {
        Seq::empty()
    } else if b[p - 1] == NL && p < end {
        starts_between(b, s, p - 1, end).push(p as usize)
    } else {
        starts_between(b, s, p - 1, end)
    }
}

/// The start of the line that an item begins on, and of each further line of
/// it.
pub open spec fn item_lines(b: Seq<u8>, item: Range<usize>) -> Seq<usize> {
    seq![line_start(b, item.start as int) as usize] + starts_between(
        b,
        item.start as int,
        item.end as int,
        item.end as int,
    )
}

proof fn lemma_starts_bounds(b: Seq<u8>, s: int, p: int, end: int)
    requires
        0 <= s,
        p <= end <= b.len() <= usize::MAX,
    ensures
        forall|i: int|
            0 <= i < starts_between(b, s, p, end).len() ==> s < #[trigger] starts_between(
                b,
                s,
                p,
                end,
            )[i] <= p,
    decreases p - s,
{
    if p > s {
        lemma_starts_bounds(b, s, p - 1, end);
        let before = starts_between(b, s, p - 1, end);
        let all = starts_between(b, s, p, end);
        assert forall|i: int| 0 <= i < all.len() implies s < #[trigger] all[i] <= p by {
            if i < before.len() {
                assert(before[i] == all[i]);
            }
        }
    }
}

/// The start of every line of the item, its marker line first.
pub fn item_line_starts(bytes: &[u8], item_range: &Range<usize>) -> (starts: Vec<usize>)
    requires
        item_range.start <= item_range.end <= bytes@.len(),
    ensures
        starts@ == item_lines(bytes@, *item_range),
        starts@.len() > 0,
        forall|i: int| 0 <= i < starts@.len() ==> #[trigger] starts@[i] <= bytes@.len(),
{
    let size: usize = bytes.len();
    let first = line_start_offset(bytes, item_range.start);
    let mut starts: Vec<usize> = Vec::new();
    starts.push(first);
    let mut p: usize = item_range.start;
    while p < item_range.end
        invariant
            item_range.start <= p <= item_range.end <= bytes@.len() == size,
            first == line_start(bytes@, item_range.start as int),
            first <= bytes@.len(),
            starts@ =~= seq![first] + starts_between(
                bytes@,
                item_range.start as int,
                p as int,
                item_range.end as int,
            ),
        decreases item_range.end - p,
    {
        if bytes[p] == NL && p + 1 < item_range.end {
            starts.push(p + 1);
        }
        p = p + 1;
    }
    proof {
        lemma_starts_bounds(
            bytes@,
            item_range.start as int,
            item_range.end as int,
            item_range.end as int,
        );
    }
    starts
}

/// The bytes to strip from the line at `start`: at most `most` spaces after
/// its first `skip` bytes, none of them past the end of the line.
pub open spec fn strip(b: Seq<u8>, start: int, skip: int, most: nat) -> (int, int) {
    let from = start + skip;
    let end = line_end(b, start, b.len() as int);
    if from > end {
        (from, from)
    } else {
        (from, spaces_within(b, from, end, most))
    }
}

/// Past at most `n` spaces from `q`, no further than `limit`.
pub open spec fn spaces_within(b: Seq<u8>, q: int, limit: int, n: nat) -> int
    decreases n,
{
    if n == 0 || q >= limit || b[q] != SPACE {
        q
    } else {
        spaces_within(b, q + 1, limit, (n - 1) as nat)
    }
}

pub proof fn lemma_spaces_within_bounds(b: Seq<u8>, q: int, limit: int, n: nat)
    requires
        q <= limit,
    ensures
        q <= spaces_within(b, q, limit, n) <= limit,
        spaces_within(b, q, limit, n) <= q + n,
        forall|i: int| q <= i < spaces_within(b, q, limit, n) ==> b[i] == SPACE,
    decreases n,
{
    if n == 0 || q >= limit || b[q] != SPACE {
    } else {
        lemma_spaces_within_bounds(b, q + 1, limit, (n - 1) as nat);
    }
}

/// The range to strip from one line of a list item (Shift+Tab); its start is
/// where Tab inserts. It never leaves the line, and is empty where the line is
/// shorter than `outer_skip` or holds no spaces there.
pub fn list_item_strip_range(
    bytes: &[u8],
    line_start: usize,
    outer_skip: usize,
    max_strip: usize,
) -> (range: Range<usize>)
    requires
        line_start + outer_skip <= usize::MAX,
    ensures
        spans(
            range,
            strip(bytes@, line_start as int, outer_skip as int, max_strip as nat).0,
            strip(bytes@, line_start as int, outer_skip as int, max_strip as nat).1,
        ),
        range.start <= range.end,
{
    let line_limit = next_line_end(bytes, line_start, bytes.len());
    let start: usize = line_start + outer_skip;
    if start > line_limit {
        return start..start;
    }
    let mut end: usize = start;
    let mut removed: usize = 0;
    while end < line_limit && removed < max_strip && bytes[end] == SPACE
        invariant
            start <= end <= line_limit,
            line_limit <= bytes@.len() || end == line_limit,
            removed <= max_strip,
            spaces_within(bytes@, start as int, line_limit as int, max_strip as nat)
                == spaces_within(
                bytes@,
                end as int,
                line_limit as int,
                (max_strip - removed) as nat,
            ),
        decreases line_limit - end,
    {
        end = end + 1;
        removed = removed + 1;
    }
    start..end
}

// ---------------------------------------------------------------------------
// Tab
// ---------------------------------------------------------------------------

/// `width`, but no more than leaves room for the offsets of a buffer of `len`
/// bytes.
pub open spec fn fitting(width: nat, len: nat) -> int {
    if width + len <= usize::MAX {
        width as int
    } else {
        usize::MAX - len
    }
}

/// Insertions of `text` `skip` bytes into each line.
pub open spec fn inserts(lines: Seq<usize>, skip: int, text: Seq<char>) -> Seq<Edit> {
    Seq::new(lines.len(), |i: int| edit(lines[i] + skip, lines[i] + skip, text))
}

/// The edits that nest an item under the item before it: the width of that
/// item's marker in spaces on each line of the item, after the prefix of the
/// containers around the item, and for an ordered item the marker `1. `.
pub open spec fn indent_edits(text: Seq<char>, cursor: int) -> Option<Seq<Edit>> {
    let b = bytes_of(text);
    let chain = chain_of(text, cursor);
    match last_item(chain) {
        None => None,
        Some(i) => {
            let item = chain[i]->ListItem_0;
            match sibling_width(syntax_tree(text), item.item_range.start as int) {
                Some(width) if width > 0 => {
                    let skip = fitting(prefix_width(chain.take(i)), b.len());
                    let pads = inserts(item_lines(b, item.item_range), skip, spaces(width));
                    let all = if item.list_kind is Ordered {
                        pads.push(Edit { range: item.marker_range, text: seq!['1', '.', ' '] })
                    } else {
                        pads
                    };
                    Some(resolved(in_order(all)))
                },
                _ => None,
            }
        },
    }
}

/// Is `found` the list of edits `wanted`?
pub open spec fn same_edits(found: Option<Vec<SourceEdit>>, wanted: Option<Seq<Edit>>) -> bool {
    match found {
        Some(edits) => wanted == Some(edits_view(edits@)),
        None => wanted is None,
    }
}

/// Are there edits, and do they turn the document `from` into `to`?
pub open spec fn turn_into(
    found: Option<Vec<SourceEdit>>,
    from: Seq<char>,
    to: Seq<char>,
) -> bool {
    found matches Some(edits) && spliced(bytes_of(from), edits_view(edits@)) == bytes_of(to)
}

/// Byte width of the prefix of the first `end` containers, as far as it fits
/// beside a buffer of `len` bytes.
fn fitting_prefix_width(chain: &[EnclosingContainer], end: usize, len: usize) -> (width: usize)
    requires
        end <= chain@.len(),
        markers_valid(chain@),
    ensures
        width == fitting(prefix_width(chain@.take(end as int)), len as nat),
        width + len <= usize::MAX,
{
    let (outer, _) = chain.split_at(end);
    assert(outer@ =~= chain@.take(end as int));
    let prefix = chain_continuation_prefix(outer);
    proof {
        prefix_width_is_its_byte_length(outer@);
    }
    let width: usize = prefix.as_str().as_bytes().len();
    if width <= usize::MAX - len {
        width
    } else {
        usize::MAX - len
    }
}

fn last_item_index(chain: &[EnclosingContainer]) -> (found: Option<usize>)
    ensures
        match last_item(chain@) {
            Some(i) => found matches Some(k) && k == i && k < chain@.len(),
            None => found is None,
        },
{
    let mut i: usize = chain.len();
    assert(chain@.take(chain@.len() as int) =~= chain@);
    while i > 0
        invariant
            i <= chain@.len(),
            last_item(chain@.take(i as int)) == last_item(chain@),
        decreases i,
    {
        proof {
            assert(chain@.take(i as int).drop_last() =~= chain@.take(i - 1));
            assert(chain@.take(i as int).last() == chain@[i - 1]);
        }
        if let EnclosingContainer::ListItem(_) = chain[i - 1] {
            return Some(i - 1);
        }
        i = i - 1;
    }
    None
}

/// The edits for Tab at `cursor`: they nest the list item there under the item
/// before it. Nothing where there is no item, or none before it. At the end of a
/// list of two words they put the second below the first.
pub fn list_item_indent_edits(markdown: &str, cursor: usize) -> (result: Option<Vec<SourceEdit>>)
    ensures
        same_edits(result, indent_edits(markdown@, cursor as int)),
        result matches Some(edits) ==> disjoint(edits_view(edits@)),
        forall|first: Seq<char>, second: Seq<char>|
            is_word(first) && is_word(second) && markdown@ == #[trigger] two_items(first, second)
                && cursor == bytes_of(markdown@).len() ==> turn_into(
                result,
                markdown@,
                item_below(first, second),
            ),
{
    let bytes = markdown.as_bytes();
    let size: usize = bytes.len();
    let chain = enclosing_containers_at(markdown, cursor);
    proof {
        lemma_last_item_bounds(chain@);
        assert forall|first: Seq<char>, second: Seq<char>|
            is_word(first) && is_word(second) && markdown@ == #[trigger] two_items(
                first,
                second,
            ) && cursor == size implies (indent_edits(markdown@, cursor as int) matches Some(edits)
            && spliced(bytes@, edits) == bytes_of(item_below(first, second))) by {
            lemma_tab_nests(first, second);
        }
    }
    let pos = match last_item_index(chain.as_slice()) {
        Some(i) => i,
        None => {
            return None;
        },
    };
    let item = match &chain[pos] {
        EnclosingContainer::ListItem(ctx) => ctx,
        EnclosingContainer::BlockQuote { .. } => {
            return None;
        },
    };
    let width = match previous_sibling_marker_width(markdown, &item.item_range) {
        Some(w) => w,
        None => {
            return None;
        },
    };
    if width == 0 {
        return None;
    }
    let starts = item_line_starts(bytes, &item.item_range);
    let mut pad = String::new();
    push_spaces(&mut pad, width);
    assert(pad@ =~= spaces(width as nat));
    let skip = fitting_prefix_width(chain.as_slice(), pos, bytes.len());
    let mut edits = SourceEditList::new();
    let mut i: usize = 0;
    assert(edits@ =~= inserts(starts@.take(0), skip as int, pad@));
    while i < starts.len()
        invariant
            i <= starts@.len(),
            skip + bytes@.len() <= usize::MAX,
            pad@.len() > 0,
            forall|j: int| 0 <= j < starts@.len() ==> #[trigger] starts@[j] <= bytes@.len(),
            edits@ =~= inserts(starts@.take(i as int), skip as int, pad@),
        decreases starts@.len() - i,
    {
        let at = list_item_strip_range(bytes, starts[i], skip, 0).start;
        edits.push(SourceEdit { range: at..at, replacement: pad.clone() });
        i = i + 1;
    }
    assert(starts@.take(i as int) =~= starts@);
    let ghost pads = edits@;
    if item.is_ordered() {
        let mut marker = String::new();
        marker.push('1');
        marker.push('.');
        marker.push(' ');
        assert(marker@ =~= seq!['1', '.', ' ']);
        edits.push(
            SourceEdit {
                range: item.marker_range.start..item.marker_range.end,
                replacement: marker,
            },
        );
    }
    proof {
        assert forall|k: int| 0 <= k < edits@.len() implies well_ranged(#[trigger] edits@[k]) by {
            if k < pads.len() {
                assert(edits@[k] == pads[k]);
            }
        }
    }
    Some(edits.finish())
}

// ---------------------------------------------------------------------------
// Shift+Tab
// ---------------------------------------------------------------------------

/// Strips of at most `most` spaces at the start of each of the lines; lines
/// without any are left alone.
pub open spec fn leading_strips(b: Seq<u8>, lines: Seq<usize>, most: nat) -> Seq<Edit>
    decreases lines.len(),
{
    if lines.len() == 0 {
        Seq::empty()
    } else {
        let start = lines.last() as int;
        let end = past_spaces(b, start, most);
        let rest = leading_strips(b, lines.drop_last(), most);
        if end > start {
            rest.push(edit(start, end, Seq::empty()))
        } else {
            rest
        }
    }
}

/// Strips of at most `most` spaces `skip` bytes into each of the lines.
pub open spec fn inner_strips(b: Seq<u8>, lines: Seq<usize>, skip: int, most: nat) -> Seq<Edit>
    decreases lines.len(),
{
    if lines.len() == 0 {
        Seq::empty()
    } else {
        let range = strip(b, lines.last() as int, skip, most);
        let rest = inner_strips(b, lines.drop_last(), skip, most);
        if range.1 > range.0 {
            rest.push(edit(range.0, range.1, Seq::empty()))
        } else {
            rest
        }
    }
}

/// An item that no other item directly holds becomes a paragraph of the scope
/// around it: its marker goes, together with the newline before its line, in
/// favour of the paragraph break of that scope. Where no newline comes before
/// the line only the marker goes. The further lines lose their indent.
pub open spec fn unlisted(text: Seq<char>, item: ListItemContext) -> Seq<Edit> {
    let b = bytes_of(text);
    let start = line_start(b, item.marker_range.start as int);
    let first = if start > 0 {
        edit(
            start - 1,
            item.marker_range.end as int,
            scope_break(prefix_of(scope_of(text, item.marker_range.start as int))),
        )
    } else {
        Edit { range: item.marker_range, text: Seq::empty() }
    };
    seq![first] + leading_strips(b, item_lines(b, item.item_range).skip(1), item.width())
}

/// The edits that take an item one level up.
pub open spec fn dedent_edits(text: Seq<char>, cursor: int) -> Option<Seq<Edit>> {
    let b = bytes_of(text);
    let chain = chain_of(text, cursor);
    match last_item(chain) {
        None => None,
        Some(i) => {
            let item = chain[i]->ListItem_0;
            if !item_in_item(chain) {
                Some(unlisted(text, item))
            } else {
                let parent = chain[i - 1]->ListItem_0;
                let skip = fitting(prefix_width(chain.take(i - 1)), b.len());
                let strips = resolved(
                    in_order(
                        inner_strips(b, item_lines(b, item.item_range), skip, parent.width()),
                    ),
                );
                if parent.width() == 0 || strips.len() == 0 {
                    None
                } else {
                    Some(strips)
                }
            }
        },
    }
}

fn push_continuation_indent_strips(
    bytes: &[u8],
    item_range: &Range<usize>,
    width: usize,
    out: &mut Vec<SourceEdit>,
)
    requires
        item_range.start <= item_range.end <= bytes@.len(),
    ensures
        edits_view(final(out)@) == edits_view(old(out)@) + leading_strips(
            bytes@,
            item_lines(bytes@, *item_range).skip(1),
            width as nat,
        ),
{
    let starts = item_line_starts(bytes, item_range);
    let ghost lines = starts@.skip(1);
    let ghost before = edits_view(out@);
    let mut i: usize = 1;
    assert(lines.take(0) =~= Seq::empty());
    assert(edits_view(out@) =~= before + leading_strips(bytes@, lines.take(0), width as nat));
    while i < starts.len()
        invariant
            1 <= i <= starts@.len(),
            lines == starts@.skip(1),
            forall|j: int| 0 <= j < starts@.len() ==> #[trigger] starts@[j] <= bytes@.len(),
            edits_view(out@) =~= before + leading_strips(bytes@, lines.take(i - 1), width as nat),
        decreases starts@.len() - i,
    {
        let start: usize = starts[i];
        let ghost so_far = edits_view(out@);
        proof {
            assert(lines.take(i as int).drop_last() =~= lines.take(i - 1));
            assert(lines.take(i as int).last() == start);
        }
        let mut end: usize = start;
        let mut removed: usize = 0;
        while end < bytes.len() && removed < width && bytes[end] == SPACE
            invariant
                start <= end <= bytes@.len(),
                removed <= width,
                past_spaces(bytes@, start as int, width as nat) == past_spaces(
                    bytes@,
                    end as int,
                    (width - removed) as nat,
                ),
            decreases bytes@.len() - end,
        {
            end = end + 1;
            removed = removed + 1;
        }
        if end > start {
            out.push(SourceEdit { range: start..end, replacement: String::new() });
            assert(edits_view(out@) =~= so_far.push(
                edit(start as int, end as int, Seq::empty()),
            ));
        }
        i = i + 1;
    }
    assert(lines.take(i - 1) =~= lines);
}

fn unlist_item(markdown: &str, item: &ListItemContext) -> (edits: Vec<SourceEdit>)
    requires
        item.marker_range.start <= item.marker_range.end <= bytes_of(markdown@).len(),
        item.item_range.start <= item.item_range.end <= bytes_of(markdown@).len(),
    ensures
        edits_view(edits@) == unlisted(markdown@, *item),
{
    let bytes = markdown.as_bytes();
    let start = line_start_offset(bytes, item.marker_range.start);
    let mut edits: Vec<SourceEdit> = Vec::new();
    if start > 0 {
        let prefix = scope_prefix_at(markdown, item.marker_range.start);
        edits.push(
            SourceEdit {
                range: start - 1..item.marker_range.end,
                replacement: scope_break_text(prefix.as_str()),
            },
        );
    } else {
        edits.push(
            SourceEdit {
                range: item.marker_range.start..item.marker_range.end,
                replacement: String::new(),
            },
        );
    }
    let ghost first = edits_view(edits@);
    push_continuation_indent_strips(bytes, &item.item_range, item.marker_width(), &mut edits);
    assert(edits_view(edits@) =~= unlisted(markdown@, *item)) by {
        assert(first =~= seq![unlisted(markdown@, *item)[0]]);
    }
    edits
}

/// The edits for Shift+Tab at `cursor`: they take the list item there one
/// level up. Nothing outside of lists. At the end of a word that Tab put below
/// another they give the list of the two words back.
pub fn list_item_dedent_edits(markdown: &str, cursor: usize) -> (result: Option<Vec<SourceEdit>>)
    ensures
        same_edits(result, dedent_edits(markdown@, cursor as int)),
        item_in_item(chain_of(markdown@, cursor as int)) ==> (result matches Some(edits)
            ==> disjoint(edits_view(edits@))),
        forall|first: Seq<char>, second: Seq<char>|
            is_word(first) && is_word(second) && markdown@ == #[trigger] item_below(first, second)
                && cursor == bytes_of(markdown@).len() ==> turn_into(
                result,
                markdown@,
                two_items(first, second),
            ),
{
    let bytes = markdown.as_bytes();
    let size: usize = bytes.len();
    let chain = enclosing_containers_at(markdown, cursor);
    proof {
        lemma_last_item_bounds(chain@);
        assert forall|first: Seq<char>, second: Seq<char>|
            is_word(first) && is_word(second) && markdown@ == #[trigger] item_below(
                first,
                second,
            ) && cursor == size implies (dedent_edits(markdown@, cursor as int) matches Some(edits)
            && spliced(bytes@, edits) == bytes_of(two_items(first, second))) by {
            lemma_shift_tab_takes_back(first, second);
        }
    }
    let pos = match last_item_index(chain.as_slice()) {
        Some(i) => i,
        None => {
            return None;
        },
    };
    let item = match &chain[pos] {
        EnclosingContainer::ListItem(ctx) => ctx,
        EnclosingContainer::BlockQuote { .. } => {
            return None;
        },
    };
    if !innermost_li_immediate_parent_is_list_item(chain.as_slice()) {
        return Some(unlist_item(markdown, item));
    }
    let parent = match &chain[pos - 1] {
        EnclosingContainer::ListItem(ctx) => ctx,
        EnclosingContainer::BlockQuote { .. } => {
            return None;
        },
    };
    let width = parent.marker_width();
    if width == 0 {
        return None;
    }
    let skip = fitting_prefix_width(chain.as_slice(), pos - 1, bytes.len());
    let starts = item_line_starts(bytes, &item.item_range);
    let mut edits = SourceEditList::new();
    let mut i: usize = 0;
    assert(starts@.take(0) =~= Seq::empty());
    while i < starts.len()
        invariant
            i <= starts@.len(),
            skip + bytes@.len() <= usize::MAX,
            forall|j: int| 0 <= j < starts@.len() ==> #[trigger] starts@[j] <= bytes@.len(),
            edits@ =~= inner_strips(bytes@, starts@.take(i as int), skip as int, width as nat),
            all_well_ranged(edits@),
        decreases starts@.len() - i,
    {
        proof {
            assert(starts@.take(i + 1).drop_last() =~= starts@.take(i as int));
            assert(starts@.take(i + 1).last() == starts@[i as int]);
        }
        let range = list_item_strip_range(bytes, starts[i], skip, width);
        if range.start < range.end {
            edits.push(SourceEdit { range, replacement: String::new() });
        }
        i = i + 1;
    }
    assert(starts@.take(i as int) =~= starts@);
    let edits = edits.finish();
    if edits.len() == 0 {
        return None;
    }
    Some(edits)
}

// ---------------------------------------------------------------------------
// Laws
// ---------------------------------------------------------------------------

/// What Shift+Tab strips from a line lies on that line and is made of at most
/// `most` spaces; a line too short for the prefix loses nothing.
pub proof fn strips_stay_on_their_line(b: Seq<u8>, start: int, skip: int, most: nat)
    requires
        0 <= start <= b.len(),
        0 <= skip,
    ensures
        ({
            let range = strip(b, start, skip, most);
            &&& start + skip == range.0 <= range.1
            &&& range.1 - range.0 <= most
            &&& range.0 < range.1 ==> range.1 <= line_end(b, start, b.len() as int)
            &&& forall|i: int| range.0 <= i < range.1 ==> b[i] == SPACE
        }),
{
    lemma_line_end_bounds(b, start, b.len() as int);
    let end = line_end(b, start, b.len() as int);
    if start + skip <= end {
        lemma_spaces_within_bounds(b, start + skip, end, most);
    }
}

/// The line at `start` with `n` spaces put in after its first `skip` bytes.
pub open spec fn indented(b: Seq<u8>, start: int, skip: int, n: nat) -> Seq<u8> {
    b.take(start + skip) + Seq::new(n, |i: int| SPACE) + b.skip(start + skip)
}

/// What Tab puts into a line, Shift+Tab strips from it.
pub proof fn strips_take_back_indents(b: Seq<u8>, start: int, skip: int, n: nat)
    requires
        0 <= start,
        0 <= skip,
        start + skip <= line_end(b, start, b.len() as int) <= b.len(),
    ensures
        ({
            let line = indented(b, start, skip, n);
            let range = strip(line, start, skip, n);
            &&& range == (start + skip, start + skip + n)
            &&& line.take(range.0) + line.skip(range.1) == b
        }),
{
    let line = indented(b, start, skip, n);
    let at = start + skip;
    lemma_line_end_bounds(b, start, b.len() as int);
    assert forall|i: int| start <= i < at + n implies line[i] != NL by {
        if i < at {
            assert(line[i] == b[i]);
        }
    }
    lemma_line_reaches(line, start, at + n as int);
    lemma_spaces_taken(line, at, line_end(line, start, line.len() as int), n);
    assert(line.take(at) + line.skip(at + n) =~= b);
}

pub proof fn lemma_line_reaches(b: Seq<u8>, p: int, q: int)
    requires
        0 <= p <= q <= b.len(),
        forall|i: int| p <= i < q ==> b[i] != NL,
    ensures
        q <= line_end(b, p, b.len() as int),
    decreases q - p,
{
    if p < q {
        assert(b[p] != NL);
        lemma_line_reaches(b, p + 1, q);
    } else {
        lemma_line_end_bounds(b, p, b.len() as int);
    }
}

pub proof fn lemma_spaces_taken(b: Seq<u8>, q: int, limit: int, n: nat)
    requires
        q + n <= limit,
        forall|i: int| q <= i < q + n ==> b[i] == SPACE,
    ensures
        spaces_within(b, q, limit, n) == q + n,
    decreases n,
{
    if n > 0 {
        assert(b[q] == SPACE);
        lemma_spaces_taken(b, q + 1, limit, (n - 1) as nat);
    }
}

/// Does the item begin with its marker, all on one line?
pub open spec fn marker_on_its_line(b: Seq<u8>, item: ListItemContext) -> bool {
    let start = item.item_range.start;
    let end = item.marker_range.end;
    &&& start <= item.marker_range.start <= end <= item.item_range.end <= b.len()
    &&& forall|i: int| start <= i < end ==> b[i] != NL
}

/// The edits that make a paragraph of an item come in order and do not overlap.
pub proof fn unlisting_edits_are_apart(text: Seq<char>, item: ListItemContext)
    requires
        bytes_of(text).len() <= usize::MAX,
        marker_on_its_line(bytes_of(text), item),
    ensures
        disjoint(unlisted(text, item)),
{
    let b = bytes_of(text);
    let start = item.item_range.start as int;
    let end = item.item_range.end as int;
    let lines = starts_between(b, start, end, end);
    lemma_line_start_bounds(b, item.marker_range.start as int);
    lemma_starts_after_newlines(b, start, end, end, item.marker_range.end as int);
    assert(item_lines(b, item.item_range).skip(1) =~= lines);
    assert forall|i: int| 0 <= i < lines.len() implies past_spaces(
        b,
        #[trigger] lines[i] as int,
        item.width(),
    ) <= b.len() by {
        lemma_past_spaces_bounds(b, lines[i] as int, item.width());
    }
    lemma_leading_strips(b, lines, item.width(), item.marker_range.end as int, b.len() as int);
    let all = unlisted(text, item);
    let rest = leading_strips(b, lines, item.width());
    assert forall|i: int| 0 <= i < all.len() implies well_ranged(#[trigger] all[i]) by {
        if i > 0 {
            assert(all[i] == rest[i - 1]);
        }
    }
    assert forall|i: int, j: int| 0 <= i < j < all.len() implies (#[trigger] all[i]).range.end <= (
    #[trigger] all[j]).range.start by {
        assert(all[j] == rest[j - 1]);
        if i > 0 {
            assert(all[i] == rest[i - 1]);
        }
    }
}

/// Lines that begin after a newline, one after the other, and none before
/// `floor`.
spec fn starts_lines(b: Seq<u8>, lines: Seq<usize>, floor: int) -> bool {
    &&& forall|i: int|
        0 <= i < lines.len() ==> floor <= #[trigger] lines[i] <= b.len() && lines[i] > 0 && b[lines[i]
            - 1] == NL
    &&& forall|i: int, j: int| 0 <= i < j < lines.len() ==> #[trigger] lines[i] < #[trigger] lines[j]
}

proof fn lemma_starts_after_newlines(b: Seq<u8>, s: int, p: int, end: int, floor: int)
    requires
        0 <= s,
        p <= end <= b.len() <= usize::MAX,
        forall|i: int| s <= i < floor ==> b[i] != NL,
    ensures
        starts_lines(b, starts_between(b, s, p, end), floor),
        forall|i: int|
            0 <= i < starts_between(b, s, p, end).len() ==> #[trigger] starts_between(
                b,
                s,
                p,
                end,
            )[i] <= p,
    decreases p - s,
{
    if p > s {
        lemma_starts_after_newlines(b, s, p - 1, end, floor);
        let before = starts_between(b, s, p - 1, end);
        let all = starts_between(b, s, p, end);
        if b[p - 1] == NL && p < end {
            assert(floor <= p);
            assert forall|i: int| 0 <= i < all.len() implies floor <= #[trigger] all[i] <= b.len()
                && all[i] > 0 && b[all[i] - 1] == NL && all[i] <= p by {
                if i < before.len() {
                    assert(all[i] == before[i]);
                }
            }
            assert forall|i: int, j: int| 0 <= i < j < all.len() implies #[trigger] all[i]
                < #[trigger] all[j] by {
                assert(all[i] == before[i]);
                if j < before.len() {
                    assert(all[j] == before[j]);
                }
            }
        }
    }
}

proof fn lemma_past_spaces_on_line(b: Seq<u8>, q: int, n: nat, next: int)
    requires
        0 <= q < next <= b.len(),
        b[next - 1] == NL,
    ensures
        q <= past_spaces(b, q, n) < next,
    decreases n,
{
    if n > 0 && b[q] == SPACE {
        lemma_past_spaces_on_line(b, q + 1, (n - 1) as nat, next);
    }
}

proof fn lemma_past_spaces_bounds(b: Seq<u8>, q: int, n: nat)
    requires
        q <= b.len(),
    ensures
        q <= past_spaces(b, q, n) <= b.len(),
    decreases n,
{
    if n > 0 && q < b.len() && b[q] == SPACE {
        lemma_past_spaces_bounds(b, q + 1, (n - 1) as nat);
    }
}

proof fn lemma_leading_strips(b: Seq<u8>, lines: Seq<usize>, most: nat, floor: int, limit: int)
    requires
        limit <= usize::MAX,
        starts_lines(b, lines, floor),
        forall|i: int|
            0 <= i < lines.len() ==> past_spaces(b, #[trigger] lines[i] as int, most) <= limit,
    ensures
        disjoint(leading_strips(b, lines, most)),
        forall|i: int|
            0 <= i < leading_strips(b, lines, most).len() ==> floor <= (#[trigger] leading_strips(
                b,
                lines,
                most,
            )[i]).range.start && leading_strips(b, lines, most)[i].range.end <= limit,
    decreases lines.len(),
{
    if lines.len() > 0 {
        let rest = lines.drop_last();
        let start = lines.last() as int;
        let stop = past_spaces(b, start, most);
        let before = leading_strips(b, rest, most);
        let all = leading_strips(b, lines, most);
        assert(lines[lines.len() - 1] == start);
        assert forall|i: int| 0 <= i < rest.len() implies past_spaces(
            b,
            #[trigger] rest[i] as int,
            most,
        ) <= start by {
            assert(rest[i] == lines[i]);
            assert(lines[i] < lines[lines.len() - 1]);
            lemma_past_spaces_on_line(b, rest[i] as int, most, start);
        }
        assert(starts_lines(b, rest, floor)) by {
            assert forall|i: int| 0 <= i < rest.len() implies floor <= #[trigger] rest[i] <= b.len()
                && rest[i] > 0 && b[rest[i] - 1] == NL by {
                assert(rest[i] == lines[i]);
            }
            assert forall|i: int, j: int| 0 <= i < j < rest.len() implies #[trigger] rest[i]
                < #[trigger] rest[j] by {
                assert(rest[i] == lines[i]);
                assert(rest[j] == lines[j]);
            }
        }
        lemma_leading_strips(b, rest, most, floor, start);
        lemma_past_spaces_bounds(b, start, most);
        assert(stop <= limit);
        assert(start <= limit);
        assert forall|i: int| 0 <= i < all.len() implies well_ranged(#[trigger] all[i]) && floor
            <= all[i].range.start && all[i].range.end <= limit by {
            if i < before.len() {
                assert(all[i] == before[i]);
                assert(well_ranged(before[i]));
            }
        }
        assert forall|i: int, j: int|
            0 <= i < j < all.len() implies (#[trigger] all[i]).range.end <= (
        #[trigger] all[j]).range.start by {
            assert(all[i] == before[i]);
            if j < before.len() {
                assert(all[j] == before[j]);
            }
        }
    }
}

proof fn lemma_spaces_counted(b: Seq<u8>, q: int, n: nat, most: nat)
    requires
        0 <= q,
        q + n <= b.len(),
        forall|i: int| q <= i < q + n ==> b[i] == SPACE,
        q + n < b.len() ==> b[q + n] != SPACE,
    ensures
        past_spaces(b, q, most) == if n <= most {
            q + n
        } else {
            q + most
        },
    decreases most,
{
    if most > 0 && n > 0 {
        assert(b[q] == SPACE);
        lemma_spaces_counted(b, q + 1, (n - 1) as nat, (most - 1) as nat);
    } else if most > 0 {
        assert(q < b.len() ==> b[q] != SPACE);
    }
}

/// A further line of an item that leaves its list loses its indent, but no more
/// of it than the marker was wide, and nothing else.
pub proof fn further_lines_lose_their_indent(
    b: Seq<u8>,
    lines: Seq<usize>,
    most: nat,
    k: int,
    n: nat,
)
    requires
        0 <= k < lines.len(),
        lines[k] + n <= b.len() <= usize::MAX,
        forall|i: int| lines[k] <= i < lines[k] + n ==> b[i] == SPACE,
        lines[k] + n < b.len() ==> b[lines[k] + n] != SPACE,
        n > 0 && most > 0,
    ensures
        exists|e: int|
            0 <= e < leading_strips(b, lines, most).len() && (#[trigger] leading_strips(
                b,
                lines,
                most,
            )[e]).range.start == lines[k] && leading_strips(b, lines, most)[e].range.end
                == lines[k] + (if n <= most {
                n
            } else {
                most
            }) && leading_strips(b, lines, most)[e].text.len() == 0,
    decreases lines.len(),
{
    let all = leading_strips(b, lines, most);
    let head = lines.drop_last();
    let before = leading_strips(b, head, most);
    if k == lines.len() - 1 {
        lemma_spaces_counted(b, lines[k] as int, n, most);
        assert(all[all.len() - 1].range.start == lines[k]);
    } else {
        assert(head[k] == lines[k]);
        further_lines_lose_their_indent(b, head, most, k, n);
        let e = choose|e: int|
            0 <= e < before.len() && (#[trigger] before[e]).range.start == lines[k]
                && before[e].range.end == lines[k] + (if n <= most {
                n
            } else {
                most
            }) && before[e].text.len() == 0;
        assert(all[e] == before[e]);
    }
}

} // verus!
