//! The source of formulas without the prefixes of the containers around them.

use core::ops::Range;

use vstd::prelude::*;

use crate::display::block::Container;
use crate::display::lines::sliceable;
use crate::parser::is_boundary;
use crate::strings::{chars_of, push_spaces, spaces};
use crate::text::bytes_of;
use crate::words::{slice, Glyphs};

verus! {

/// What stands at the start of a line inside of the containers: `> ` for a
/// blockquote, and for a list item as many spaces as its marker is wide.
pub open spec fn line_prefix(containers: Seq<Container>) -> Seq<char>
    decreases containers.len(),
{
    if containers.len() == 0 {
        Seq::empty()
    } else {
        line_prefix(containers.drop_last()) + match containers.last() {
            Container::BlockQuote { .. } => seq!['>', ' '],
            Container::ListItem { marker_byte_len, .. } => spaces(marker_byte_len as nat),
        }
    }
}

/// What stands at the start of a line inside of the containers.
pub fn containers_continuation_prefix(containers: &Vec<Container>) -> (prefix: String)
    ensures
        prefix@ == line_prefix(containers@),
{
    let ghost all = containers@;
    let mut prefix = String::new();
    let mut i: usize = 0;
    assert(all.take(0) =~= Seq::empty());
    while i < containers.len()
        invariant
            i <= containers@.len(),
            all == containers@,
            prefix@ =~= line_prefix(all.take(i as int)),
        decreases containers@.len() - i,
    {
        assert(all.take(i + 1).drop_last() =~= all.take(i as int));
        assert(all.take(i + 1).last() == all[i as int]);
        match &containers[i] {
            Container::BlockQuote { .. } => {
                prefix.push('>');
                prefix.push(' ');
            },
            Container::ListItem { marker_byte_len, .. } => {
                push_spaces(&mut prefix, *marker_byte_len);
            },
        }
        i = i + 1;
    }
    assert(all.take(i as int) =~= all);
    prefix
}

/// The end of the line of character `i`.
pub open spec fn line_stop(text: Seq<char>, i: int) -> int
    decreases text.len() - i,
{
    if i >= text.len() || text[i] == '\n' {
        i
    } else {
        line_stop(text, i + 1)
    }
}

/// Do the characters from `i` on begin with the prefix?
pub open spec fn begins_at(text: Seq<char>, prefix: Seq<char>, i: int, end: int) -> bool {
    &&& i + prefix.len() <= end
    &&& forall|k: int| 0 <= k < prefix.len() ==> text[i + k] == #[trigger] prefix[k]
}

/// The lines from `i` on without the prefix, where they have it.
pub open spec fn stripped_from(text: Seq<char>, prefix: Seq<char>, i: int) -> Seq<char>
    decreases text.len() - i,
{
    if i > text.len() || i < 0 {
        Seq::empty()
    } else {
        let end = line_stop(text, i);
        let start = if begins_at(text, prefix, i, end) {
            i + prefix.len()
        } else {
            i
        };
        let line = text.subrange(start, end);
        if i <= end && end < text.len() {
            line.push('\n') + stripped_from(text, prefix, end + 1)
        } else {
            line
        }
    }
}

proof fn lemma_line_stop(text: Seq<char>, i: int)
    requires
        0 <= i <= text.len(),
    ensures
        i <= line_stop(text, i) <= text.len(),
        forall|k: int| i <= k < line_stop(text, i) ==> #[trigger] text[k] != '\n',
        line_stop(text, i) < text.len() ==> text[line_stop(text, i)] == '\n',
    decreases text.len() - i,
{
    if i < text.len() && text[i] != '\n' {
        lemma_line_stop(text, i + 1);
    }
}

fn starts_with_prefix(text: &Vec<char>, prefix: &Vec<char>, i: usize, end: usize) -> (found: bool)
    requires
        i <= end <= text@.len(),
    ensures
        found == begins_at(text@, prefix@, i as int, end as int),
{
    if prefix.len() > end - i {
        return false;
    }
    let mut k: usize = 0;
    while k < prefix.len()
        invariant
            k <= prefix@.len(),
            i + prefix@.len() <= end <= text@.len(),
            forall|m: int| 0 <= m < k ==> text@[i + m] == #[trigger] prefix@[m],
        decreases prefix@.len() - k,
    {
        if text[i + k] != prefix[k] {
            assert(text@[i + k] != prefix@[k as int]);
            return false;
        }
        k = k + 1;
    }
    true
}

/// The lines of a formula without the prefix of the containers around it, where
/// they have it.
pub fn sanitize_latex(latex: &str, containers: &Vec<Container>) -> (clean: String)
    ensures
        clean@ == stripped_from(latex@, line_prefix(containers@), 0),
{
    let prefix_text = containers_continuation_prefix(containers);
    let prefix = chars_of(prefix_text.as_str());
    let text = chars_of(latex);
    let mut clean = String::new();
    let mut i: usize = 0;
    loop
        invariant
            i <= text@.len(),
            text@ == latex@,
            prefix@ == line_prefix(containers@),
            clean@ + stripped_from(text@, prefix@, i as int) =~= stripped_from(text@, prefix@, 0),
        decreases text@.len() - i,
    {
        proof {
            lemma_line_stop(text@, i as int);
        }
        let mut end: usize = i;
        while end < text.len() && text[end] != '\n'
            invariant
                i <= end <= text@.len(),
                line_stop(text@, i as int) == line_stop(text@, end as int),
            decreases text@.len() - end,
        {
            end = end + 1;
        }
        let start: usize = if starts_with_prefix(&text, &prefix, i, end) {
            i + prefix.len()
        } else {
            i
        };
        let ghost before = clean@;
        let mut k: usize = start;
        while k < end
            invariant
                start <= k <= end <= text@.len(),
                clean@ =~= before + text@.subrange(start as int, k as int),
            decreases end - k,
        {
            clean.push(text[k]);
            k = k + 1;
        }
        if end >= text.len() {
            assert(clean@ =~= before + text@.subrange(start as int, end as int));
            return clean;
        }
        clean.push('\n');
        i = end + 1;
        proof {
            let line = text@.subrange(start as int, end as int);
            let rest = stripped_from(text@, prefix@, i as int);
            assert(before + (line.push('\n') + rest) =~= clean@ + rest);
        }
    }
}

/// The source of a formula, without the prefixes of its lines; nothing where the
/// range is none of the text.
pub fn math_source(source: &str, range: &Range<usize>, containers: &Vec<Container>) -> (latex: Option<
    String,
>)
    ensures
        match latex {
            Some(text) => sliceable(bytes_of(source@), *range) && text@ == stripped_from(
                slice(source@, range.start as int, range.end as int),
                line_prefix(containers@),
                0,
            ),
            None => !sliceable(bytes_of(source@), *range),
        },
{
    let bytes = source.as_bytes();
    if range.start > range.end || !is_boundary(bytes, range.start) || !is_boundary(
        bytes,
        range.end,
    ) {
        return None;
    }
    let text = Glyphs::of(source).text(range.start, range.end);
    Some(sanitize_latex(text.as_str(), containers))
}

// ---------------------------------------------------------------------------
// Laws
// ---------------------------------------------------------------------------

/// The lines from `i` on, each after the first with the prefix.
pub open spec fn continued_from(text: Seq<char>, prefix: Seq<char>, i: int) -> Seq<char>
    decreases text.len() - i,
{
    if i > text.len() || i < 0 {
        Seq::empty()
    } else {
        let end = line_stop(text, i);
        let line = text.subrange(i, end);
        if i <= end && end < text.len() {
            line.push('\n') + prefix + continued_from(text, prefix, end + 1)
        } else {
            line
        }
    }
}

proof fn lemma_stop_of(text: Seq<char>, i: int, end: int)
    requires
        0 <= i <= end <= text.len(),
        forall|k: int| i <= k < end ==> #[trigger] text[k] != '\n',
        end < text.len() ==> text[end] == '\n',
    ensures
        line_stop(text, i) == end,
    decreases end - i,
{
    if i < end {
        assert(text[i] != '\n');
        lemma_stop_of(text, i + 1, end);
    }
}

/// A text is the same past the characters before it.
proof fn lemma_stripped_shift(head: Seq<char>, tail: Seq<char>, prefix: Seq<char>, i: int)
    requires
        0 <= i <= tail.len(),
    ensures
        stripped_from(head + tail, prefix, head.len() + i) == stripped_from(tail, prefix, i),
    decreases tail.len() - i,
{
    let text = head + tail;
    let n = head.len() as int;
    lemma_line_stop(tail, i);
    let end = line_stop(tail, i);
    assert forall|k: int| n + i <= k < n + end implies #[trigger] text[k] != '\n' by {
        assert(text[k] == tail[k - n]);
    }
    lemma_stop_of(text, n + i, n + end);
    assert(begins_at(text, prefix, n + i, n + end) == begins_at(tail, prefix, i, end)) by {
        if begins_at(text, prefix, n + i, n + end) {
            assert forall|k: int| 0 <= k < prefix.len() implies tail[i + k] == #[trigger] prefix[k] by {
                assert(text[n + i + k] == prefix[k]);
                assert(text[n + i + k] == tail[i + k]);
            }
        }
        if begins_at(tail, prefix, i, end) {
            assert forall|k: int| 0 <= k < prefix.len() implies text[n + i + k]
                == #[trigger] prefix[k] by {
                assert(tail[i + k] == prefix[k]);
                assert(text[n + i + k] == tail[i + k]);
            }
        }
    }
    let start = if begins_at(tail, prefix, i, end) {
        i + prefix.len()
    } else {
        i
    };
    assert(text.subrange(n + start, n + end) =~= tail.subrange(start, end));
    if end < tail.len() {
        lemma_stripped_shift(head, tail, prefix, end + 1);
    }
}

proof fn lemma_continued(text: Seq<char>, prefix: Seq<char>, i: int)
    requires
        0 <= i <= text.len(),
        !prefix.contains('\n'),
    ensures
        stripped_from(prefix + continued_from(text, prefix, i), prefix, 0) == text.skip(i),
    decreases text.len() - i,
{
    lemma_line_stop(text, i);
    let end = line_stop(text, i);
    let line = text.subrange(i, end);
    let whole = prefix + continued_from(text, prefix, i);
    let p = prefix.len() as int;
    let stop = p + line.len();
    assert forall|k: int| 0 <= k < stop implies #[trigger] whole[k] != '\n' by {
        if k < p {
            assert(whole[k] == prefix[k]);
            assert(prefix.contains(prefix[k]));
        } else {
            assert(whole[k] == line[k - p]);
            assert(line[k - p] == text[i + k - p]);
        }
    }
    assert(begins_at(whole, prefix, 0, stop));
    if end < text.len() {
        let rest = continued_from(text, prefix, end + 1);
        assert(whole =~= (prefix + line).push('\n') + (prefix + rest));
        assert(whole[stop] == '\n');
        lemma_stop_of(whole, 0, stop);
        lemma_continued(text, prefix, end + 1);
        let head = (prefix + line).push('\n');
        lemma_stripped_shift(head, prefix + rest, prefix, 0);
        assert(head.len() == stop + 1);
        assert(whole.subrange(p, stop) =~= line);
        assert(text.skip(i) =~= line.push('\n') + text.skip(end + 1));
    } else {
        assert(whole =~= prefix + line);
        lemma_stop_of(whole, 0, stop);
        assert(whole.subrange(p, stop) =~= text.skip(i));
    }
}

/// A formula that is continued on lines with the prefix comes back without it.
/// Its first line, which has no prefix, must not look as if it had one.
pub proof fn continued_formulas_come_back(text: Seq<char>, prefix: Seq<char>)
    requires
        !prefix.contains('\n'),
        !begins_at(text, prefix, 0, line_stop(text, 0)),
    ensures
        stripped_from(continued_from(text, prefix, 0), prefix, 0) == text,
{
    lemma_line_stop(text, 0);
    let end = line_stop(text, 0);
    let line = text.subrange(0, end);
    let whole = continued_from(text, prefix, 0);
    if end < text.len() {
        let rest = continued_from(text, prefix, end + 1);
        let head = line.push('\n');
        assert(whole =~= head + (prefix + rest));
        assert forall|k: int| 0 <= k < end implies #[trigger] whole[k] != '\n' by {
            assert(whole[k] == text[k]);
        }
        assert(whole[end] == '\n');
        lemma_stop_of(whole, 0, end);
        assert(!begins_at(whole, prefix, 0, end)) by {
            if begins_at(whole, prefix, 0, end) {
                assert forall|k: int| 0 <= k < prefix.len() implies text[0 + k]
                    == #[trigger] prefix[k] by {
                    assert(whole[0 + k] == prefix[k]);
                    assert(whole[k] == text[k]);
                }
            }
        }
        lemma_continued(text, prefix, end + 1);
        lemma_stripped_shift(head, prefix + rest, prefix, 0);
        assert(whole.subrange(0, end) =~= line);
        assert(text =~= head + text.skip(end + 1));
    } else {
        assert(whole =~= text);
        assert(whole.subrange(0, end) =~= text);
    }
}

proof fn lemma_unprefixed(text: Seq<char>, prefix: Seq<char>, i: int)
    requires
        0 <= i <= text.len(),
        forall|k: int|
            i <= k <= text.len() && (k == 0 || text[k - 1] == '\n') ==> !#[trigger] begins_at(
                text,
                prefix,
                k,
                line_stop(text, k),
            ),
        i == 0 || text[i - 1] == '\n',
    ensures
        stripped_from(text, prefix, i) == text.skip(i),
    decreases text.len() - i,
{
    lemma_line_stop(text, i);
    let end = line_stop(text, i);
    assert(!begins_at(text, prefix, i, line_stop(text, i)));
    if end < text.len() {
        lemma_unprefixed(text, prefix, end + 1);
        assert(text.skip(i) =~= text.subrange(i, end).push('\n') + text.skip(end + 1));
    } else {
        assert(text.skip(i) =~= text.subrange(i, end));
    }
}

/// A formula that has the prefix on no line stays as it is.
pub proof fn formulas_without_prefixes_stay(text: Seq<char>, prefix: Seq<char>)
    requires
        forall|k: int|
            0 <= k <= text.len() && (k == 0 || text[k - 1] == '\n') ==> !#[trigger] begins_at(
                text,
                prefix,
                k,
                line_stop(text, k),
            ),
    ensures
        stripped_from(text, prefix, 0) == text,
{
    lemma_unprefixed(text, prefix, 0);
    assert(text.skip(0) =~= text);
}

} // verus!
