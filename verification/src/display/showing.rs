//! What a reader sees of a line: plain text as it is, nothing of what is hidden,
//! and a substitution in the place of what it stands for.

use core::ops::Range;

use vstd::prelude::*;

use crate::display::block::Substitution;
use crate::display::text::{
    hidden_until,
    next_substitution,
    shown_from,
    shown_line,
    substitution_at,
};
use crate::strings::{byte_offset, lemma_byte_offset_step};
use crate::text::bytes_of;
use crate::words::{lemma_index_of_offset, lemma_offsets_grow};

verus! {

/// Is the byte in a hidden range?
pub open spec fn is_hidden(hidden: Seq<Range<usize>>, p: int) -> bool {
    exists|k: int| 0 <= k < hidden.len() && (#[trigger] hidden[k]).start <= p < hidden[k].end
}

/// Does a substitution begin at the byte?
pub open spec fn is_substituted(subs: Seq<Substitution>, p: int) -> bool {
    exists|k: int| 0 <= k < subs.len() && (#[trigger] subs[k]).source_range.start == p
}

proof fn lemma_not_substituted(subs: Seq<Substitution>, p: int, end: int)
    requires
        !is_substituted(subs, p),
    ensures
        substitution_at(subs, p, end) is None,
    decreases subs.len(),
{
    if subs.len() > 0 {
        let rest = subs.drop_first();
        assert(subs[0].source_range.start != p);
        if is_substituted(rest, p) {
            let k = choose|k: int| 0 <= k < rest.len() && (#[trigger] rest[k]).source_range.start == p;
            assert(subs[k + 1].source_range.start == p);
        }
        lemma_not_substituted(rest, p, end);
    }
}

proof fn lemma_hidden_until(hidden: Seq<Range<usize>>, p: int)
    ensures
        match hidden_until(hidden, p) {
            Some(until) => p < until && (exists|k: int|
                0 <= k < hidden.len() && (#[trigger] hidden[k]).start <= p && hidden[k].end == until)
                && forall|k: int|
                0 <= k < hidden.len() && (#[trigger] hidden[k]).start <= p ==> hidden[k].end
                    <= until || hidden[k].end <= p,
            None => !is_hidden(hidden, p),
        },
    decreases hidden.len(),
{
    if hidden.len() > 0 {
        let head = hidden.drop_last();
        lemma_hidden_until(head, p);
        let r = hidden.last();
        assert(hidden[hidden.len() - 1] == r);
        if let Some(until) = hidden_until(head, p) {
            let k = choose|k: int|
                0 <= k < head.len() && (#[trigger] head[k]).start <= p && head[k].end == until;
            assert(hidden[k].start <= p && hidden[k].end == until);
        }
        if hidden_until(hidden, p) is Some {
            let until = hidden_until(hidden, p)->0;
            assert forall|k: int|
                0 <= k < hidden.len() && (#[trigger] hidden[k]).start <= p implies hidden[k].end
                <= until || hidden[k].end <= p by {
                if k < head.len() {
                    assert(head[k] == hidden[k]);
                    if hidden_until(head, p) is None && p < hidden[k].end {
                        assert(is_hidden(head, p));
                    }
                }
            }
        } else if is_hidden(hidden, p) {
            let k = choose|k: int|
                0 <= k < hidden.len() && (#[trigger] hidden[k]).start <= p < hidden[k].end;
            if k < head.len() {
                assert(head[k] == hidden[k]);
            }
        }
    }
}

proof fn lemma_no_substitution_between(subs: Seq<Substitution>, p: int, limit: usize)
    requires
        forall|q: int| p < q < limit ==> !is_substituted(subs, q),
    ensures
        next_substitution(subs, p, limit) == limit,
    decreases subs.len(),
{
    if subs.len() > 0 {
        let head = subs.drop_last();
        let start = subs.last().source_range.start as int;
        assert(subs[subs.len() - 1].source_range.start == start);
        if p < start < limit {
            assert(is_substituted(subs, start));
        }
        assert forall|q: int| p < q < limit implies !is_substituted(head, q) by {
            if is_substituted(head, q) {
                let k = choose|k: int|
                    0 <= k < head.len() && (#[trigger] head[k]).source_range.start == q;
                assert(subs[k].source_range.start == q);
                assert(is_substituted(subs, q));
            }
        }
        lemma_no_substitution_between(head, p, limit);
    }
}

/// Characters that are neither hidden nor the start of a substitution are shown
/// as they are, in order, before what is shown of the rest.
pub proof fn plain_text_is_shown(
    source: Seq<char>,
    subs: Seq<Substitution>,
    hidden: Seq<Range<usize>>,
    i: int,
    j: int,
    end: int,
)
    requires
        0 <= i <= j <= source.len(),
        byte_offset(source, j) <= end,
        forall|k: int|
            i <= k < j ==> !is_hidden(hidden, #[trigger] byte_offset(source, k)) && !is_substituted(
                subs,
                byte_offset(source, k),
            ),
    ensures
        shown_from(source, subs, hidden, byte_offset(source, i), end).text == source.subrange(i, j)
            + shown_from(source, subs, hidden, byte_offset(source, j), end).text,
    decreases j - i,
{
    let rest = shown_from(source, subs, hidden, byte_offset(source, j), end).text;
    if i < j {
        let p = byte_offset(source, i);
        lemma_byte_offset_step(source, i);
        lemma_offsets_grow(source, i, i + 1);
        lemma_offsets_grow(source, i + 1, j);
        assert(!is_hidden(hidden, byte_offset(source, i)));
        lemma_not_substituted(subs, p, end);
        lemma_hidden_until(hidden, p);
        if let Some(until) = hidden_until(hidden, p) {
            let k = choose|k: int|
                0 <= k < hidden.len() && (#[trigger] hidden[k]).start <= p && hidden[k].end == until;
            assert(is_hidden(hidden, p));
        }
        lemma_index_of_offset(source, i);
        plain_text_is_shown(source, subs, hidden, i + 1, j, end);
        assert(seq![source[i]] + (source.subrange(i + 1, j) + rest) =~= source.subrange(i, j) + rest);
    } else {
        assert(source.subrange(i, j) + rest =~= rest);
    }
}

/// Nothing is shown of a hidden range that no substitution begins in: what is
/// shown goes on behind it.
pub proof fn hidden_text_is_passed(
    source: Seq<char>,
    subs: Seq<Substitution>,
    hidden: Seq<Range<usize>>,
    k: int,
    end: int,
)
    requires
        0 <= k < hidden.len(),
        hidden[k].start < hidden[k].end <= end,
        forall|j: int|
            0 <= j < hidden.len() && (#[trigger] hidden[j]).start <= hidden[k].start
                ==> hidden[j].end <= hidden[k].end,
        forall|q: int| hidden[k].start <= q < hidden[k].end ==> !is_substituted(subs, q),
    ensures
        shown_from(source, subs, hidden, hidden[k].start as int, end) == shown_from(
            source,
            subs,
            hidden,
            hidden[k].end as int,
            end,
        ),
{
    let p = hidden[k].start as int;
    lemma_not_substituted(subs, p, end);
    lemma_hidden_until(hidden, p);
    assert(is_hidden(hidden, p));
    lemma_no_substitution_between(subs, p, hidden[k].end);
}

/// A substitution is shown in the place of what it stands for, whether that is
/// hidden or not, and each of its bytes is taken for the start of it.
pub proof fn substitutions_are_shown_in_place(
    source: Seq<char>,
    subs: Seq<Substitution>,
    hidden: Seq<Range<usize>>,
    k: int,
    end: int,
)
    requires
        0 <= k < subs.len(),
        subs[k].source_range.start < subs[k].source_range.end <= end,
        forall|j: int|
            0 <= j < subs.len() && j != k ==> (#[trigger] subs[j]).source_range.start
                != subs[k].source_range.start,
    ensures
        ({
            let sub = subs[k];
            let shown = shown_from(source, subs, hidden, sub.source_range.start as int, end);
            let rest = shown_from(source, subs, hidden, sub.source_range.end as int, end);
            let n = bytes_of(sub.display@).len() as int;
            &&& shown.text == sub.display@ + rest.text
            &&& shown.map.len() == n + rest.map.len()
            &&& forall|i: int| 0 <= i < n ==> shown.map[i] == sub.source_range.start
            &&& forall|i: int| n <= i < shown.map.len() ==> shown.map[i] == rest.map[i - n]
        }),
{
    lemma_substitution_found(subs, k, end);
}

proof fn lemma_substitution_found(subs: Seq<Substitution>, k: int, end: int)
    requires
        0 <= k < subs.len(),
        subs[k].source_range.end <= end,
        forall|j: int|
            0 <= j < subs.len() && j != k ==> (#[trigger] subs[j]).source_range.start
                != subs[k].source_range.start,
    ensures
        substitution_at(subs, subs[k].source_range.start as int, end) == Some(subs[k]),
    decreases subs.len(),
{
    if k > 0 {
        let rest = subs.drop_first();
        assert(subs[0].source_range.start != subs[k].source_range.start);
        assert forall|j: int| 0 <= j < rest.len() && j != k - 1 implies (
        #[trigger] rest[j]).source_range.start != rest[k - 1].source_range.start by {
            assert(rest[j] == subs[j + 1]);
        }
        lemma_substitution_found(rest, k - 1, end);
    }
}

/// A line without anything hidden or substituted is shown as it is written.
pub proof fn plain_lines_are_shown_whole(source: Seq<char>, i: int, j: int, line: Range<usize>)
    requires
        0 <= i <= j <= source.len(),
        line.start == byte_offset(source, i),
        line.end == byte_offset(source, j),
    ensures
        shown_line(source, Seq::empty(), Seq::empty(), line).text == source.subrange(i, j),
{
    plain_text_is_shown(source, Seq::empty(), Seq::empty(), i, j, line.end as int);
    let rest = shown_from(source, Seq::empty(), Seq::empty(), line.end as int, line.end as int).text;
    assert(source.subrange(i, j) + rest =~= source.subrange(i, j));
}

} // verus!
