//! Hard breaks in a row lose their markers.

use vstd::prelude::*;

use super::edits::{edit, Edit};
use super::normalize::{
    break_edits, break_marker, cursor_within, doubled_break_at, past_continuation, past_gap,
};
use crate::text::{GT, NL, SPACE, TAB};

verus! {

/// Does the newline at `nl` end a hard break whose marker, two spaces or a
/// backslash, begins at `start`?
pub open spec fn ends_hard_break(b: Seq<u8>, start: int, nl: int) -> bool {
    &&& 0 <= start < nl < b.len()
    &&& b[nl] as char == '\n'
    &&& {
        ||| start == nl - 2 && b[nl - 1] as char == ' ' && b[nl - 2] as char == ' '
        ||| start == nl - 1 && b[nl - 1] as char == '\\'
    }
}

/// Is there nothing between the newlines `i` and `j` but blanks and quote marks,
/// and the backslash of the break at `j`?
pub open spec fn nothing_between(b: Seq<u8>, i: int, j: int) -> bool {
    &&& i < j
    &&& forall|p: int|
        i < p < j ==> (#[trigger] b[p] as char == ' ' || b[p] as char == '\t' || b[p] as char == '>'
            || (p == j - 1 && b[p] as char == '\\'))
}

/// Are the newlines at `i` and `j` two hard breaks in a row, with no cursor between
/// them?
pub open spec fn breaks_in_a_row(
    b: Seq<u8>,
    cursors: Seq<usize>,
    from: int,
    i: int,
    then: int,
    j: int,
) -> bool {
    &&& ends_hard_break(b, from, i)
    &&& ends_hard_break(b, then, j)
    &&& nothing_between(b, i, j)
    &&& forall|c: int| 0 <= c < cursors.len() ==> !(i < #[trigger] cursors[c] <= j)
}

proof fn lemma_continuation(b: Seq<u8>, p: int, end: int)
    requires
        0 <= p <= end < b.len(),
        forall|q: int| p <= q < end ==> #[trigger] b[q] == SPACE || b[q] == TAB || b[q] == GT,
        b[end] != SPACE && b[end] != TAB && b[end] != GT,
    ensures
        past_continuation(b, p) == end,
    decreases end - p,
{
    if p < end {
        assert(b[p] == SPACE || b[p] == TAB || b[p] == GT);
        lemma_continuation(b, p + 1, end);
    }
}

proof fn lemma_doubled(
    b: Seq<u8>,
    cursors: Seq<usize>,
    from: int,
    i: int,
    then: int,
    j: int,
)
    requires
        breaks_in_a_row(b, cursors, from, i, then, j),
    ensures
        past_gap(b, i + 1) == j,
        doubled_break_at(b, cursors, i),
        break_marker(b, i) == Some(from),
        break_marker(b, j) == Some(then),
{
    let end = if j - 1 > i && b[j - 1] as char == '\\' { j - 1 } else { j };
    assert forall|q: int| i + 1 <= q < end implies #[trigger] b[q] == SPACE || b[q] == TAB || b[q]
        == GT by {
        assert(b[q] as char == ' ' || b[q] as char == '\t' || b[q] as char == '>' || (q == j - 1
            && b[q] as char == '\\'));
    }
    lemma_continuation(b, i + 1, end);
}

proof fn lemma_scanned(b: Seq<u8>, cursors: Seq<usize>, n: int, i: int)
    requires
        0 <= n <= i < b.len(),
        doubled_break_at(b, cursors, i),
        i < past_gap(b, i + 1),
    ensures
        break_edits(b, cursors, n).contains(edit(break_marker(b, i)->0, i, Seq::empty())),
        (forall|h: int|
            n <= h < i && #[trigger] doubled_break_at(b, cursors, h) ==> past_gap(b, h + 1) != i)
            ==> break_edits(b, cursors, n).contains(
            edit(
                break_marker(b, past_gap(b, i + 1))->0,
                past_gap(b, i + 1),
                Seq::empty(),
            ),
        ),
    decreases b.len() - n,
{
    let j = past_gap(b, n + 1);
    let all = break_edits(b, cursors, n);
    if doubled_break_at(b, cursors, n) && n < j {
        let pair = seq![
            edit(break_marker(b, n)->0, n, Seq::empty()),
            edit(break_marker(b, j)->0, j, Seq::empty()),
        ];
        let rest = break_edits(b, cursors, j + 1);
        assert(all == pair + rest);
        assert(all[0] == pair[0]);
        assert(all[1] == pair[1]);
        if n < i {
            super::normalize::lemma_past_continuation(b, n + 1);
            assert(i >= j) by {
                if i < j {
                    assert(b[i] == NL);
                    let q = past_continuation(b, n + 1);
                    if i < q {
                        assert(b[i] == SPACE || b[i] == TAB || b[i] == GT);
                    }
                }
            }
            if i > j {
                lemma_scanned(b, cursors, j + 1, i);
                let e = edit(break_marker(b, i)->0, i, Seq::empty());
                let k = choose|k: int| 0 <= k < rest.len() && rest[k] == e;
                assert(all[k + 2] == e);
                if forall|h: int|
                    n <= h < i && #[trigger] doubled_break_at(b, cursors, h) ==> past_gap(b, h + 1)
                        != i {
                    let f = edit(
                        break_marker(b, past_gap(b, i + 1))->0,
                        past_gap(b, i + 1),
                        Seq::empty(),
                    );
                    assert(rest.contains(f));
                    let m = choose|m: int| 0 <= m < rest.len() && rest[m] == f;
                    assert(all[m + 2] == f);
                }
            } else {
                assert(doubled_break_at(b, cursors, n));
            }
        }
    } else {
        lemma_scanned(b, cursors, n + 1, i);
    }
}

/// Of hard breaks in a row the markers go. Where two of them come one after the
/// other, with nothing but blanks and quote marks and no cursor between them, the
/// marker of the first is stripped; that of the second too, unless the first one is
/// itself the second of two.
pub proof fn breaks_in_a_row_lose_their_markers(
    b: Seq<u8>,
    cursors: Seq<usize>,
    from: int,
    i: int,
    then: int,
    j: int,
)
    requires
        breaks_in_a_row(b, cursors, from, i, then, j),
        b.len() <= usize::MAX,
    ensures
        break_edits(b, cursors, 0).contains(edit(from, i, Seq::empty())),
        (forall|p: int| 0 <= p < i ==> #[trigger] b[p] as char != '\n') ==> break_edits(
            b,
            cursors,
            0,
        ).contains(edit(then, j, Seq::empty())),
{
    lemma_doubled(b, cursors, from, i, then, j);
    lemma_scanned(b, cursors, 0, i);
    if forall|p: int| 0 <= p < i ==> #[trigger] b[p] as char != '\n' {
        assert forall|h: int|
            0 <= h < i && #[trigger] doubled_break_at(b, cursors, h) implies past_gap(b, h + 1)
            != i by {
            assert(b[h] as char != '\n');
        }
    }
}

proof fn lemma_no_breaks(b: Seq<u8>, cursors: Seq<usize>, n: int)
    requires
        0 <= n,
        forall|i: int| 0 <= i < b.len() ==> !#[trigger] doubled_break_at(b, cursors, i),
    ensures
        break_edits(b, cursors, n) == Seq::<Edit>::empty(),
    decreases b.len() - n,
{
    if n < b.len() {
        assert(!doubled_break_at(b, cursors, n));
        lemma_no_breaks(b, cursors, n + 1);
    }
}

/// Hard breaks between lines of text stay: where something other than blanks,
/// quote marks and a backslash at its end stands on every line, nothing is edited.
pub proof fn single_breaks_stay(b: Seq<u8>, cursors: Seq<usize>)
    requires
        forall|i: int, j: int|
            0 <= i < j < b.len() && b[i] as char == '\n' && b[j] as char == '\n'
                ==> !#[trigger] nothing_between(b, i, j),
    ensures
        break_edits(b, cursors, 0) == Seq::<Edit>::empty(),
{
    assert forall|i: int| 0 <= i < b.len() implies !#[trigger] doubled_break_at(b, cursors, i) by {
        if doubled_break_at(b, cursors, i) {
            let j = past_gap(b, i + 1);
            super::normalize::lemma_past_continuation(b, i + 1);
            let q = past_continuation(b, i + 1);
            assert forall|p: int| i < p < j implies (#[trigger] b[p] as char == ' ' || b[p] as char
                == '\t' || b[p] as char == '>' || (p == j - 1 && b[p] as char == '\\')) by {
                if p < q {
                    assert(b[p] == SPACE || b[p] == TAB || b[p] == GT);
                }
            }
            assert(nothing_between(b, i, j));
        }
    }
    lemma_no_breaks(b, cursors, 0);
}

} // verus!
