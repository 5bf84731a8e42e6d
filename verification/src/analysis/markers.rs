//! Walks over blockquote markers (`> `) and structural newlines.

use vstd::prelude::*;

use crate::text::{hard_break_before, is_already_hard_break, GT, NL, SPACE};

verus! {

/// Where a walk ended and how many markers it passed.
pub struct MarkerWalk {
    pub count: nat,
    pub at: int,
}

/// The walk back from `q` over at most `cap` blockquote markers, each `> ` or
/// a bare `>`.
pub open spec fn back_markers(b: Seq<u8>, q: int, cap: nat) -> MarkerWalk
    decreases q,
{
    if cap == 0 {
        MarkerWalk { count: 0, at: q }
    } else if q >= 2 && b[q - 1] == SPACE && b[q - 2] == GT {
        let rest = back_markers(b, q - 2, (cap - 1) as nat);
        MarkerWalk { count: rest.count + 1, at: rest.at }
    } else if q >= 1 && b[q - 1] == GT {
        let rest = back_markers(b, q - 1, (cap - 1) as nat);
        MarkerWalk { count: rest.count + 1, at: rest.at }
    } else {
        MarkerWalk { count: 0, at: q }
    }
}

/// Where the markers begin for a forward walk from `q`: past the space of a
/// marker whose `>` lies right before `q`.
pub open spec fn past_marker_space(b: Seq<u8>, q: int) -> int {
    if 1 <= q < b.len() && b[q] == SPACE && b[q - 1] == GT {
        q + 1
    } else {
        q
    }
}

/// The forward walk from `q` over at most `cap` whole markers.
pub open spec fn whole_markers(b: Seq<u8>, q: int, cap: nat) -> MarkerWalk
    decreases b.len() - q,
{
    if cap == 0 || q >= b.len() || b[q] != GT {
        MarkerWalk { count: 0, at: q }
    } else {
        let next = if q + 1 < b.len() && b[q + 1] == SPACE { q + 2 } else { q + 1 };
        let rest = whole_markers(b, next, (cap - 1) as nat);
        MarkerWalk { count: rest.count + 1, at: rest.at }
    }
}

/// The walk forward from `q` over at most `cap` blockquote markers.
pub open spec fn forward_markers(b: Seq<u8>, q: int, cap: nat) -> MarkerWalk {
    whole_markers(b, past_marker_space(b, q), cap)
}

/// Does a structural newline, one that ends no hard break, end at `q`?
pub open spec fn newline_before(b: Seq<u8>, q: int) -> bool {
    q >= 1 && b[q - 1] == NL && !hard_break_before(b, q - 1)
}

/// Does a structural newline begin at `q`?
pub open spec fn newline_at(b: Seq<u8>, q: int) -> bool {
    q < b.len() && b[q] == NL && !hard_break_before(b, q)
}

pub proof fn lemma_back_markers_bounds(b: Seq<u8>, q: int, cap: nat)
    requires
        0 <= q,
    ensures
        0 <= back_markers(b, q, cap).at <= q,
        back_markers(b, q, cap).count <= cap,
        back_markers(b, q, cap).count <= q - back_markers(b, q, cap).at,
        back_markers(b, q, cap).count == 0 ==> back_markers(b, q, cap).at == q,
    decreases q,
{
    if cap == 0 {
    } else if q >= 2 && b[q - 1] == SPACE && b[q - 2] == GT {
        lemma_back_markers_bounds(b, q - 2, (cap - 1) as nat);
    } else if q >= 1 && b[q - 1] == GT {
        lemma_back_markers_bounds(b, q - 1, (cap - 1) as nat);
    }
}

pub proof fn lemma_whole_markers_bounds(b: Seq<u8>, q: int, cap: nat)
    ensures
        q <= whole_markers(b, q, cap).at,
        q <= b.len() ==> whole_markers(b, q, cap).at <= b.len(),
        whole_markers(b, q, cap).count <= cap,
        whole_markers(b, q, cap).count <= whole_markers(b, q, cap).at - q,
        whole_markers(b, q, cap).count == 0 ==> whole_markers(b, q, cap).at == q,
    decreases b.len() - q,
{
    if cap == 0 || q >= b.len() || b[q] != GT {
    } else {
        let next = if q + 1 < b.len() && b[q + 1] == SPACE { q + 2 } else { q + 1 };
        lemma_whole_markers_bounds(b, next, (cap - 1) as nat);
    }
}

/// Walks `q` back over up to `cap` blockquote markers (`> ` or bare `>`) and
/// returns how many it passed.
pub fn walk_back_markers(bytes: &[u8], q: &mut usize, cap: usize) -> (count: usize)
    requires
        *old(q) <= bytes@.len(),
    ensures
        count == back_markers(bytes@, *old(q) as int, cap as nat).count,
        *final(q) == back_markers(bytes@, *old(q) as int, cap as nat).at,
        *final(q) <= *old(q),
        count == 0 ==> *final(q) == *old(q),
        count <= *old(q) - *final(q),
{
    let ghost whole = back_markers(bytes@, *q as int, cap as nat);
    let start: usize = *q;
    let mut count: usize = 0;
    while count < cap
        invariant
            count <= cap,
            *q <= start <= bytes@.len(),
            count <= start - *q,
            count == 0 ==> *q == start,
            start == *old(q),
            whole == back_markers(bytes@, *old(q) as int, cap as nat),
            whole.count == count + back_markers(bytes@, *q as int, (cap - count) as nat).count,
            whole.at == back_markers(bytes@, *q as int, (cap - count) as nat).at,
        decreases cap - count,
    {
        if *q >= 2 && bytes[*q - 1] == SPACE && bytes[*q - 2] == GT {
            *q = *q - 2;
            count = count + 1;
        } else if *q >= 1 && bytes[*q - 1] == GT {
            *q = *q - 1;
            count = count + 1;
        } else {
            return count;
        }
    }
    count
}

/// Walks `q` forward over up to `cap` blockquote markers and returns how many
/// it passed. A `q` between a `>` and its space first steps over that space
/// without counting it.
pub fn walk_forward_markers(bytes: &[u8], q: &mut usize, cap: usize) -> (count: usize)
    ensures
        count == forward_markers(bytes@, *old(q) as int, cap as nat).count,
        *final(q) == forward_markers(bytes@, *old(q) as int, cap as nat).at,
        *old(q) <= *final(q),
        *old(q) <= bytes@.len() ==> *final(q) <= bytes@.len(),
{
    let ghost whole = forward_markers(bytes@, *q as int, cap as nat);
    if *q < bytes.len() && bytes[*q] == SPACE && *q >= 1 && bytes[*q - 1] == GT {
        *q = *q + 1;
    }
    let start: usize = *q;
    let mut count: usize = 0;
    while count < cap && *q < bytes.len() && bytes[*q] == GT
        invariant
            count <= cap,
            start <= *q,
            start <= bytes@.len() ==> *q <= bytes@.len(),
            whole.count == count + whole_markers(bytes@, *q as int, (cap - count) as nat).count,
            whole.at == whole_markers(bytes@, *q as int, (cap - count) as nat).at,
        decreases cap - count,
    {
        *q = *q + 1;
        if *q < bytes.len() && bytes[*q] == SPACE {
            *q = *q + 1;
        }
        count = count + 1;
    }
    count
}

/// Walks `q` back over one structural `\n`. On failure (no `\n` before `q`, or
/// one that ends a hard break) `q` stays put.
pub fn walk_back_required_newline(bytes: &[u8], q: &mut usize) -> (found: bool)
    requires
        *old(q) <= bytes@.len(),
    ensures
        found == newline_before(bytes@, *old(q) as int),
        found ==> *final(q) == *old(q) - 1,
        !found ==> *final(q) == *old(q),
{
    if *q == 0 || bytes[*q - 1] != NL {
        return false;
    }
    if is_already_hard_break(bytes, *q - 1) {
        return false;
    }
    *q = *q - 1;
    true
}

/// Walks `q` forward over one structural `\n`. On failure `q` stays put.
pub fn walk_forward_required_newline(bytes: &[u8], q: &mut usize) -> (found: bool)
    ensures
        found == newline_at(bytes@, *old(q) as int),
        found ==> *final(q) == *old(q) + 1,
        !found ==> *final(q) == *old(q),
{
    if *q >= bytes.len() || bytes[*q] != NL {
        return false;
    }
    if is_already_hard_break(bytes, *q) {
        return false;
    }
    *q = *q + 1;
    true
}

/// Is `b[s..e]` exactly `n` markers, each `> ` or a bare `>`?
pub open spec fn marker_span(b: Seq<u8>, s: int, e: int, n: nat) -> bool
    decreases n,
{
    if n == 0 {
        s == e
    } else {
        ||| e - s >= 2 && b[e - 1] == SPACE && b[e - 2] == GT && marker_span(
            b,
            s,
            e - 2,
            (n - 1) as nat,
        )
        ||| e - s >= 1 && b[e - 1] == GT && marker_span(b, s, e - 1, (n - 1) as nat)
    }
}

pub proof fn lemma_span_join(b: Seq<u8>, s: int, m: int, e: int, n1: nat, n2: nat)
    requires
        marker_span(b, s, m, n1),
        marker_span(b, m, e, n2),
        s <= m <= e,
    ensures
        marker_span(b, s, e, n1 + n2),
    decreases n2,
{
    if n2 > 0 {
        if e - m >= 2 && b[e - 1] == SPACE && b[e - 2] == GT && marker_span(
            b,
            m,
            e - 2,
            (n2 - 1) as nat,
        ) {
            lemma_span_join(b, s, m, e - 2, n1, (n2 - 1) as nat);
        } else {
            lemma_span_join(b, s, m, e - 1, n1, (n2 - 1) as nat);
        }
    }
}

pub proof fn lemma_forward_is_span(b: Seq<u8>, q: int, cap: nat)
    ensures
        marker_span(b, q, whole_markers(b, q, cap).at, whole_markers(b, q, cap).count),
    decreases b.len() - q,
{
    if cap == 0 || q >= b.len() || b[q] != GT {
    } else {
        let next = if q + 1 < b.len() && b[q + 1] == SPACE { q + 2 } else { q + 1 };
        lemma_forward_is_span(b, next, (cap - 1) as nat);
        lemma_whole_markers_bounds(b, next, (cap - 1) as nat);
        assert(marker_span(b, q, q, 0));
        assert(marker_span(b, q, next, 1));
        lemma_span_join(
            b,
            q,
            next,
            whole_markers(b, q, cap).at,
            1,
            whole_markers(b, next, (cap - 1) as nat).count,
        );
    }
}

pub proof fn lemma_back_is_span(b: Seq<u8>, q: int, cap: nat)
    requires
        0 <= q,
    ensures
        marker_span(b, back_markers(b, q, cap).at, q, back_markers(b, q, cap).count),
    decreases q,
{
    if cap == 0 {
    } else if q >= 2 && b[q - 1] == SPACE && b[q - 2] == GT {
        lemma_back_is_span(b, q - 2, (cap - 1) as nat);
        lemma_back_markers_bounds(b, q - 2, (cap - 1) as nat);
    } else if q >= 1 && b[q - 1] == GT {
        lemma_back_is_span(b, q - 1, (cap - 1) as nat);
        lemma_back_markers_bounds(b, q - 1, (cap - 1) as nat);
    }
}

/// Walking back over a span of `n` markers with room for them all.
pub proof fn lemma_span_walks_back(b: Seq<u8>, s: int, e: int, n: nat, cap: nat)
    requires
        0 <= s <= e,
        marker_span(b, s, e, n),
        n <= cap,
    ensures
        back_markers(b, e, cap).count == n + back_markers(b, s, (cap - n) as nat).count,
        back_markers(b, e, cap).at == back_markers(b, s, (cap - n) as nat).at,
    decreases n,
{
    if n > 0 {
        if e - s >= 2 && b[e - 1] == SPACE && b[e - 2] == GT && marker_span(
            b,
            s,
            e - 2,
            (n - 1) as nat,
        ) {
            lemma_span_walks_back(b, s, e - 2, (n - 1) as nat, (cap - 1) as nat);
        } else {
            lemma_span_walks_back(b, s, e - 1, (n - 1) as nat, (cap - 1) as nat);
        }
    }
}

/// The first marker of a nonempty span.
pub proof fn lemma_span_front(b: Seq<u8>, s: int, e: int, n: nat)
    requires
        s <= e,
        marker_span(b, s, e, n),
        n > 0,
    ensures
        s < e,
        b[s] == GT,
        ({
            ||| s + 2 <= e && b[s + 1] == SPACE && marker_span(b, s + 2, e, (n - 1) as nat)
            ||| marker_span(b, s + 1, e, (n - 1) as nat) && (s + 1 == e || b[s + 1] == GT)
        }),
    decreases n,
{
    if n == 1 {
        assert(marker_span(b, s, e - 1, 0) || marker_span(b, s, e - 2, 0));
        if e - s >= 2 && b[e - 1] == SPACE && b[e - 2] == GT && marker_span(b, s, e - 2, 0) {
            assert(marker_span(b, s + 2, e, 0));
        } else {
            assert(marker_span(b, s + 1, e, 0));
        }
    } else if e - s >= 2 && b[e - 1] == SPACE && b[e - 2] == GT && marker_span(
        b,
        s,
        e - 2,
        (n - 1) as nat,
    ) {
        lemma_span_front(b, s, e - 2, (n - 1) as nat);
    } else {
        lemma_span_front(b, s, e - 1, (n - 1) as nat);
    }
}

/// Walking forward over a span of `n` markers ends where it ends, unless the
/// span stops between a `>` and its space.
pub proof fn lemma_span_walks_forward(b: Seq<u8>, s: int, e: int, n: nat, cap: nat)
    requires
        0 <= s <= e <= b.len(),
        marker_span(b, s, e, n),
        n <= cap,
        cap == n || e == b.len() || b[e] != GT,
        n > 0 && e < b.len() && b[e] == SPACE ==> b[e - 1] != GT,
    ensures
        whole_markers(b, s, cap).count == n,
        whole_markers(b, s, cap).at == e,
    decreases n,
{
    if n > 0 {
        lemma_span_front(b, s, e, n);
        if s + 2 <= e && b[s + 1] == SPACE && marker_span(b, s + 2, e, (n - 1) as nat) {
            lemma_span_walks_forward(b, s + 2, e, (n - 1) as nat, (cap - 1) as nat);
        } else {
            lemma_span_walks_forward(b, s + 1, e, (n - 1) as nat, (cap - 1) as nat);
        }
    }
}

} // verus!
