//! Runs of quoted newlines: which of their positions lie inside a pair.

use vstd::prelude::*;

use super::markers::{
    back_markers, lemma_span_front, lemma_span_walks_back, lemma_span_walks_forward, marker_span,
    newline_before, past_marker_space,
};
use super::pairs::{
    break_interior, marker_cap, pair_length, pair_run, run_back, run_forward, splits_into_pairs,
    without_markers,
};
use crate::text::{newline_count, GT, NL, SPACE};

verus! {

/// Does a marker with its space stand `i` markers after `s`?
pub open spec fn marker_at(b: Seq<u8>, s: int, i: int) -> bool {
    b[s + 2 * i] == GT && b[s + 2 * i + 1] == SPACE
}

/// Do the bytes from `s` on read `> `, `d` times?
pub open spec fn quoted(b: Seq<u8>, s: int, d: nat) -> bool {
    forall|i: int| 0 <= i < d ==> #[trigger] marker_at(b, s, i)
}

/// Where segment `k` of a run of quoted newlines begins.
pub open spec fn segment(start: int, d: nat, k: int) -> int {
    start + k * (2 * d + 1)
}

/// Are there `n` segments from `start` on, each a newline and `d` times `> `?
pub open spec fn quoted_run(b: Seq<u8>, start: int, d: nat, n: nat) -> bool {
    forall|k: int|
        0 <= k < n ==> b[#[trigger] segment(start, d, k)] == NL && quoted(
            b,
            segment(start, d, k) + 1,
            d,
        )
}

proof fn lemma_segments(start: int, d: nat, k: int)
    ensures
        segment(start, d, k + 1) == segment(start, d, k) + 2 * d + 1,
        segment(start, d, 0) == start,
{
    assert((k + 1) * (2 * d + 1) == k * (2 * d + 1) + (2 * d + 1)) by (nonlinear_arith);
    assert(0 * (2 * d + 1) == 0) by (nonlinear_arith);
}

proof fn lemma_segments_grow(start: int, d: nat, j: int, k: int)
    requires
        j <= k,
    ensures
        segment(start, d, j) <= segment(start, d, k),
{
    assert(j * (2 * d + 1) <= k * (2 * d + 1)) by (nonlinear_arith)
        requires
            j <= k,
    ;
}

proof fn lemma_quotes_are_a_span(b: Seq<u8>, s: int, d: nat)
    requires
        quoted(b, s, d),
    ensures
        marker_span(b, s, s + 2 * d, d),
    decreases d,
{
    if d > 0 {
        let m = (d - 1) as nat;
        assert(marker_at(b, s, m as int));
        assert(quoted(b, s, m));
        lemma_quotes_are_a_span(b, s, m);
    }
}

/// The newline that opens segment `k` is structural.
proof fn lemma_segment_newline(b: Seq<u8>, start: int, d: nat, n: nat, k: int)
    requires
        quoted_run(b, start, d, n),
        0 <= start,
        d > 0,
        newline_before(b, start + 1),
        0 <= k < n,
    ensures
        newline_before(b, segment(start, d, k) + 1),
        0 <= segment(start, d, k),
{
    lemma_segments(start, d, k);
    lemma_segments(start, d, k - 1);
    lemma_segments_grow(start, d, 0, k);
    let s = segment(start, d, k);
    assert(b[s] == NL);
    if k > 0 {
        let before = segment(start, d, k - 1) + 1;
        assert(quoted(b, before, d));
        let i = d - 1;
        assert(marker_at(b, before, i));
        assert(s - 1 == before + 2 * i + 1);
    }
}

proof fn lemma_capped_back(b: Seq<u8>, q: int, cap: nat, most: nat)
    requires
        0 <= q,
        cap <= most,
    ensures
        back_markers(b, q, cap).at == back_markers(b, q, most).at || (back_markers(b, q, cap).at
            >= 1 && b[back_markers(b, q, cap).at - 1] != NL),
        back_markers(b, q, most).count == 0 ==> back_markers(b, q, cap).count == 0,
    decreases q,
{
    if cap == 0 {
    } else if q >= 2 && b[q - 1] == SPACE && b[q - 2] == GT {
        lemma_capped_back(b, q - 2, (cap - 1) as nat, (most - 1) as nat);
    } else if q >= 1 && b[q - 1] == GT {
        lemma_capped_back(b, q - 1, (cap - 1) as nat, (most - 1) as nat);
    }
}

/// No quoted line above reaches into the run that begins at `start`.
pub open spec fn run_opens_at(b: Seq<u8>, start: int) -> bool {
    let above = back_markers(b, start, usize::MAX as nat);
    &&& newline_before(b, start + 1)
    &&& above.count == 0 || !newline_before(b, above.at)
}

proof fn lemma_quoted_run_back(b: Seq<u8>, start: int, d: nat, n: nat, k: int, depth: Option<nat>)
    requires
        quoted_run(b, start, d, n),
        0 <= start,
        0 < d <= usize::MAX,
        run_opens_at(b, start),
        0 <= k < n,
        depth is None || depth == Some(d),
    ensures
        run_back(b, segment(start, d, k), depth, false) == (
            start,
            if k > 0 {
                Some(d)
            } else {
                depth
            },
        ),
    decreases k,
{
    let most = usize::MAX as nat;
    let cap = marker_cap(depth);
    let s = segment(start, d, k);
    lemma_segments(start, d, k);
    lemma_segments(start, d, k - 1);
    if k == 0 {
        lemma_capped_back(b, start, cap, most);
    } else {
        let before = segment(start, d, k - 1);
        lemma_segment_newline(b, start, d, n, k - 1);
        assert(quoted(b, before + 1, d));
        lemma_quotes_are_a_span(b, before + 1, d);
        lemma_span_walks_back(b, before + 1, s, d, cap);
        assert(b[before] == NL);
        assert(back_markers(b, before + 1, (cap - d) as nat).count == 0);
        lemma_quoted_run_back(b, start, d, n, k - 1, Some(d));
    }
}

proof fn lemma_quoted_run_forward(b: Seq<u8>, start: int, d: nat, n: nat, k: int)
    requires
        quoted_run(b, start, d, n),
        0 <= start,
        d > 0,
        newline_before(b, start + 1),
        0 <= k <= n,
        segment(start, d, n as int) <= b.len(),
        segment(start, d, n as int) < b.len() ==> b[segment(start, d, n as int)] != NL
            && b[segment(start, d, n as int)] != GT,
    ensures
        run_forward(b, segment(start, d, k), Some(d)) == segment(start, d, n as int),
    decreases n - k,
{
    if k < n {
        let s = segment(start, d, k);
        let next = segment(start, d, k + 1);
        lemma_segments(start, d, k);
        lemma_segments_grow(start, d, k + 1, n as int);
        lemma_segment_newline(b, start, d, n, k);
        lemma_quotes_are_a_span(b, s + 1, d);
        lemma_span_front(b, s + 1, next, d);
        assert(marker_at(b, s + 1, d - 1));
        lemma_span_walks_forward(b, s + 1, next, d, d);
        assert(past_marker_space(b, s + 1) == s + 1);
        lemma_quoted_run_forward(b, start, d, n, k + 1);
    }
}

proof fn lemma_quoted_newlines(b: Seq<u8>, start: int, d: nat, n: nat, k: int, e: int)
    requires
        quoted_run(b, start, d, n),
        0 <= k < n,
        segment(start, d, k) < e <= segment(start, d, k + 1),
    ensures
        newline_count(b, start, e) == k + 1,
    decreases k, e - segment(start, d, k),
{
    let s = segment(start, d, k);
    lemma_segments(start, d, k);
    lemma_segments_grow(start, d, 0, k);
    assert(b[s] == NL && quoted(b, s + 1, d));
    if e - 1 > s {
        let i = (e - 1 - (s + 1)) / 2;
        assert(marker_at(b, s + 1, i));
        assert(b[e - 1] != NL);
        lemma_quoted_newlines(b, start, d, n, k, e - 1);
    } else if k > 0 {
        lemma_segments(start, d, k - 1);
        lemma_quoted_newlines(b, start, d, n, k - 1, s);
    } else {
        assert(newline_count(b, start, s) == 0);
    }
}

/// The run around a position of segment `k` is the whole run.
proof fn lemma_quoted_pair_run(b: Seq<u8>, start: int, d: nat, n: nat, k: int, p: int)
    requires
        quoted_run(b, start, d, n),
        0 <= start,
        d > 0,
        0 <= k < n,
        segment(start, d, n as int) <= b.len() <= usize::MAX,
        run_opens_at(b, start),
        segment(start, d, n as int) < b.len() ==> b[segment(start, d, n as int)] != NL
            && b[segment(start, d, n as int)] != GT,
        segment(start, d, k) < p <= segment(start, d, k + 1),
    ensures
        pair_run(b, p) == Some((start, segment(start, d, n as int))),
{
    let most = usize::MAX as nat;
    let s = segment(start, d, k) + 1;
    let next = segment(start, d, k + 1);
    lemma_segments(start, d, k);
    lemma_segments_grow(start, d, 0, k);
    lemma_segments_grow(start, d, k + 1, n as int);
    lemma_segment_newline(b, start, d, n, k);
    assert(quoted(b, s, d));
    assert(b[s - 1] == NL);
    // The markers behind.
    let t = p - s;
    let m = (t / 2) as nat;
    let count = ((t + 1) / 2) as nat;
    assert(quoted(b, s, m));
    lemma_quotes_are_a_span(b, s, m);
    if t % 2 == 1 {
        assert(marker_at(b, s, m as int));
        assert(marker_span(b, s, p, count));
    }
    lemma_span_walks_back(b, s, p, count, most);
    assert(back_markers(b, s, (most - count) as nat).count == 0);
    assert(back_markers(b, p, most).count == count);
    assert(back_markers(b, p, most).at == s);
    // The markers ahead.
    let from = s + 2 * count;
    let left = (d - count) as nat;
    assert(past_marker_space(b, p) == from) by {
        if t % 2 == 1 {
            assert(marker_at(b, s, m as int));
        } else if p < b.len() && p < next {
            assert(marker_at(b, s, m as int));
        } else if t > 0 {
            assert(marker_at(b, s, m - 1));
        }
    }
    assert(quoted(b, from, left)) by {
        assert forall|i: int| 0 <= i < left implies #[trigger] marker_at(b, from, i) by {
            assert(marker_at(b, s, count + i));
        }
    }
    lemma_quotes_are_a_span(b, from, left);
    if left > 0 {
        assert(marker_at(b, s, d - 1));
    }
    assert(next < b.len() ==> b[next] != GT) by {
        if k + 1 < n {
            assert(b[segment(start, d, k + 1)] == NL);
        }
    }
    lemma_span_walks_forward(b, from, next, left, left);
    lemma_span_walks_forward(b, from, next, left, most);
    assert(!without_markers(b, p));
    lemma_quoted_run_back(b, start, d, n, k, None);
    lemma_quoted_run_forward(b, start, d, n, k + 1);
}

/// In the longest run of `n` quoted newlines of one depth, a position lies
/// inside a pair if and only if `n` is even and the position is no multiple of
/// the length of a pair from the start of the run. So a run of an odd number has
/// no forbidden position.
pub proof fn quoted_newline_runs_alternate(b: Seq<u8>, start: int, d: nat, n: nat, p: int)
    requires
        quoted_run(b, start, d, n),
        0 <= start,
        d > 0,
        segment(start, d, n as int) <= b.len() <= usize::MAX,
        run_opens_at(b, start),
        segment(start, d, n as int) < b.len() ==> b[segment(start, d, n as int)] != NL
            && b[segment(start, d, n as int)] != GT,
        start < p <= segment(start, d, n as int),
    ensures
        break_interior(b, p) <==> n % 2 == 0 && (p - start) % (4 * d + 2) as int != 0,
{
    let size = 2 * d + 1;
    let end = segment(start, d, n as int);
    let k = (p - start - 1) / (size as int);
    assert(0 <= k && k * size < p - start <= (k + 1) * size) by (nonlinear_arith)
        requires
            k == (p - start - 1) / (size as int),
            p > start,
            size > 0,
    ;
    assert(k < n) by (nonlinear_arith)
        requires
            k * size < p - start,
            p - start <= n * size,
            size > 0,
    ;
    lemma_quoted_pair_run(b, start, d, n, k, p);
    lemma_segments(start, d, n - 1);
    lemma_quoted_newlines(b, start, d, n, n - 1, end);
    assert(end - start == n * size);
    if n >= 2 && n % 2 == 0 {
        let pairs = n as int / 2;
        assert(n * size == pairs * (2 * size)) by (nonlinear_arith)
            requires
                n == 2 * pairs,
        ;
        vstd::arithmetic::div_mod::lemma_div_multiples_vanish(2 * size as int, pairs);
        vstd::arithmetic::div_mod::lemma_mod_multiples_basic(2 * size as int, pairs);
        assert(pairs * (2 * size) == (2 * size) * pairs) by (nonlinear_arith);
        assert(pair_length(b, start, end) == 2 * size);
        assert(splits_into_pairs(b, start, end));
        if p == end {
            vstd::arithmetic::div_mod::lemma_mod_multiples_basic(pairs, 2 * size as int);
        }
    } else {
        assert(n % 2 == 1);
        assert(!splits_into_pairs(b, start, end));
    }
}

} // verus!
