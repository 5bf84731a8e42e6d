//! Structural paragraph-break pairs: `\n[prefix]\n[prefix]` with both prefixes
//! made of the same number of `> ` markers.

use core::ops::Range;

use vstd::prelude::*;

use super::markers::{
    back_markers, forward_markers, lemma_back_is_span, lemma_back_markers_bounds,
    lemma_forward_is_span, lemma_span_front, lemma_span_walks_back, lemma_span_walks_forward,
    lemma_whole_markers_bounds, marker_span, newline_at, newline_before, past_marker_space,
    walk_back_markers, walk_back_required_newline, walk_forward_markers,
    walk_forward_required_newline,
};
use crate::text::{
    count_newlines, hard_break_before, is_already_hard_break, lemma_line_end_bounds,
    lemma_line_start_bounds, line_end, line_start, line_start_offset, newline_count, next_line_end,
    same_offset, spans, GT, NL, SPACE, TAB,
};

verus! {

// ---------------------------------------------------------------------------
// Markers that open a line
// ---------------------------------------------------------------------------

/// Past at most `n` spaces from `q`.
pub open spec fn past_spaces(b: Seq<u8>, q: int, n: nat) -> int
    decreases n,
{
    if n == 0 || q >= b.len() || b[q] != SPACE {
        q
    } else {
        past_spaces(b, q + 1, (n - 1) as nat)
    }
}

/// The blockquote markers that open the line at `q`: how many there are, and
/// the offset right after the last one. Each marker is `>`, may be indented by
/// up to three spaces and may be followed by one space.
pub open spec fn line_markers(b: Seq<u8>, q: int) -> (nat, int)
    decreases b.len() - q,
{
    let r = past_spaces(b, q, 3);
    if q <= r < b.len() && b[r] == GT {
        let next = if r + 1 < b.len() && b[r + 1] == SPACE { r + 2 } else { r + 1 };
        let rest = line_markers(b, next);
        (rest.0 + 1, rest.1)
    } else {
        (0, q)
    }
}

pub proof fn lemma_past_spaces_bounds(b: Seq<u8>, q: int, n: nat)
    ensures
        q <= past_spaces(b, q, n) <= q + n,
        q <= b.len() ==> past_spaces(b, q, n) <= b.len(),
        forall|i: int| q <= i < past_spaces(b, q, n) ==> b[i] == SPACE,
    decreases n,
{
    if n == 0 || q >= b.len() || b[q] != SPACE {
    } else {
        lemma_past_spaces_bounds(b, q + 1, (n - 1) as nat);
    }
}

pub proof fn lemma_line_markers_bounds(b: Seq<u8>, q: int)
    ensures
        q <= line_markers(b, q).1,
        line_markers(b, q).0 <= line_markers(b, q).1 - q,
        q <= b.len() ==> line_markers(b, q).1 <= b.len(),
        forall|i: int| q <= i < line_markers(b, q).1 ==> b[i] != NL,
    decreases b.len() - q,
{
    lemma_past_spaces_bounds(b, q, 3);
    let r = past_spaces(b, q, 3);
    if q <= r < b.len() && b[r] == GT {
        let next = if r + 1 < b.len() && b[r + 1] == SPACE { r + 2 } else { r + 1 };
        lemma_line_markers_bounds(b, next);
    }
}

/// Counts the blockquote markers that open the line at `line_start`; also
/// returns the offset right after them.
pub fn count_line_markers(bytes: &[u8], line_start: usize) -> (result: (usize, usize))
    ensures
        result.0 == line_markers(bytes@, line_start as int).0,
        result.1 == line_markers(bytes@, line_start as int).1,
{
    let mut q: usize = line_start;
    let mut markers: usize = 0;
    proof {
        lemma_line_markers_bounds(bytes@, line_start as int);
    }
    loop
        invariant
            line_start <= q,
            markers <= q - line_start,
            line_start > bytes@.len() ==> q == line_start,
            line_start <= bytes@.len() ==> q <= bytes@.len(),
            line_markers(bytes@, line_start as int).0 == markers + line_markers(bytes@, q as int).0,
            line_markers(bytes@, line_start as int).1 == line_markers(bytes@, q as int).1,
        decreases bytes@.len() - q,
    {
        let q0: usize = q;
        let mut indent: usize = 0;
        while q < bytes.len() && bytes[q] == SPACE && indent < 3
            invariant
                indent <= 3,
                q0 <= q,
                q == q0 + indent,
                line_start <= bytes@.len() ==> q <= bytes@.len(),
                line_start > bytes@.len() ==> q == line_start,
                past_spaces(bytes@, q0 as int, 3) == past_spaces(
                    bytes@,
                    q as int,
                    (3 - indent) as nat,
                ),
            decreases 3 - indent,
        {
            q = q + 1;
            indent = indent + 1;
        }
        if q < bytes.len() && bytes[q] == GT {
            q = q + 1;
            if q < bytes.len() && bytes[q] == SPACE {
                q = q + 1;
            }
            markers = markers + 1;
            continue ;
        }
        return (markers, q0);
    }
}

/// Depth (count of leading markers) of the line that ends at `line_end_excl`.
pub fn line_depth_ending_at(bytes: &[u8], line_end_excl: usize) -> (depth: usize)
    requires
        line_end_excl <= bytes@.len(),
    ensures
        depth == line_markers(bytes@, line_start(bytes@, line_end_excl as int)).0,
{
    let s = line_start_offset(bytes, line_end_excl);
    let (markers, _) = count_line_markers(bytes, s);
    markers
}

/// Is `b[s..e]` made of spaces and tabs only?
pub open spec fn blank(b: Seq<u8>, s: int, e: int) -> bool {
    forall|i: int| s <= i < e ==> b[i] == SPACE || b[i] == TAB
}

/// Does the line `b[s..e]` hold at least one marker and nothing but blanks
/// after its markers?
pub open spec fn marker_only(b: Seq<u8>, s: int, e: int) -> bool {
    line_markers(b, s).0 > 0 && blank(b, line_markers(b, s).1, e)
}

fn is_marker_only_range(bytes: &[u8], line_start: usize, line_end_excl: usize) -> (found: bool)
    requires
        line_end_excl <= bytes@.len(),
        line_markers(bytes@, line_start as int).0 > 0 ==> line_markers(bytes@, line_start as int).1
            <= line_end_excl,
    ensures
        found == marker_only(bytes@, line_start as int, line_end_excl as int),
{
    let (markers, after) = count_line_markers(bytes, line_start);
    if markers == 0 {
        return false;
    }
    let mut i: usize = after;
    while i < line_end_excl
        invariant
            after <= i <= line_end_excl <= bytes@.len(),
            markers == line_markers(bytes@, line_start as int).0,
            markers > 0,
            after == line_markers(bytes@, line_start as int).1,
            blank(bytes@, after as int, i as int),
        decreases line_end_excl - i,
    {
        if bytes[i] != SPACE && bytes[i] != TAB {
            return false;
        }
        i = i + 1;
    }
    true
}

/// Is the line that ends at `line_end_excl` marker-only: at least one marker,
/// and only blanks after the markers?
pub fn is_marker_only_line_ending_at(bytes: &[u8], line_end_excl: usize) -> (found: bool)
    requires
        line_end_excl <= bytes@.len(),
        ({
            let m = line_markers(bytes@, line_start(bytes@, line_end_excl as int));
            m.0 > 0 ==> m.1 <= line_end_excl
        }),
    ensures
        found == marker_only(
            bytes@,
            line_start(bytes@, line_end_excl as int),
            line_end_excl as int,
        ),
{
    let start = line_start_offset(bytes, line_end_excl);
    is_marker_only_range(bytes, start, line_end_excl)
}

/// Is the line that begins at `line_start` marker-only?
pub fn is_marker_only_line_starting_at(bytes: &[u8], line_start: usize) -> (found: bool)
    ensures
        found == marker_only(
            bytes@,
            line_start as int,
            line_end(bytes@, line_start as int, bytes@.len() as int),
        ),
{
    let end = next_line_end(bytes, line_start, bytes.len());
    proof {
        lemma_line_markers_bounds(bytes@, line_start as int);
        if line_start <= bytes@.len() {
            lemma_line_end_bounds(bytes@, line_start as int, bytes@.len() as int);
        }
    }
    if line_start > bytes.len() {
        return false;
    }
    is_marker_only_range(bytes, line_start, end)
}

// ---------------------------------------------------------------------------
// Runs of pairs
// ---------------------------------------------------------------------------

/// The most markers a walk may pass when no prefix has set the depth yet.
pub open spec fn marker_cap(depth: Option<nat>) -> nat {
    match depth {
        Some(d) => d,
        None => usize::MAX as nat,
    }
}

/// The start of the run that reaches back from `s`, and the depth of its
/// prefixes: whole `\n[prefix]` segments of one depth are taken in, the first
/// of them setting the depth where it is still open. Segments without a marker
/// belong to a `bare` run only.
pub open spec fn run_back(b: Seq<u8>, s: int, depth: Option<nat>, bare: bool) -> (
    int,
    Option<nat>,
)
    decreases s,
{
    let walk = back_markers(b, s, marker_cap(depth));
    if (walk.count == 0 && !bare) || !newline_before(b, walk.at) || walk.at - 1 >= s {
        (s, depth)
    } else if depth is Some && depth->0 != walk.count {
        (s, depth)
    } else {
        run_back(b, walk.at - 1, Some(walk.count), bare)
    }
}

/// The end of the run that reaches forward from `e`: whole `\n[prefix]`
/// segments of the given depth are taken in, the first of them setting the
/// depth where it is still open.
pub open spec fn run_forward(b: Seq<u8>, e: int, depth: Option<nat>) -> int
    decreases b.len() - e,
{
    if !newline_at(b, e) {
        e
    } else {
        let walk = forward_markers(b, e + 1, marker_cap(depth));
        if !(e < walk.at <= b.len()) || (depth is Some && walk.count != depth->0) {
            e
        } else {
            run_forward(b, walk.at, Some(walk.count))
        }
    }
}

/// Does no marker stand right before or at `p`?
pub open spec fn without_markers(b: Seq<u8>, p: int) -> bool {
    &&& back_markers(b, p, usize::MAX as nat).count == 0
    &&& forward_markers(b, p, usize::MAX as nat).count == 0
}

/// The run of pairs around `p`, if `p` lies in the prefix of one:
/// `[run start, run end)`, as far as it reaches in both directions.
pub open spec fn pair_run(b: Seq<u8>, p: int) -> Option<(int, int)> {
    let behind = back_markers(b, p, usize::MAX as nat);
    if !newline_before(b, behind.at) {
        None
    } else {
        let (start, depth) = run_back(b, behind.at - 1, None, without_markers(b, p));
        let needed = match depth {
            Some(d) => if d >= behind.count {
                (d - behind.count) as nat
            } else {
                0
            },
            None => usize::MAX as nat,
        };
        let ahead = forward_markers(b, p, needed);
        let total = behind.count + ahead.count;
        if depth is Some && total != depth->0 {
            None
        } else {
            let settled = if depth is None && total > 0 {
                Some(total)
            } else {
                depth
            };
            Some((start, run_forward(b, ahead.at, settled)))
        }
    }
}

/// Does the run `[start, end)` split evenly into pairs of `pair_len` bytes,
/// two newlines each, with prefixes of whole markers?
pub open spec fn splits_into_pairs(b: Seq<u8>, start: int, end: int) -> bool {
    let newlines = newline_count(b, start, end) as int;
    &&& end - start >= 2
    &&& newlines >= 2
    &&& newlines % 2 == 0
    &&& (end - start) % (newlines / 2) == 0
    &&& pair_length(b, start, end) >= 2
    &&& (pair_length(b, start, end) - 2) % 4 == 0
}

/// Length of one pair of the run `[start, end)`.
pub open spec fn pair_length(b: Seq<u8>, start: int, end: int) -> int {
    (end - start) / (newline_count(b, start, end) as int / 2)
}

/// Does `p` lie strictly inside a structural pair? The run of pairs around `p`
/// splits into pairs, and `p` is neither an end of the run nor a seam between
/// two of its pairs.
pub open spec fn break_interior(b: Seq<u8>, p: int) -> bool {
    &&& 0 < p <= b.len()
    &&& pair_run(b, p) matches Some((start, end)) && {
        &&& splits_into_pairs(b, start, end)
        &&& start < p < end
        &&& (p - start) % pair_length(b, start, end) != 0
    }
}

/// The back half of the scan in [`is_paragraph_break_interior`].
fn scan_run_back(bytes: &[u8], from: usize, bare: bool) -> (result: (usize, Option<usize>))
    requires
        from <= bytes@.len(),
    ensures
        result.0 == run_back(bytes@, from as int, None, bare).0,
        result.0 <= from,
        result.1 is Some == run_back(bytes@, from as int, None, bare).1 is Some,
        result.1 is Some ==> result.1->0 == run_back(bytes@, from as int, None, bare).1->0,
{
    let mut run_start: usize = from;
    let mut depth: Option<usize> = None;
    loop
        invariant
            run_start <= from <= bytes@.len(),
            run_back(bytes@, from as int, None, bare) == run_back(
                bytes@,
                run_start as int,
                match depth {
                    Some(d) => Some(d as nat),
                    None => None,
                },
                bare,
            ),
        decreases run_start,
    {
        let mut q: usize = run_start;
        let cap: usize = match depth {
            Some(d) => d,
            None => usize::MAX,
        };
        let count = walk_back_markers(bytes, &mut q, cap);
        if count == 0 && !bare {
            return (run_start, depth);
        }
        if !walk_back_required_newline(bytes, &mut q) {
            return (run_start, depth);
        }
        if let Some(d) = depth {
            if d != count {
                return (run_start, depth);
            }
        }
        depth = Some(count);
        run_start = q;
    }
}

/// The forward half of the scan in [`is_paragraph_break_interior`].
fn scan_run_forward(bytes: &[u8], from: usize, depth: Option<usize>) -> (end: usize)
    requires
        from <= bytes@.len(),
    ensures
        end == run_forward(
            bytes@,
            from as int,
            match depth {
                Some(d) => Some(d as nat),
                None => None,
            },
        ),
        from <= end <= bytes@.len(),
{
    let ghost wanted = run_forward(
        bytes@,
        from as int,
        match depth {
            Some(d) => Some(d as nat),
            None => None,
        },
    );
    let mut run_end: usize = from;
    let mut settled: Option<usize> = depth;
    loop
        invariant
            from <= run_end <= bytes@.len(),
            wanted == run_forward(
                bytes@,
                from as int,
                match depth {
                    Some(d) => Some(d as nat),
                    None => None,
                },
            ),
            wanted == run_forward(
                bytes@,
                run_end as int,
                match settled {
                    Some(d) => Some(d as nat),
                    None => None,
                },
            ),
        decreases bytes@.len() - run_end,
    {
        let mut q: usize = run_end;
        if !walk_forward_required_newline(bytes, &mut q) {
            return run_end;
        }
        let cap: usize = match settled {
            Some(d) => d,
            None => usize::MAX,
        };
        let consumed = walk_forward_markers(bytes, &mut q, cap);
        if let Some(d) = settled {
            if consumed != d {
                return run_end;
            }
        }
        settled = Some(consumed);
        run_end = q;
    }
}

/// Does `p` sit strictly inside a structural pair?
///
/// The pair is the depth-D form of `\n\n`: `\n[prefix]\n[prefix]` with
/// `[prefix]` being `> ` repeated D times. Within a run of pairs the allowed
/// positions are the ends of the run and the seams between its pairs; every
/// other position of the run is interior. A run with an odd number of newlines
/// is no sequence of pairs and has no interior.
pub fn is_paragraph_break_interior(bytes: &[u8], p: usize) -> (found: bool)
    ensures
        found == break_interior(bytes@, p as int),
{
    if p == 0 || p > bytes.len() {
        return false;
    }
    let mut q: usize = p;
    let behind = walk_back_markers(bytes, &mut q, usize::MAX);
    if !walk_back_required_newline(bytes, &mut q) {
        return false;
    }
    let mut next: usize = p;
    let bare = behind == 0 && walk_forward_markers(bytes, &mut next, usize::MAX) == 0;
    let (run_start, depth) = scan_run_back(bytes, q, bare);
    let mut ahead_at: usize = p;
    let needed: usize = match depth {
        Some(d) => if d >= behind {
            d - behind
        } else {
            0
        },
        None => usize::MAX,
    };
    let ahead = walk_forward_markers(bytes, &mut ahead_at, needed);
    proof {
        lemma_whole_markers_bounds(bytes@, past_marker_space(bytes@, p as int), needed as nat);
    }
    let total: usize = behind + ahead;
    let mut settled: Option<usize> = depth;
    if let Some(d) = depth {
        if total != d {
            return false;
        }
    } else if total > 0 {
        settled = Some(total);
    }
    let run_end = scan_run_forward(bytes, ahead_at, settled);
    let run_len: usize = run_end - run_start;
    if run_len < 2 {
        return false;
    }
    let newlines = count_newlines(bytes, run_start, run_end);
    if newlines < 2 || newlines % 2 != 0 {
        return false;
    }
    let pairs: usize = newlines / 2;
    if run_len % pairs != 0 {
        return false;
    }
    let pair_len: usize = run_len / pairs;
    if pair_len < 2 || (pair_len - 2) % 4 != 0 {
        return false;
    }
    let offset: usize = p - run_start;
    offset > 0 && offset < run_len && offset % pair_len != 0
}

// ---------------------------------------------------------------------------
// Soft breaks
// ---------------------------------------------------------------------------

/// Is the `\n` at `p` a soft break, a lone newline between two lines of
/// paragraph content? It is not at an edge of the buffer, not next to another
/// newline, not a hard break, not part of a pair, and neither line beside it
/// is marker-only.
pub open spec fn soft_break(b: Seq<u8>, p: int) -> bool {
    &&& b[p] == NL
    &&& 0 < p < b.len() - 1
    &&& b[p - 1] != NL
    &&& b[p + 1] != NL
    &&& !hard_break_before(b, p)
    &&& !break_interior(b, p)
    &&& !break_interior(b, p + 1)
    &&& !marker_only(b, line_start(b, p), p)
    &&& !marker_only(b, p + 1, line_end(b, p + 1, b.len() as int))
}

/// Is the `\n` at byte `p` a soft break?
pub fn is_soft_break(bytes: &[u8], p: usize) -> (found: bool)
    requires
        p < bytes@.len(),
    ensures
        found == soft_break(bytes@, p as int),
{
    if bytes[p] != NL {
        return false;
    }
    if p == 0 || p + 1 >= bytes.len() {
        return false;
    }
    if bytes[p - 1] == NL || bytes[p + 1] == NL {
        return false;
    }
    if is_already_hard_break(bytes, p) {
        return false;
    }
    if is_paragraph_break_interior(bytes, p) || is_paragraph_break_interior(bytes, p + 1) {
        return false;
    }
    proof {
        lemma_line_start_bounds(bytes@, p as int);
        lemma_line_markers_bounds(bytes@, line_start(bytes@, p as int));
    }
    if is_marker_only_line_ending_at(bytes, p) || is_marker_only_line_starting_at(bytes, p + 1) {
        return false;
    }
    true
}

// ---------------------------------------------------------------------------
// Pairs at a boundary
// ---------------------------------------------------------------------------

/// The first marker on the line that begins at `start`: `> `, a bare `>`, or
/// nothing.
pub open spec fn first_marker(b: Seq<u8>, start: int) -> (int, int) {
    if start < b.len() && b[start] == GT {
        (start, if start + 1 < b.len() && b[start + 1] == SPACE { start + 2 } else { start + 1 })
    } else {
        (start, start)
    }
}

fn first_marker_range(bytes: &[u8], start: usize) -> (range: Range<usize>)
    ensures
        spans(range, first_marker(bytes@, start as int).0, first_marker(bytes@, start as int).1),
{
    let mut p: usize = start;
    if p < bytes.len() && bytes[p] == GT {
        p = p + 1;
        if p < bytes.len() && bytes[p] == SPACE {
            p = p + 1;
        }
    }
    start..p
}

/// The starts of the two marker prefixes of `\n[markers]\n[markers]` ending at
/// `cursor`, the one above first; the prefixes may differ in depth.
pub open spec fn prefixes_ending_at(b: Seq<u8>, cursor: int) -> Option<(int, int)> {
    let below = back_markers(b, cursor, usize::MAX as nat);
    if below.count == 0 || !newline_before(b, below.at) {
        None
    } else {
        let above = back_markers(b, below.at - 1, usize::MAX as nat);
        if above.count == 0 || !newline_before(b, above.at) {
            None
        } else {
            Some((above.at, below.at))
        }
    }
}

/// The two marker ranges to remove, `(above, current)`, when Backspace at
/// `cursor` decreases the depth of a quoted paragraph that follows another
/// quoted line.
pub fn bq_paragraph_outdent(bytes: &[u8], cursor: usize) -> (result: Option<
    (Range<usize>, Range<usize>),
>)
    requires
        cursor <= bytes@.len(),
    ensures
        match prefixes_ending_at(bytes@, cursor as int) {
            None => result is None,
            Some((above, below)) => result matches Some((high, low)) && {
                &&& spans(high, first_marker(bytes@, above).0, first_marker(bytes@, above).1)
                &&& spans(low, first_marker(bytes@, below).0, first_marker(bytes@, below).1)
            },
        },
{
    let mut q: usize = cursor;
    let below = walk_back_markers(bytes, &mut q, usize::MAX);
    if below == 0 {
        return None;
    }
    let below_start: usize = q;
    if !walk_back_required_newline(bytes, &mut q) {
        return None;
    }
    let above = walk_back_markers(bytes, &mut q, usize::MAX);
    if above == 0 {
        return None;
    }
    let above_start: usize = q;
    if !walk_back_required_newline(bytes, &mut q) {
        return None;
    }
    Some((first_marker_range(bytes, above_start), first_marker_range(bytes, below_start)))
}

/// Start of the pair that ends at `cursor`: prefix, newline, prefix of the
/// same depth, newline, read backward.
pub open spec fn pair_ending(b: Seq<u8>, cursor: int) -> Option<int> {
    let low = back_markers(b, cursor, usize::MAX as nat);
    if !newline_before(b, low.at) {
        None
    } else {
        let high = back_markers(b, low.at - 1, low.count);
        if high.count != low.count || !newline_before(b, high.at) {
            None
        } else {
            Some(high.at - 1)
        }
    }
}

/// End of the pair that starts at `cursor`.
pub open spec fn pair_starting(b: Seq<u8>, cursor: int) -> Option<int> {
    if !newline_at(b, cursor) {
        None
    } else {
        let high = forward_markers(b, cursor + 1, usize::MAX as nat);
        if !newline_at(b, high.at) {
            None
        } else {
            let low = forward_markers(b, high.at + 1, high.count);
            if low.count != high.count {
                None
            } else {
                Some(low.at)
            }
        }
    }
}

/// If `cursor` sits at the end of a structural pair, the pair's start.
pub fn pair_at_end(bytes: &[u8], cursor: usize) -> (result: Option<usize>)
    requires
        cursor <= bytes@.len(),
    ensures
        same_offset(result, pair_ending(bytes@, cursor as int)),
{
    let mut q: usize = cursor;
    let low = walk_back_markers(bytes, &mut q, usize::MAX);
    if !walk_back_required_newline(bytes, &mut q) {
        return None;
    }
    let high = walk_back_markers(bytes, &mut q, low);
    if high != low {
        return None;
    }
    if !walk_back_required_newline(bytes, &mut q) {
        return None;
    }
    Some(q)
}

/// If `cursor` sits at the start of a structural pair, the pair's end.
pub fn pair_at_start(bytes: &[u8], cursor: usize) -> (result: Option<usize>)
    ensures
        same_offset(result, pair_starting(bytes@, cursor as int)),
{
    let mut q: usize = cursor;
    if !walk_forward_required_newline(bytes, &mut q) {
        return None;
    }
    let high = walk_forward_markers(bytes, &mut q, usize::MAX);
    if !walk_forward_required_newline(bytes, &mut q) {
        return None;
    }
    let low = walk_forward_markers(bytes, &mut q, high);
    if low != high {
        return None;
    }
    Some(q)
}

// ---------------------------------------------------------------------------
// Laws
// ---------------------------------------------------------------------------

/// A pair found forward from its start is found backward from its end.
pub proof fn pair_found_forward_is_found_backward(b: Seq<u8>, start: int)
    requires
        0 <= start,
        b.len() <= usize::MAX,
        pair_starting(b, start) is Some,
    ensures
        pair_ending(b, pair_starting(b, start)->0) == Some(start),
{
    let most = usize::MAX as nat;
    let high = forward_markers(b, start + 1, most);
    let low = forward_markers(b, high.at + 1, high.count);
    lemma_whole_markers_bounds(b, start + 1, most);
    lemma_whole_markers_bounds(b, high.at + 1, high.count);
    lemma_forward_is_span(b, start + 1, most);
    lemma_forward_is_span(b, high.at + 1, high.count);
    lemma_span_walks_back(b, high.at + 1, low.at, low.count, most);
    lemma_span_walks_back(b, start + 1, high.at, high.count, high.count);
}

/// A pair found backward from its end is found forward from its start, unless
/// that end lies between a `>` and the space after it.
pub proof fn pair_found_backward_is_found_forward(b: Seq<u8>, end: int)
    requires
        0 <= end <= b.len() <= usize::MAX,
        pair_ending(b, end) is Some,
        !(1 <= end < b.len() && b[end - 1] == GT && b[end] == SPACE),
    ensures
        pair_starting(b, pair_ending(b, end)->0) == Some(end),
{
    let most = usize::MAX as nat;
    let low = back_markers(b, end, most);
    let high = back_markers(b, low.at - 1, low.count);
    lemma_back_markers_bounds(b, end, most);
    lemma_back_markers_bounds(b, low.at - 1, low.count);
    lemma_back_is_span(b, end, most);
    lemma_back_is_span(b, low.at - 1, low.count);
    lemma_span_walks_forward(b, high.at, low.at - 1, high.count, most);
    lemma_span_walks_forward(b, low.at, end, low.count, high.count);
}

/// The text without the two marker ranges.
pub open spec fn outdented(b: Seq<u8>, high: (int, int), low: (int, int)) -> Seq<u8> {
    b.take(high.0) + b.subrange(high.1, low.0) + b.skip(low.1)
}

/// Where the cursor stands in the text without the two marker ranges.
pub open spec fn outdented_cursor(cursor: int, high: (int, int), low: (int, int)) -> int {
    low.0 - (high.1 - high.0) + if cursor >= low.1 {
        cursor - low.1
    } else {
        0
    }
}

proof fn lemma_span_shifts(b: Seq<u8>, c: Seq<u8>, s: int, e: int, d: int, n: nat)
    requires
        s <= e,
        marker_span(b, s, e, n),
        forall|k: int| s <= k < e ==> c[k - d] == #[trigger] b[k],
    ensures
        marker_span(c, s - d, e - d, n),
    decreases n,
{
    if n > 0 {
        if e - s >= 2 && b[e - 1] == SPACE && b[e - 2] == GT && marker_span(
            b,
            s,
            e - 2,
            (n - 1) as nat,
        ) {
            lemma_span_shifts(b, c, s, e - 2, d, (n - 1) as nat);
            assert(c[e - 1 - d] == b[e - 1] && c[e - 2 - d] == b[e - 2]);
        } else {
            lemma_span_shifts(b, c, s, e - 1, d, (n - 1) as nat);
            assert(c[e - 1 - d] == b[e - 1]);
        }
    }
}

/// Decreasing the depth of a quoted paragraph leaves a pair where there was one:
/// both of its lines lose a marker.
pub proof fn outdenting_keeps_the_pair(b: Seq<u8>, cursor: int)
    requires
        0 <= cursor <= b.len() <= usize::MAX,
        prefixes_ending_at(b, cursor) is Some,
        pair_ending(b, cursor) is Some,
    ensures
        ({
            let (above, below) = prefixes_ending_at(b, cursor)->0;
            let high = first_marker(b, above);
            let low = first_marker(b, below);
            pair_ending(outdented(b, high, low), outdented_cursor(cursor, high, low))
                == pair_ending(b, cursor)
        }),
{
    let most = usize::MAX as nat;
    let (above, below) = prefixes_ending_at(b, cursor)->0;
    let n = back_markers(b, cursor, most).count;
    lemma_back_markers_bounds(b, cursor, most);
    lemma_back_is_span(b, cursor, most);
    let capped_walk = back_markers(b, below - 1, n);
    lemma_back_markers_bounds(b, below - 1, n);
    lemma_back_is_span(b, below - 1, n);
    lemma_span_walks_back(b, capped_walk.at, below - 1, n, most);
    assert(back_markers(b, capped_walk.at, (most - n) as nat).count == 0);
    assert(above == capped_walk.at);
    lemma_span_front(b, above, below - 1, n);
    lemma_span_front(b, below, cursor, n);
    let high = first_marker(b, above);
    let low = first_marker(b, below);
    let d = high.1 - high.0;
    let c = outdented(b, high, low);
    let m = (n - 1) as nat;
    assert(marker_span(b, high.1, below - 1, m));
    assert forall|k: int| high.1 <= k < below - 1 implies c[k - d] == #[trigger] b[k] by {}
    lemma_span_shifts(b, c, high.1, below - 1, d, m);
    let start = if low.1 <= cursor {
        low.1
    } else {
        cursor
    };
    assert(marker_span(b, start, cursor, m));
    let e = start - below + d;
    let end = outdented_cursor(cursor, high, low);
    if low.1 <= cursor {
        assert forall|k: int| start <= k < cursor implies c[k - e] == #[trigger] b[k] by {}
        lemma_span_shifts(b, c, start, cursor, e, m);
    }
    assert(marker_span(c, below - d, end, m));
    lemma_span_walks_back(c, below - d, end, m, most);
    assert(c[below - d - 1] == NL);
    assert(back_markers(c, below - d, (most - m) as nat).count == 0);
    lemma_span_walks_back(c, above, below - 1 - d, m, m);
    assert(c[above - 1] == b[above - 1]);
    assert(newline_before(c, above)) by {
        if above >= 3 {
            assert(c[above - 3] == b[above - 3]);
        }
        if above >= 2 {
            assert(c[above - 2] == b[above - 2]);
        }
    }
    assert(newline_before(c, below - d)) by {
        if m == 0 {
            assert(c[below - d - 2] == c[above - 1]);
        }
    }
}

proof fn lemma_newlines_run_forward(b: Seq<u8>, k: int, end: int)
    requires
        1 <= k <= end <= b.len(),
        b[k - 1] == NL,
        forall|i: int| k <= i < end ==> b[i] == NL,
        end < b.len() ==> b[end] != NL && b[end] != GT,
    ensures
        run_forward(b, k, Some(0nat)) == end,
    decreases end - k,
{
    if k < end {
        lemma_newlines_run_forward(b, k + 1, end);
    }
}

proof fn lemma_newline_count_of_run(b: Seq<u8>, s: int, e: int)
    requires
        s <= e,
        forall|i: int| s <= i < e ==> b[i] == NL,
    ensures
        newline_count(b, s, e) == e - s,
    decreases e - s,
{
    if s < e {
        lemma_newline_count_of_run(b, s, e - 1);
    }
}

proof fn lemma_newlines_run_back(b: Seq<u8>, s: int, k: int, depth: Option<nat>)
    requires
        0 <= s <= k <= b.len(),
        depth is None || depth == Some(0nat),
        newline_before(b, s + 1),
        forall|i: int| s <= i < k ==> b[i] == NL,
        !newline_before(b, back_markers(b, s, usize::MAX as nat).at),
    ensures
        run_back(b, k, depth, true) == (
            s,
            if s < k {
                Some(0nat)
            } else {
                depth
            },
        ),
    decreases k - s,
{
    let most = usize::MAX as nat;
    if s < k {
        assert(back_markers(b, k, marker_cap(depth)).count == 0);
        assert(newline_before(b, k)) by {
            if s + 1 < k {
                assert(b[k - 2] == NL);
            }
        }
        lemma_newlines_run_back(b, s, k - 1, Some(0nat));
    } else if depth is Some {
        lemma_back_markers_bounds(b, s, most);
        assert(back_markers(b, s, 0).count == 0);
    }
}

/// In the longest run of bare newlines `b[start..end]`, the first of them
/// structural and no marker at either end, a position lies inside a pair if and
/// only if there is an even number of newlines and an odd number of them before
/// it. So a run of an odd number has no forbidden position.
pub proof fn bare_newline_runs_alternate(b: Seq<u8>, start: int, end: int, p: int)
    requires
        0 <= start < p <= end <= b.len() <= usize::MAX,
        forall|i: int| start <= i < end ==> b[i] == NL,
        newline_before(b, start + 1),
        !newline_before(b, back_markers(b, start, usize::MAX as nat).at),
        end < b.len() ==> b[end] != NL && b[end] != GT,
    ensures
        break_interior(b, p) <==> (end - start) % 2 == 0 && (p - start) % 2 == 1,
{
    let most = usize::MAX as nat;
    assert(pair_run(b, p) == Some((start, end))) by {
        assert(b[p - 1] == NL);
        assert(back_markers(b, p, most).count == 0);
        assert(forward_markers(b, p, most).count == 0);
        assert(newline_before(b, p)) by {
            if start + 1 < p {
                assert(b[p - 2] == NL);
            }
        }
        lemma_newlines_run_back(b, start, p - 1, None);
        if start + 1 < p {
            lemma_newlines_run_forward(b, p, end);
        } else if p < end {
            lemma_newlines_run_forward(b, p + 1, end);
            assert(forward_markers(b, p + 1, most).count == 0);
        }
    }
    lemma_newline_count_of_run(b, start, end);
    let n = end - start;
    if n >= 2 && n % 2 == 0 {
        assert(n / (n / 2) == 2 && n % (n / 2) == 0) by (nonlinear_arith)
            requires
                n >= 2,
                n % 2 == 0,
        ;
        assert(newline_count(b, start, end) == n);
        assert(pair_length(b, start, end) == 2);
        assert(splits_into_pairs(b, start, end));
    } else {
        assert(!splits_into_pairs(b, start, end));
    }
}

} // verus!
