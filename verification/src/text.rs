//! Byte-level vocabulary of the buffer: lines, newline runs and hard breaks.

use core::ops::Range;

use vstd::prelude::*;

verus! {

pub const NL: u8 = 10;

pub const TAB: u8 = 9;

pub const SPACE: u8 = 32;

pub const GT: u8 = 62;

pub const BACKSLASH: u8 = 92;


/// The UTF-8 bytes of a text.
pub open spec fn bytes_of(text: Seq<char>) -> Seq<u8> {
    vstd::utf8::encode_utf8(text)
}

/// Is `r` the range from `start` to `end`?
pub open spec fn spans(r: Range<usize>, start: int, end: int) -> bool {
    r.start == start && r.end == end
}

/// Is `found` the offset `wanted`, or absent where `wanted` is?
pub open spec fn same_offset(found: Option<usize>, wanted: Option<int>) -> bool {
    match found {
        Some(p) => wanted == Some(p as int),
        None => wanted is None,
    }
}

/// Is `p` a character boundary of the UTF-8 text `b`: an offset that no
/// continuation byte stands at, or the end?
pub open spec fn boundary(b: Seq<u8>, p: int) -> bool {
    0 <= p <= b.len() && (p < b.len() ==> !(0x80 <= b[p] <= 0xbf))
}

/// The last character boundary at or before `p`.
pub open spec fn boundary_before(b: Seq<u8>, p: int) -> int
    decreases p,
{
    if p <= 0 {
        0
    } else if boundary(b, p) {
        p
    } else {
        boundary_before(b, p - 1)
    }
}

/// Start of the line holding `p`: the byte after the closest `\n` before `p`,
/// or the start of the buffer.
pub open spec fn line_start(b: Seq<u8>, p: int) -> int
    decreases p,
{
    if p <= 0 {
        0
    } else if b[p - 1] == NL {
        p
    } else {
        line_start(b, p - 1)
    }
}

/// End of the line holding `p`, looking no further than `limit`: the closest
/// `\n` at or after `p`, or `limit`.
pub open spec fn line_end(b: Seq<u8>, p: int, limit: int) -> int
    decreases limit - p,
{
    if p >= limit || b[p] == NL {
        p
    } else {
        line_end(b, p + 1, limit)
    }
}

/// Start of the run of bytes equal to `byte` that ends at `p`, looking no
/// further back than `floor`.
pub open spec fn run_start(b: Seq<u8>, p: int, floor: int, byte: u8) -> int
    decreases p - floor,
{
    if p <= floor || b[p - 1] != byte {
        p
    } else {
        run_start(b, p - 1, floor, byte)
    }
}

/// End of the run of bytes equal to `byte` that begins at `p`, looking no
/// further than `limit`.
pub open spec fn run_end(b: Seq<u8>, p: int, limit: int, byte: u8) -> int
    decreases limit - p,
{
    if p >= limit || b[p] != byte {
        p
    } else {
        run_end(b, p + 1, limit, byte)
    }
}

/// Number of `\n` bytes in `b[s..e]`.
pub open spec fn newline_count(b: Seq<u8>, s: int, e: int) -> nat
    decreases e - s,
{
    if s >= e {
        0
    } else {
        newline_count(b, s, e - 1) + if b[e - 1] == NL { 1nat } else { 0nat }
    }
}

/// Is the `\n` at `nl` preceded by a hard-break marker, two spaces or a
/// backslash?
pub open spec fn hard_break_before(b: Seq<u8>, nl: int) -> bool {
    ||| nl >= 2 && b[nl - 1] == SPACE && b[nl - 2] == SPACE
    ||| nl >= 1 && b[nl - 1] == BACKSLASH
}

pub proof fn lemma_line_start_bounds(b: Seq<u8>, p: int)
    requires
        0 <= p,
    ensures
        0 <= line_start(b, p) <= p,
        line_start(b, p) > 0 ==> b[line_start(b, p) - 1] == NL,
        forall|i: int| line_start(b, p) <= i < p ==> b[i] != NL,
    decreases p,
{
    if p > 0 && b[p - 1] != NL {
        lemma_line_start_bounds(b, p - 1);
    }
}

pub proof fn lemma_line_end_bounds(b: Seq<u8>, p: int, limit: int)
    requires
        p <= limit,
    ensures
        p <= line_end(b, p, limit) <= limit,
        line_end(b, p, limit) < limit ==> b[line_end(b, p, limit)] == NL,
        forall|i: int| p <= i < line_end(b, p, limit) ==> b[i] != NL,
    decreases limit - p,
{
    if p < limit && b[p] != NL {
        lemma_line_end_bounds(b, p + 1, limit);
    }
}

pub proof fn lemma_run_start_bounds(b: Seq<u8>, p: int, floor: int, byte: u8)
    requires
        floor <= p,
    ensures
        floor <= run_start(b, p, floor, byte) <= p,
        forall|i: int| run_start(b, p, floor, byte) <= i < p ==> b[i] == byte,
        run_start(b, p, floor, byte) > floor ==> b[run_start(b, p, floor, byte) - 1] != byte,
    decreases p - floor,
{
    if p > floor && b[p - 1] == byte {
        lemma_run_start_bounds(b, p - 1, floor, byte);
    }
}

pub proof fn lemma_run_end_bounds(b: Seq<u8>, p: int, limit: int, byte: u8)
    requires
        p <= limit,
    ensures
        p <= run_end(b, p, limit, byte) <= limit,
        forall|i: int| p <= i < run_end(b, p, limit, byte) ==> b[i] == byte,
        run_end(b, p, limit, byte) < limit ==> b[run_end(b, p, limit, byte)] != byte,
    decreases limit - p,
{
    if p < limit && b[p] == byte {
        lemma_run_end_bounds(b, p + 1, limit, byte);
    }
}

/// Start of the line that holds `pos`.
pub fn line_start_offset(bytes: &[u8], pos: usize) -> (start: usize)
    requires
        pos <= bytes@.len(),
    ensures
        start == line_start(bytes@, pos as int),
        start <= pos,
{
    let mut p: usize = pos;
    while p > 0 && bytes[p - 1] != NL
        invariant
            p <= pos <= bytes@.len(),
            line_start(bytes@, p as int) == line_start(bytes@, pos as int),
        decreases p,
    {
        p = p - 1;
    }
    p
}

/// End of the line that holds `line_start`, no further than `limit`.
pub fn next_line_end(bytes: &[u8], line_start: usize, limit: usize) -> (end: usize)
    requires
        limit <= bytes@.len(),
    ensures
        end == line_end(bytes@, line_start as int, limit as int),
        line_start <= end,
        line_start <= limit ==> end <= limit,
{
    let mut e: usize = line_start;
    while e < limit && bytes[e] != NL
        invariant
            line_start <= e,
            line_start <= limit ==> e <= limit,
            limit <= bytes@.len(),
            line_end(bytes@, e as int, limit as int) == line_end(
                bytes@,
                line_start as int,
                limit as int,
            ),
        decreases limit - e,
    {
        e = e + 1;
    }
    e
}

/// Start of the run of `byte` ending at `pos`, no further back than `floor`.
pub fn run_start_offset(bytes: &[u8], pos: usize, floor: usize, byte: u8) -> (start: usize)
    requires
        floor <= pos <= bytes@.len(),
    ensures
        start == run_start(bytes@, pos as int, floor as int, byte),
        floor <= start <= pos,
{
    let mut p: usize = pos;
    while p > floor && bytes[p - 1] == byte
        invariant
            floor <= p <= pos <= bytes@.len(),
            run_start(bytes@, p as int, floor as int, byte) == run_start(
                bytes@,
                pos as int,
                floor as int,
                byte,
            ),
        decreases p,
    {
        p = p - 1;
    }
    p
}

/// End of the run of `byte` beginning at `pos`, no further than `limit`.
pub fn run_end_offset(bytes: &[u8], pos: usize, limit: usize, byte: u8) -> (end: usize)
    requires
        limit <= bytes@.len(),
    ensures
        end == run_end(bytes@, pos as int, limit as int, byte),
        pos <= end,
        pos <= limit ==> end <= limit,
{
    let mut p: usize = pos;
    while p < limit && bytes[p] == byte
        invariant
            pos <= p,
            pos <= limit ==> p <= limit,
            limit <= bytes@.len(),
            run_end(bytes@, p as int, limit as int, byte) == run_end(
                bytes@,
                pos as int,
                limit as int,
                byte,
            ),
        decreases limit - p,
    {
        p = p + 1;
    }
    p
}

/// Number of newlines in `bytes[start..end]`.
pub fn count_newlines(bytes: &[u8], start: usize, end: usize) -> (count: usize)
    requires
        start <= end <= bytes@.len(),
    ensures
        count == newline_count(bytes@, start as int, end as int),
        count <= end - start,
{
    let mut count: usize = 0;
    let mut i: usize = start;
    while i < end
        invariant
            start <= i <= end <= bytes@.len(),
            count == newline_count(bytes@, start as int, i as int),
            count <= i - start,
        decreases end - i,
    {
        if bytes[i] == NL {
            count = count + 1;
        }
        i = i + 1;
    }
    count
}

/// Does the `\n` at `nl` end a hard break (`  \n` or `\\\n`)?
pub fn is_already_hard_break(bytes: &[u8], nl: usize) -> (found: bool)
    requires
        nl <= bytes@.len(),
    ensures
        found == hard_break_before(bytes@, nl as int),
{
    if nl >= 2 && bytes[nl - 1] == SPACE && bytes[nl - 2] == SPACE {
        return true;
    }
    nl >= 1 && bytes[nl - 1] == BACKSLASH
}

} // verus!
