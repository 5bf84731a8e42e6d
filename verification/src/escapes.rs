//! Backslash escapes and character references in the raw source.

use core::ops::Range;

use vstd::prelude::*;

use crate::text::{bytes_of, BACKSLASH};

verus! {

/// One escape or character reference of the source.
#[derive(Debug, PartialEq, Eq)]
pub struct ResolvedSpan {
    /// The bytes of the whole construct.
    pub source_range: Range<usize>,
    /// What the construct renders to.
    pub display: String,
}

/// The mathematical form of a [`ResolvedSpan`].
#[verifier::ext_equal]
pub struct Span {
    pub range: Range<usize>,
    pub text: Seq<char>,
}

impl View for ResolvedSpan {
    type V = Span;

    open spec fn view(&self) -> Span {
        Span { range: self.source_range, text: self.display@ }
    }
}

impl Clone for ResolvedSpan {
    fn clone(&self) -> (copy: Self)
        ensures
            copy == *self,
    {
        ResolvedSpan {
            source_range: self.source_range.start..self.source_range.end,
            display: self.display.clone(),
        }
    }
}

/// The mathematical form of a list of spans.
pub open spec fn spans_view(spans: Seq<ResolvedSpan>) -> Seq<Span> {
    Seq::new(spans.len(), |i: int| spans[i]@)
}

/// The span from `start` to `end` that renders to one character.
pub open spec fn char_span(start: int, end: int, c: char) -> Span {
    Span { range: Range { start: start as usize, end: end as usize }, text: seq![c] }
}

pub const AMPERSAND: u8 = 38;

pub const NUMBER_SIGN: u8 = 35;

pub const SEMICOLON: u8 = 59;

/// The named character references that are resolved.
pub const ENTITIES: [(&'static str, char); 54] = [
    ("amp", '&'),
    ("lt", '<'),
    ("gt", '>'),
    ("quot", '"'),
    ("apos", '\''),
    ("nbsp", '\u{A0}'),
    ("copy", '\u{A9}'),
    ("reg", '\u{AE}'),
    ("trade", '\u{2122}'),
    ("mdash", '\u{2014}'),
    ("ndash", '\u{2013}'),
    ("hellip", '\u{2026}'),
    ("lsquo", '\u{2018}'),
    ("rsquo", '\u{2019}'),
    ("ldquo", '\u{201C}'),
    ("rdquo", '\u{201D}'),
    ("laquo", '\u{AB}'),
    ("raquo", '\u{BB}'),
    ("larr", '\u{2190}'),
    ("rarr", '\u{2192}'),
    ("uarr", '\u{2191}'),
    ("darr", '\u{2193}'),
    ("harr", '\u{2194}'),
    ("deg", '\u{B0}'),
    ("plusmn", '\u{B1}'),
    ("times", '\u{D7}'),
    ("divide", '\u{F7}'),
    ("infin", '\u{221E}'),
    ("ne", '\u{2260}'),
    ("le", '\u{2264}'),
    ("ge", '\u{2265}'),
    ("sum", '\u{2211}'),
    ("prod", '\u{220F}'),
    ("int", '\u{222B}'),
    ("alpha", '\u{3B1}'),
    ("beta", '\u{3B2}'),
    ("gamma", '\u{3B3}'),
    ("delta", '\u{3B4}'),
    ("epsilon", '\u{3B5}'),
    ("theta", '\u{3B8}'),
    ("lambda", '\u{3BB}'),
    ("mu", '\u{3BC}'),
    ("pi", '\u{3C0}'),
    ("sigma", '\u{3C3}'),
    ("phi", '\u{3C6}'),
    ("omega", '\u{3C9}'),
    ("Gamma", '\u{393}'),
    ("Delta", '\u{394}'),
    ("Theta", '\u{398}'),
    ("Lambda", '\u{39B}'),
    ("Pi", '\u{3A0}'),
    ("Sigma", '\u{3A3}'),
    ("Phi", '\u{3A6}'),
    ("Omega", '\u{3A9}'),
];

// ---------------------------------------------------------------------------
// Byte classes
// ---------------------------------------------------------------------------

pub open spec fn punctuation(c: u8) -> bool {
    33 <= c <= 47 || 58 <= c <= 64 || 91 <= c <= 96 || 123 <= c <= 126
}

fn is_ascii_punctuation(c: u8) -> (found: bool)
    ensures
        found == punctuation(c),
{
    (33 <= c && c <= 47) || (58 <= c && c <= 64) || (91 <= c && c <= 96) || (123 <= c && c <= 126)
}

pub open spec fn letter_or_digit(c: u8) -> bool {
    48 <= c <= 57 || 65 <= c <= 90 || 97 <= c <= 122
}

/// The value of a digit of a number to base 10 or 16.
pub open spec fn digit_value(c: u8, hex: bool) -> Option<nat> {
    if 48 <= c <= 57 {
        Some((c - 48) as nat)
    } else if hex && 65 <= c <= 70 {
        Some((c - 55) as nat)
    } else if hex && 97 <= c <= 102 {
        Some((c - 87) as nat)
    } else {
        None
    }
}

fn read_digit(c: u8, hex: bool) -> (value: Option<u32>)
    ensures
        match digit_value(c, hex) {
            Some(v) => value == Some(v as u32) && v < if hex {
                16nat
            } else {
                10nat
            },
            None => value is None,
        },
{
    if 48 <= c && c <= 57 {
        Some((c - 48) as u32)
    } else if hex && 65 <= c && c <= 70 {
        Some((c - 55) as u32)
    } else if hex && 97 <= c && c <= 102 {
        Some((c - 87) as u32)
    } else {
        None
    }
}

// ---------------------------------------------------------------------------
// Backslash escapes
// ---------------------------------------------------------------------------

/// The escape that begins with the backslash at `at`: it renders to the
/// punctuation character after it.
pub open spec fn escape_at(b: Seq<u8>, at: int, limit: int) -> Option<Span> {
    if at + 1 < limit && punctuation(b[at + 1]) {
        Some(char_span(at, at + 2, b[at + 1] as char))
    } else {
        None
    }
}

fn scan_backslash_escape(bytes: &[u8], at: usize, limit: usize) -> (found: Option<ResolvedSpan>)
    requires
        at < limit <= bytes@.len(),
    ensures
        same_span(found, escape_at(bytes@, at as int, limit as int)),
{
    if limit - at <= 1 {
        return None;
    }
    let next = bytes[at + 1];
    if !is_ascii_punctuation(next) {
        return None;
    }
    Some(resolved(at, at + 2, next as char))
}

/// Is `found` the span `wanted`?
pub open spec fn same_span(found: Option<ResolvedSpan>, wanted: Option<Span>) -> bool {
    match found {
        Some(span) => wanted == Some(span@),
        None => wanted is None,
    }
}

fn resolved(start: usize, end: usize, c: char) -> (span: ResolvedSpan)
    ensures
        span@ == char_span(start as int, end as int, c),
{
    let mut display = String::new();
    display.push(c);
    assert(display@ =~= seq![c]);
    ResolvedSpan { source_range: start..end, display }
}

// ---------------------------------------------------------------------------
// Character references
// ---------------------------------------------------------------------------

/// Past at most `most` digits from `p`, no further than `limit`.
pub open spec fn number_end(b: Seq<u8>, p: int, limit: int, hex: bool, most: nat) -> int
    decreases most,
{
    if most == 0 || p >= limit || digit_value(b[p], hex) is None {
        p
    } else {
        number_end(b, p + 1, limit, hex, (most - 1) as nat)
    }
}

/// The number that the digits of `[s, e)` write.
pub open spec fn number_value(b: Seq<u8>, s: int, e: int, hex: bool) -> nat
    decreases e - s,
{
    if e <= s {
        0
    } else {
        number_value(b, s, e - 1, hex) * (if hex {
            16nat
        } else {
            10nat
        }) + digit_value(b[e - 1], hex)->0
    }
}

/// The character with the scalar value `v`, or the replacement character where
/// there is none or it is NUL.
pub open spec fn char_or_replacement(v: nat) -> char {
    if v != 0 && v <= 0x10ffff && !(0xd800 <= v <= 0xdfff) {
        v as char
    } else {
        '\u{FFFD}'
    }
}

/// The numeric reference whose `#` is at `hash`: 1 to 7 decimal digits, or `x`
/// and 1 to 6 hexadecimal ones, and a semicolon.
pub open spec fn numeric_at(b: Seq<u8>, hash: int, limit: int) -> Option<Span> {
    let p = hash + 1;
    let hex = b[p] == 120 || b[p] == 88;
    let start = if hex { p + 1 } else { p };
    let end = number_end(b, start, limit, hex, 7);
    if p >= limit || end == start || end >= limit || b[end] != SEMICOLON || (hex && end - start > 6) {
        None
    } else {
        Some(
            char_span(
                hash - 1,
                end + 1,
                char_or_replacement(number_value(b, start, end, hex)),
            ),
        )
    }
}

/// Past at most `most` letters and digits from `p`, no further than `limit`.
pub open spec fn name_end(b: Seq<u8>, p: int, limit: int, most: nat) -> int
    decreases most,
{
    if most == 0 || p >= limit || !letter_or_digit(b[p]) {
        p
    } else {
        name_end(b, p + 1, limit, (most - 1) as nat)
    }
}

/// The character that `name` stands for, from entry `i` of the table on.
pub open spec fn entity_from(name: Seq<u8>, i: int) -> Option<char>
    decreases ENTITIES@.len() - i,
{
    if i < 0 || i >= ENTITIES@.len() {
        None
    } else if bytes_of(ENTITIES@[i].0@) == name {
        Some(ENTITIES@[i].1)
    } else {
        entity_from(name, i + 1)
    }
}

/// The character that the named reference `name` stands for.
pub open spec fn entity(name: Seq<u8>) -> Option<char> {
    entity_from(name, 0)
}

/// The named reference whose name starts at `p`: 1 to 32 letters and digits
/// that are in the table, and a semicolon.
pub open spec fn named_at(b: Seq<u8>, p: int, limit: int) -> Option<Span> {
    let end = name_end(b, p, limit, 32);
    if end == p || end >= limit || b[end] != SEMICOLON {
        None
    } else {
        match entity(b.subrange(p, end)) {
            Some(c) => Some(char_span(p - 1, end + 1, c)),
            None => None,
        }
    }
}

/// The character reference that begins with the `&` at `at`.
pub open spec fn reference_at(b: Seq<u8>, at: int, limit: int) -> Option<Span> {
    if at + 1 >= limit {
        None
    } else if b[at + 1] == NUMBER_SIGN {
        numeric_at(b, at + 1, limit)
    } else {
        named_at(b, at + 1, limit)
    }
}

/// `char::from_u32`: the character with that scalar value, for the values that
/// have one.
pub assume_specification[ char::from_u32 ](i: u32) -> (found: Option<char>)
    ensures
        match found {
            Some(c) => c as int == i && i <= 0x10ffff && !(0xd800 <= i <= 0xdfff),
            None => i > 0x10ffff || 0xd800 <= i <= 0xdfff,
        },
;

fn codepoint_char(v: u32) -> (c: char)
    ensures
        c == char_or_replacement(v as nat),
{
    match char::from_u32(v) {
        Some(c) => if v != 0 {
            c
        } else {
            '\u{FFFD}'
        },
        None => '\u{FFFD}',
    }
}

pub proof fn lemma_number_end(b: Seq<u8>, p: int, limit: int, hex: bool, most: nat)
    requires
        p <= limit,
    ensures
        p <= number_end(b, p, limit, hex, most) <= limit,
        number_end(b, p, limit, hex, most) <= p + most,
        forall|i: int|
            p <= i < number_end(b, p, limit, hex, most) ==> digit_value(#[trigger] b[i], hex) is Some,
    decreases most,
{
    if !(most == 0 || p >= limit || digit_value(b[p], hex) is None) {
        lemma_number_end(b, p + 1, limit, hex, (most - 1) as nat);
    }
}

fn scan_numeric(bytes: &[u8], hash: usize, limit: usize) -> (found: Option<ResolvedSpan>)
    requires
        1 <= hash < limit <= bytes@.len(),
    ensures
        same_span(found, numeric_at(bytes@, hash as int, limit as int)),
{
    let p: usize = hash + 1;
    if p >= limit {
        return None;
    }
    let hex = bytes[p] == 120 || bytes[p] == 88;
    let start: usize = if hex { p + 1 } else { p };
    let mut q: usize = start;
    let mut value: u32 = 0;
    let mut count: u32 = 0;
    while q < limit && count < 7
        invariant
            start <= q <= limit <= bytes@.len(),
            count <= 7,
            count == q - start,
            value == number_value(bytes@, start as int, q as int, hex),
            count == 0 ==> value == 0,
            count == 1 ==> value < 0x10,
            count == 2 ==> value < 0x100,
            count == 3 ==> value < 0x1000,
            count == 4 ==> value < 0x10000,
            count == 5 ==> value < 0x100000,
            count == 6 ==> value < 0x1000000,
            count == 7 ==> value < 0x10000000,
            number_end(bytes@, start as int, limit as int, hex, 7) == number_end(
                bytes@,
                q as int,
                limit as int,
                hex,
                (7 - count) as nat,
            ),
        ensures
            start <= q <= limit,
            q == number_end(bytes@, start as int, limit as int, hex, 7),
            value == number_value(bytes@, start as int, q as int, hex),
        decreases 7 - count,
    {
        match read_digit(bytes[q], hex) {
            Some(digit) => {
                value = if hex {
                    value * 16 + digit
                } else {
                    value * 10 + digit
                };
                q = q + 1;
                count = count + 1;
            },
            None => {
                break ;
            },
        }
    }
    if q == start || q >= limit || bytes[q] != SEMICOLON {
        return None;
    }
    if hex && q - start > 6 {
        return None;
    }
    Some(resolved(hash - 1, q + 1, codepoint_char(value)))
}

fn same_bytes(bytes: &[u8], start: usize, end: usize, text: &[u8]) -> (same: bool)
    requires
        start <= end <= bytes@.len(),
    ensures
        same == (bytes@.subrange(start as int, end as int) == text@),
{
    if text.len() != end - start {
        return false;
    }
    let mut i: usize = 0;
    while i < text.len()
        invariant
            i <= text@.len(),
            start + text@.len() == end <= bytes@.len(),
            forall|j: int| 0 <= j < i ==> bytes@[start + j] == text@[j],
        decreases text@.len() - i,
    {
        if bytes[start + i] != text[i] {
            assert(bytes@.subrange(start as int, end as int)[i as int] != text@[i as int]);
            return false;
        }
        i = i + 1;
    }
    assert(bytes@.subrange(start as int, end as int) =~= text@);
    true
}

/// The character that the named reference over `[start, end)` stands for.
fn lookup_named_entity(bytes: &[u8], start: usize, end: usize) -> (found: Option<char>)
    requires
        start <= end <= bytes@.len(),
    ensures
        found == entity(bytes@.subrange(start as int, end as int)),
{
    let mut i: usize = 0;
    while i < ENTITIES.len()
        invariant
            i <= ENTITIES@.len(),
            start <= end <= bytes@.len(),
            entity(bytes@.subrange(start as int, end as int)) == entity_from(
                bytes@.subrange(start as int, end as int),
                i as int,
            ),
        decreases ENTITIES@.len() - i,
    {
        let (name, c) = ENTITIES[i];
        if same_bytes(bytes, start, end, name.as_bytes()) {
            return Some(c);
        }
        i = i + 1;
    }
    None
}

fn scan_named(bytes: &[u8], start: usize, limit: usize) -> (found: Option<ResolvedSpan>)
    requires
        1 <= start < limit <= bytes@.len(),
    ensures
        same_span(found, named_at(bytes@, start as int, limit as int)),
{
    let mut q: usize = start;
    let mut count: usize = 0;
    while q < limit && count < 32
        invariant
            start <= q <= limit <= bytes@.len(),
            count <= 32,
            name_end(bytes@, start as int, limit as int, 32) == name_end(
                bytes@,
                q as int,
                limit as int,
                (32 - count) as nat,
            ),
        ensures
            start <= q <= limit,
            q == name_end(bytes@, start as int, limit as int, 32),
        decreases 32 - count,
    {
        let c = bytes[q];
        if !((48 <= c && c <= 57) || (65 <= c && c <= 90) || (97 <= c && c <= 122)) {
            break ;
        }
        q = q + 1;
        count = count + 1;
    }
    if q == start || q >= limit || bytes[q] != SEMICOLON {
        return None;
    }
    match lookup_named_entity(bytes, start, q) {
        Some(c) => Some(resolved(start - 1, q + 1, c)),
        None => None,
    }
}

fn scan_entity(bytes: &[u8], at: usize, limit: usize) -> (found: Option<ResolvedSpan>)
    requires
        at < limit <= bytes@.len(),
    ensures
        same_span(found, reference_at(bytes@, at as int, limit as int)),
{
    if limit - at <= 1 {
        return None;
    }
    if bytes[at + 1] == NUMBER_SIGN {
        scan_numeric(bytes, at + 1, limit)
    } else {
        scan_named(bytes, at + 1, limit)
    }
}

// ---------------------------------------------------------------------------
// The scan
// ---------------------------------------------------------------------------

/// The construct that begins at `at`.
pub open spec fn construct_at(b: Seq<u8>, at: int, limit: int) -> Option<Span> {
    if b[at] == BACKSLASH {
        escape_at(b, at, limit)
    } else if b[at] == AMPERSAND {
        reference_at(b, at, limit)
    } else {
        None
    }
}

/// The end of the first verbatim range that holds `p`.
pub open spec fn verbatim_end(verbatim: Seq<Range<usize>>, p: int) -> Option<int>
    decreases verbatim.len(),
{
    if verbatim.len() == 0 {
        None
    } else if verbatim[0].start <= p < verbatim[0].end {
        Some(verbatim[0].end as int)
    } else {
        verbatim_end(verbatim.drop_first(), p)
    }
}

/// The constructs from `i` to `limit` that begin outside of the verbatim
/// ranges.
pub open spec fn spans_from(b: Seq<u8>, i: int, limit: int, verbatim: Seq<Range<usize>>) -> Seq<Span>
    decreases if limit > i { limit - i } else { 0 },
{
    if i >= limit {
        Seq::empty()
    } else {
        match verbatim_end(verbatim, i) {
            Some(end) => if end > i {
                spans_from(b, end, limit, verbatim)
            } else {
                Seq::empty()
            },
            None => match construct_at(b, i, limit) {
                Some(span) => if span.range.end > i {
                    seq![span] + spans_from(b, span.range.end as int, limit, verbatim)
                } else {
                    Seq::empty()
                },
                None => spans_from(b, i + 1, limit, verbatim),
            },
        }
    }
}

pub proof fn lemma_verbatim_end(verbatim: Seq<Range<usize>>, p: int)
    ensures
        verbatim_end(verbatim, p) matches Some(end) ==> p < end <= usize::MAX,
    decreases verbatim.len(),
{
    if verbatim.len() > 0 && !(verbatim[0].start <= p < verbatim[0].end) {
        lemma_verbatim_end(verbatim.drop_first(), p);
    }
}

pub proof fn lemma_name_end(b: Seq<u8>, p: int, limit: int, most: nat)
    requires
        p <= limit,
    ensures
        p <= name_end(b, p, limit, most) <= limit,
    decreases most,
{
    if !(most == 0 || p >= limit || !letter_or_digit(b[p])) {
        lemma_name_end(b, p + 1, limit, (most - 1) as nat);
    }
}

pub proof fn lemma_construct_at(b: Seq<u8>, at: int, limit: int)
    requires
        0 <= at < limit <= b.len() <= usize::MAX,
    ensures
        construct_at(b, at, limit) matches Some(span) ==> span.range.start == at && at + 2
            <= span.range.end <= limit,
{
    if at + 1 < limit {
        if b[at + 1] == NUMBER_SIGN && at + 2 < limit {
            let hex = b[at + 2] == 120 || b[at + 2] == 88;
            lemma_number_end(b, if hex { at + 3 } else { at + 2 }, limit, hex, 7);
        }
        lemma_name_end(b, at + 1, limit, 32);
    }
}

fn find_verbatim_end(verbatim: &[Range<usize>], p: usize) -> (found: Option<usize>)
    ensures
        match verbatim_end(verbatim@, p as int) {
            Some(end) => found matches Some(e) && e == end && p < e,
            None => found is None,
        },
{
    let mut i: usize = 0;
    assert(verbatim@.skip(0) =~= verbatim@);
    while i < verbatim.len()
        invariant
            i <= verbatim@.len(),
            verbatim_end(verbatim@, p as int) == verbatim_end(
                verbatim@.skip(i as int),
                p as int,
            ),
        decreases verbatim@.len() - i,
    {
        proof {
            assert(verbatim@.skip(i as int)[0] == verbatim@[i as int]);
            assert(verbatim@.skip(i as int).drop_first() =~= verbatim@.skip(i + 1));
        }
        if verbatim[i].start <= p && p < verbatim[i].end {
            return Some(verbatim[i].end);
        }
        i = i + 1;
    }
    None
}

/// Finds the backslash escapes and character references of `bytes[range]` that
/// begin outside of the `verbatim` ranges.
pub fn scan(bytes: &[u8], range: Range<usize>, verbatim: &[Range<usize>]) -> (spans: Vec<
    ResolvedSpan,
>)
    ensures
        spans_view(spans@) == spans_from(
            bytes@,
            range.start as int,
            if range.end <= bytes@.len() {
                range.end as int
            } else {
                bytes@.len() as int
            },
            verbatim@,
        ),
{
    let size: usize = bytes.len();
    let limit: usize = if range.end <= size { range.end } else { size };
    let ghost all = spans_from(bytes@, range.start as int, limit as int, verbatim@);
    let mut out: Vec<ResolvedSpan> = Vec::new();
    let mut i: usize = range.start;
    assert(spans_view(out@) + all =~= all);
    while i < limit
        invariant
            limit <= bytes@.len() == size,
            spans_view(out@) + spans_from(bytes@, i as int, limit as int, verbatim@) == all,
        decreases if limit > i { limit - i } else { 0 },
    {
        proof {
            lemma_verbatim_end(verbatim@, i as int);
            lemma_construct_at(bytes@, i as int, limit as int);
        }
        if let Some(end) = find_verbatim_end(verbatim, i) {
            i = end;
            continue ;
        }
        let found = if bytes[i] == BACKSLASH {
            scan_backslash_escape(bytes, i, limit)
        } else if bytes[i] == AMPERSAND {
            scan_entity(bytes, i, limit)
        } else {
            None
        };
        match found {
            Some(span) => {
                let ghost before = spans_view(out@);
                let ghost added = span@;
                i = span.source_range.end;
                out.push(span);
                proof {
                    assert(spans_view(out@) =~= before.push(added));
                    let rest = spans_from(bytes@, i as int, limit as int, verbatim@);
                    assert(spans_view(out@) + rest =~= before + (seq![added] + rest));
                }
            },
            None => {
                i = i + 1;
            },
        }
    }
    assert(spans_view(out@) =~= all);
    out
}

// ---------------------------------------------------------------------------
// Laws
// ---------------------------------------------------------------------------

/// Do the spans lie in `[low, high)`, in order and without overlap, each at
/// least two bytes long and rendering to one character?
pub open spec fn spans_in_order(spans: Seq<Span>, low: int, high: int) -> bool {
    &&& forall|i: int|
        0 <= i < spans.len() ==> low <= (#[trigger] spans[i]).range.start && spans[i].range.start + 2
            <= spans[i].range.end <= high && spans[i].text.len() == 1
    &&& forall|i: int, j: int|
        0 <= i < j < spans.len() ==> (#[trigger] spans[i]).range.end <= (
        #[trigger] spans[j]).range.start
}

/// The spans of a scan come in order, do not overlap and stay in the scanned
/// range; each begins outside of the verbatim ranges.
pub proof fn scanned_spans_are_in_order(
    b: Seq<u8>,
    start: int,
    limit: int,
    verbatim: Seq<Range<usize>>,
)
    requires
        0 <= start,
        limit <= b.len() <= usize::MAX,
    ensures
        spans_in_order(spans_from(b, start, limit, verbatim), start, limit),
        forall|i: int|
            0 <= i < spans_from(b, start, limit, verbatim).len() ==> verbatim_end(
                verbatim,
                (#[trigger] spans_from(b, start, limit, verbatim)[i]).range.start as int,
            ) is None,
    decreases if limit > start { limit - start } else { 0 },
{
    if start < limit {
        lemma_verbatim_end(verbatim, start);
        lemma_construct_at(b, start, limit);
        match verbatim_end(verbatim, start) {
            Some(end) => {
                scanned_spans_are_in_order(b, end, limit, verbatim);
            },
            None => match construct_at(b, start, limit) {
                Some(span) => {
                    scanned_spans_are_in_order(b, span.range.end as int, limit, verbatim);
                    let rest = spans_from(b, span.range.end as int, limit, verbatim);
                    let all = spans_from(b, start, limit, verbatim);
                    assert(all =~= seq![span] + rest);
                    assert forall|i: int| 0 <= i < all.len() implies start <= (
                    #[trigger] all[i]).range.start && all[i].range.start + 2 <= all[i].range.end
                        <= limit && all[i].text.len() == 1 && verbatim_end(
                        verbatim,
                        all[i].range.start as int,
                    ) is None by {
                        if i > 0 {
                            assert(all[i] == rest[i - 1]);
                        }
                    }
                    assert forall|i: int, j: int| 0 <= i < j < all.len() implies (
                    #[trigger] all[i]).range.end <= (#[trigger] all[j]).range.start by {
                        assert(all[j] == rest[j - 1]);
                        if i > 0 {
                            assert(all[i] == rest[i - 1]);
                        }
                    }
                },
                None => {
                    scanned_spans_are_in_order(b, start + 1, limit, verbatim);
                },
            },
        }
    }
}

proof fn lemma_verbatim_holds(verbatim: Seq<Range<usize>>, p: int)
    ensures
        verbatim_end(verbatim, p) matches Some(end) ==> exists|k: int|
            0 <= k < verbatim.len() && (#[trigger] verbatim[k]).start <= p && verbatim[k].end == end,
        verbatim_end(verbatim, p) is Some <==> exists|k: int|
            0 <= k < verbatim.len() && (#[trigger] verbatim[k]).start <= p < verbatim[k].end,
    decreases verbatim.len(),
{
    if verbatim.len() > 0 && !(verbatim[0].start <= p < verbatim[0].end) {
        let rest = verbatim.drop_first();
        lemma_verbatim_holds(rest, p);
        if verbatim_end(rest, p) is Some {
            let end = verbatim_end(rest, p)->0;
            let k = choose|k: int|
                0 <= k < rest.len() && (#[trigger] rest[k]).start <= p && rest[k].end == end;
            let m = choose|m: int|
                0 <= m < rest.len() && (#[trigger] rest[m]).start <= p < rest[m].end;
            assert(verbatim[k + 1] == rest[k]);
            assert(verbatim[m + 1] == rest[m]);
        } else {
            assert forall|k: int| 0 <= k < verbatim.len() implies !((
            #[trigger] verbatim[k]).start <= p < verbatim[k].end) by {
                if k > 0 {
                    assert(verbatim[k] == rest[k - 1]);
                }
            }
        }
    } else if verbatim.len() > 0 {
        assert(verbatim[0].start <= p < verbatim[0].end);
    }
}

/// Is the place `p` outside of the verbatim ranges, and inside of none of the
/// spans?
pub open spec fn is_free(verbatim: Seq<Range<usize>>, spans: Seq<Span>, p: int) -> bool {
    &&& forall|k: int|
        0 <= k < verbatim.len() ==> !((#[trigger] verbatim[k]).start <= p < verbatim[k].end)
    &&& forall|k: int|
        0 <= k < spans.len() ==> !((#[trigger] spans[k]).range.start < p < spans[k].range.end)
}

pub proof fn lemma_free_construct(
    b: Seq<u8>,
    start: int,
    limit: int,
    verbatim: Seq<Range<usize>>,
    p: int,
)
    requires
        0 <= start <= p < limit,
        limit <= b.len() <= usize::MAX,
        is_free(verbatim, spans_from(b, start, limit, verbatim), p),
    ensures
        match construct_at(b, p, limit) {
            Some(span) => spans_from(b, start, limit, verbatim).contains(span),
            None => forall|k: int|
                0 <= k < spans_from(b, start, limit, verbatim).len() ==> (#[trigger] spans_from(
                    b,
                    start,
                    limit,
                    verbatim,
                )[k]).range.start != p,
        },
    decreases limit - start,
{
    let all = spans_from(b, start, limit, verbatim);
    lemma_verbatim_end(verbatim, start);
    lemma_verbatim_holds(verbatim, start);
    lemma_construct_at(b, start, limit);
    match verbatim_end(verbatim, start) {
        Some(end) => {
            let k = choose|k: int|
                0 <= k < verbatim.len() && (#[trigger] verbatim[k]).start <= start
                    && verbatim[k].end == end;
            assert(!(verbatim[k].start <= p < verbatim[k].end));
            assert(all == spans_from(b, end, limit, verbatim));
            lemma_free_construct(b, end, limit, verbatim, p);
        },
        None => match construct_at(b, start, limit) {
            Some(span) => {
                let next = span.range.end as int;
                let rest = spans_from(b, next, limit, verbatim);
                assert(all == seq![span] + rest);
                assert(all[0] == span);
                assert forall|k: int| 0 <= k < rest.len() implies #[trigger] rest[k] == all[k
                    + 1] by {}
                if start == p {
                    assert(all.contains(span));
                } else {
                    assert(!(all[0].range.start < p < all[0].range.end));
                    assert forall|k: int| 0 <= k < rest.len() implies !((
                    #[trigger] rest[k]).range.start < p < rest[k].range.end) by {
                        assert(all[k + 1] == rest[k]);
                    }
                    lemma_free_construct(b, next, limit, verbatim, p);
                    match construct_at(b, p, limit) {
                        Some(found) => {
                            let k = choose|k: int| 0 <= k < rest.len() && rest[k] == found;
                            assert(all[k + 1] == found);
                            assert(all.contains(found));
                        },
                        None => {
                            assert forall|k: int| 0 <= k < all.len() implies (
                            #[trigger] all[k]).range.start != p by {
                                if k > 0 {
                                    assert(rest[k - 1].range.start != p);
                                }
                            }
                        },
                    }
                }
            },
            None => {
                assert(all == spans_from(b, start + 1, limit, verbatim));
                if start == p {
                    scanned_spans_are_in_order(b, start + 1, limit, verbatim);
                    assert forall|k: int| 0 <= k < all.len() implies (
                    #[trigger] all[k]).range.start != p by {
                        assert(start + 1 <= all[k].range.start);
                    }
                } else {
                    lemma_free_construct(b, start + 1, limit, verbatim, p);
                }
            },
        },
    }
}

proof fn lemma_punctuation(c: u8)
    ensures
        punctuation(c) <==> seq![
            '!', '"', '#', '$', '%', '&', '\'', '(',
            ')', '*', '+', ',', '-', '.', '/', ':',
            ';', '<', '=', '>', '?', '@', '[', '\\',
            ']', '^', '_', '`', '{', '|', '}', '~',
        ].contains(c as char),
{
    let marks = seq![
        '!', '"', '#', '$', '%', '&', '\'', '(',
        ')', '*', '+', ',', '-', '.', '/', ':',
        ';', '<', '=', '>', '?', '@', '[', '\\',
        ']', '^', '_', '`', '{', '|', '}', '~',
    ];
    assert(marks[0] == '!');
    assert(marks[1] == '"');
    assert(marks[2] == '#');
    assert(marks[3] == '$');
    assert(marks[4] == '%');
    assert(marks[5] == '&');
    assert(marks[6] == '\'');
    assert(marks[7] == '(');
    assert(marks[8] == ')');
    assert(marks[9] == '*');
    assert(marks[10] == '+');
    assert(marks[11] == ',');
    assert(marks[12] == '-');
    assert(marks[13] == '.');
    assert(marks[14] == '/');
    assert(marks[15] == ':');
    assert(marks[16] == ';');
    assert(marks[17] == '<');
    assert(marks[18] == '=');
    assert(marks[19] == '>');
    assert(marks[20] == '?');
    assert(marks[21] == '@');
    assert(marks[22] == '[');
    assert(marks[23] == '\\');
    assert(marks[24] == ']');
    assert(marks[25] == '^');
    assert(marks[26] == '_');
    assert(marks[27] == '`');
    assert(marks[28] == '{');
    assert(marks[29] == '|');
    assert(marks[30] == '}');
    assert(marks[31] == '~');
    if marks.contains(c as char) {
        let i = choose|i: int| 0 <= i < marks.len() && marks[i] == c as char;
        assert(punctuation(c));
    }
    if 33 <= c <= 47 {
        assert(marks[c - 33] == c as char);
    } else if 58 <= c <= 64 {
        assert(marks[c - 43] == c as char);
    } else if 91 <= c <= 96 {
        assert(marks[c - 69] == c as char);
    } else if 123 <= c <= 126 {
        assert(marks[c - 95] == c as char);
    }
}

/// A backslash escapes punctuation, and punctuation only. Outside of the
/// verbatim ranges and of the constructs before it, a backslash with one of the
/// 32 marks behind it is a span of these two bytes that renders to the mark; with
/// anything else behind it, or nothing, it begins no span.
pub proof fn backslashes_escape_punctuation(
    b: Seq<u8>,
    start: int,
    limit: int,
    verbatim: Seq<Range<usize>>,
    p: int,
)
    requires
        0 <= start <= p < limit,
        limit <= b.len() <= usize::MAX,
        is_free(verbatim, spans_from(b, start, limit, verbatim), p),
        b[p] as char == '\\',
    ensures
        ({
            let spans = spans_from(b, start, limit, verbatim);
            let marks = seq![
                '!', '"', '#', '$', '%', '&', '\'', '(',
                ')', '*', '+', ',', '-', '.', '/', ':',
                ';', '<', '=', '>', '?', '@', '[', '\\',
                ']', '^', '_', '`', '{', '|', '}', '~',
            ];
            if p + 1 < limit && marks.contains(b[p + 1] as char) {
                exists|k: int|
                    0 <= k < spans.len() && (#[trigger] spans[k]).range.start == p
                        && spans[k].range.end == p + 2 && spans[k].text == seq![b[p + 1] as char]
            } else {
                forall|k: int| 0 <= k < spans.len() ==> (#[trigger] spans[k]).range.start != p
            }
        }),
{
    let spans = spans_from(b, start, limit, verbatim);
    lemma_free_construct(b, start, limit, verbatim, p);
    if p + 1 < limit {
        lemma_punctuation(b[p + 1]);
    }
    match construct_at(b, p, limit) {
        Some(span) => {
            let k = choose|k: int| 0 <= k < spans.len() && spans[k] == span;
            assert(spans[k].range.start == p);
        },
        None => {},
    }
}

} // verus!
