//! What character references resolve to.

use core::ops::Range;

use vstd::prelude::*;

use crate::escapes::{
    construct_at,
    digit_value,
    entity_from,
    is_free,
    lemma_free_construct,
    lemma_number_end,
    letter_or_digit,
    name_end,
    named_at,
    number_end,
    number_value,
    numeric_at,
    spans_from,
    Span,
    ENTITIES,
};
use crate::text::bytes_of;

verus! {

/// The value of a digit of a number to the base 10 or 16.
pub open spec fn digit_of(c: char, hex: bool) -> Option<int> {
    if '0' <= c <= '9' {
        Some(c as int - '0' as int)
    } else if hex && 'a' <= c <= 'f' {
        Some(c as int - 'a' as int + 10)
    } else if hex && 'A' <= c <= 'F' {
        Some(c as int - 'A' as int + 10)
    } else {
        None
    }
}

/// The number that digits write, to the base 10 or 16.
pub open spec fn numeral(digits: Seq<u8>, hex: bool) -> int
    decreases digits.len(),
{
    if digits.len() == 0 {
        0
    } else {
        numeral(digits.drop_last(), hex) * (if hex {
            16int
        } else {
            10int
        }) + digit_of(digits.last() as char, hex)->0
    }
}

pub open spec fn are_digits(digits: Seq<u8>, hex: bool) -> bool {
    forall|i: int| 0 <= i < digits.len() ==> digit_of(#[trigger] digits[i] as char, hex) is Some
}

/// Is there a span from `start` to `end` that renders to the character?
pub open spec fn renders(spans: Seq<Span>, start: int, end: int, c: char) -> bool {
    exists|k: int|
        0 <= k < spans.len() && (#[trigger] spans[k]).range.start == start && spans[k].range.end
            == end && spans[k].text == seq![c]
}

pub open spec fn begins_none(spans: Seq<Span>, p: int) -> bool {
    forall|k: int| 0 <= k < spans.len() ==> (#[trigger] spans[k]).range.start != p
}

proof fn lemma_digits_end(b: Seq<u8>, p: int, end: int, limit: int, hex: bool, most: nat)
    requires
        0 <= p <= end < limit <= b.len(),
        end - p <= most,
        forall|i: int| p <= i < end ==> digit_value(#[trigger] b[i], hex) is Some,
        digit_value(b[end], hex) is None,
    ensures
        number_end(b, p, limit, hex, most) == end,
    decreases end - p,
{
    if p < end {
        assert(digit_value(b[p], hex) is Some);
        lemma_digits_end(b, p + 1, end, limit, hex, (most - 1) as nat);
    }
}

pub proof fn lemma_numeral(b: Seq<u8>, start: int, end: int, hex: bool)
    requires
        0 <= start <= end <= b.len(),
        are_digits(b.subrange(start, end), hex),
    ensures
        number_value(b, start, end, hex) == numeral(b.subrange(start, end), hex),
        forall|i: int| start <= i < end ==> digit_value(#[trigger] b[i], hex) is Some,
    decreases end - start,
{
    let digits = b.subrange(start, end);
    assert forall|i: int| start <= i < end implies digit_value(#[trigger] b[i], hex) is Some by {
        assert(digits[i - start] == b[i]);
        assert(digit_of(digits[i - start] as char, hex) is Some);
    }
    if start < end {
        let rest = b.subrange(start, end - 1);
        assert(digits.drop_last() =~= rest);
        assert forall|i: int| 0 <= i < rest.len() implies digit_of(
            #[trigger] rest[i] as char,
            hex,
        ) is Some by {
            assert(rest[i] == digits[i]);
            assert(digit_of(digits[i] as char, hex) is Some);
        }
        lemma_numeral(b, start, end - 1, hex);
        assert(digits.last() == b[end - 1]);
    }
}

/// A numeric reference renders to the character with that number. Outside of the
/// verbatim ranges and of the constructs before it, `&#` with one to seven decimal
/// digits and a semicolon behind it is a span that renders to it, and so is `&#x` or
/// `&#X` with one to six hexadecimal ones; numbers that are those of no character,
/// and 0, render to the replacement character.
pub proof fn numbers_render_to_their_character(
    b: Seq<u8>,
    start: int,
    limit: int,
    verbatim: Seq<Range<usize>>,
    p: int,
    hex: bool,
    digits: int,
    end: int,
)
    requires
        0 <= start <= p,
        digits == if hex { p + 3 } else { p + 2 },
        digits < end < limit <= b.len() <= usize::MAX,
        is_free(verbatim, spans_from(b, start, limit, verbatim), p),
        b[p] as char == '&',
        b[p + 1] as char == '#',
        hex ==> b[p + 2] as char == 'x' || b[p + 2] as char == 'X',
        are_digits(b.subrange(digits, end), hex),
        end - digits <= if hex { 6int } else { 7int },
        b[end] as char == ';',
    ensures
        ({
            let n = numeral(b.subrange(digits, end), hex);
            let c = if n == 0 || n > 0x10ffff || 0xd800 <= n <= 0xdfff {
                '\u{FFFD}'
            } else {
                n as char
            };
            renders(spans_from(b, start, limit, verbatim), p, end + 1, c)
        }),
{
    let spans = spans_from(b, start, limit, verbatim);
    lemma_numeral(b, digits, end, hex);
    lemma_digits_end(b, digits, end, limit, hex, 7);
    lemma_free_construct(b, start, limit, verbatim, p);
    assert(digit_value(b[digits], hex) is Some);
    assert((b[p + 2] == 120 || b[p + 2] == 88) == hex);
    let span = construct_at(b, p, limit)->0;
    assert(numeric_at(b, p + 1, limit) == Some(span));
    let k = choose|k: int| 0 <= k < spans.len() && spans[k] == span;
    assert(spans[k].range.start == p);
}

/// The named references that are resolved, and what to.
pub open spec fn known_names() -> Seq<(Seq<char>, char)> {
    seq![
        ("amp"@, '&'),
        ("lt"@, '<'),
        ("gt"@, '>'),
        ("quot"@, '"'),
        ("apos"@, '\''),
        ("nbsp"@, '\u{A0}'),
        ("copy"@, '\u{A9}'),
        ("reg"@, '\u{AE}'),
        ("trade"@, '\u{2122}'),
        ("mdash"@, '\u{2014}'),
        ("ndash"@, '\u{2013}'),
        ("hellip"@, '\u{2026}'),
        ("lsquo"@, '\u{2018}'),
        ("rsquo"@, '\u{2019}'),
        ("ldquo"@, '\u{201C}'),
        ("rdquo"@, '\u{201D}'),
        ("laquo"@, '\u{AB}'),
        ("raquo"@, '\u{BB}'),
        ("larr"@, '\u{2190}'),
        ("rarr"@, '\u{2192}'),
        ("uarr"@, '\u{2191}'),
        ("darr"@, '\u{2193}'),
        ("harr"@, '\u{2194}'),
        ("deg"@, '\u{B0}'),
        ("plusmn"@, '\u{B1}'),
        ("times"@, '\u{D7}'),
        ("divide"@, '\u{F7}'),
        ("infin"@, '\u{221E}'),
        ("ne"@, '\u{2260}'),
        ("le"@, '\u{2264}'),
        ("ge"@, '\u{2265}'),
        ("sum"@, '\u{2211}'),
        ("prod"@, '\u{220F}'),
        ("int"@, '\u{222B}'),
        ("alpha"@, '\u{3B1}'),
        ("beta"@, '\u{3B2}'),
        ("gamma"@, '\u{3B3}'),
        ("delta"@, '\u{3B4}'),
        ("epsilon"@, '\u{3B5}'),
        ("theta"@, '\u{3B8}'),
        ("lambda"@, '\u{3BB}'),
        ("mu"@, '\u{3BC}'),
        ("pi"@, '\u{3C0}'),
        ("sigma"@, '\u{3C3}'),
        ("phi"@, '\u{3C6}'),
        ("omega"@, '\u{3C9}'),
        ("Gamma"@, '\u{393}'),
        ("Delta"@, '\u{394}'),
        ("Theta"@, '\u{398}'),
        ("Lambda"@, '\u{39B}'),
        ("Pi"@, '\u{3A0}'),
        ("Sigma"@, '\u{3A3}'),
        ("Phi"@, '\u{3A6}'),
        ("Omega"@, '\u{3A9}'),
    ]
}

pub open spec fn is_name_char(c: char) -> bool {
    ('0' <= c && c <= '9') || ('A' <= c && c <= 'Z') || ('a' <= c && c <= 'z')
}

proof fn lemma_known_names()
    ensures
        ENTITIES@.len() == known_names().len(),
        forall|i: int|
            0 <= i < known_names().len() ==> ENTITIES@[i].0@ == (#[trigger] known_names()[i]).0
                && ENTITIES@[i].1 == known_names()[i].1,
{
    let known = known_names();
    assert(ENTITIES@[0].0@ == "amp"@ && ENTITIES@[0].1 == '&');
    assert(ENTITIES@[1].0@ == "lt"@ && ENTITIES@[1].1 == '<');
    assert(ENTITIES@[2].0@ == "gt"@ && ENTITIES@[2].1 == '>');
    assert(ENTITIES@[3].0@ == "quot"@ && ENTITIES@[3].1 == '"');
    assert(ENTITIES@[4].0@ == "apos"@ && ENTITIES@[4].1 == '\'');
    assert(ENTITIES@[5].0@ == "nbsp"@ && ENTITIES@[5].1 == '\u{A0}');
    assert(ENTITIES@[6].0@ == "copy"@ && ENTITIES@[6].1 == '\u{A9}');
    assert(ENTITIES@[7].0@ == "reg"@ && ENTITIES@[7].1 == '\u{AE}');
    assert(ENTITIES@[8].0@ == "trade"@ && ENTITIES@[8].1 == '\u{2122}');
    assert(ENTITIES@[9].0@ == "mdash"@ && ENTITIES@[9].1 == '\u{2014}');
    assert(ENTITIES@[10].0@ == "ndash"@ && ENTITIES@[10].1 == '\u{2013}');
    assert(ENTITIES@[11].0@ == "hellip"@ && ENTITIES@[11].1 == '\u{2026}');
    assert(ENTITIES@[12].0@ == "lsquo"@ && ENTITIES@[12].1 == '\u{2018}');
    assert(ENTITIES@[13].0@ == "rsquo"@ && ENTITIES@[13].1 == '\u{2019}');
    assert(ENTITIES@[14].0@ == "ldquo"@ && ENTITIES@[14].1 == '\u{201C}');
    assert(ENTITIES@[15].0@ == "rdquo"@ && ENTITIES@[15].1 == '\u{201D}');
    assert(ENTITIES@[16].0@ == "laquo"@ && ENTITIES@[16].1 == '\u{AB}');
    assert(ENTITIES@[17].0@ == "raquo"@ && ENTITIES@[17].1 == '\u{BB}');
    assert(ENTITIES@[18].0@ == "larr"@ && ENTITIES@[18].1 == '\u{2190}');
    assert(ENTITIES@[19].0@ == "rarr"@ && ENTITIES@[19].1 == '\u{2192}');
    assert(ENTITIES@[20].0@ == "uarr"@ && ENTITIES@[20].1 == '\u{2191}');
    assert(ENTITIES@[21].0@ == "darr"@ && ENTITIES@[21].1 == '\u{2193}');
    assert(ENTITIES@[22].0@ == "harr"@ && ENTITIES@[22].1 == '\u{2194}');
    assert(ENTITIES@[23].0@ == "deg"@ && ENTITIES@[23].1 == '\u{B0}');
    assert(ENTITIES@[24].0@ == "plusmn"@ && ENTITIES@[24].1 == '\u{B1}');
    assert(ENTITIES@[25].0@ == "times"@ && ENTITIES@[25].1 == '\u{D7}');
    assert(ENTITIES@[26].0@ == "divide"@ && ENTITIES@[26].1 == '\u{F7}');
    assert(ENTITIES@[27].0@ == "infin"@ && ENTITIES@[27].1 == '\u{221E}');
    assert(ENTITIES@[28].0@ == "ne"@ && ENTITIES@[28].1 == '\u{2260}');
    assert(ENTITIES@[29].0@ == "le"@ && ENTITIES@[29].1 == '\u{2264}');
    assert(ENTITIES@[30].0@ == "ge"@ && ENTITIES@[30].1 == '\u{2265}');
    assert(ENTITIES@[31].0@ == "sum"@ && ENTITIES@[31].1 == '\u{2211}');
    assert(ENTITIES@[32].0@ == "prod"@ && ENTITIES@[32].1 == '\u{220F}');
    assert(ENTITIES@[33].0@ == "int"@ && ENTITIES@[33].1 == '\u{222B}');
    assert(ENTITIES@[34].0@ == "alpha"@ && ENTITIES@[34].1 == '\u{3B1}');
    assert(ENTITIES@[35].0@ == "beta"@ && ENTITIES@[35].1 == '\u{3B2}');
    assert(ENTITIES@[36].0@ == "gamma"@ && ENTITIES@[36].1 == '\u{3B3}');
    assert(ENTITIES@[37].0@ == "delta"@ && ENTITIES@[37].1 == '\u{3B4}');
    assert(ENTITIES@[38].0@ == "epsilon"@ && ENTITIES@[38].1 == '\u{3B5}');
    assert(ENTITIES@[39].0@ == "theta"@ && ENTITIES@[39].1 == '\u{3B8}');
    assert(ENTITIES@[40].0@ == "lambda"@ && ENTITIES@[40].1 == '\u{3BB}');
    assert(ENTITIES@[41].0@ == "mu"@ && ENTITIES@[41].1 == '\u{3BC}');
    assert(ENTITIES@[42].0@ == "pi"@ && ENTITIES@[42].1 == '\u{3C0}');
    assert(ENTITIES@[43].0@ == "sigma"@ && ENTITIES@[43].1 == '\u{3C3}');
    assert(ENTITIES@[44].0@ == "phi"@ && ENTITIES@[44].1 == '\u{3C6}');
    assert(ENTITIES@[45].0@ == "omega"@ && ENTITIES@[45].1 == '\u{3C9}');
    assert(ENTITIES@[46].0@ == "Gamma"@ && ENTITIES@[46].1 == '\u{393}');
    assert(ENTITIES@[47].0@ == "Delta"@ && ENTITIES@[47].1 == '\u{394}');
    assert(ENTITIES@[48].0@ == "Theta"@ && ENTITIES@[48].1 == '\u{398}');
    assert(ENTITIES@[49].0@ == "Lambda"@ && ENTITIES@[49].1 == '\u{39B}');
    assert(ENTITIES@[50].0@ == "Pi"@ && ENTITIES@[50].1 == '\u{3A0}');
    assert(ENTITIES@[51].0@ == "Sigma"@ && ENTITIES@[51].1 == '\u{3A3}');
    assert(ENTITIES@[52].0@ == "Phi"@ && ENTITIES@[52].1 == '\u{3A6}');
    assert(ENTITIES@[53].0@ == "Omega"@ && ENTITIES@[53].1 == '\u{3A9}');
    assert(known[0] == ("amp"@, '&'));
    assert(known[1] == ("lt"@, '<'));
    assert(known[2] == ("gt"@, '>'));
    assert(known[3] == ("quot"@, '"'));
    assert(known[4] == ("apos"@, '\''));
    assert(known[5] == ("nbsp"@, '\u{A0}'));
    assert(known[6] == ("copy"@, '\u{A9}'));
    assert(known[7] == ("reg"@, '\u{AE}'));
    assert(known[8] == ("trade"@, '\u{2122}'));
    assert(known[9] == ("mdash"@, '\u{2014}'));
    assert(known[10] == ("ndash"@, '\u{2013}'));
    assert(known[11] == ("hellip"@, '\u{2026}'));
    assert(known[12] == ("lsquo"@, '\u{2018}'));
    assert(known[13] == ("rsquo"@, '\u{2019}'));
    assert(known[14] == ("ldquo"@, '\u{201C}'));
    assert(known[15] == ("rdquo"@, '\u{201D}'));
    assert(known[16] == ("laquo"@, '\u{AB}'));
    assert(known[17] == ("raquo"@, '\u{BB}'));
    assert(known[18] == ("larr"@, '\u{2190}'));
    assert(known[19] == ("rarr"@, '\u{2192}'));
    assert(known[20] == ("uarr"@, '\u{2191}'));
    assert(known[21] == ("darr"@, '\u{2193}'));
    assert(known[22] == ("harr"@, '\u{2194}'));
    assert(known[23] == ("deg"@, '\u{B0}'));
    assert(known[24] == ("plusmn"@, '\u{B1}'));
    assert(known[25] == ("times"@, '\u{D7}'));
    assert(known[26] == ("divide"@, '\u{F7}'));
    assert(known[27] == ("infin"@, '\u{221E}'));
    assert(known[28] == ("ne"@, '\u{2260}'));
    assert(known[29] == ("le"@, '\u{2264}'));
    assert(known[30] == ("ge"@, '\u{2265}'));
    assert(known[31] == ("sum"@, '\u{2211}'));
    assert(known[32] == ("prod"@, '\u{220F}'));
    assert(known[33] == ("int"@, '\u{222B}'));
    assert(known[34] == ("alpha"@, '\u{3B1}'));
    assert(known[35] == ("beta"@, '\u{3B2}'));
    assert(known[36] == ("gamma"@, '\u{3B3}'));
    assert(known[37] == ("delta"@, '\u{3B4}'));
    assert(known[38] == ("epsilon"@, '\u{3B5}'));
    assert(known[39] == ("theta"@, '\u{3B8}'));
    assert(known[40] == ("lambda"@, '\u{3BB}'));
    assert(known[41] == ("mu"@, '\u{3BC}'));
    assert(known[42] == ("pi"@, '\u{3C0}'));
    assert(known[43] == ("sigma"@, '\u{3C3}'));
    assert(known[44] == ("phi"@, '\u{3C6}'));
    assert(known[45] == ("omega"@, '\u{3C9}'));
    assert(known[46] == ("Gamma"@, '\u{393}'));
    assert(known[47] == ("Delta"@, '\u{394}'));
    assert(known[48] == ("Theta"@, '\u{398}'));
    assert(known[49] == ("Lambda"@, '\u{39B}'));
    assert(known[50] == ("Pi"@, '\u{3A0}'));
    assert(known[51] == ("Sigma"@, '\u{3A3}'));
    assert(known[52] == ("Phi"@, '\u{3A6}'));
    assert(known[53] == ("Omega"@, '\u{3A9}'));
}

proof fn lemma_entity_from(name: Seq<u8>, i: int, m: int)
    requires
        0 <= i <= m < ENTITIES@.len(),
        bytes_of(ENTITIES@[m].0@) == name,
        forall|j: int| i <= j < m ==> bytes_of((#[trigger] ENTITIES@[j]).0@) != name,
    ensures
        entity_from(name, i) == Some(ENTITIES@[m].1),
    decreases m - i,
{
    if i < m {
        assert(bytes_of(ENTITIES@[i].0@) != name);
        lemma_entity_from(name, i + 1, m);
    }
}

proof fn lemma_no_entity(name: Seq<u8>, i: int)
    requires
        0 <= i <= ENTITIES@.len(),
        forall|j: int| 0 <= j < ENTITIES@.len() ==> bytes_of((#[trigger] ENTITIES@[j]).0@) != name,
    ensures
        entity_from(name, i) is None,
    decreases ENTITIES@.len() - i,
{
    if i < ENTITIES@.len() {
        assert(bytes_of(ENTITIES@[i].0@) != name);
        lemma_no_entity(name, i + 1);
    }
}

proof fn lemma_name_end(b: Seq<u8>, p: int, end: int, limit: int, most: nat)
    requires
        0 <= p <= end < limit <= b.len(),
        end - p <= most,
        forall|i: int| p <= i < end ==> letter_or_digit(#[trigger] b[i]),
        !letter_or_digit(b[end]),
    ensures
        name_end(b, p, limit, most) == end,
    decreases end - p,
{
    if p < end {
        assert(letter_or_digit(b[p]));
        lemma_name_end(b, p + 1, end, limit, (most - 1) as nat);
    }
}

/// A named reference renders to what the name stands for. Outside of the verbatim
/// ranges and of the constructs before it, `&` with one to 32 letters and digits
/// and a semicolon behind it is a span that renders to the character of the first
/// known name that the letters are; where they are none, it begins no span.
pub proof fn names_render_to_their_character(
    b: Seq<u8>,
    start: int,
    limit: int,
    verbatim: Seq<Range<usize>>,
    p: int,
    end: int,
)
    requires
        0 <= start <= p,
        p + 1 < end < limit <= b.len() <= usize::MAX,
        end - p <= 33,
        is_free(verbatim, spans_from(b, start, limit, verbatim), p),
        b[p] as char == '&',
        forall|i: int| p < i < end ==> is_name_char(#[trigger] b[i] as char),
        b[end] as char == ';',
    ensures
        ({
            let spans = spans_from(b, start, limit, verbatim);
            let name = b.subrange(p + 1, end);
            &&& forall|m: int|
                0 <= m < known_names().len() && name == bytes_of((#[trigger] known_names()[m]).0)
                    && (forall|j: int|
                    0 <= j < m ==> bytes_of((#[trigger] known_names()[j]).0) != name) ==> renders(
                    spans,
                    p,
                    end + 1,
                    known_names()[m].1,
                )
            &&& (forall|m: int|
                0 <= m < known_names().len() ==> name != bytes_of((#[trigger] known_names()[m]).0))
                ==> begins_none(spans, p)
        }),
{
    let spans = spans_from(b, start, limit, verbatim);
    let name = b.subrange(p + 1, end);
    lemma_known_names();
    assert forall|i: int| p + 1 <= i < end implies letter_or_digit(#[trigger] b[i]) by {
        assert(is_name_char(b[i] as char));
    }
    lemma_name_end(b, p + 1, end, limit, 32);
    lemma_free_construct(b, start, limit, verbatim, p);
    assert(letter_or_digit(b[p + 1]));
    assert(construct_at(b, p, limit) == named_at(b, p + 1, limit));
    assert forall|m: int|
        0 <= m < known_names().len() && name == bytes_of((#[trigger] known_names()[m]).0) && (
        forall|j: int|
            0 <= j < m ==> bytes_of((#[trigger] known_names()[j]).0) != name) implies renders(
        spans,
        p,
        end + 1,
        known_names()[m].1,
    ) by {
        assert forall|j: int| 0 <= j < m implies bytes_of((#[trigger] ENTITIES@[j]).0@)
            != name by {
            assert(bytes_of(known_names()[j].0) != name);
        }
        lemma_entity_from(name, 0, m);
        let span = construct_at(b, p, limit)->0;
        let k = choose|k: int| 0 <= k < spans.len() && spans[k] == span;
        assert(spans[k].range.start == p);
    }
    if forall|m: int|
        0 <= m < known_names().len() ==> name != bytes_of((#[trigger] known_names()[m]).0) {
        assert forall|j: int| 0 <= j < ENTITIES@.len() implies bytes_of((#[trigger] ENTITIES@[j]).0@)
            != name by {
            assert(bytes_of(known_names()[j].0) != name);
        }
        lemma_no_entity(name, 0);
    }
}

/// Every span begins with a backslash or an ampersand; nothing else is an escape or
/// a reference.
pub proof fn spans_begin_with_their_sign(
    b: Seq<u8>,
    start: int,
    limit: int,
    verbatim: Seq<Range<usize>>,
    k: int,
)
    requires
        0 <= start,
        limit <= b.len() <= usize::MAX,
        0 <= k < spans_from(b, start, limit, verbatim).len(),
    ensures
        ({
            let span = spans_from(b, start, limit, verbatim)[k];
            let sign = b[span.range.start as int] as char;
            &&& sign == '\\' || sign == '&'
            &&& sign == '\\' ==> span.range.end == span.range.start + 2
            &&& sign == '&' ==> b[span.range.end - 1] as char == ';'
        }),
    decreases if limit > start { limit - start } else { 0 },
{
    crate::escapes::lemma_verbatim_end(verbatim, start);
    crate::escapes::lemma_construct_at(b, start, limit);
    match crate::escapes::verbatim_end(verbatim, start) {
        Some(end) => {
            spans_begin_with_their_sign(b, end, limit, verbatim, k);
        },
        None => match construct_at(b, start, limit) {
            Some(span) => {
                let rest = spans_from(b, span.range.end as int, limit, verbatim);
                assert(spans_from(b, start, limit, verbatim) == seq![span] + rest);
                if k > 0 {
                    spans_begin_with_their_sign(b, span.range.end as int, limit, verbatim, k - 1);
                } else if b[start] == crate::escapes::AMPERSAND {
                    if b[start + 1] == crate::escapes::NUMBER_SIGN {
                        let hex = b[start + 2] == 120 || b[start + 2] == 88;
                        lemma_number_end(
                            b,
                            if hex { start + 3 } else { start + 2 },
                            limit,
                            hex,
                            7,
                        );
                    } else {
                        crate::escapes::lemma_name_end(b, start + 1, limit, 32);
                    }
                }
            },
            None => {
                spans_begin_with_their_sign(b, start + 1, limit, verbatim, k);
            },
        },
    }
}

} // verus!
