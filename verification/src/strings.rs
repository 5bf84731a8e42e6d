//! Building strings.

use vstd::prelude::*;

use crate::text::bytes_of;

verus! {

/// `String::push` appends one character and changes nothing else.
pub assume_specification[ String::push ](s: &mut String, c: char)
    ensures
        final(s)@ == old(s)@.push(c),
;

/// `String::push_str` appends a string slice and changes nothing else.
pub assume_specification[ String::push_str ](s: &mut String, other: &str)
    ensures
        final(s)@ == old(s)@ + other@,
;

/// `n`, or `usize::MAX` where that is less: lengths and offsets beyond it do
/// not exist.
pub open spec fn capped(n: int) -> usize {
    if n <= usize::MAX {
        n as usize
    } else {
        usize::MAX
    }
}

/// The text is ASCII and as many bytes long as it has characters.
pub proof fn lemma_ascii_length(text: Seq<char>)
    requires
        vstd::utf8::is_ascii_chars(text),
    ensures
        bytes_of(text).len() == text.len(),
{
    vstd::utf8::is_ascii_chars_encode_utf8(text);
}

/// `n` spaces.
pub open spec fn spaces(n: nat) -> Seq<char> {
    Seq::new(n, |i: int| ' ')
}

/// Appends `n` spaces to `out`.
pub fn push_spaces(out: &mut String, n: usize)
    ensures
        final(out)@ == old(out)@ + spaces(n as nat),
{
    let ghost before = out@;
    let mut i: usize = 0;
    while i < n
        invariant
            i <= n,
            out@ =~= before + spaces(i as nat),
        decreases n - i,
    {
        out.push(' ');
        i = i + 1;
    }
}

/// The decimal digit of `d`.
pub open spec fn digit_char(d: nat) -> char {
    (48 + d) as char
}

/// The decimal digits of `n`, without leading zeros.
pub open spec fn decimal(n: nat) -> Seq<char>
    decreases n,
{
    if n < 10 {
        seq![digit_char(n)]
    } else {
        decimal(n / 10).push(digit_char(n % 10))
    }
}

/// Appends the decimal digits of `n` to `out`.
pub fn push_decimal(out: &mut String, n: u64)
    ensures
        final(out)@ == old(out)@ + decimal(n as nat),
    decreases n,
{
    let ghost before = out@;
    if n >= 10 {
        push_decimal(out, n / 10);
    }
    let digit: u8 = (n % 10) as u8;
    out.push((48u8 + digit) as char);
    assert(out@ =~= before + decimal(n as nat));
}

// ---------------------------------------------------------------------------
// Characters and bytes
// ---------------------------------------------------------------------------

/// Number of bytes of the UTF-8 form of `c`.
pub open spec fn char_width(c: char) -> nat {
    vstd::utf8::encode_scalar(c as u32).len()
}

/// Number of bytes of the UTF-8 form of `c`.
pub fn utf8_len(c: char) -> (width: usize)
    ensures
        width == char_width(c),
        1 <= width <= 4,
{
    let v = c as u32;
    if v <= 0x7f {
        1
    } else if v <= 0x7ff {
        2
    } else if v <= 0xffff {
        3
    } else {
        4
    }
}

/// The bytes of two texts in a row are the bytes of the one and then of the
/// other.
pub proof fn lemma_bytes_concat(a: Seq<char>, c: Seq<char>)
    ensures
        bytes_of(a + c) == bytes_of(a) + bytes_of(c),
    decreases a.len(),
{
    if a.len() == 0 {
        assert(a + c =~= c);
        assert(bytes_of(a) + bytes_of(c) =~= bytes_of(c));
    } else {
        assert((a + c).drop_first() =~= a.drop_first() + c);
        lemma_bytes_concat(a.drop_first(), c);
        assert(bytes_of(a + c) =~= bytes_of(a) + bytes_of(c));
    }
}

pub proof fn lemma_bytes_push(a: Seq<char>, c: char)
    ensures
        bytes_of(a.push(c)) == bytes_of(a) + vstd::utf8::encode_scalar(c as u32),
        bytes_of(a.push(c)).len() == bytes_of(a).len() + char_width(c),
{
    assert(a.push(c) =~= a + seq![c]);
    lemma_bytes_concat(a, seq![c]);
    reveal_with_fuel(vstd::utf8::encode_utf8, 2);
    assert(seq![c].drop_first() =~= Seq::<char>::empty());
    assert(bytes_of(seq![c]) =~= vstd::utf8::encode_scalar(c as u32));
}

/// Byte offset of character `i` of a text.
pub open spec fn byte_offset(text: Seq<char>, i: int) -> int {
    bytes_of(text.take(i)).len() as int
}

pub proof fn lemma_byte_offset_step(text: Seq<char>, i: int)
    requires
        0 <= i < text.len(),
    ensures
        byte_offset(text, i + 1) == byte_offset(text, i) + char_width(text[i]),
        byte_offset(text, i + 1) <= bytes_of(text).len(),
{
    assert(text.take(i + 1) =~= text.take(i).push(text[i]));
    lemma_bytes_push(text.take(i), text[i]);
    assert(text =~= text.take(i + 1) + text.skip(i + 1));
    lemma_bytes_concat(text.take(i + 1), text.skip(i + 1));
}

/// The characters of a text.
pub fn chars_of(text: &str) -> (chars: Vec<char>)
    ensures
        chars@ == text@,
{
    let mut chars: Vec<char> = Vec::new();
    for c in it: text.chars()
        invariant
            it.seq() == text@,
            chars@ =~= text@.take(it.index()),
    {
        chars.push(c);
    }
    assert(text@.take(text@.len() as int) =~= text@);
    chars
}

} // verus!
