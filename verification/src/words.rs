//! Characters by their byte offsets, white space and words.

use core::ops::Range;

use unicode_segmentation::UnicodeSegmentation;
use vstd::prelude::*;

use crate::cjk::alphanumeric;
use crate::strings::{byte_offset, lemma_byte_offset_step, lemma_bytes_concat, utf8_len};
use crate::text::bytes_of;

verus! {

// ---------------------------------------------------------------------------
// Characters by byte offset
// ---------------------------------------------------------------------------

/// The first character from `i` on that begins at byte `p` or after it.
pub open spec fn index_from(text: Seq<char>, i: int, p: int) -> int
    decreases text.len() - i,
{
    if i < text.len() && byte_offset(text, i) < p {
        index_from(text, i + 1, p)
    } else {
        i
    }
}

/// The first character that begins at byte `p` or after it.
pub open spec fn index_at(text: Seq<char>, p: int) -> int {
    index_from(text, 0, p)
}

/// The characters that begin in the bytes `[s, e)`.
pub open spec fn slice(text: Seq<char>, s: int, e: int) -> Seq<char> {
    if index_at(text, s) <= index_at(text, e) {
        text.subrange(index_at(text, s), index_at(text, e))
    } else {
        Seq::empty()
    }
}

pub proof fn lemma_offsets_grow(text: Seq<char>, i: int, j: int)
    requires
        0 <= i <= j <= text.len(),
    ensures
        byte_offset(text, i) + (j - i) <= byte_offset(text, j),
        byte_offset(text, j) <= bytes_of(text).len(),
    decreases j - i,
{
    if i < j {
        lemma_offsets_grow(text, i, j - 1);
        lemma_byte_offset_step(text, j - 1);
        let c = text[j - 1];
        assert(vstd::utf8::encode_scalar(c as u32).len() >= 1);
    } else {
        assert(text =~= text.take(j) + text.skip(j));
        lemma_bytes_concat(text.take(j), text.skip(j));
    }
}

pub proof fn lemma_index_from(text: Seq<char>, i: int, p: int)
    requires
        0 <= i <= text.len(),
        forall|j: int| 0 <= j < i ==> #[trigger] byte_offset(text, j) < p,
    ensures
        i <= index_from(text, i, p) <= text.len(),
        forall|j: int| 0 <= j < index_from(text, i, p) ==> #[trigger] byte_offset(text, j) < p,
        forall|j: int|
            index_from(text, i, p) <= j < text.len() ==> #[trigger] byte_offset(text, j) >= p,
    decreases text.len() - i,
{
    if i < text.len() && byte_offset(text, i) < p {
        lemma_index_from(text, i + 1, p);
    } else {
        assert forall|j: int| i <= j < text.len() implies #[trigger] byte_offset(text, j) >= p by {
            lemma_offsets_grow(text, i, j);
        }
    }
}

/// The characters before index `index_at(text, p)` are those that begin before
/// byte `p`.
pub proof fn lemma_index_at(text: Seq<char>, p: int)
    ensures
        0 <= index_at(text, p) <= text.len(),
        forall|j: int| 0 <= j < index_at(text, p) ==> #[trigger] byte_offset(text, j) < p,
        forall|j: int| index_at(text, p) <= j < text.len() ==> #[trigger] byte_offset(text, j) >= p,
{
    lemma_index_from(text, 0, p);
}

/// Character `i` is the first one from its own offset on.
pub proof fn lemma_index_of_offset(text: Seq<char>, i: int)
    requires
        0 <= i <= text.len(),
    ensures
        index_at(text, byte_offset(text, i)) == i,
{
    let p = byte_offset(text, i);
    lemma_index_at(text, p);
    let k = index_at(text, p);
    if k < i {
        lemma_offsets_grow(text, k, i);
    } else if k > i {
        assert(byte_offset(text, i) < p);
    }
}

pub proof fn lemma_index_grows(text: Seq<char>, p: int, q: int)
    requires
        p <= q,
    ensures
        0 <= index_at(text, p) <= index_at(text, q) <= text.len(),
{
    lemma_index_at(text, p);
    lemma_index_at(text, q);
    let i = index_at(text, p);
    let j = index_at(text, q);
    if j < i {
        assert(byte_offset(text, j) < p);
        assert(byte_offset(text, j) >= q);
    }
}

/// A text with the byte offset of each of its characters.
pub struct Glyphs {
    table: Vec<(usize, char)>,
    text: Ghost<Seq<char>>,
    size: usize,
}

impl View for Glyphs {
    type V = Seq<char>;

    closed spec fn view(&self) -> Seq<char> {
        self.text@
    }
}

impl Glyphs {
    #[verifier::type_invariant]
    spec fn located(self) -> bool {
        &&& self.table@.len() == self.text@.len()
        &&& self.size == bytes_of(self.text@).len()
        &&& forall|i: int|
            0 <= i < self.table@.len() ==> (#[trigger] self.table@[i]).0 == byte_offset(
                self.text@,
                i,
            ) && self.table@[i].1 == self.text@[i]
    }

    pub fn of(text: &str) -> (glyphs: Self)
        ensures
            glyphs@ == text@,
    {
        let size: usize = text.as_bytes().len();
        let mut table: Vec<(usize, char)> = Vec::new();
        let mut offset: usize = 0;
        assert(text@.take(0) =~= Seq::<char>::empty());
        for c in it: text.chars()
            invariant
                it.seq() == text@,
                size == bytes_of(text@).len(),
                table@.len() == it.index(),
                offset == byte_offset(text@, it.index()),
                forall|i: int|
                    0 <= i < table@.len() ==> (#[trigger] table@[i]).0 == byte_offset(text@, i)
                        && table@[i].1 == text@[i],
        {
            proof {
                lemma_byte_offset_step(text@, it.index());
            }
            table.push((offset, c));
            offset = offset + utf8_len(c);
        }
        Glyphs { table, text: Ghost(text@), size }
    }

    /// Number of characters.
    pub fn len(&self) -> (len: usize)
        ensures
            len == self@.len(),
    {
        proof {
            use_type_invariant(self);
        }
        self.table.len()
    }

    /// Number of bytes.
    pub fn size(&self) -> (size: usize)
        ensures
            size == bytes_of(self@).len(),
    {
        proof {
            use_type_invariant(self);
        }
        self.size
    }

    /// Character `i`.
    pub fn char_at(&self, i: usize) -> (c: char)
        requires
            i < self@.len(),
        ensures
            c == self@[i as int],
    {
        proof {
            use_type_invariant(self);
        }
        self.table[i].1
    }

    /// Byte offset of character `i`, or of the end of the text.
    pub fn offset_of(&self, i: usize) -> (offset: usize)
        requires
            i <= self@.len(),
        ensures
            offset == byte_offset(self@, i as int),
    {
        proof {
            use_type_invariant(self);
            assert(self.text@.take(self.text@.len() as int) =~= self.text@);
        }
        if i < self.table.len() {
            self.table[i].0
        } else {
            self.size
        }
    }

    /// The first character that begins at byte `p` or after it.
    pub fn index_of(&self, p: usize) -> (index: usize)
        ensures
            index == index_at(self@, p as int),
            index <= self@.len(),
    {
        proof {
            use_type_invariant(self);
        }
        let mut low: usize = 0;
        let mut high: usize = self.table.len();
        let ghost text = self.text@;
        let ghost wanted = index_at(text, p as int);
        proof {
            lemma_index_at(text, p as int);
        }
        while low < high
            invariant
                low <= wanted <= high <= text.len(),
                text == self.text@,
                wanted == index_at(text, p as int),
                forall|j: int| 0 <= j < wanted ==> #[trigger] byte_offset(text, j) < p,
                forall|j: int| wanted <= j < text.len() ==> #[trigger] byte_offset(text, j) >= p,
                self.table@.len() == text.len(),
                forall|i: int|
                    0 <= i < self.table@.len() ==> (#[trigger] self.table@[i]).0 == byte_offset(
                        text,
                        i,
                    ),
            decreases high - low,
        {
            let mid: usize = low + (high - low) / 2;
            assert(self.table@[mid as int].0 == byte_offset(text, mid as int));
            if self.table[mid].0 < p {
                low = mid + 1;
            } else {
                high = mid;
            }
        }
        low
    }
}

// ---------------------------------------------------------------------------
// White space
// ---------------------------------------------------------------------------

/// Is the character white space: a tab, a line ending, a space, or one of the
/// other spaces and separators that have the White_Space property of Unicode?
pub open spec fn whitespace(c: char) -> bool {
    let v = c as u32;
    ||| 0x9 <= v <= 0xd
    ||| v == 0x20
    ||| v == 0x85
    ||| v == 0xa0
    ||| v == 0x1680
    ||| 0x2000 <= v <= 0x200a
    ||| 0x2028 <= v <= 0x2029
    ||| v == 0x202f
    ||| v == 0x205f
    ||| v == 0x3000
}

/// `char::is_whitespace`: whether the character has the White_Space property,
/// written out as the code points that have it.
pub assume_specification[ char::is_whitespace ](c: char) -> (found: bool)
    ensures
        found == whitespace(c),
;

/// Past the white space from character `i`, no further than `limit`.
pub open spec fn white_end(text: Seq<char>, i: int, limit: int) -> int
    decreases limit - i,
{
    if i < limit && whitespace(text[i]) {
        white_end(text, i + 1, limit)
    } else {
        i
    }
}

/// Before the white space that ends at character `i`, no further than `floor`.
pub open spec fn white_start(text: Seq<char>, i: int, floor: int) -> int
    decreases i - floor,
{
    if i > floor && whitespace(text[i - 1]) {
        white_start(text, i - 1, floor)
    } else {
        i
    }
}

/// The bytes `[s, e)` without the white space at both ends; nothing where there
/// is only white space.
pub open spec fn trimmed(text: Seq<char>, s: int, e: int) -> Option<Range<usize>> {
    let limit = index_at(text, e);
    let start = white_end(text, index_at(text, s), limit);
    let end = white_start(text, limit, start);
    if start < end {
        Some(
            Range {
                start: byte_offset(text, start) as usize,
                end: byte_offset(text, end) as usize,
            },
        )
    } else {
        None
    }
}

/// Do the bytes `[s, e)` hold more than white space?
pub open spec fn has_text(text: Seq<char>, s: int, e: int) -> bool {
    exists|i: int|
        index_at(text, s) <= i < index_at(text, e) && !whitespace(#[trigger] text[i])
}

impl Glyphs {
    /// The bytes `[s, e)` without the white space at both ends.
    pub fn trim(&self, s: usize, e: usize) -> (range: Option<Range<usize>>)
        ensures
            range == trimmed(self@, s as int, e as int),
    {
        let first: usize = self.index_of(s);
        let limit: usize = self.index_of(e);
        let mut start: usize = first;
        while start < limit && self.char_at(start).is_whitespace()
            invariant
                limit <= self@.len(),
                start <= limit || start == first,
                white_end(self@, first as int, limit as int) == white_end(
                    self@,
                    start as int,
                    limit as int,
                ),
            decreases limit - start,
        {
            start = start + 1;
        }
        let mut end: usize = limit;
        while end > start && self.char_at(end - 1).is_whitespace()
            invariant
                end <= limit <= self@.len(),
                white_start(self@, limit as int, start as int) == white_start(
                    self@,
                    end as int,
                    start as int,
                ),
            decreases end,
        {
            end = end - 1;
        }
        if start < end {
            Some(self.offset_of(start)..self.offset_of(end))
        } else {
            None
        }
    }

    /// Do the bytes `[s, e)` hold more than white space?
    pub fn has_text(&self, s: usize, e: usize) -> (found: bool)
        ensures
            found == has_text(self@, s as int, e as int),
    {
        let first: usize = self.index_of(s);
        let limit: usize = self.index_of(e);
        let mut i: usize = first;
        while i < limit
            invariant
                first == index_at(self@, s as int),
                limit == index_at(self@, e as int),
                limit <= self@.len(),
                first <= i,
                forall|j: int| first <= j < i ==> whitespace(#[trigger] self@[j]),
            decreases limit - i,
        {
            if !self.char_at(i).is_whitespace() {
                return true;
            }
            i = i + 1;
        }
        false
    }

    /// The characters that begin in the bytes `[s, e)`.
    pub fn text(&self, s: usize, e: usize) -> (out: String)
        ensures
            out@ == slice(self@, s as int, e as int),
    {
        let mut out = String::new();
        self.push_text(&mut out, s, e);
        assert(out@ =~= slice(self@, s as int, e as int));
        out
    }

    /// Appends the characters that begin in the bytes `[s, e)`.
    pub fn push_text(&self, out: &mut String, s: usize, e: usize)
        ensures
            final(out)@ == old(out)@ + slice(self@, s as int, e as int),
    {
        let ghost before = out@;
        let first: usize = self.index_of(s);
        let limit: usize = self.index_of(e);
        let mut i: usize = first;
        while i < limit
            invariant
                first <= i,
                i <= limit || i == first,
                limit <= self@.len(),
                first <= limit ==> out@ =~= before + self@.subrange(first as int, i as int),
                first > limit ==> out@ == before,
            decreases limit - i,
        {
            out.push(self.char_at(i));
            i = i + 1;
        }
        assert(out@ =~= before + slice(self@, s as int, e as int));
    }
}

// ---------------------------------------------------------------------------
// Words
// ---------------------------------------------------------------------------

/// The substrings of a text between its word boundaries.
pub uninterp spec fn word_bounds(text: Seq<char>) -> Seq<Seq<char>>;

/// The mathematical form of a list of strings.
pub open spec fn strings_view(strings: Seq<String>) -> Seq<Seq<char>> {
    Seq::new(strings.len(), |i: int| strings[i]@)
}

/// The texts in a row.
pub open spec fn joined(pieces: Seq<Seq<char>>) -> Seq<char>
    decreases pieces.len(),
{
    if pieces.len() == 0 {
        Seq::empty()
    } else {
        joined(pieces.drop_last()) + pieces.last()
    }
}

/// `UnicodeSegmentation::split_word_bound_indices`, without the offsets: the
/// substrings between the word boundaries depend on the text alone, and in a
/// row they are the text.
#[verifier::external_body]
pub(crate) fn word_pieces(text: &str) -> (pieces: Vec<String>)
    ensures
        strings_view(pieces@) == word_bounds(text@),
        joined(strings_view(pieces@)) == text@,
{
    text.split_word_bound_indices().map(|(_, piece)| piece.to_string()).collect()
}

/// Where piece `k` begins, in bytes.
pub open spec fn piece_start(pieces: Seq<Seq<char>>, k: int) -> int {
    bytes_of(joined(pieces.take(k))).len() as int
}

/// Does the piece hold a letter or a digit?
pub open spec fn is_word(piece: Seq<char>) -> bool {
    exists|i: int| 0 <= i < piece.len() && alphanumeric(#[trigger] piece[i])
}

pub proof fn lemma_piece_step(pieces: Seq<Seq<char>>, k: int)
    requires
        0 <= k < pieces.len(),
    ensures
        piece_start(pieces, k + 1) == piece_start(pieces, k) + bytes_of(pieces[k]).len(),
        piece_start(pieces, k + 1) <= bytes_of(joined(pieces)).len(),
    decreases pieces.len() - k,
{
    assert(pieces.take(k + 1).drop_last() =~= pieces.take(k));
    lemma_bytes_concat(joined(pieces.take(k)), pieces[k]);
    if k + 1 < pieces.len() {
        lemma_piece_step(pieces, k + 1);
    } else {
        assert(pieces.take(k + 1) =~= pieces);
    }
}

/// Does the text hold a letter or a digit?
pub fn holds_word(piece: &str) -> (found: bool)
    ensures
        found == is_word(piece@),
{
    let chars = crate::strings::chars_of(piece);
    let mut i: usize = 0;
    while i < chars.len()
        invariant
            i <= chars@.len(),
            chars@ == piece@,
            forall|j: int| 0 <= j < i ==> !alphanumeric(#[trigger] piece@[j]),
        decreases chars@.len() - i,
    {
        if chars[i].is_alphanumeric() {
            assert(alphanumeric(piece@[i as int]));
            return true;
        }
        i = i + 1;
    }
    false
}

/// The characters between two texts are what stands between them.
pub proof fn lemma_slice_between(left: Seq<char>, middle: Seq<char>, right: Seq<char>)
    ensures
        slice(
            left + middle + right,
            bytes_of(left).len() as int,
            bytes_of(left + middle).len() as int,
        ) == middle,
        slice(left + middle + right, 0, bytes_of(left).len() as int) == left,
        slice(
            left + middle + right,
            bytes_of(left + middle).len() as int,
            bytes_of(left + middle + right).len() as int,
        ) == right,
{
    let text = left + middle + right;
    let i = left.len() as int;
    let j = i + middle.len();
    assert(text.take(i) =~= left);
    assert(text.take(j) =~= left + middle);
    assert(text.take(text.len() as int) =~= text);
    assert(text.take(0) =~= Seq::empty());
    lemma_index_of_offset(text, 0);
    lemma_index_of_offset(text, i);
    lemma_index_of_offset(text, j);
    lemma_index_of_offset(text, text.len() as int);
    assert(text.subrange(i, j) =~= middle);
    assert(text.subrange(0, i) =~= left);
    assert(text.subrange(j, text.len() as int) =~= right);
}

} // verus!
