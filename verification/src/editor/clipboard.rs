//! What goes in and out of the clipboard.

use vstd::prelude::*;

use crate::state::{EditorState, Selection};
use crate::strings::chars_of;
use crate::text::bytes_of;
use crate::words::{lemma_slice_between, slice, Glyphs};

verus! {

/// The tag on what was copied out of an editor: such text is canonical markdown
/// already.
pub const CLIPBOARD_SENTINEL: &'static str = "gpui-markdown-editor";

/// Was the clipboard content copied out of an editor?
pub fn is_internal(metadata: Option<&String>) -> (internal: bool)
    ensures
        internal == match metadata {
            Some(tag) => tag@ == CLIPBOARD_SENTINEL@,
            None => false,
        },
{
    match metadata {
        Some(tag) => {
            let mut sentinel = String::new();
            sentinel.push_str(CLIPBOARD_SENTINEL);
            assert(sentinel@ =~= CLIPBOARD_SENTINEL@);
            *tag == sentinel
        },
        None => false,
    }
}

/// The selected text; none where nothing is selected.
pub fn copied_text(state: &EditorState) -> (text: Option<String>)
    ensures
        match text {
            Some(t) => state.selection.low() < state.selection.high() && t@ == slice(
                state.markdown@,
                state.selection.low() as int,
                state.selection.high() as int,
            ),
            None => state.selection.low() == state.selection.high(),
        },
{
    let range = state.selection.selection_range();
    if range.start >= range.end {
        return None;
    }
    let glyphs = Glyphs::of(state.markdown.as_str());
    Some(glyphs.text(range.start, range.end))
}

// ---------------------------------------------------------------------------
// Line endings
// ---------------------------------------------------------------------------

/// Past the line ending at `i`: one character, or both of a carriage return and
/// a newline.
pub open spec fn past_ending(text: Seq<char>, i: int) -> int {
    if text[i] == '\r' && i + 1 < text.len() && text[i + 1] == '\n' {
        i + 2
    } else {
        i + 1
    }
}

/// The text from `i` on with every carriage return, alone or before a newline,
/// as a newline.
pub open spec fn normalized_from(text: Seq<char>, i: int) -> Seq<char>
    decreases text.len() - i,
{
    if i >= text.len() {
        Seq::empty()
    } else {
        seq![
            if text[i] == '\r' {
                '\n'
            } else {
                text[i]
            },
        ] + normalized_from(text, past_ending(text, i))
    }
}

/// The text with newlines as its only line endings.
pub open spec fn normalized(text: Seq<char>) -> Seq<char> {
    normalized_from(text, 0)
}

/// The text with newlines as its only line endings.
pub fn normalize_line_endings(text: &str) -> (out: String)
    ensures
        out@ == normalized(text@),
{
    let chars = chars_of(text);
    let mut out = String::new();
    let mut i: usize = 0;
    assert(out@ + normalized(text@) =~= normalized(text@));
    while i < chars.len()
        invariant
            i <= chars@.len(),
            chars@ == text@,
            out@ + normalized_from(text@, i as int) == normalized(text@),
        decreases chars@.len() - i,
    {
        let ghost before = out@;
        let c = chars[i];
        if c == '\r' {
            out.push('\n');
        } else {
            out.push(c);
        }
        proof {
            let rest = normalized_from(text@, past_ending(text@, i as int));
            let head = if text@[i as int] == '\r' {
                '\n'
            } else {
                text@[i as int]
            };
            assert(before + (seq![head] + rest) =~= out@ + rest);
        }
        if c == '\r' && chars.len() - i > 1 && chars[i + 1] == '\n' {
            i = i + 2;
        } else {
            i = i + 1;
        }
    }
    assert(out@ + Seq::<char>::empty() =~= out@);
    out
}

// ---------------------------------------------------------------------------
// Laws
// ---------------------------------------------------------------------------

pub open spec fn no_carriage_return(text: Seq<char>) -> bool {
    forall|i: int| 0 <= i < text.len() ==> #[trigger] text[i] != '\r'
}

proof fn lemma_normalized_from(text: Seq<char>, i: int)
    requires
        0 <= i,
    ensures
        no_carriage_return(normalized_from(text, i)),
        no_carriage_return(text) && i <= text.len() ==> normalized_from(text, i) == text.skip(i),
    decreases text.len() - i,
{
    if i < text.len() {
        let next = past_ending(text, i);
        lemma_normalized_from(text, next);
        let rest = normalized_from(text, next);
        let out = normalized_from(text, i);
        assert forall|j: int| 0 <= j < out.len() implies #[trigger] out[j] != '\r' by {
            if j > 0 {
                assert(out[j] == rest[j - 1]);
            }
        }
        if no_carriage_return(text) {
            assert(text[i] != '\r');
            assert(out =~= text.skip(i));
        }
    } else if i <= text.len() {
        assert(text.skip(i) =~= Seq::empty());
    }
}

/// No carriage return is left.
pub proof fn normalized_text_has_no_carriage_return(text: Seq<char>)
    ensures
        no_carriage_return(normalized(text)),
{
    lemma_normalized_from(text, 0);
}

/// A text without carriage returns stays as it is; so normalizing twice is
/// normalizing once.
pub proof fn normalizing_is_idempotent(text: Seq<char>)
    ensures
        no_carriage_return(text) ==> normalized(text) == text,
        normalized(normalized(text)) == normalized(text),
{
    lemma_normalized_from(text, 0);
    lemma_normalized_from(normalized(text), 0);
    assert(text.skip(0) =~= text);
    assert(normalized(text).skip(0) =~= normalized(text));
}

proof fn lemma_normalized_skips(text: Seq<char>, head: Seq<char>, i: int)
    requires
        0 <= i <= text.len(),
    ensures
        normalized_from(head + text, head.len() + i) == normalized_from(text, i),
    decreases text.len() - i,
{
    let all = head + text;
    if i < text.len() {
        assert(all[head.len() + i] == text[i]);
        if i + 1 < text.len() {
            assert(all[head.len() + i + 1] == text[i + 1]);
        }
        let next = past_ending(text, i);
        assert(past_ending(all, head.len() + i) == head.len() + next);
        lemma_normalized_skips(text, head, next);
    }
}

proof fn lemma_normalized_line(line: Seq<char>, rest: Seq<char>, i: int)
    requires
        0 <= i <= line.len(),
        forall|k: int| 0 <= k < line.len() ==> #[trigger] line[k] != '\r',
    ensures
        normalized_from(line + rest, i) == line.skip(i) + normalized_from(
            line + rest,
            line.len() as int,
        ),
    decreases line.len() - i,
{
    let all = line + rest;
    if i < line.len() {
        lemma_normalized_line(line, rest, i + 1);
        assert(line[i] != '\r');
        assert(all[i] == line[i]);
        assert(line.skip(i) =~= seq![line[i]] + line.skip(i + 1));
        assert(normalized_from(all, i) =~= line.skip(i) + normalized_from(all, line.len() as int));
    } else {
        assert(line.skip(i) =~= Seq::empty());
        assert(line.skip(i) + normalized_from(all, i) =~= normalized_from(all, i));
    }
}

/// Every line ending becomes one newline and all else stays: a line is kept, a
/// carriage return and a newline behind it become a newline, and so does a carriage
/// return alone; then comes the rest, in the same way.
pub proof fn line_endings_become_newlines(line: Seq<char>, rest: Seq<char>)
    requires
        no_carriage_return(line),
    ensures
        normalized(line) == line,
        normalized(line + seq!['\r', '\n'] + rest) == line + seq!['\n'] + normalized(rest),
        normalized(line + seq!['\n'] + rest) == line + seq!['\n'] + normalized(rest),
        rest.len() == 0 || rest[0] != '\n' ==> normalized(line + seq!['\r'] + rest) == line + seq![
            '\n',
        ] + normalized(rest),
{
    let n = line.len() as int;
    lemma_normalized_line(line, Seq::empty(), 0);
    assert(line + Seq::<char>::empty() =~= line);
    assert(line.skip(0) =~= line);
    assert(normalized(line) =~= line);
    let both = seq!['\r', '\n'];
    let one = line + both + rest;
    assert(one =~= line + (both + rest));
    lemma_normalized_line(line, both + rest, 0);
    assert(one[n] == '\r' && one[n + 1] == '\n');
    assert(one =~= (line + both) + rest);
    lemma_normalized_skips(rest, line + both, 0);
    assert(normalized(one) =~= line + seq!['\n'] + normalized(rest));
    let newline = seq!['\n'];
    let two = line + newline + rest;
    assert(two =~= line + (newline + rest));
    lemma_normalized_line(line, newline + rest, 0);
    assert(two[n] == '\n');
    lemma_normalized_skips(rest, line + newline, 0);
    assert(normalized(two) =~= line + seq!['\n'] + normalized(rest));
    if rest.len() == 0 || rest[0] != '\n' {
        let alone = seq!['\r'];
        let three = line + alone + rest;
        assert(three =~= line + (alone + rest));
        lemma_normalized_line(line, alone + rest, 0);
        assert(three[n] == '\r');
        if rest.len() > 0 {
            assert(three[n + 1] == rest[0]);
        }
        lemma_normalized_skips(rest, line + alone, 0);
        assert(normalized(three) =~= line + seq!['\n'] + normalized(rest));
    }
}

/// What is copied is what is between the ends of the selection, whichever comes
/// first.
pub proof fn selections_are_copied(
    left: Seq<char>,
    selected: Seq<char>,
    right: Seq<char>,
    selection: Selection,
)
    requires
        selection.low() == bytes_of(left).len(),
        selection.high() == bytes_of(left + selected).len(),
    ensures
        slice(left + selected + right, selection.low() as int, selection.high() as int)
            == selected,
{
    lemma_slice_between(left, selected, right);
}

} // verus!
