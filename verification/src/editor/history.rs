//! Undo and redo.

use vstd::prelude::*;

use crate::state::{Document, EditorState, Selection};
use crate::strings::{byte_offset, char_width, lemma_bytes_concat, lemma_bytes_push, utf8_len};
use crate::text::bytes_of;
use crate::words::{index_at, lemma_index_at, lemma_index_of_offset, whitespace, Glyphs};

verus! {

/// Most states that can be gone back to.
pub const MAX_HISTORY: usize = 256;

// ---------------------------------------------------------------------------
// Typing
// ---------------------------------------------------------------------------

/// Is the second text the first one with one character put in at character `i`?
pub open spec fn inserted_at(before: Seq<char>, after: Seq<char>, i: int) -> bool {
    &&& 0 <= i <= before.len()
    &&& after.len() == before.len() + 1
    &&& after == before.insert(i, after[i])
}

/// Where the caret stands after a character other than white space was typed at
/// it; nothing if that is not what happened.
pub open spec fn typed_end(before: Document, after: Document) -> Option<usize> {
    match before.selection {
        Selection::Cursor(start) => match after.selection {
            Selection::Cursor(end) => {
                let i = index_at(before.text, start as int);
                if byte_offset(before.text, i) == start && inserted_at(before.text, after.text, i)
                    && !whitespace(after.text[i]) && end == start + char_width(after.text[i]) {
                    Some(end)
                } else {
                    None
                }
            },
            _ => None,
        },
        _ => None,
    }
}

fn is_inserted_at(before: &Glyphs, after: &Glyphs, i: usize) -> (found: bool)
    requires
        i <= before@.len(),
    ensures
        found == inserted_at(before@, after@, i as int),
{
    let count: usize = after.len();
    if count == 0 || count - 1 != before.len() {
        return false;
    }
    let ghost c = after@[i as int];
    let ghost wanted = before@.insert(i as int, c);
    let mut k: usize = 0;
    while k < count
        invariant
            k <= count == after@.len(),
            after@.len() == before@.len() + 1,
            i <= before@.len(),
            c == after@[i as int],
            wanted == before@.insert(i as int, c),
            forall|j: int| 0 <= j < k ==> after@[j] == wanted[j],
        decreases count - k,
    {
        let same = if k < i {
            after.char_at(k) == before.char_at(k)
        } else if k == i {
            true
        } else {
            after.char_at(k) == before.char_at(k - 1)
        };
        if !same {
            assert(after@[k as int] != wanted[k as int]);
            return false;
        }
        k = k + 1;
    }
    assert(after@ =~= wanted);
    true
}

/// Where the caret stands after a character other than white space was typed at
/// it. Such edits are undone together.
pub fn coalescible_type_end(before: &EditorState, after: &EditorState) -> (end: Option<usize>)
    ensures
        end == typed_end(before@, after@),
{
    let start: usize = match before.selection {
        Selection::Cursor(offset) => offset,
        _ => {
            return None;
        },
    };
    let end: usize = match after.selection {
        Selection::Cursor(offset) => offset,
        _ => {
            return None;
        },
    };
    let old_text = Glyphs::of(before.markdown.as_str());
    let new_text = Glyphs::of(after.markdown.as_str());
    let i: usize = old_text.index_of(start);
    if old_text.offset_of(i) != start || !is_inserted_at(&old_text, &new_text, i) {
        return None;
    }
    let c = new_text.char_at(i);
    if c.is_whitespace() || end < start || end - start != utf8_len(c) {
        return None;
    }
    Some(end)
}

// ---------------------------------------------------------------------------
// The stacks
// ---------------------------------------------------------------------------

/// The states before and after the present one, and where typing that goes on
/// would continue.
#[derive(Debug)]
pub struct History {
    undo_stack: Vec<EditorState>,
    redo_stack: Vec<EditorState>,
    coalesce_anchor: Option<usize>,
}

/// The mathematical form of a [`History`]; the last states come first.
#[verifier::ext_equal]
pub struct Timeline {
    pub past: Seq<Document>,
    pub future: Seq<Document>,
    pub anchor: Option<usize>,
}

pub open spec fn documents(states: Seq<EditorState>) -> Seq<Document> {
    Seq::new(states.len(), |i: int| states[i]@)
}

impl View for History {
    type V = Timeline;

    closed spec fn view(&self) -> Timeline {
        Timeline {
            past: documents(self.undo_stack@),
            future: documents(self.redo_stack@),
            anchor: self.coalesce_anchor,
        }
    }
}

/// The states with one more; the oldest goes where there would be too many.
pub open spec fn remembered(past: Seq<Document>, before: Document) -> Seq<Document> {
    if past.len() >= MAX_HISTORY {
        past.push(before).drop_first()
    } else {
        past.push(before)
    }
}

/// Does the edit go on with the typing before it?
pub open spec fn continues(timeline: Timeline, before: Document, after: Document) -> bool {
    typed_end(before, after) is Some && match timeline.anchor {
        Some(offset) => before.selection == Selection::Cursor(offset),
        None => false,
    }
}

/// The history after an edit.
pub open spec fn recorded(timeline: Timeline, before: Document, after: Document) -> Timeline {
    Timeline {
        past: if continues(timeline, before, after) {
            timeline.past
        } else {
            remembered(timeline.past, before)
        },
        future: Seq::empty(),
        anchor: typed_end(before, after),
    }
}

/// The history once typing can no longer go on where it stopped.
pub open spec fn run_ended(timeline: Timeline) -> Timeline {
    Timeline { anchor: None, ..timeline }
}

/// The history and the document after going one step back.
pub open spec fn undone(timeline: Timeline, document: Document) -> (Timeline, Document) {
    if timeline.past.len() == 0 {
        (timeline, document)
    } else {
        (
            Timeline {
                past: timeline.past.drop_last(),
                future: timeline.future.push(document),
                anchor: None,
            },
            timeline.past.last(),
        )
    }
}

/// The history and the document after going one step forward again.
pub open spec fn redone(timeline: Timeline, document: Document) -> (Timeline, Document) {
    if timeline.future.len() == 0 {
        (timeline, document)
    } else {
        (
            Timeline {
                past: timeline.past.push(document),
                future: timeline.future.drop_last(),
                anchor: None,
            },
            timeline.future.last(),
        )
    }
}

impl History {
    /// At most so many states are kept, on both sides together.
    #[verifier::type_invariant]
    spec fn bounded(self) -> bool {
        self.undo_stack@.len() + self.redo_stack@.len() <= MAX_HISTORY
    }

    pub fn new() -> (history: Self)
        ensures
            history@ == (Timeline { past: Seq::empty(), future: Seq::empty(), anchor: None }),
    {
        let history = History {
            undo_stack: Vec::new(),
            redo_stack: Vec::new(),
            coalesce_anchor: None,
        };
        assert(history@.past =~= Seq::empty());
        assert(history@.future =~= Seq::empty());
        history
    }

    /// Forgets everything, as when the whole document is replaced.
    pub fn clear(&mut self)
        ensures
            final(self)@ == (Timeline { past: Seq::empty(), future: Seq::empty(), anchor: None }),
    {
        *self = History::new();
    }

    /// Takes note of an edit. Typing that goes on where it stopped adds nothing
    /// to go back to; any other edit adds the state before it.
    pub fn record(&mut self, before: EditorState, after: &EditorState)
        ensures
            final(self)@ == recorded(old(self)@, before@, after@),
    {
        proof {
            use_type_invariant(&*self);
        }
        let ghost timeline = self@;
        let end = coalescible_type_end(&before, after);
        let continued = end.is_some() && match self.coalesce_anchor {
            Some(offset) => before.selection == Selection::Cursor(offset),
            None => false,
        };
        let mut undo_stack: Vec<EditorState> = Vec::new();
        let mut redo_stack: Vec<EditorState> = Vec::new();
        core::mem::swap(&mut undo_stack, &mut self.undo_stack);
        let ghost past = documents(undo_stack@);
        let ghost added = before@;
        if !continued {
            undo_stack.push(before);
            assert(documents(undo_stack@) =~= past.push(added));
            if undo_stack.len() > MAX_HISTORY {
                undo_stack.remove(0);
                assert(documents(undo_stack@) =~= past.push(added).drop_first());
            }
        }
        *self = History { undo_stack, redo_stack, coalesce_anchor: end };
        assert(self@.future =~= Seq::empty());
    }

    /// Ends the typing that goes on: what is typed next is undone on its own.
    pub fn end_run(&mut self)
        ensures
            final(self)@ == run_ended(old(self)@),
    {
        proof {
            use_type_invariant(&*self);
        }
        self.coalesce_anchor = None;
    }

    /// Goes one step back; tells whether there was one.
    pub fn undo(&mut self, state: &mut EditorState) -> (done: bool)
        ensures
            done == (old(self)@.past.len() > 0),
            (final(self)@, final(state)@) == undone(old(self)@, old(state)@),
    {
        proof {
            use_type_invariant(&*self);
        }
        let ghost timeline = self@;
        let ghost document = state@;
        let mut undo_stack: Vec<EditorState> = Vec::new();
        let mut redo_stack: Vec<EditorState> = Vec::new();
        core::mem::swap(&mut undo_stack, &mut self.undo_stack);
        core::mem::swap(&mut redo_stack, &mut self.redo_stack);
        let anchor = self.coalesce_anchor;
        match undo_stack.pop() {
            Some(previous) => {
                let mut current = previous;
                core::mem::swap(&mut current, state);
                redo_stack.push(current);
                assert(documents(undo_stack@) =~= timeline.past.drop_last());
                assert(documents(redo_stack@) =~= timeline.future.push(document));
                *self = History { undo_stack, redo_stack, coalesce_anchor: None };
                true
            },
            None => {
                *self = History { undo_stack, redo_stack, coalesce_anchor: anchor };
                assert(self@ =~= timeline);
                false
            },
        }
    }

    /// Goes one step forward again; tells whether there was one.
    pub fn redo(&mut self, state: &mut EditorState) -> (done: bool)
        ensures
            done == (old(self)@.future.len() > 0),
            (final(self)@, final(state)@) == redone(old(self)@, old(state)@),
    {
        proof {
            use_type_invariant(&*self);
        }
        let ghost timeline = self@;
        let ghost document = state@;
        let mut undo_stack: Vec<EditorState> = Vec::new();
        let mut redo_stack: Vec<EditorState> = Vec::new();
        core::mem::swap(&mut undo_stack, &mut self.undo_stack);
        core::mem::swap(&mut redo_stack, &mut self.redo_stack);
        let anchor = self.coalesce_anchor;
        match redo_stack.pop() {
            Some(next) => {
                let mut current = next;
                core::mem::swap(&mut current, state);
                undo_stack.push(current);
                assert(documents(redo_stack@) =~= timeline.future.drop_last());
                assert(documents(undo_stack@) =~= timeline.past.push(document));
                *self = History { undo_stack, redo_stack, coalesce_anchor: None };
                true
            },
            None => {
                *self = History { undo_stack, redo_stack, coalesce_anchor: anchor };
                assert(self@ =~= timeline);
                false
            },
        }
    }
}

// ---------------------------------------------------------------------------
// Laws
// ---------------------------------------------------------------------------

/// Going back after an edit that does not go on with typing gives the document
/// before the edit.
pub proof fn undoing_an_edit_restores_the_document(
    timeline: Timeline,
    before: Document,
    after: Document,
)
    requires
        !continues(timeline, before, after),
    ensures
        undone(recorded(timeline, before, after), after).1 == before,
{
}

/// Going back after typing that went on gives the document that was there when
/// the typing began.
pub proof fn undoing_typing_restores_its_start(timeline: Timeline, before: Document, after: Document)
    requires
        continues(timeline, before, after),
        timeline.past.len() > 0,
    ensures
        undone(recorded(timeline, before, after), after).1 == timeline.past.last(),
{
}

/// Going back and then forward leaves the document and both sides of the
/// history as they were; so does going forward and then back.
pub proof fn undo_and_redo_are_inverse(timeline: Timeline, document: Document)
    ensures
        timeline.past.len() > 0 ==> ({
            let (back, earlier) = undone(timeline, document);
            let (forth, again) = redone(back, earlier);
            again == document && forth.past == timeline.past && forth.future == timeline.future
        }),
        timeline.future.len() > 0 ==> ({
            let (forth, later) = redone(timeline, document);
            let (back, again) = undone(forth, later);
            again == document && back.past == timeline.past && back.future == timeline.future
        }),
{
    if timeline.past.len() > 0 {
        let (back, earlier) = undone(timeline, document);
        let (forth, again) = redone(back, earlier);
        assert(forth.past =~= timeline.past);
        assert(forth.future =~= timeline.future);
    }
    if timeline.future.len() > 0 {
        let (forth, later) = redone(timeline, document);
        let (back, again) = undone(forth, later);
        assert(back.past =~= timeline.past);
        assert(back.future =~= timeline.future);
    }
}

/// A new edit leaves nothing to go forward to, and never more than so many
/// states to go back to.
pub proof fn edits_cut_off_the_future(timeline: Timeline, before: Document, after: Document)
    requires
        timeline.past.len() <= MAX_HISTORY,
    ensures
        recorded(timeline, before, after).future.len() == 0,
        recorded(timeline, before, after).past.len() <= MAX_HISTORY,
{
}

/// The document while `typed` is being typed between `left` and `right`, once
/// its first `k` characters are in: the caret stands right behind them.
pub open spec fn amid_typing(
    left: Seq<char>,
    typed: Seq<char>,
    right: Seq<char>,
    embeds: Map<u64, String>,
    k: int,
) -> Document {
    Document {
        text: left + typed.take(k) + right,
        selection: Selection::Cursor(bytes_of(left + typed.take(k)).len() as usize),
        embeds,
    }
}

/// The history after the first `k` characters were typed, one edit each.
pub open spec fn typed_through(
    timeline: Timeline,
    left: Seq<char>,
    typed: Seq<char>,
    right: Seq<char>,
    embeds: Map<u64, String>,
    k: int,
) -> Timeline
    decreases k,
{
    if k <= 0 {
        timeline
    } else {
        recorded(
            typed_through(timeline, left, typed, right, embeds, k - 1),
            amid_typing(left, typed, right, embeds, k - 1),
            amid_typing(left, typed, right, embeds, k),
        )
    }
}

pub proof fn lemma_typed_end(
    left: Seq<char>,
    typed: Seq<char>,
    right: Seq<char>,
    embeds: Map<u64, String>,
    k: int,
)
    requires
        0 < k <= typed.len(),
        bytes_of(left + typed + right).len() <= usize::MAX,
    ensures
        bytes_of(left + typed.take(k)).len() <= usize::MAX,
        bytes_of(left + typed.take(k - 1)).len() < bytes_of(left + typed.take(k)).len(),
        typed_end(
            amid_typing(left, typed, right, embeds, k - 1),
            amid_typing(left, typed, right, embeds, k),
        ) == if whitespace(typed[k - 1]) {
            None
        } else {
            Some(bytes_of(left + typed.take(k)).len() as usize)
        },
{
    let before = amid_typing(left, typed, right, embeds, k - 1);
    let after = amid_typing(left, typed, right, embeds, k);
    let c = typed[k - 1];
    let head = left + typed.take(k - 1);
    assert(left + typed.take(k) =~= head.push(c));
    lemma_bytes_push(head, c);
    assert(left + typed + right =~= head.push(c) + (typed.skip(k) + right));
    lemma_bytes_concat(head.push(c), typed.skip(k) + right);
    assert(vstd::utf8::encode_scalar(c as u32).len() >= 1);
    let i = head.len() as int;
    assert(before.text =~= head + right);
    assert(before.text.take(i) =~= head);
    lemma_index_of_offset(before.text, i);
    assert(after.text =~= before.text.insert(i, c));
    assert(after.text[i] == c);
}

proof fn lemma_run(
    timeline: Timeline,
    left: Seq<char>,
    typed: Seq<char>,
    right: Seq<char>,
    embeds: Map<u64, String>,
    k: int,
)
    requires
        0 < k <= typed.len(),
        bytes_of(left + typed + right).len() <= usize::MAX,
        forall|i: int| 0 <= i < typed.len() ==> !whitespace(#[trigger] typed[i]),
        timeline.anchor != Some(bytes_of(left).len() as usize),
    ensures
        ({
            let before = amid_typing(left, typed, right, embeds, 0);
            let now = typed_through(timeline, left, typed, right, embeds, k);
            &&& now.past == remembered(timeline.past, before)
            &&& now.anchor == Some(bytes_of(left + typed.take(k)).len() as usize)
        }),
    decreases k,
{
    lemma_typed_end(left, typed, right, embeds, k);
    assert(left + typed.take(0) =~= left);
    if k > 1 {
        lemma_run(timeline, left, typed, right, embeds, k - 1);
        lemma_typed_end(left, typed, right, embeds, k - 1);
    }
}

/// A run of typing is undone as one step. Whatever the text and the place in it,
/// when characters other than white space are typed one after the other at the
/// caret, and the first of them does not go on with typing before, one step back
/// gives the document before the first of them; the steps before it stay.
pub proof fn typed_runs_are_undone_together(
    timeline: Timeline,
    left: Seq<char>,
    typed: Seq<char>,
    right: Seq<char>,
    embeds: Map<u64, String>,
)
    requires
        typed.len() > 0,
        bytes_of(left + typed + right).len() <= usize::MAX,
        forall|i: int| 0 <= i < typed.len() ==> !whitespace(#[trigger] typed[i]),
        timeline.anchor != Some(bytes_of(left).len() as usize),
    ensures
        ({
            let after = typed_through(timeline, left, typed, right, embeds, typed.len() as int);
            let document = Document {
                text: left + typed + right,
                selection: Selection::Cursor(bytes_of(left + typed).len() as usize),
                embeds,
            };
            let (rest, back) = undone(after, document);
            &&& back.text == left + right
            &&& back.selection == Selection::Cursor(bytes_of(left).len() as usize)
            &&& back.embeds == embeds
            &&& rest.future == seq![document]
            &&& timeline.past.len() < 256 ==> rest.past == timeline.past
        }),
{
    let n = typed.len() as int;
    lemma_run(timeline, left, typed, right, embeds, n);
    assert(typed.take(n) =~= typed);
    assert(typed.take(0) =~= Seq::empty());
    assert(left + typed.take(0) =~= left);
    assert(left + typed.take(0) + right =~= left + right);
    let after = typed_through(timeline, left, typed, right, embeds, n);
    let before = amid_typing(left, typed, right, embeds, 0);
    let document = amid_typing(left, typed, right, embeds, n);
    assert(after.past.last() == before);
    assert(after.future == Seq::<Document>::empty());
    assert(undone(after, document).0.future =~= seq![document]);
    if timeline.past.len() < 256 {
        assert(undone(after, document).0.past =~= timeline.past);
    }
}

/// Nothing but typing is undone together with what was before it. An edit that
/// one step back does not undo alone put one character other than white space in
/// at the caret, where the typing before it had left the caret, and left it right
/// behind that character.
pub proof fn other_edits_are_undone_alone(timeline: Timeline, before: Document, after: Document)
    requires
        bytes_of(before.text).len() <= usize::MAX,
    ensures
        ({
            let (rest, back) = undone(recorded(timeline, before, after), after);
            back == before || exists|left: Seq<char>, c: char, right: Seq<char>|
                {
                    &&& before.text == left + right
                    &&& after.text == #[trigger] (left + seq![c] + right)
                    &&& !whitespace(c)
                    &&& before.selection == Selection::Cursor(bytes_of(left).len() as usize)
                    &&& after.selection == Selection::Cursor(
                        bytes_of(left + seq![c]).len() as usize,
                    )
                    &&& timeline.anchor == Some(bytes_of(left).len() as usize)
                }
        }),
{
    if continues(timeline, before, after) {
        let start = before.selection->Cursor_0;
        let i = index_at(before.text, start as int);
        lemma_index_at(before.text, start as int);
        let left = before.text.take(i);
        let c = after.text[i];
        let right = before.text.skip(i);
        assert(before.text =~= left + right);
        assert(after.text =~= left + seq![c] + right);
        assert(left + seq![c] =~= left.push(c));
        lemma_bytes_push(left, c);
    }
}

} // verus!
