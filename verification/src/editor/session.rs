//! An editor at work: the document, what can be undone, the drag of the pointer
//! and the text that is being composed.

use core::ops::Range;

use vstd::prelude::*;

use crate::editor::clicks::{
    begin_selection, dragged, extend_selection_to, mode_of, press_selection, pressed, unit_at, Drag,
    SelectMode,
};
use crate::editor::composing::{
    cursor_after, marked_after, named_range, replace_and_mark, replacement_target, spliced,
};
use crate::editor::history::{
    amid_typing, recorded, redone, run_ended, typed_runs_are_undone_together, typed_through, undone,
    History, Timeline,
};
use crate::editor::motion::WrapAffinity;
use crate::editor::snapping::{snap_selection, snapped};
use crate::embed::{mapped, EmbedMap};
use crate::event::EditorEvent;
use crate::state::{Document, EditorState, Selection};
use crate::text::bytes_of;
use crate::words::{has_text, whitespace, word_bounds, Glyphs};

verus! {

/// What an editor tells its host.
#[derive(Debug, Clone, Copy, PartialEq, Eq, Structural)]
pub enum MarkdownEditorEvent {
    Change,
    SelectionChanged,
    Focus,
    Blur,
    PressEnter { secondary: bool, shift: bool },
}

/// An editor at work.
#[derive(Debug)]
pub struct MarkdownEditorState {
    state: EditorState,
    history: History,
    disabled: bool,
    marked_range: Option<Range<usize>>,
    intended_x: Option<i64>,
    wrap_affinity: WrapAffinity,
    is_selecting: bool,
    drag: Drag,
    highlight_press: Option<usize>,
}

/// The mathematical form of a [`MarkdownEditorState`].
#[verifier::ext_equal]
pub struct Session {
    pub document: Document,
    pub timeline: Timeline,
    /// Does the editor refuse edits?
    pub disabled: bool,
    /// The text that is being composed.
    pub marked: Option<Range<usize>>,
    /// How far to the right moves up and down aim.
    pub intended_x: Option<i64>,
    pub affinity: WrapAffinity,
    pub selecting: bool,
    pub drag: Drag,
    /// Where a press on highlighted text began.
    pub press: Option<usize>,
}

impl View for MarkdownEditorState {
    type V = Session;

    closed spec fn view(&self) -> Session {
        Session {
            document: self.state@,
            timeline: self.history@,
            disabled: self.disabled,
            marked: self.marked_range,
            intended_x: self.intended_x,
            affinity: self.wrap_affinity,
            selecting: self.is_selecting,
            drag: self.drag,
            press: self.highlight_press,
        }
    }
}

pub open spec fn no_history() -> Timeline {
    Timeline { past: Seq::empty(), future: Seq::empty(), anchor: None }
}

/// An editor over a document.
pub open spec fn opened(document: Document) -> Session {
    Session {
        document,
        timeline: no_history(),
        disabled: false,
        marked: None,
        intended_x: None,
        affinity: WrapAffinity::Downstream,
        selecting: false,
        drag: Drag { mode: SelectMode::Char, anchor: Range { start: 0, end: 0 } },
        press: None,
    }
}

/// The document with its text replaced; the embeds stay.
pub open spec fn reseeded(document: Document, text: Seq<char>) -> Document {
    Document { text, selection: Selection::Cursor(0), embeds: document.embeds }
}

/// The editor after its host replaced the text: nothing of before can be undone.
pub open spec fn replaced(session: Session, text: Seq<char>) -> Session {
    Session {
        document: reseeded(session.document, text),
        timeline: no_history(),
        marked: None,
        intended_x: None,
        affinity: WrapAffinity::Downstream,
        ..session
    }
}

/// The history after the selection went from one place to another.
pub open spec fn after_move(timeline: Timeline, before: Selection, after: Selection) -> Timeline {
    if after != before {
        run_ended(timeline)
    } else {
        timeline
    }
}

/// The editor after an event turned its document into `after`: an edit can be
/// undone, and a move of the selection ends the typing before it.
pub open spec fn settled(session: Session, after: Document) -> Session {
    Session {
        document: after,
        timeline: if after.text != session.document.text {
            recorded(session.timeline, session.document, after)
        } else {
            after_move(session.timeline, session.document.selection, after.selection)
        },
        marked: None,
        intended_x: None,
        affinity: WrapAffinity::Downstream,
        ..session
    }
}

/// What the host is told of it.
pub open spec fn settled_event(before: Document, after: Document) -> Option<MarkdownEditorEvent> {
    if after.text != before.text {
        Some(MarkdownEditorEvent::Change)
    } else {
        moved_event(before, after)
    }
}

pub open spec fn moved_event(before: Document, after: Document) -> Option<MarkdownEditorEvent> {
    if after.selection != before.selection {
        Some(MarkdownEditorEvent::SelectionChanged)
    } else {
        None
    }
}

/// The editor after the caret moved over rows.
pub open spec fn moved(
    session: Session,
    after: Document,
    intended_x: Option<i64>,
    affinity: WrapAffinity,
) -> Session {
    Session {
        document: after,
        timeline: after_move(session.timeline, session.document.selection, after.selection),
        marked: None,
        intended_x,
        affinity,
        ..session
    }
}

/// The editor one step back.
pub open spec fn stepped_back(session: Session) -> Session {
    if session.timeline.past.len() == 0 {
        session
    } else {
        let (timeline, document) = undone(session.timeline, session.document);
        Session { document, timeline, marked: None, intended_x: None, ..session }
    }
}

/// The editor one step forward again.
pub open spec fn stepped_forward(session: Session) -> Session {
    if session.timeline.future.len() == 0 {
        session
    } else {
        let (timeline, document) = redone(session.timeline, session.document);
        Session { document, timeline, marked: None, intended_x: None, ..session }
    }
}

/// What an input method replaces: what it names, else what it is composing, else
/// the selection.
pub open spec fn composed_range(session: Session, units: Option<Range<usize>>) -> Range<usize> {
    match named_range(session.document.text, units, session.marked) {
        Some(range) => range,
        None => Range {
            start: session.document.selection.low(),
            end: session.document.selection.high(),
        },
    }
}

/// The editor after an input method put in text that is still being composed.
pub open spec fn composed(
    session: Session,
    units: Option<Range<usize>>,
    inserted: Seq<char>,
    wanted: Option<Range<usize>>,
) -> Session {
    let range = composed_range(session, units);
    let text = spliced(session.document.text, range, inserted);
    let after = Document {
        text,
        selection: Selection::Cursor(cursor_after(range.start, inserted, text, wanted)),
        embeds: session.document.embeds,
    };
    Session {
        document: after,
        timeline: if text != session.document.text {
            recorded(session.timeline, session.document, after)
        } else {
            session.timeline
        },
        marked: marked_after(range.start, inserted),
        affinity: WrapAffinity::Downstream,
        ..session
    }
}

impl MarkdownEditorState {
    /// An editor over an empty document.
    pub fn new() -> (editor: Self)
        ensures
            editor@ == opened(
                Document {
                    text: Seq::empty(),
                    selection: Selection::Cursor(0),
                    embeds: Map::empty(),
                },
            ),
    {
        MarkdownEditorState::with_state(EditorState::new())
    }

    /// An editor over a document.
    pub fn with_state(state: EditorState) -> (editor: Self)
        ensures
            editor@ == opened(state@),
    {
        MarkdownEditorState {
            state,
            history: History::new(),
            disabled: false,
            marked_range: None,
            intended_x: None,
            wrap_affinity: WrapAffinity::Downstream,
            is_selecting: false,
            drag: Drag { mode: SelectMode::Char, anchor: 0..0 },
            highlight_press: None,
        }
    }

    /// The editor over another text, without embeds.
    pub fn default_value(self, markdown: String) -> (editor: Self)
        ensures
            editor@ == (Session {
                document: Document {
                    text: markdown@,
                    selection: Selection::Cursor(0),
                    embeds: Map::empty(),
                },
                ..self@
            }),
    {
        let mut editor = self;
        editor.state = EditorState::with_markdown(markdown);
        editor
    }

    /// The text.
    pub fn value(&self) -> (text: &str)
        ensures
            text@ == self@.document.text,
    {
        self.state.markdown.as_str()
    }

    pub fn selection(&self) -> (selection: Selection)
        ensures
            selection == self@.document.selection,
    {
        self.state.selection
    }

    /// Is a drag of the pointer going on?
    pub fn is_selecting(&self) -> (found: bool)
        ensures
            found == self@.selecting,
    {
        self.is_selecting
    }

    /// Is there nothing but white space?
    pub fn is_empty(&self) -> (found: bool)
        ensures
            found == !has_text(
                self@.document.text,
                0,
                bytes_of(self@.document.text).len() as int,
            ),
    {
        let glyphs = Glyphs::of(self.state.markdown.as_str());
        !glyphs.has_text(0, glyphs.size())
    }

    pub fn embeds(&self) -> (embeds: &EmbedMap)
        ensures
            embeds@ == self@.document.embeds,
    {
        &self.state.embeds
    }

    /// The document.
    pub fn state(&self) -> (state: &EditorState)
        ensures
            state@ == self@.document,
    {
        &self.state
    }

    /// Where the caret stands.
    pub fn cursor_offset(&self) -> (offset: usize)
        ensures
            offset == self@.document.selection.head_offset(),
    {
        self.state.selection.head()
    }

    /// Is the caret drawn at the start of the lower row where a line is wrapped?
    pub fn caret_downstream(&self) -> (found: bool)
        ensures
            found == (self@.affinity == WrapAffinity::Downstream),
    {
        match self.wrap_affinity {
            WrapAffinity::Downstream => true,
            WrapAffinity::Upstream => false,
        }
    }

    /// How far to the right moves up and down aim.
    pub fn intended_x(&self) -> (x: Option<i64>)
        ensures
            x == self@.intended_x,
    {
        self.intended_x
    }

    /// Is text being composed?
    pub fn is_composing(&self) -> (found: bool)
        ensures
            found == (self@.marked is Some),
    {
        self.marked_range.is_some()
    }

    /// The text that is being composed.
    pub fn marked_range(&self) -> (range: Option<Range<usize>>)
        ensures
            range == self@.marked,
    {
        match &self.marked_range {
            Some(range) => Some(range.start..range.end),
            None => None,
        }
    }

    /// Makes the editor refuse edits, or accept them.
    pub fn set_disabled(&mut self, disabled: bool)
        ensures
            final(self)@ == (Session { disabled, ..old(self)@ }),
    {
        self.disabled = disabled;
    }

    /// Replaces the text. What was before cannot be undone.
    pub fn set_value(&mut self, markdown: String) -> (event: MarkdownEditorEvent)
        ensures
            final(self)@ == replaced(old(self)@, markdown@),
            event == MarkdownEditorEvent::Change,
    {
        self.state.markdown = markdown;
        self.state.selection = Selection::Cursor(0);
        self.marked_range = None;
        self.intended_x = None;
        self.wrap_affinity = WrapAffinity::Downstream;
        self.history = History::new();
        MarkdownEditorEvent::Change
    }

    /// Empties the text.
    pub fn clear(&mut self) -> (event: MarkdownEditorEvent)
        ensures
            final(self)@ == replaced(old(self)@, Seq::empty()),
            event == MarkdownEditorEvent::Change,
    {
        self.set_value(String::new())
    }

    /// Replaces the embeds. The selection leaves what an embed now hides.
    pub fn set_embeds(&mut self, entries: Vec<(u64, String)>)
        requires
            old(self)@.document.selection.high() <= bytes_of(old(self)@.document.text).len(),
        ensures
            ({
                let embeds = mapped(entries@);
                final(self)@ == (Session {
                    document: Document {
                        selection: snapped(
                            old(self)@.document.text,
                            embeds,
                            old(self)@.document.selection,
                        ),
                        embeds,
                        ..old(self)@.document
                    },
                    ..old(self)@
                })
            }),
    {
        self.state.embeds = EmbedMap::new(entries);
        self.state.selection = snap_selection(
            self.state.markdown.as_str(),
            &self.state.embeds,
            self.state.selection,
        );
    }

    /// Selects what the edit that follows is to replace. Nothing is snapped, and
    /// the host is not told.
    pub fn aim(&mut self, selection: Selection)
        ensures
            final(self)@ == (Session {
                document: Document { selection, ..old(self)@.document },
                ..old(self)@
            }),
    {
        self.state.selection = selection;
    }

    /// Takes in the document that an event led to, and tells what changed.
    pub fn settle(&mut self, after: EditorState) -> (event: Option<MarkdownEditorEvent>)
        ensures
            final(self)@ == settled(old(self)@, after@),
            event == settled_event(old(self)@.document, after@),
    {
        let mut before = after;
        core::mem::swap(&mut before, &mut self.state);
        self.marked_range = None;
        self.intended_x = None;
        self.wrap_affinity = WrapAffinity::Downstream;
        if self.state.markdown != before.markdown {
            self.history.record(before, &self.state);
            Some(MarkdownEditorEvent::Change)
        } else if self.state.selection != before.selection {
            self.history.end_run();
            Some(MarkdownEditorEvent::SelectionChanged)
        } else {
            None
        }
    }

    /// Takes in the document after the caret moved up or down. `landed` tells how
    /// far to the right the move aimed and which row it came to, where the layout
    /// was known.
    pub fn settle_vertical(&mut self, after: EditorState, landed: Option<(i64, WrapAffinity)>) -> (
        event: Option<MarkdownEditorEvent>)
        ensures
            match landed {
                Some((x, affinity)) => final(self)@ == moved(
                    old(self)@,
                    after@,
                    Some(x),
                    affinity,
                ) && event == moved_event(old(self)@.document, after@),
                None => final(self)@ == moved(
                    old(self)@,
                    after@,
                    None,
                    WrapAffinity::Downstream,
                ) && event is None,
            },
    {
        let changed = after.selection != self.state.selection;
        if changed {
            self.history.end_run();
        }
        self.state = after;
        self.marked_range = None;
        match landed {
            Some((x, affinity)) => {
                self.intended_x = Some(x);
                self.wrap_affinity = affinity;
                if changed {
                    Some(MarkdownEditorEvent::SelectionChanged)
                } else {
                    None
                }
            },
            None => {
                self.intended_x = None;
                self.wrap_affinity = WrapAffinity::Downstream;
                None
            },
        }
    }

    /// Takes in the document after the caret moved to an end of its row. `known`
    /// tells whether the layout was known.
    pub fn settle_line_bound(&mut self, after: EditorState, to_end: bool, known: bool) -> (event:
        Option<MarkdownEditorEvent>)
        ensures
            final(self)@ == moved(
                old(self)@,
                after@,
                None,
                if to_end {
                    WrapAffinity::Upstream
                } else {
                    WrapAffinity::Downstream
                },
            ),
            event == if known {
                moved_event(old(self)@.document, after@)
            } else {
                None
            },
    {
        let changed = after.selection != self.state.selection;
        if changed {
            self.history.end_run();
        }
        self.state = after;
        self.marked_range = None;
        self.intended_x = None;
        self.wrap_affinity = if to_end {
            WrapAffinity::Upstream
        } else {
            WrapAffinity::Downstream
        };
        if known && changed {
            Some(MarkdownEditorEvent::SelectionChanged)
        } else {
            None
        }
    }

    /// Goes one step back.
    pub fn undo(&mut self) -> (event: Option<MarkdownEditorEvent>)
        ensures
            final(self)@ == stepped_back(old(self)@),
            event == if old(self)@.timeline.past.len() > 0 {
                Some(MarkdownEditorEvent::Change)
            } else {
                None
            },
    {
        let ghost before = self@;
        if self.history.undo(&mut self.state) {
            self.marked_range = None;
            self.intended_x = None;
            Some(MarkdownEditorEvent::Change)
        } else {
            assert(self@ =~= before);
            None
        }
    }

    /// Goes one step forward again.
    pub fn redo(&mut self) -> (event: Option<MarkdownEditorEvent>)
        ensures
            final(self)@ == stepped_forward(old(self)@),
            event == if old(self)@.timeline.future.len() > 0 {
                Some(MarkdownEditorEvent::Change)
            } else {
                None
            },
    {
        let ghost before = self@;
        if self.history.redo(&mut self.state) {
            self.marked_range = None;
            self.intended_x = None;
            Some(MarkdownEditorEvent::Change)
        } else {
            assert(self@ =~= before);
            None
        }
    }

    /// The events that put text at the end of the document: none in an editor
    /// that refuses edits.
    pub fn append_at_end(&self, text: String) -> (events: Vec<EditorEvent>)
        ensures
            events@ == if self@.disabled {
                Seq::empty()
            } else {
                seq![
                    EditorEvent::SetSelection(
                        Selection::Cursor(bytes_of(self@.document.text).len() as usize),
                    ),
                    EditorEvent::InsertText(text),
                ]
            },
    {
        let mut events: Vec<EditorEvent> = Vec::new();
        if !self.disabled {
            let end: usize = self.state.markdown.as_str().as_bytes().len();
            events.push(EditorEvent::SetSelection(Selection::cursor(end)));
            events.push(EditorEvent::InsertText(text));
        }
        assert(events@ =~= if self@.disabled {
            Seq::empty()
        } else {
            seq![
                EditorEvent::SetSelection(
                    Selection::Cursor(bytes_of(self@.document.text).len() as usize),
                ),
                EditorEvent::InsertText(text),
            ]
        });
        events
    }

    /// The events that put in text of an input method: where it names a range, or
    /// is composing one, that range is replaced.
    pub fn replace_text_in_range(&self, units: &Option<Range<usize>>, text: String) -> (events: Vec<
        EditorEvent,
    >)
        ensures
            events@ == if self@.disabled {
                Seq::empty()
            } else {
                match named_range(self@.document.text, *units, self@.marked) {
                    Some(range) => seq![
                        EditorEvent::SetSelection(
                            Selection::Range { anchor: range.start, head: range.end },
                        ),
                        EditorEvent::InsertText(text),
                    ],
                    None => seq![EditorEvent::InsertText(text)],
                }
            },
    {
        let mut events: Vec<EditorEvent> = Vec::new();
        if self.disabled {
            return events;
        }
        let target = replacement_target(self.state.markdown.as_str(), units, &self.marked_range);
        if let Some(range) = target {
            events.push(EditorEvent::SetSelection(Selection::range(range.start, range.end)));
        }
        events.push(EditorEvent::InsertText(text));
        assert(events@ =~= match named_range(self@.document.text, *units, self@.marked) {
            Some(range) => seq![
                EditorEvent::SetSelection(
                    Selection::Range { anchor: range.start, head: range.end },
                ),
                EditorEvent::InsertText(text),
            ],
            None => seq![EditorEvent::InsertText(text)],
        });
        events
    }

    /// Puts in text of an input method that is still being composed.
    pub fn replace_and_mark_text_in_range(
        &mut self,
        units: &Option<Range<usize>>,
        text: &str,
        wanted: &Option<Range<usize>>,
    ) -> (event: Option<MarkdownEditorEvent>)
        ensures
            final(self)@ == if old(self)@.disabled {
                old(self)@
            } else {
                composed(old(self)@, *units, text@, *wanted)
            },
            event == if old(self)@.disabled {
                None
            } else {
                Some(MarkdownEditorEvent::Change)
            },
    {
        if self.disabled {
            return None;
        }
        let target = replacement_target(self.state.markdown.as_str(), units, &self.marked_range);
        let range = match target {
            Some(range) => range,
            None => self.state.selection.selection_range(),
        };
        let before = self.state.clone();
        let result = replace_and_mark(self.state.markdown.as_str(), &range, text, wanted);
        self.state.markdown = result.markdown;
        self.state.selection = Selection::cursor(result.cursor);
        self.marked_range = result.marked;
        self.wrap_affinity = WrapAffinity::Downstream;
        if self.state.markdown != before.markdown {
            self.history.record(before, &self.state);
        }
        Some(MarkdownEditorEvent::Change)
    }

    /// Ends the composing; the text stays.
    pub fn unmark_text(&mut self)
        ensures
            final(self)@ == (Session { marked: None, ..old(self)@ }),
    {
        self.marked_range = None;
    }

    /// Begins a drag with a press, and gives the event of its selection.
    pub fn begin_selection(&mut self, offset: usize, click_count: usize, shift: bool) -> (event:
        EditorEvent)
        ensures
            ({
                let before = old(self)@;
                let text = before.document.text;
                let unit = unit_at(text, word_bounds(text), mode_of(click_count), offset);
                let drag = pressed(
                    before.drag,
                    before.document.selection,
                    click_count,
                    shift,
                    unit,
                );
                &&& final(self)@ == (Session { selecting: true, drag, ..before })
                &&& event == EditorEvent::SetSelection(press_selection(drag, offset, shift, unit))
            }),
    {
        self.is_selecting = true;
        let (drag, selection) = begin_selection(
            self.state.markdown.as_str(),
            &self.drag,
            self.state.selection,
            offset,
            click_count,
            shift,
        );
        self.drag = drag;
        EditorEvent::SetSelection(selection)
    }

    /// The event of a drag that has come to `offset`; none where there is no
    /// drag.
    pub fn drag_extend_to(&self, offset: usize) -> (event: Option<EditorEvent>)
        ensures
            event == if self@.selecting {
                let text = self@.document.text;
                Some(
                    EditorEvent::SetSelection(
                        dragged(
                            self@.drag,
                            offset,
                            unit_at(text, word_bounds(text), self@.drag.mode, offset),
                        ),
                    ),
                )
            } else {
                None
            },
    {
        if !self.is_selecting {
            return None;
        }
        Some(
            EditorEvent::SetSelection(
                extend_selection_to(self.state.markdown.as_str(), &self.drag, offset),
            ),
        )
    }

    /// Notes where a press on highlighted text began: one single press without
    /// the shift key. Any other press clears the note.
    pub fn press_highlight(&mut self, offset: usize, click_count: usize, shift: bool, on: bool)
        ensures
            final(self)@ == (Session {
                press: if click_count == 1 && !shift && on {
                    Some(offset)
                } else {
                    None
                },
                ..old(self)@
            }),
    {
        self.highlight_press = if click_count == 1 && !shift && on {
            Some(offset)
        } else {
            None
        };
    }

    /// Ends a drag whose release was not seen.
    pub fn end_drag(&mut self)
        ensures
            final(self)@ == (Session { selecting: false, ..old(self)@ }),
    {
        self.is_selecting = false;
    }

    /// Ends a drag. Gives the place of a click on highlighted text: that of a
    /// press there, unless a drag selected something.
    pub fn release(&mut self) -> (clicked: Option<usize>)
        ensures
            final(self)@ == (Session { selecting: false, press: None, ..old(self)@ }),
            clicked == if old(self)@.document.selection.low()
                == old(self)@.document.selection.high() {
                old(self)@.press
            } else {
                None
            },
    {
        self.is_selecting = false;
        let press = self.highlight_press;
        self.highlight_press = None;
        if self.state.selection.is_collapsed() {
            press
        } else {
            None
        }
    }
}

// ---------------------------------------------------------------------------
// Laws
// ---------------------------------------------------------------------------

/// What the host replaces cannot be brought back: right after it there is nothing
/// to undo and nothing to do again.
pub proof fn replacing_ends_the_history(session: Session, text: Seq<char>)
    ensures
        stepped_back(replaced(session, text)) == replaced(session, text),
        stepped_forward(replaced(session, text)) == replaced(session, text),
{
}

/// Undoing an edit gives back the document before it, text and selection, unless
/// the edit went on with typing.
pub proof fn edits_can_be_undone(session: Session, after: Document)
    requires
        after.text != session.document.text,
        !crate::editor::history::continues(session.timeline, session.document, after),
    ensures
        stepped_back(settled(session, after)).document == session.document,
{
}

/// What is undone can be done again.
pub proof fn undone_edits_can_be_redone(session: Session)
    requires
        session.timeline.past.len() > 0,
    ensures
        stepped_forward(stepped_back(session)).document == session.document,
{
}

/// An event that leaves the text as it is adds nothing to undo, and takes nothing
/// away.
pub proof fn moves_are_not_undone(session: Session, after: Document)
    requires
        after.text == session.document.text,
    ensures
        settled(session, after).timeline.past == session.timeline.past,
        settled(session, after).timeline.future == session.timeline.future,
        settled_event(session.document, after) != Some(MarkdownEditorEvent::Change),
{
}

/// A move of the selection ends the typing before it: the edit that follows is
/// undone on its own, wherever the selection went in between.
pub proof fn moves_end_the_typing(session: Session, after: Document, next: Document)
    requires
        after.text == session.document.text,
        after.selection != session.document.selection,
        next.text != after.text,
    ensures
        stepped_back(settled(settled(session, after), next)).document == after,
{
}

/// The host is told of every change of the text and of the selection, and of
/// nothing else.
pub proof fn changes_are_told(before: Document, after: Document)
    ensures
        settled_event(before, after) is None <==> after.text == before.text && after.selection
            == before.selection,
        settled_event(before, after) == Some(MarkdownEditorEvent::Change) <==> after.text
            != before.text,
{
}

/// The editor after the first `k` characters of `typed` were typed between `left`
/// and `right`, one event each.
pub open spec fn typed_into(
    session: Session,
    left: Seq<char>,
    typed: Seq<char>,
    right: Seq<char>,
    k: int,
) -> Session
    decreases k,
{
    if k <= 0 {
        session
    } else {
        settled(
            typed_into(session, left, typed, right, k - 1),
            amid_typing(left, typed, right, session.document.embeds, k),
        )
    }
}

proof fn lemma_typed_into(
    session: Session,
    left: Seq<char>,
    typed: Seq<char>,
    right: Seq<char>,
    k: int,
)
    requires
        0 <= k <= typed.len(),
        session.document == amid_typing(left, typed, right, session.document.embeds, 0),
    ensures
        ({
            let embeds = session.document.embeds;
            let now = typed_into(session, left, typed, right, k);
            &&& now.document == amid_typing(left, typed, right, embeds, k)
            &&& now.timeline == typed_through(session.timeline, left, typed, right, embeds, k)
        }),
    decreases k,
{
    if k > 0 {
        lemma_typed_into(session, left, typed, right, k - 1);
        let embeds = session.document.embeds;
        assert(amid_typing(left, typed, right, embeds, k).text.len() != amid_typing(
            left,
            typed,
            right,
            embeds,
            k - 1,
        ).text.len());
    }
}

/// Undo takes back a word as a whole. In an editor whose caret stands between
/// `left` and `right`, wherever that is and unless typing already goes on there,
/// characters other than white space are typed one after the other: one step back
/// gives the document before the first of them, and one step forward the document
/// after the last.
pub proof fn words_are_undone_as_a_whole(
    session: Session,
    left: Seq<char>,
    typed: Seq<char>,
    right: Seq<char>,
)
    requires
        typed.len() > 0,
        bytes_of(left + typed + right).len() <= usize::MAX,
        forall|i: int| 0 <= i < typed.len() ==> !whitespace(#[trigger] typed[i]),
        session.document.text == left + right,
        session.document.selection == Selection::Cursor(bytes_of(left).len() as usize),
        session.timeline.anchor != Some(bytes_of(left).len() as usize),
    ensures
        ({
            let after = typed_into(session, left, typed, right, typed.len() as int);
            &&& after.document.text == left + typed + right
            &&& after.document.selection == Selection::Cursor(
                bytes_of(left + typed).len() as usize,
            )
            &&& stepped_back(after).document == session.document
            &&& stepped_forward(stepped_back(after)).document == after.document
        }),
{
    let n = typed.len() as int;
    let embeds = session.document.embeds;
    assert(typed.take(0) =~= Seq::empty());
    assert(left + typed.take(0) =~= left);
    assert(typed.take(n) =~= typed);
    lemma_typed_into(session, left, typed, right, n);
    typed_runs_are_undone_together(session.timeline, left, typed, right, embeds);
    let after = typed_into(session, left, typed, right, n);
    let (rest, back) = undone(after.timeline, after.document);
    assert(rest.future.last() == after.document);
    if after.timeline.past.len() == 0 {
        assert(rest == after.timeline);
        assert(after.timeline.future.len() == 0);
    }
}

/// An edit right after a step back, after a step forward or after the host
/// replaced the text is undone alone, whatever was typed before.
pub proof fn steps_end_the_typing(session: Session, text: Seq<char>, after: Document)
    ensures
        ({
            let back = stepped_back(session);
            session.timeline.past.len() > 0 && after.text != back.document.text ==> stepped_back(
                settled(back, after),
            ).document == back.document
        }),
        ({
            let forth = stepped_forward(session);
            session.timeline.future.len() > 0 && after.text != forth.document.text ==> stepped_back(
                settled(forth, after),
            ).document == forth.document
        }),
        ({
            let anew = replaced(session, text);
            after.text != text ==> stepped_back(settled(anew, after)).document == anew.document
        }),
{
}

} // verus!
