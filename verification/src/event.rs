//! What a user can do to a document.

use vstd::prelude::*;

use crate::state::Selection;

verus! {

/// One user action.
#[derive(Debug, Clone, PartialEq, Eq)]
pub enum EditorEvent {
    InsertText(String),
    /// Inserts clipboard content. `internal` content was copied out of an
    /// editor and is canonical markdown already; other content is brought into
    /// canonical form. Inside of a verbatim region the text goes in as it is,
    /// with the prefix of the enclosing containers on each new line.
    Paste { text: String, internal: bool },
    /// Inserts clipboard content as plain text: each line becomes a paragraph
    /// of its own, and markers in the text are not escaped.
    PastePlain { text: String },
    InsertNewline,
    InsertLineBreak,
    DeleteBackward,
    DeleteForward,
    SetSelection(Selection),
    /// Nests the list item at the caret under its previous sibling. Nothing
    /// happens outside of lists and on a first item.
    IncreaseListDepth,
    /// Takes the list item at the caret one level out; a top-level item becomes
    /// a paragraph. Nothing happens outside of lists.
    DecreaseListDepth,
    MoveLeft,
    MoveRight,
    MoveUp,
    MoveDown,
    MoveLineStart,
    MoveLineEnd,
    MoveDocumentStart,
    MoveDocumentEnd,
    /// Moves to the start of the previous word.
    MoveWordLeft,
    /// Moves to the end of the next word.
    MoveWordRight,
    ExtendLeft,
    ExtendRight,
    ExtendUp,
    ExtendDown,
    ExtendLineStart,
    ExtendLineEnd,
    ExtendDocumentStart,
    ExtendDocumentEnd,
    /// Extends the selection to the start of the previous word.
    ExtendWordLeft,
    /// Extends the selection to the end of the next word.
    ExtendWordRight,
    /// Deletes back to the start of the previous word, or the selection. The
    /// prefix of the enclosing containers on the line survives.
    DeleteWordBackward,
    /// Deletes up to the end of the next word, or the selection. The prefix of
    /// the enclosing containers on the next line survives.
    DeleteWordForward,
    /// Deletes back to the visible start of the line, past the prefix of the
    /// enclosing containers.
    DeleteToLineStart,
    /// Deletes up to the end of the line.
    DeleteToLineEnd,
}

} // verus!
