//! The document: its text, the selection in it and the mapped embeds.

use core::ops::Range;

use vstd::prelude::*;

use crate::embed::EmbedMap;

verus! {

/// A caret, or a selection from a fixed end to a moving one.
#[derive(Debug, Clone, Copy, PartialEq, Eq, Structural)]
pub enum Selection {
    Cursor(usize),
    Range { anchor: usize, head: usize },
}

impl Selection {
    pub open spec fn anchor_offset(self) -> usize {
        match self {
            Selection::Cursor(offset) => offset,
            Selection::Range { anchor, head } => anchor,
        }
    }

    pub open spec fn head_offset(self) -> usize {
        match self {
            Selection::Cursor(offset) => offset,
            Selection::Range { anchor, head } => head,
        }
    }

    /// The lesser of the two ends.
    pub open spec fn low(self) -> usize {
        if self.anchor_offset() <= self.head_offset() {
            self.anchor_offset()
        } else {
            self.head_offset()
        }
    }

    /// The greater of the two ends.
    pub open spec fn high(self) -> usize {
        if self.anchor_offset() <= self.head_offset() {
            self.head_offset()
        } else {
            self.anchor_offset()
        }
    }

    pub fn cursor(offset: usize) -> (selection: Self)
        ensures
            selection == Selection::Cursor(offset),
    {
        Selection::Cursor(offset)
    }

    pub fn range(anchor: usize, head: usize) -> (selection: Self)
        ensures
            selection == (Selection::Range { anchor, head }),
    {
        Selection::Range { anchor, head }
    }

    /// The end that stays where it is when the selection is extended.
    pub fn anchor(&self) -> (offset: usize)
        ensures
            offset == self.anchor_offset(),
    {
        match *self {
            Selection::Cursor(offset) => offset,
            Selection::Range { anchor, .. } => anchor,
        }
    }

    /// The end that moves when the selection is extended.
    pub fn head(&self) -> (offset: usize)
        ensures
            offset == self.head_offset(),
    {
        match *self {
            Selection::Cursor(offset) => offset,
            Selection::Range { head, .. } => head,
        }
    }

    pub fn lower_bound(&self) -> (offset: usize)
        ensures
            offset == self.low(),
    {
        let anchor = self.anchor();
        let head = self.head();
        if anchor <= head {
            anchor
        } else {
            head
        }
    }

    pub fn upper_bound(&self) -> (offset: usize)
        ensures
            offset == self.high(),
    {
        let anchor = self.anchor();
        let head = self.head();
        if anchor <= head {
            head
        } else {
            anchor
        }
    }

    /// The selected bytes.
    pub fn selection_range(&self) -> (range: Range<usize>)
        ensures
            range.start == self.low(),
            range.end == self.high(),
    {
        self.lower_bound()..self.upper_bound()
    }

    pub fn is_collapsed(&self) -> (collapsed: bool)
        ensures
            collapsed == (self.low() == self.high()),
    {
        self.anchor() == self.head()
    }
}

impl Default for Selection {
    fn default() -> (selection: Self)
        ensures
            selection == Selection::Cursor(0),
    {
        Selection::Cursor(0)
    }
}

/// What an editor edits.
#[derive(Debug, PartialEq, Eq)]
pub struct EditorState {
    pub markdown: String,
    pub selection: Selection,
    pub embeds: EmbedMap,
}

/// The mathematical form of an [`EditorState`].
#[verifier::ext_equal]
pub struct Document {
    pub text: Seq<char>,
    pub selection: Selection,
    pub embeds: Map<u64, String>,
}

impl View for EditorState {
    type V = Document;

    open spec fn view(&self) -> Document {
        Document { text: self.markdown@, selection: self.selection, embeds: self.embeds@ }
    }
}

impl Clone for EditorState {
    fn clone(&self) -> (copy: Self)
        ensures
            copy@ == self@,
    {
        EditorState {
            markdown: self.markdown.clone(),
            selection: self.selection,
            embeds: self.embeds.clone(),
        }
    }
}

impl Default for EditorState {
    fn default() -> (state: Self)
        ensures
            state@ == (Document {
                text: Seq::empty(),
                selection: Selection::Cursor(0),
                embeds: Map::empty(),
            }),
    {
        EditorState {
            markdown: String::new(),
            selection: Selection::Cursor(0),
            embeds: EmbedMap::default(),
        }
    }
}

impl EditorState {
    /// An empty document.
    pub fn new() -> (state: Self)
        ensures
            state@ == (Document {
                text: Seq::empty(),
                selection: Selection::Cursor(0),
                embeds: Map::empty(),
            }),
    {
        EditorState::default()
    }

    /// A document with the caret at its start.
    pub fn with_markdown(markdown: String) -> (state: Self)
        ensures
            state@ == (Document {
                text: markdown@,
                selection: Selection::Cursor(0),
                embeds: Map::empty(),
            }),
    {
        EditorState { markdown, selection: Selection::Cursor(0), embeds: EmbedMap::default() }
    }
}

} // verus!
