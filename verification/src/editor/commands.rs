//! Commands that a host can run, and what the enter key means.

use vstd::prelude::*;

use crate::event::EditorEvent;
use crate::state::Selection;

verus! {

/// A clipboard or selection command.
#[derive(Debug, Clone, Copy, PartialEq, Eq, Structural)]
pub enum EditorCommand {
    Cut,
    Copy,
    Paste,
    SelectAll,
}

/// Does an editor act on the command at all? A read-only one neither cuts nor
/// pastes.
pub open spec fn acts_on(command: EditorCommand, disabled: bool) -> bool {
    !disabled || command == EditorCommand::Copy || command == EditorCommand::SelectAll
}

/// Would the command do something? `clipboard` tells whether there is text to
/// paste.
pub open spec fn does_something(
    command: EditorCommand,
    disabled: bool,
    selection: Selection,
    clipboard: bool,
) -> bool {
    match command {
        EditorCommand::Cut => !disabled && selection.low() != selection.high(),
        EditorCommand::Copy => selection.low() != selection.high(),
        EditorCommand::Paste => !disabled && clipboard,
        EditorCommand::SelectAll => true,
    }
}

/// Does an editor act on the command at all?
pub fn perform(command: EditorCommand, disabled: bool) -> (acts: bool)
    ensures
        acts == acts_on(command, disabled),
{
    match command {
        EditorCommand::Cut => !disabled,
        EditorCommand::Paste => !disabled,
        EditorCommand::Copy => true,
        EditorCommand::SelectAll => true,
    }
}

/// Would the command do something? `clipboard` is the text to paste.
pub fn can_perform(
    command: EditorCommand,
    disabled: bool,
    selection: Selection,
    clipboard: Option<&str>,
) -> (can: bool)
    ensures
        can == does_something(
            command,
            disabled,
            selection,
            match clipboard {
                Some(text) => text@.len() > 0,
                None => false,
            },
        ),
{
    match command {
        EditorCommand::Cut => !disabled && !selection.is_collapsed(),
        EditorCommand::Copy => !selection.is_collapsed(),
        EditorCommand::Paste => !disabled && match clipboard {
            Some(text) => !text.is_empty(),
            None => false,
        },
        EditorCommand::SelectAll => true,
    }
}

/// The enter key with the modifiers that were held.
#[derive(Debug, Clone, Copy, PartialEq, Eq, Structural)]
pub struct Enter {
    /// The platform's primary modifier.
    pub secondary: bool,
    pub shift: bool,
}

/// What the enter key means.
#[derive(Debug, PartialEq, Eq)]
pub enum EnterOutcome {
    /// The host is told; the text stays.
    Report { shift: bool },
    Edit(EditorEvent),
}

/// What the enter key means: with the primary modifier it is reported, with
/// shift it breaks the line, and alone it starts a new paragraph.
pub fn enter(key: Enter) -> (outcome: EnterOutcome)
    ensures
        outcome == if key.secondary {
            EnterOutcome::Report { shift: key.shift }
        } else if key.shift {
            EnterOutcome::Edit(EditorEvent::InsertLineBreak)
        } else {
            EnterOutcome::Edit(EditorEvent::InsertNewline)
        },
{
    if key.secondary {
        EnterOutcome::Report { shift: key.shift }
    } else if key.shift {
        EnterOutcome::Edit(EditorEvent::InsertLineBreak)
    } else {
        EnterOutcome::Edit(EditorEvent::InsertNewline)
    }
}

// ---------------------------------------------------------------------------
// Laws
// ---------------------------------------------------------------------------

/// A command that is offered is never declined.
pub proof fn offered_commands_are_performed(
    command: EditorCommand,
    disabled: bool,
    selection: Selection,
    clipboard: bool,
)
    ensures
        does_something(command, disabled, selection, clipboard) ==> acts_on(command, disabled),
{
}

} // verus!
