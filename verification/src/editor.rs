//! What an editor decides: where a click or a drag puts the selection, what
//! can be undone, what goes in and out of the clipboard, and which line of the
//! layout a position belongs to.

pub mod clicks;
pub mod clipboard;
pub mod commands;
pub mod composing;
pub mod geometry;
pub mod history;
pub mod motion;
pub mod placing;
pub mod session;
pub mod snapping;
pub mod utf16;
