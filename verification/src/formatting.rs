//! Bold and italic: toggling an inline style over a selection.
//!
//! A toggle edits inline content, never the syntax of blocks. The document is
//! divided into islands of inline content, and each island that the selection
//! reaches is handled by itself. Within an island the delimiters of the style
//! are taken out where they touch the selection and put back around what is to
//! carry the style, closing before the syntax of another inline construct and
//! opening again after it. A result that does not read back as intended is
//! refused.

pub mod atoms;
pub mod contexts;
pub mod coverage;
pub mod fingerprint;
pub mod islands;
pub mod outcome;
pub mod plan;
pub mod protected;
pub mod quoted;
pub mod ranges;
pub mod reach;
pub mod rewrite;
pub mod selected;
pub mod styles;
pub mod targets;
pub mod toggle;

pub use crate::formatting::atoms::InlineFormat;
pub use crate::formatting::styles::style_at;
pub use crate::formatting::toggle::{accepts, plan_toggle, toggle, TogglePlan};
