//! What is shown of a document: the lines of a block with what is hidden left
//! out, the styles of their characters, and how blocks are told apart and
//! stacked.

pub mod block;
pub mod drawn;
pub mod embeds;
pub mod latex;
pub mod layout;
pub mod lines;
pub mod markers;
pub mod overlays;
pub mod rows;
pub mod runs;
pub mod showing;
pub mod table;
pub mod text;
