//! Blocks as they are shown.

use core::ops::Range;

use vstd::prelude::*;

verus! {

/// The look of a piece of text.
#[derive(Debug, Clone, Copy, PartialEq, Eq, Structural)]
pub struct InlineStyle {
    pub bold: bool,
    pub italic: bool,
    pub code: bool,
    pub dimmed: bool,
    pub link: bool,
    pub strikethrough: bool,
    pub table_header: bool,
}

impl InlineStyle {
    pub open spec fn plain_style() -> InlineStyle {
        InlineStyle {
            bold: false,
            italic: false,
            code: false,
            dimmed: false,
            link: false,
            strikethrough: false,
            table_header: false,
        }
    }

    /// Both looks at once.
    pub open spec fn merged(self, other: InlineStyle) -> InlineStyle {
        InlineStyle {
            bold: self.bold || other.bold,
            italic: self.italic || other.italic,
            code: self.code || other.code,
            dimmed: self.dimmed || other.dimmed,
            link: self.link || other.link,
            strikethrough: self.strikethrough || other.strikethrough,
            table_header: self.table_header || other.table_header,
        }
    }

    pub fn plain() -> (style: Self)
        ensures
            style == InlineStyle::plain_style(),
    {
        InlineStyle {
            bold: false,
            italic: false,
            code: false,
            dimmed: false,
            link: false,
            strikethrough: false,
            table_header: false,
        }
    }

    /// The look of a delimiter.
    pub fn dimmed() -> (style: Self)
        ensures
            style == (InlineStyle { dimmed: true, ..InlineStyle::plain_style() }),
    {
        let mut style = InlineStyle::plain();
        style.dimmed = true;
        style
    }

    /// The look of code.
    pub fn code() -> (style: Self)
        ensures
            style == (InlineStyle { code: true, ..InlineStyle::plain_style() }),
    {
        let mut style = InlineStyle::plain();
        style.code = true;
        style
    }

    /// Both looks at once.
    pub fn merge(self, other: InlineStyle) -> (style: Self)
        ensures
            style == self.merged(other),
    {
        InlineStyle {
            bold: self.bold || other.bold,
            italic: self.italic || other.italic,
            code: self.code || other.code,
            dimmed: self.dimmed || other.dimmed,
            link: self.link || other.link,
            strikethrough: self.strikethrough || other.strikethrough,
            table_header: self.table_header || other.table_header,
        }
    }
}

/// The look of a range of the source.
#[derive(Debug, PartialEq, Eq)]
pub struct InlineRun {
    pub source_range: Range<usize>,
    pub style: InlineStyle,
}

/// Text that is shown in place of a range of the source.
#[derive(Debug, PartialEq, Eq)]
pub struct Substitution {
    pub source_range: Range<usize>,
    pub display: String,
}

/// A formula inside of a line, with its delimiters and without.
#[derive(Debug, PartialEq, Eq)]
pub struct MathOverlay {
    pub source_range: Range<usize>,
    pub content_range: Range<usize>,
}

/// An image inside of a line, and its alternative text.
#[derive(Debug, PartialEq, Eq)]
pub struct ImageOverlay {
    pub source_range: Range<usize>,
    pub alt_range: Range<usize>,
}

/// The marker of the container at `level`.
#[derive(Debug, PartialEq, Eq)]
pub struct MarkerOverlay {
    pub level: usize,
    pub source_range: Range<usize>,
}

/// A list item: a bullet, with the state of the checkbox where it has one, or a
/// number.
#[derive(Debug, Clone, Copy, PartialEq, Eq, Structural)]
pub enum ListItemKind {
    Unordered(u8, Option<bool>),
    Ordered { number: u64 },
}

/// A container around a block.
#[derive(Debug, PartialEq, Eq)]
pub enum Container {
    BlockQuote { cursor_inside: bool },
    ListItem {
        kind: ListItemKind,
        cursor_inside: bool,
        marker_byte_len: usize,
        /// The widest marker of the list.
        list_max_marker_text: String,
    },
}

/// What a block is.
#[derive(Debug, Clone, Copy, PartialEq, Eq, Structural)]
pub enum BlockKind {
    Paragraph,
    Heading { level: u8 },
    CodeBlock,
    ThematicBreak,
    DisplayMath { edit_mode: bool },
    Image { edit_mode: bool },
    Embed { ordinal: u64 },
    Table { edit_mode: bool },
}

/// A block as it is shown.
#[derive(Debug, PartialEq, Eq)]
pub struct RenderBlock {
    pub kind: BlockKind,
    pub source_range: Range<usize>,
    pub containers: Vec<Container>,
    pub inlines: Vec<InlineRun>,
    pub hidden_ranges: Vec<Range<usize>>,
    /// The lines that are delimiters of the block, such as code fences.
    pub delimiter_lines: Vec<Range<usize>>,
    pub substitutions: Vec<Substitution>,
    pub math_overlays: Vec<MathOverlay>,
    pub image_overlays: Vec<ImageOverlay>,
    pub marker_overlays: Vec<MarkerOverlay>,
}

pub fn is_code_block(kind: &BlockKind) -> (found: bool)
    ensures
        found == (kind is CodeBlock),
{
    match kind {
        BlockKind::CodeBlock => true,
        _ => false,
    }
}

pub fn is_table_block(kind: &BlockKind) -> (found: bool)
    ensures
        found == (kind is Table),
{
    match kind {
        BlockKind::Table { .. } => true,
        _ => false,
    }
}

/// Is the block drawn as a whole, and not as its source?
pub fn is_drawn_whole(kind: &BlockKind) -> (found: bool)
    ensures
        found == match *kind {
            BlockKind::DisplayMath { edit_mode } => !edit_mode,
            BlockKind::Image { edit_mode } => !edit_mode,
            BlockKind::Embed { .. } => true,
            _ => false,
        },
{
    match kind {
        BlockKind::DisplayMath { edit_mode } => !*edit_mode,
        BlockKind::Image { edit_mode } => !*edit_mode,
        BlockKind::Embed { .. } => true,
        _ => false,
    }
}

} // verus!
