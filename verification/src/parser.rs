//! From markdown source to a syntax tree.
//!
//! The `pulldown-cmark` crate turns the source into a flat run of events; the
//! tree is built here from those events and the source bytes.

use core::ops::Range;

use pulldown_cmark::CodeBlockKind::{Fenced, Indented};
use pulldown_cmark::Event::{
    Code, DisplayMath, End, FootnoteReference, HardBreak, Html, InlineHtml, InlineMath, Rule, SoftBreak, Start,
    TaskListMarker, Text,
};
use pulldown_cmark::Tag::{
    BlockQuote, CodeBlock, Emphasis, Heading, HtmlBlock, Image, Item, Link, List, Paragraph,
    Strikethrough, Strong, Table, TableCell, TableHead, TableRow,
};
use pulldown_cmark::{Options, Parser};
use vstd::prelude::*;

use crate::bullets::{
    is_word, item_below, item_below_events, item_below_openings, item_below_tree,
    lemma_item_below_bytes, lemma_item_below_tree, lemma_two_items_bytes, lemma_two_items_tree,
    two_items, two_items_events, two_items_openings, two_items_tree,
};
use crate::parser::EventKind::{
    Close, CodeSpan, Divider, ForcedBreak, HtmlLine, HtmlSpan, LineBreak, MathBlock, MathSpan, Open,
    Other, PlainText, Task,
};
use crate::parser::Opening::{
    NotOpening, OpenCell, OpenCode, OpenEmphasis, OpenHead, OpenHeading, OpenHtml, OpenImage,
    OpenIndented, OpenItem, OpenLink, OpenList, OpenOther, OpenParagraph, OpenQuote, OpenRow,
    OpenStrike, OpenStrong, OpenTable,
};
use crate::syntax::{
    in_buffer, kind_fits, lemma_children_view, marker_opens_item, node_fits, node_view, nodes_view,
    on_characters, ranges_fit, siblings_in_order, tree_fits, ListKind, Node, NodeKind, SyntaxNode,
};
use crate::text::{
    boundary,
    boundary_before,
    bytes_of,
    line_end,
    next_line_end,
    run_end,
    run_end_offset,
    SPACE,
};

verus! {

/// Tables, strikethrough, task lists and math: the extensions that are on.
pub const EXTENSIONS: u32 = 1050;

/// What an event of the source does.
#[derive(Debug, Clone, Copy, PartialEq, Eq, Structural)]
pub enum EventKind {
    /// Opens a construct; [`Opening`] tells which.
    Open,
    Close,
    PlainText,
    CodeSpan,
    MathSpan,
    MathBlock,
    HtmlLine,
    HtmlSpan,
    LineBreak,
    /// A line break that the source asks for.
    ForcedBreak,
    Divider,
    /// A task marker, and whether it is checked.
    Task(bool),
    /// A leaf of an extension that is off.
    Other,
}

/// The construct that an event opens. `U` is an address: a `String`, or its
/// characters.
#[derive(Debug)]
pub enum Opening<U> {
    OpenParagraph,
    /// A heading carries its level.
    OpenHeading(u8),
    OpenQuote,
    OpenCode,
    OpenIndented,
    OpenHtml,
    /// An ordered list carries its first number.
    OpenList(Option<u64>),
    OpenItem,
    OpenTable,
    OpenHead,
    OpenRow,
    OpenCell,
    OpenEmphasis,
    OpenStrong,
    OpenStrike,
    OpenLink(U),
    OpenImage(U),
    /// A construct of an extension that is off.
    OpenOther,
    /// The event opens none.
    NotOpening,
}

/// The construct with the characters of its address.
pub open spec fn opening_view(opening: Opening<String>) -> Opening<Seq<char>> {
    match opening {
        Opening::OpenParagraph => Opening::OpenParagraph,
        Opening::OpenHeading(level) => Opening::OpenHeading(level),
        Opening::OpenQuote => Opening::OpenQuote,
        Opening::OpenCode => Opening::OpenCode,
        Opening::OpenIndented => Opening::OpenIndented,
        Opening::OpenHtml => Opening::OpenHtml,
        Opening::OpenList(first) => Opening::OpenList(first),
        Opening::OpenItem => Opening::OpenItem,
        Opening::OpenTable => Opening::OpenTable,
        Opening::OpenHead => Opening::OpenHead,
        Opening::OpenRow => Opening::OpenRow,
        Opening::OpenCell => Opening::OpenCell,
        Opening::OpenEmphasis => Opening::OpenEmphasis,
        Opening::OpenStrong => Opening::OpenStrong,
        Opening::OpenStrike => Opening::OpenStrike,
        Opening::OpenLink(url) => Opening::OpenLink(url@),
        Opening::OpenImage(url) => Opening::OpenImage(url@),
        Opening::OpenOther => Opening::OpenOther,
        Opening::NotOpening => Opening::NotOpening,
    }
}

pub open spec fn openings_view(openings: Seq<Opening<String>>) -> Seq<Opening<Seq<char>>> {
    Seq::new(openings.len(), |i: int| opening_view(openings[i]))
}

/// The events that `pulldown-cmark` reads from a text, with the source range
/// of each, when the extensions given by `options` are on.
pub uninterp spec fn markdown_events(text: Seq<char>, options: u32) -> Seq<(EventKind, Range<usize>)>;

/// The construct that each event opens that `pulldown-cmark` reads from a text,
/// when the extensions given by `options` are on.
pub uninterp spec fn markdown_openings(text: Seq<char>, options: u32) -> Seq<Opening<Seq<char>>>;

/// The events of `pulldown_cmark::Parser::new_ext(text, options)` with their
/// ranges, as its `into_offset_iter` yields them, each event turned into the
/// [`EventKind`] it stands for. Claimed: which events come, in what order and
/// with what ranges, depends on the text and the options alone. With the
/// extensions of [`EXTENSIONS`], `- a` and `- b` on two lines, for words `a` and
/// `b` of ASCII letters, come as one tight list of two items, and where two
/// spaces stand before the second bullet, as a list in the item of a list.
#[verifier::external_body]
fn read_events(text: &str, options: u32) -> (events: Vec<(EventKind, Range<usize>)>)
    ensures
        events@ == markdown_events(text@, options),
        forall|first: Seq<char>, second: Seq<char>|
            options == EXTENSIONS && is_word(first) && is_word(second) && text@
                == #[trigger] two_items(first, second) ==> events@ == two_items_events(
                first.len() as int,
                second.len() as int,
            ),
        forall|first: Seq<char>, second: Seq<char>|
            options == EXTENSIONS && is_word(first) && is_word(second) && text@
                == #[trigger] item_below(first, second) ==> events@ == item_below_events(
                first.len() as int,
                second.len() as int,
            ),
{
    Parser::new_ext(text, Options::from_bits_truncate(options)).into_offset_iter().map(|(event, range)| (match event {
        Start(_) => Open, End(_) => Close, Text(_) => PlainText, Code(_) => CodeSpan,
        InlineMath(_) => MathSpan, DisplayMath(_) => MathBlock, Html(_) => HtmlLine,
        InlineHtml(_) => HtmlSpan, SoftBreak => LineBreak, HardBreak => ForcedBreak,
        Rule => Divider, TaskListMarker(done) => Task(done), FootnoteReference(_) => Other
    }, range)).collect()
}

/// The events of `pulldown_cmark::Parser::new_ext(text, options)` as the parser
/// itself, an iterator without ranges, yields them: the tag of each event that
/// opens a construct is turned into the [`Opening`] it stands for. Claimed: they
/// depend on the text and the options alone. With the extensions of
/// [`EXTENSIONS`], `- a` and `- b` on two lines, for words `a` and `b` of ASCII
/// letters, open one bulleted list and its two items, and where two spaces stand
/// before the second bullet, a list and its item twice.
#[verifier::external_body]
fn read_openings(text: &str, options: u32) -> (openings: Vec<Opening<String>>)
    ensures
        openings_view(openings@) == markdown_openings(text@, options),
        forall|first: Seq<char>, second: Seq<char>|
            options == EXTENSIONS && is_word(first) && is_word(second) && text@
                == #[trigger] two_items(first, second) ==> openings_view(openings@)
                == two_items_openings(),
        forall|first: Seq<char>, second: Seq<char>|
            options == EXTENSIONS && is_word(first) && is_word(second) && text@
                == #[trigger] item_below(first, second) ==> openings_view(openings@)
                == item_below_openings(),
{
    Parser::new_ext(text, Options::from_bits_truncate(options)).map(|event| match event {
        Start(tag) => match tag {
            Paragraph => OpenParagraph, Heading { level, .. } => OpenHeading(level as u8),
            BlockQuote(_) => OpenQuote, CodeBlock(Fenced(_)) => OpenCode, HtmlBlock => OpenHtml,
            CodeBlock(Indented) => OpenIndented, List(first) => OpenList(first), Item => OpenItem,
            Table(_) => OpenTable, TableHead => OpenHead, TableRow => OpenRow, TableCell => OpenCell,
            Emphasis => OpenEmphasis, Strong => OpenStrong, Strikethrough => OpenStrike,
            Link { dest_url, .. } => OpenLink(dest_url.into_string()),
            Image { dest_url, .. } => OpenImage(dest_url.into_string()), _ => OpenOther
        }
        _ => NotOpening
    }).collect()
}

// ---------------------------------------------------------------------------
// Ranges
// ---------------------------------------------------------------------------

/// `p` moved to the last character boundary of the text at or before it.
pub open spec fn fit_offset(b: Seq<u8>, p: int) -> int {
    boundary_before(b, if p <= b.len() { p } else { b.len() as int })
}

/// `r` on character boundaries of the text, its end not before its start. A
/// range of the text that already is so stays as it is.
pub open spec fn fit(b: Seq<u8>, r: Range<usize>) -> Range<usize> {
    let start = fit_offset(b, r.start as int);
    let end = fit_offset(b, r.end as int);
    Range { start: start as usize, end: if end < start { start as usize } else { end as usize } }
}

/// `r` on character boundaries of the text, at `low` or after it.
pub open spec fn fit_after(b: Seq<u8>, low: int, r: Range<usize>) -> Range<usize> {
    let fitted = fit(b, r);
    let start = if fitted.start < low { low as usize } else { fitted.start };
    Range { start, end: if fitted.end < start { start } else { fitted.end } }
}

/// Does no continuation byte open the text?
pub open spec fn opens_on_character(b: Seq<u8>) -> bool {
    boundary(b, 0)
}

pub proof fn lemma_boundary_before(b: Seq<u8>, p: int)
    requires
        0 <= p <= b.len(),
        opens_on_character(b),
    ensures
        0 <= boundary_before(b, p) <= p,
        boundary(b, boundary_before(b, p)),
        forall|q: int| 0 <= q <= p && boundary(b, q) ==> q <= boundary_before(b, p),
    decreases p,
{
    if p > 0 && !boundary(b, p) {
        lemma_boundary_before(b, p - 1);
    }
}

proof fn lemma_fit(b: Seq<u8>, r: Range<usize>)
    requires
        opens_on_character(b),
        b.len() <= usize::MAX,
    ensures
        on_characters(fit(b, r), b),
        on_characters(r, b) ==> fit(b, r) == r,
{
    lemma_boundary_before(b, if r.start <= b.len() { r.start as int } else { b.len() as int });
    lemma_boundary_before(b, if r.end <= b.len() { r.end as int } else { b.len() as int });
}

pub proof fn lemma_fit_after(b: Seq<u8>, low: int, r: Range<usize>)
    requires
        opens_on_character(b),
        b.len() <= usize::MAX,
        boundary(b, low),
        0 <= low <= b.len(),
    ensures
        on_characters(fit_after(b, low, r), b),
        low <= fit_after(b, low, r).start,
        on_characters(r, b) && low <= r.start ==> fit_after(b, low, r) == r,
{
    lemma_fit(b, r);
}

/// Is `p` a character boundary?
pub fn is_boundary(bytes: &[u8], p: usize) -> (found: bool)
    ensures
        found == boundary(bytes@, p as int),
{
    if p > bytes.len() {
        return false;
    }
    p == bytes.len() || bytes[p] < 0x80 || bytes[p] > 0xbf
}

fn previous_boundary(bytes: &[u8], p: usize) -> (found: usize)
    requires
        p <= bytes@.len(),
    ensures
        found == boundary_before(bytes@, p as int),
        found <= p,
{
    let mut q: usize = p;
    while q > 0 && !is_boundary(bytes, q)
        invariant
            q <= p,
            boundary_before(bytes@, q as int) == boundary_before(bytes@, p as int),
        decreases q,
    {
        q = q - 1;
    }
    q
}

fn fit_range(bytes: &[u8], r: &Range<usize>) -> (fitted: Range<usize>)
    ensures
        fitted == fit(bytes@, *r),
{
    let start = previous_boundary(bytes, if r.start <= bytes.len() { r.start } else { bytes.len() });
    let end = previous_boundary(bytes, if r.end <= bytes.len() { r.end } else { bytes.len() });
    if end < start {
        start..start
    } else {
        start..end
    }
}

fn fit_range_after(bytes: &[u8], low: usize, r: &Range<usize>) -> (fitted: Range<usize>)
    ensures
        fitted == fit_after(bytes@, low as int, *r),
{
    let fitted = fit_range(bytes, r);
    let start = if fitted.start < low { low } else { fitted.start };
    if fitted.end < start {
        start..start
    } else {
        start..fitted.end
    }
}

/// Where the opening delimiter of `n` bytes ends in `r`.
pub open spec fn opener_end(b: Seq<u8>, r: Range<usize>, n: int) -> int {
    boundary_before(b, if r.start + n <= r.end { r.start + n } else { r.end as int })
}

/// Where the closing delimiter of `n` bytes begins in `r`.
pub open spec fn closer_start(b: Seq<u8>, r: Range<usize>, n: int) -> int {
    let low = opener_end(b, r, n);
    let at = boundary_before(b, if r.end - n >= low { r.end - n } else { low });
    if at < low { low } else { at }
}

proof fn lemma_delimited(b: Seq<u8>, r: Range<usize>, n: int)
    requires
        on_characters(r, b),
        opens_on_character(b),
        0 <= n,
    ensures
        r.start <= opener_end(b, r, n) <= closer_start(b, r, n) <= r.end,
        boundary(b, opener_end(b, r, n)),
        boundary(b, closer_start(b, r, n)),
{
    lemma_boundary_before(b, if r.start + n <= r.end { r.start + n } else { r.end as int });
    let low = opener_end(b, r, n);
    lemma_boundary_before(b, if r.end - n >= low { r.end - n } else { low });
}

/// The inside of `r` when `n` bytes delimit it on each side.
pub open spec fn content_of(b: Seq<u8>, r: Range<usize>, n: int) -> Range<usize> {
    Range { start: opener_end(b, r, n) as usize, end: closer_start(b, r, n) as usize }
}

/// The three parts of `r` when `n` bytes delimit it on each side: opener,
/// content, closer.
fn delimited(bytes: &[u8], r: &Range<usize>, n: usize) -> (parts: (
    Range<usize>,
    Range<usize>,
    Range<usize>,
))
    requires
        on_characters(*r, bytes@),
        opens_on_character(bytes@),
    ensures
        parts.0 == (Range { start: r.start, end: opener_end(bytes@, *r, n as int) as usize }),
        parts.1 == content_of(bytes@, *r, n as int),
        parts.2 == (Range { start: closer_start(bytes@, *r, n as int) as usize, end: r.end }),
        on_characters(parts.0, bytes@),
        on_characters(parts.1, bytes@),
        on_characters(parts.2, bytes@),
{
    proof {
        lemma_delimited(bytes@, *r, n as int);
    }
    let low = previous_boundary(bytes, if n <= r.end - r.start { r.start + n } else { r.end });
    let high_from: usize = if n <= r.end && r.end - n >= low { r.end - n } else { low };
    let at = previous_boundary(bytes, high_from);
    let high: usize = if at < low { low } else { at };
    (r.start..low, low..high, high..r.end)
}

// ---------------------------------------------------------------------------
// What a closed construct is
// ---------------------------------------------------------------------------

pub const BACKTICK: u8 = 96;

/// From the first child's start to the last child's end; the end of `r`
/// without children.
pub open spec fn children_extent(r: Range<usize>, children: Seq<Node>) -> Range<usize> {
    if children.len() == 0 {
        Range { start: r.end, end: r.end }
    } else {
        let start = children[0].range.start;
        let end = children.last().range.end;
        Range { start, end: if end < start { start } else { end } }
    }
}

/// The marker of a list item with one space after it: the bullet, or the
/// digits and the byte after them.
pub open spec fn item_marker(b: Seq<u8>, r: Range<usize>) -> Range<usize> {
    let digits = digits_end(b, r.start as int, r.end as int);
    let bare = if digits < r.end { digits + 1 } else { digits };
    let end = if bare < r.end && b[bare] == SPACE { bare + 1 } else { bare };
    Range { start: r.start, end: end as usize }
}

pub open spec fn is_digit(c: u8) -> bool {
    48 <= c <= 57
}

/// Past the digits from `p`, no further than `limit`.
pub open spec fn digits_end(b: Seq<u8>, p: int, limit: int) -> int
    decreases limit - p,
{
    if p >= limit || !is_digit(b[p]) {
        p
    } else {
        digits_end(b, p + 1, limit)
    }
}

pub proof fn lemma_digits_end_bounds(b: Seq<u8>, p: int, limit: int)
    requires
        p <= limit,
    ensures
        p <= digits_end(b, p, limit) <= limit,
        forall|i: int| p <= i < digits_end(b, p, limit) ==> is_digit(b[i]),
    decreases limit - p,
{
    if p < limit && is_digit(b[p]) {
        lemma_digits_end_bounds(b, p + 1, limit);
    }
}

/// Past the digits from `p`, no further than `limit`.
pub fn skip_digits(bytes: &[u8], p: usize, limit: usize) -> (end: usize)
    requires
        p <= limit <= bytes@.len(),
    ensures
        end == digits_end(bytes@, p as int, limit as int),
        p <= end <= limit,
{
    let mut q: usize = p;
    while q < limit && bytes[q] >= 48 && bytes[q] <= 57
        invariant
            p <= q <= limit <= bytes@.len(),
            digits_end(bytes@, q as int, limit as int) == digits_end(
                bytes@,
                p as int,
                limit as int,
            ),
        decreases limit - q,
    {
        q = q + 1;
    }
    q
}

/// The opening fence of a code block.
pub open spec fn fence_opener(b: Seq<u8>, r: Range<usize>) -> Range<usize> {
    Range {
        start: r.start,
        end: (if r.start < r.end {
            run_end(b, r.start as int, r.end as int, b[r.start as int])
        } else {
            r.end as int
        }) as usize,
    }
}

/// The end of a code block's opening line, newline excluded.
pub open spec fn opener_line_end(b: Seq<u8>, r: Range<usize>) -> int {
    line_end(b, fence_opener(b, r).end as int, r.end as int)
}

/// Where the content of a code block ends: with its last line of code, or
/// right after the opening line if it has none.
pub open spec fn code_end(b: Seq<u8>, r: Range<usize>, children: Seq<Node>) -> int {
    let first = opener_line_end(b, r);
    if children.len() > 0 && first <= children.last().range.end <= r.end {
        children.last().range.end as int
    } else if first < r.end {
        first + 1
    } else {
        first
    }
}

/// The first offset in `[p, limit)` that holds `byte`, or `limit`.
pub open spec fn find_byte(b: Seq<u8>, p: int, limit: int, byte: u8) -> int
    decreases limit - p,
{
    if p >= limit || b[p] == byte {
        p
    } else {
        find_byte(b, p + 1, limit, byte)
    }
}

/// The closing fence: the first run of the fence byte past the content.
pub open spec fn fence_closer(b: Seq<u8>, r: Range<usize>, children: Seq<Node>) -> Option<
    Range<usize>,
> {
    let from = code_end(b, r, children);
    if r.start >= r.end {
        None
    } else {
        let at = find_byte(b, from, r.end as int, b[r.start as int]);
        if at >= r.end {
            None
        } else {
            Some(
                Range {
                    start: at as usize,
                    end: run_end(b, at, r.end as int, b[r.start as int]) as usize,
                },
            )
        }
    }
}

/// The code of a code block, from its first line to its last.
pub open spec fn code_content(b: Seq<u8>, r: Range<usize>, children: Seq<Node>) -> Range<usize> {
    let end = code_end(b, r, children);
    let start = if children.len() > 0 && children[0].range.start <= end {
        children[0].range.start as int
    } else {
        end
    };
    Range { start: start as usize, end: end as usize }
}

/// What follows the text of a link or image: from the end of its last child,
/// or from right after its opening, to its end.
pub open spec fn link_destination(r: Range<usize>, children: Seq<Node>) -> Range<usize> {
    if children.len() > 0 && r.start <= children.last().range.end <= r.end {
        Range { start: children.last().range.end, end: r.end }
    } else {
        Range { start: if r.start < r.end { (r.start + 1) as usize } else { r.end }, end: r.end }
    }
}

pub open spec fn list_kind(first: Option<u64>) -> ListKind {
    match first {
        Some(start) => ListKind::Ordered { start },
        None => ListKind::Unordered,
    }
}

/// What the construct opened by `opened` over `r` is once its children are
/// known. One that has no kind of its own is shown as a paragraph.
pub open spec fn construct(
    opened: Opening<Seq<char>>,
    r: Range<usize>,
    children: Seq<Node>,
    b: Seq<u8>,
) -> NodeKind {
    match opened {
        Opening::OpenHeading(level) => NodeKind::Heading {
            level,
            content_range: children_extent(r, children),
        },
        Opening::OpenQuote => NodeKind::BlockQuote,
        Opening::OpenCode => NodeKind::CodeBlock {
            fence: fence_opener(b, r),
            end_fence: fence_closer(b, r, children),
            info_range: Range {
                start: fence_opener(b, r).end,
                end: opener_line_end(b, r) as usize,
            },
            content_range: code_content(b, r, children),
        },
        Opening::OpenList(first) => NodeKind::List { kind: list_kind(first) },
        Opening::OpenItem => NodeKind::ListItem { marker_range: item_marker(b, r) },
        Opening::OpenTable => NodeKind::Table,
        Opening::OpenHead => NodeKind::TableRow { is_header: true },
        Opening::OpenRow => NodeKind::TableRow { is_header: false },
        Opening::OpenCell => NodeKind::TableCell,
        Opening::OpenEmphasis => NodeKind::Emphasis {
            content_range: content_of(b, r, 1),
            opener: Range { start: r.start, end: opener_end(b, r, 1) as usize },
            closer: Range { start: closer_start(b, r, 1) as usize, end: r.end },
        },
        Opening::OpenStrong => NodeKind::Strong {
            content_range: content_of(b, r, 2),
            opener: Range { start: r.start, end: opener_end(b, r, 2) as usize },
            closer: Range { start: closer_start(b, r, 2) as usize, end: r.end },
        },
        Opening::OpenStrike => NodeKind::Strikethrough,
        Opening::OpenLink(_) => NodeKind::Link { destination: link_destination(r, children) },
        Opening::OpenImage(_) => NodeKind::Image { destination: link_destination(r, children) },
        _ => NodeKind::Paragraph,
    }
}

/// The address of a construct; empty if it has none.
pub open spec fn address(opened: Opening<Seq<char>>) -> Seq<char> {
    match opened {
        Opening::OpenLink(url) => url,
        Opening::OpenImage(url) => url,
        _ => Seq::empty(),
    }
}

/// What a leaf over `r` is.
pub open spec fn leaf(kind: EventKind, r: Range<usize>, b: Seq<u8>) -> NodeKind {
    match kind {
        EventKind::PlainText => NodeKind::Text,
        EventKind::CodeSpan => NodeKind::InlineCode {
            content_range: content_of(
                b,
                r,
                run_end(b, r.start as int, r.end as int, BACKTICK) - r.start,
            ),
        },
        EventKind::MathSpan => NodeKind::InlineMath { content_range: content_of(b, r, 1) },
        EventKind::MathBlock => NodeKind::DisplayMath { content_range: content_of(b, r, 2) },
        EventKind::LineBreak | EventKind::ForcedBreak => NodeKind::LineBreak,
        EventKind::Divider => NodeKind::ThematicBreak,
        EventKind::Task(checked) => NodeKind::TaskMarker { checked },
        _ => NodeKind::Html,
    }
}

// ---------------------------------------------------------------------------
// The tree
// ---------------------------------------------------------------------------

/// A construct that is still open, with the children it has so far.
#[verifier::ext_equal]
pub struct Frame {
    pub opened: Opening<Seq<char>>,
    pub range: Range<usize>,
    pub children: Seq<Node>,
}

/// The stack with `node` as a further child of its innermost construct.
pub open spec fn with_child(stack: Seq<Frame>, node: Node) -> Seq<Frame> {
    let top = stack.last();
    stack.update(
        stack.len() - 1,
        Frame { opened: top.opened, range: top.range, children: top.children.push(node) },
    )
}

/// The node that the innermost construct of the stack closes into.
pub open spec fn closing_node(stack: Seq<Frame>, b: Seq<u8>) -> Node {
    let top = stack.last();
    Node {
        kind: construct(top.opened, top.range, top.children, b),
        range: top.range,
        dest_url: address(top.opened),
        children: top.children,
    }
}

/// The stack after its innermost construct closes; the bottom one, the
/// document, never does.
pub open spec fn close_top(stack: Seq<Frame>, b: Seq<u8>) -> Seq<Frame> {
    if stack.len() <= 1 {
        stack
    } else {
        with_child(stack.drop_last(), closing_node(stack, b))
    }
}

/// Where a further node may start: after the block before it at the top level
/// of the document, and anywhere in a construct.
pub open spec fn earliest_start(stack: Seq<Frame>) -> int {
    if stack.len() == 1 && stack[0].children.len() > 0 {
        stack[0].children.last().range.end as int
    } else {
        0
    }
}

/// The stack after one more event; `opening` is the construct that it opens, if
/// it opens one.
pub open spec fn after_event(
    stack: Seq<Frame>,
    event: (EventKind, Range<usize>),
    opening: Opening<Seq<char>>,
    b: Seq<u8>,
) -> Seq<Frame> {
    let r = fit_after(b, earliest_start(stack), event.1);
    match event.0 {
        EventKind::Open => stack.push(
            Frame { opened: opening, range: r, children: Seq::empty() },
        ),
        EventKind::Close => close_top(stack, b),
        _ => with_child(
            stack,
            Node {
                kind: leaf(event.0, r, b),
                range: r,
                dest_url: Seq::empty(),
                children: Seq::empty(),
            },
        ),
    }
}

/// The construct that event `i` opens.
pub open spec fn opening_at(openings: Seq<Opening<Seq<char>>>, i: int) -> Opening<Seq<char>> {
    if 0 <= i < openings.len() {
        openings[i]
    } else {
        Opening::OpenOther
    }
}

/// The stack after all the events, from the empty document.
pub open spec fn after_events(
    events: Seq<(EventKind, Range<usize>)>,
    openings: Seq<Opening<Seq<char>>>,
    b: Seq<u8>,
) -> Seq<Frame>
    decreases events.len(),
{
    if events.len() == 0 {
        seq![
            Frame {
                opened: Opening::OpenOther,
                range: Range { start: 0, end: b.len() as usize },
                children: Seq::empty(),
            },
        ]
    } else {
        after_event(
            after_events(events.drop_last(), openings, b),
            events.last(),
            opening_at(openings, events.len() - 1),
            b,
        )
    }
}

/// The stack once every construct still open is closed.
pub open spec fn close_all(stack: Seq<Frame>, b: Seq<u8>) -> Seq<Frame>
    decreases stack.len(),
{
    if stack.len() <= 1 {
        stack
    } else {
        close_all(close_top(stack, b), b)
    }
}

/// The tree that the events of the text `b` describe: each construct holds
/// the nodes that come between its opening and its closing event.
pub open spec fn tree_of(
    events: Seq<(EventKind, Range<usize>)>,
    openings: Seq<Opening<Seq<char>>>,
    b: Seq<u8>,
) -> Seq<Node> {
    close_all(after_events(events, openings, b), b)[0].children
}

/// The syntax tree of a text.
pub open spec fn syntax_tree(text: Seq<char>) -> Seq<Node> {
    tree_of(
        markdown_events(text, EXTENSIONS),
        markdown_openings(text, EXTENSIONS),
        bytes_of(text),
    )
}

// ---------------------------------------------------------------------------
// Building it
// ---------------------------------------------------------------------------

/// An open construct and the nodes it holds so far.
struct OpenFrame {
    opened: Opening<String>,
    range: Range<usize>,
    children: Vec<SyntaxNode>,
}

spec fn frame_view(f: OpenFrame) -> Frame {
    Frame { opened: opening_view(f.opened), range: f.range, children: nodes_view(f.children@) }
}

spec fn frames_view(stack: Seq<OpenFrame>) -> Seq<Frame> {
    Seq::new(stack.len(), |i: int| frame_view(stack[i]))
}

spec fn frame_fits(f: Frame, b: Seq<u8>) -> bool {
    on_characters(f.range, b) && tree_fits(f.children, b)
}

spec fn frames_fit(stack: Seq<Frame>, b: Seq<u8>) -> bool {
    forall|i: int| 0 <= i < stack.len() ==> frame_fits(#[trigger] stack[i], b)
}

fn copy_opening(opening: &Opening<String>) -> (copy: Opening<String>)
    ensures
        opening_view(copy) == opening_view(*opening),
{
    match opening {
        Opening::OpenParagraph => Opening::OpenParagraph,
        Opening::OpenHeading(level) => Opening::OpenHeading(*level),
        Opening::OpenQuote => Opening::OpenQuote,
        Opening::OpenCode => Opening::OpenCode,
        Opening::OpenIndented => Opening::OpenIndented,
        Opening::OpenHtml => Opening::OpenHtml,
        Opening::OpenList(first) => Opening::OpenList(*first),
        Opening::OpenItem => Opening::OpenItem,
        Opening::OpenTable => Opening::OpenTable,
        Opening::OpenHead => Opening::OpenHead,
        Opening::OpenRow => Opening::OpenRow,
        Opening::OpenCell => Opening::OpenCell,
        Opening::OpenEmphasis => Opening::OpenEmphasis,
        Opening::OpenStrong => Opening::OpenStrong,
        Opening::OpenStrike => Opening::OpenStrike,
        Opening::OpenLink(url) => Opening::OpenLink(url.clone()),
        Opening::OpenImage(url) => Opening::OpenImage(url.clone()),
        Opening::OpenOther => Opening::OpenOther,
        Opening::NotOpening => Opening::NotOpening,
    }
}

fn take_address(opened: Opening<String>) -> (url: String)
    ensures
        url@ == address(opening_view(opened)),
{
    match opened {
        Opening::OpenLink(url) => url,
        Opening::OpenImage(url) => url,
        _ => String::new(),
    }
}

fn read_item_marker(bytes: &[u8], r: &Range<usize>) -> (marker: Range<usize>)
    requires
        in_buffer(*r, bytes@),
    ensures
        marker == item_marker(bytes@, *r),
        in_buffer(marker, bytes@),
        marker.start == r.start,
        marker.end <= r.end,
{
    let digits = skip_digits(bytes, r.start, r.end);
    let bare: usize = if digits < r.end { digits + 1 } else { digits };
    let end: usize = if bare < r.end && bytes[bare] == SPACE { bare + 1 } else { bare };
    r.start..end
}

fn read_children_extent(r: &Range<usize>, children: &Vec<SyntaxNode>) -> (extent: Range<usize>)
    ensures
        extent == children_extent(*r, nodes_view(children@)),
{
    if children.len() == 0 {
        return r.end..r.end;
    }
    let start: usize = children[0].range.start;
    let end: usize = children[children.len() - 1].range.end;
    if end < start {
        start..start
    } else {
        start..end
    }
}

fn read_link_destination(r: &Range<usize>, children: &Vec<SyntaxNode>) -> (destination: Range<
    usize,
>)
    ensures
        destination == link_destination(*r, nodes_view(children@)),
{
    if children.len() > 0 {
        let end: usize = children[children.len() - 1].range.end;
        if r.start <= end && end <= r.end {
            return end..r.end;
        }
    }
    let start: usize = if r.start < r.end { r.start + 1 } else { r.end };
    start..r.end
}

fn find_byte_offset(bytes: &[u8], p: usize, limit: usize, byte: u8) -> (found: usize)
    requires
        p <= limit <= bytes@.len(),
    ensures
        found == find_byte(bytes@, p as int, limit as int, byte),
        p <= found <= limit,
{
    let mut q: usize = p;
    while q < limit && bytes[q] != byte
        invariant
            p <= q <= limit <= bytes@.len(),
            find_byte(bytes@, q as int, limit as int, byte) == find_byte(
                bytes@,
                p as int,
                limit as int,
                byte,
            ),
        decreases limit - q,
    {
        q = q + 1;
    }
    q
}

fn read_code_block(bytes: &[u8], r: &Range<usize>, children: &Vec<SyntaxNode>) -> (kind: NodeKind)
    requires
        in_buffer(*r, bytes@),
    ensures
        kind == construct(Opening::OpenCode, *r, nodes_view(children@), bytes@),
        kind_fits(kind, bytes@),
{
    let fence_end: usize = if r.start < r.end {
        run_end_offset(bytes, r.start, r.end, bytes[r.start])
    } else {
        r.end
    };
    let first = next_line_end(bytes, fence_end, r.end);
    let mut end: usize = if first < r.end { first + 1 } else { first };
    let mut start: usize = end;
    if children.len() > 0 {
        let last: usize = children[children.len() - 1].range.end;
        if first <= last && last <= r.end {
            end = last;
            start = end;
        }
        if children[0].range.start <= end {
            start = children[0].range.start;
        }
    }
    let mut end_fence: Option<Range<usize>> = None;
    if r.start < r.end {
        let at = find_byte_offset(bytes, end, r.end, bytes[r.start]);
        if at < r.end {
            end_fence = Some(at..run_end_offset(bytes, at, r.end, bytes[r.start]));
        }
    }
    NodeKind::CodeBlock {
        fence: r.start..fence_end,
        end_fence,
        info_range: fence_end..first,
        content_range: start..end,
    }
}

/// The node kind that a closed construct gets.
fn build_construct(
    opened: &Opening<String>,
    r: &Range<usize>,
    children: &Vec<SyntaxNode>,
    bytes: &[u8],
) -> (kind: NodeKind)
    requires
        on_characters(*r, bytes@),
        opens_on_character(bytes@),
        tree_fits(nodes_view(children@), bytes@),
    ensures
        kind == construct(opening_view(*opened), *r, nodes_view(children@), bytes@),
        kind_fits(kind, bytes@),
        marker_opens_item(kind, *r),
{
    match opened {
        Opening::OpenHeading(level) => {
            let content_range = read_children_extent(r, children);
            proof {
                if children@.len() > 0 {
                    assert(node_fits(nodes_view(children@)[0], bytes@));
                    assert(node_fits(nodes_view(children@).last(), bytes@));
                }
            }
            NodeKind::Heading { level: *level, content_range }
        },
        Opening::OpenQuote => NodeKind::BlockQuote,
        Opening::OpenCode => read_code_block(bytes, r, children),
        Opening::OpenList(first) => NodeKind::List {
            kind: match first {
                Some(start) => ListKind::Ordered { start: *start },
                None => ListKind::Unordered,
            },
        },
        Opening::OpenItem => NodeKind::ListItem { marker_range: read_item_marker(bytes, r) },
        Opening::OpenTable => NodeKind::Table,
        Opening::OpenHead => NodeKind::TableRow { is_header: true },
        Opening::OpenRow => NodeKind::TableRow { is_header: false },
        Opening::OpenCell => NodeKind::TableCell,
        Opening::OpenEmphasis => {
            let (opener, content_range, closer) = delimited(bytes, r, 1);
            NodeKind::Emphasis { content_range, opener, closer }
        },
        Opening::OpenStrong => {
            let (opener, content_range, closer) = delimited(bytes, r, 2);
            NodeKind::Strong { content_range, opener, closer }
        },
        Opening::OpenStrike => NodeKind::Strikethrough,
        Opening::OpenLink(_) => NodeKind::Link { destination: read_link_destination(r, children) },
        Opening::OpenImage(_) => NodeKind::Image {
            destination: read_link_destination(r, children),
        },
        _ => NodeKind::Paragraph,
    }
}

fn build_leaf(kind: EventKind, r: &Range<usize>, bytes: &[u8]) -> (result: NodeKind)
    requires
        on_characters(*r, bytes@),
        opens_on_character(bytes@),
    ensures
        result == leaf(kind, *r, bytes@),
        kind_fits(result, bytes@),
{
    match kind {
        EventKind::PlainText => NodeKind::Text,
        EventKind::CodeSpan => {
            let ticks: usize = run_end_offset(bytes, r.start, r.end, BACKTICK) - r.start;
            let (_, content_range, _) = delimited(bytes, r, ticks);
            NodeKind::InlineCode { content_range }
        },
        EventKind::MathSpan => {
            let (_, content_range, _) = delimited(bytes, r, 1);
            NodeKind::InlineMath { content_range }
        },
        EventKind::MathBlock => {
            let (_, content_range, _) = delimited(bytes, r, 2);
            NodeKind::DisplayMath { content_range }
        },
        EventKind::LineBreak | EventKind::ForcedBreak => NodeKind::LineBreak,
        EventKind::Divider => NodeKind::ThematicBreak,
        EventKind::Task(checked) => NodeKind::TaskMarker { checked },
        _ => NodeKind::Html,
    }
}

fn add_child(stack: &mut Vec<OpenFrame>, node: SyntaxNode, bytes: &[u8])
    requires
        old(stack)@.len() > 0,
        frames_fit(frames_view(old(stack)@), bytes@),
        node_fits(node@, bytes@),
    ensures
        frames_view(final(stack)@) == with_child(frames_view(old(stack)@), node@),
        frames_fit(frames_view(final(stack)@), bytes@),
        final(stack)@.len() == old(stack)@.len(),
{
    let ghost before = frames_view(stack@);
    let ghost n = node@;
    let mut top = stack.pop().unwrap();
    let ghost held = nodes_view(top.children@);
    assert(before.last() == frame_view(top));
    assert(frame_fits(before.last(), bytes@));
    top.children.push(node);
    assert(nodes_view(top.children@) =~= held.push(n));
    let ghost after = frame_view(top);
    stack.push(top);
    assert(frames_view(stack@) =~= with_child(before, n));
    assert(tree_fits(held.push(n), bytes@));
    assert forall|i: int| 0 <= i < frames_view(stack@).len() implies frame_fits(
        #[trigger] frames_view(stack@)[i],
        bytes@,
    ) by {
        if i < before.len() - 1 {
            assert(frame_fits(before[i], bytes@));
        }
    }
}

fn close_innermost(stack: &mut Vec<OpenFrame>, bytes: &[u8])
    requires
        old(stack)@.len() > 0,
        opens_on_character(bytes@),
        frames_fit(frames_view(old(stack)@), bytes@),
    ensures
        frames_view(final(stack)@) == close_top(frames_view(old(stack)@), bytes@),
        frames_fit(frames_view(final(stack)@), bytes@),
        final(stack)@.len() == if old(stack)@.len() > 1 {
            old(stack)@.len() - 1
        } else {
            old(stack)@.len() as int
        },
{
    if stack.len() <= 1 {
        return ;
    }
    let ghost before = frames_view(stack@);
    let top = stack.pop().unwrap();
    assert(frame_fits(before.last(), bytes@));
    let kind = build_construct(&top.opened, &top.range, &top.children, bytes);
    let node = SyntaxNode {
        kind,
        range: top.range,
        dest_url: take_address(top.opened),
        children: top.children,
    };
    proof {
        lemma_children_view(node);
        assert(node@ == closing_node(before, bytes@));
        assert(frames_view(stack@) =~= before.drop_last());
        assert forall|i: int| 0 <= i < before.drop_last().len() implies frame_fits(
            #[trigger] before.drop_last()[i],
            bytes@,
        ) by {
            assert(frame_fits(before[i], bytes@));
        }
    }
    add_child(stack, node, bytes);
}

fn next_start(stack: &Vec<OpenFrame>, bytes: &[u8]) -> (low: usize)
    requires
        stack@.len() > 0,
        opens_on_character(bytes@),
        frames_fit(frames_view(stack@), bytes@),
    ensures
        low == earliest_start(frames_view(stack@)),
        low <= bytes@.len(),
        boundary(bytes@, low as int),
{
    if stack.len() == 1 {
        let top = &stack[0];
        let count: usize = top.children.len();
        proof {
            assert(frame_fits(frames_view(stack@)[0], bytes@));
            assert(frames_view(stack@)[0] == frame_view(*top));
        }
        if count > 0 {
            let last = &top.children[count - 1];
            proof {
                assert(node_fits(nodes_view(top.children@)[count - 1], bytes@));
                assert(node_view(*last).range == last.range);
            }
            return last.range.end;
        }
    }
    0
}

/// The tree that a run of events describes over `markdown`. Its top-level
/// blocks come in order and do not overlap.
pub fn build_tree(
    events: &Vec<(EventKind, Range<usize>)>,
    openings: &Vec<Opening<String>>,
    markdown: &str,
) -> (tree: Vec<SyntaxNode>)
    ensures
        nodes_view(tree@) == tree_of(events@, openings_view(openings@), bytes_of(markdown@)),
        tree_fits(nodes_view(tree@), bytes_of(markdown@)),
        siblings_in_order(nodes_view(tree@)),
{
    let bytes = markdown.as_bytes();
    proof {
        lemma_text_opens_on_character(markdown@);
    }
    let size: usize = bytes.len();
    proof {
        lemma_tree_is_in_order(events@, openings_view(openings@), bytes@);
    }
    let ghost constructs = openings_view(openings@);
    let mut stack: Vec<OpenFrame> = Vec::new();
    stack.push(
        OpenFrame { opened: Opening::OpenOther, range: 0..size, children: Vec::new() },
    );
    proof {
        assert(nodes_view(stack@[0].children@) =~= Seq::<Node>::empty());
        assert(events@.take(0) =~= Seq::empty());
        assert(frames_view(stack@) =~= after_events(events@.take(0), constructs, bytes@));
        assert(frame_fits(frames_view(stack@)[0], bytes@));
    }
    let mut i: usize = 0;
    while i < events.len()
        invariant
            i <= events@.len(),
            size == bytes@.len(),
            stack@.len() > 0,
            opens_on_character(bytes@),
            bytes@ == bytes_of(markdown@),
            constructs == openings_view(openings@),
            frames_view(stack@) == after_events(events@.take(i as int), constructs, bytes@),
            frames_fit(frames_view(stack@), bytes@),
        decreases events@.len() - i,
    {
        let ghost before = frames_view(stack@);
        let kind = events[i].0;
        let low = next_start(&stack, bytes);
        let range = fit_range_after(bytes, low, &events[i].1);
        proof {
            lemma_fit_after(bytes@, low as int, events@[i as int].1);
            assert(events@.take(i + 1).drop_last() =~= events@.take(i as int));
            assert(events@.take(i + 1).last() == events@[i as int]);
        }
        match kind {
            EventKind::Open => {
                let opened = if i < openings.len() {
                    copy_opening(&openings[i])
                } else {
                    Opening::OpenOther
                };
                let frame = OpenFrame { opened, range, children: Vec::new() };
                proof {
                    assert(nodes_view(frame.children@) =~= Seq::<Node>::empty());
                }
                let ghost added = frame_view(frame);
                stack.push(frame);
                proof {
                    assert(frames_view(stack@) =~= before.push(added));
                    assert forall|j: int| 0 <= j < frames_view(stack@).len() implies frame_fits(
                        #[trigger] frames_view(stack@)[j],
                        bytes@,
                    ) by {
                        if j < before.len() {
                            assert(frame_fits(before[j], bytes@));
                        }
                    }
                }
            },
            EventKind::Close => {
                close_innermost(&mut stack, bytes);
            },
            _ => {
                let node = SyntaxNode {
                    kind: build_leaf(kind, &range, bytes),
                    range,
                    dest_url: String::new(),
                    children: Vec::new(),
                };
                proof {
                    lemma_children_view(node);
                    assert(nodes_view(node.children@) =~= Seq::<Node>::empty());
                    assert(node.dest_url@ =~= Seq::<char>::empty());
                }
                add_child(&mut stack, node, bytes);
            },
        }
        i = i + 1;
    }
    assert(events@.take(i as int) =~= events@);
    let ghost opened = frames_view(stack@);
    while stack.len() > 1
        invariant
            stack@.len() > 0,
            opens_on_character(bytes@),
            frames_fit(frames_view(stack@), bytes@),
            close_all(frames_view(stack@), bytes@) == close_all(opened, bytes@),
        decreases stack@.len(),
    {
        close_innermost(&mut stack, bytes);
    }
    let ghost last = frames_view(stack@);
    let root = stack.pop().unwrap();
    assert(frame_fits(last[0], bytes@));
    assert(last[0] == frame_view(root));
    root.children
}

/// Are the blocks of the document so far in order, and does the construct that
/// is open at the top level start after them?
spec fn document_in_order(stack: Seq<Frame>, b: Seq<u8>) -> bool {
    &&& stack.len() > 0
    &&& siblings_in_order(stack[0].children)
    &&& forall|i: int|
        0 <= i < stack[0].children.len() ==> on_characters(
            (#[trigger] stack[0].children[i]).range,
            b,
        )
    &&& stack.len() > 1 ==> on_characters(stack[1].range, b) && (stack[0].children.len() > 0
        ==> stack[0].children.last().range.end <= stack[1].range.start)
}

proof fn lemma_one_more_sibling(nodes: Seq<Node>, node: Node, b: Seq<u8>)
    requires
        siblings_in_order(nodes),
        forall|i: int| 0 <= i < nodes.len() ==> on_characters((#[trigger] nodes[i]).range, b),
        on_characters(node.range, b),
        nodes.len() > 0 ==> nodes.last().range.end <= node.range.start,
    ensures
        siblings_in_order(nodes.push(node)),
        forall|i: int|
            0 <= i < nodes.push(node).len() ==> on_characters(
                (#[trigger] nodes.push(node)[i]).range,
                b,
            ),
{
    let all = nodes.push(node);
    assert forall|i: int, j: int| 0 <= i < j < all.len() implies (#[trigger] all[i]).range.end <= (
    #[trigger] all[j]).range.start by {
        assert(all[i] == nodes[i]);
        if j < nodes.len() {
            assert(all[j] == nodes[j]);
        } else if i < nodes.len() - 1 {
            assert(nodes[i].range.end <= nodes[nodes.len() - 1].range.start);
        }
    }
}

proof fn lemma_close_in_order(stack: Seq<Frame>, b: Seq<u8>)
    requires
        document_in_order(stack, b),
    ensures
        document_in_order(close_top(stack, b), b),
        close_top(stack, b).len() == if stack.len() > 1 {
            stack.len() - 1
        } else {
            stack.len() as int
        },
{
    if stack.len() == 2 {
        lemma_one_more_sibling(stack[0].children, closing_node(stack, b), b);
    }
}

proof fn lemma_event_in_order(
    stack: Seq<Frame>,
    event: (EventKind, Range<usize>),
    opening: Opening<Seq<char>>,
    b: Seq<u8>,
)
    requires
        document_in_order(stack, b),
        opens_on_character(b),
        b.len() <= usize::MAX,
    ensures
        document_in_order(after_event(stack, event, opening, b), b),
{
    let low = earliest_start(stack);
    if stack.len() == 1 && stack[0].children.len() > 0 {
        assert(on_characters(stack[0].children[stack[0].children.len() - 1].range, b));
    }
    lemma_fit_after(b, low, event.1);
    let r = fit_after(b, low, event.1);
    match event.0 {
        EventKind::Open => {},
        EventKind::Close => {
            lemma_close_in_order(stack, b);
        },
        _ => {
            if stack.len() == 1 {
                let node = Node {
                    kind: leaf(event.0, r, b),
                    range: r,
                    dest_url: Seq::empty(),
                    children: Seq::empty(),
                };
                lemma_one_more_sibling(stack[0].children, node, b);
            }
        },
    }
}

proof fn lemma_events_in_order(
    events: Seq<(EventKind, Range<usize>)>,
    openings: Seq<Opening<Seq<char>>>,
    b: Seq<u8>,
)
    requires
        opens_on_character(b),
        b.len() <= usize::MAX,
    ensures
        document_in_order(after_events(events, openings, b), b),
    decreases events.len(),
{
    if events.len() > 0 {
        lemma_events_in_order(events.drop_last(), openings, b);
        lemma_event_in_order(
            after_events(events.drop_last(), openings, b),
            events.last(),
            opening_at(openings, events.len() - 1),
            b,
        );
    }
}

proof fn lemma_closed_in_order(stack: Seq<Frame>, b: Seq<u8>)
    requires
        document_in_order(stack, b),
    ensures
        document_in_order(close_all(stack, b), b),
    decreases stack.len(),
{
    if stack.len() > 1 {
        lemma_close_in_order(stack, b);
        lemma_closed_in_order(close_top(stack, b), b);
    }
}

proof fn lemma_tree_is_in_order(
    events: Seq<(EventKind, Range<usize>)>,
    openings: Seq<Opening<Seq<char>>>,
    b: Seq<u8>,
)
    requires
        opens_on_character(b),
        b.len() <= usize::MAX,
    ensures
        siblings_in_order(tree_of(events, openings, b)),
        ranges_fit(tree_of(events, openings, b), b),
{
    lemma_events_in_order(events, openings, b);
    lemma_closed_in_order(after_events(events, openings, b), b);
}

/// The top-level blocks of every text come in order, do not overlap, and lie in
/// the text.
pub proof fn blocks_come_in_order(text: Seq<char>)
    requires
        bytes_of(text).len() <= usize::MAX,
    ensures
        siblings_in_order(syntax_tree(text)),
        ranges_fit(syntax_tree(text), bytes_of(text)),
{
    lemma_text_opens_on_character(text);
    lemma_tree_is_in_order(
        markdown_events(text, EXTENSIONS),
        markdown_openings(text, EXTENSIONS),
        bytes_of(text),
    );
}

/// A text never begins inside a character.
pub proof fn lemma_text_opens_on_character(text: Seq<char>)
    ensures
        opens_on_character(bytes_of(text)),
{
    vstd::utf8::encode_utf8_valid_utf8(text);
    let b = bytes_of(text);
    if b.len() > 0 {
        vstd::utf8::is_char_boundary_iff_not_is_continuation_byte(b, 0);
    }
}

/// Is the text, where it is two bulleted words, read as one list of two items or
/// as an item below an item?
pub open spec fn reads_bullets(text: Seq<char>) -> bool {
    &&& forall|first: Seq<char>, second: Seq<char>|
        is_word(first) && is_word(second) && text == #[trigger] two_items(first, second)
            ==> syntax_tree(text) == two_items_tree(first.len() as int, second.len() as int)
    &&& forall|first: Seq<char>, second: Seq<char>|
        is_word(first) && is_word(second) && text == #[trigger] item_below(first, second)
            ==> syntax_tree(text) == item_below_tree(first.len() as int, second.len() as int)
}

/// Parses `markdown` into its syntax tree. Two bulleted words on two lines are
/// one list of two items, or an item below an item where the second bullet is
/// indented by two.
pub fn parse(markdown: &str) -> (tree: Vec<SyntaxNode>)
    ensures
        reads_bullets(markdown@),
        nodes_view(tree@) == syntax_tree(markdown@),
        tree_fits(nodes_view(tree@), bytes_of(markdown@)),
        siblings_in_order(nodes_view(tree@)),
{
    let events = read_events(markdown, EXTENSIONS);
    let openings = read_openings(markdown, EXTENSIONS);
    let size: usize = markdown.as_bytes().len();
    proof {
        assert(size == bytes_of(markdown@).len());
        assert forall|first: Seq<char>, second: Seq<char>|
            is_word(first) && is_word(second) && markdown@ == #[trigger] two_items(
                first,
                second,
            ) implies syntax_tree(markdown@) == two_items_tree(
            first.len() as int,
            second.len() as int,
        ) by {
            lemma_two_items_bytes(first, second);
            lemma_two_items_tree(
                bytes_of(markdown@),
                first.len() as int,
                second.len() as int,
            );
        }
        assert forall|first: Seq<char>, second: Seq<char>|
            is_word(first) && is_word(second) && markdown@ == #[trigger] item_below(
                first,
                second,
            ) implies syntax_tree(markdown@) == item_below_tree(
            first.len() as int,
            second.len() as int,
        ) by {
            lemma_item_below_bytes(first, second);
            lemma_item_below_tree(
                bytes_of(markdown@),
                first.len() as int,
                second.len() as int,
            );
        }
    }
    build_tree(&events, &openings, markdown)
}

} // verus!
