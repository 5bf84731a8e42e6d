//! The syntax tree of a document.

use core::ops::Range;

use vstd::prelude::*;

use crate::text::boundary;

verus! {

/// Unordered (bullets), or ordered from a first number.
#[derive(Debug, Clone, Copy, PartialEq, Eq, Structural)]
pub enum ListKind {
    Unordered,
    Ordered { start: u64 },
}

/// What a node is. Ranges are byte ranges of the source.
#[derive(Debug)]
pub enum NodeKind {
    Paragraph,
    /// `content_range` reaches from the first child to the last.
    Heading { level: u8, content_range: Range<usize> },
    /// A fenced code block. `end_fence` is absent while the block is unterminated;
    /// `info_range` is the rest of the opening line.
    CodeBlock {
        fence: Range<usize>,
        end_fence: Option<Range<usize>>,
        info_range: Range<usize>,
        content_range: Range<usize>,
    },
    BlockQuote,
    List { kind: ListKind },
    /// `marker_range` is the marker with one space after it (`- `, `1. `).
    ListItem { marker_range: Range<usize> },
    /// The checkbox of a task item.
    TaskMarker { checked: bool },
    Table,
    TableRow { is_header: bool },
    TableCell,
    ThematicBreak,
    Text,
    Strong { content_range: Range<usize>, opener: Range<usize>, closer: Range<usize> },
    Emphasis { content_range: Range<usize>, opener: Range<usize>, closer: Range<usize> },
    Strikethrough,
    InlineCode { content_range: Range<usize> },
    InlineMath { content_range: Range<usize> },
    DisplayMath { content_range: Range<usize> },
    /// `destination` is what follows the link text: `](url)`.
    Link { destination: Range<usize> },
    Image { destination: Range<usize> },
    /// A soft or hard line break inside a paragraph.
    LineBreak,
    Html,
}

#[derive(Debug)]
pub struct SyntaxNode {
    pub kind: NodeKind,
    pub range: Range<usize>,
    /// The address of a link or an image; empty for other nodes.
    pub dest_url: String,
    pub children: Vec<SyntaxNode>,
}

/// The mathematical form of a [`SyntaxNode`].
#[verifier::ext_equal]
pub struct Node {
    pub kind: NodeKind,
    pub range: Range<usize>,
    pub dest_url: Seq<char>,
    pub children: Seq<Node>,
}

pub open spec fn node_view(n: SyntaxNode) -> Node
    decreases n,
{
    Node {
        kind: n.kind,
        range: n.range,
        dest_url: n.dest_url@,
        children: Seq::new(
            n.children@.len(),
            |i: int|
                if 0 <= i < n.children@.len() {
                    node_view(n.children@[i])
                } else {
                    arbitrary()
                },
        ),
    }
}

/// The mathematical form of a list of siblings.
pub open spec fn nodes_view(nodes: Seq<SyntaxNode>) -> Seq<Node> {
    Seq::new(nodes.len(), |i: int| node_view(nodes[i]))
}

impl View for SyntaxNode {
    type V = Node;

    open spec fn view(&self) -> Node {
        node_view(*self)
    }
}

pub broadcast proof fn lemma_children_view(n: SyntaxNode)
    ensures
        #[trigger] node_view(n).children == nodes_view(n.children@),
{
    assert(node_view(n).children =~= nodes_view(n.children@));
}

/// Does the range lie in the buffer `b`?
pub open spec fn in_buffer(r: Range<usize>, b: Seq<u8>) -> bool {
    r.start <= r.end <= b.len()
}

/// Does the range lie in the buffer, from character boundary to boundary?
pub open spec fn on_characters(r: Range<usize>, b: Seq<u8>) -> bool {
    in_buffer(r, b) && boundary(b, r.start as int) && boundary(b, r.end as int)
}

/// Do the ranges of this node alone lie in the buffer?
pub open spec fn kind_fits(kind: NodeKind, b: Seq<u8>) -> bool {
    match kind {
        NodeKind::Heading { content_range, .. } => on_characters(content_range, b),
        NodeKind::CodeBlock { fence, end_fence, info_range, content_range } => {
            &&& in_buffer(fence, b)
            &&& end_fence matches Some(c) ==> in_buffer(c, b)
            &&& in_buffer(info_range, b)
            &&& in_buffer(content_range, b)
        },
        NodeKind::ListItem { marker_range } => in_buffer(marker_range, b),
        NodeKind::Strong { content_range, opener, closer } => {
            &&& on_characters(content_range, b)
            &&& on_characters(opener, b)
            &&& on_characters(closer, b)
        },
        NodeKind::Emphasis { content_range, opener, closer } => {
            &&& on_characters(content_range, b)
            &&& on_characters(opener, b)
            &&& on_characters(closer, b)
        },
        NodeKind::InlineCode { content_range } => in_buffer(content_range, b),
        NodeKind::InlineMath { content_range } => in_buffer(content_range, b),
        NodeKind::DisplayMath { content_range } => in_buffer(content_range, b),
        NodeKind::Link { destination } => in_buffer(destination, b),
        NodeKind::Image { destination } => in_buffer(destination, b),
        _ => true,
    }
}

/// Does the marker of a list item open the item?
pub open spec fn marker_opens_item(kind: NodeKind, range: Range<usize>) -> bool {
    kind matches NodeKind::ListItem { marker_range } ==> marker_range.start == range.start
        && marker_range.end <= range.end
}

/// Do all ranges of the node and of its descendants lie in the buffer `b`?
pub open spec fn node_fits(n: Node, b: Seq<u8>) -> bool
    decreases n,
{
    &&& on_characters(n.range, b)
    &&& kind_fits(n.kind, b)
    &&& marker_opens_item(n.kind, n.range)
    &&& forall|i: int| 0 <= i < n.children.len() ==> node_fits(#[trigger] n.children[i], b)
}

/// Does each node end before the next one starts?
pub open spec fn siblings_in_order(nodes: Seq<Node>) -> bool {
    forall|i: int, j: int|
        0 <= i < j < nodes.len() ==> (#[trigger] nodes[i]).range.end <= (
        #[trigger] nodes[j]).range.start
}

/// Do the ranges of the siblings lie in the buffer `b`?
pub open spec fn ranges_fit(nodes: Seq<Node>, b: Seq<u8>) -> bool {
    forall|i: int| 0 <= i < nodes.len() ==> in_buffer((#[trigger] nodes[i]).range, b)
}

/// Do all ranges of the tree lie in the buffer `b`?
pub open spec fn tree_fits(nodes: Seq<Node>, b: Seq<u8>) -> bool {
    forall|i: int| 0 <= i < nodes.len() ==> node_fits(#[trigger] nodes[i], b)
}

} // verus!
