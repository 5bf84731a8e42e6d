//! What a toggle must not change: the blocks, the protected inline constructs,
//! the escapes and the embeds.

use core::ops::Range;

use vstd::prelude::*;

use crate::embed::EmbedBlock;
use crate::escapes::{scan, spans_from, spans_view, ResolvedSpan, Span};
use crate::formatting::ranges::{merge_ranges, merged};
use crate::syntax::{lemma_children_view, nodes_view, ListKind, Node, NodeKind, SyntaxNode};
use crate::text::bytes_of;

verus! {

#[derive(Debug, Clone, Copy, PartialEq, Eq, Structural)]
pub enum MarkKind {
    Paragraph,
    SoleImage,
    Heading,
    Code,
    BlockQuote,
    Bullets,
    Numbers,
    Item,
    Task,
    Table,
    Row,
    Cell,
    Rule,
    Link,
    Image,
    CodeSpan,
    Math,
    DisplayMath,
    CodeInfo,
    CodeText,
    Source,
    Display,
    Embed,
}

/// One entry of a fingerprint.
#[derive(Debug, PartialEq, Eq)]
pub struct Mark {
    pub kind: MarkKind,
    pub number: u64,
    pub bytes: Vec<u8>,
}

/// The mathematical form of a [`Mark`].
#[verifier::ext_equal]
pub struct Sign {
    pub kind: MarkKind,
    pub number: u64,
    pub bytes: Seq<u8>,
}

impl View for Mark {
    type V = Sign;

    open spec fn view(&self) -> Sign {
        Sign { kind: self.kind, number: self.number, bytes: self.bytes@ }
    }
}

/// The mathematical form of a fingerprint.
pub open spec fn marks_view(marks: Seq<Mark>) -> Seq<Sign> {
    Seq::new(marks.len(), |i: int| marks[i]@)
}

/// An entry that is a kind and a number alone.
pub open spec fn sign(kind: MarkKind, number: u64) -> Sign {
    Sign { kind, number, bytes: Seq::empty() }
}

/// An entry with bytes.
pub open spec fn text_sign(kind: MarkKind, bytes: Seq<u8>) -> Sign {
    Sign { kind, number: 0, bytes }
}

/// The bytes of a range; none where the range is not in the buffer.
pub open spec fn bytes_in(b: Seq<u8>, r: Range<usize>) -> Seq<u8> {
    if r.start <= r.end <= b.len() {
        b.subrange(r.start as int, r.end as int)
    } else {
        Seq::empty()
    }
}

fn copy_bytes(bytes: &[u8], r: &Range<usize>) -> (copy: Vec<u8>)
    ensures
        copy@ == bytes_in(bytes@, *r),
{
    let mut copy: Vec<u8> = Vec::new();
    if r.start <= r.end && r.end <= bytes.len() {
        let mut i: usize = r.start;
        while i < r.end
            invariant
                r.start <= i <= r.end <= bytes@.len(),
                copy@ =~= bytes@.subrange(r.start as int, i as int),
            decreases r.end - i,
        {
            copy.push(bytes[i]);
            i = i + 1;
        }
    }
    assert(copy@ =~= bytes_in(bytes@, *r));
    copy
}

fn push_mark(out: &mut Vec<Mark>, kind: MarkKind, number: u64)
    ensures
        marks_view(final(out)@) == marks_view(old(out)@).push(sign(kind, number)),
{
    let ghost before = marks_view(out@);
    let bytes: Vec<u8> = Vec::new();
    assert(bytes@ =~= Seq::empty());
    out.push(Mark { kind, number, bytes });
    assert(marks_view(out@) =~= before.push(sign(kind, number)));
}

fn push_bytes(out: &mut Vec<Mark>, kind: MarkKind, bytes: Vec<u8>)
    ensures
        marks_view(final(out)@) == marks_view(old(out)@).push(text_sign(kind, bytes@)),
{
    let ghost before = marks_view(out@);
    let ghost added = text_sign(kind, bytes@);
    out.push(Mark { kind, number: 0, bytes });
    assert(marks_view(out@) =~= before.push(added));
}

fn push_text(out: &mut Vec<Mark>, kind: MarkKind, text: &str)
    ensures
        marks_view(final(out)@) == marks_view(old(out)@).push(text_sign(kind, bytes_of(text@))),
{
    let bytes = text.as_bytes();
    let all = copy_bytes(bytes, &(0..bytes.len()));
    assert(all@ =~= bytes_of(text@));
    push_bytes(out, kind, all);
}

fn same_bytes(a: &Vec<u8>, c: &Vec<u8>) -> (same: bool)
    ensures
        same == (a@ == c@),
{
    if a.len() != c.len() {
        return false;
    }
    let mut i: usize = 0;
    while i < a.len()
        invariant
            i <= a@.len() == c@.len(),
            forall|j: int| 0 <= j < i ==> a@[j] == c@[j],
        decreases a@.len() - i,
    {
        if a[i] != c[i] {
            return false;
        }
        i = i + 1;
    }
    assert(a@ =~= c@);
    true
}

/// Are the fingerprints the same?
pub fn same_marks(a: &Vec<Mark>, c: &Vec<Mark>) -> (same: bool)
    ensures
        same == (marks_view(a@) == marks_view(c@)),
{
    let ghost x = marks_view(a@);
    let ghost y = marks_view(c@);
    if a.len() != c.len() {
        assert(x.len() != y.len());
        return false;
    }
    let mut i: usize = 0;
    while i < a.len()
        invariant
            i <= a@.len() == c@.len(),
            x == marks_view(a@),
            y == marks_view(c@),
            forall|j: int| 0 <= j < i ==> x[j] == y[j],
        decreases a@.len() - i,
    {
        assert(x[i as int] == a@[i as int]@);
        assert(y[i as int] == c@[i as int]@);
        if a[i].kind != c[i].kind || a[i].number != c[i].number || !same_bytes(
            &a[i].bytes,
            &c[i].bytes,
        ) {
            assert(x[i as int] != y[i as int]);
            return false;
        }
        i = i + 1;
    }
    assert(x =~= y);
    true
}

// ---------------------------------------------------------------------------
// Blocks
// ---------------------------------------------------------------------------

/// The address of the only image among the children from `k` on, line breaks
/// apart; `found` is the one before.
pub open spec fn sole_image_from(children: Seq<Node>, k: int, found: Option<Seq<char>>) -> Option<
    Seq<char>,
>
    decreases children.len() - k,
{
    if k >= children.len() {
        found
    } else {
        match children[k].kind {
            NodeKind::Image { .. } => if found is None {
                sole_image_from(children, k + 1, Some(children[k].dest_url))
            } else {
                None
            },
            NodeKind::LineBreak => sole_image_from(children, k + 1, found),
            _ => None,
        }
    }
}

/// The address of the image that the paragraph consists of.
pub open spec fn sole_image(children: Seq<Node>) -> Option<Seq<char>> {
    sole_image_from(children, 0, None)
}

/// The entry of a block for itself.
pub open spec fn block_sign(node: Node) -> Seq<Sign> {
    match node.kind {
        NodeKind::Paragraph => match sole_image(node.children) {
            Some(url) => seq![text_sign(MarkKind::SoleImage, bytes_of(url))],
            None => seq![sign(MarkKind::Paragraph, 0)],
        },
        NodeKind::Heading { level, .. } => seq![sign(MarkKind::Heading, level as u64)],
        NodeKind::CodeBlock { .. } => seq![sign(MarkKind::Code, 0)],
        NodeKind::BlockQuote => seq![sign(MarkKind::BlockQuote, 0)],
        NodeKind::List { kind } => match kind {
            ListKind::Unordered => seq![sign(MarkKind::Bullets, 0)],
            ListKind::Ordered { start } => seq![sign(MarkKind::Numbers, start)],
        },
        NodeKind::ListItem { .. } => seq![sign(MarkKind::Item, 0)],
        NodeKind::TaskMarker { checked } => seq![
            sign(
                MarkKind::Task,
                if checked {
                    1
                } else {
                    0
                },
            ),
        ],
        NodeKind::Table => seq![sign(MarkKind::Table, 0)],
        NodeKind::TableRow { is_header } => seq![
            sign(
                MarkKind::Row,
                if is_header {
                    1
                } else {
                    0
                },
            ),
        ],
        NodeKind::TableCell => seq![sign(MarkKind::Cell, 0)],
        NodeKind::ThematicBreak => seq![sign(MarkKind::Rule, 0)],
        _ => Seq::empty(),
    }
}

/// The blocks of a tree, outer ones before the inner ones.
pub open spec fn block_signs(nodes: Seq<Node>) -> Seq<Sign>
    decreases nodes,
{
    if nodes.len() == 0 {
        Seq::empty()
    } else {
        block_signs(nodes.drop_last()) + block_sign(nodes.last()) + block_signs(
            nodes.last().children,
        )
    }
}

fn find_sole_image(children: &Vec<SyntaxNode>) -> (found: Option<usize>)
    ensures
        match found {
            Some(k) => k < children@.len() && children@[k as int].kind is Image && sole_image(
                nodes_view(children@),
            ) == Some(children@[k as int].dest_url@),
            None => sole_image(nodes_view(children@)) is None,
        },
{
    let ghost all = nodes_view(children@);
    let mut image: Option<usize> = None;
    let ghost mut url: Option<Seq<char>> = None;
    let mut k: usize = 0;
    while k < children.len()
        invariant
            k <= children@.len(),
            all == nodes_view(children@),
            sole_image(all) == sole_image_from(all, k as int, url),
            match image {
                Some(i) => i < children@.len() && children@[i as int].kind is Image && url == Some(
                    children@[i as int].dest_url@,
                ),
                None => url is None,
            },
        decreases children@.len() - k,
    {
        assert(all[k as int] == children@[k as int]@);
        match &children[k].kind {
            NodeKind::Image { .. } => {
                if image.is_some() {
                    return None;
                }
                image = Some(k);
                proof {
                    url = Some(children@[k as int].dest_url@);
                }
            },
            NodeKind::LineBreak => {},
            _ => {
                return None;
            },
        }
        k = k + 1;
    }
    image
}

fn push_block_mark(node: &SyntaxNode, out: &mut Vec<Mark>)
    ensures
        marks_view(final(out)@) == marks_view(old(out)@) + block_sign(node@),
{
    let ghost before = marks_view(out@);
    proof {
        lemma_children_view(*node);
    }
    match &node.kind {
        NodeKind::Paragraph => match find_sole_image(&node.children) {
            Some(k) => {
                push_text(out, MarkKind::SoleImage, node.children[k].dest_url.as_str());
            },
            None => {
                push_mark(out, MarkKind::Paragraph, 0);
            },
        },
        NodeKind::Heading { level, .. } => {
            push_mark(out, MarkKind::Heading, *level as u64);
        },
        NodeKind::CodeBlock { .. } => {
            push_mark(out, MarkKind::Code, 0);
        },
        NodeKind::BlockQuote => {
            push_mark(out, MarkKind::BlockQuote, 0);
        },
        NodeKind::List { kind } => match kind {
            ListKind::Unordered => {
                push_mark(out, MarkKind::Bullets, 0);
            },
            ListKind::Ordered { start } => {
                push_mark(out, MarkKind::Numbers, *start);
            },
        },
        NodeKind::ListItem { .. } => {
            push_mark(out, MarkKind::Item, 0);
        },
        NodeKind::TaskMarker { checked } => {
            push_mark(
                out,
                MarkKind::Task,
                if *checked {
                    1
                } else {
                    0
                },
            );
        },
        NodeKind::Table => {
            push_mark(out, MarkKind::Table, 0);
        },
        NodeKind::TableRow { is_header } => {
            push_mark(
                out,
                MarkKind::Row,
                if *is_header {
                    1
                } else {
                    0
                },
            );
        },
        NodeKind::TableCell => {
            push_mark(out, MarkKind::Cell, 0);
        },
        NodeKind::ThematicBreak => {
            push_mark(out, MarkKind::Rule, 0);
        },
        _ => {},
    }
    assert(marks_view(out@) =~= before + block_sign(node@));
}

fn fingerprint_walk(nodes: &Vec<SyntaxNode>, out: &mut Vec<Mark>)
    ensures
        marks_view(final(out)@) == marks_view(old(out)@) + block_signs(nodes_view(nodes@)),
    decreases nodes_view(nodes@),
{
    let ghost before = marks_view(out@);
    let ghost all = nodes_view(nodes@);
    assert(all.take(0) =~= Seq::empty());
    let mut i: usize = 0;
    while i < nodes.len()
        invariant
            i <= nodes@.len(),
            all == nodes_view(nodes@),
            marks_view(out@) =~= before + block_signs(all.take(i as int)),
        decreases nodes@.len() - i,
    {
        let node = &nodes[i];
        proof {
            assert(all.take(i + 1).drop_last() =~= all.take(i as int));
            assert(all.take(i + 1).last() == all[i as int]);
            assert(all[i as int] == node@);
            lemma_children_view(*node);
        }
        push_block_mark(node, out);
        fingerprint_walk(&node.children, out);
        i = i + 1;
    }
    assert(all.take(i as int) =~= all);
}

/// The blocks of a tree.
pub fn block_fingerprint(nodes: &Vec<SyntaxNode>) -> (marks: Vec<Mark>)
    ensures
        marks_view(marks@) == block_signs(nodes_view(nodes@)),
{
    let mut out: Vec<Mark> = Vec::new();
    fingerprint_walk(nodes, &mut out);
    assert(marks_view(out@) =~= block_signs(nodes_view(nodes@)));
    out
}

// ---------------------------------------------------------------------------
// Protected inline constructs
// ---------------------------------------------------------------------------

/// The entries of a protected construct for itself.
pub open spec fn protected_sign(node: Node, b: Seq<u8>) -> Seq<Sign> {
    match node.kind {
        NodeKind::Link { .. } => seq![text_sign(MarkKind::Link, bytes_of(node.dest_url))],
        NodeKind::Image { .. } => seq![text_sign(MarkKind::Image, bytes_of(node.dest_url))],
        NodeKind::InlineCode { content_range } => seq![
            text_sign(MarkKind::CodeSpan, bytes_in(b, content_range)),
        ],
        NodeKind::InlineMath { content_range } => seq![
            text_sign(MarkKind::Math, bytes_in(b, content_range)),
        ],
        NodeKind::DisplayMath { content_range } => seq![
            text_sign(MarkKind::DisplayMath, bytes_in(b, content_range)),
        ],
        NodeKind::CodeBlock { info_range, content_range, .. } => seq![
            text_sign(MarkKind::CodeInfo, bytes_in(b, info_range)),
            text_sign(MarkKind::CodeText, bytes_in(b, content_range)),
        ],
        _ => Seq::empty(),
    }
}

/// The links, images, code and math of a tree.
pub open spec fn protected_signs(nodes: Seq<Node>, b: Seq<u8>) -> Seq<Sign>
    decreases nodes,
{
    if nodes.len() == 0 {
        Seq::empty()
    } else {
        protected_signs(nodes.drop_last(), b) + protected_sign(nodes.last(), b) + protected_signs(
            nodes.last().children,
            b,
        )
    }
}

fn push_protected_mark(node: &SyntaxNode, bytes: &[u8], out: &mut Vec<Mark>)
    ensures
        marks_view(final(out)@) == marks_view(old(out)@) + protected_sign(node@, bytes@),
{
    let ghost before = marks_view(out@);
    match &node.kind {
        NodeKind::Link { .. } => {
            push_text(out, MarkKind::Link, node.dest_url.as_str());
        },
        NodeKind::Image { .. } => {
            push_text(out, MarkKind::Image, node.dest_url.as_str());
        },
        NodeKind::InlineCode { content_range } => {
            push_bytes(out, MarkKind::CodeSpan, copy_bytes(bytes, content_range));
        },
        NodeKind::InlineMath { content_range } => {
            push_bytes(out, MarkKind::Math, copy_bytes(bytes, content_range));
        },
        NodeKind::DisplayMath { content_range } => {
            push_bytes(out, MarkKind::DisplayMath, copy_bytes(bytes, content_range));
        },
        NodeKind::CodeBlock { info_range, content_range, .. } => {
            push_bytes(out, MarkKind::CodeInfo, copy_bytes(bytes, info_range));
            push_bytes(out, MarkKind::CodeText, copy_bytes(bytes, content_range));
        },
        _ => {},
    }
    assert(marks_view(out@) =~= before + protected_sign(node@, bytes@));
}

fn protected_inline_walk(nodes: &Vec<SyntaxNode>, bytes: &[u8], out: &mut Vec<Mark>)
    ensures
        marks_view(final(out)@) == marks_view(old(out)@) + protected_signs(
            nodes_view(nodes@),
            bytes@,
        ),
    decreases nodes_view(nodes@),
{
    let ghost before = marks_view(out@);
    let ghost all = nodes_view(nodes@);
    assert(all.take(0) =~= Seq::empty());
    let mut i: usize = 0;
    while i < nodes.len()
        invariant
            i <= nodes@.len(),
            all == nodes_view(nodes@),
            marks_view(out@) =~= before + protected_signs(all.take(i as int), bytes@),
        decreases nodes@.len() - i,
    {
        let node = &nodes[i];
        proof {
            assert(all.take(i + 1).drop_last() =~= all.take(i as int));
            assert(all.take(i + 1).last() == all[i as int]);
            assert(all[i as int] == node@);
            lemma_children_view(*node);
        }
        push_protected_mark(node, bytes, out);
        protected_inline_walk(&node.children, bytes, out);
        i = i + 1;
    }
    assert(all.take(i as int) =~= all);
}

/// The links, images, code and math of a tree.
pub fn protected_inline_fingerprint(bytes: &[u8], nodes: &Vec<SyntaxNode>) -> (marks: Vec<Mark>)
    ensures
        marks_view(marks@) == protected_signs(nodes_view(nodes@), bytes@),
{
    let mut out: Vec<Mark> = Vec::new();
    protected_inline_walk(nodes, bytes, &mut out);
    assert(marks_view(out@) =~= protected_signs(nodes_view(nodes@), bytes@));
    out
}

// ---------------------------------------------------------------------------
// Escapes and character references
// ---------------------------------------------------------------------------

/// The range of a node in which escapes are literal.
pub open spec fn literal_range(node: Node) -> Seq<Range<usize>> {
    match node.kind {
        NodeKind::CodeBlock { .. } => seq![node.range],
        NodeKind::InlineCode { .. } => seq![node.range],
        NodeKind::InlineMath { .. } => seq![node.range],
        NodeKind::DisplayMath { .. } => seq![node.range],
        NodeKind::Link { destination, .. } => seq![destination],
        NodeKind::Image { destination, .. } => seq![destination],
        _ => Seq::empty(),
    }
}

/// The ranges of a tree in which escapes are literal.
pub open spec fn literal_ranges(nodes: Seq<Node>) -> Seq<Range<usize>>
    decreases nodes,
{
    if nodes.len() == 0 {
        Seq::empty()
    } else {
        literal_ranges(nodes.drop_last()) + literal_range(nodes.last()) + literal_ranges(
            nodes.last().children,
        )
    }
}

/// The entries of the escapes and references.
pub open spec fn span_signs(spans: Seq<Span>, b: Seq<u8>) -> Seq<Sign>
    decreases spans.len(),
{
    if spans.len() == 0 {
        Seq::empty()
    } else {
        span_signs(spans.drop_last(), b).push(
            text_sign(MarkKind::Source, bytes_in(b, spans.last().range)),
        ).push(text_sign(MarkKind::Display, bytes_of(spans.last().text)))
    }
}

/// The escapes and references of a text.
pub open spec fn resolved_signs(b: Seq<u8>, nodes: Seq<Node>) -> Seq<Sign> {
    span_signs(spans_from(b, 0, b.len() as int, merged(literal_ranges(nodes))), b)
}

fn collect_literal_ranges(nodes: &Vec<SyntaxNode>, out: &mut Vec<Range<usize>>)
    ensures
        final(out)@ == old(out)@ + literal_ranges(nodes_view(nodes@)),
    decreases nodes_view(nodes@),
{
    let ghost before = out@;
    let ghost all = nodes_view(nodes@);
    assert(all.take(0) =~= Seq::empty());
    let mut i: usize = 0;
    while i < nodes.len()
        invariant
            i <= nodes@.len(),
            all == nodes_view(nodes@),
            out@ =~= before + literal_ranges(all.take(i as int)),
        decreases nodes@.len() - i,
    {
        let node = &nodes[i];
        proof {
            assert(all.take(i + 1).drop_last() =~= all.take(i as int));
            assert(all.take(i + 1).last() == all[i as int]);
            assert(all[i as int] == node@);
            lemma_children_view(*node);
        }
        let ghost so_far = out@;
        let range = node.range.start..node.range.end;
        match &node.kind {
            NodeKind::CodeBlock { .. } => {
                out.push(range);
            },
            NodeKind::InlineCode { .. } => {
                out.push(range);
            },
            NodeKind::InlineMath { .. } => {
                out.push(range);
            },
            NodeKind::DisplayMath { .. } => {
                out.push(range);
            },
            NodeKind::Link { destination, .. } => {
                out.push(destination.start..destination.end);
            },
            NodeKind::Image { destination, .. } => {
                out.push(destination.start..destination.end);
            },
            _ => {},
        }
        assert(out@ =~= so_far + literal_range(node@));
        collect_literal_ranges(&node.children, out);
        i = i + 1;
    }
    assert(all.take(i as int) =~= all);
}

/// The ranges of a tree in which escapes are literal, as ranges that lie apart.
pub fn formatting_verbatim_ranges(tree: &Vec<SyntaxNode>) -> (ranges: Vec<Range<usize>>)
    ensures
        ranges@ == merged(literal_ranges(nodes_view(tree@))),
{
    let mut out: Vec<Range<usize>> = Vec::new();
    collect_literal_ranges(tree, &mut out);
    assert(out@ =~= literal_ranges(nodes_view(tree@)));
    merge_ranges(out)
}

fn span_marks(spans: &Vec<ResolvedSpan>, bytes: &[u8]) -> (marks: Vec<Mark>)
    ensures
        marks_view(marks@) == span_signs(spans_view(spans@), bytes@),
{
    let ghost all = spans_view(spans@);
    let mut out: Vec<Mark> = Vec::new();
    let mut i: usize = 0;
    assert(marks_view(out@) =~= span_signs(all.take(0), bytes@));
    while i < spans.len()
        invariant
            i <= spans@.len(),
            all == spans_view(spans@),
            marks_view(out@) == span_signs(all.take(i as int), bytes@),
        decreases spans@.len() - i,
    {
        proof {
            assert(all.take(i + 1).drop_last() =~= all.take(i as int));
            assert(all.take(i + 1).last() == spans@[i as int]@);
        }
        push_bytes(&mut out, MarkKind::Source, copy_bytes(bytes, &spans[i].source_range));
        push_text(&mut out, MarkKind::Display, spans[i].display.as_str());
        i = i + 1;
    }
    assert(all.take(i as int) =~= all);
    out
}

/// The escapes and references of a text.
pub fn resolved_span_fingerprint(bytes: &[u8], tree: &Vec<SyntaxNode>) -> (marks: Vec<Mark>)
    ensures
        marks_view(marks@) == resolved_signs(bytes@, nodes_view(tree@)),
{
    let verbatim = formatting_verbatim_ranges(tree);
    let spans = scan(bytes, 0..bytes.len(), verbatim.as_slice());
    span_marks(&spans, bytes)
}

// ---------------------------------------------------------------------------
// Embeds
// ---------------------------------------------------------------------------

/// The entries of the embed blocks.
pub open spec fn embed_signs(blocks: Seq<EmbedBlock>, b: Seq<u8>) -> Seq<Sign> {
    Seq::new(
        blocks.len(),
        |i: int|
            Sign {
                kind: MarkKind::Embed,
                number: blocks[i].ordinal,
                bytes: bytes_in(b, blocks[i].range),
            },
    )
}

/// The embed blocks of a text.
pub fn embed_fingerprint(bytes: &[u8], blocks: &Vec<EmbedBlock>) -> (marks: Vec<Mark>)
    ensures
        marks_view(marks@) == embed_signs(blocks@, bytes@),
{
    let ghost all = embed_signs(blocks@, bytes@);
    let mut out: Vec<Mark> = Vec::new();
    let mut i: usize = 0;
    while i < blocks.len()
        invariant
            i <= blocks@.len(),
            all == embed_signs(blocks@, bytes@),
            marks_view(out@) =~= all.take(i as int),
        decreases blocks@.len() - i,
    {
        let ghost before = marks_view(out@);
        out.push(
            Mark {
                kind: MarkKind::Embed,
                number: blocks[i].ordinal,
                bytes: copy_bytes(bytes, &blocks[i].range),
            },
        );
        assert(marks_view(out@) =~= before.push(all[i as int]));
        i = i + 1;
    }
    assert(marks_view(out@) =~= all);
    out
}

} // verus!
