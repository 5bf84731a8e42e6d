//! What a toggle leaves alone: the blocks of the document, its links, images,
//! code and formulas, and its embeds.

use core::ops::Range;

use vstd::prelude::*;

use crate::embed::blocks_of;
use crate::escapes::Span;
use crate::formatting::atoms::InlineFormat;
use crate::formatting::fingerprint::{
    block_sign,
    block_signs,
    embed_signs,
    literal_range,
    literal_ranges,
    protected_sign,
    protected_signs,
    sole_image,
    sole_image_from,
    span_signs,
    Sign,
};
use crate::formatting::toggle::toggled;
use crate::parser::syntax_tree;
use crate::state::Document;
use crate::syntax::{ListKind, Node, NodeKind};
use crate::text::bytes_of;

verus! {

/// Is the node one of the tree, at any depth?
pub open spec fn in_tree(nodes: Seq<Node>, node: Node) -> bool
    decreases nodes,
{
    exists|i: int|
        0 <= i < nodes.len() && (#[trigger] nodes[i] == node || in_tree(nodes[i].children, node))
}

proof fn lemma_among(nodes: Seq<Node>, node: Node)
    requires
        nodes.len() > 0,
    ensures
        in_tree(nodes.drop_last(), node) ==> in_tree(nodes, node),
        in_tree(nodes.last().children, node) ==> in_tree(nodes, node),
        in_tree(nodes, nodes.last()),
{
    let head = nodes.drop_last();
    let last = nodes.len() - 1;
    if in_tree(head, node) {
        let i = choose|i: int|
            0 <= i < head.len() && (#[trigger] head[i] == node || in_tree(head[i].children, node));
        assert(nodes[i] == head[i]);
    }
    assert(nodes[last] == nodes.last());
}

// ---------------------------------------------------------------------------
// Blocks
// ---------------------------------------------------------------------------

proof fn lemma_block_is_signed(nodes: Seq<Node>, node: Node, s: Sign)
    requires
        in_tree(nodes, node),
        block_sign(node).contains(s),
    ensures
        block_signs(nodes).contains(s),
    decreases nodes,
{
    let i = choose|i: int|
        0 <= i < nodes.len() && (#[trigger] nodes[i] == node || in_tree(nodes[i].children, node));
    let head = block_signs(nodes.drop_last());
    let own = block_sign(nodes.last());
    let below = block_signs(nodes.last().children);
    let all = head + own + below;
    assert(block_signs(nodes) == all);
    if i < nodes.len() - 1 {
        assert(nodes.drop_last()[i] == nodes[i]);
        lemma_block_is_signed(nodes.drop_last(), node, s);
        let k = choose|k: int| 0 <= k < head.len() && head[k] == s;
        assert(all[k] == s);
    } else if nodes[i] == node {
        let k = choose|k: int| 0 <= k < own.len() && own[k] == s;
        assert(all[head.len() + k] == s);
    } else {
        assert(decreases_to!(nodes => nodes[i]));
        lemma_block_is_signed(nodes.last().children, node, s);
        let k = choose|k: int| 0 <= k < below.len() && below[k] == s;
        assert(all[head.len() + own.len() + k] == s);
    }
}

proof fn lemma_sign_is_of_a_block(nodes: Seq<Node>, s: Sign) -> (node: Node)
    requires
        block_signs(nodes).contains(s),
    ensures
        in_tree(nodes, node),
        block_sign(node).contains(s),
    decreases nodes,
{
    let head = block_signs(nodes.drop_last());
    let own = block_sign(nodes.last());
    let below = block_signs(nodes.last().children);
    let all = head + own + below;
    let k = choose|k: int| 0 <= k < all.len() && all[k] == s;
    if k < head.len() {
        assert(head[k] == s);
        let node = lemma_sign_is_of_a_block(nodes.drop_last(), s);
        lemma_among(nodes, node);
        node
    } else if k < head.len() + own.len() {
        assert(own[k - head.len()] == s);
        lemma_among(nodes, nodes.last());
        nodes.last()
    } else {
        assert(below[k - head.len() - own.len()] == s);
        assert(decreases_to!(nodes => nodes[nodes.len() - 1]));
        let node = lemma_sign_is_of_a_block(nodes.last().children, s);
        lemma_among(nodes, node);
        node
    }
}

/// Is the block of the same kind: a heading of the same level, a list with the
/// same numbers or of bullets, a task as done, a head row or another?
pub open spec fn same_block(a: Node, c: Node) -> bool {
    match a.kind {
        NodeKind::Paragraph => c.kind is Paragraph,
        NodeKind::Heading { level, .. } => c.kind matches NodeKind::Heading { level: other, .. }
            && other == level,
        NodeKind::CodeBlock { .. } => c.kind is CodeBlock,
        NodeKind::BlockQuote => c.kind is BlockQuote,
        NodeKind::List { kind: ListKind::Unordered } => c.kind == NodeKind::List {
            kind: ListKind::Unordered,
        },
        NodeKind::List { kind: ListKind::Ordered { start } } => c.kind == NodeKind::List {
            kind: ListKind::Ordered { start },
        },
        NodeKind::ListItem { .. } => c.kind is ListItem,
        NodeKind::TaskMarker { checked } => c.kind == NodeKind::TaskMarker { checked },
        NodeKind::Table => c.kind is Table,
        NodeKind::TableRow { is_header } => c.kind == NodeKind::TableRow { is_header },
        NodeKind::TableCell => c.kind is TableCell,
        NodeKind::ThematicBreak => c.kind is ThematicBreak,
        _ => false,
    }
}

/// A toggle keeps the blocks: each heading with its level, each list with its
/// numbers, each task, quote, table and rule is there after it as well.
pub proof fn toggles_keep_the_blocks(document: Document, format: InlineFormat, node: Node)
    requires
        toggled(document, format).text != document.text,
        in_tree(syntax_tree(document.text), node),
        same_block(node, node),
    ensures
        exists|other: Node|
            #[trigger] in_tree(syntax_tree(toggled(document, format).text), other) && same_block(
                node,
                other,
            ),
{
    let tree = syntax_tree(document.text);
    let next_tree = syntax_tree(toggled(document, format).text);
    let s = block_sign(node)[0];
    assert(block_sign(node).contains(s));
    lemma_block_is_signed(tree, node, s);
    assert(block_signs(next_tree) == block_signs(tree));
    let other = lemma_sign_is_of_a_block(next_tree, s);
    let k = choose|k: int| 0 <= k < block_sign(other).len() && block_sign(other)[k] == s;
    assert(in_tree(next_tree, other) && same_block(node, other));
}

proof fn lemma_sole_image(children: Seq<Node>, k: int, found: Option<Seq<char>>)
    requires
        0 <= k <= children.len(),
        sole_image_from(children, k, found) is Some,
    ensures
        found == sole_image_from(children, k, found) || exists|j: int|
            k <= j < children.len() && (#[trigger] children[j]).kind is Image && Some(
                children[j].dest_url,
            ) == sole_image_from(children, k, found),
        forall|j: int|
            k <= j < children.len() ==> (#[trigger] children[j]).kind is Image
                || children[j].kind is LineBreak,
    decreases children.len() - k,
{
    if k < children.len() {
        match children[k].kind {
            NodeKind::Image { .. } => {
                lemma_sole_image(children, k + 1, Some(children[k].dest_url));
                assert(children[k].kind is Image);
            },
            _ => {
                lemma_sole_image(children, k + 1, found);
            },
        }
    }
}

/// A paragraph that is one image is one after a toggle as well, with the same
/// address.
pub proof fn toggles_keep_the_images_alone(document: Document, format: InlineFormat, node: Node)
    requires
        toggled(document, format).text != document.text,
        in_tree(syntax_tree(document.text), node),
        node.kind is Paragraph,
        node.children.len() == 1,
        node.children[0].kind is Image,
    ensures
        exists|other: Node, j: int|
            #![trigger in_tree(syntax_tree(toggled(document, format).text), other), other.children[j]]
            in_tree(syntax_tree(toggled(document, format).text), other) && other.kind is Paragraph
                && 0 <= j < other.children.len() && other.children[j].kind is Image && bytes_of(
                other.children[j].dest_url,
            ) == bytes_of(node.children[0].dest_url) && forall|i: int|
                0 <= i < other.children.len() ==> (#[trigger] other.children[i]).kind is Image
                    || other.children[i].kind is LineBreak,
{
    let tree = syntax_tree(document.text);
    let next_tree = syntax_tree(toggled(document, format).text);
    let url = node.children[0].dest_url;
    reveal_with_fuel(sole_image_from, 2);
    assert(sole_image(node.children) == Some(url));
    let s = block_sign(node)[0];
    assert(block_sign(node).contains(s));
    lemma_block_is_signed(tree, node, s);
    assert(block_signs(next_tree) == block_signs(tree));
    let other = lemma_sign_is_of_a_block(next_tree, s);
    let k = choose|k: int| 0 <= k < block_sign(other).len() && block_sign(other)[k] == s;
    lemma_sole_image(other.children, 0, None);
    let found = sole_image(other.children);
    let j = choose|j: int|
        0 <= j < other.children.len() && (#[trigger] other.children[j]).kind is Image && Some(
            other.children[j].dest_url,
        ) == found;
    assert(in_tree(next_tree, other) && other.children[j].kind is Image);
}

// ---------------------------------------------------------------------------
// Links, images, code and formulas
// ---------------------------------------------------------------------------

proof fn lemma_construct_is_signed(nodes: Seq<Node>, b: Seq<u8>, node: Node, s: Sign)
    requires
        in_tree(nodes, node),
        protected_sign(node, b).contains(s),
    ensures
        protected_signs(nodes, b).contains(s),
    decreases nodes,
{
    let i = choose|i: int|
        0 <= i < nodes.len() && (#[trigger] nodes[i] == node || in_tree(nodes[i].children, node));
    let head = protected_signs(nodes.drop_last(), b);
    let own = protected_sign(nodes.last(), b);
    let below = protected_signs(nodes.last().children, b);
    let all = head + own + below;
    assert(protected_signs(nodes, b) == all);
    if i < nodes.len() - 1 {
        assert(nodes.drop_last()[i] == nodes[i]);
        lemma_construct_is_signed(nodes.drop_last(), b, node, s);
        let k = choose|k: int| 0 <= k < head.len() && head[k] == s;
        assert(all[k] == s);
    } else if nodes[i] == node {
        let k = choose|k: int| 0 <= k < own.len() && own[k] == s;
        assert(all[head.len() + k] == s);
    } else {
        assert(decreases_to!(nodes => nodes[i]));
        lemma_construct_is_signed(nodes.last().children, b, node, s);
        let k = choose|k: int| 0 <= k < below.len() && below[k] == s;
        assert(all[head.len() + own.len() + k] == s);
    }
}

proof fn lemma_sign_is_of_a_construct(nodes: Seq<Node>, b: Seq<u8>, s: Sign) -> (node: Node)
    requires
        protected_signs(nodes, b).contains(s),
    ensures
        in_tree(nodes, node),
        protected_sign(node, b).contains(s),
    decreases nodes,
{
    let head = protected_signs(nodes.drop_last(), b);
    let own = protected_sign(nodes.last(), b);
    let below = protected_signs(nodes.last().children, b);
    let all = head + own + below;
    let k = choose|k: int| 0 <= k < all.len() && all[k] == s;
    if k < head.len() {
        assert(head[k] == s);
        let node = lemma_sign_is_of_a_construct(nodes.drop_last(), b, s);
        lemma_among(nodes, node);
        node
    } else if k < head.len() + own.len() {
        assert(own[k - head.len()] == s);
        lemma_among(nodes, nodes.last());
        nodes.last()
    } else {
        assert(below[k - head.len() - own.len()] == s);
        assert(decreases_to!(nodes => nodes[nodes.len() - 1]));
        let node = lemma_sign_is_of_a_construct(nodes.last().children, b, s);
        lemma_among(nodes, node);
        node
    }
}

/// Do the bytes of a range in one text stand in a range of another?
pub open spec fn same_bytes(b: Seq<u8>, r: Range<usize>, c: Seq<u8>, q: Range<usize>) -> bool {
    r.start <= r.end <= b.len() && q.start <= q.end <= c.len() ==> b.subrange(
        r.start as int,
        r.end as int,
    ) == c.subrange(q.start as int, q.end as int)
}

/// Is the construct `d` of the text `c` like `a` of the text `b`: a link or an
/// image with the same address, code or a formula with the same bytes?
pub open spec fn same_construct(a: Node, b: Seq<u8>, d: Node, c: Seq<u8>) -> bool {
    match a.kind {
        NodeKind::Link { .. } => d.kind is Link && bytes_of(d.dest_url) == bytes_of(a.dest_url),
        NodeKind::Image { .. } => d.kind is Image && bytes_of(d.dest_url) == bytes_of(a.dest_url),
        NodeKind::InlineCode { content_range: r } => d.kind matches NodeKind::InlineCode {
            content_range: q,
        } && same_bytes(b, r, c, q),
        NodeKind::InlineMath { content_range: r } => d.kind matches NodeKind::InlineMath {
            content_range: q,
        } && same_bytes(b, r, c, q),
        NodeKind::DisplayMath { content_range: r } => d.kind matches NodeKind::DisplayMath {
            content_range: q,
        } && same_bytes(b, r, c, q),
        NodeKind::CodeBlock { content_range: r, .. } => d.kind matches NodeKind::CodeBlock {
            content_range: q,
            ..
        } && same_bytes(b, r, c, q),
        _ => false,
    }
}

/// A toggle keeps the addresses of links and images, and every byte of code and
/// formulas.
pub proof fn toggles_keep_the_constructs(document: Document, format: InlineFormat, node: Node)
    requires
        toggled(document, format).text != document.text,
        in_tree(syntax_tree(document.text), node),
        node.kind is Link || node.kind is Image || node.kind is InlineCode
            || node.kind is InlineMath || node.kind is DisplayMath || node.kind is CodeBlock,
    ensures
        exists|other: Node|
            #[trigger] in_tree(syntax_tree(toggled(document, format).text), other)
                && same_construct(
                node,
                bytes_of(document.text),
                other,
                bytes_of(toggled(document, format).text),
            ),
{
    let tree = syntax_tree(document.text);
    let next = toggled(document, format).text;
    let next_tree = syntax_tree(next);
    let b = bytes_of(document.text);
    let c = bytes_of(next);
    let s = protected_sign(node, b).last();
    assert(protected_sign(node, b).contains(s));
    lemma_construct_is_signed(tree, b, node, s);
    assert(protected_signs(next_tree, c) == protected_signs(tree, b));
    let other = lemma_sign_is_of_a_construct(next_tree, c, s);
    let k = choose|k: int| 0 <= k < protected_sign(other, c).len() && protected_sign(other, c)[k] == s;
    assert(in_tree(next_tree, other) && same_construct(node, b, other, c));
}

/// A toggle keeps the language of a code block.
pub proof fn toggles_keep_the_languages(document: Document, format: InlineFormat, node: Node)
    requires
        toggled(document, format).text != document.text,
        in_tree(syntax_tree(document.text), node),
        node.kind is CodeBlock,
    ensures
        exists|other: Node|
            #[trigger] in_tree(syntax_tree(toggled(document, format).text), other)
                && other.kind is CodeBlock && same_bytes(
                bytes_of(document.text),
                node.kind->CodeBlock_info_range,
                bytes_of(toggled(document, format).text),
                other.kind->CodeBlock_info_range,
            ),
{
    let tree = syntax_tree(document.text);
    let next = toggled(document, format).text;
    let next_tree = syntax_tree(next);
    let b = bytes_of(document.text);
    let c = bytes_of(next);
    let s = protected_sign(node, b).first();
    assert(protected_sign(node, b).contains(s));
    lemma_construct_is_signed(tree, b, node, s);
    assert(protected_signs(next_tree, c) == protected_signs(tree, b));
    let other = lemma_sign_is_of_a_construct(next_tree, c, s);
    let k = choose|k: int| 0 <= k < protected_sign(other, c).len() && protected_sign(other, c)[k] == s;
    assert(in_tree(next_tree, other) && other.kind is CodeBlock);
}

// ---------------------------------------------------------------------------
// Embeds, escapes and character references
// ---------------------------------------------------------------------------

/// A toggle keeps the embeds: as many, in the same order, each with its ordinal
/// and the bytes of its marker.
pub proof fn toggles_keep_the_embeds(document: Document, format: InlineFormat, i: int)
    requires
        toggled(document, format).text != document.text,
        0 <= i < blocks_of(document.text, document.embeds).len(),
    ensures
        ({
            let next = toggled(document, format);
            let before = blocks_of(document.text, document.embeds);
            let after = blocks_of(next.text, document.embeds);
            &&& before.len() == after.len()
            &&& before[i].ordinal == after[i].ordinal
            &&& same_bytes(
                bytes_of(document.text),
                before[i].range,
                bytes_of(next.text),
                after[i].range,
            )
        }),
{
    let b = bytes_of(document.text);
    let next = toggled(document, format);
    let c = bytes_of(next.text);
    let before = embed_signs(blocks_of(document.text, document.embeds), b);
    let after = embed_signs(blocks_of(next.text, document.embeds), c);
    assert(before == after);
    assert(before[i] == after[i]);
    assert(before.len() == after.len());
}

/// A fingerprint of escapes holds each as it is written and as it is shown.
pub proof fn escapes_are_signed(spans: Seq<Span>, b: Seq<u8>, i: int)
    requires
        0 <= i < spans.len(),
        spans[i].range.start <= spans[i].range.end <= b.len(),
    ensures
        span_signs(spans, b).len() == 2 * spans.len(),
        span_signs(spans, b)[2 * i].bytes == b.subrange(
            spans[i].range.start as int,
            spans[i].range.end as int,
        ),
        span_signs(spans, b)[2 * i + 1].bytes == bytes_of(spans[i].text),
    decreases spans.len(),
{
    lemma_span_signs_len(spans, b);
    lemma_span_signs_len(spans.drop_last(), b);
    if i < spans.len() - 1 {
        escapes_are_signed(spans.drop_last(), b, i);
    }
}

proof fn lemma_span_signs_len(spans: Seq<Span>, b: Seq<u8>)
    ensures
        span_signs(spans, b).len() == 2 * spans.len(),
    decreases spans.len(),
{
    if spans.len() > 0 {
        lemma_span_signs_len(spans.drop_last(), b);
    }
}

/// Escapes count in text alone: the ranges where they do not are all code and
/// formulas of the tree, and the addresses of its links and images.
pub proof fn escapes_are_literal_in_code(nodes: Seq<Node>, node: Node)
    requires
        in_tree(nodes, node),
    ensures
        node.kind is CodeBlock || node.kind is InlineCode || node.kind is InlineMath
            || node.kind is DisplayMath ==> literal_ranges(nodes).contains(node.range),
        node.kind matches NodeKind::Link { destination } ==> literal_ranges(nodes).contains(
            destination,
        ),
        node.kind matches NodeKind::Image { destination } ==> literal_ranges(nodes).contains(
            destination,
        ),
{
    if literal_range(node).len() > 0 {
        let r = literal_range(node)[0];
        assert(literal_range(node).contains(r));
        lemma_literal_range(nodes, node, r);
    }
}

proof fn lemma_literal_range(nodes: Seq<Node>, node: Node, r: Range<usize>)
    requires
        in_tree(nodes, node),
        literal_range(node).contains(r),
    ensures
        literal_ranges(nodes).contains(r),
    decreases nodes,
{
    let i = choose|i: int|
        0 <= i < nodes.len() && (#[trigger] nodes[i] == node || in_tree(nodes[i].children, node));
    let head = literal_ranges(nodes.drop_last());
    let own = literal_range(nodes.last());
    let below = literal_ranges(nodes.last().children);
    let all = head + own + below;
    assert(literal_ranges(nodes) == all);
    if i < nodes.len() - 1 {
        assert(nodes.drop_last()[i] == nodes[i]);
        lemma_literal_range(nodes.drop_last(), node, r);
        let k = choose|k: int| 0 <= k < head.len() && head[k] == r;
        assert(all[k] == r);
    } else if nodes[i] == node {
        let k = choose|k: int| 0 <= k < own.len() && own[k] == r;
        assert(all[head.len() + k] == r);
    } else {
        assert(decreases_to!(nodes => nodes[i]));
        lemma_literal_range(nodes.last().children, node, r);
        let k = choose|k: int| 0 <= k < below.len() && below[k] == r;
        assert(all[head.len() + own.len() + k] == r);
    }
}

} // verus!
