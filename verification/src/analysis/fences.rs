//! Fenced code blocks, read off the syntax tree.

use core::ops::Range;

use vstd::prelude::*;

use crate::parser::{parse, syntax_tree, BACKTICK};
use crate::syntax::{lemma_children_view, node_view, nodes_view, Node, NodeKind, SyntaxNode};
use crate::text::bytes_of;

verus! {

/// One fenced code block. `range` covers the opening fence line, the content,
/// and the closing fence line or the rest of the source; `terminated` tells
/// the two apart. The opening fence is `opener_fence_len` times
/// `opener_fence_char`.
#[derive(Debug, PartialEq, Eq)]
pub struct FencedCodeBlock {
    pub range: Range<usize>,
    pub terminated: bool,
    pub opener_fence_char: u8,
    pub opener_fence_len: usize,
}

impl Clone for FencedCodeBlock {
    fn clone(&self) -> (copy: Self)
        ensures
            copy == *self,
    {
        FencedCodeBlock {
            range: self.range.start..self.range.end,
            terminated: self.terminated,
            opener_fence_char: self.opener_fence_char,
            opener_fence_len: self.opener_fence_len,
        }
    }
}

/// The fenced block that `n` itself is, if any.
pub open spec fn own_fence(n: Node, b: Seq<u8>) -> Seq<FencedCodeBlock> {
    match n.kind {
        NodeKind::CodeBlock { fence, end_fence, .. } => seq![
            FencedCodeBlock {
                range: n.range,
                terminated: end_fence is Some,
                opener_fence_char: if fence.start < b.len() {
                    b[fence.start as int]
                } else {
                    BACKTICK
                },
                opener_fence_len: if fence.start < b.len() && fence.start <= fence.end {
                    (fence.end - fence.start) as usize
                } else {
                    0
                },
            },
        ],
        _ => Seq::empty(),
    }
}

/// Every fenced block of the tree, in document order.
pub open spec fn fences_in(nodes: Seq<Node>, b: Seq<u8>) -> Seq<FencedCodeBlock>
    decreases nodes,
{
    if nodes.len() == 0 {
        Seq::empty()
    } else {
        fences_in(nodes.drop_last(), b) + own_fence(nodes.last(), b) + fences_in(
            nodes.last().children,
            b,
        )
    }
}

/// Does the block hold the cursor position `p`? The end of an unterminated
/// block is still inside it.
pub open spec fn fence_holds(block: FencedCodeBlock, p: int) -> bool {
    &&& block.range.start <= p
    &&& p < block.range.end || (!block.terminated && p == block.range.end)
}

/// Does some block of `blocks` hold `p`?
pub open spec fn in_fences(blocks: Seq<FencedCodeBlock>, p: int) -> bool {
    exists|i: int| 0 <= i < blocks.len() && fence_holds(#[trigger] blocks[i], p)
}

/// The ranges of the blocks.
pub open spec fn fence_ranges(blocks: Seq<FencedCodeBlock>) -> Seq<Range<usize>> {
    Seq::new(blocks.len(), |i: int| blocks[i].range)
}

/// Every fenced block of the text.
pub open spec fn fences_of(text: Seq<char>) -> Seq<FencedCodeBlock> {
    fences_in(syntax_tree(text), bytes_of(text))
}

fn collect_fenced_code_blocks(nodes: &[SyntaxNode], bytes: &[u8], out: &mut Vec<FencedCodeBlock>)
    ensures
        final(out)@ == old(out)@ + fences_in(nodes_view(nodes@), bytes@),
    decreases nodes_view(nodes@),
{
    let ghost before = out@;
    let ghost all = nodes_view(nodes@);
    assert(all.take(0) =~= Seq::empty());
    let mut i: usize = 0;
    while i < nodes.len()
        invariant
            i <= nodes@.len(),
            all == nodes_view(nodes@),
            out@ =~= before + fences_in(all.take(i as int), bytes@),
        decreases nodes@.len() - i,
    {
        let node = &nodes[i];
        proof {
            assert(all.take(i + 1).drop_last() =~= all.take(i as int));
            assert(all.take(i + 1).last() == all[i as int]);
            assert(all[i as int] == node_view(*node));
            lemma_children_view(*node);
        }
        match &node.kind {
            NodeKind::CodeBlock { fence, end_fence, .. } => {
                let known = fence.start < bytes.len();
                out.push(
                    FencedCodeBlock {
                        range: node.range.start..node.range.end,
                        terminated: end_fence.is_some(),
                        opener_fence_char: if known {
                            bytes[fence.start]
                        } else {
                            BACKTICK
                        },
                        opener_fence_len: if known && fence.start <= fence.end {
                            fence.end - fence.start
                        } else {
                            0
                        },
                    },
                );
            },
            _ => {},
        }
        collect_fenced_code_blocks(node.children.as_slice(), bytes, out);
        i = i + 1;
    }
    assert(all.take(i as int) =~= all);
}

/// Every fenced code block of a tree over `bytes`.
pub fn fenced_code_blocks_in_tree(tree: &[SyntaxNode], bytes: &[u8]) -> (blocks: Vec<
    FencedCodeBlock,
>)
    ensures
        blocks@ == fences_in(nodes_view(tree@), bytes@),
{
    let mut out: Vec<FencedCodeBlock> = Vec::new();
    collect_fenced_code_blocks(tree, bytes, &mut out);
    assert(out@ =~= fences_in(nodes_view(tree@), bytes@));
    out
}

/// Every fenced code block of `markdown`.
pub fn fenced_code_blocks(markdown: &str) -> (blocks: Vec<FencedCodeBlock>)
    ensures
        blocks@ == fences_of(markdown@),
{
    let tree = parse(markdown);
    fenced_code_blocks_in_tree(tree.as_slice(), markdown.as_bytes())
}

fn ranges_of(blocks: &Vec<FencedCodeBlock>) -> (ranges: Vec<Range<usize>>)
    ensures
        ranges@ == fence_ranges(blocks@),
{
    let mut out: Vec<Range<usize>> = Vec::new();
    let mut i: usize = 0;
    while i < blocks.len()
        invariant
            i <= blocks@.len(),
            out@ =~= fence_ranges(blocks@.take(i as int)),
        decreases blocks@.len() - i,
    {
        let r = &blocks[i].range;
        out.push(r.start..r.end);
        i = i + 1;
    }
    assert(blocks@.take(i as int) =~= blocks@);
    out
}

/// The ranges of the fenced code blocks of `markdown`.
pub fn fenced_code_ranges(markdown: &str) -> (ranges: Vec<Range<usize>>)
    ensures
        ranges@ == fence_ranges(fences_of(markdown@)),
{
    ranges_of(&fenced_code_blocks(markdown))
}

/// The ranges of the fenced code blocks of a tree over `bytes`.
pub fn fenced_code_ranges_in_tree(tree: &[SyntaxNode], bytes: &[u8]) -> (ranges: Vec<Range<usize>>)
    ensures
        ranges@ == fence_ranges(fences_in(nodes_view(tree@), bytes@)),
{
    ranges_of(&fenced_code_blocks_in_tree(tree, bytes))
}

/// Is `p` inside one of `blocks`? The end of an unterminated block is inside
/// it, the end of a closed one is not.
pub fn is_in_fenced_code_blocks(blocks: &[FencedCodeBlock], p: usize) -> (found: bool)
    ensures
        found == in_fences(blocks@, p as int),
{
    let mut i: usize = 0;
    while i < blocks.len()
        invariant
            i <= blocks@.len(),
            forall|j: int| 0 <= j < i ==> !fence_holds(#[trigger] blocks@[j], p as int),
        decreases blocks@.len() - i,
    {
        let b = &blocks[i];
        if p >= b.range.start && (p < b.range.end || (!b.terminated && p == b.range.end)) {
            assert(fence_holds(blocks@[i as int], p as int));
            return true;
        }
        i = i + 1;
    }
    false
}

/// Is byte `p` of `markdown` inside a fenced code block?
pub fn is_in_fenced_code(markdown: &str, p: usize) -> (found: bool)
    ensures
        found == in_fences(fences_of(markdown@), p as int),
{
    let blocks = fenced_code_blocks(markdown);
    is_in_fenced_code_blocks(blocks.as_slice(), p)
}

/// Does some range of `ranges` hold `p`?
pub open spec fn in_some_range(ranges: Seq<Range<usize>>, p: int) -> bool {
    exists|i: int| 0 <= i < ranges.len() && (#[trigger] ranges[i]).start <= p < ranges[i].end
}

/// Is `p` inside one of `ranges`?
pub fn is_in_ranges(p: usize, ranges: &[Range<usize>]) -> (found: bool)
    ensures
        found == in_some_range(ranges@, p as int),
{
    let mut i: usize = 0;
    while i < ranges.len()
        invariant
            i <= ranges@.len(),
            forall|j: int|
                0 <= j < i ==> !((#[trigger] ranges@[j]).start <= p < ranges@[j].end),
        decreases ranges@.len() - i,
    {
        if p >= ranges[i].start && p < ranges[i].end {
            return true;
        }
        i = i + 1;
    }
    false
}

} // verus!
