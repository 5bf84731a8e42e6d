//! What inline content is made of, as far as a style is concerned.

use core::ops::Range;

use vstd::prelude::*;

use crate::escapes::{spans_view, ResolvedSpan, Span};
use crate::formatting::ranges::{greater, max_offset, overlap, overlaps};
use crate::syntax::{lemma_children_view, nodes_view, Node, NodeKind, SyntaxNode};

verus! {

/// The styles that can be toggled.
#[derive(Debug, Clone, Copy, PartialEq, Eq, Structural)]
pub enum InlineFormat {
    Strong,
    Emphasis,
}

impl InlineFormat {
    /// What is written on both sides of the styled text.
    pub open spec fn sign(self) -> Seq<char> {
        match self {
            InlineFormat::Strong => "**"@,
            InlineFormat::Emphasis => "*"@,
        }
    }

    /// Is a node of this kind the style itself?
    pub open spec fn is_kind(self, kind: NodeKind) -> bool {
        match self {
            InlineFormat::Strong => kind is Strong,
            InlineFormat::Emphasis => kind is Emphasis,
        }
    }

    /// What is written on both sides of the styled text.
    pub fn delimiter(self) -> (text: &'static str)
        ensures
            text@ == self.sign(),
    {
        match self {
            InlineFormat::Strong => "**",
            InlineFormat::Emphasis => "*",
        }
    }

    /// Is a node of this kind the style itself?
    pub fn matches(self, kind: &NodeKind) -> (found: bool)
        ensures
            found == self.is_kind(*kind),
    {
        match self {
            InlineFormat::Strong => match kind {
                NodeKind::Strong { .. } => true,
                _ => false,
            },
            InlineFormat::Emphasis => match kind {
                NodeKind::Emphasis { .. } => true,
                _ => false,
            },
        }
    }
}

#[derive(Debug, Clone, Copy, PartialEq, Eq, Structural)]
pub enum InlineContextKind {
    Strong,
    Emphasis,
    Strikethrough,
    Link,
}

/// An inline construct around some content, whose syntax the delimiters of the
/// style may not cross.
#[derive(Debug, Clone, Copy, PartialEq, Eq, Structural)]
pub struct InlineContext {
    pub kind: InlineContextKind,
    pub start: usize,
    pub end: usize,
}

/// How a piece of content can be styled.
#[derive(Debug, Clone, Copy, PartialEq, Eq, Structural)]
pub enum AtomEligibility {
    /// Any part of it: ordinary text.
    Partial,
    /// Only the whole of it: code and math.
    Whole,
    /// It counts as one character: an escape or a character reference.
    Atomic,
    /// Not at all: an image.
    Never,
}

/// A piece of inline content.
#[derive(Debug)]
pub struct Atom {
    pub range: Range<usize>,
    pub styled: bool,
    pub eligibility: AtomEligibility,
    pub context: Vec<InlineContext>,
}

/// The mathematical form of an [`Atom`].
#[verifier::ext_equal]
pub struct Part {
    pub range: Range<usize>,
    pub styled: bool,
    pub eligibility: AtomEligibility,
    pub context: Seq<InlineContext>,
}

impl View for Atom {
    type V = Part;

    open spec fn view(&self) -> Part {
        Part {
            range: self.range,
            styled: self.styled,
            eligibility: self.eligibility,
            context: self.context@,
        }
    }
}

impl Clone for Atom {
    fn clone(&self) -> (copy: Self)
        ensures
            copy@ == self@,
    {
        Atom {
            range: self.range.start..self.range.end,
            styled: self.styled,
            eligibility: self.eligibility,
            context: copy_contexts(&self.context),
        }
    }
}

/// The mathematical form of a list of atoms.
pub open spec fn atoms_view(atoms: Seq<Atom>) -> Seq<Part> {
    Seq::new(atoms.len(), |i: int| atoms[i]@)
}

/// An occurrence of the style in the source.
#[derive(Debug, PartialEq, Eq)]
pub struct FormatNode {
    pub range: Range<usize>,
    pub content: Range<usize>,
    pub opener: Range<usize>,
    pub closer: Range<usize>,
}

// ---------------------------------------------------------------------------
// Text
// ---------------------------------------------------------------------------

/// A piece of the given kind.
pub open spec fn part(
    range: Range<usize>,
    styled: bool,
    eligibility: AtomEligibility,
    context: Seq<InlineContext>,
) -> Part {
    Part { range, styled, eligibility, context }
}

/// Ordinary text from `start` to `end`, if any.
pub open spec fn plain_part(
    start: usize,
    end: usize,
    styled: bool,
    context: Seq<InlineContext>,
) -> Seq<Part> {
    if start < end {
        seq![part(Range { start, end }, styled, AtomEligibility::Partial, context)]
    } else {
        Seq::empty()
    }
}

/// The pieces of a text node from `start` on, given the escapes and references
/// from `k` on. A span that begins before the node belongs to the node before
/// it.
pub open spec fn text_parts(
    range: Range<usize>,
    spans: Seq<Span>,
    k: int,
    start: usize,
    styled: bool,
    context: Seq<InlineContext>,
) -> Seq<Part>
    decreases spans.len() - k,
{
    if k >= spans.len() {
        plain_part(start, range.end, styled, context)
    } else {
        let span = spans[k].range;
        if !overlap(span, range) {
            text_parts(range, spans, k + 1, start, styled, context)
        } else if span.start < range.start {
            text_parts(range, spans, k + 1, greater(start, span.end), styled, context)
        } else {
            plain_part(start, span.start, styled, context).push(
                part(span, styled, AtomEligibility::Atomic, context),
            ) + text_parts(range, spans, k + 1, span.end, styled, context)
        }
    }
}

pub fn copy_contexts(context: &Vec<InlineContext>) -> (copy: Vec<InlineContext>)
    ensures
        copy@ == context@,
{
    let mut copy: Vec<InlineContext> = Vec::new();
    let mut i: usize = 0;
    while i < context.len()
        invariant
            i <= context@.len(),
            copy@ =~= context@.take(i as int),
        decreases context@.len() - i,
    {
        copy.push(context[i]);
        i = i + 1;
    }
    copy
}

fn push_atom(
    atoms: &mut Vec<Atom>,
    range: Range<usize>,
    styled: bool,
    eligibility: AtomEligibility,
    context: &Vec<InlineContext>,
)
    ensures
        atoms_view(final(atoms)@) == atoms_view(old(atoms)@).push(
            part(range, styled, eligibility, context@),
        ),
{
    let ghost before = atoms_view(atoms@);
    atoms.push(Atom { range, styled, eligibility, context: copy_contexts(context) });
    assert(atoms_view(atoms@) =~= before.push(part(range, styled, eligibility, context@)));
}

fn push_plain(
    atoms: &mut Vec<Atom>,
    start: usize,
    end: usize,
    styled: bool,
    context: &Vec<InlineContext>,
)
    ensures
        atoms_view(final(atoms)@) == atoms_view(old(atoms)@) + plain_part(
            start,
            end,
            styled,
            context@,
        ),
{
    let ghost before = atoms_view(atoms@);
    if start < end {
        push_atom(atoms, start..end, styled, AtomEligibility::Partial, context);
    }
    assert(atoms_view(atoms@) =~= before + plain_part(start, end, styled, context@));
}

fn collect_text_atoms(
    range: &Range<usize>,
    resolved: &Vec<ResolvedSpan>,
    styled: bool,
    context: &Vec<InlineContext>,
    atoms: &mut Vec<Atom>,
)
    ensures
        atoms_view(final(atoms)@) == atoms_view(old(atoms)@) + text_parts(
            *range,
            spans_view(resolved@),
            0,
            range.start,
            styled,
            context@,
        ),
{
    let ghost spans = spans_view(resolved@);
    let ghost all = atoms_view(atoms@) + text_parts(
        *range,
        spans,
        0,
        range.start,
        styled,
        context@,
    );
    let mut start: usize = range.start;
    let mut k: usize = 0;
    while k < resolved.len()
        invariant
            k <= resolved@.len(),
            spans == spans_view(resolved@),
            all == atoms_view(atoms@) + text_parts(
                *range,
                spans,
                k as int,
                start,
                styled,
                context@,
            ),
        decreases resolved@.len() - k,
    {
        let span = resolved[k].source_range.start..resolved[k].source_range.end;
        assert(spans[k as int].range == span);
        if overlaps(&span, range) {
            if span.start < range.start {
                start = max_offset(start, span.end);
            } else {
                let ghost before = atoms_view(atoms@);
                push_plain(atoms, start, span.start, styled, context);
                start = span.end;
                let ghost rest = text_parts(*range, spans, k + 1, start, styled, context@);
                push_atom(atoms, span, styled, AtomEligibility::Atomic, context);
                assert(all =~= atoms_view(atoms@) + rest);
            }
        }
        k = k + 1;
    }
    push_plain(atoms, start, range.end, styled, context);
    assert(atoms_view(atoms@) =~= all);
}

// ---------------------------------------------------------------------------
// Inline nodes
// ---------------------------------------------------------------------------

/// The context that a node is for its content; the style itself is none.
pub open spec fn context_kind(kind: NodeKind, format: InlineFormat) -> Option<InlineContextKind> {
    match kind {
        NodeKind::Strong { .. } => if format == InlineFormat::Strong {
            None
        } else {
            Some(InlineContextKind::Strong)
        },
        NodeKind::Emphasis { .. } => if format == InlineFormat::Emphasis {
            None
        } else {
            Some(InlineContextKind::Emphasis)
        },
        NodeKind::Strikethrough => Some(InlineContextKind::Strikethrough),
        NodeKind::Link { .. } => Some(InlineContextKind::Link),
        _ => None,
    }
}

/// The contexts of the content of a node.
pub open spec fn inner_context(
    node: Node,
    format: InlineFormat,
    context: Seq<InlineContext>,
) -> Seq<InlineContext> {
    match context_kind(node.kind, format) {
        Some(kind) => context.push(
            InlineContext { kind, start: node.range.start, end: node.range.end },
        ),
        None => context,
    }
}

/// The occurrence of the style that a node is.
pub open spec fn own_format(node: Node, format: InlineFormat) -> Seq<FormatNode> {
    match node.kind {
        NodeKind::Strong { content_range, opener, closer } => if format == InlineFormat::Strong {
            seq![FormatNode { range: node.range, content: content_range, opener, closer }]
        } else {
            Seq::empty()
        },
        NodeKind::Emphasis { content_range, opener, closer } => if format
            == InlineFormat::Emphasis {
            seq![FormatNode { range: node.range, content: content_range, opener, closer }]
        } else {
            Seq::empty()
        },
        _ => Seq::empty(),
    }
}

/// Is the content of a node of this kind looked at as a whole?
pub open spec fn closed_kind(kind: NodeKind) -> bool {
    kind is Text || kind is InlineCode || kind is InlineMath || kind is Image || kind is DisplayMath
}

/// The pieces that an inline node consists of. `inherited` tells whether the
/// style is around it, and `context` what else is.
pub open spec fn parts_of(
    node: Node,
    spans: Seq<Span>,
    inherited: bool,
    format: InlineFormat,
    context: Seq<InlineContext>,
) -> Seq<Part>
    decreases node,
{
    let styled = inherited || format.is_kind(node.kind);
    let inner = inner_context(node, format, context);
    match node.kind {
        NodeKind::Text => text_parts(node.range, spans, 0, node.range.start, styled, inner),
        NodeKind::InlineCode { .. } => seq![
            part(node.range, styled, AtomEligibility::Whole, inner),
        ],
        NodeKind::InlineMath { .. } => seq![
            part(node.range, styled, AtomEligibility::Whole, inner),
        ],
        NodeKind::Image { .. } => seq![part(node.range, styled, AtomEligibility::Never, inner)],
        NodeKind::DisplayMath { .. } => Seq::empty(),
        _ => parts_in(node.children, spans, styled, format, inner),
    }
}

pub open spec fn parts_in(
    nodes: Seq<Node>,
    spans: Seq<Span>,
    inherited: bool,
    format: InlineFormat,
    context: Seq<InlineContext>,
) -> Seq<Part>
    decreases nodes,
{
    if nodes.len() == 0 {
        Seq::empty()
    } else {
        parts_in(nodes.drop_last(), spans, inherited, format, context) + parts_of(
            nodes.last(),
            spans,
            inherited,
            format,
            context,
        )
    }
}

/// The occurrences of the style in an inline node.
pub open spec fn formats_of(node: Node, format: InlineFormat) -> Seq<FormatNode>
    decreases node,
{
    own_format(node, format) + if closed_kind(node.kind) {
        Seq::empty()
    } else {
        formats_in(node.children, format)
    }
}

pub open spec fn formats_in(nodes: Seq<Node>, format: InlineFormat) -> Seq<FormatNode>
    decreases nodes,
{
    if nodes.len() == 0 {
        Seq::empty()
    } else {
        formats_in(nodes.drop_last(), format) + formats_of(nodes.last(), format)
    }
}

fn find_context_kind(kind: &NodeKind, format: InlineFormat) -> (found: Option<InlineContextKind>)
    ensures
        found == context_kind(*kind, format),
{
    match kind {
        NodeKind::Strong { .. } => if format == InlineFormat::Strong {
            None
        } else {
            Some(InlineContextKind::Strong)
        },
        NodeKind::Emphasis { .. } => if format == InlineFormat::Emphasis {
            None
        } else {
            Some(InlineContextKind::Emphasis)
        },
        NodeKind::Strikethrough => Some(InlineContextKind::Strikethrough),
        NodeKind::Link { .. } => Some(InlineContextKind::Link),
        _ => None,
    }
}

fn push_own_format(node: &SyntaxNode, format: InlineFormat, formats: &mut Vec<FormatNode>)
    ensures
        final(formats)@ == old(formats)@ + own_format(node@, format),
{
    let ghost before = formats@;
    if format.matches(&node.kind) {
        match &node.kind {
            NodeKind::Strong { content_range, opener, closer } => {
                formats.push(
                    FormatNode {
                        range: node.range.start..node.range.end,
                        content: content_range.start..content_range.end,
                        opener: opener.start..opener.end,
                        closer: closer.start..closer.end,
                    },
                );
            },
            NodeKind::Emphasis { content_range, opener, closer } => {
                formats.push(
                    FormatNode {
                        range: node.range.start..node.range.end,
                        content: content_range.start..content_range.end,
                        opener: opener.start..opener.end,
                        closer: closer.start..closer.end,
                    },
                );
            },
            _ => {},
        }
    }
    assert(formats@ =~= before + own_format(node@, format));
}

/// Appends the pieces of an inline node and the occurrences of the style in it.
pub fn collect_inline(
    node: &SyntaxNode,
    resolved: &Vec<ResolvedSpan>,
    inherited: bool,
    format: InlineFormat,
    context: &Vec<InlineContext>,
    atoms: &mut Vec<Atom>,
    formats: &mut Vec<FormatNode>,
)
    ensures
        atoms_view(final(atoms)@) == atoms_view(old(atoms)@) + parts_of(
            node@,
            spans_view(resolved@),
            inherited,
            format,
            context@,
        ),
        final(formats)@ == old(formats)@ + formats_of(node@, format),
    decreases node@,
{
    let ghost atoms_before = atoms_view(atoms@);
    let ghost formats_before = formats@;
    let ghost spans = spans_view(resolved@);
    proof {
        lemma_children_view(*node);
    }
    let styled = inherited || format.matches(&node.kind);
    let mut inner = copy_contexts(context);
    if let Some(kind) = find_context_kind(&node.kind, format) {
        inner.push(InlineContext { kind, start: node.range.start, end: node.range.end });
    }
    assert(inner@ == inner_context(node@, format, context@));
    push_own_format(node, format, formats);
    let range = node.range.start..node.range.end;
    match &node.kind {
        NodeKind::Text => {
            collect_text_atoms(&range, resolved, styled, &inner, atoms);
        },
        NodeKind::InlineCode { .. } => {
            push_atom(atoms, range, styled, AtomEligibility::Whole, &inner);
        },
        NodeKind::InlineMath { .. } => {
            push_atom(atoms, range, styled, AtomEligibility::Whole, &inner);
        },
        NodeKind::Image { .. } => {
            push_atom(atoms, range, styled, AtomEligibility::Never, &inner);
        },
        NodeKind::DisplayMath { .. } => {},
        _ => {
            collect_inline_all(&node.children, resolved, styled, format, &inner, atoms, formats);
        },
    }
    assert(atoms_view(atoms@) =~= atoms_before + parts_of(
        node@,
        spans,
        inherited,
        format,
        context@,
    ));
    assert(formats@ =~= formats_before + formats_of(node@, format));
}

fn collect_inline_all(
    nodes: &Vec<SyntaxNode>,
    resolved: &Vec<ResolvedSpan>,
    inherited: bool,
    format: InlineFormat,
    context: &Vec<InlineContext>,
    atoms: &mut Vec<Atom>,
    formats: &mut Vec<FormatNode>,
)
    ensures
        atoms_view(final(atoms)@) == atoms_view(old(atoms)@) + parts_in(
            nodes_view(nodes@),
            spans_view(resolved@),
            inherited,
            format,
            context@,
        ),
        final(formats)@ == old(formats)@ + formats_in(nodes_view(nodes@), format),
    decreases nodes_view(nodes@),
{
    let ghost atoms_before = atoms_view(atoms@);
    let ghost formats_before = formats@;
    let ghost spans = spans_view(resolved@);
    let ghost all = nodes_view(nodes@);
    assert(all.take(0) =~= Seq::empty());
    let mut i: usize = 0;
    while i < nodes.len()
        invariant
            i <= nodes@.len(),
            all == nodes_view(nodes@),
            spans == spans_view(resolved@),
            atoms_view(atoms@) =~= atoms_before + parts_in(
                all.take(i as int),
                spans,
                inherited,
                format,
                context@,
            ),
            formats@ =~= formats_before + formats_in(all.take(i as int), format),
        decreases nodes@.len() - i,
    {
        let node = &nodes[i];
        proof {
            assert(all.take(i + 1).drop_last() =~= all.take(i as int));
            assert(all.take(i + 1).last() == all[i as int]);
            assert(all[i as int] == node@);
        }
        collect_inline(node, resolved, inherited, format, context, atoms, formats);
        i = i + 1;
    }
    assert(all.take(i as int) =~= all);
}

} // verus!
