//! The edits of a toggle in one island, and what the text should look like
//! after them.

use core::ops::Range;

use vstd::prelude::*;

use crate::analysis::edits::{edit, edits_view, Edit, SourceEdit};
use crate::formatting::atoms::{
    atoms_view, copy_contexts, Atom, AtomEligibility, FormatNode, InlineContext, InlineContextKind,
    InlineFormat, Part,
};
use crate::formatting::islands::{Area, Island};
use crate::formatting::ranges::{
    greater, lesser, max_offset, merge_ranges, merged, min_offset, overlap, overlaps,
    subtract_ranges, subtracted, touch, touches,
};
use crate::formatting::targets::{atom_participates, participates};
use crate::strings::byte_offset;
use crate::words::{index_at, trimmed, whitespace, Glyphs};

verus! {

// ---------------------------------------------------------------------------
// Splitting at the syntax of other constructs
// ---------------------------------------------------------------------------

/// Does the style go on over the piece? Over a piece that cannot be styled, or
/// that is styled only as a whole, it goes on only where it was.
pub open spec fn carries(p: Part, desired: Range<usize>) -> bool {
    match p.eligibility {
        AtomEligibility::Partial => true,
        AtomEligibility::Whole => p.styled || (desired.start <= p.range.start && desired.end
            >= p.range.end),
        AtomEligibility::Atomic => p.styled || (desired.start <= p.range.start && desired.end
            >= p.range.end),
        AtomEligibility::Never => p.styled,
    }
}

/// The ranges so far, and the one that is still growing with its contexts.
#[verifier::ext_equal]
pub struct Split {
    pub out: Seq<Range<usize>>,
    pub open: Option<(Seq<InlineContext>, Range<usize>)>,
}

/// The ranges with the growing one, white space at its ends apart.
pub open spec fn closed(text: Seq<char>, split: Split) -> Seq<Range<usize>> {
    match split.open {
        Some((_, range)) => match trimmed(text, range.start as int, range.end as int) {
            Some(r) => split.out.push(r),
            None => split.out,
        },
        None => split.out,
    }
}

/// The next piece: it extends the growing range where its contexts are the
/// same, and starts a new one otherwise.
pub open spec fn split_step(text: Seq<char>, split: Split, p: Part, desired: Range<usize>) -> Split {
    let start = greater(p.range.start, desired.start);
    let end = lesser(p.range.end, desired.end);
    if !overlap(p.range, desired) || start >= end {
        split
    } else if !carries(p, desired) {
        Split { out: closed(text, split), open: None }
    } else {
        match split.open {
            Some((context, range)) => if context == p.context {
                Split {
                    out: split.out,
                    open: Some((context, Range { start: range.start, end })),
                }
            } else {
                Split {
                    out: closed(text, split),
                    open: Some((p.context, Range { start, end })),
                }
            },
            None => Split { out: split.out, open: Some((p.context, Range { start, end })) },
        }
    }
}

pub open spec fn split_parts(
    text: Seq<char>,
    parts: Seq<Part>,
    desired: Range<usize>,
    before: Seq<Range<usize>>,
) -> Split
    decreases parts.len(),
{
    if parts.len() == 0 {
        Split { out: before, open: None }
    } else {
        split_step(
            text,
            split_parts(text, parts.drop_last(), desired, before),
            parts.last(),
            desired,
        )
    }
}

/// The desired ranges, each cut where the contexts change.
pub open spec fn split_ranges(
    text: Seq<char>,
    parts: Seq<Part>,
    ranges: Seq<Range<usize>>,
) -> Seq<Range<usize>>
    decreases ranges.len(),
{
    if ranges.len() == 0 {
        Seq::empty()
    } else {
        closed(
            text,
            split_parts(
                text,
                parts,
                ranges.last(),
                split_ranges(text, parts, ranges.drop_last()),
            ),
        )
    }
}

fn same_contexts(a: &Vec<InlineContext>, c: &Vec<InlineContext>) -> (same: bool)
    ensures
        same == (a@ == c@),
{
    if a.len() != c.len() {
        return false;
    }
    let mut i: usize = 0;
    while i < a.len()
        invariant
            i <= a@.len() == c@.len(),
            forall|j: int| 0 <= j < i ==> a@[j] == c@[j],
        decreases a@.len() - i,
    {
        if a[i] != c[i] {
            return false;
        }
        i = i + 1;
    }
    assert(a@ =~= c@);
    true
}

fn is_carried(atom: &Atom, desired: &Range<usize>) -> (found: bool)
    ensures
        found == carries(atom@, *desired),
{
    match atom.eligibility {
        AtomEligibility::Partial => true,
        AtomEligibility::Whole => atom.styled || (desired.start <= atom.range.start && desired.end
            >= atom.range.end),
        AtomEligibility::Atomic => atom.styled || (desired.start <= atom.range.start && desired.end
            >= atom.range.end),
        AtomEligibility::Never => atom.styled,
    }
}

/// A range that grows over pieces with the same contexts.
struct Growing {
    context: Vec<InlineContext>,
    range: Range<usize>,
}

spec fn growing_view(open: Option<Growing>) -> Option<(Seq<InlineContext>, Range<usize>)> {
    match open {
        Some(g) => Some((g.context@, g.range)),
        None => None,
    }
}

fn close_growing(glyphs: &Glyphs, open: &Option<Growing>, out: &mut Vec<Range<usize>>)
    ensures
        final(out)@ == closed(glyphs@, Split { out: old(out)@, open: growing_view(*open) }),
{
    if let Some(g) = open {
        if let Some(range) = glyphs.trim(g.range.start, g.range.end) {
            out.push(range);
        }
    }
}

fn split_at_inline_contexts(glyphs: &Glyphs, atoms: &Vec<Atom>, ranges: &Vec<Range<usize>>) -> (out:
    Vec<Range<usize>>)
    ensures
        out@ == split_ranges(glyphs@, atoms_view(atoms@), ranges@),
{
    let ghost parts = atoms_view(atoms@);
    let ghost all = ranges@;
    let mut out: Vec<Range<usize>> = Vec::new();
    let mut k: usize = 0;
    assert(all.take(0) =~= Seq::empty());
    while k < ranges.len()
        invariant
            k <= ranges@.len(),
            all == ranges@,
            parts == atoms_view(atoms@),
            out@ == split_ranges(glyphs@, parts, all.take(k as int)),
        decreases ranges@.len() - k,
    {
        let desired = ranges[k].start..ranges[k].end;
        let ghost before = out@;
        proof {
            assert(all.take(k + 1).drop_last() =~= all.take(k as int));
            assert(all.take(k + 1).last() == desired);
        }
        let mut open: Option<Growing> = None;
        let mut i: usize = 0;
        assert(parts.take(0) =~= Seq::empty());
        while i < atoms.len()
            invariant
                i <= atoms@.len(),
                parts == atoms_view(atoms@),
                split_parts(glyphs@, parts.take(i as int), desired, before) == (Split {
                    out: out@,
                    open: growing_view(open),
                }),
            decreases atoms@.len() - i,
        {
            let atom = &atoms[i];
            proof {
                assert(parts.take(i + 1).drop_last() =~= parts.take(i as int));
                assert(parts.take(i + 1).last() == atom@);
            }
            let start: usize = max_offset(atom.range.start, desired.start);
            let end: usize = min_offset(atom.range.end, desired.end);
            if overlaps(&atom.range, &desired) && start < end {
                if !is_carried(atom, &desired) {
                    close_growing(glyphs, &open, &mut out);
                    open = None;
                } else {
                    let same = match &open {
                        Some(g) => same_contexts(&g.context, &atom.context),
                        None => false,
                    };
                    if same {
                        if let Some(g) = open {
                            open = Some(Growing { context: g.context, range: g.range.start..end });
                        }
                    } else {
                        close_growing(glyphs, &open, &mut out);
                        open = Some(
                            Growing { context: copy_contexts(&atom.context), range: start..end },
                        );
                    }
                }
            }
            i = i + 1;
        }
        assert(parts.take(i as int) =~= parts);
        close_growing(glyphs, &open, &mut out);
        k = k + 1;
    }
    assert(all.take(k as int) =~= all);
    out
}

// ---------------------------------------------------------------------------
// The occurrences that the selection reaches
// ---------------------------------------------------------------------------

/// The bytes reached so far, and the occurrences of the style among them.
#[verifier::ext_equal]
pub struct Reach {
    pub component: Range<usize>,
    pub members: Seq<usize>,
}

/// Does the occurrence touch what is reached?
pub open spec fn reaches(f: FormatNode, component: Range<usize>) -> bool {
    touch(f.content, component) || overlap(f.range, component)
}

/// One pass over the occurrences from `i` on.
pub open spec fn sweep(formats: Seq<FormatNode>, i: int, reach: Reach) -> Reach
    decreases formats.len() - i,
{
    if i >= formats.len() {
        reach
    } else if reach.members.contains(i as usize) || !reaches(formats[i], reach.component) {
        sweep(formats, i + 1, reach)
    } else {
        sweep(
            formats,
            i + 1,
            Reach {
                component: Range {
                    start: lesser(reach.component.start, formats[i].content.start),
                    end: greater(reach.component.end, formats[i].content.end),
                },
                members: reach.members.push(i as usize),
            },
        )
    }
}

/// Passes until one adds nothing, and `rounds` at most.
pub open spec fn swept(formats: Seq<FormatNode>, reach: Reach, rounds: nat) -> Reach
    decreases rounds,
{
    let next = sweep(formats, 0, reach);
    if rounds == 0 || next.members.len() == reach.members.len() {
        reach
    } else {
        swept(formats, next, (rounds - 1) as nat)
    }
}

/// What the selection reaches: itself, and every occurrence of the style that
/// touches what is reached.
pub open spec fn reach_of(formats: Seq<FormatNode>, selected: Range<usize>) -> Reach {
    swept(formats, Reach { component: selected, members: Seq::empty() }, formats.len())
}

fn is_member(members: &Vec<usize>, i: usize) -> (found: bool)
    ensures
        found == members@.contains(i),
{
    let mut k: usize = 0;
    while k < members.len()
        invariant
            k <= members@.len(),
            forall|j: int| 0 <= j < k ==> members@[j] != i,
        decreases members@.len() - k,
    {
        if members[k] == i {
            assert(members@[k as int] == i);
            return true;
        }
        k = k + 1;
    }
    false
}

/// Finds what the selection reaches.
fn find_reach(formats: &Vec<FormatNode>, selected: &Range<usize>) -> (found: (
    Range<usize>,
    Vec<usize>,
))
    ensures
        (Reach { component: found.0, members: found.1@ }) == reach_of(formats@, *selected),
        forall|j: int| 0 <= j < found.1@.len() ==> (#[trigger] found.1@[j]) < formats@.len(),
{
    let mut component = selected.start..selected.end;
    let mut members: Vec<usize> = Vec::new();
    let mut rounds: usize = formats.len();
    assert(members@ =~= Seq::empty());
    while rounds > 0
        invariant_except_break
            reach_of(formats@, *selected) == swept(
                formats@,
                Reach { component, members: members@ },
                rounds as nat,
            ),
        invariant
            forall|j: int| 0 <= j < members@.len() ==> (#[trigger] members@[j]) < formats@.len(),
        ensures
            reach_of(formats@, *selected) == (Reach { component, members: members@ }),
        decreases rounds,
    {
        let ghost reach = Reach { component, members: members@ };
        let count: usize = members.len();
        let mut i: usize = 0;
        while i < formats.len()
            invariant
                i <= formats@.len(),
                count == reach.members.len(),
                sweep(formats@, 0, reach) == sweep(
                    formats@,
                    i as int,
                    Reach { component, members: members@ },
                ),
                members@.len() >= count,
                members@.len() == count ==> (Reach { component, members: members@ }) == reach,
                forall|j: int| 0 <= j < members@.len() ==> (#[trigger] members@[j])
                    < formats@.len(),
            decreases formats@.len() - i,
        {
            let f = &formats[i];
            if !is_member(&members, i) && (touches(&f.content, &component) || overlaps(
                &f.range,
                &component,
            )) {
                component = min_offset(component.start, f.content.start)..max_offset(
                    component.end,
                    f.content.end,
                );
                members.push(i);
            }
            i = i + 1;
        }
        if members.len() == count {
            break ;
        }
        rounds = rounds - 1;
    }
    (component, members)
}

// ---------------------------------------------------------------------------
// Edits
// ---------------------------------------------------------------------------

/// What carries the style, among the members.
pub open spec fn coverage(formats: Seq<FormatNode>, members: Seq<usize>) -> Seq<Range<usize>> {
    Seq::new(members.len(), |i: int| formats[members[i] as int].content)
}

/// What is to carry the style in the island.
pub open spec fn desired_ranges(
    text: Seq<char>,
    area: Area,
    selected: Range<usize>,
    remove: bool,
) -> Seq<Range<usize>> {
    let now = merged(coverage(area.formats, reach_of(area.formats, selected).members));
    split_ranges(
        text,
        area.parts,
        if remove {
            subtracted(now, selected)
        } else {
            merged(now.push(selected))
        },
    )
}

/// Removes the delimiters of the members.
pub open spec fn removals(formats: Seq<FormatNode>, members: Seq<usize>) -> Seq<Edit>
    decreases members.len(),
{
    if members.len() == 0 {
        Seq::empty()
    } else {
        let f = formats[members.last() as int];
        removals(formats, members.drop_last()).push(
            edit(f.opener.start as int, f.opener.end as int, Seq::empty()),
        ).push(edit(f.closer.start as int, f.closer.end as int, Seq::empty()))
    }
}

/// Puts delimiters around the ranges.
pub open spec fn insertions(ranges: Seq<Range<usize>>, format: InlineFormat) -> Seq<Edit>
    decreases ranges.len(),
{
    if ranges.len() == 0 {
        Seq::empty()
    } else {
        let r = ranges.last();
        insertions(ranges.drop_last(), format).push(
            edit(r.start as int, r.start as int, format.sign()),
        ).push(edit(r.end as int, r.end as int, format.sign()))
    }
}

/// The edits of the toggle in one island.
pub open spec fn island_edits(
    text: Seq<char>,
    area: Area,
    selected: Range<usize>,
    remove: bool,
    format: InlineFormat,
) -> Seq<Edit> {
    removals(area.formats, reach_of(area.formats, selected).members) + insertions(
        desired_ranges(text, area, selected, remove),
        format,
    )
}

fn push_edit(edits: &mut Vec<SourceEdit>, start: usize, end: usize, text: &str)
    ensures
        edits_view(final(edits)@) == edits_view(old(edits)@).push(
            edit(start as int, end as int, text@),
        ),
{
    let ghost before = edits_view(edits@);
    let mut replacement = String::new();
    replacement.push_str(text);
    assert(replacement@ =~= text@);
    edits.push(SourceEdit { range: start..end, replacement });
    assert(edits_view(edits@) =~= before.push(edit(start as int, end as int, text@)));
}

fn push_strip(edits: &mut Vec<SourceEdit>, range: &Range<usize>)
    ensures
        edits_view(final(edits)@) == edits_view(old(edits)@).push(
            edit(range.start as int, range.end as int, Seq::empty()),
        ),
{
    let ghost before = edits_view(edits@);
    edits.push(SourceEdit { range: range.start..range.end, replacement: String::new() });
    assert(edits_view(edits@) =~= before.push(
        edit(range.start as int, range.end as int, Seq::empty()),
    ));
}

fn push_island_edits(
    formats: &Vec<FormatNode>,
    members: &Vec<usize>,
    desired: &Vec<Range<usize>>,
    format: InlineFormat,
    edits: &mut Vec<SourceEdit>,
)
    requires
        forall|j: int| 0 <= j < members@.len() ==> (#[trigger] members@[j]) < formats@.len(),
    ensures
        edits_view(final(edits)@) == edits_view(old(edits)@) + (removals(formats@, members@)
            + insertions(desired@, format)),
{
    let ghost before = edits_view(edits@);
    let mut k: usize = 0;
    assert(members@.take(0) =~= Seq::empty());
    while k < members.len()
        invariant
            k <= members@.len(),
            forall|j: int| 0 <= j < members@.len() ==> (#[trigger] members@[j]) < formats@.len(),
            edits_view(edits@) =~= before + removals(formats@, members@.take(k as int)),
        decreases members@.len() - k,
    {
        proof {
            assert(members@.take(k + 1).drop_last() =~= members@.take(k as int));
            assert(members@.take(k + 1).last() == members@[k as int]);
        }
        let f = &formats[members[k]];
        push_strip(edits, &f.opener);
        push_strip(edits, &f.closer);
        k = k + 1;
    }
    assert(members@.take(k as int) =~= members@);
    let ghost stripped = edits_view(edits@);
    k = 0;
    assert(desired@.take(0) =~= Seq::empty());
    while k < desired.len()
        invariant
            k <= desired@.len(),
            edits_view(edits@) =~= stripped + insertions(desired@.take(k as int), format),
        decreases desired@.len() - k,
    {
        proof {
            assert(desired@.take(k + 1).drop_last() =~= desired@.take(k as int));
            assert(desired@.take(k + 1).last() == desired@[k as int]);
        }
        let start: usize = desired[k].start;
        let end: usize = desired[k].end;
        push_edit(edits, start, start, format.delimiter());
        push_edit(edits, end, end, format.delimiter());
        k = k + 1;
    }
    assert(desired@.take(k as int) =~= desired@);
    assert(edits_view(edits@) =~= before + (removals(formats@, members@) + insertions(
        desired@,
        format,
    )));
}

// ---------------------------------------------------------------------------
// Expectations
// ---------------------------------------------------------------------------

/// The styles of a character.
#[derive(Debug, Clone, Copy, PartialEq, Eq, Structural)]
pub struct InlineStyles {
    pub strong: bool,
    pub emphasis: bool,
    pub strikethrough: bool,
}

/// The styles that the character at `offset` is to have after the toggle.
#[derive(Debug, Clone, Copy, PartialEq, Eq, Structural)]
pub struct StyleExpectation {
    pub offset: usize,
    pub styles: InlineStyles,
}

/// No style at all.
pub open spec fn no_styles() -> InlineStyles {
    InlineStyles { strong: false, emphasis: false, strikethrough: false }
}

/// `styles` with the toggled style set or cleared.
pub open spec fn with_style(styles: InlineStyles, format: InlineFormat, on: bool) -> InlineStyles {
    match format {
        InlineFormat::Strong => InlineStyles {
            strong: on,
            emphasis: styles.emphasis,
            strikethrough: styles.strikethrough,
        },
        InlineFormat::Emphasis => InlineStyles {
            strong: styles.strong,
            emphasis: on,
            strikethrough: styles.strikethrough,
        },
    }
}

/// The styles that a list of contexts gives, on top of `styles`.
pub open spec fn context_styles(styles: InlineStyles, context: Seq<InlineContext>) -> InlineStyles
    decreases context.len(),
{
    if context.len() == 0 {
        styles
    } else {
        let s = context_styles(styles, context.drop_last());
        match context.last().kind {
            InlineContextKind::Strong => InlineStyles {
                strong: true,
                emphasis: s.emphasis,
                strikethrough: s.strikethrough,
            },
            InlineContextKind::Emphasis => InlineStyles {
                strong: s.strong,
                emphasis: true,
                strikethrough: s.strikethrough,
            },
            InlineContextKind::Strikethrough => InlineStyles {
                strong: s.strong,
                emphasis: s.emphasis,
                strikethrough: true,
            },
            InlineContextKind::Link => s,
        }
    }
}

/// The styles of a piece before the toggle.
pub open spec fn part_styles(p: Part, format: InlineFormat) -> InlineStyles {
    context_styles(with_style(no_styles(), format, p.styled), p.context)
}

/// What is expected of the characters of a piece from character `i` on: the
/// styles that the piece has, with the toggled style changed where the toggle
/// acts. White space does not count.
pub open spec fn part_expectations(
    text: Seq<char>,
    p: Part,
    i: int,
    limit: int,
    selected: Range<usize>,
    remove: bool,
    format: InlineFormat,
) -> Seq<StyleExpectation>
    decreases limit - i,
{
    if i >= limit {
        Seq::empty()
    } else {
        let rest = part_expectations(text, p, i + 1, limit, selected, remove, format);
        let offset = byte_offset(text, i) as usize;
        if whitespace(text[i]) {
            rest
        } else if participates(p, selected) && selected.start <= offset < selected.end {
            seq![
                StyleExpectation {
                    offset,
                    styles: with_style(part_styles(p, format), format, !remove),
                },
            ] + rest
        } else {
            seq![StyleExpectation { offset, styles: part_styles(p, format) }] + rest
        }
    }
}

/// What is expected of the pieces that are reached.
pub open spec fn expectations_in(
    text: Seq<char>,
    parts: Seq<Part>,
    component: Range<usize>,
    selected: Range<usize>,
    remove: bool,
    format: InlineFormat,
) -> Seq<StyleExpectation>
    decreases parts.len(),
{
    if parts.len() == 0 {
        Seq::empty()
    } else {
        let p = parts.last();
        let before = expectations_in(
            text,
            parts.drop_last(),
            component,
            selected,
            remove,
            format,
        );
        if overlap(p.range, component) {
            before + part_expectations(
                text,
                p,
                index_at(text, p.range.start as int),
                index_at(text, p.range.end as int),
                selected,
                remove,
                format,
            )
        } else {
            before
        }
    }
}

/// What is expected in one island.
pub open spec fn island_expectations(
    text: Seq<char>,
    area: Area,
    selected: Range<usize>,
    remove: bool,
    format: InlineFormat,
) -> Seq<StyleExpectation> {
    expectations_in(
        text,
        area.parts,
        reach_of(area.formats, selected).component,
        selected,
        remove,
        format,
    )
}

pub fn plain_styles() -> (styles: InlineStyles)
    ensures
        styles == no_styles(),
{
    InlineStyles { strong: false, emphasis: false, strikethrough: false }
}

fn set_style(styles: InlineStyles, format: InlineFormat, on: bool) -> (changed: InlineStyles)
    ensures
        changed == with_style(styles, format, on),
{
    let mut changed = styles;
    match format {
        InlineFormat::Strong => {
            changed.strong = on;
        },
        InlineFormat::Emphasis => {
            changed.emphasis = on;
        },
    }
    changed
}

fn styles_for_atom(atom: &Atom, format: InlineFormat) -> (styles: InlineStyles)
    ensures
        styles == part_styles(atom@, format),
{
    let ghost first = with_style(no_styles(), format, atom.styled);
    let mut styles = set_style(plain_styles(), format, atom.styled);
    let ghost all = atom.context@;
    let mut i: usize = 0;
    assert(all.take(0) =~= Seq::empty());
    while i < atom.context.len()
        invariant
            i <= atom.context@.len(),
            all == atom.context@,
            styles == context_styles(first, all.take(i as int)),
        decreases atom.context@.len() - i,
    {
        proof {
            assert(all.take(i + 1).drop_last() =~= all.take(i as int));
            assert(all.take(i + 1).last() == all[i as int]);
        }
        match atom.context[i].kind {
            InlineContextKind::Strong => {
                styles.strong = true;
            },
            InlineContextKind::Emphasis => {
                styles.emphasis = true;
            },
            InlineContextKind::Strikethrough => {
                styles.strikethrough = true;
            },
            InlineContextKind::Link => {},
        }
        i = i + 1;
    }
    assert(all.take(i as int) =~= all);
    styles
}

fn push_atom_expectations(
    glyphs: &Glyphs,
    atom: &Atom,
    selected: &Range<usize>,
    remove: bool,
    format: InlineFormat,
    out: &mut Vec<StyleExpectation>,
)
    ensures
        final(out)@ == old(out)@ + part_expectations(
            glyphs@,
            atom@,
            index_at(glyphs@, atom.range.start as int),
            index_at(glyphs@, atom.range.end as int),
            *selected,
            remove,
            format,
        ),
{
    let first: usize = glyphs.index_of(atom.range.start);
    let limit: usize = glyphs.index_of(atom.range.end);
    let own = styles_for_atom(atom, format);
    let acts = atom_participates(atom, selected);
    let toggled = set_style(own, format, !remove);
    let ghost all = out@ + part_expectations(
        glyphs@,
        atom@,
        first as int,
        limit as int,
        *selected,
        remove,
        format,
    );
    let mut i: usize = first;
    while i < limit
        invariant
            limit <= glyphs@.len(),
            own == part_styles(atom@, format),
            acts == participates(atom@, *selected),
            toggled == with_style(own, format, !remove),
            all == out@ + part_expectations(
                glyphs@,
                atom@,
                i as int,
                limit as int,
                *selected,
                remove,
                format,
            ),
        decreases limit - i,
    {
        let ghost before = out@;
        let ghost rest = part_expectations(
            glyphs@,
            atom@,
            i + 1,
            limit as int,
            *selected,
            remove,
            format,
        );
        if !glyphs.char_at(i).is_whitespace() {
            let offset: usize = glyphs.offset_of(i);
            if acts && selected.start <= offset && offset < selected.end {
                out.push(StyleExpectation { offset, styles: toggled });
            } else {
                out.push(StyleExpectation { offset, styles: own });
            }
        }
        assert(all =~= out@ + rest);
        i = i + 1;
    }
    assert(out@ =~= all);
}

/// Appends the edits of the toggle in one island, and what is expected of the
/// characters that they concern.
pub fn plan_island(
    glyphs: &Glyphs,
    island: &Island,
    selected: &Range<usize>,
    remove: bool,
    format: InlineFormat,
    edits: &mut Vec<SourceEdit>,
    expectations: &mut Vec<StyleExpectation>,
)
    ensures
        edits_view(final(edits)@) == edits_view(old(edits)@) + island_edits(
            glyphs@,
            island@,
            *selected,
            remove,
            format,
        ),
        final(expectations)@ == old(expectations)@ + island_expectations(
            glyphs@,
            island@,
            *selected,
            remove,
            format,
        ),
{
    let ghost reach = reach_of(island.formats@, *selected);
    let (component, members) = find_reach(&island.formats, selected);
    let mut covered: Vec<Range<usize>> = Vec::new();
    let mut k: usize = 0;
    while k < members.len()
        invariant
            k <= members@.len(),
            forall|j: int| 0 <= j < members@.len() ==> (#[trigger] members@[j])
                < island.formats@.len(),
            covered@ =~= coverage(island.formats@, members@).take(k as int),
        decreases members@.len() - k,
    {
        let content = &island.formats[members[k]].content;
        covered.push(content.start..content.end);
        k = k + 1;
    }
    assert(covered@ =~= coverage(island.formats@, members@));
    let mut now = merge_ranges(covered);
    let wanted = if remove {
        subtract_ranges(&now, selected)
    } else {
        now.push(selected.start..selected.end);
        merge_ranges(now)
    };
    let desired = split_at_inline_contexts(glyphs, &island.atoms, &wanted);
    push_island_edits(&island.formats, &members, &desired, format, edits);

    let ghost parts = atoms_view(island.atoms@);
    let ghost before = expectations@;
    k = 0;
    assert(parts.take(0) =~= Seq::empty());
    while k < island.atoms.len()
        invariant
            k <= island.atoms@.len(),
            parts == atoms_view(island.atoms@),
            expectations@ =~= before + expectations_in(
                glyphs@,
                parts.take(k as int),
                component,
                *selected,
                remove,
                format,
            ),
        decreases island.atoms@.len() - k,
    {
        let atom = &island.atoms[k];
        proof {
            assert(parts.take(k + 1).drop_last() =~= parts.take(k as int));
            assert(parts.take(k + 1).last() == atom@);
        }
        if overlaps(&atom.range, &component) {
            push_atom_expectations(glyphs, atom, selected, remove, format, expectations);
        }
        k = k + 1;
    }
    assert(parts.take(k as int) =~= parts);
}

// ---------------------------------------------------------------------------
// Laws
// ---------------------------------------------------------------------------

/// Are the members different occurrences among the first `n`?
pub open spec fn distinct_below(members: Seq<usize>, n: int) -> bool {
    &&& forall|j: int| 0 <= j < members.len() ==> (#[trigger] members[j]) < n
    &&& forall|i: int, j: int|
        0 <= i < j < members.len() ==> #[trigger] members[i] != #[trigger] members[j]
}

proof fn lemma_distinct_bound(members: Seq<usize>, n: int)
    requires
        0 <= n,
        distinct_below(members, n),
    ensures
        members.len() <= n,
    decreases n,
{
    if n == 0 {
        if members.len() > 0 {
            assert(members[0] < n);
        }
    } else if exists|k: int| 0 <= k < members.len() && #[trigger] members[k] == n - 1 {
        let k = choose|k: int| 0 <= k < members.len() && #[trigger] members[k] == n - 1;
        let rest = members.remove(k);
        assert forall|j: int| 0 <= j < rest.len() implies (#[trigger] rest[j]) < n - 1 by {
            let at = if j < k { j } else { j + 1 };
            assert(rest[j] == members[at]);
            assert(members[at] < n);
            if at < k {
                assert(members[at] != members[k]);
            } else {
                assert(members[k] != members[at]);
            }
        }
        assert forall|i: int, j: int| 0 <= i < j < rest.len() implies #[trigger] rest[i]
            != #[trigger] rest[j] by {
            let a = if i < k { i } else { i + 1 };
            let c = if j < k { j } else { j + 1 };
            assert(rest[i] == members[a]);
            assert(rest[j] == members[c]);
        }
        lemma_distinct_bound(rest, n - 1);
    } else {
        assert forall|j: int| 0 <= j < members.len() implies (#[trigger] members[j]) < n - 1 by {
            assert(members[j] != n - 1);
        }
        lemma_distinct_bound(members, n - 1);
    }
}

/// Is every occurrence that touches what is reached a member?
pub open spec fn is_closed(formats: Seq<FormatNode>, reach: Reach) -> bool {
    forall|i: int|
        0 <= i < formats.len() && reaches(#[trigger] formats[i], reach.component)
            ==> reach.members.contains(i as usize)
}

proof fn lemma_sweep(formats: Seq<FormatNode>, i: int, reach: Reach)
    requires
        0 <= i,
        formats.len() <= usize::MAX,
        distinct_below(reach.members, formats.len() as int),
    ensures
        distinct_below(sweep(formats, i, reach).members, formats.len() as int),
        sweep(formats, i, reach).members.len() >= reach.members.len(),
        sweep(formats, i, reach).members.len() == reach.members.len() ==> sweep(formats, i, reach)
            == reach && forall|j: int|
            i <= j < formats.len() && reaches(#[trigger] formats[j], reach.component)
                ==> reach.members.contains(j as usize),
    decreases formats.len() - i,
{
    if i < formats.len() {
        if reach.members.contains(i as usize) || !reaches(formats[i], reach.component) {
            lemma_sweep(formats, i + 1, reach);
        } else {
            let next = Reach {
                component: Range {
                    start: lesser(reach.component.start, formats[i].content.start),
                    end: greater(reach.component.end, formats[i].content.end),
                },
                members: reach.members.push(i as usize),
            };
            assert forall|a: int, c: int| 0 <= a < c < next.members.len() implies
                #[trigger] next.members[a] != #[trigger] next.members[c] by {
                if c == reach.members.len() {
                    assert(reach.members[a] == next.members[a]);
                    assert(reach.members.contains(reach.members[a]));
                }
            }
            lemma_sweep(formats, i + 1, next);
        }
    }
}

proof fn lemma_swept(formats: Seq<FormatNode>, reach: Reach, rounds: nat)
    requires
        formats.len() <= usize::MAX,
        distinct_below(reach.members, formats.len() as int),
        reach.members.len() + rounds >= formats.len(),
    ensures
        is_closed(formats, swept(formats, reach, rounds)),
        distinct_below(swept(formats, reach, rounds).members, formats.len() as int),
    decreases rounds,
{
    lemma_sweep(formats, 0, reach);
    if rounds == 0 {
        assert forall|i: int|
            0 <= i < formats.len() && reaches(
                #[trigger] formats[i],
                reach.component,
            ) implies reach.members.contains(i as usize) by {
            if !reach.members.contains(i as usize) {
                let more = reach.members.push(i as usize);
                assert forall|a: int, c: int| 0 <= a < c < more.len() implies #[trigger] more[a]
                    != #[trigger] more[c] by {
                    if c == reach.members.len() {
                        assert(reach.members[a] == more[a]);
                        assert(reach.members.contains(reach.members[a]));
                    }
                }
                lemma_distinct_bound(more, formats.len() as int);
            }
        }
    } else {
        let next = sweep(formats, 0, reach);
        if next.members.len() != reach.members.len() {
            lemma_swept(formats, next, (rounds - 1) as nat);
        }
    }
}

/// What is reached is closed: every occurrence of the style that touches it is
/// a member, and once only, so no delimiter of the style is left next to new
/// ones.
pub proof fn reach_is_closed(formats: Seq<FormatNode>, selected: Range<usize>)
    requires
        formats.len() <= usize::MAX,
    ensures
        is_closed(formats, reach_of(formats, selected)),
        distinct_below(reach_of(formats, selected).members, formats.len() as int),
{
    lemma_swept(
        formats,
        Reach { component: selected, members: Seq::empty() },
        formats.len(),
    );
}

} // verus!
