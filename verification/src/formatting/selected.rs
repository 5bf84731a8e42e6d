//! Selected text gets the delimiters of the style.

use core::ops::Range;

use vstd::prelude::*;

use crate::analysis::edits::{edit, in_order, insert_in_order};
use crate::embed::EmbedBlock;
use crate::formatting::atoms::{FormatNode, InlineFormat, Part};
use crate::formatting::islands::{areas_in, Area};
use crate::formatting::plan::{
    coverage,
    desired_ranges,
    insertions,
    island_edits,
    reach_of,
    reaches,
    removals,
    split_parts,
    split_ranges,
    sweep,
    swept,
    Reach,
    Split,
};
use crate::formatting::ranges::{joined_ranges, merged, sorted_ranges, subtracted};
use crate::formatting::rewrite::{applied, applied_from, conflicting, deduped};
use crate::formatting::targets::{
    all_styled, first_participant, last_participant, participates, range_in_area, ranges_in_areas,
    removes, substantive, targets,
};
use crate::formatting::toggle::{plan, target_edits};
use crate::state::Selection;
use crate::strings::byte_offset;
use crate::syntax::Node;
use crate::text::bytes_of;
use crate::words::{
    has_text, index_at, lemma_index_of_offset, lemma_offsets_grow, slice, trimmed, white_end,
    white_start, whitespace,
};

verus! {

/// Does the range hold no byte from `s` to `e`?
pub open spec fn clear_of(range: Range<usize>, s: int, e: int) -> bool {
    range.end <= s || e <= range.start
}

/// Is `[s, e)` part of one piece of ordinary text without the style, piece `k` of
/// island `a`, and of no other piece, with no occurrence of the style next to it?
pub open spec fn is_plain(areas: Seq<Area>, a: int, k: int, s: int, e: int) -> bool {
    &&& 0 <= a < areas.len()
    &&& 0 <= k < areas[a].parts.len()
    &&& areas[a].range.start <= s
    &&& e <= areas[a].range.end
    &&& areas[a].parts[k].range.start <= s
    &&& e <= areas[a].parts[k].range.end
    &&& areas[a].parts[k].eligibility is Partial
    &&& !areas[a].parts[k].styled
    &&& forall|c: int, m: int|
        0 <= c < areas.len() && 0 <= m < areas[c].parts.len() && (c != a || m != k) ==> clear_of(
            (#[trigger] areas[c].parts[m]).range,
            s,
            e,
        )
    &&& forall|f: int|
        0 <= f < areas[a].formats.len() ==> {
            &&& (#[trigger] areas[a].formats[f]).range.end < s || e < areas[a].formats[f].range.start
            &&& areas[a].formats[f].content.end < s || e < areas[a].formats[f].content.start
        }
}

/// Is `[s, e)` the characters `i` to `j` of the text, which begin and end with
/// something other than white space?
pub open spec fn is_stretch(text: Seq<char>, i: int, j: int, s: int, e: int) -> bool {
    &&& 0 <= i < j <= text.len()
    &&& s == byte_offset(text, i)
    &&& e == byte_offset(text, j)
    &&& !whitespace(text[i])
    &&& !whitespace(text[j - 1])
}

proof fn lemma_trimmed(text: Seq<char>, i: int, j: int, s: int, e: int)
    requires
        is_stretch(text, i, j, s, e),
        bytes_of(text).len() <= usize::MAX,
    ensures
        0 <= s < e <= bytes_of(text).len(),
        index_at(text, s) == i,
        index_at(text, e) == j,
        trimmed(text, s, e) == Some(Range { start: s as usize, end: e as usize }),
        has_text(text, s, e),
{
    lemma_index_of_offset(text, i);
    lemma_index_of_offset(text, j);
    lemma_offsets_grow(text, i, j);
    assert(white_end(text, i, j) == i);
    assert(white_start(text, j, i) == j);
    assert(!whitespace(text[i]));
}

proof fn lemma_no_participant(parts: Seq<Part>, n: int, selected: Range<usize>)
    requires
        0 <= n <= parts.len(),
        forall|m: int|
            0 <= m < parts.len() ==> clear_of(
                (#[trigger] parts[m]).range,
                selected.start as int,
                selected.end as int,
            ),
    ensures
        first_participant(parts, n, selected) is None,
    decreases parts.len() - n,
{
    if n < parts.len() {
        assert(clear_of(parts[n].range, selected.start as int, selected.end as int));
        lemma_no_participant(parts, n + 1, selected);
    }
}

proof fn lemma_only_participant(parts: Seq<Part>, k: int, n: int, selected: Range<usize>)
    requires
        0 <= k < parts.len(),
        0 <= n <= parts.len(),
        participates(parts[k], selected),
        forall|m: int|
            0 <= m < parts.len() && m != k ==> clear_of(
                (#[trigger] parts[m]).range,
                selected.start as int,
                selected.end as int,
            ),
    ensures
        n <= k ==> first_participant(parts, n, selected) == Some(parts[k]),
        k < n ==> last_participant(parts, n, selected) == Some(parts[k]),
    decreases if n <= k { k - n } else { n - k },
{
    if n < k {
        assert(clear_of(parts[n].range, selected.start as int, selected.end as int));
        lemma_only_participant(parts, k, n + 1, selected);
    } else if k + 1 < n {
        assert(clear_of(parts[n - 1].range, selected.start as int, selected.end as int));
        lemma_only_participant(parts, k, n - 1, selected);
    }
}

proof fn lemma_targets(
    text: Seq<char>,
    areas: Seq<Area>,
    a: int,
    k: int,
    i: int,
    j: int,
    selected: Range<usize>,
    n: int,
)
    requires
        is_plain(areas, a, k, selected.start as int, selected.end as int),
        is_stretch(text, i, j, selected.start as int, selected.end as int),
        bytes_of(text).len() <= usize::MAX,
        0 <= n <= areas.len(),
    ensures
        ranges_in_areas(text, areas.take(n), selected) == if a < n {
            seq![(a as usize, selected)]
        } else {
            Seq::empty()
        },
    decreases n,
{
    lemma_trimmed(text, i, j, selected.start as int, selected.end as int);
    if n > 0 {
        lemma_targets(text, areas, a, k, i, j, selected, n - 1);
        let shown = areas.take(n);
        let area = areas[n - 1];
        assert(shown.drop_last() =~= areas.take(n - 1));
        assert(shown.last() == area);
        if n - 1 == a {
            assert(participates(area.parts[k], selected));
            assert forall|m: int| 0 <= m < area.parts.len() && m != k implies clear_of(
                (#[trigger] area.parts[m]).range,
                selected.start as int,
                selected.end as int,
            ) by {
                assert(clear_of(
                    areas[a].parts[m].range,
                    selected.start as int,
                    selected.end as int,
                ));
            }
            lemma_only_participant(area.parts, k, 0, selected);
            lemma_only_participant(area.parts, k, area.parts.len() as int, selected);
            assert(range_in_area(text, area, selected) == Some(selected));
            assert(ranges_in_areas(text, shown, selected) =~= seq![(a as usize, selected)]);
        } else {
            assert forall|m: int| 0 <= m < area.parts.len() implies clear_of(
                (#[trigger] area.parts[m]).range,
                selected.start as int,
                selected.end as int,
            ) by {
                assert(clear_of(
                    areas[n - 1].parts[m].range,
                    selected.start as int,
                    selected.end as int,
                ));
            }
            lemma_no_participant(area.parts, 0, selected);
        }
    }
}

proof fn lemma_no_reach(formats: Seq<FormatNode>, n: int, reach: Reach)
    requires
        0 <= n,
        forall|f: int|
            0 <= f < formats.len() ==> !reaches(#[trigger] formats[f], reach.component),
    ensures
        sweep(formats, n, reach) == reach,
    decreases formats.len() - n,
{
    if n < formats.len() {
        assert(!reaches(formats[n], reach.component));
        lemma_no_reach(formats, n + 1, reach);
    }
}

proof fn lemma_split(
    text: Seq<char>,
    parts: Seq<Part>,
    k: int,
    selected: Range<usize>,
    n: int,
)
    requires
        0 <= k < parts.len(),
        0 <= n <= parts.len(),
        selected.start < selected.end,
        parts[k].eligibility is Partial,
        parts[k].range.start <= selected.start,
        selected.end <= parts[k].range.end,
        forall|m: int|
            0 <= m < parts.len() && m != k ==> clear_of(
                (#[trigger] parts[m]).range,
                selected.start as int,
                selected.end as int,
            ),
    ensures
        split_parts(text, parts.take(n), selected, Seq::empty()) == (Split {
            out: Seq::empty(),
            open: if k < n {
                Some((parts[k].context, selected))
            } else {
                None
            },
        }),
    decreases n,
{
    if n > 0 {
        lemma_split(text, parts, k, selected, n - 1);
        assert(parts.take(n).drop_last() =~= parts.take(n - 1));
        assert(parts.take(n).last() == parts[n - 1]);
        if n - 1 != k {
            assert(clear_of(parts[n - 1].range, selected.start as int, selected.end as int));
        }
    }
}

proof fn lemma_island(
    text: Seq<char>,
    area: Area,
    k: int,
    i: int,
    j: int,
    selected: Range<usize>,
    format: InlineFormat,
)
    requires
        is_plain(seq![area], 0, k, selected.start as int, selected.end as int),
        is_stretch(text, i, j, selected.start as int, selected.end as int),
        bytes_of(text).len() <= usize::MAX,
    ensures
        island_edits(text, area, selected, false, format) == seq![
            edit(selected.start as int, selected.start as int, format.sign()),
            edit(selected.end as int, selected.end as int, format.sign()),
        ],
{
    let areas = seq![area];
    let none: Seq<usize> = Seq::empty();
    let reach = Reach { component: selected, members: none };
    assert forall|f: int| 0 <= f < area.formats.len() implies !reaches(
        #[trigger] area.formats[f],
        selected,
    ) by {
        assert(areas[0].formats[f] == area.formats[f]);
    }
    lemma_trimmed(text, i, j, selected.start as int, selected.end as int);
    lemma_no_reach(area.formats, 0, reach);
    assert(reach_of(area.formats, selected) == reach);
    assert(removals(area.formats, none) =~= Seq::empty());
    let now = merged(coverage(area.formats, none));
    assert(coverage(area.formats, none) =~= Seq::empty());
    assert(now =~= Seq::<Range<usize>>::empty());
    let wanted = now.push(selected);
    assert(wanted.drop_last() =~= Seq::empty());
    reveal_with_fuel(sorted_ranges, 2);
    reveal_with_fuel(joined_ranges, 2);
    assert(sorted_ranges(wanted) =~= seq![selected]);
    assert(seq![selected].drop_last() =~= Seq::empty());
    assert(merged(wanted) =~= seq![selected]);
    assert forall|m: int| 0 <= m < area.parts.len() && m != k implies clear_of(
        (#[trigger] area.parts[m]).range,
        selected.start as int,
        selected.end as int,
    ) by {
        assert(clear_of(areas[0].parts[m].range, selected.start as int, selected.end as int));
    }
    lemma_split(text, area.parts, k, selected, area.parts.len() as int);
    assert(area.parts.take(area.parts.len() as int) =~= area.parts);
    reveal_with_fuel(split_ranges, 2);
    assert(split_ranges(text, area.parts, seq![selected]) =~= seq![selected]);
    reveal_with_fuel(insertions, 2);
    assert(insertions(seq![selected], format) =~= seq![
        edit(selected.start as int, selected.start as int, format.sign()),
        edit(selected.end as int, selected.end as int, format.sign()),
    ]);
    assert(island_edits(text, area, selected, false, format) =~= seq![
        edit(selected.start as int, selected.start as int, format.sign()),
        edit(selected.end as int, selected.end as int, format.sign()),
    ]);
}

/// A selected stretch of plain text is the one target of a toggle, which applies the
/// style there.
pub proof fn lemma_found(
    text: Seq<char>,
    selection: Selection,
    areas: Seq<Area>,
    a: int,
    k: int,
    i: int,
    j: int,
)
    requires
        is_plain(areas, a, k, selection.low() as int, selection.high() as int),
        is_stretch(text, i, j, selection.low() as int, selection.high() as int),
        bytes_of(text).len() <= usize::MAX,
        a <= usize::MAX,
    ensures
        targets(text, selection, areas) == seq![
            (a as usize, Range { start: selection.low(), end: selection.high() }),
        ],
        !removes(text, areas, targets(text, selection, areas)),
{
    let selected = Range { start: selection.low(), end: selection.high() };
    lemma_trimmed(text, i, j, selected.start as int, selected.end as int);
    lemma_targets(text, areas, a, k, i, j, selected, areas.len() as int);
    assert(areas.take(areas.len() as int) =~= areas);
    let found = targets(text, selection, areas);
    assert(found == seq![(a as usize, selected)]);
    let part = areas[a].parts[k];
    assert(participates(part, selected));
    assert(substantive(text, part, selected));
    assert(!all_styled(text, areas[a].parts, selected));
    assert(found[0].0 == a);
}

/// A toggle over a stretch of text without the style puts delimiters around it:
/// two stars for bold, one for italic, right before its first character and right
/// behind its last, and nothing else. The selection may go either way.
pub proof fn plain_text_gets_delimiters(
    text: Seq<char>,
    selection: Selection,
    tree: Seq<Node>,
    blocks: Seq<EmbedBlock>,
    format: InlineFormat,
    a: int,
    k: int,
    i: int,
    j: int,
)
    requires
        is_plain(
            areas_in(tree, bytes_of(text), blocks, format),
            a,
            k,
            selection.low() as int,
            selection.high() as int,
        ),
        is_stretch(text, i, j, selection.low() as int, selection.high() as int),
        bytes_of(text).len() <= usize::MAX,
        a <= usize::MAX,
    ensures
        ({
            let stars = match format {
                InlineFormat::Strong => seq!['*', '*'],
                InlineFormat::Emphasis => seq!['*'],
            };
            &&& plan(text, selection, tree, blocks, format) is Some
            &&& plan(text, selection, tree, blocks, format)->0.edits == seq![
                edit(selection.low() as int, selection.low() as int, stars),
                edit(selection.high() as int, selection.high() as int, stars),
            ]
            &&& applied(text, plan(text, selection, tree, blocks, format)->0.edits) == text.take(i)
                + stars + text.subrange(i, j) + stars + text.skip(j)
        }),
{
    let areas = areas_in(tree, bytes_of(text), blocks, format);
    let s = selection.low();
    let e = selection.high();
    let selected = Range { start: s, end: e };
    lemma_trimmed(text, i, j, s as int, e as int);
    lemma_found(text, selection, areas, a, k, i, j);
    let found = targets(text, selection, areas);
    assert forall|c: int, m: int|
        0 <= c < 1 && 0 <= m < seq![areas[a]][c].parts.len() && (c != 0 || m != k) implies clear_of(
        (#[trigger] seq![areas[a]][c].parts[m]).range,
        s as int,
        e as int,
    ) by {
        assert(clear_of(areas[a].parts[m].range, s as int, e as int));
    }
    assert(is_plain(seq![areas[a]], 0, k, s as int, e as int));
    lemma_island(text, areas[a], k, i, j, selected, format);
    let one = edit(s as int, s as int, format.sign());
    let two = edit(e as int, e as int, format.sign());
    reveal_with_fuel(target_edits, 2);
    assert(found.drop_last() =~= Seq::empty());
    let edits = target_edits(text, areas, found, false, format);
    assert(edits =~= seq![one, two]);
    reveal_with_fuel(in_order, 3);
    reveal_with_fuel(insert_in_order, 2);
    assert(edits.drop_last() =~= seq![one]);
    assert(seq![one].drop_last() =~= Seq::empty());
    assert(in_order(seq![one]) =~= seq![one]);
    assert(in_order(edits) =~= seq![one, two]);
    reveal_with_fuel(deduped, 3);
    assert(seq![one, two].drop_last() =~= seq![one]);
    assert(deduped(seq![one]) =~= seq![one]);
    assert(deduped(seq![one, two]) =~= seq![one, two]);
    assert(!conflicting(seq![one, two]));
    reveal_strlit("**");
    reveal_strlit("*");
    assert(format.sign() =~= match format {
        InlineFormat::Strong => seq!['*', '*'],
        InlineFormat::Emphasis => seq!['*'],
    });
    reveal_with_fuel(applied_from, 3);
    assert(byte_offset(text, 0) == 0) by {
        assert(text.take(0) =~= Seq::empty());
    }
    lemma_index_of_offset(text, 0);
    lemma_index_of_offset(text, text.len() as int);
    assert(text.take(text.len() as int) =~= text);
    assert(slice(text, 0, s as int) =~= text.take(i));
    assert(slice(text, s as int, e as int) =~= text.subrange(i, j));
    assert(slice(text, e as int, bytes_of(text).len() as int) =~= text.skip(j));
    assert(applied(text, seq![one, two]) =~= text.take(i) + format.sign() + text.subrange(i, j)
        + format.sign() + text.skip(j));
}

/// Is `[s, e)` the content of an occurrence `f` of the style in island `a`, one
/// piece `k` of ordinary text, with its delimiters on both sides, and of no other
/// piece, with no other occurrence of the style next to it?
pub open spec fn is_styled(areas: Seq<Area>, a: int, k: int, f: int, s: int, e: int) -> bool {
    &&& 0 <= a < areas.len()
    &&& 0 <= k < areas[a].parts.len()
    &&& 0 <= f < areas[a].formats.len()
    &&& areas[a].range.start < s
    &&& e < areas[a].range.end
    &&& areas[a].parts[k].range.start <= s
    &&& e <= areas[a].parts[k].range.end
    &&& areas[a].parts[k].eligibility is Partial
    &&& areas[a].parts[k].styled
    &&& areas[a].formats[f].content.start == s
    &&& areas[a].formats[f].content.end == e
    &&& areas[a].formats[f].opener.start < areas[a].formats[f].opener.end <= s
    &&& e <= areas[a].formats[f].closer.start < areas[a].formats[f].closer.end
    &&& forall|c: int, m: int|
        0 <= c < areas.len() && 0 <= m < areas[c].parts.len() && (c != a || m != k) ==> clear_of(
            (#[trigger] areas[c].parts[m]).range,
            s,
            e,
        )
    &&& forall|g: int|
        0 <= g < areas[a].formats.len() && g != f ==> {
            &&& (#[trigger] areas[a].formats[g]).range.end < s || e < areas[a].formats[g].range.start
            &&& areas[a].formats[g].content.end < s || e < areas[a].formats[g].content.start
        }
}

proof fn lemma_one_reach(
    formats: Seq<FormatNode>,
    f: int,
    n: int,
    selected: Range<usize>,
)
    requires
        0 <= n <= formats.len() <= usize::MAX,
        0 <= f < formats.len(),
        formats[f].content == selected,
        selected.start < selected.end,
        forall|g: int|
            0 <= g < formats.len() && g != f ==> !reaches(#[trigger] formats[g], selected),
    ensures
        ({
            let none = Reach { component: selected, members: Seq::empty() };
            let one = Reach { component: selected, members: seq![f as usize] };
            &&& n <= f ==> sweep(formats, n, none) == one
            &&& sweep(formats, n, one) == one
        }),
    decreases formats.len() - n,
{
    let none = Reach { component: selected, members: Seq::<usize>::empty() };
    let one = Reach { component: selected, members: seq![f as usize] };
    if n < formats.len() {
        lemma_one_reach(formats, f, n + 1, selected);
        if n == f {
            assert(none.members.push(f as usize) =~= one.members);
            assert(one.members[0] == n as usize);
            assert(one.members.contains(n as usize));
            assert(reaches(formats[f], selected));
        } else {
            assert(!reaches(formats[n], selected));
        }
    }
}

proof fn lemma_styled_targets(
    text: Seq<char>,
    areas: Seq<Area>,
    a: int,
    k: int,
    f: int,
    i: int,
    j: int,
    selected: Range<usize>,
    n: int,
)
    requires
        is_styled(areas, a, k, f, selected.start as int, selected.end as int),
        is_stretch(text, i, j, selected.start as int, selected.end as int),
        bytes_of(text).len() <= usize::MAX,
        0 <= n <= areas.len(),
    ensures
        ranges_in_areas(text, areas.take(n), selected) == if a < n {
            seq![(a as usize, selected)]
        } else {
            Seq::empty()
        },
    decreases n,
{
    lemma_trimmed(text, i, j, selected.start as int, selected.end as int);
    if n > 0 {
        lemma_styled_targets(text, areas, a, k, f, i, j, selected, n - 1);
        let shown = areas.take(n);
        let area = areas[n - 1];
        assert(shown.drop_last() =~= areas.take(n - 1));
        assert(shown.last() == area);
        assert forall|m: int| 0 <= m < area.parts.len() && (n - 1 != a || m != k) implies clear_of(
            (#[trigger] area.parts[m]).range,
            selected.start as int,
            selected.end as int,
        ) by {
            assert(clear_of(
                areas[n - 1].parts[m].range,
                selected.start as int,
                selected.end as int,
            ));
        }
        if n - 1 == a {
            assert(participates(area.parts[k], selected));
            lemma_only_participant(area.parts, k, 0, selected);
            lemma_only_participant(area.parts, k, area.parts.len() as int, selected);
            assert(range_in_area(text, area, selected) == Some(selected));
            assert(ranges_in_areas(text, shown, selected) =~= seq![(a as usize, selected)]);
        } else {
            lemma_no_participant(area.parts, 0, selected);
        }
    }
}

/// A toggle over the whole content of an occurrence of the style takes its two
/// delimiters out, and edits nothing else.
pub proof fn styled_text_loses_delimiters(
    text: Seq<char>,
    selection: Selection,
    tree: Seq<Node>,
    blocks: Seq<EmbedBlock>,
    format: InlineFormat,
    a: int,
    k: int,
    f: int,
    i: int,
    j: int,
)
    requires
        ({
            let areas = areas_in(tree, bytes_of(text), blocks, format);
            &&& is_styled(areas, a, k, f, selection.low() as int, selection.high() as int)
            &&& areas[a].formats.len() <= usize::MAX
        }),
        is_stretch(text, i, j, selection.low() as int, selection.high() as int),
        bytes_of(text).len() <= usize::MAX,
        a <= usize::MAX,
    ensures
        ({
            let found = areas_in(tree, bytes_of(text), blocks, format)[a].formats[f];
            &&& plan(text, selection, tree, blocks, format) is Some
            &&& plan(text, selection, tree, blocks, format)->0.edits == seq![
                edit(found.opener.start as int, found.opener.end as int, Seq::empty()),
                edit(found.closer.start as int, found.closer.end as int, Seq::empty()),
            ]
        }),
{
    let areas = areas_in(tree, bytes_of(text), blocks, format);
    let area = areas[a];
    let s = selection.low();
    let e = selection.high();
    let selected = Range { start: s, end: e };
    lemma_trimmed(text, i, j, s as int, e as int);
    lemma_styled_targets(text, areas, a, k, f, i, j, selected, areas.len() as int);
    assert(areas.take(areas.len() as int) =~= areas);
    let found = targets(text, selection, areas);
    assert(found == seq![(a as usize, selected)]);
    assert forall|m: int|
        0 <= m < area.parts.len() && participates(#[trigger] area.parts[m], selected) && substantive(
            text,
            area.parts[m],
            selected,
        ) implies area.parts[m].styled by {
        if m != k {
            assert(clear_of(areas[a].parts[m].range, s as int, e as int));
        }
    }
    assert(all_styled(text, area.parts, selected));
    assert(removes(text, areas, found));
    assert forall|g: int| 0 <= g < area.formats.len() && g != f implies !reaches(
        #[trigger] area.formats[g],
        selected,
    ) by {
        assert(areas[a].formats[g] == area.formats[g]);
    }
    lemma_one_reach(area.formats, f, 0, selected);
    let one = Reach { component: selected, members: seq![f as usize] };
    reveal_with_fuel(swept, 3);
    assert(reach_of(area.formats, selected) == one);
    let node = area.formats[f];
    let first = edit(node.opener.start as int, node.opener.end as int, Seq::empty());
    let second = edit(node.closer.start as int, node.closer.end as int, Seq::empty());
    reveal_with_fuel(removals, 2);
    assert(one.members.drop_last() =~= Seq::empty());
    assert(removals(area.formats, one.members) =~= seq![first, second]);
    let covered = coverage(area.formats, one.members);
    assert(covered =~= seq![selected]);
    reveal_with_fuel(sorted_ranges, 2);
    reveal_with_fuel(joined_ranges, 2);
    assert(seq![selected].drop_last() =~= Seq::empty());
    assert(sorted_ranges(covered) =~= seq![selected]);
    assert(merged(covered) =~= seq![selected]);
    reveal_with_fuel(subtracted, 2);
    assert(subtracted(seq![selected], selected) =~= Seq::empty());
    assert(desired_ranges(text, area, selected, true) =~= Seq::empty());
    assert(insertions(Seq::empty(), format) =~= Seq::empty());
    assert(island_edits(text, area, selected, true, format) =~= seq![first, second]);
    reveal_with_fuel(target_edits, 2);
    assert(found.drop_last() =~= Seq::empty());
    let edits = target_edits(text, areas, found, true, format);
    assert(edits =~= seq![first, second]);
    reveal_with_fuel(in_order, 3);
    reveal_with_fuel(insert_in_order, 2);
    assert(edits.drop_last() =~= seq![first]);
    assert(seq![first].drop_last() =~= Seq::empty());
    assert(in_order(seq![first]) =~= seq![first]);
    assert(in_order(edits) =~= seq![first, second]);
    reveal_with_fuel(deduped, 3);
    assert(seq![first, second].drop_last() =~= seq![first]);
    assert(deduped(seq![first]) =~= seq![first]);
    assert(deduped(seq![first, second]) =~= seq![first, second]);
    assert(!conflicting(seq![first, second]));
}

} // verus!
