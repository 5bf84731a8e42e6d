//! What is drawn of a block: formulas and images in the room that is kept for
//! them, washes over all that is selected, one caret, and the markers of lists.

use core::ops::Range;

use vstd::prelude::*;

use crate::display::block::{
    BlockKind,
    Container,
    ImageOverlay,
    InlineRun,
    ListItemKind,
    MarkerOverlay,
    MathOverlay,
};
use crate::display::layout::{
    caret_line_of,
    first_at_end,
    line_washes,
    scroll_limit,
    spacing,
    spans_between,
    wash_of,
    washes,
    RowPoint,
};
use crate::display::markers::{holder_from, marker_text, painted_markers, painted_text};
use crate::display::overlays::{
    failed_image_runs,
    failed_math_runs,
    image_augment,
    load_of,
    math_augment,
    padded,
    padding_is_wide_enough,
    pads,
    Augment,
    ImageLoad,
    SubstitutionView,
};
use crate::strings::decimal;

verus! {

// ---------------------------------------------------------------------------
// Formulas and images
// ---------------------------------------------------------------------------

/// Is room of at least the width kept in place of the range: narrow spaces that
/// no line is broken at, each as wide as an advance?
pub open spec fn keeps_room(
    subs: Seq<SubstitutionView>,
    range: Range<usize>,
    width: int,
    step: int,
) -> bool {
    exists|s: int|
        0 <= s < subs.len() && (#[trigger] subs[s]).source_range == range && (forall|i: int|
            0 <= i < subs[s].display.len() ==> subs[s].display[i] == '\u{202F}')
            && subs[s].display.len() > 0 && subs[s].display.len() * step >= width
}

/// Is every byte of the stretch in a run with the look: dimmed, or as code?
pub open spec fn is_looked(runs: Seq<InlineRun>, start: int, end: int, code: bool) -> bool {
    start < end ==> exists|r: int|
        0 <= r < runs.len() && (#[trigger] runs[r]).source_range.start == start
            && runs[r].source_range.end == end && runs[r].style.code == code
            && runs[r].style.dimmed == !code && !runs[r].style.bold && !runs[r].style.italic
            && !runs[r].style.link && !runs[r].style.strikethrough && !runs[r].style.table_header
}

proof fn lemma_looked_later(runs: Seq<InlineRun>, more: Seq<InlineRun>, start: int, end: int, code: bool)
    requires
        is_looked(runs, start, end, code),
    ensures
        is_looked(runs + more, start, end, code),
{
    if start < end {
        let r = choose|r: int|
            0 <= r < runs.len() && (#[trigger] runs[r]).source_range.start == start
                && runs[r].source_range.end == end && runs[r].style.code == code
                && runs[r].style.dimmed == !code && !runs[r].style.bold && !runs[r].style.italic
                && !runs[r].style.link && !runs[r].style.strikethrough
                && !runs[r].style.table_header;
        assert((runs + more)[r] == runs[r]);
    }
}

proof fn lemma_room_later(
    subs: Seq<SubstitutionView>,
    sub: SubstitutionView,
    range: Range<usize>,
    width: int,
    step: int,
)
    requires
        keeps_room(subs, range, width, step),
    ensures
        keeps_room(subs.push(sub), range, width, step),
{
    let s = choose|s: int|
        0 <= s < subs.len() && (#[trigger] subs[s]).source_range == range && (forall|i: int|
            0 <= i < subs[s].display.len() ==> subs[s].display[i] == '\u{202F}')
            && subs[s].display.len() > 0 && subs[s].display.len() * step >= width;
    assert(subs.push(sub)[s] == subs[s]);
}

proof fn lemma_room(before: Augment, after: Augment, range: Range<usize>, width: u64, advance: u64, px: u64)
    requires
        px > 0,
        after.substitutions == padded(
            before,
            range,
            width,
            advance,
            px,
            after.painted,
        ).substitutions,
    ensures
        keeps_room(
            after.substitutions,
            range,
            width as int,
            if advance < px {
                px as int
            } else {
                advance as int
            },
        ),
{
    padding_is_wide_enough(width, advance, px);
    let subs = after.substitutions;
    let s = subs.len() - 1;
    assert(subs[s].source_range == range);
    assert(subs[s].display.len() == pads(width, advance, px));
}

/// A formula that is set has its room and is drawn; one that is not is shown as
/// it is written, its delimiters dimmed and the rest as code, and is not drawn.
pub proof fn formulas_have_room_or_show_their_source(
    overlays: Seq<MathOverlay>,
    widths: Seq<Option<u64>>,
    advance: u64,
    px: u64,
    k: int,
    i: int,
)
    requires
        px > 0,
        0 <= i < k <= overlays.len() <= usize::MAX,
    ensures
        ({
            let all = math_augment(overlays, widths, advance, px, k);
            let source = overlays[i].source_range;
            let content = overlays[i].content_range;
            let step = if advance < px {
                px as int
            } else {
                advance as int
            };
            if i < widths.len() && widths[i] is Some {
                &&& all.painted.contains(i as usize)
                &&& keeps_room(all.substitutions, source, widths[i]->0 as int, step)
            } else {
                &&& !all.painted.contains(i as usize)
                &&& is_looked(all.inlines, source.start as int, content.start as int, false)
                &&& is_looked(all.inlines, content.end as int, source.end as int, false)
                &&& is_looked(all.inlines, content.start as int, content.end as int, true)
            }
        }),
    decreases k,
{
    let all = math_augment(overlays, widths, advance, px, k);
    let before = math_augment(overlays, widths, advance, px, k - 1);
    let source = overlays[i].source_range;
    let content = overlays[i].content_range;
    let step = if advance < px {
        px as int
    } else {
        advance as int
    };
    lemma_painted_formulas(overlays, widths, advance, px, k - 1);
    if i == k - 1 {
        if i < widths.len() && widths[i] is Some {
            assert(all.painted.last() == i as usize);
            lemma_room(before, all, source, widths[i]->0, advance, px);
        } else {
            lemma_failed_formula(before.inlines, overlays[i]);
        }
    } else {
        formulas_have_room_or_show_their_source(overlays, widths, advance, px, k - 1, i);
        let last = overlays[k - 1];
        if k - 1 < widths.len() && widths[k - 1] is Some {
            let sub = all.substitutions.last();
            assert(all.substitutions =~= before.substitutions.push(sub));
            assert(all.painted == before.painted.push((k - 1) as usize));
            if i < widths.len() && widths[i] is Some {
                lemma_room_later(before.substitutions, sub, source, widths[i]->0 as int, step);
                let m = choose|m: int| 0 <= m < before.painted.len() && before.painted[m] == i as usize;
                assert(all.painted[m] == i as usize);
            }
        } else {
            let more = failed_math_runs(last);
            assert(all.inlines == before.inlines + more);
            if !(i < widths.len() && widths[i] is Some) {
                lemma_looked_later(before.inlines, more, source.start as int, content.start as int, false);
                lemma_looked_later(before.inlines, more, content.end as int, source.end as int, false);
                lemma_looked_later(before.inlines, more, content.start as int, content.end as int, true);
            }
        }
    }
}

proof fn lemma_painted_formulas(
    overlays: Seq<MathOverlay>,
    widths: Seq<Option<u64>>,
    advance: u64,
    px: u64,
    k: int,
)
    requires
        k <= overlays.len() <= usize::MAX,
    ensures
        forall|m: int|
            0 <= m < math_augment(overlays, widths, advance, px, k).painted.len() ==> (
            #[trigger] math_augment(overlays, widths, advance, px, k).painted[m]) < k,
    decreases k,
{
    if k > 0 {
        lemma_painted_formulas(overlays, widths, advance, px, k - 1);
        let all = math_augment(overlays, widths, advance, px, k).painted;
        let before = math_augment(overlays, widths, advance, px, k - 1).painted;
        assert forall|m: int| 0 <= m < all.len() implies (#[trigger] all[m]) < k by {
            if m < before.len() {
                assert(all[m] == before[m]);
            }
        }
    }
}

proof fn lemma_failed_formula(runs: Seq<InlineRun>, overlay: MathOverlay)
    ensures
        ({
            let all = runs + failed_math_runs(overlay);
            let source = overlay.source_range;
            let content = overlay.content_range;
            &&& is_looked(all, source.start as int, content.start as int, false)
            &&& is_looked(all, content.end as int, source.end as int, false)
            &&& is_looked(all, content.start as int, content.end as int, true)
        }),
{
    let source = overlay.source_range;
    let content = overlay.content_range;
    let more = failed_math_runs(overlay);
    let all = runs + more;
    let n = runs.len() as int;
    let first = if source.start < content.start {
        1int
    } else {
        0int
    };
    let second = if content.end < source.end {
        1int
    } else {
        0int
    };
    if source.start < content.start {
        assert(all[n].source_range.start == source.start);
    }
    if content.end < source.end {
        assert(all[n + first].source_range.start == content.end);
    }
    if content.start < content.end {
        assert(all[n + first + second].source_range.start == content.start);
    }
}

/// An image that is loaded has its room and is drawn; one that is loading has the
/// room of a placeholder and is not. One that failed to load is shown as it is
/// written, dimmed around its text, and is not drawn.
pub proof fn images_have_room_or_show_their_source(
    overlays: Seq<ImageOverlay>,
    loads: Seq<ImageLoad>,
    placeholder: u64,
    advance: u64,
    px: u64,
    k: int,
    i: int,
)
    requires
        px > 0,
        0 <= i < k <= overlays.len() <= usize::MAX,
        i < loads.len(),
    ensures
        ({
            let all = image_augment(overlays, loads, placeholder, advance, px, k);
            let source = overlays[i].source_range;
            let alt = overlays[i].alt_range;
            let step = if advance < px {
                px as int
            } else {
                advance as int
            };
            match loads[i] {
                ImageLoad::Loaded { width } => width > 0 ==> all.painted.contains(i as usize)
                    && keeps_room(all.substitutions, source, width as int, step),
                ImageLoad::Loading => placeholder > 0 ==> !all.painted.contains(i as usize)
                    && keeps_room(all.substitutions, source, placeholder as int, step),
                ImageLoad::Failed => {
                    &&& !all.painted.contains(i as usize)
                    &&& is_looked(all.inlines, source.start as int, alt.start as int, false)
                    &&& is_looked(all.inlines, alt.end as int, source.end as int, false)
                },
            }
        }),
    decreases k,
{
    let all = image_augment(overlays, loads, placeholder, advance, px, k);
    let before = image_augment(overlays, loads, placeholder, advance, px, k - 1);
    let source = overlays[i].source_range;
    let alt = overlays[i].alt_range;
    let step = if advance < px {
        px as int
    } else {
        advance as int
    };
    lemma_painted_images(overlays, loads, placeholder, advance, px, k - 1);
    assert(load_of(loads, i) == loads[i]);
    if i == k - 1 {
        match loads[i] {
            ImageLoad::Loaded { width } => {
                if width > 0 {
                    assert(all.painted.last() == i as usize);
                    lemma_room(before, all, source, width, advance, px);
                }
            },
            ImageLoad::Loading => {
                if placeholder > 0 {
                    lemma_room(before, all, source, placeholder, advance, px);
                }
            },
            ImageLoad::Failed => {
                lemma_failed_image(before.inlines, overlays[i]);
            },
        }
    } else {
        images_have_room_or_show_their_source(
            overlays,
            loads,
            placeholder,
            advance,
            px,
            k - 1,
            i,
        );
        if all.substitutions.len() > before.substitutions.len() {
            let sub = all.substitutions.last();
            assert(all.substitutions =~= before.substitutions.push(sub));
            if keeps_room(before.substitutions, source, placeholder as int, step) {
                lemma_room_later(before.substitutions, sub, source, placeholder as int, step);
            }
            if let ImageLoad::Loaded { width } = loads[i] {
                if width > 0 {
                    lemma_room_later(before.substitutions, sub, source, width as int, step);
                }
            }
        } else {
            let more = failed_image_runs(overlays[k - 1]);
            assert(all.inlines == before.inlines + more);
            if loads[i] is Failed {
                lemma_looked_later(before.inlines, more, source.start as int, alt.start as int, false);
                lemma_looked_later(before.inlines, more, alt.end as int, source.end as int, false);
            }
        }
        assert(all.painted == before.painted || all.painted == before.painted.push(
            (k - 1) as usize,
        ));
        if before.painted.contains(i as usize) {
            let m = choose|m: int| 0 <= m < before.painted.len() && before.painted[m] == i as usize;
            assert(all.painted[m] == i as usize);
        }
    }
}

proof fn lemma_painted_images(
    overlays: Seq<ImageOverlay>,
    loads: Seq<ImageLoad>,
    placeholder: u64,
    advance: u64,
    px: u64,
    k: int,
)
    requires
        k <= overlays.len() <= usize::MAX,
    ensures
        forall|m: int|
            0 <= m < image_augment(overlays, loads, placeholder, advance, px, k).painted.len() ==> (
            #[trigger] image_augment(overlays, loads, placeholder, advance, px, k).painted[m]) < k,
    decreases k,
{
    if k > 0 {
        lemma_painted_images(overlays, loads, placeholder, advance, px, k - 1);
        let all = image_augment(overlays, loads, placeholder, advance, px, k).painted;
        let before = image_augment(overlays, loads, placeholder, advance, px, k - 1).painted;
        assert forall|m: int| 0 <= m < all.len() implies (#[trigger] all[m]) < k by {
            if m < before.len() {
                assert(all[m] == before[m]);
            }
        }
    }
}

proof fn lemma_failed_image(runs: Seq<InlineRun>, overlay: ImageOverlay)
    ensures
        ({
            let all = runs + failed_image_runs(overlay);
            let source = overlay.source_range;
            let alt = overlay.alt_range;
            &&& is_looked(all, source.start as int, alt.start as int, false)
            &&& is_looked(all, alt.end as int, source.end as int, false)
        }),
{
    let source = overlay.source_range;
    let alt = overlay.alt_range;
    let all = runs + failed_image_runs(overlay);
    let n = runs.len() as int;
    let first = if source.start < alt.start {
        1int
    } else {
        0int
    };
    if source.start < alt.start {
        assert(all[n].source_range.start == source.start);
    }
    if alt.end < source.end {
        assert(all[n + first].source_range.start == alt.end);
    }
}

// ---------------------------------------------------------------------------
// Washes and the caret
// ---------------------------------------------------------------------------

/// Every byte of a line that is selected is under a wash of that line, which is
/// drawn further where, and only where, it reaches the end of the line.
pub proof fn selections_are_washed(
    lines: Seq<Range<usize>>,
    ranges: Seq<Range<usize>>,
    n: int,
    i: int,
    k: int,
    p: int,
)
    requires
        0 <= i < n <= lines.len() <= usize::MAX,
        0 <= k < ranges.len(),
        lines[i].start <= p < lines[i].end,
        ranges[k].start <= p < ranges[k].end,
    ensures
        exists|w: int|
            0 <= w < washes(lines, ranges, n).len() && (#[trigger] washes(lines, ranges, n)[w]).line
                == i && washes(lines, ranges, n)[w].start <= p < washes(lines, ranges, n)[w].end
                && washes(lines, ranges, n)[w].to_line_end == (washes(lines, ranges, n)[w].end
                == lines[i].end),
    decreases n,
{
    let all = washes(lines, ranges, n);
    let before = washes(lines, ranges, n - 1);
    if i < n - 1 {
        selections_are_washed(lines, ranges, n - 1, i, k, p);
        let w = choose|w: int|
            0 <= w < before.len() && (#[trigger] before[w]).line == i && before[w].start <= p
                < before[w].end && before[w].to_line_end == (before[w].end == lines[i].end);
        assert(all[w] == before[w]);
    } else {
        lemma_line_is_washed(lines, ranges, i, ranges.len() as int, k, p);
        let own = line_washes(lines, ranges, i, ranges.len() as int);
        let w = choose|w: int|
            0 <= w < own.len() && (#[trigger] own[w]).line == i && own[w].start <= p < own[w].end
                && own[w].to_line_end == (own[w].end == lines[i].end);
        assert(all[before.len() + w] == own[w]);
    }
}

proof fn lemma_line_is_washed(
    lines: Seq<Range<usize>>,
    ranges: Seq<Range<usize>>,
    i: int,
    m: int,
    k: int,
    p: int,
)
    requires
        0 <= i < lines.len() <= usize::MAX,
        0 <= k < m <= ranges.len(),
        lines[i].start <= p < lines[i].end,
        ranges[k].start <= p < ranges[k].end,
    ensures
        exists|w: int|
            0 <= w < line_washes(lines, ranges, i, m).len() && (#[trigger] line_washes(
                lines,
                ranges,
                i,
                m,
            )[w]).line == i && line_washes(lines, ranges, i, m)[w].start <= p < line_washes(
                lines,
                ranges,
                i,
                m,
            )[w].end && line_washes(lines, ranges, i, m)[w].to_line_end == (line_washes(
                lines,
                ranges,
                i,
                m,
            )[w].end == lines[i].end),
    decreases m,
{
    let all = line_washes(lines, ranges, i, m);
    let before = line_washes(lines, ranges, i, m - 1);
    if k < m - 1 {
        lemma_line_is_washed(lines, ranges, i, m - 1, k, p);
        let w = choose|w: int|
            0 <= w < before.len() && (#[trigger] before[w]).line == i && before[w].start <= p
                < before[w].end && before[w].to_line_end == (before[w].end == lines[i].end);
        assert(all[w] == before[w]);
    } else {
        let own = wash_of(lines, ranges[k], i);
        assert(own.len() == 1);
        assert(all[before.len() as int] == own[0]);
    }
}

/// A wash over rows begins at its first place and ends at its second, `pad`
/// further; the rows in between it covers whole.
pub proof fn washes_cover_the_rows(
    start: RowPoint,
    end: RowPoint,
    rows: usize,
    width: u64,
    pad: u64,
    row: int,
)
    requires
        start.row <= row <= end.row,
        end.row < rows,
        end.x + pad <= u64::MAX,
    ensures
        exists|s: int|
            0 <= s < spans_between(start, end, rows, width, pad).len() && (#[trigger] spans_between(
                start,
                end,
                rows,
                width,
                pad,
            )[s]).row == row && spans_between(start, end, rows, width, pad)[s].left == (if row
                == start.row {
                start.x as int
            } else {
                0int
            }) && spans_between(start, end, rows, width, pad)[s].right == (if row == end.row {
                end.x + pad
            } else {
                width as int
            }),
{
    let all = spans_between(start, end, rows, width, pad);
    assert(all[row - start.row].row == row);
}

proof fn lemma_holder(lines: Seq<Range<usize>>, offset: usize, i: int)
    requires
        0 <= i <= lines.len() <= usize::MAX,
    ensures
        match holder_from(lines, offset, i) {
            Some(k) => i <= k < lines.len() && lines[k as int].start <= offset
                < lines[k as int].end,
            None => forall|j: int|
                i <= j < lines.len() ==> !((#[trigger] lines[j]).start <= offset < lines[j].end),
        },
    decreases lines.len() - i,
{
    if i < lines.len() && !(lines[i].start <= offset < lines[i].end) {
        lemma_holder(lines, offset, i + 1);
    }
}

proof fn lemma_at_end(lines: Seq<Range<usize>>, cursor: usize, block_end: usize, is_last: bool, i: int)
    requires
        0 <= i <= lines.len() <= usize::MAX,
    ensures
        match first_at_end(lines, cursor, block_end, is_last, i) {
            Some(k) => i <= k < lines.len() && lines[k as int].end == cursor,
            None => forall|j: int|
                i <= j < lines.len() && (is_last || (#[trigger] lines[j]).end == block_end)
                    ==> lines[j].end != cursor,
        },
    decreases lines.len() - i,
{
    if i < lines.len() && !(cursor == lines[i].end && (is_last || lines[i].end == block_end)) {
        lemma_at_end(lines, cursor, block_end, is_last, i + 1);
    }
}

/// The caret inside of a block is on the line that holds it; behind the last
/// character of the block it is on a line that ends there.
pub proof fn carets_are_on_their_line(
    lines: Seq<Range<usize>>,
    cursor: usize,
    block: Range<usize>,
    next_start: Option<usize>,
    is_last: bool,
    j: int,
)
    requires
        0 <= j < lines.len() <= usize::MAX,
        block.start <= block.end,
    ensures
        match caret_line_of(lines, cursor, block, next_start, is_last) {
            Some(i) => {
                &&& i < lines.len()
                &&& lines[i as int].start <= cursor < lines[i as int].end || cursor
                    == lines[i as int].end
                &&& lines[j].start <= cursor < lines[j].end ==> lines[i as int].start <= cursor
                    < lines[i as int].end
                &&& block.start <= cursor <= block.end
            },
            None => {
                &&& block.start <= cursor < block.end ==> !(lines[j].start <= cursor
                    < lines[j].end)
                &&& cursor == block.end && next_start != Some(cursor)
                    ==> lines[j].end != cursor
            },
        },
{
    lemma_holder(lines, cursor, 0);
    lemma_at_end(lines, cursor, block.end, is_last, 0);
}

// ---------------------------------------------------------------------------
// Markers
// ---------------------------------------------------------------------------

/// A bullet is drawn as a dot, a task as a box that is checked or not. With the
/// cursor in the item both are drawn as they are written. A number is drawn with
/// a full stop.
pub proof fn markers_are_drawn_for_their_kind(bullet: u8, done: bool, number: u64, inside: bool)
    ensures
        marker_text(ListItemKind::Unordered(bullet, None), inside) == if inside {
            seq![bullet as char, ' ']
        } else {
            seq!['\u{2022}', ' ']
        },
        marker_text(ListItemKind::Unordered(bullet, Some(done)), inside) == if inside {
            seq![
                bullet as char,
                ' ',
                '[',
                if done {
                    'x'
                } else {
                    ' '
                },
                ']',
                ' ',
            ]
        } else if done {
            seq!['\u{2611}', ' ']
        } else {
            seq!['\u{2610}', ' ']
        },
        marker_text(ListItemKind::Ordered { number }, inside) == decimal(number as nat) + seq![
            '.',
            ' ',
        ],
{
    reveal_strlit(" [x] ");
    reveal_strlit(" [ ] ");
    reveal_strlit("☑ ");
    reveal_strlit("☐ ");
    reveal_strlit("• ");
    reveal_strlit(". ");
    assert(seq![bullet as char] + " [x] "@ =~= seq![bullet as char, ' ', '[', 'x', ']', ' ']);
    assert(seq![bullet as char] + " [ ] "@ =~= seq![bullet as char, ' ', '[', ' ', ']', ' ']);
    assert("☑ "@ =~= seq!['\u{2611}', ' ']);
    assert("☐ "@ =~= seq!['\u{2610}', ' ']);
    assert("• "@ =~= seq!['\u{2022}', ' ']);
    assert(". "@ =~= seq!['.', ' ']);
}

/// Every marker of a container of the block that stands on one of its lines is
/// drawn, on the first such line, and as its container says.
pub proof fn markers_are_drawn_on_their_line(
    markers: Seq<MarkerOverlay>,
    containers: Seq<Container>,
    lines: Seq<Range<usize>>,
    k: int,
    m: int,
    j: int,
)
    requires
        0 <= m < k <= markers.len(),
        0 <= j < lines.len() <= usize::MAX,
        markers[m].level < containers.len(),
        lines[j].start <= markers[m].source_range.start < lines[j].end,
    ensures
        exists|i: int|
            0 <= i < painted_markers(markers, containers, lines, k).len() && (
            #[trigger] painted_markers(markers, containers, lines, k)[i]).level == markers[m].level
                && painted_markers(markers, containers, lines, k)[i].text == painted_text(
                containers[markers[m].level as int],
            ) && (painted_markers(markers, containers, lines, k)[i].line matches Some(line) && line
                < lines.len() && lines[line as int].start <= markers[m].source_range.start
                < lines[line as int].end),
    decreases k,
{
    let all = painted_markers(markers, containers, lines, k);
    let before = painted_markers(markers, containers, lines, k - 1);
    lemma_holder(lines, markers[m].source_range.start, 0);
    if m == k - 1 {
        let i = all.len() - 1;
        assert(all[i].level == markers[m].level);
    } else {
        markers_are_drawn_on_their_line(markers, containers, lines, k - 1, m, j);
        let i = choose|i: int|
            0 <= i < before.len() && (#[trigger] before[i]).level == markers[m].level
                && before[i].text == painted_text(containers[markers[m].level as int]) && (
            before[i].line matches Some(line) && line < lines.len() && lines[line as int].start
                <= markers[m].source_range.start < lines[line as int].end);
        assert(all[i] == before[i]);
    }
}

/// Headings of the first two levels are kept furthest apart and the other ones
/// less; what is in a list item is kept closer together than other text.
pub proof fn blocks_are_spaced_by_their_kind(kind: BlockKind, containers: Seq<Container>, k: int)
    ensures
        kind matches BlockKind::Heading { level } ==> (spacing(kind, containers)
            is MajorHeading <==> level <= 2) && (spacing(kind, containers)
            is MinorHeading <==> level > 2),
        !(kind is Heading) && 0 <= k < containers.len() && containers[k] is ListItem ==> spacing(
            kind,
            containers,
        ) is ListItem,
        !(kind is Heading) && containers.len() == 0 ==> spacing(kind, containers) is Paragraph,
{
}

/// Scrolled as far as it goes, a block shows its end; one that fits is not
/// scrolled.
pub proof fn scrolling_shows_the_end(content: u64, visible: u64)
    ensures
        content > visible ==> scroll_limit(content, visible) + visible == content,
        content <= visible ==> scroll_limit(content, visible) == 0,
{
}

} // verus!
