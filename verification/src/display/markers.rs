//! The markers of containers, which are drawn beside the lines of a block.

use core::ops::Range;

use vstd::prelude::*;

use crate::display::block::{Container, ListItemKind, MarkerOverlay};
use crate::strings::{chars_of, decimal, push_decimal};

verus! {

/// The marker of a list item as it is drawn: its source where the cursor is
/// inside of the item.
pub open spec fn marker_text(kind: ListItemKind, cursor_inside: bool) -> Seq<char> {
    match kind {
        ListItemKind::Unordered(bullet, Some(done)) => if cursor_inside {
            seq![bullet as char] + if done {
                " [x] "@
            } else {
                " [ ] "@
            }
        } else if done {
            "☑ "@
        } else {
            "☐ "@
        },
        ListItemKind::Unordered(bullet, None) => if cursor_inside {
            seq![bullet as char, ' ']
        } else {
            "• "@
        },
        ListItemKind::Ordered { number } => decimal(number as nat) + ". "@,
    }
}

/// The marker of a list item as it is drawn.
pub fn list_marker_display_text(kind: ListItemKind, cursor_inside: bool) -> (text: String)
    ensures
        text@ == marker_text(kind, cursor_inside),
{
    let mut text = String::new();
    match kind {
        ListItemKind::Unordered(bullet, Some(done)) => {
            if cursor_inside {
                text.push(bullet as char);
                text.push_str(
                    if done {
                        " [x] "
                    } else {
                        " [ ] "
                    },
                );
            } else if done {
                text.push_str("☑ ");
            } else {
                text.push_str("☐ ");
            }
        },
        ListItemKind::Unordered(bullet, None) => {
            if cursor_inside {
                text.push(bullet as char);
                text.push(' ');
            } else {
                text.push_str("• ");
            }
        },
        ListItemKind::Ordered { number } => {
            push_decimal(&mut text, number);
            text.push_str(". ");
        },
    }
    assert(text@ =~= marker_text(kind, cursor_inside));
    text
}

/// Is the character an ASCII digit?
pub open spec fn is_digit(c: char) -> bool {
    '0' <= c <= '9'
}

/// Past the digits from character `i` on.
pub open spec fn digits_end(text: Seq<char>, i: int) -> int
    decreases text.len() - i,
{
    if i < text.len() && is_digit(text[i]) {
        digits_end(text, i + 1)
    } else {
        i
    }
}

/// The number of digits that a marker begins with, and what comes after them;
/// nothing for a marker that begins otherwise.
pub fn split_digit_prefix(text: &str) -> (split: Option<(usize, String)>)
    ensures
        match split {
            Some((count, rest)) => count > 0 && count == digits_end(text@, 0) && rest@ == text@.skip(
                count as int,
            ),
            None => digits_end(text@, 0) == 0,
        },
{
    let chars = chars_of(text);
    let mut count: usize = 0;
    while count < chars.len() && '0' <= chars[count] && chars[count] <= '9'
        invariant
            chars@ == text@,
            count <= chars@.len(),
            digits_end(text@, 0) == digits_end(text@, count as int),
        decreases chars@.len() - count,
    {
        count = count + 1;
    }
    if count == 0 {
        return None;
    }
    let mut rest = String::new();
    let mut i: usize = count;
    while i < chars.len()
        invariant
            chars@ == text@,
            count <= i <= chars@.len(),
            rest@ =~= text@.subrange(count as int, i as int),
        decreases chars@.len() - i,
    {
        rest.push(chars[i]);
        i = i + 1;
    }
    Some((count, rest))
}

/// The first of the lines from `i` on that holds the byte.
pub open spec fn holder_from(lines: Seq<Range<usize>>, offset: usize, i: int) -> Option<usize>
    decreases lines.len() - i,
{
    if i >= lines.len() {
        None
    } else if lines[i].start <= offset < lines[i].end {
        Some(i as usize)
    } else {
        holder_from(lines, offset, i + 1)
    }
}

/// The first line that holds the byte.
pub fn line_holding(lines: &Vec<Range<usize>>, offset: usize) -> (line: Option<usize>)
    ensures
        line == holder_from(lines@, offset, 0),
{
    let mut i: usize = 0;
    while i < lines.len()
        invariant
            i <= lines@.len(),
            holder_from(lines@, offset, 0) == holder_from(lines@, offset, i as int),
        decreases lines@.len() - i,
    {
        if lines[i].start <= offset && offset < lines[i].end {
            return Some(i);
        }
        i = i + 1;
    }
    None
}

/// The first byte from `i` on that comes from `offset`.
pub open spec fn shown_at_from(map: Seq<usize>, offset: usize, i: int) -> Option<usize>
    decreases map.len() - i,
{
    if i >= map.len() {
        None
    } else if map[i] == offset {
        Some(i as usize)
    } else {
        shown_at_from(map, offset, i + 1)
    }
}

/// Where what is drawn in place of a range that begins at `offset` stands on a
/// line.
pub fn shown_at(map: &Vec<usize>, offset: usize) -> (at: Option<usize>)
    ensures
        at == shown_at_from(map@, offset, 0),
{
    let mut i: usize = 0;
    while i < map.len()
        invariant
            i <= map@.len(),
            shown_at_from(map@, offset, 0) == shown_at_from(map@, offset, i as int),
        decreases map@.len() - i,
    {
        if map[i] == offset {
            return Some(i);
        }
        i = i + 1;
    }
    None
}

/// A marker to draw: the container it stands for, the line it stands at, where it
/// stands at one, and its text.
#[derive(Debug, PartialEq, Eq)]
pub struct PaintedMarker {
    pub level: usize,
    pub line: Option<usize>,
    pub text: String,
}

#[verifier::ext_equal]
pub struct PaintedMarkerView {
    pub level: usize,
    pub line: Option<usize>,
    pub text: Seq<char>,
}

impl View for PaintedMarker {
    type V = PaintedMarkerView;

    open spec fn view(&self) -> PaintedMarkerView {
        PaintedMarkerView { level: self.level, line: self.line, text: self.text@ }
    }
}

pub open spec fn painted_view(markers: Seq<PaintedMarker>) -> Seq<PaintedMarkerView> {
    markers.map_values(|marker: PaintedMarker| marker@)
}

/// How a marker is drawn: that of a blockquote as `>`.
pub open spec fn painted_text(container: Container) -> Seq<char> {
    match container {
        Container::BlockQuote { .. } => ">"@,
        Container::ListItem { kind, cursor_inside, .. } => marker_text(kind, cursor_inside),
    }
}

/// The markers to draw of the first `k`: those of a container of the block that
/// stand on one of the lines.
pub open spec fn painted_markers(
    markers: Seq<MarkerOverlay>,
    containers: Seq<Container>,
    lines: Seq<Range<usize>>,
    k: int,
) -> Seq<PaintedMarkerView>
    decreases k,
{
    if k <= 0 {
        Seq::empty()
    } else {
        let before = painted_markers(markers, containers, lines, k - 1);
        let marker = markers[k - 1];
        let line = holder_from(lines, marker.source_range.start, 0);
        if marker.level < containers.len() && line is Some {
            before.push(
                PaintedMarkerView {
                    level: marker.level,
                    line,
                    text: painted_text(containers[marker.level as int]),
                },
            )
        } else {
            before
        }
    }
}

/// The markers of list items to draw of the first `k`, inside of an embed: one
/// that stands on none of the lines stands at the top of the block.
pub open spec fn embedded_markers(
    markers: Seq<MarkerOverlay>,
    containers: Seq<Container>,
    lines: Seq<Range<usize>>,
    k: int,
) -> Seq<PaintedMarkerView>
    decreases k,
{
    if k <= 0 {
        Seq::empty()
    } else {
        let before = embedded_markers(markers, containers, lines, k - 1);
        let marker = markers[k - 1];
        if marker.level < containers.len() && containers[marker.level as int] is ListItem {
            before.push(
                PaintedMarkerView {
                    level: marker.level,
                    line: holder_from(lines, marker.source_range.start, 0),
                    text: painted_text(containers[marker.level as int]),
                },
            )
        } else {
            before
        }
    }
}

fn text_of(container: &Container) -> (text: String)
    ensures
        text@ == painted_text(*container),
{
    match container {
        Container::BlockQuote { .. } => {
            let mut text = String::new();
            text.push_str(">");
            assert(text@ =~= ">"@);
            text
        },
        Container::ListItem { kind, cursor_inside, .. } => list_marker_display_text(
            *kind,
            *cursor_inside,
        ),
    }
}

/// The markers to draw beside the lines of a block.
pub fn markers_to_paint(
    markers: &Vec<MarkerOverlay>,
    containers: &Vec<Container>,
    lines: &Vec<Range<usize>>,
) -> (painted: Vec<PaintedMarker>)
    ensures
        painted_view(painted@) == painted_markers(
            markers@,
            containers@,
            lines@,
            markers@.len() as int,
        ),
{
    let mut painted: Vec<PaintedMarker> = Vec::new();
    let mut k: usize = 0;
    while k < markers.len()
        invariant
            k <= markers@.len(),
            painted_view(painted@) =~= painted_markers(markers@, containers@, lines@, k as int),
        decreases markers@.len() - k,
    {
        let ghost before = painted_view(painted@);
        let marker = &markers[k];
        if marker.level < containers.len() {
            let line = line_holding(lines, marker.source_range.start);
            if line.is_some() {
                let text = text_of(&containers[marker.level]);
                let next = PaintedMarker { level: marker.level, line, text };
                let ghost pushed = next@;
                painted.push(next);
                assert(painted_view(painted@) =~= before.push(pushed));
            }
        }
        k = k + 1;
    }
    painted
}

/// The markers to draw beside the lines of a block inside of an embed.
pub fn emit_embed_marker_overlays(
    markers: &Vec<MarkerOverlay>,
    containers: &Vec<Container>,
    lines: &Vec<Range<usize>>,
) -> (painted: Vec<PaintedMarker>)
    ensures
        painted_view(painted@) == embedded_markers(
            markers@,
            containers@,
            lines@,
            markers@.len() as int,
        ),
{
    let mut painted: Vec<PaintedMarker> = Vec::new();
    let mut k: usize = 0;
    while k < markers.len()
        invariant
            k <= markers@.len(),
            painted_view(painted@) =~= embedded_markers(markers@, containers@, lines@, k as int),
        decreases markers@.len() - k,
    {
        let ghost before = painted_view(painted@);
        let marker = &markers[k];
        if marker.level < containers.len() {
            if let Container::ListItem { .. } = &containers[marker.level] {
                let line = line_holding(lines, marker.source_range.start);
                let text = text_of(&containers[marker.level]);
                let next = PaintedMarker { level: marker.level, line, text };
                let ghost pushed = next@;
                painted.push(next);
                assert(painted_view(painted@) =~= before.push(pushed));
            }
        }
        k = k + 1;
    }
    painted
}

// ---------------------------------------------------------------------------
// The caret inside of a marker
// ---------------------------------------------------------------------------

/// A caret inside of a marker: the container, the line, and the byte of the
/// marker that the caret stands before.
#[derive(Debug, Clone, Copy, PartialEq, Eq, Structural)]
pub struct MarkerCaret {
    pub level: usize,
    pub line: usize,
    pub byte: usize,
}

/// Is the container the item of a task whose marker is shown as its source?
pub open spec fn is_open_task(container: Container) -> bool {
    match container {
        Container::ListItem {
            kind: ListItemKind::Unordered(_, Some(_)),
            cursor_inside,
            ..
        } => cursor_inside,
        _ => false,
    }
}

/// The caret inside of a marker from `k` on: in that of a task only, as no other
/// marker is edited in place.
pub open spec fn marker_caret_from(
    markers: Seq<MarkerOverlay>,
    containers: Seq<Container>,
    lines: Seq<Range<usize>>,
    cursor: usize,
    k: int,
) -> Option<MarkerCaret>
    decreases markers.len() - k,
{
    if k >= markers.len() {
        None
    } else {
        let marker = markers[k];
        if cursor < marker.source_range.start || cursor > marker.source_range.end {
            marker_caret_from(markers, containers, lines, cursor, k + 1)
        } else if marker.level >= containers.len() {
            None
        } else if !is_open_task(containers[marker.level as int]) {
            marker_caret_from(markers, containers, lines, cursor, k + 1)
        } else {
            match holder_from(lines, marker.source_range.start, 0) {
                Some(line) => Some(
                    MarkerCaret {
                        level: marker.level,
                        line,
                        byte: (cursor - marker.source_range.start) as usize,
                    },
                ),
                None => None,
            }
        }
    }
}

fn shows_open_task(container: &Container) -> (found: bool)
    ensures
        found == is_open_task(*container),
{
    match container {
        Container::ListItem { kind, cursor_inside, .. } => match kind {
            ListItemKind::Unordered(_, Some(_)) => *cursor_inside,
            _ => false,
        },
        _ => false,
    }
}

/// The caret inside of the marker of a task.
pub fn compute_marker_overlay_caret(
    markers: &Vec<MarkerOverlay>,
    containers: &Vec<Container>,
    lines: &Vec<Range<usize>>,
    cursor: usize,
) -> (caret: Option<MarkerCaret>)
    ensures
        caret == marker_caret_from(markers@, containers@, lines@, cursor, 0),
{
    let mut k: usize = 0;
    while k < markers.len()
        invariant
            k <= markers@.len(),
            marker_caret_from(markers@, containers@, lines@, cursor, 0) == marker_caret_from(
                markers@,
                containers@,
                lines@,
                cursor,
                k as int,
            ),
        decreases markers@.len() - k,
    {
        let marker = &markers[k];
        if cursor >= marker.source_range.start && cursor <= marker.source_range.end {
            if marker.level >= containers.len() {
                return None;
            }
            if shows_open_task(&containers[marker.level]) {
                return match line_holding(lines, marker.source_range.start) {
                    Some(line) => Some(
                        MarkerCaret {
                            level: marker.level,
                            line,
                            byte: cursor - marker.source_range.start,
                        },
                    ),
                    None => None,
                };
            }
        }
        k = k + 1;
    }
    None
}

// ---------------------------------------------------------------------------
// Laws
// ---------------------------------------------------------------------------

/// A caret is drawn inside of a marker only where the marker holds the cursor,
/// and is the marker of a task.
pub proof fn marker_carets_are_in_tasks(
    markers: Seq<MarkerOverlay>,
    containers: Seq<Container>,
    lines: Seq<Range<usize>>,
    cursor: usize,
    k: int,
)
    requires
        0 <= k,
    ensures
        marker_caret_from(markers, containers, lines, cursor, k) matches Some(caret) ==> {
            &&& caret.level < containers.len()
            &&& is_open_task(containers[caret.level as int])
            &&& exists|i: int|
                k <= i < markers.len() && (#[trigger] markers[i]).level == caret.level
                    && markers[i].source_range.start + caret.byte == cursor
                    && cursor <= markers[i].source_range.end
        },
    decreases markers.len() - k,
{
    if k < markers.len() {
        marker_carets_are_in_tasks(markers, containers, lines, cursor, k + 1);
        assert(markers[k] == markers[k]);
    }
}

} // verus!
