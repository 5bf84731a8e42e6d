//! Which line of the layout a position belongs to.
//!
//! Coordinates are whole numbers of a unit that the caller chooses, small
//! enough that no two different positions on the screen coincide.

use core::ops::Range;

use vstd::prelude::*;

verus! {

/// A line of text on the screen, wrapped into one or more rows, and the bytes
/// that it shows.
#[derive(Debug, PartialEq, Eq)]
pub struct LineBox {
    pub source: Range<usize>,
    pub left: i64,
    pub top: i64,
    pub width: u32,
    pub height: u32,
    pub rows: u32,
}

impl LineBox {
    pub open spec fn bottom(self) -> int {
        self.top + self.height
    }

    pub open spec fn right(self) -> int {
        self.left + self.width
    }

    /// Does the line show the position?
    pub open spec fn shows(self, offset: usize) -> bool {
        self.source.start <= offset <= self.source.end
    }

    /// Does the line show the position?
    pub fn contains_source_offset(&self, offset: usize) -> (found: bool)
        ensures
            found == self.shows(offset),
    {
        offset >= self.source.start && offset <= self.source.end
    }
}

/// How far `p` is from `[low, high]`.
pub open spec fn distance(p: int, low: int, high: int) -> int {
    if p < low {
        low - p
    } else if p > high {
        p - high
    } else {
        0
    }
}

fn distance_between(p: i128, low: i128, high: i128) -> (d: i128)
    requires
        -0x2_0000_0000_0000_0000 <= p <= 0x2_0000_0000_0000_0000,
        -0x2_0000_0000_0000_0000 <= low <= 0x2_0000_0000_0000_0000,
        -0x2_0000_0000_0000_0000 <= high <= 0x2_0000_0000_0000_0000,
    ensures
        d == distance(p as int, low as int, high as int),
{
    if p < low {
        low - p
    } else if p > high {
        p - high
    } else {
        0
    }
}

// ---------------------------------------------------------------------------
// By offset
// ---------------------------------------------------------------------------

/// The first line from `k` on that shows the position.
pub open spec fn line_showing(lines: Seq<LineBox>, k: int, offset: usize) -> Option<int>
    decreases lines.len() - k,
{
    if k >= lines.len() {
        None
    } else if lines[k].shows(offset) {
        Some(k)
    } else {
        line_showing(lines, k + 1, offset)
    }
}

/// The line before `k` that ends last at or before the position; the later one
/// of two.
pub open spec fn line_before(lines: Seq<LineBox>, k: int, offset: usize) -> Option<int>
    decreases k,
{
    if k <= 0 {
        None
    } else {
        let best = line_before(lines, k - 1, offset);
        if lines[k - 1].source.end <= offset && match best {
            Some(i) => lines[k - 1].source.end >= lines[i].source.end,
            None => true,
        } {
            Some(k - 1)
        } else {
            best
        }
    }
}

/// The line that a position is drawn on: the first that shows it, else the last
/// one that ends before it.
pub open spec fn line_of(lines: Seq<LineBox>, offset: usize) -> Option<int> {
    match line_showing(lines, 0, offset) {
        Some(i) => Some(i),
        None => line_before(lines, lines.len() as int, offset),
    }
}

pub open spec fn same_index(found: Option<usize>, wanted: Option<int>) -> bool {
    match found {
        Some(i) => wanted == Some(i as int),
        None => wanted is None,
    }
}

/// The first line that shows the position.
pub fn find_line(lines: &[LineBox], offset: usize) -> (found: Option<usize>)
    ensures
        same_index(found, line_showing(lines@, 0, offset)),
        found matches Some(i) ==> i < lines@.len(),
{
    let mut k: usize = 0;
    while k < lines.len()
        invariant
            k <= lines@.len(),
            line_showing(lines@, 0, offset) == line_showing(lines@, k as int, offset),
        decreases lines@.len() - k,
    {
        if lines[k].contains_source_offset(offset) {
            return Some(k);
        }
        k = k + 1;
    }
    None
}

/// The line that a position is drawn on.
pub fn line_for_offset(lines: &[LineBox], offset: usize) -> (found: Option<usize>)
    ensures
        same_index(found, line_of(lines@, offset)),
{
    if let Some(i) = find_line(lines, offset) {
        return Some(i);
    }
    let mut best: Option<usize> = None;
    let mut k: usize = 0;
    while k < lines.len()
        invariant
            k <= lines@.len(),
            same_index(best, line_before(lines@, k as int, offset)),
            best matches Some(i) ==> i < k,
        decreases lines@.len() - k,
    {
        let end: usize = lines[k].source.end;
        let better = end <= offset && match best {
            Some(i) => end >= lines[i].source.end,
            None => true,
        };
        if better {
            best = Some(k);
        }
        k = k + 1;
    }
    best
}

// ---------------------------------------------------------------------------
// Up and down
// ---------------------------------------------------------------------------

/// Does the line lie wholly above (`down` false) or below the current one?
pub open spec fn ahead(line: LineBox, current: LineBox, down: bool) -> bool {
    if down {
        line.top >= current.bottom()
    } else {
        line.bottom() <= current.top
    }
}

/// Is a line nearer to the point than another: vertically, and at equal height
/// horizontally?
pub open spec fn nearer(a: LineBox, c: LineBox, x: int, y: int) -> bool {
    let da = distance(y, a.top as int, a.bottom());
    let dc = distance(y, c.top as int, c.bottom());
    da < dc || (da == dc && distance(x, a.left as int, a.right()) < distance(
        x,
        c.left as int,
        c.right(),
    ))
}

/// The nearest of the lines before `k` in the direction of the motion; the
/// first of equal ones.
pub open spec fn nearest_ahead(
    lines: Seq<LineBox>,
    k: int,
    current: LineBox,
    down: bool,
    x: int,
    y: int,
) -> Option<int>
    decreases k,
{
    if k <= 0 {
        None
    } else {
        let best = nearest_ahead(lines, k - 1, current, down, x, y);
        if ahead(lines[k - 1], current, down) && match best {
            Some(i) => nearer(lines[k - 1], lines[i], x, y),
            None => true,
        } {
            Some(k - 1)
        } else {
            best
        }
    }
}

/// The line and the row in it that a caret on row `row` of line `current` moves
/// to. Within the line it is the next row; beyond it, the edge row of the
/// nearest line.
pub open spec fn vertical_target(
    lines: Seq<LineBox>,
    current: int,
    row: int,
    row_height: int,
    down: bool,
    x: int,
) -> Option<(int, int)> {
    let line = lines[current];
    let next = if down {
        row + 1
    } else {
        row - 1
    };
    if 0 <= next < line.rows {
        Some((current, next))
    } else {
        match nearest_ahead(
            lines,
            lines.len() as int,
            line,
            down,
            x,
            line.top + next * row_height,
        ) {
            Some(i) => Some(
                (
                    i,
                    if down {
                        0
                    } else {
                        lines[i].rows - 1
                    },
                ),
            ),
            None => None,
        }
    }
}

fn is_ahead(line: &LineBox, current: &LineBox, down: bool) -> (found: bool)
    ensures
        found == ahead(*line, *current, down),
{
    if down {
        line.top as i128 >= current.top as i128 + current.height as i128
    } else {
        line.top as i128 + line.height as i128 <= current.top as i128
    }
}

fn is_nearer(a: &LineBox, c: &LineBox, x: i64, y: i128) -> (found: bool)
    requires
        -0x2_0000_0000_0000_0000 <= y <= 0x2_0000_0000_0000_0000,
    ensures
        found == nearer(*a, *c, x as int, y as int),
{
    let da: i128 = distance_between(y, a.top as i128, a.top as i128 + a.height as i128);
    let dc: i128 = distance_between(y, c.top as i128, c.top as i128 + c.height as i128);
    if da != dc {
        return da < dc;
    }
    let xa: i128 = distance_between(x as i128, a.left as i128, a.left as i128 + a.width as i128);
    let xc: i128 = distance_between(x as i128, c.left as i128, c.left as i128 + c.width as i128);
    xa < xc
}

/// The line and the row in it that a caret moves to.
pub fn move_vertically(
    lines: &[LineBox],
    current: usize,
    row: u32,
    row_height: u32,
    down: bool,
    x: i64,
) -> (target: Option<(usize, u32)>)
    requires
        current < lines@.len(),
        forall|i: int| 0 <= i < lines@.len() ==> (#[trigger] lines@[i]).rows > 0,
    ensures
        match target {
            Some((i, r)) => vertical_target(
                lines@,
                current as int,
                row as int,
                row_height as int,
                down,
                x as int,
            ) == Some((i as int, r as int)),
            None => vertical_target(
                lines@,
                current as int,
                row as int,
                row_height as int,
                down,
                x as int,
            ) is None,
        },
{
    let line = &lines[current];
    if down && row < line.rows && line.rows - row > 1 {
        return Some((current, row + 1));
    }
    if !down && row > 0 && row - 1 < line.rows {
        return Some((current, row - 1));
    }
    let step: i128 = if down {
        row as i128 + 1
    } else {
        row as i128 - 1
    };
    let ghost next = if down {
        row + 1
    } else {
        row - 1
    };
    assert(-0x1_0000_0000_0000_0000 <= step * row_height <= 0x1_0000_0000_0000_0000)
        by (nonlinear_arith)
        requires
            -1 <= step <= 0x1_0000_0000,
            0 <= row_height <= 0xffff_ffff,
    ;
    let y: i128 = line.top as i128 + step * (row_height as i128);
    assert(y == line.top + next * row_height);
    let mut best: Option<usize> = None;
    let mut k: usize = 0;
    while k < lines.len()
        invariant
            k <= lines@.len(),
            line == lines@[current as int],
            -0x2_0000_0000_0000_0000 <= y <= 0x2_0000_0000_0000_0000,
            same_index(
                best,
                nearest_ahead(lines@, k as int, *line, down, x as int, y as int),
            ),
            best matches Some(i) ==> i < k,
        decreases lines@.len() - k,
    {
        let better = is_ahead(&lines[k], line, down) && match best {
            Some(i) => is_nearer(&lines[k], &lines[i], x, y),
            None => true,
        };
        if better {
            best = Some(k);
        }
        k = k + 1;
    }
    match best {
        Some(i) => if down {
            Some((i, 0))
        } else {
            assert(lines@[i as int].rows > 0);
            Some((i, lines[i].rows - 1))
        },
        None => None,
    }
}

// ---------------------------------------------------------------------------
// By point
// ---------------------------------------------------------------------------

/// What a point belongs to.
#[derive(Debug, Clone, Copy, PartialEq, Eq, Structural)]
pub enum Hit {
    DocumentStart,
    DocumentEnd,
    /// A line, and the distance from its top to sample it at.
    Line { index: usize, y: i64 },
}

/// Does the height of the point lie within the line?
pub open spec fn level(line: LineBox, y: int) -> bool {
    line.top <= y < line.bottom()
}

/// The horizontally nearest of the lines before `k` that the point is level
/// with; the first of equal ones.
pub open spec fn level_line(lines: Seq<LineBox>, k: int, x: int, y: int) -> Option<int>
    decreases k,
{
    if k <= 0 {
        None
    } else {
        let best = level_line(lines, k - 1, x, y);
        let line = lines[k - 1];
        if level(line, y) && match best {
            Some(i) => distance(x, line.left as int, line.right()) < distance(
                x,
                lines[i].left as int,
                lines[i].right(),
            ),
            None => true,
        } {
            Some(k - 1)
        } else {
            best
        }
    }
}

/// The vertically nearest of the lines before `k` that the point is not level
/// with; the first of equal ones.
pub open spec fn closest_line(lines: Seq<LineBox>, k: int, y: int) -> Option<int>
    decreases k,
{
    if k <= 0 {
        None
    } else {
        let best = closest_line(lines, k - 1, y);
        let line = lines[k - 1];
        if !level(line, y) && match best {
            Some(i) => distance(y, line.top as int, line.bottom()) < distance(
                y,
                lines[i].top as int,
                lines[i].bottom(),
            ),
            None => true,
        } {
            Some(k - 1)
        } else {
            best
        }
    }
}

/// What a point belongs to: the start of the document above the first line, its
/// end below the last one, the line that it is level with, and otherwise the
/// closest line, sampled at its top or a pixel above its bottom. `px` is one
/// pixel.
pub open spec fn hit(lines: Seq<LineBox>, x: int, y: int, px: u32) -> Hit {
    if lines.len() == 0 || y < lines[0].top {
        Hit::DocumentStart
    } else if y >= lines.last().bottom() {
        Hit::DocumentEnd
    } else {
        match level_line(lines, lines.len() as int, x, y) {
            Some(i) => Hit::Line { index: i as usize, y: (y - lines[i].top) as i64 },
            None => match closest_line(lines, lines.len() as int, y) {
                Some(i) => Hit::Line {
                    index: i as usize,
                    y: if y < lines[i].top {
                        0
                    } else {
                        (lines[i].height - px) as i64
                    },
                },
                None => Hit::DocumentEnd,
            },
        }
    }
}

fn is_level(line: &LineBox, y: i64) -> (found: bool)
    ensures
        found == level(*line, y as int),
{
    line.top <= y && (y as i128) < line.top as i128 + line.height as i128
}

/// What a point belongs to. `px` is one pixel.
pub fn offset_for_position(lines: &[LineBox], x: i64, y: i64, px: u32) -> (found: Hit)
    ensures
        found == hit(lines@, x as int, y as int, px),
{
    if lines.len() == 0 || y < lines[0].top {
        return Hit::DocumentStart;
    }
    let last = &lines[lines.len() - 1];
    if y as i128 >= last.top as i128 + last.height as i128 {
        return Hit::DocumentEnd;
    }
    let mut straight: Option<usize> = None;
    let mut closest: Option<usize> = None;
    let mut k: usize = 0;
    while k < lines.len()
        invariant
            k <= lines@.len(),
            same_index(straight, level_line(lines@, k as int, x as int, y as int)),
            same_index(closest, closest_line(lines@, k as int, y as int)),
            straight matches Some(i) ==> i < k && level(lines@[i as int], y as int),
            closest matches Some(i) ==> i < k && !level(lines@[i as int], y as int),
        decreases lines@.len() - k,
    {
        let line = &lines[k];
        if is_level(line, y) {
            let right: i128 = line.left as i128 + line.width as i128;
            let d: i128 = distance_between(x as i128, line.left as i128, right);
            let better = match straight {
                Some(i) => d < distance_between(
                    x as i128,
                    lines[i].left as i128,
                    lines[i].left as i128 + lines[i].width as i128,
                ),
                None => true,
            };
            if better {
                straight = Some(k);
            }
        } else {
            let bottom: i128 = line.top as i128 + line.height as i128;
            let d: i128 = distance_between(y as i128, line.top as i128, bottom);
            let better = match closest {
                Some(i) => d < distance_between(
                    y as i128,
                    lines[i].top as i128,
                    lines[i].top as i128 + lines[i].height as i128,
                ),
                None => true,
            };
            if better {
                closest = Some(k);
            }
        }
        k = k + 1;
    }
    if let Some(i) = straight {
        return Hit::Line { index: i, y: y - lines[i].top };
    }
    match closest {
        Some(i) => Hit::Line {
            index: i,
            y: if y < lines[i].top {
                0
            } else {
                lines[i].height as i64 - px as i64
            },
        },
        None => Hit::DocumentEnd,
    }
}

// ---------------------------------------------------------------------------
// Laws
// ---------------------------------------------------------------------------

proof fn lemma_level_line(lines: Seq<LineBox>, k: int, x: int, y: int)
    requires
        0 <= k <= lines.len(),
    ensures
        match level_line(lines, k, x, y) {
            Some(i) => 0 <= i < k && level(lines[i], y) && forall|j: int|
                0 <= j < k && level(#[trigger] lines[j], y) ==> distance(
                    x,
                    lines[i].left as int,
                    lines[i].right(),
                ) <= distance(x, lines[j].left as int, lines[j].right()),
            None => forall|j: int| 0 <= j < k ==> !level(#[trigger] lines[j], y),
        },
    decreases k,
{
    if k > 0 {
        lemma_level_line(lines, k - 1, x, y);
    }
}

/// A point inside of the box of a line belongs to a line that it is level with,
/// and that no other line is nearer to than it.
pub proof fn points_on_a_line_hit_a_line(lines: Seq<LineBox>, k: int, x: int, y: int, px: u32)
    requires
        lines.len() <= usize::MAX,
        0 <= k < lines.len(),
        level(lines[k], y),
        lines[0].top <= y < lines.last().bottom(),
    ensures
        match hit(lines, x, y, px) {
            Hit::Line { index, y: local } => index < lines.len() && level(lines[index as int], y)
                && distance(x, lines[index as int].left as int, lines[index as int].right())
                <= distance(x, lines[k].left as int, lines[k].right()),
            _ => false,
        },
{
    lemma_level_line(lines, lines.len() as int, x, y);
}

proof fn lemma_line_showing(lines: Seq<LineBox>, k: int, offset: usize)
    requires
        0 <= k <= lines.len(),
    ensures
        match line_showing(lines, k, offset) {
            Some(i) => k <= i < lines.len() && lines[i].shows(offset) && forall|j: int|
                k <= j < i ==> !(#[trigger] lines[j]).shows(offset),
            None => forall|j: int| k <= j < lines.len() ==> !(#[trigger] lines[j]).shows(offset),
        },
    decreases lines.len() - k,
{
    if k < lines.len() && !lines[k].shows(offset) {
        lemma_line_showing(lines, k + 1, offset);
    }
}

proof fn lemma_line_before(lines: Seq<LineBox>, k: int, offset: usize)
    requires
        0 <= k <= lines.len(),
    ensures
        match line_before(lines, k, offset) {
            Some(i) => 0 <= i < k && lines[i].source.end <= offset && forall|j: int|
                0 <= j < k && (#[trigger] lines[j]).source.end <= offset ==> lines[j].source.end
                    <= lines[i].source.end && (j > i ==> lines[j].source.end < lines[i].source.end),
            None => forall|j: int| 0 <= j < k ==> offset < (#[trigger] lines[j]).source.end,
        },
    decreases k,
{
    if k > 0 {
        lemma_line_before(lines, k - 1, offset);
    }
}

/// A position is drawn on the first line from its source. Where no line is, it
/// is drawn on the line that ends last before it; and it is drawn nowhere only
/// where every line is behind it.
pub proof fn positions_are_drawn_on_their_line(lines: Seq<LineBox>, offset: usize, j: int)
    requires
        0 <= j < lines.len(),
    ensures
        ({
            let start = lines[j].source.start;
            let end = lines[j].source.end;
            match line_of(lines, offset) {
                Some(i) => {
                    let from = lines[i].source.start;
                    let to = lines[i].source.end;
                    &&& 0 <= i < lines.len()
                    &&& start <= offset <= end ==> i <= j && from <= offset <= to
                    &&& !(from <= offset <= to) ==> to <= offset && (end <= offset ==> end <= to)
                },
                None => offset < end && !(start <= offset),
            }
        }),
{
    lemma_line_showing(lines, 0, offset);
    lemma_line_before(lines, lines.len() as int, offset);
}

proof fn lemma_nearest_ahead(
    lines: Seq<LineBox>,
    k: int,
    current: LineBox,
    down: bool,
    x: int,
    y: int,
)
    requires
        0 <= k <= lines.len(),
    ensures
        match nearest_ahead(lines, k, current, down, x, y) {
            Some(i) => 0 <= i < k && ahead(lines[i], current, down) && forall|j: int|
                0 <= j < k && ahead(#[trigger] lines[j], current, down) ==> !nearer(
                    lines[j],
                    lines[i],
                    x,
                    y,
                ),
            None => forall|j: int| 0 <= j < k ==> !ahead(#[trigger] lines[j], current, down),
        },
    decreases k,
{
    if k > 0 {
        lemma_nearest_ahead(lines, k - 1, current, down, x, y);
    }
}

/// Up and Down move by one row: within a line to the row next to it, and at its
/// edge to the facing row of a line wholly above or below, in which no other
/// such line lies closer. They stay where there is none.
pub proof fn vertical_moves_go_to_the_next_row(
    lines: Seq<LineBox>,
    current: int,
    row: int,
    row_height: int,
    down: bool,
    x: int,
    j: int,
)
    requires
        0 <= current < lines.len(),
        0 <= j < lines.len(),
        0 <= row < lines[current].rows,
    ensures
        ({
            let line = lines[current];
            let target = vertical_target(lines, current, row, row_height, down, x);
            if down && row + 1 < line.rows {
                target == Some((current, row + 1))
            } else if !down && row > 0 {
                target == Some((current, row - 1))
            } else {
                let y = line.top + (if down {
                    row + 1
                } else {
                    row - 1
                }) * row_height;
                let beyond = if down {
                    lines[j].top >= line.top + line.height
                } else {
                    lines[j].top + lines[j].height <= line.top
                };
                match target {
                    Some((i, at)) => {
                        let other = lines[i];
                        &&& 0 <= i < lines.len()
                        &&& down ==> other.top >= line.top + line.height && at == 0
                        &&& !down ==> other.top + other.height <= line.top && (other.rows > 0
                            ==> at == other.rows - 1)
                        &&& beyond ==> distance(y, other.top as int, other.bottom()) <= distance(
                            y,
                            lines[j].top as int,
                            lines[j].bottom(),
                        )
                        &&& beyond && other.top == lines[j].top && other.height == lines[j].height
                            ==> distance(x, other.left as int, other.right()) <= distance(
                            x,
                            lines[j].left as int,
                            lines[j].right(),
                        )
                    },
                    None => !beyond,
                }
            }
        }),
{
    let next = if down {
        row + 1
    } else {
        row - 1
    };
    let line = lines[current];
    lemma_nearest_ahead(lines, lines.len() as int, line, down, x, line.top + next * row_height);
}

/// How far a point is from a stretch is the least distance to a point of it.
pub proof fn distances_are_the_least(p: int, low: int, high: int, q: int)
    requires
        low <= q <= high,
    ensures
        0 <= distance(p, low, high),
        distance(p, low, high) <= p - q || distance(p, low, high) <= q - p,
        distance(p, low, high) == p - low || distance(p, low, high) == low - p || distance(
            p,
            low,
            high,
        ) == p - high || distance(p, low, high) == 0 && low <= p <= high,
{
}

proof fn lemma_closest_line(lines: Seq<LineBox>, k: int, y: int)
    requires
        0 <= k <= lines.len(),
    ensures
        match closest_line(lines, k, y) {
            Some(i) => 0 <= i < k && !level(lines[i], y) && forall|j: int|
                0 <= j < k && !level(#[trigger] lines[j], y) ==> distance(
                    y,
                    lines[i].top as int,
                    lines[i].bottom(),
                ) <= distance(y, lines[j].top as int, lines[j].bottom()),
            None => forall|j: int| 0 <= j < k ==> level(#[trigger] lines[j], y),
        },
    decreases k,
{
    if k > 0 {
        lemma_closest_line(lines, k - 1, y);
    }
}

/// Above the first line a point belongs to the start of the document, below the
/// last one to its end, and in a gap to the line that is closest to it, at the
/// edge of that line that faces it.
pub proof fn points_off_the_lines_hit_the_closest(lines: Seq<LineBox>, x: int, y: int, px: u32, j: int)
    requires
        0 <= j < lines.len() <= usize::MAX,
        forall|k: int| 0 <= k < lines.len() ==> !level(#[trigger] lines[k], y),
    ensures
        y < lines[0].top ==> hit(lines, x, y, px) == Hit::DocumentStart,
        lines[0].top <= y && lines.last().bottom() <= y ==> hit(lines, x, y, px)
            == Hit::DocumentEnd,
        lines[0].top <= y < lines.last().bottom() ==> match hit(lines, x, y, px) {
            Hit::Line { index, y: local } => {
                let line = lines[index as int];
                &&& index < lines.len()
                &&& distance(y, line.top as int, line.bottom()) <= distance(
                    y,
                    lines[j].top as int,
                    lines[j].bottom(),
                )
                &&& y < line.top ==> local == 0
                &&& y >= line.top ==> local == line.height - px
            },
            _ => false,
        },
{
    lemma_level_line(lines, lines.len() as int, x, y);
    lemma_closest_line(lines, lines.len() as int, y);
}

} // verus!
