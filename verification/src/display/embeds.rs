//! How the blocks of an embed are stacked. Lengths are whole numbers of a small
//! unit.

use vstd::prelude::*;

use crate::display::rows::{height_of, lemma_height_of, line_height_of, LineMeasure, StackStyle};

verus! {

/// What a block of an embed is drawn as.
#[derive(Debug, PartialEq, Eq)]
pub enum EmbedBody {
    /// A table or a formula of its own.
    Whole { height: u64 },
    /// The rule of a thematic break.
    Rule,
    /// A table that could not be laid out.
    Nothing,
    /// Lines of text, with padding above and below.
    Lines { lines: Vec<LineMeasure>, padding: u64 },
}

/// A block of an embed and the room above and below it.
#[derive(Debug, PartialEq, Eq)]
pub struct EmbedPart {
    pub above: u64,
    pub below: u64,
    pub line_height: u64,
    pub body: EmbedBody,
}

/// Where a block of an embed stands: with the room around it, without it, and
/// where each of its lines stands. A line that is not drawn stands nowhere.
#[derive(Debug, PartialEq, Eq)]
pub struct PartPlace {
    pub top: u64,
    pub block_top: u64,
    pub lines: Vec<Option<u64>>,
    pub block_bottom: u64,
    pub bottom: u64,
}

#[verifier::ext_equal]
pub struct PartPlaceView {
    pub top: int,
    pub block_top: int,
    pub lines: Seq<Option<int>>,
    pub block_bottom: int,
    pub bottom: int,
}

pub open spec fn line_places(lines: Seq<Option<u64>>) -> Seq<Option<int>> {
    lines.map_values(
        |y: Option<u64>|
            match y {
                Some(y) => Some(y as int),
                None => None::<int>,
            },
    )
}

impl View for PartPlace {
    type V = PartPlaceView;

    open spec fn view(&self) -> PartPlaceView {
        PartPlaceView {
            top: self.top as int,
            block_top: self.block_top as int,
            lines: line_places(self.lines@),
            block_bottom: self.block_bottom as int,
            bottom: self.bottom as int,
        }
    }
}

/// Lines of an embed have no padding between them.
pub open spec fn embedded_style(line_height: u64) -> StackStyle {
    StackStyle { line_height, padding: 0, is_code: false }
}

/// The height of a line.
pub open spec fn embedded_height(line: LineMeasure, line_height: u64) -> int {
    height_of(line, embedded_style(line_height))
}

/// Where the first `k` lines end, the first of them at `y`. Delimiters are not
/// drawn.
pub open spec fn lines_end(lines: Seq<LineMeasure>, line_height: u64, y: int, k: int) -> int
    decreases k,
{
    if k <= 0 {
        y
    } else {
        lines_end(lines, line_height, y, k - 1) + if lines[k - 1].is_delimiter {
            0
        } else {
            embedded_height(lines[k - 1], line_height)
        }
    }
}

/// Where the first `k` lines stand, below the room for what reaches above them.
pub open spec fn lines_at(lines: Seq<LineMeasure>, line_height: u64, y: int, k: int) -> Seq<
    Option<int>,
>
    decreases k,
{
    if k <= 0 {
        Seq::empty()
    } else {
        let line = lines[k - 1];
        lines_at(lines, line_height, y, k - 1).push(
            if line.is_delimiter {
                None
            } else {
                Some(lines_end(lines, line_height, y, k - 1) + line.extra.top)
            },
        )
    }
}

/// Is one of the first `k` lines drawn?
pub open spec fn draws_line(lines: Seq<LineMeasure>, k: int) -> bool
    decreases k,
{
    k > 0 && (!lines[k - 1].is_delimiter || draws_line(lines, k - 1))
}

/// A block of an embed at `y`. One without a line that is drawn is as high as a
/// line.
pub open spec fn place(part: EmbedPart, y: int) -> PartPlaceView {
    let block_top = y + part.above;
    let line_height = part.line_height as int;
    let lines = match part.body {
        EmbedBody::Lines { lines, padding } => lines_at(
            lines@,
            part.line_height,
            block_top + padding,
            lines@.len() as int,
        ),
        _ => Seq::empty(),
    };
    let block_bottom = match part.body {
        EmbedBody::Whole { height } => block_top + if height as int > line_height {
            height as int
        } else {
            line_height
        },
        EmbedBody::Rule => block_top + line_height,
        EmbedBody::Nothing => block_top,
        EmbedBody::Lines { lines, padding } => if draws_line(lines@, lines@.len() as int) {
            lines_end(lines@, part.line_height, block_top + padding, lines@.len() as int) + padding
        } else {
            block_top + line_height + padding + padding
        },
    };
    PartPlaceView { top: y, block_top, lines, block_bottom, bottom: block_bottom + part.below }
}

/// Where the first `k` blocks end.
pub open spec fn parts_end(parts: Seq<EmbedPart>, k: int) -> int
    decreases k,
{
    if k <= 0 {
        0
    } else {
        place(parts[k - 1], parts_end(parts, k - 1)).bottom
    }
}

/// Where the first `k` blocks stand, each below the one before it.
pub open spec fn places(parts: Seq<EmbedPart>, k: int) -> Seq<PartPlaceView>
    decreases k,
{
    if k <= 0 {
        Seq::empty()
    } else {
        places(parts, k - 1).push(place(parts[k - 1], parts_end(parts, k - 1)))
    }
}

pub open spec fn places_view(places: Seq<PartPlace>) -> Seq<PartPlaceView> {
    places.map_values(|place: PartPlace| place@)
}

proof fn lemma_lines_end_grows(lines: Seq<LineMeasure>, line_height: u64, y: int, j: int, k: int)
    requires
        0 <= j <= k,
    ensures
        lines_end(lines, line_height, y, j) <= lines_end(lines, line_height, y, k),
    decreases k - j,
{
    if j < k {
        lemma_lines_end_grows(lines, line_height, y, j, k - 1);
        lemma_height_of(lines[k - 1], embedded_style(line_height));
    }
}

proof fn lemma_place(part: EmbedPart, y: int)
    ensures
        y <= place(part, y).block_top <= place(part, y).block_bottom <= place(part, y).bottom,
{
    if let EmbedBody::Lines { lines, padding } = part.body {
        lemma_lines_end_grows(
            lines@,
            part.line_height,
            y + part.above + padding,
            0,
            lines@.len() as int,
        );
    }
}

proof fn lemma_parts_end_grows(parts: Seq<EmbedPart>, j: int, k: int)
    requires
        0 <= j <= k,
    ensures
        0 <= parts_end(parts, j) <= parts_end(parts, k),
    decreases k,
{
    if k > 0 {
        lemma_place(parts[k - 1], parts_end(parts, k - 1));
        if j < k {
            lemma_parts_end_grows(parts, j, k - 1);
        } else {
            lemma_parts_end_grows(parts, k - 1, k - 1);
        }
    }
}

fn place_lines(lines: &Vec<LineMeasure>, line_height: u64, y: u64) -> (placed: (
    Vec<Option<u64>>,
    u64,
    bool,
))
    requires
        lines_end(lines@, line_height, y as int, lines@.len() as int) <= u64::MAX,
    ensures
        line_places(placed.0@) == lines_at(
            lines@,
            line_height,
            y as int,
            lines@.len() as int,
        ),
        placed.1 == lines_end(lines@, line_height, y as int, lines@.len() as int),
        placed.2 == draws_line(lines@, lines@.len() as int),
{
    let ghost n = lines@.len() as int;
    let mut out: Vec<Option<u64>> = Vec::new();
    let mut end: u64 = y;
    let mut drawn = false;
    let style = StackStyle { line_height, padding: 0, is_code: false };
    let mut k: usize = 0;
    assert(line_places(out@) =~= Seq::empty());
    while k < lines.len()
        invariant
            k <= lines@.len(),
            n == lines@.len(),
            style == embedded_style(line_height),
            lines_end(lines@, line_height, y as int, n) <= u64::MAX,
            line_places(out@) =~= lines_at(lines@, line_height, y as int, k as int),
            end == lines_end(lines@, line_height, y as int, k as int),
            drawn == draws_line(lines@, k as int),
        decreases lines@.len() - k,
    {
        let ghost before = line_places(out@);
        proof {
            lemma_lines_end_grows(lines@, line_height, y as int, k + 1, n);
            lemma_height_of(lines@[k as int], embedded_style(line_height));
        }
        if lines[k].is_delimiter {
            out.push(None);
            assert(line_places(out@) =~= before.push(None));
        } else {
            let at: u64 = end + lines[k].extra.top;
            out.push(Some(at));
            assert(line_places(out@) =~= before.push(Some(at as int)));
            end = end + line_height_of(&lines[k], &style);
            drawn = true;
        }
        k = k + 1;
    }
    (out, end, drawn)
}

/// Places a block of an embed at `y`.
pub fn place_part(part: &EmbedPart, y: u64) -> (placed: PartPlace)
    requires
        place(*part, y as int).bottom <= u64::MAX,
    ensures
        placed@ == place(*part, y as int),
{
    proof {
        lemma_place(*part, y as int);
    }
    let block_top: u64 = y + part.above;
    let mut lines: Vec<Option<u64>> = Vec::new();
    let block_bottom: u64 = match &part.body {
        EmbedBody::Whole { height } => if *height > part.line_height {
            block_top + *height
        } else {
            block_top + part.line_height
        },
        EmbedBody::Rule => block_top + part.line_height,
        EmbedBody::Nothing => block_top,
        EmbedBody::Lines { lines: rows, padding } => {
            proof {
                lemma_lines_end_grows(
                    rows@,
                    part.line_height,
                    block_top + *padding,
                    0,
                    rows@.len() as int,
                );
                lemma_undrawn(
                    rows@,
                    part.line_height,
                    block_top + *padding,
                    rows@.len() as int,
                );
            }
            let (at, end, drawn) = place_lines(rows, part.line_height, block_top + *padding);
            lines = at;
            if drawn {
                end + *padding
            } else {
                block_top + part.line_height + *padding + *padding
            }
        },
    };
    let placed = PartPlace {
        top: y,
        block_top,
        lines,
        block_bottom,
        bottom: block_bottom + part.below,
    };
    assert(placed@ =~= place(*part, y as int));
    placed
}

proof fn lemma_undrawn(lines: Seq<LineMeasure>, line_height: u64, y: int, k: int)
    requires
        0 <= k,
    ensures
        !draws_line(lines, k) ==> lines_end(lines, line_height, y, k) == y,
    decreases k,
{
    if k > 0 {
        lemma_undrawn(lines, line_height, y, k - 1);
    }
}

/// Stacks the blocks of an embed.
pub fn layout_embed(parts: &Vec<EmbedPart>) -> (out: Vec<PartPlace>)
    requires
        parts_end(parts@, parts@.len() as int) <= u64::MAX,
    ensures
        places_view(out@) == places(parts@, parts@.len() as int),
{
    let ghost n = parts@.len() as int;
    let mut out: Vec<PartPlace> = Vec::new();
    let mut y: u64 = 0;
    let mut k: usize = 0;
    while k < parts.len()
        invariant
            k <= parts@.len(),
            n == parts@.len(),
            parts_end(parts@, n) <= u64::MAX,
            y == parts_end(parts@, k as int),
            places_view(out@) =~= places(parts@, k as int),
        decreases parts@.len() - k,
    {
        let ghost before = places_view(out@);
        proof {
            lemma_parts_end_grows(parts@, k + 1, n);
        }
        let placed = place_part(&parts[k], y);
        let ghost pushed = placed@;
        y = placed.bottom;
        out.push(placed);
        assert(places_view(out@) =~= before.push(pushed));
        k = k + 1;
    }
    out
}

// ---------------------------------------------------------------------------
// Laws
// ---------------------------------------------------------------------------

proof fn lemma_places(parts: Seq<EmbedPart>, k: int, i: int)
    requires
        0 <= i < k,
    ensures
        places(parts, k).len() == k,
        places(parts, k)[i] == place(parts[i], parts_end(parts, i)),
    decreases k,
{
    reveal_with_fuel(places, 2);
    if i < k - 1 {
        lemma_places(parts, k - 1, i);
    } else if k > 1 {
        lemma_places(parts, k - 1, 0);
    }
}

/// The blocks of an embed meet: each begins where the one before it ends, with
/// the room around them.
pub proof fn embedded_blocks_meet(parts: Seq<EmbedPart>, i: int)
    requires
        0 <= i < parts.len() - 1,
    ensures
        ({
            let all = places(parts, parts.len() as int);
            all.len() == parts.len() && all[i].bottom == all[i + 1].top
        }),
{
    lemma_places(parts, parts.len() as int, i);
    lemma_places(parts, parts.len() as int, i + 1);
}

/// A line that is drawn stands inside of its block.
pub proof fn embedded_lines_stay_in_their_block(part: EmbedPart, y: int, i: int)
    requires
        part.body is Lines,
        0 <= i < part.body->lines@.len(),
    ensures
        ({
            let placed = place(part, y);
            let line = part.body->lines@[i];
            &&& placed.lines.len() == part.body->lines@.len()
            &&& placed.lines[i] is None <==> line.is_delimiter
            &&& placed.lines[i] matches Some(at) ==> placed.block_top + line.extra.top <= at && at
                - line.extra.top + embedded_height(line, part.line_height) <= placed.block_bottom
        }),
{
    let lines = part.body->lines@;
    let padding = part.body->padding;
    let start = y + part.above + padding;
    lemma_lines_at(lines, part.line_height, start, lines.len() as int, i);
    lemma_lines_end_grows(lines, part.line_height, start, 0, i);
    lemma_lines_end_grows(lines, part.line_height, start, i + 1, lines.len() as int);
    if !lines[i].is_delimiter {
        lemma_draws(lines, lines.len() as int, i);
    }
}

proof fn lemma_lines_at(lines: Seq<LineMeasure>, line_height: u64, y: int, k: int, i: int)
    requires
        0 <= i < k,
    ensures
        lines_at(lines, line_height, y, k).len() == k,
        lines_at(lines, line_height, y, k)[i] == if lines[i].is_delimiter {
            None
        } else {
            Some(lines_end(lines, line_height, y, i) + lines[i].extra.top)
        },
    decreases k,
{
    reveal_with_fuel(lines_at, 2);
    if i < k - 1 {
        lemma_lines_at(lines, line_height, y, k - 1, i);
    } else if k > 1 {
        lemma_lines_at(lines, line_height, y, k - 1, 0);
    }
}

proof fn lemma_draws(lines: Seq<LineMeasure>, k: int, i: int)
    requires
        0 <= i < k,
        !lines[i].is_delimiter,
    ensures
        draws_line(lines, k),
    decreases k,
{
    if i < k - 1 {
        lemma_draws(lines, k - 1, i);
    }
}

} // verus!
