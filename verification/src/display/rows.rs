//! How the lines of a block are stacked. Lengths are whole numbers of a small
//! unit; where a half is room that is left it is rounded down, and where it is
//! room that is needed it is rounded up.

use core::ops::Range;

use vstd::prelude::*;

verus! {

// ---------------------------------------------------------------------------
// Room above and below a row
// ---------------------------------------------------------------------------

/// The room that a row takes above and below the height of a line.
#[derive(Debug, Clone, Copy, PartialEq, Eq, Structural)]
pub struct RowExtra {
    pub top: u64,
    pub bottom: u64,
}

/// A formula inside of a line: where it begins, and how far it reaches above and
/// below the baseline.
#[derive(Debug, Clone, Copy, PartialEq, Eq, Structural)]
pub struct MathBox {
    pub start: usize,
    pub ascent: u64,
    pub descent: u64,
}

/// An image inside of a line: where it begins, and how high it is.
#[derive(Debug, Clone, Copy, PartialEq, Eq, Structural)]
pub struct ImageBox {
    pub start: usize,
    pub height: u64,
}

/// How far `a` exceeds `b`.
pub open spec fn excess(a: int, b: int) -> int {
    if a > b {
        a - b
    } else {
        0
    }
}

pub open spec fn larger(a: int, b: int) -> int {
    if a >= b {
        a
    } else {
        b
    }
}

pub open spec fn on_line(line: Range<usize>, start: usize) -> bool {
    line.start <= start < line.end
}

/// How far the first `k` formulas reach above the letters of the line.
pub open spec fn ascent_over(line: Range<usize>, math: Seq<MathBox>, ascent: u64, k: int) -> int
    decreases k,
{
    if k <= 0 {
        0
    } else {
        let before = ascent_over(line, math, ascent, k - 1);
        if on_line(line, math[k - 1].start) {
            larger(before, excess(math[k - 1].ascent as int, ascent as int))
        } else {
            before
        }
    }
}

/// How far the first `k` formulas reach below the letters of the line.
pub open spec fn descent_over(line: Range<usize>, math: Seq<MathBox>, descent: u64, k: int) -> int
    decreases k,
{
    if k <= 0 {
        0
    } else {
        let before = descent_over(line, math, descent, k - 1);
        if on_line(line, math[k - 1].start) {
            larger(before, excess(math[k - 1].descent as int, descent as int))
        } else {
            before
        }
    }
}

/// Half of what a line is higher than its letters.
pub open spec fn half_leading(ascent: u64, descent: u64, line_height: u64) -> int {
    excess(line_height as int, ascent + descent) / 2
}

/// The room that formulas take: what does not fit into the leading of the line.
pub open spec fn math_extra(
    line: Range<usize>,
    math: Seq<MathBox>,
    ascent: u64,
    descent: u64,
    line_height: u64,
) -> RowExtra {
    let leading = half_leading(ascent, descent, line_height);
    RowExtra {
        top: excess(ascent_over(line, math, ascent, math.len() as int), leading) as u64,
        bottom: excess(descent_over(line, math, descent, math.len() as int), leading) as u64,
    }
}

/// How far the first `k` images reach beyond the line on either side.
pub open spec fn image_over(
    line: Range<usize>,
    images: Seq<ImageBox>,
    line_height: u64,
    k: int,
) -> int
    decreases k,
{
    if k <= 0 {
        0
    } else {
        let before = image_over(line, images, line_height, k - 1);
        if on_line(line, images[k - 1].start) {
            larger(before, (excess(images[k - 1].height as int, line_height as int) + 1) / 2)
        } else {
            before
        }
    }
}

/// The room that images take: they are centered on their line.
pub open spec fn image_extra(line: Range<usize>, images: Seq<ImageBox>, line_height: u64) -> RowExtra {
    let over = image_over(line, images, line_height, images.len() as int) as u64;
    RowExtra { top: over, bottom: over }
}

fn over(a: u64, b: u64) -> (d: u64)
    ensures
        d == excess(a as int, b as int),
{
    if a > b {
        a - b
    } else {
        0
    }
}

fn half_up(a: u64) -> (half: u64)
    ensures
        half == (a + 1) / 2,
{
    a / 2 + a % 2
}

fn max_length(a: u64, b: u64) -> (m: u64)
    ensures
        m == larger(a as int, b as int),
{
    if a >= b {
        a
    } else {
        b
    }
}

/// The room that the formulas of a line take.
pub fn compute_math_row_extra(
    line: &Range<usize>,
    math: &Vec<MathBox>,
    ascent: u64,
    descent: u64,
    line_height: u64,
) -> (extra: RowExtra)
    ensures
        extra == math_extra(*line, math@, ascent, descent, line_height),
{
    let mut above: u64 = 0;
    let mut below: u64 = 0;
    let mut k: usize = 0;
    while k < math.len()
        invariant
            k <= math@.len(),
            above == ascent_over(*line, math@, ascent, k as int),
            below == descent_over(*line, math@, descent, k as int),
        decreases math@.len() - k,
    {
        if line.start <= math[k].start && math[k].start < line.end {
            above = max_length(above, over(math[k].ascent, ascent));
            below = max_length(below, over(math[k].descent, descent));
        }
        k = k + 1;
    }
    let leading: u64 = over(over(line_height, ascent), descent) / 2;
    RowExtra { top: over(above, leading), bottom: over(below, leading) }
}

/// The room that the images of a line take.
pub fn compute_image_row_extra(line: &Range<usize>, images: &Vec<ImageBox>, line_height: u64) -> (
    extra: RowExtra)
    ensures
        extra == image_extra(*line, images@, line_height),
{
    let mut most: u64 = 0;
    let mut k: usize = 0;
    while k < images.len()
        invariant
            k <= images@.len(),
            most == image_over(*line, images@, line_height, k as int),
        decreases images@.len() - k,
    {
        if line.start <= images[k].start && images[k].start < line.end {
            most = max_length(most, half_up(over(images[k].height, line_height)));
        }
        k = k + 1;
    }
    RowExtra { top: most, bottom: most }
}

/// The room for both: on each side the larger.
pub fn combined_row_extra(math: RowExtra, image: RowExtra) -> (extra: RowExtra)
    ensures
        extra.top == larger(math.top as int, image.top as int),
        extra.bottom == larger(math.bottom as int, image.bottom as int),
{
    RowExtra {
        top: max_length(math.top, image.top),
        bottom: max_length(math.bottom, image.bottom),
    }
}

// ---------------------------------------------------------------------------
// Formulas and images in a row
// ---------------------------------------------------------------------------

/// Where a formula begins in a row at `row`: its baseline is that of the letters,
/// which stand in the middle of the line.
pub open spec fn formula_at(
    row: int,
    math: MathBox,
    ascent: u64,
    descent: u64,
    line_height: u64,
) -> int {
    row + half_leading(ascent, descent, line_height) + ascent - math.ascent
}

/// Where an image begins in a row at `row`: in the middle of the line.
pub open spec fn image_at(row: int, image: ImageBox, line_height: u64) -> int {
    row + (line_height - image.height) / 2
}

/// The top of a formula in a row.
pub fn formula_top(row: i64, math: &MathBox, ascent: u64, descent: u64, line_height: u64) -> (top:
    i64)
    requires
        i64::MIN <= formula_at(row as int, *math, ascent, descent, line_height) <= i64::MAX,
    ensures
        top == formula_at(row as int, *math, ascent, descent, line_height),
{
    let leading: u64 = over(over(line_height, ascent), descent) / 2;
    let top: i128 = row as i128 + leading as i128 + ascent as i128 - math.ascent as i128;
    top as i64
}

/// The top of an image in a row.
pub fn image_top(row: i64, image: &ImageBox, line_height: u64) -> (top: i64)
    requires
        i64::MIN <= image_at(row as int, *image, line_height) <= i64::MAX,
    ensures
        top == image_at(row as int, *image, line_height),
{
    let top: i128 = if image.height > line_height {
        row as i128 - half_up(image.height - line_height) as i128
    } else {
        row as i128 + ((line_height - image.height) / 2) as i128
    };
    top as i64
}

// ---------------------------------------------------------------------------
// Stacks
// ---------------------------------------------------------------------------

/// What a line takes: at how many places it is wrapped, and the room above and
/// below each of its rows.
#[derive(Debug, Clone, Copy, PartialEq, Eq, Structural)]
pub struct LineMeasure {
    pub is_delimiter: bool,
    pub wraps: u64,
    pub extra: RowExtra,
}

/// How a block is stacked: `padding` stands between a delimiter of a code block
/// and its content.
#[derive(Debug, Clone, Copy, PartialEq, Eq, Structural)]
pub struct StackStyle {
    pub line_height: u64,
    pub padding: u64,
    pub is_code: bool,
}

/// The height of a line with all its rows.
pub open spec fn height_of(line: LineMeasure, style: StackStyle) -> int {
    (style.line_height + line.extra.top + line.extra.bottom) * (line.wraps + 1)
}

/// The height of the first `k` lines.
pub open spec fn rows_height(lines: Seq<LineMeasure>, style: StackStyle, k: int) -> int
    decreases k,
{
    if k <= 0 {
        0
    } else {
        rows_height(lines, style, k - 1) + height_of(lines[k - 1], style)
    }
}

/// Was the line before `k` a delimiter? So is what is above the block.
pub open spec fn after_delimiter(lines: Seq<LineMeasure>, k: int) -> bool {
    k <= 0 || lines[k - 1].is_delimiter
}

/// How often a delimiter and content meet in the first `k` lines.
pub open spec fn seams(lines: Seq<LineMeasure>, k: int) -> nat
    decreases k,
{
    if k <= 0 {
        0
    } else {
        seams(lines, k - 1) + if lines[k - 1].is_delimiter != after_delimiter(lines, k - 1) {
            1nat
        } else {
            0nat
        }
    }
}

/// The height of a block: that of its lines, and in a code block the padding
/// between delimiters and content and after content that ends the block. A block
/// without lines has the height of one.
pub open spec fn content_height(lines: Seq<LineMeasure>, style: StackStyle) -> int {
    let n = lines.len() as int;
    if n == 0 {
        style.line_height as int
    } else if style.is_code {
        rows_height(lines, style, n) + style.padding * seams(lines, n) + if after_delimiter(
            lines,
            n,
        ) {
            0
        } else {
            style.padding as int
        }
    } else {
        rows_height(lines, style, n)
    }
}

/// The stack of the lines so far: how high it is, where each line begins, and
/// where the content between the delimiters begins and ends.
#[verifier::ext_equal]
pub struct StackView {
    pub height: int,
    pub tops: Seq<int>,
    pub strip_top: Option<int>,
    pub strip_bottom: Option<int>,
}

/// The first `k` lines stacked.
pub open spec fn stacked(lines: Seq<LineMeasure>, style: StackStyle, k: int) -> StackView
    decreases k,
{
    if k <= 0 {
        StackView { height: 0, tops: Seq::empty(), strip_top: None, strip_bottom: None }
    } else {
        let before = stacked(lines, style, k - 1);
        let line = lines[k - 1];
        let seam = style.is_code && line.is_delimiter != after_delimiter(lines, k - 1);
        let top = before.height + if seam {
            style.padding as int
        } else {
            0
        };
        StackView {
            height: top + height_of(line, style),
            tops: before.tops.push(top + line.extra.top),
            strip_top: if seam && !line.is_delimiter {
                Some(before.height)
            } else {
                before.strip_top
            },
            strip_bottom: if seam && line.is_delimiter {
                Some(top)
            } else {
                before.strip_bottom
            },
        }
    }
}

/// The lines of a block stacked. A block without lines is one empty line.
pub open spec fn stack_of(lines: Seq<LineMeasure>, style: StackStyle) -> StackView {
    let n = lines.len() as int;
    let all = stacked(lines, style, n);
    if n == 0 {
        StackView {
            height: style.line_height as int,
            tops: seq![0],
            strip_top: None,
            strip_bottom: None,
        }
    } else if style.is_code && !after_delimiter(lines, n) {
        StackView {
            height: all.height + style.padding,
            strip_bottom: Some(all.height + style.padding),
            ..all
        }
    } else {
        all
    }
}

/// The lines of a block stacked.
#[derive(Debug, PartialEq, Eq)]
pub struct Stack {
    pub height: u64,
    pub tops: Vec<u64>,
    pub strip_top: Option<u64>,
    pub strip_bottom: Option<u64>,
}

pub open spec fn length_of(length: Option<u64>) -> Option<int> {
    match length {
        Some(y) => Some(y as int),
        None => None,
    }
}

impl View for Stack {
    type V = StackView;

    open spec fn view(&self) -> StackView {
        StackView {
            height: self.height as int,
            tops: self.tops@.map_values(|y: u64| y as int),
            strip_top: length_of(self.strip_top),
            strip_bottom: length_of(self.strip_bottom),
        }
    }
}

pub proof fn lemma_height_of(line: LineMeasure, style: StackStyle)
    ensures
        height_of(line, style) >= style.line_height + line.extra.top + line.extra.bottom,
{
    let h = style.line_height + line.extra.top + line.extra.bottom;
    let n = line.wraps + 1;
    assert(h * n >= h) by (nonlinear_arith)
        requires
            h >= 0,
            n >= 1,
    ;
}

proof fn lemma_stack_grows(lines: Seq<LineMeasure>, style: StackStyle, j: int, k: int)
    requires
        0 <= j <= k,
    ensures
        stacked(lines, style, j).height <= stacked(lines, style, k).height,
    decreases k - j,
{
    if j < k {
        lemma_stack_grows(lines, style, j, k - 1);
        lemma_height_of(lines[k - 1], style);
    }
}

/// The height of a line with all its rows.
pub fn line_height_of(line: &LineMeasure, style: &StackStyle) -> (height: u64)
    requires
        height_of(*line, *style) <= u64::MAX,
    ensures
        height == height_of(*line, *style),
{
    proof {
        lemma_height_of(*line, *style);
    }
    let row: u64 = style.line_height + line.extra.top + line.extra.bottom;
    if row == 0 {
        assert(height_of(*line, *style) == 0) by (nonlinear_arith)
            requires
                height_of(*line, *style) == row * (line.wraps + 1),
                row == 0,
        ;
        return 0;
    }
    proof {
        assert(line.wraps + 1 <= row * (line.wraps + 1)) by (nonlinear_arith)
            requires
                row >= 1,
                line.wraps >= 0,
        ;
    }
    row * (line.wraps + 1)
}

/// The height of a block.
pub fn shaped_content_height(lines: &Vec<LineMeasure>, style: &StackStyle) -> (height: u64)
    requires
        content_height(lines@, *style) <= u64::MAX,
    ensures
        height == content_height(lines@, *style),
{
    if lines.len() == 0 {
        return style.line_height;
    }
    proof {
        stacks_fill_the_height(lines@, *style);
    }
    let stack = stack_lines(lines, style);
    stack.height
}

/// Stacks the lines of a block.
pub fn stack_lines(lines: &Vec<LineMeasure>, style: &StackStyle) -> (stack: Stack)
    requires
        stack_of(lines@, *style).height <= u64::MAX,
    ensures
        stack@ == stack_of(lines@, *style),
{
    let mut tops: Vec<u64> = Vec::new();
    if lines.len() == 0 {
        tops.push(0);
        let stack = Stack {
            height: style.line_height,
            tops,
            strip_top: None,
            strip_bottom: None,
        };
        assert(stack@ =~= stack_of(lines@, *style));
        return stack;
    }
    let ghost n = lines@.len() as int;
    let mut y: u64 = 0;
    let mut strip_top: Option<u64> = None;
    let mut strip_bottom: Option<u64> = None;
    let mut last_was_delim = true;
    let mut k: usize = 0;
    while k < lines.len()
        invariant
            k <= lines@.len(),
            n == lines@.len(),
            n > 0,
            stack_of(lines@, *style).height <= u64::MAX,
            y == stacked(lines@, *style, k as int).height,
            tops@.map_values(|y: u64| y as int) =~= stacked(lines@, *style, k as int).tops,
            length_of(strip_top) == stacked(lines@, *style, k as int).strip_top,
            length_of(strip_bottom) == stacked(lines@, *style, k as int).strip_bottom,
            last_was_delim == after_delimiter(lines@, k as int),
        decreases lines@.len() - k,
    {
        let line = &lines[k];
        proof {
            lemma_stack_grows(lines@, *style, k + 1, n);
            lemma_height_of(*line, *style);
        }
        let ghost before = tops@.map_values(|y: u64| y as int);
        if style.is_code && line.is_delimiter != last_was_delim {
            if !line.is_delimiter {
                strip_top = Some(y);
            }
            y = y + style.padding;
            if line.is_delimiter {
                strip_bottom = Some(y);
            }
        }
        tops.push(y + line.extra.top);
        assert(tops@.map_values(|y: u64| y as int) =~= before.push(y + line.extra.top));
        y = y + line_height_of(line, style);
        last_was_delim = line.is_delimiter;
        k = k + 1;
    }
    if style.is_code && !last_was_delim {
        y = y + style.padding;
        strip_bottom = Some(y);
    }
    let stack = Stack { height: y, tops, strip_top, strip_bottom };
    assert(stack@ =~= stack_of(lines@, *style));
    stack
}

// ---------------------------------------------------------------------------
// Laws
// ---------------------------------------------------------------------------

proof fn lemma_stack_height(lines: Seq<LineMeasure>, style: StackStyle, k: int)
    requires
        0 <= k,
    ensures
        stacked(lines, style, k).height == rows_height(lines, style, k) + if style.is_code {
            style.padding * seams(lines, k)
        } else {
            0
        },
    decreases k,
{
    let p = style.padding as int;
    let now = seams(lines, k) as int;
    if k > 0 {
        lemma_stack_height(lines, style, k - 1);
        let before = seams(lines, k - 1) as int;
        if now == before + 1 {
            assert(p * now == p * before + p) by (nonlinear_arith)
                requires
                    now == before + 1,
            ;
        }
    } else {
        assert(p * now == 0) by (nonlinear_arith)
            requires
                now == 0,
        ;
    }
}

/// The stack of the lines of a block is as high as the block.
pub proof fn stacks_fill_the_height(lines: Seq<LineMeasure>, style: StackStyle)
    ensures
        stack_of(lines, style).height == content_height(lines, style),
{
    lemma_stack_height(lines, style, lines.len() as int);
}

/// Lines do not overlap: each begins past the one before it, with room for what
/// reaches above it.
pub proof fn stacked_lines_do_not_overlap(lines: Seq<LineMeasure>, style: StackStyle, i: int, j: int)
    requires
        0 <= i < j < lines.len(),
    ensures
        ({
            let tops = stack_of(lines, style).tops;
            &&& tops.len() == lines.len()
            &&& tops[i] - lines[i].extra.top + height_of(lines[i], style) <= tops[j]
                - lines[j].extra.top
        }),
    decreases lines.len(),
{
    lemma_tops(lines, style, lines.len() as int, i);
    lemma_tops(lines, style, lines.len() as int, j);
    lemma_stack_grows(lines, style, i + 1, j);
}

proof fn lemma_tops(lines: Seq<LineMeasure>, style: StackStyle, k: int, i: int)
    requires
        0 <= i < k <= lines.len(),
    ensures
        stacked(lines, style, k).tops.len() == k,
        ({
            let top = stacked(lines, style, k).tops[i] - lines[i].extra.top;
            &&& stacked(lines, style, i).height <= top
            &&& top + height_of(lines[i], style) == stacked(lines, style, i + 1).height
        }),
    decreases k,
{
    lemma_tops_len(lines, style, k - 1);
    if i < k - 1 {
        lemma_tops(lines, style, k - 1, i);
    }
}

proof fn lemma_tops_len(lines: Seq<LineMeasure>, style: StackStyle, k: int)
    requires
        0 <= k,
    ensures
        stacked(lines, style, k).tops.len() == k,
    decreases k,
{
    if k > 0 {
        lemma_tops_len(lines, style, k - 1);
    }
}

proof fn lemma_reach(
    line: Range<usize>,
    math: Seq<MathBox>,
    ascent: u64,
    descent: u64,
    k: int,
    n: int,
)
    requires
        0 <= k < n <= math.len(),
        on_line(line, math[k].start),
    ensures
        math[k].ascent - ascent <= ascent_over(line, math, ascent, n) <= u64::MAX,
        math[k].descent - descent <= descent_over(line, math, descent, n) <= u64::MAX,
    decreases n,
{
    lemma_over_bounds(line, math, ascent, descent, n);
    if k < n - 1 {
        lemma_reach(line, math, ascent, descent, k, n - 1);
    }
}

proof fn lemma_over_bounds(line: Range<usize>, math: Seq<MathBox>, ascent: u64, descent: u64, n: int)
    requires
        n <= math.len(),
    ensures
        0 <= ascent_over(line, math, ascent, n) <= u64::MAX,
        0 <= descent_over(line, math, descent, n) <= u64::MAX,
    decreases n,
{
    if n > 0 {
        lemma_over_bounds(line, math, ascent, descent, n - 1);
    }
}

/// A formula stands in the room of its row, which is as high as the line with
/// the room above and below it.
pub proof fn rows_hold_their_formulas(
    row: int,
    line: Range<usize>,
    math: Seq<MathBox>,
    ascent: u64,
    descent: u64,
    line_height: u64,
    k: int,
)
    requires
        0 <= k < math.len(),
        on_line(line, math[k].start),
        ascent + descent <= line_height,
    ensures
        ({
            let extra = math_extra(line, math, ascent, descent, line_height);
            let top = formula_at(row, math[k], ascent, descent, line_height);
            let bottom = top + math[k].ascent + math[k].descent;
            row - extra.top <= top && bottom <= row + line_height + extra.bottom
        }),
{
    lemma_reach(line, math, ascent, descent, k, math.len() as int);
}

proof fn lemma_image_reach(
    line: Range<usize>,
    images: Seq<ImageBox>,
    line_height: u64,
    k: int,
    n: int,
)
    requires
        0 <= k < n <= images.len(),
        on_line(line, images[k].start),
    ensures
        (excess(images[k].height as int, line_height as int) + 1) / 2 <= image_over(
            line,
            images,
            line_height,
            n,
        ) <= u64::MAX,
    decreases n,
{
    lemma_image_bounds(line, images, line_height, n);
    if k < n - 1 {
        lemma_image_reach(line, images, line_height, k, n - 1);
    }
}

proof fn lemma_image_bounds(line: Range<usize>, images: Seq<ImageBox>, line_height: u64, n: int)
    requires
        n <= images.len(),
    ensures
        0 <= image_over(line, images, line_height, n) <= u64::MAX,
    decreases n,
{
    if n > 0 {
        lemma_image_bounds(line, images, line_height, n - 1);
    }
}

/// An image stands in the room of its row, which is as high as the line with the
/// room above and below it.
pub proof fn rows_hold_their_images(
    row: int,
    line: Range<usize>,
    images: Seq<ImageBox>,
    line_height: u64,
    k: int,
)
    requires
        0 <= k < images.len(),
        on_line(line, images[k].start),
    ensures
        ({
            let extra = image_extra(line, images, line_height);
            let top = image_at(row, images[k], line_height);
            row - extra.top <= top && top + images[k].height <= row + line_height + extra.bottom
        }),
{
    lemma_image_reach(line, images, line_height, k, images.len() as int);
}

} // verus!
