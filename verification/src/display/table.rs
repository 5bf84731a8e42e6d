//! The layout of a table: columns that are as wide as their cells where there is
//! room, and shrink where there is not. Lengths are whole numbers of a small
//! unit.

use core::ops::Range;

use vstd::prelude::*;

use crate::text::{bytes_of, NL};

verus! {

/// What a row of a table is.
#[derive(Debug, Clone, Copy, PartialEq, Eq, Structural)]
pub enum RowKind {
    Header,
    /// The row of dashes below the header.
    Delimiter,
    Body,
}

/// How the cells of a column are aligned.
#[derive(Debug, Clone, Copy, PartialEq, Eq, Structural)]
pub enum TableAlignment {
    Unset,
    Left,
    Center,
    Right,
}

/// A row of a table: its line without the newline, and its cells.
#[derive(Debug, PartialEq, Eq)]
pub struct RowGeometry {
    pub kind: RowKind,
    pub line: Range<usize>,
    pub cells: Vec<Range<usize>>,
}

// ---------------------------------------------------------------------------
// Rows
// ---------------------------------------------------------------------------

/// The rows that are shown of the first `k`: the row of dashes only while the
/// table is edited.
pub open spec fn rows_shown(rows: Seq<RowGeometry>, edit: bool, k: int) -> Seq<usize>
    decreases k,
{
    if k <= 0 {
        Seq::empty()
    } else if edit || rows[k - 1].kind != RowKind::Delimiter {
        rows_shown(rows, edit, k - 1).push((k - 1) as usize)
    } else {
        rows_shown(rows, edit, k - 1)
    }
}

/// The rows of a table that are shown.
pub fn shown_rows(rows: &Vec<RowGeometry>, edit: bool) -> (shown: Vec<usize>)
    ensures
        shown@ == rows_shown(rows@, edit, rows@.len() as int),
{
    let mut shown: Vec<usize> = Vec::new();
    let mut k: usize = 0;
    while k < rows.len()
        invariant
            k <= rows@.len(),
            shown@ == rows_shown(rows@, edit, k as int),
        decreases rows@.len() - k,
    {
        if edit || rows[k].kind != RowKind::Delimiter {
            shown.push(k);
        }
        k = k + 1;
    }
    shown
}

// ---------------------------------------------------------------------------
// Columns
// ---------------------------------------------------------------------------

/// How wide a cell or a column is: that of its widest word, and without a wrap.
#[derive(Debug, Clone, Copy, PartialEq, Eq, Structural)]
pub struct Extent {
    pub min: u32,
    pub max: u32,
}

pub open spec fn wider(a: u32, b: u32) -> u32 {
    if a >= b {
        a
    } else {
        b
    }
}

/// How wide column `c` is in the first `r` rows.
pub open spec fn column_extent(rows: Seq<Seq<Extent>>, c: int, r: int) -> Extent
    decreases r,
{
    if r <= 0 {
        Extent { min: 0, max: 0 }
    } else {
        let before = column_extent(rows, c, r - 1);
        if c < rows[r - 1].len() {
            Extent {
                min: wider(before.min, rows[r - 1][c].min),
                max: wider(before.max, rows[r - 1][c].max),
            }
        } else {
            before
        }
    }
}

pub open spec fn extents_view(rows: Seq<Vec<Extent>>) -> Seq<Seq<Extent>> {
    rows.map_values(|row: Vec<Extent>| row@)
}

/// How wide the columns of a table are: as their widest cells. `rows` holds the
/// cells of all rows but the row of dashes.
pub fn column_extents(rows: &Vec<Vec<Extent>>, columns: usize) -> (extents: Vec<Extent>)
    ensures
        extents@.len() == columns,
        forall|c: int|
            0 <= c < columns ==> #[trigger] extents@[c] == column_extent(
                extents_view(rows@),
                c,
                rows@.len() as int,
            ),
{
    let mut extents: Vec<Extent> = Vec::new();
    let mut c: usize = 0;
    while c < columns
        invariant
            c <= columns,
            extents@.len() == c,
            forall|d: int|
                0 <= d < c ==> #[trigger] extents@[d] == column_extent(
                    extents_view(rows@),
                    d,
                    rows@.len() as int,
                ),
        decreases columns - c,
    {
        let mut extent = Extent { min: 0, max: 0 };
        let mut r: usize = 0;
        while r < rows.len()
            invariant
                r <= rows@.len(),
                extent == column_extent(extents_view(rows@), c as int, r as int),
            decreases rows@.len() - r,
        {
            let row = &rows[r];
            assert(extents_view(rows@)[r as int] == row@);
            if c < row.len() {
                let cell = row[c];
                if cell.min > extent.min {
                    extent.min = cell.min;
                }
                if cell.max > extent.max {
                    extent.max = cell.max;
                }
            }
            r = r + 1;
        }
        extents.push(extent);
        c = c + 1;
    }
    extents
}

/// The sum of the greatest widths of the first `k` columns.
pub open spec fn max_sum(columns: Seq<Extent>, k: int) -> int
    decreases k,
{
    if k <= 0 {
        0
    } else {
        max_sum(columns, k - 1) + columns[k - 1].max
    }
}

/// The sum of the least widths of the first `k` columns.
pub open spec fn min_sum(columns: Seq<Extent>, k: int) -> int
    decreases k,
{
    if k <= 0 {
        0
    } else {
        min_sum(columns, k - 1) + columns[k - 1].min
    }
}

/// What is left of a column that is too wide: each column gives up its part of
/// `excess`, in proportion to how far it can shrink, rounded up.
pub open spec fn shrunk(column: Extent, excess: int, flex: int) -> int {
    if column.max > column.min {
        let share = ((column.max - column.min) * excess + flex - 1) / flex;
        if column.max - share > column.min {
            column.max - share
        } else {
            column.min as int
        }
    } else {
        column.min as int
    }
}

/// How wide a column is before it is made a pixel wide at least: as wide as its
/// cells where there is room for all columns, as wide as its widest word where
/// there is not even room for those, and else in between.
pub open spec fn fitted(columns: Seq<Extent>, avail: Option<u64>, c: int) -> int {
    let most = max_sum(columns, columns.len() as int);
    let least = min_sum(columns, columns.len() as int);
    match avail {
        None => columns[c].max as int,
        Some(room) => if most <= room {
            columns[c].max as int
        } else if least <= room {
            shrunk(columns[c], most - room, most - least)
        } else {
            columns[c].min as int
        },
    }
}

pub open spec fn at_least(w: int, px: u32) -> int {
    if w >= px {
        w
    } else {
        px as int
    }
}

proof fn lemma_max_sum_grows(columns: Seq<Extent>, j: int, k: int)
    requires
        0 <= j <= k,
    ensures
        0 <= max_sum(columns, j) <= max_sum(columns, k),
    decreases k,
{
    if j < k {
        lemma_max_sum_grows(columns, j, k - 1);
    } else if k > 0 {
        lemma_max_sum_grows(columns, k - 1, k - 1);
    }
}

proof fn lemma_min_sum_grows(columns: Seq<Extent>, j: int, k: int)
    requires
        0 <= j <= k,
    ensures
        0 <= min_sum(columns, j) <= min_sum(columns, k),
    decreases k,
{
    if j < k {
        lemma_min_sum_grows(columns, j, k - 1);
    } else if k > 0 {
        lemma_min_sum_grows(columns, k - 1, k - 1);
    }
}

proof fn lemma_share(d: int, excess: int, flex: int)
    requires
        0 <= d,
        0 <= excess <= flex,
        0 < flex,
    ensures
        0 <= (d * excess + flex - 1) / flex <= d,
        d * excess <= ((d * excess + flex - 1) / flex) * flex,
{
    let n = d * excess;
    let share = (n + flex - 1) / flex;
    let rest = (n + flex - 1) % flex;
    vstd::arithmetic::div_mod::lemma_fundamental_div_mod(n + flex - 1, flex);
    assert(n >= 0) by (nonlinear_arith)
        requires
            n == d * excess,
            d >= 0,
            excess >= 0,
    ;
    assert(n <= d * flex) by (nonlinear_arith)
        requires
            n == d * excess,
            d >= 0,
            excess <= flex,
    ;
    assert(share <= d) by (nonlinear_arith)
        requires
            n + flex - 1 == flex * share + rest,
            0 <= rest,
            n <= d * flex,
            flex > 0,
    ;
    assert(share >= 0) by (nonlinear_arith)
        requires
            n + flex - 1 == flex * share + rest,
            rest < flex,
            n >= 0,
            flex > 0,
    ;
    assert(n <= share * flex) by (nonlinear_arith)
        requires
            n + flex - 1 == flex * share + rest,
            rest < flex,
    ;
}

fn shrink(column: &Extent, excess: u64, flex: u64) -> (width: u32)
    requires
        0 < excess <= flex,
    ensures
        width == shrunk(*column, excess as int, flex as int),
{
    if column.max <= column.min {
        return column.min;
    }
    let d: u32 = column.max - column.min;
    proof {
        lemma_share(d as int, excess as int, flex as int);
        assert(d * excess <= 0xffff_ffff * 0xffff_ffff_ffff_ffff) by (nonlinear_arith)
            requires
                0 <= d <= 0xffff_ffff,
                0 <= excess <= 0xffff_ffff_ffff_ffff,
        ;
        assert(d as u128 * excess as u128 == d * excess);
    }
    let product: u128 = d as u128 * excess as u128;
    let share: u128 = (product + flex as u128 - 1) / flex as u128;
    let given: u32 = share as u32;
    let width: u32 = column.max - given;
    if width > column.min {
        width
    } else {
        column.min
    }
}

/// How wide the columns of a table are in a room, where there is a limit to it;
/// `px` is one pixel.
pub fn column_widths(columns: &Vec<Extent>, avail: Option<u64>, px: u32) -> (widths: Vec<u32>)
    requires
        max_sum(columns@, columns@.len() as int) <= u64::MAX,
        min_sum(columns@, columns@.len() as int) <= u64::MAX,
    ensures
        widths@.len() == columns@.len(),
        forall|c: int|
            0 <= c < columns@.len() ==> (#[trigger] widths@[c]) == at_least(
                fitted(columns@, avail, c),
                px,
            ),
{
    let ghost n = columns@.len() as int;
    let mut most: u64 = 0;
    let mut least: u64 = 0;
    let mut k: usize = 0;
    while k < columns.len()
        invariant
            k <= columns@.len(),
            n == columns@.len(),
            max_sum(columns@, n) <= u64::MAX,
            min_sum(columns@, n) <= u64::MAX,
            most == max_sum(columns@, k as int),
            least == min_sum(columns@, k as int),
        decreases columns@.len() - k,
    {
        proof {
            lemma_max_sum_grows(columns@, k + 1, n);
            lemma_min_sum_grows(columns@, k + 1, n);
        }
        most = most + columns[k].max as u64;
        least = least + columns[k].min as u64;
        k = k + 1;
    }
    let mut widths: Vec<u32> = Vec::new();
    let mut c: usize = 0;
    while c < columns.len()
        invariant
            c <= columns@.len(),
            n == columns@.len(),
            most == max_sum(columns@, n),
            least == min_sum(columns@, n),
            widths@.len() == c,
            forall|d: int|
                0 <= d < c ==> (#[trigger] widths@[d]) == at_least(fitted(columns@, avail, d), px),
        decreases columns@.len() - c,
    {
        let column = &columns[c];
        let width: u32 = match avail {
            None => column.max,
            Some(room) => if most <= room {
                column.max
            } else if least <= room {
                shrink(column, most - room, most - least)
            } else {
                column.min
            },
        };
        widths.push(
            if width >= px {
                width
            } else {
                px
            },
        );
        c = c + 1;
    }
    widths
}

/// Where column `c` begins: `lead` stands before the first column and `gap`
/// between columns.
pub open spec fn column_start(widths: Seq<u32>, lead: u64, gap: u64, c: int) -> int
    decreases c,
{
    if c <= 0 {
        lead as int
    } else {
        column_start(widths, lead, gap, c - 1) + widths[c - 1] + gap
    }
}

proof fn lemma_column_start_grows(widths: Seq<u32>, lead: u64, gap: u64, j: int, k: int)
    requires
        0 <= j <= k,
    ensures
        column_start(widths, lead, gap, j) <= column_start(widths, lead, gap, k),
    decreases k - j,
{
    if j < k {
        lemma_column_start_grows(widths, lead, gap, j, k - 1);
    }
}

/// Where the columns begin, and last where a further column would.
pub fn column_starts(widths: &Vec<u32>, lead: u64, gap: u64) -> (starts: Vec<u64>)
    requires
        column_start(widths@, lead, gap, widths@.len() as int) <= u64::MAX,
    ensures
        starts@.len() == widths@.len() + 1,
        forall|c: int|
            0 <= c <= widths@.len() ==> (#[trigger] starts@[c]) == column_start(
                widths@,
                lead,
                gap,
                c,
            ),
{
    let ghost n = widths@.len() as int;
    let mut starts: Vec<u64> = Vec::new();
    let mut x: u64 = lead;
    starts.push(x);
    let mut c: usize = 0;
    while c < widths.len()
        invariant
            c <= widths@.len(),
            n == widths@.len(),
            column_start(widths@, lead, gap, n) <= u64::MAX,
            x == column_start(widths@, lead, gap, c as int),
            starts@.len() == c + 1,
            forall|d: int|
                0 <= d <= c ==> (#[trigger] starts@[d]) == column_start(widths@, lead, gap, d),
        decreases widths@.len() - c,
    {
        proof {
            lemma_column_start_grows(widths@, lead, gap, c + 1, n);
        }
        x = x + widths[c] as u64 + gap;
        starts.push(x);
        c = c + 1;
    }
    starts
}

// ---------------------------------------------------------------------------
// Cells
// ---------------------------------------------------------------------------

/// How far a cell is moved to the right in its column, where it fits into it by
/// half a pixel; a row of dashes is not moved.
pub open spec fn shift_of(
    width: u32,
    room: u32,
    alignment: TableAlignment,
    is_delimiter: bool,
    px: u32,
) -> Option<u32> {
    if width <= room + px / 2 {
        let free = if width < room {
            (room - width) as u32
        } else {
            0
        };
        Some(
            if is_delimiter {
                0
            } else {
                match alignment {
                    TableAlignment::Right => free,
                    TableAlignment::Center => free / 2,
                    TableAlignment::Unset => 0,
                    TableAlignment::Left => 0,
                }
            },
        )
    } else {
        None
    }
}

/// How far a cell is moved to the right in its column; nothing where the cell
/// has to be wrapped.
pub fn cell_shift(
    width: u32,
    room: u32,
    alignment: TableAlignment,
    is_delimiter: bool,
    px: u32,
) -> (shift: Option<u32>)
    ensures
        shift == shift_of(width, room, alignment, is_delimiter, px),
{
    if width > room && width - room > px / 2 {
        return None;
    }
    let free: u32 = if width < room {
        room - width
    } else {
        0
    };
    if is_delimiter {
        return Some(0);
    }
    match alignment {
        TableAlignment::Right => Some(free),
        TableAlignment::Center => Some(free / 2),
        TableAlignment::Unset => Some(0),
        TableAlignment::Left => Some(0),
    }
}

pub const COLON: u8 = 58;

/// Does the cell of a row of dashes begin with a colon?
pub open spec fn opens_with_colon(b: Seq<u8>, cell: Range<usize>) -> bool {
    b[cell.start as int] == COLON
}

/// Does it end with one?
pub open spec fn closes_with_colon(b: Seq<u8>, cell: Range<usize>) -> bool {
    b[cell.end - 1] == COLON && cell.end - cell.start > 1
}

/// How many dashes fit into a column beside the colons: one at least. Dashes
/// without a width are three.
pub open spec fn dashes(room: u32, colons: int, colon: u32, dash: u32) -> nat {
    if dash == 0 {
        3
    } else {
        let n = (room - colons * colon) / dash as int;
        if n < 1 {
            1
        } else {
            n as nat
        }
    }
}

/// A cell of a row of dashes stretched to its column.
pub open spec fn stretched(b: Seq<u8>, cell: Range<usize>, room: u32, colon: u32, dash: u32) -> Seq<
    char,
> {
    let left = opens_with_colon(b, cell);
    let right = closes_with_colon(b, cell);
    let colons = (if left {
        1int
    } else {
        0
    }) + (if right {
        1int
    } else {
        0
    });
    (if left {
        seq![':']
    } else {
        Seq::empty()
    }) + Seq::new(dashes(room, colons, colon, dash), |i: int| '-') + (if right {
        seq![':']
    } else {
        Seq::empty()
    })
}

fn dash_count(room: u32, colons: u32, colon: u32, dash: u32) -> (n: u32)
    requires
        colons <= 2,
    ensures
        n == dashes(room, colons as int, colon, dash),
{
    if dash == 0 {
        return 3;
    }
    proof {
        assert(0 <= colons * colon <= 2 * 0xffff_ffff) by (nonlinear_arith)
            requires
                0 <= colons <= 2,
                0 <= colon <= 0xffff_ffff,
        ;
    }
    let taken: u64 = colons as u64 * colon as u64;
    if taken > room as u64 {
        proof {
            let d = dash as int;
            let m = room - taken;
            vstd::arithmetic::div_mod::lemma_fundamental_div_mod(m, d);
            assert(m / d < 1) by (nonlinear_arith)
                requires
                    m == d * (m / d) + m % d,
                    0 <= m % d,
                    m < 0,
                    d > 0,
            ;
        }
        return 1;
    }
    let free: u32 = room - taken as u32;
    let n: u32 = free / dash;
    if n < 1 {
        1
    } else {
        n
    }
}

/// A cell of a row of dashes stretched to its column.
pub fn stretched_delimiter(source: &str, cell: &Range<usize>, room: u32, colon: u32, dash: u32) -> (
    text: String)
    requires
        cell.start < cell.end <= bytes_of(source@).len(),
    ensures
        text@ == stretched(bytes_of(source@), *cell, room, colon, dash),
{
    let bytes = source.as_bytes();
    let left = bytes[cell.start] == COLON;
    let right = bytes[cell.end - 1] == COLON && cell.end - cell.start > 1;
    let colons: u32 = (if left {
        1u32
    } else {
        0
    }) + (if right {
        1u32
    } else {
        0
    });
    let n: u32 = dash_count(room, colons, colon, dash);
    let mut text = String::new();
    if left {
        text.push(':');
    }
    let ghost opened = text@;
    let mut i: u32 = 0;
    while i < n
        invariant
            i <= n,
            text@ =~= opened + Seq::new(i as nat, |i: int| '-'),
        decreases n - i,
    {
        text.push('-');
        i = i + 1;
    }
    if right {
        text.push(':');
    }
    assert(text@ =~= stretched(bytes@, *cell, room, colon, dash));
    text
}

/// The bytes that a cell holds the caret at: one past its content too.
pub fn claimed_range(cell: &Range<usize>, size: usize) -> (range: Range<usize>)
    ensures
        range.start == cell.start,
        range.end == if cell.end < size {
            cell.end + 1
        } else {
            size as int
        },
{
    let end: usize = if cell.end < size {
        cell.end + 1
    } else {
        size
    };
    cell.start..end
}

// ---------------------------------------------------------------------------
// Between the cells
// ---------------------------------------------------------------------------

/// A part of a row between cells, and the column that it stands after.
#[derive(Debug, PartialEq, Eq)]
pub struct Fragment {
    pub range: Range<usize>,
    pub after: Option<usize>,
}

/// The part of a row, where it is not empty.
pub open spec fn fragment(start: usize, end: usize, after: Option<usize>) -> Seq<Fragment> {
    if start < end {
        seq![Fragment { range: Range { start, end }, after }]
    } else {
        Seq::empty()
    }
}

/// The parts before the first `k` cells.
pub open spec fn fragments_before(row: RowGeometry, k: int) -> Seq<Fragment>
    decreases k,
{
    if k <= 0 {
        Seq::empty()
    } else if k == 1 {
        fragment(row.line.start, row.cells@[0].start, None)
    } else {
        fragments_before(row, k - 1) + fragment(
            row.cells@[k - 2].end,
            row.cells@[k - 1].start,
            Some((k - 2) as usize),
        )
    }
}

/// Past the newline of the row.
pub open spec fn row_end(b: Seq<u8>, row: RowGeometry) -> int {
    if row.line.end < b.len() && b[row.line.end as int] == NL {
        row.line.end + 1
    } else {
        row.line.end as int
    }
}

/// The parts of a row that are not cells; the last holds the newline. A row
/// without cells has none.
pub open spec fn fragments_of(b: Seq<u8>, row: RowGeometry) -> Seq<Fragment> {
    let n = row.cells@.len() as int;
    if n == 0 {
        Seq::empty()
    } else {
        fragments_before(row, n) + fragment(
            row.cells@[n - 1].end,
            row_end(b, row) as usize,
            Some((n - 1) as usize),
        )
    }
}

fn push_fragment(out: &mut Vec<Fragment>, start: usize, end: usize, after: Option<usize>)
    ensures
        final(out)@ == old(out)@ + fragment(start, end, after),
{
    let ghost before = out@;
    if start < end {
        out.push(Fragment { range: start..end, after });
    }
    assert(out@ =~= before + fragment(start, end, after));
}

/// The parts of a row that are not cells.
pub fn row_fragments(source: &str, row: &RowGeometry) -> (out: Vec<Fragment>)
    ensures
        out@ == fragments_of(bytes_of(source@), *row),
{
    let bytes = source.as_bytes();
    let mut out: Vec<Fragment> = Vec::new();
    let n: usize = row.cells.len();
    if n == 0 {
        return out;
    }
    push_fragment(&mut out, row.line.start, row.cells[0].start, None);
    assert(out@ =~= fragments_before(*row, 1));
    let mut k: usize = 1;
    while k < n
        invariant
            1 <= k <= n,
            n == row.cells@.len(),
            out@ == fragments_before(*row, k as int),
        decreases n - k,
    {
        push_fragment(&mut out, row.cells[k - 1].end, row.cells[k].start, Some(k - 1));
        k = k + 1;
    }
    let end: usize = if row.line.end < bytes.len() && bytes[row.line.end] == NL {
        row.line.end + 1
    } else {
        row.line.end
    };
    push_fragment(&mut out, row.cells[n - 1].end, end, Some(n - 1));
    out
}

// ---------------------------------------------------------------------------
// Heights
// ---------------------------------------------------------------------------

/// The height of a row: that of its highest cell, and of a line at least. `wraps`
/// tells at how many places each cell is wrapped.
pub open spec fn row_height(wraps: Seq<u32>, line_height: u32, k: int) -> int
    decreases k,
{
    if k <= 0 {
        line_height as int
    } else {
        let before = row_height(wraps, line_height, k - 1);
        let cell = line_height * (wraps[k - 1] + 1);
        if cell > before {
            cell
        } else {
            before
        }
    }
}

/// The height of a row.
pub fn height_of_row(wraps: &Vec<u32>, line_height: u32) -> (height: u64)
    ensures
        height == row_height(wraps@, line_height, wraps@.len() as int),
{
    let mut height: u64 = line_height as u64;
    let mut k: usize = 0;
    while k < wraps.len()
        invariant
            k <= wraps@.len(),
            height == row_height(wraps@, line_height, k as int),
        decreases wraps@.len() - k,
    {
        let rows: u64 = wraps[k] as u64 + 1;
        proof {
            assert(line_height * rows <= 0xffff_ffff * 0x1_0000_0000) by (nonlinear_arith)
                requires
                    0 <= line_height <= 0xffff_ffff,
                    0 <= rows <= 0x1_0000_0000,
            ;
        }
        let cell: u64 = line_height as u64 * rows;
        if cell > height {
            height = cell;
        }
        k = k + 1;
    }
    height
}

/// Where row `k` begins.
pub open spec fn row_top(heights: Seq<u64>, k: int) -> int
    decreases k,
{
    if k <= 0 {
        0
    } else {
        row_top(heights, k - 1) + heights[k - 1]
    }
}

proof fn lemma_row_top_grows(heights: Seq<u64>, j: int, k: int)
    requires
        0 <= j <= k,
    ensures
        row_top(heights, j) <= row_top(heights, k),
    decreases k - j,
{
    if j < k {
        lemma_row_top_grows(heights, j, k - 1);
    }
}

/// Where the rows begin, and last where they end.
pub fn row_tops(heights: &Vec<u64>) -> (tops: Vec<u64>)
    requires
        row_top(heights@, heights@.len() as int) <= u64::MAX,
    ensures
        tops@.len() == heights@.len() + 1,
        forall|k: int|
            0 <= k <= heights@.len() ==> (#[trigger] tops@[k]) == row_top(heights@, k),
{
    let ghost n = heights@.len() as int;
    let mut tops: Vec<u64> = Vec::new();
    let mut y: u64 = 0;
    tops.push(y);
    let mut k: usize = 0;
    while k < heights.len()
        invariant
            k <= heights@.len(),
            n == heights@.len(),
            row_top(heights@, n) <= u64::MAX,
            y == row_top(heights@, k as int),
            tops@.len() == k + 1,
            forall|j: int| 0 <= j <= k ==> (#[trigger] tops@[j]) == row_top(heights@, j),
        decreases heights@.len() - k,
    {
        proof {
            lemma_row_top_grows(heights@, k + 1, n);
        }
        y = y + heights[k];
        tops.push(y);
        k = k + 1;
    }
    tops
}

/// Where rules are drawn between rows: none while the table is edited.
pub fn rule_positions(tops: &Vec<u64>, edit: bool) -> (rules: Vec<u64>)
    ensures
        rules@ == if edit || tops@.len() < 3 {
            Seq::empty()
        } else {
            tops@.subrange(1, tops@.len() - 1)
        },
{
    let mut rules: Vec<u64> = Vec::new();
    if edit || tops.len() < 3 {
        return rules;
    }
    let mut k: usize = 1;
    while k < tops.len() - 1
        invariant
            1 <= k < tops@.len(),
            rules@ =~= tops@.subrange(1, k as int),
        decreases tops@.len() - k,
    {
        rules.push(tops[k]);
        k = k + 1;
    }
    rules
}

// ---------------------------------------------------------------------------
// Laws
// ---------------------------------------------------------------------------

/// The sum of the widths of the first `k` columns, before each is made a pixel
/// wide at least.
pub open spec fn fitted_sum(columns: Seq<Extent>, avail: Option<u64>, k: int) -> int
    decreases k,
{
    if k <= 0 {
        0
    } else {
        fitted_sum(columns, avail, k - 1) + fitted(columns, avail, k - 1)
    }
}

/// Is no column wider at its widest word than without a wrap?
pub open spec fn proper(columns: Seq<Extent>) -> bool {
    forall|c: int| 0 <= c < columns.len() ==> (#[trigger] columns[c]).min <= columns[c].max
}

/// A column is never narrower than its widest word, and never wider than its
/// cells without a wrap.
pub proof fn columns_hold_their_words(columns: Seq<Extent>, avail: Option<u64>, c: int)
    requires
        proper(columns),
        0 <= c < columns.len(),
    ensures
        columns[c].min <= fitted(columns, avail, c) <= columns[c].max,
{
    let n = columns.len() as int;
    assert(columns[c].min <= columns[c].max);
    if let Some(room) = avail {
        if min_sum(columns, n) <= room < max_sum(columns, n) {
            lemma_share(
                columns[c].max - columns[c].min,
                max_sum(columns, n) - room,
                max_sum(columns, n) - min_sum(columns, n),
            );
        }
    }
}

proof fn lemma_shrunk_sum(columns: Seq<Extent>, avail: Option<u64>, excess: int, flex: int, k: int)
    requires
        proper(columns),
        0 <= k <= columns.len(),
        0 < excess <= flex,
        forall|c: int|
            0 <= c < columns.len() ==> #[trigger] fitted(columns, avail, c) == shrunk(
                columns[c],
                excess,
                flex,
            ),
    ensures
        (max_sum(columns, k) - fitted_sum(columns, avail, k)) * flex >= (max_sum(columns, k)
            - min_sum(columns, k)) * excess,
    decreases k,
{
    if k > 0 {
        lemma_shrunk_sum(columns, avail, excess, flex, k - 1);
        let column = columns[k - 1];
        assert(column.min <= column.max);
        let d = column.max - column.min;
        assert(fitted(columns, avail, k - 1) == shrunk(column, excess, flex));
        lemma_share(d, excess, flex);
        let given = column.max - shrunk(column, excess, flex);
        assert(d == 0 ==> d * excess == 0) by (nonlinear_arith);
        assert(given * flex >= d * excess);
        let a = max_sum(columns, k - 1) - fitted_sum(columns, avail, k - 1);
        let b = max_sum(columns, k - 1) - min_sum(columns, k - 1);
        assert((a + given) * flex >= (b + d) * excess) by (nonlinear_arith)
            requires
                a * flex >= b * excess,
                given * flex >= d * excess,
        ;
    } else {
        assert((max_sum(columns, k) - fitted_sum(columns, avail, k)) * flex == 0)
            by (nonlinear_arith)
            requires
                max_sum(columns, k) - fitted_sum(columns, avail, k) == 0,
        ;
        assert((max_sum(columns, k) - min_sum(columns, k)) * excess == 0) by (nonlinear_arith)
            requires
                max_sum(columns, k) - min_sum(columns, k) == 0,
        ;
    }
}

proof fn lemma_sum_of(columns: Seq<Extent>, avail: Option<u64>, to_min: bool, k: int)
    requires
        0 <= k <= columns.len(),
        forall|c: int|
            0 <= c < columns.len() ==> #[trigger] fitted(columns, avail, c) == if to_min {
                columns[c].min
            } else {
                columns[c].max
            },
    ensures
        fitted_sum(columns, avail, k) == if to_min {
            min_sum(columns, k)
        } else {
            max_sum(columns, k)
        },
    decreases k,
{
    if k > 0 {
        lemma_sum_of(columns, avail, to_min, k - 1);
        assert(fitted(columns, avail, k - 1) == fitted(columns, avail, k - 1));
    }
}

/// A table fits into its room wherever its words do; where they do not, no column
/// is wider than its widest word.
pub proof fn tables_fit_where_they_can(columns: Seq<Extent>, room: u64)
    requires
        proper(columns),
    ensures
        ({
            let n = columns.len() as int;
            let least = min_sum(columns, n);
            let width = fitted_sum(columns, Some(room), n);
            (least <= room ==> width <= room) && (least > room ==> width == least || max_sum(
                columns,
                n,
            ) <= room)
        }),
{
    let n = columns.len() as int;
    let most = max_sum(columns, n);
    let least = min_sum(columns, n);
    let avail = Some(room);
    let width = fitted_sum(columns, avail, n);
    if most <= room {
        lemma_sum_of(columns, avail, false, n);
    } else if least > room {
        lemma_sum_of(columns, avail, true, n);
    } else {
        let excess = most - room;
        let flex = most - least;
        lemma_shrunk_sum(columns, avail, excess, flex, n);
        assert(most - width >= excess) by (nonlinear_arith)
            requires
                (most - width) * flex >= flex * excess,
                flex > 0,
        ;
    }
}

/// Are the cells in the row, one after the other?
pub open spec fn cells_in_order(row: RowGeometry) -> bool {
    &&& row.line.start <= row.line.end
    &&& forall|i: int|
        0 <= i < row.cells@.len() ==> row.line.start <= (#[trigger] row.cells@[i]).start
            <= row.cells@[i].end <= row.line.end
    &&& forall|i: int, j: int|
        0 <= i < j < row.cells@.len() ==> (#[trigger] row.cells@[i]).end <= (
        #[trigger] row.cells@[j]).start
}

pub open spec fn in_cell(row: RowGeometry, p: int) -> bool {
    exists|i: int|
        0 <= i < row.cells@.len() && (#[trigger] row.cells@[i]).start <= p < row.cells@[i].end
}

pub open spec fn in_fragment(fragments: Seq<Fragment>, p: int) -> bool {
    exists|i: int|
        0 <= i < fragments.len() && (#[trigger] fragments[i]).range.start <= p
            < fragments[i].range.end
}

proof fn lemma_in_fragment_concat(a: Seq<Fragment>, b: Seq<Fragment>, p: int)
    requires
        in_fragment(a, p) || in_fragment(b, p),
    ensures
        in_fragment(a + b, p),
{
    if in_fragment(a, p) {
        let i = choose|i: int|
            0 <= i < a.len() && (#[trigger] a[i]).range.start <= p < a[i].range.end;
        assert((a + b)[i] == a[i]);
    } else {
        let i = choose|i: int|
            0 <= i < b.len() && (#[trigger] b[i]).range.start <= p < b[i].range.end;
        assert((a + b)[a.len() + i] == b[i]);
    }
}

proof fn lemma_covered_before(row: RowGeometry, k: int, p: int)
    requires
        cells_in_order(row),
        1 <= k <= row.cells@.len(),
        row.line.start <= p < row.cells@[k - 1].end,
    ensures
        in_cell(row, p) || in_fragment(fragments_before(row, k), p),
    decreases k,
{
    let cell = row.cells@[k - 1];
    if p < cell.start {
        if k == 1 {
            let last = fragment(row.line.start, cell.start, None);
            assert(last[0].range.start <= p < last[0].range.end);
        } else {
            let before = row.cells@[k - 2];
            let last = fragment(before.end, cell.start, Some((k - 2) as usize));
            if p < before.end {
                lemma_covered_before(row, k - 1, p);
            } else {
                assert(last[0].range.start <= p < last[0].range.end);
            }
            if !in_cell(row, p) {
                lemma_in_fragment_concat(fragments_before(row, k - 1), last, p);
            }
        }
    }
}

/// Every byte of a row, with its newline, is in a cell or beside one.
pub proof fn rows_are_covered(b: Seq<u8>, row: RowGeometry, p: int)
    requires
        cells_in_order(row),
        row.cells@.len() > 0,
        b.len() <= usize::MAX,
        row.line.start <= p < row_end(b, row),
    ensures
        in_cell(row, p) || in_fragment(fragments_of(b, row), p),
{
    let n = row.cells@.len() as int;
    let last = fragment(
        row.cells@[n - 1].end,
        row_end(b, row) as usize,
        Some((n - 1) as usize),
    );
    if p < row.cells@[n - 1].end {
        lemma_covered_before(row, n, p);
    } else {
        assert(last[0].range.start <= p < last[0].range.end);
    }
    if !in_cell(row, p) {
        lemma_in_fragment_concat(fragments_before(row, n), last, p);
    }
}

} // verus!
