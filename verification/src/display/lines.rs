//! The lines of a block as they are shown.

use core::ops::Range;

use vstd::prelude::*;

use crate::display::block::{is_code_block, RenderBlock};
use crate::display::text::{build_display_line, proper_substitutions, shown_line};
use crate::parser::is_boundary;
use crate::text::{
    boundary, bytes_of, lemma_line_end_bounds, line_end, next_line_end, BACKSLASH, NL, SPACE,
};
use crate::words::Glyphs;

verus! {

/// A line as it is shown.
#[derive(Debug, PartialEq, Eq)]
pub struct ShownLine {
    pub text: String,
    /// For each byte of the text and the end the byte of the source that it
    /// comes from.
    pub map: Vec<usize>,
    /// The bytes of the line with its newline.
    pub source_range: Range<usize>,
    /// Is the line a delimiter of the block?
    pub is_delimiter: bool,
}

/// What is shown of a line and where it stands.
#[verifier::ext_equal]
pub struct LineView {
    pub text: Seq<char>,
    pub map: Seq<usize>,
    pub source_range: Range<usize>,
    pub is_delimiter: bool,
}

impl View for ShownLine {
    type V = LineView;

    open spec fn view(&self) -> LineView {
        LineView {
            text: self.text@,
            map: self.map@,
            source_range: self.source_range,
            is_delimiter: self.is_delimiter,
        }
    }
}

pub open spec fn lines_view(lines: Seq<ShownLine>) -> Seq<LineView> {
    lines.map_values(|line: ShownLine| line@)
}

/// Can the range be cut out of the text?
pub open spec fn sliceable(b: Seq<u8>, r: Range<usize>) -> bool {
    r.start <= r.end && boundary(b, r.start as int) && boundary(b, r.end as int)
}

/// Are the bytes `[s, e)` newlines, at least one?
pub open spec fn newlines_only(b: Seq<u8>, s: int, e: int) -> bool {
    s < e && forall|p: int| s <= p < e ==> #[trigger] b[p] == NL
}

/// Do the bytes `[s, e)` end with a hard break?
pub open spec fn hard_break_at_end(b: Seq<u8>, s: int, e: int) -> bool {
    &&& s < e
    &&& b[e - 1] == NL
    &&& (e - s >= 3 && b[e - 2] == SPACE && b[e - 3] == SPACE) || (e - s >= 2 && b[e - 2]
        == BACKSLASH)
}

/// Is the line part of a delimiter of the block?
pub open spec fn in_delimiter(delimiters: Seq<Range<usize>>, line: Range<usize>) -> bool {
    exists|i: int|
        0 <= i < delimiters.len() && (#[trigger] delimiters[i]).start <= line.start
            && delimiters[i].end >= line.end
}

/// The line of the bytes `[pos, nl)`, which with its newline ends at `end`.
pub open spec fn line_of(source: Seq<char>, block: RenderBlock, pos: int, nl: int, end: int) -> LineView {
    let content = Range { start: pos as usize, end: nl as usize };
    let shown = shown_line(source, block.substitutions@, block.hidden_ranges@, content);
    LineView {
        text: shown.text,
        map: shown.map,
        source_range: Range { start: pos as usize, end: end as usize },
        is_delimiter: block.kind is CodeBlock && pos < nl && in_delimiter(
            block.delimiter_lines@,
            content,
        ),
    }
}

/// Is a line with nothing to show left out? That of a code block never is.
pub open spec fn is_left_out(block: RenderBlock, line: LineView, pos: int, nl: int) -> bool {
    line.text.len() == 0 && pos < nl && !line.is_delimiter && !(block.kind is CodeBlock)
}

/// The lines of the bytes `[pos, end)`.
pub open spec fn lines_from(source: Seq<char>, block: RenderBlock, pos: int, end: int) -> Seq<
    LineView,
>
    decreases end - pos,
{
    if pos >= end {
        Seq::empty()
    } else {
        let nl = line_end(bytes_of(source), pos, end);
        let next = if nl < end {
            nl + 1
        } else {
            end
        };
        let line = line_of(source, block, pos, nl, next);
        if next <= pos {
            Seq::empty()
        } else if is_left_out(block, line, pos, nl) {
            lines_from(source, block, next, end)
        } else {
            seq![line] + lines_from(source, block, next, end)
        }
    }
}

/// The empty line after a hard break that ends the block.
pub open spec fn line_after_break(end: usize) -> LineView {
    LineView {
        text: Seq::empty(),
        map: seq![end],
        source_range: Range { start: end, end: end },
        is_delimiter: false,
    }
}

/// The line without its newline.
pub open spec fn shortened(line: LineView) -> LineView {
    let r = line.source_range;
    if r.end > r.start {
        LineView { source_range: Range { start: r.start, end: (r.end - 1) as usize }, ..line }
    } else {
        line
    }
}

/// The lines of a block as they are shown. A block of newlines is one empty
/// line; a hard break at the end of a block has an empty line after it.
pub open spec fn shown_lines(source: Seq<char>, block: RenderBlock) -> Seq<LineView> {
    let b = bytes_of(source);
    let start = block.source_range.start;
    let end = block.source_range.end;
    if !sliceable(b, block.source_range) {
        Seq::empty()
    } else if newlines_only(b, start as int, end as int) {
        seq![
            LineView {
                text: Seq::empty(),
                map: seq![start],
                source_range: block.source_range,
                is_delimiter: false,
            },
        ]
    } else {
        let lines = lines_from(source, block, start as int, end as int);
        if hard_break_at_end(b, start as int, end as int) && lines.len() > 0 {
            lines.drop_last().push(shortened(lines.last())).push(line_after_break(end))
        } else {
            lines
        }
    }
}

/// Do the bytes `[start, end)` end with a hard break?
pub fn ends_with_hard_break(bytes: &[u8], start: usize, end: usize) -> (found: bool)
    requires
        start <= end <= bytes@.len(),
    ensures
        found == hard_break_at_end(bytes@, start as int, end as int),
{
    if end == start || bytes[end - 1] != NL {
        return false;
    }
    if end - start >= 3 && bytes[end - 2] == SPACE && bytes[end - 3] == SPACE {
        return true;
    }
    end - start >= 2 && bytes[end - 2] == BACKSLASH
}

/// Is the line part of a delimiter of the block?
pub fn line_is_fully_in_a_delimiter(line: &Range<usize>, block: &RenderBlock) -> (found: bool)
    ensures
        found == in_delimiter(block.delimiter_lines@, *line),
{
    let mut i: usize = 0;
    while i < block.delimiter_lines.len()
        invariant
            i <= block.delimiter_lines@.len(),
            forall|j: int|
                0 <= j < i ==> !((#[trigger] block.delimiter_lines@[j]).start <= line.start
                    && block.delimiter_lines@[j].end >= line.end),
        decreases block.delimiter_lines@.len() - i,
    {
        let d = &block.delimiter_lines[i];
        if d.start <= line.start && d.end >= line.end {
            assert(block.delimiter_lines@[i as int].start <= line.start);
            return true;
        }
        i = i + 1;
    }
    false
}

fn is_newlines_only(bytes: &[u8], start: usize, end: usize) -> (found: bool)
    requires
        end <= bytes@.len(),
    ensures
        found == newlines_only(bytes@, start as int, end as int),
{
    if start >= end {
        return false;
    }
    let mut p: usize = start;
    while p < end
        invariant
            start <= p <= end <= bytes@.len(),
            forall|q: int| start <= q < p ==> #[trigger] bytes@[q] == NL,
        decreases end - p,
    {
        if bytes[p] != NL {
            assert(bytes@[p as int] != NL);
            return false;
        }
        p = p + 1;
    }
    true
}

/// The lines of a block as they are shown.
pub fn shape_block_lines(source: &str, block: &RenderBlock) -> (lines: Vec<ShownLine>)
    requires
        proper_substitutions(block.substitutions@, block.source_range),
    ensures
        lines_view(lines@) == shown_lines(source@, *block),
{
    let bytes = source.as_bytes();
    let start: usize = block.source_range.start;
    let end: usize = block.source_range.end;
    let mut lines: Vec<ShownLine> = Vec::new();
    if start > end || !is_boundary(bytes, start) || !is_boundary(bytes, end) {
        assert(lines_view(lines@) =~= Seq::empty());
        return lines;
    }
    if is_newlines_only(bytes, start, end) {
        let mut map: Vec<usize> = Vec::new();
        map.push(start);
        let line = ShownLine {
            text: String::new(),
            map,
            source_range: start..end,
            is_delimiter: false,
        };
        assert(line@ =~= shown_lines(source@, *block)[0]);
        lines.push(line);
        assert(lines_view(lines@) =~= shown_lines(source@, *block));
        return lines;
    }
    let glyphs = Glyphs::of(source);
    let in_code = is_code_block(&block.kind);
    let ghost all = lines_from(source@, *block, start as int, end as int);
    let mut pos: usize = start;
    assert(lines_view(lines@) + all =~= all);
    while pos < end
        invariant
            start == block.source_range.start,
            end == block.source_range.end,
            start <= pos <= end <= bytes@.len(),
            bytes@ == bytes_of(source@),
            glyphs@ == source@,
            in_code == (block.kind is CodeBlock),
            proper_substitutions(block.substitutions@, block.source_range),
            lines_view(lines@) + lines_from(source@, *block, pos as int, end as int) == all,
        decreases end - pos,
    {
        let nl: usize = next_line_end(bytes, pos, end);
        let next: usize = if nl < end {
            nl + 1
        } else {
            end
        };
        proof {
            lemma_line_end_bounds(bytes@, pos as int, end as int);
        }
        let content = pos..nl;
        let (text, map) = build_display_line(&glyphs, &content, block);
        let is_delimiter = in_code && pos < nl && line_is_fully_in_a_delimiter(&content, block);
        let ghost before = lines_view(lines@);
        let ghost wanted = line_of(source@, *block, pos as int, nl as int, next as int);
        assert(text@ == wanted.text && map@ == wanted.map);
        let hidden = text.as_str().as_bytes().len() == 0;
        proof {
            lemma_empty_text(text@);
        }
        if !(hidden && pos < nl && !is_delimiter && !in_code) {
            let line = ShownLine { text, map, source_range: pos..next, is_delimiter };
            assert(line@ =~= wanted);
            lines.push(line);
            let ghost rest = lines_from(source@, *block, next as int, end as int);
            assert(lines_view(lines@) =~= before.push(wanted));
            assert(before + (seq![wanted] + rest) =~= lines_view(lines@) + rest);
        }
        pos = next;
    }
    assert(lines_view(lines@) =~= all);
    if ends_with_hard_break(bytes, start, end) {
        if let Some(last) = lines.pop() {
            let ghost shorter = shortened(last@);
            assert(last@ == all.last());
            assert(lines_view(lines@) =~= all.drop_last());
            let range_end: usize = if last.source_range.end > last.source_range.start {
                last.source_range.end - 1
            } else {
                last.source_range.end
            };
            let last = ShownLine {
                text: last.text,
                map: last.map,
                source_range: last.source_range.start..range_end,
                is_delimiter: last.is_delimiter,
            };
            assert(last@ =~= shorter);
            lines.push(last);
            assert(lines_view(lines@) =~= all.drop_last().push(shorter));
            let mut map: Vec<usize> = Vec::new();
            map.push(end);
            let after = ShownLine {
                text: String::new(),
                map,
                source_range: end..end,
                is_delimiter: false,
            };
            assert(after@ =~= line_after_break(end));
            lines.push(after);
            assert(lines_view(lines@) =~= shown_lines(source@, *block));
        }
    }
    lines
}

proof fn lemma_empty_text(text: Seq<char>)
    ensures
        bytes_of(text).len() == 0 <==> text.len() == 0,
{
    reveal_with_fuel(vstd::utf8::encode_utf8, 2);
    if text.len() > 0 {
        assert(text =~= text.drop_last().push(text.last()));
        crate::strings::lemma_bytes_push(text.drop_last(), text.last());
    }
}

// ---------------------------------------------------------------------------
// Laws
// ---------------------------------------------------------------------------

/// Are the lines in `[pos, end]` and one after the other?
pub open spec fn in_order(lines: Seq<LineView>, pos: int, end: int) -> bool {
    &&& forall|i: int|
        0 <= i < lines.len() ==> pos <= (#[trigger] lines[i]).source_range.start
            <= lines[i].source_range.end <= end
    &&& forall|i: int, j: int|
        0 <= i < j < lines.len() ==> (#[trigger] lines[i]).source_range.end <= (
        #[trigger] lines[j]).source_range.start
}

/// Does each line begin where the one before it ends, and do they reach from
/// `pos` to `end`?
pub open spec fn gapless(lines: Seq<LineView>, pos: int, end: int) -> bool {
    if lines.len() == 0 {
        pos == end
    } else {
        &&& lines[0].source_range.start == pos
        &&& lines.last().source_range.end == end
        &&& forall|i: int|
            0 <= i < lines.len() - 1 ==> (#[trigger] lines[i]).source_range.end == lines[i
                + 1].source_range.start
    }
}

proof fn lemma_lines_from(source: Seq<char>, block: RenderBlock, pos: int, end: int)
    requires
        0 <= pos <= end <= usize::MAX,
        end <= bytes_of(source).len(),
    ensures
        in_order(lines_from(source, block, pos, end), pos, end),
        block.kind is CodeBlock ==> gapless(lines_from(source, block, pos, end), pos, end),
    decreases end - pos,
{
    if pos < end {
        let b = bytes_of(source);
        let nl = line_end(b, pos, end);
        lemma_line_end_bounds(b, pos, end);
        let next = if nl < end {
            nl + 1
        } else {
            end
        };
        lemma_lines_from(source, block, next, end);
        let line = line_of(source, block, pos, nl, next);
        let rest = lines_from(source, block, next, end);
        let lines = lines_from(source, block, pos, end);
        if !is_left_out(block, line, pos, nl) {
            assert(lines == seq![line] + rest);
            assert forall|i: int| 0 <= i < lines.len() implies pos <= (
            #[trigger] lines[i]).source_range.start <= lines[i].source_range.end <= end by {
                if i > 0 {
                    assert(lines[i] == rest[i - 1]);
                }
            }
            assert forall|i: int, j: int| 0 <= i < j < lines.len() implies (
            #[trigger] lines[i]).source_range.end <= (#[trigger] lines[j]).source_range.start by {
                assert(lines[j] == rest[j - 1]);
                if i > 0 {
                    assert(lines[i] == rest[i - 1]);
                }
            }
            if block.kind is CodeBlock {
                assert forall|i: int| 0 <= i < lines.len() - 1 implies (
                #[trigger] lines[i]).source_range.end == lines[i + 1].source_range.start by {
                    assert(lines[i + 1] == rest[i]);
                    if i > 0 {
                        assert(lines[i] == rest[i - 1]);
                        assert(rest[i - 1].source_range.end == rest[i - 1 + 1].source_range.start);
                    }
                }
                if rest.len() > 0 {
                    assert(lines.last() == rest.last());
                }
            }
        }
    }
}

/// The lines of a block lie in it, one after the other.
pub proof fn lines_lie_in_the_block(source: Seq<char>, block: RenderBlock)
    ensures
        in_order(
            shown_lines(source, block),
            block.source_range.start as int,
            block.source_range.end as int,
        ),
{
    let b = bytes_of(source);
    let start = block.source_range.start as int;
    let end = block.source_range.end as int;
    if sliceable(b, block.source_range) && !newlines_only(b, start, end) {
        lemma_lines_from(source, block, start, end);
        let all = lines_from(source, block, start, end);
        let lines = shown_lines(source, block);
        if hard_break_at_end(b, start, end) && all.len() > 0 {
            let n = all.len() as int;
            assert forall|i: int| 0 <= i < lines.len() implies start <= (
            #[trigger] lines[i]).source_range.start <= lines[i].source_range.end <= end by {
                if i < n {
                    assert(lines[i].source_range.start == all[i].source_range.start);
                }
            }
            assert forall|i: int, j: int| 0 <= i < j < lines.len() implies (
            #[trigger] lines[i]).source_range.end <= (#[trigger] lines[j]).source_range.start by {
                assert(lines[i].source_range.end <= all[i].source_range.end);
                if j < n {
                    assert(lines[j].source_range.start == all[j].source_range.start);
                }
            }
        }
    }
}

/// No line of a code block is left out: the lines cover the whole block, where
/// it does not end with a hard break.
pub proof fn code_keeps_its_lines(source: Seq<char>, block: RenderBlock)
    requires
        block.kind is CodeBlock,
        sliceable(bytes_of(source), block.source_range),
        !hard_break_at_end(
            bytes_of(source),
            block.source_range.start as int,
            block.source_range.end as int,
        ),
    ensures
        gapless(
            shown_lines(source, block),
            block.source_range.start as int,
            block.source_range.end as int,
        ),
{
    lemma_lines_from(
        source,
        block,
        block.source_range.start as int,
        block.source_range.end as int,
    );
}

/// A block of newlines is one empty line.
pub proof fn newlines_are_one_line(source: Seq<char>, block: RenderBlock)
    requires
        sliceable(bytes_of(source), block.source_range),
        newlines_only(
            bytes_of(source),
            block.source_range.start as int,
            block.source_range.end as int,
        ),
    ensures
        shown_lines(source, block).len() == 1,
        shown_lines(source, block)[0].text.len() == 0,
        shown_lines(source, block)[0].source_range == block.source_range,
{
}

proof fn lemma_line_ends_at(b: Seq<u8>, p: int, nl: int, limit: int)
    requires
        0 <= p <= nl <= limit <= b.len(),
        forall|i: int| p <= i < nl ==> b[i] != NL,
        nl < limit ==> b[nl] == NL,
    ensures
        line_end(b, p, limit) == nl,
    decreases nl - p,
{
    if p < nl {
        assert(b[p] != NL);
        lemma_line_ends_at(b, p + 1, nl, limit);
    }
}

/// A line of the source is shown where there is anything to show of it, where it
/// is empty, and in code always: with its own text alone, and for its own bytes
/// and the newline behind them.
pub proof fn lines_are_shown_one_by_one(
    source: Seq<char>,
    block: RenderBlock,
    pos: int,
    q: int,
    nl: int,
    end: int,
)
    requires
        0 <= pos <= q < end <= bytes_of(source).len() <= usize::MAX,
        q <= nl <= end,
        q == pos || bytes_of(source)[q - 1] == NL,
        forall|i: int| q <= i < nl ==> bytes_of(source)[i] != NL,
        nl < end ==> bytes_of(source)[nl] == NL,
        q == nl || block.kind is CodeBlock || shown_line(
            source,
            block.substitutions@,
            block.hidden_ranges@,
            Range { start: q as usize, end: nl as usize },
        ).text.len() > 0,
    ensures
        exists|k: int|
            0 <= k < lines_from(source, block, pos, end).len() && (#[trigger] lines_from(
                source,
                block,
                pos,
                end,
            )[k]).source_range.start == q && lines_from(source, block, pos, end)[k].source_range.end
                == (if nl < end {
                nl + 1
            } else {
                end
            }) && lines_from(source, block, pos, end)[k].text == shown_line(
                source,
                block.substitutions@,
                block.hidden_ranges@,
                Range { start: q as usize, end: nl as usize },
            ).text,
    decreases q - pos,
{
    let b = bytes_of(source);
    let all = lines_from(source, block, pos, end);
    if q == pos {
        lemma_line_ends_at(b, q, nl, end);
        assert(all[0].source_range.start == q);
    } else {
        lemma_line_end_bounds(b, pos, end);
        let first = line_end(b, pos, end);
        assert(first < q) by {
            if first >= q {
                assert(b[q - 1] != NL);
            }
        }
        lines_are_shown_one_by_one(source, block, first + 1, q, nl, end);
        let rest = lines_from(source, block, first + 1, end);
        let wanted = shown_line(
            source,
            block.substitutions@,
            block.hidden_ranges@,
            Range { start: q as usize, end: nl as usize },
        ).text;
        let after = if nl < end {
            nl + 1
        } else {
            end
        };
        let k = choose|k: int|
            0 <= k < rest.len() && (#[trigger] rest[k]).source_range.start == q
                && rest[k].source_range.end == after && rest[k].text == wanted;
        if all == rest {
            assert(all[k] == rest[k]);
        } else {
            assert(all[k + 1] == rest[k]);
        }
    }
}

/// A hard break at the end of a block is followed by an empty line at the end of
/// the block, and the line before that ends in front of the break's newline.
pub proof fn hard_breaks_open_a_line(source: Seq<char>, block: RenderBlock)
    requires
        sliceable(bytes_of(source), block.source_range),
        block.source_range.start + 2 <= block.source_range.end,
        bytes_of(source)[block.source_range.end - 1] == 10,
        bytes_of(source)[block.source_range.end - 2] == 92,
        lines_from(
            source,
            block,
            block.source_range.start as int,
            block.source_range.end as int,
        ).len() > 0,
        lines_from(
            source,
            block,
            block.source_range.start as int,
            block.source_range.end as int,
        ).last().source_range.start < block.source_range.end,
        lines_from(
            source,
            block,
            block.source_range.start as int,
            block.source_range.end as int,
        ).last().source_range.end == block.source_range.end,
    ensures
        ({
            let lines = shown_lines(source, block);
            let end = block.source_range.end;
            let before = lines[lines.len() - 2];
            &&& lines.len() >= 2
            &&& lines.last().text.len() == 0
            &&& lines.last().source_range == (Range { start: end, end })
            &&& before.source_range.end == end - 1
        }),
{
    let b = bytes_of(source);
    let start = block.source_range.start as int;
    let end = block.source_range.end as int;
    assert(b[end - 2] != NL);
    assert(!newlines_only(b, start, end));
    assert(hard_break_at_end(b, start, end));
}

} // verus!
