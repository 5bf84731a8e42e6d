//! The runs of one look that a shown line consists of.

use smallvec::SmallVec;
use vstd::prelude::*;

use crate::display::block::{InlineRun, InlineStyle};

verus! {

// ---------------------------------------------------------------------------
// Looks
// ---------------------------------------------------------------------------

/// How heavy the letters of a run are.
#[derive(Debug, Clone, Copy, PartialEq, Eq, Structural)]
pub enum Weight {
    Bold,
    TableHeader,
    /// The weight of the block.
    Base,
}

/// The color of a run.
#[derive(Debug, Clone, Copy, PartialEq, Eq, Structural)]
pub enum Ink {
    Delimiter,
    Link,
    Text,
}

/// How a run is drawn.
#[derive(Debug, Clone, Copy, PartialEq, Eq, Structural)]
pub struct RunLook {
    pub code_font: bool,
    pub weight: Weight,
    pub italic: bool,
    pub ink: Ink,
    pub strikethrough: bool,
    pub background: bool,
    pub underline: bool,
}

/// How text of a style is drawn in a block; `base_bold` tells whether the block
/// is bold by itself. What is dimmed has neither background nor underline.
pub open spec fn look(style: InlineStyle, base_bold: bool) -> RunLook {
    RunLook {
        code_font: style.code,
        weight: if style.bold || base_bold {
            Weight::Bold
        } else if style.table_header {
            Weight::TableHeader
        } else {
            Weight::Base
        },
        italic: style.italic,
        ink: if style.dimmed {
            Ink::Delimiter
        } else if style.link {
            Ink::Link
        } else {
            Ink::Text
        },
        strikethrough: style.strikethrough,
        background: style.code && !style.dimmed,
        underline: style.link && !style.dimmed,
    }
}

/// How text of a style is drawn in a block.
pub fn run_look(style: InlineStyle, base_bold: bool) -> (drawn: RunLook)
    ensures
        drawn == look(style, base_bold),
{
    RunLook {
        code_font: style.code,
        weight: if style.bold || base_bold {
            Weight::Bold
        } else if style.table_header {
            Weight::TableHeader
        } else {
            Weight::Base
        },
        italic: style.italic,
        ink: if style.dimmed {
            Ink::Delimiter
        } else if style.link {
            Ink::Link
        } else {
            Ink::Text
        },
        strikethrough: style.strikethrough,
        background: style.code && !style.dimmed,
        underline: style.link && !style.dimmed,
    }
}

/// The style of a byte of the source: all that the runs over it give.
pub open spec fn style_of(inlines: Seq<InlineRun>, offset: usize) -> InlineStyle
    decreases inlines.len(),
{
    if inlines.len() == 0 {
        InlineStyle::plain_style()
    } else {
        let before = style_of(inlines.drop_last(), offset);
        let run = inlines.last();
        if run.source_range.start <= offset < run.source_range.end {
            before.merged(run.style)
        } else {
            before
        }
    }
}

/// The style of a byte of the source.
pub fn effective_inline_style(offset: usize, inlines: &Vec<InlineRun>) -> (style: InlineStyle)
    ensures
        style == style_of(inlines@, offset),
{
    let ghost all = inlines@;
    let mut style = InlineStyle::plain();
    let mut i: usize = 0;
    assert(all.take(0) =~= Seq::empty());
    while i < inlines.len()
        invariant
            i <= inlines@.len(),
            all == inlines@,
            style == style_of(all.take(i as int), offset),
        decreases inlines@.len() - i,
    {
        assert(all.take(i + 1).drop_last() =~= all.take(i as int));
        assert(all.take(i + 1).last() == all[i as int]);
        if inlines[i].source_range.start <= offset && offset < inlines[i].source_range.end {
            style = style.merge(inlines[i].style);
        }
        i = i + 1;
    }
    assert(all.take(i as int) =~= all);
    style
}

// ---------------------------------------------------------------------------
// The list of runs
// ---------------------------------------------------------------------------

/// A list of runs, which holds a few of them in place.
#[verifier::external_body]
pub struct RunList {
    runs: SmallVec<[(usize, RunLook); 8]>,
}

/// The runs of a list: for each the number of bytes and how it is drawn.
pub uninterp spec fn runs_of(list: RunList) -> Seq<(usize, RunLook)>;

impl RunList {
    /// `SmallVec::new`: an empty list.
    #[verifier::external_body]
    fn new() -> (list: Self)
        ensures
            runs_of(list) == Seq::<(usize, RunLook)>::empty(),
    {
        RunList { runs: SmallVec::new() }
    }

    /// `SmallVec::push`: puts a run at the end of the list.
    #[verifier::external_body]
    fn push(&mut self, size: usize, drawn: RunLook)
        ensures
            runs_of(*final(self)) == runs_of(*old(self)).push((size, drawn)),
    {
        self.runs.push((size, drawn));
    }

    /// `SmallVec::into_vec`: the runs of the list, in order.
    #[verifier::external_body]
    fn into_runs(self) -> (runs: Vec<(usize, RunLook)>)
        ensures
            runs@ == runs_of(self),
    {
        self.runs.into_vec()
    }
}

// ---------------------------------------------------------------------------
// Runs
// ---------------------------------------------------------------------------

/// Past the bytes from `j` on that have the style, no further than `size`.
pub open spec fn run_end(
    map: Seq<usize>,
    inlines: Seq<InlineRun>,
    j: int,
    size: int,
    style: InlineStyle,
) -> int
    decreases size - j,
{
    if j < size && style_of(inlines, map[j]) == style {
        run_end(map, inlines, j + 1, size, style)
    } else {
        j
    }
}

/// The runs of the bytes from `i` on; `map` tells where each byte comes from.
pub open spec fn runs_from(
    map: Seq<usize>,
    inlines: Seq<InlineRun>,
    i: int,
    size: int,
    base_bold: bool,
) -> Seq<(usize, RunLook)>
    decreases
            if size > i {
                size - i
            } else {
                0
            },
{
    if i >= size {
        Seq::empty()
    } else {
        let style = style_of(inlines, map[i]);
        let j = run_end(map, inlines, i + 1, size, style);
        if j > i {
            seq![((j - i) as usize, look(style, base_bold))] + runs_from(
                map,
                inlines,
                j,
                size,
                base_bold,
            )
        } else {
            Seq::empty()
        }
    }
}

proof fn lemma_run_end(
    map: Seq<usize>,
    inlines: Seq<InlineRun>,
    j: int,
    size: int,
    style: InlineStyle,
)
    ensures
        j <= run_end(map, inlines, j, size, style),
        j <= size ==> run_end(map, inlines, j, size, style) <= size,
        forall|k: int|
            j <= k < run_end(map, inlines, j, size, style) ==> style_of(
                inlines,
                #[trigger] map[k],
            ) == style,
    decreases size - j,
{
    if j < size && style_of(inlines, map[j]) == style {
        lemma_run_end(map, inlines, j + 1, size, style);
    }
}

/// The runs of a shown line. `map` tells for each byte where it comes from.
pub fn build_runs_for_line(
    size: usize,
    map: &Vec<usize>,
    inlines: &Vec<InlineRun>,
    base_bold: bool,
) -> (runs: Vec<(usize, RunLook)>)
    requires
        size <= map@.len(),
    ensures
        runs@ == runs_from(map@, inlines@, 0, size as int, base_bold),
{
    let ghost all = runs_from(map@, inlines@, 0, size as int, base_bold);
    let mut list = RunList::new();
    let mut i: usize = 0;
    assert(runs_of(list) + all =~= all);
    while i < size
        invariant
            i <= size <= map@.len(),
            runs_of(list) + runs_from(map@, inlines@, i as int, size as int, base_bold) == all,
        decreases size - i,
    {
        let style = effective_inline_style(map[i], inlines);
        let mut j: usize = i + 1;
        proof {
            lemma_run_end(map@, inlines@, i + 1, size as int, style);
        }
        while j < size && effective_inline_style(map[j], inlines) == style
            invariant
                i < j <= size <= map@.len(),
                run_end(map@, inlines@, i + 1, size as int, style) == run_end(
                    map@,
                    inlines@,
                    j as int,
                    size as int,
                    style,
                ),
            decreases size - j,
        {
            j = j + 1;
        }
        let ghost before = runs_of(list);
        let drawn = run_look(style, base_bold);
        list.push(j - i, drawn);
        proof {
            let rest = runs_from(map@, inlines@, j as int, size as int, base_bold);
            assert(before + (seq![((j - i) as usize, drawn)] + rest) =~= runs_of(list) + rest);
        }
        i = j;
    }
    assert(runs_of(list) =~= all);
    list.into_runs()
}

// ---------------------------------------------------------------------------
// Laws
// ---------------------------------------------------------------------------

/// How many bytes the runs cover.
pub open spec fn covered_bytes(runs: Seq<(usize, RunLook)>) -> int
    decreases runs.len(),
{
    if runs.len() == 0 {
        0
    } else {
        runs[0].0 + covered_bytes(runs.drop_first())
    }
}

/// The runs cover all bytes of the line.
pub proof fn runs_cover_the_line(
    map: Seq<usize>,
    inlines: Seq<InlineRun>,
    i: int,
    size: int,
    base_bold: bool,
)
    requires
        0 <= i <= size <= usize::MAX,
    ensures
        covered_bytes(runs_from(map, inlines, i, size, base_bold)) == size - i,
    decreases size - i,
{
    if i < size {
        let style = style_of(inlines, map[i]);
        let j = run_end(map, inlines, i + 1, size, style);
        lemma_run_end(map, inlines, i + 1, size, style);
        runs_cover_the_line(map, inlines, j, size, base_bold);
        let rest = runs_from(map, inlines, j, size, base_bold);
        assert((seq![((j - i) as usize, look(style, base_bold))] + rest).drop_first() =~= rest);
    }
}

/// How byte `k` of the line is drawn.
pub open spec fn look_at(runs: Seq<(usize, RunLook)>, k: int) -> Option<RunLook>
    decreases runs.len(),
{
    if runs.len() == 0 {
        None
    } else if k < runs[0].0 {
        Some(runs[0].1)
    } else {
        look_at(runs.drop_first(), k - runs[0].0)
    }
}

/// Each byte is drawn as the style of the byte of the source asks.
pub proof fn bytes_are_drawn_in_their_style(
    map: Seq<usize>,
    inlines: Seq<InlineRun>,
    i: int,
    size: int,
    base_bold: bool,
    k: int,
)
    requires
        0 <= i <= k < size <= usize::MAX,
    ensures
        look_at(runs_from(map, inlines, i, size, base_bold), k - i) == Some(
            look(style_of(inlines, map[k]), base_bold),
        ),
    decreases size - i,
{
    let style = style_of(inlines, map[i]);
    let j = run_end(map, inlines, i + 1, size, style);
    lemma_run_end(map, inlines, i + 1, size, style);
    let rest = runs_from(map, inlines, j, size, base_bold);
    assert((seq![((j - i) as usize, look(style, base_bold))] + rest).drop_first() =~= rest);
    if k >= j {
        bytes_are_drawn_in_their_style(map, inlines, j, size, base_bold, k);
    } else if k > i {
        assert(style_of(inlines, map[k]) == style);
    }
}

} // verus!
