//! What is drawn over the lines of a block: formulas and images.

use core::ops::Range;

use vstd::prelude::*;

use crate::display::block::{
    ImageOverlay, InlineRun, InlineStyle, MathOverlay, RenderBlock, Substitution,
};

verus! {

// ---------------------------------------------------------------------------
// What could not be drawn
// ---------------------------------------------------------------------------

/// The run of a style over a range, where the range is not empty.
pub open spec fn run_over(start: usize, end: usize, style: InlineStyle) -> Seq<InlineRun> {
    if start < end {
        seq![InlineRun { source_range: Range { start, end }, style }]
    } else {
        Seq::empty()
    }
}

pub open spec fn dimmed_style() -> InlineStyle {
    InlineStyle { dimmed: true, ..InlineStyle::plain_style() }
}

pub open spec fn code_style() -> InlineStyle {
    InlineStyle { code: true, ..InlineStyle::plain_style() }
}

/// The runs of an image that is shown as its source: dimmed around the
/// alternative text.
pub open spec fn failed_image_runs(overlay: ImageOverlay) -> Seq<InlineRun> {
    run_over(overlay.source_range.start, overlay.alt_range.start, dimmed_style()) + run_over(
        overlay.alt_range.end,
        overlay.source_range.end,
        dimmed_style(),
    )
}

/// The runs of a formula that is shown as its source: dimmed delimiters and the
/// content as code.
pub open spec fn failed_math_runs(overlay: MathOverlay) -> Seq<InlineRun> {
    run_over(overlay.source_range.start, overlay.content_range.start, dimmed_style()) + run_over(
        overlay.content_range.end,
        overlay.source_range.end,
        dimmed_style(),
    ) + run_over(overlay.content_range.start, overlay.content_range.end, code_style())
}

fn push_run_over(inlines: &mut Vec<InlineRun>, start: usize, end: usize, style: InlineStyle)
    ensures
        final(inlines)@ == old(inlines)@ + run_over(start, end, style),
{
    let ghost before = inlines@;
    if start < end {
        inlines.push(InlineRun { source_range: start..end, style });
    }
    assert(inlines@ =~= before + run_over(start, end, style));
}

/// Shows an image that could not be loaded as its source.
pub fn push_failed_image_overlay_fallback(inlines: &mut Vec<InlineRun>, overlay: &ImageOverlay)
    ensures
        final(inlines)@ == old(inlines)@ + failed_image_runs(*overlay),
{
    let ghost before = inlines@;
    push_run_over(
        inlines,
        overlay.source_range.start,
        overlay.alt_range.start,
        InlineStyle::dimmed(),
    );
    push_run_over(
        inlines,
        overlay.alt_range.end,
        overlay.source_range.end,
        InlineStyle::dimmed(),
    );
    assert(inlines@ =~= before + failed_image_runs(*overlay));
}

/// Shows a formula that could not be set as its source.
pub fn push_failed_overlay_fallback(inlines: &mut Vec<InlineRun>, overlay: &MathOverlay)
    ensures
        final(inlines)@ == old(inlines)@ + failed_math_runs(*overlay),
{
    let ghost before = inlines@;
    push_run_over(
        inlines,
        overlay.source_range.start,
        overlay.content_range.start,
        InlineStyle::dimmed(),
    );
    push_run_over(
        inlines,
        overlay.content_range.end,
        overlay.source_range.end,
        InlineStyle::dimmed(),
    );
    push_run_over(
        inlines,
        overlay.content_range.start,
        overlay.content_range.end,
        InlineStyle::code(),
    );
    assert(inlines@ =~= before + failed_math_runs(*overlay));
}

// ---------------------------------------------------------------------------
// Room for what is drawn
// ---------------------------------------------------------------------------

/// The character that keeps room for a formula or an image: a narrow space at
/// which a line is not broken.
pub const MATH_PAD_CHAR: char = '\u{202F}';

/// How many characters of an advance it takes to be as wide as `width`: at least
/// one. An advance below `px` counts as `px`.
pub open spec fn pads(width: u64, advance: u64, px: u64) -> nat {
    let step = if advance < px {
        px
    } else {
        advance
    };
    let n = (width + step - 1) / step as int;
    if n < 1 {
        1
    } else {
        n as nat
    }
}

/// How many pad characters make room for `width`; `px` is one pixel.
pub fn pad_count(width: u64, advance: u64, px: u64) -> (count: u64)
    requires
        px > 0,
    ensures
        count == pads(width, advance, px),
{
    let step: u64 = if advance < px {
        px
    } else {
        advance
    };
    let whole: u64 = width / step;
    let rest: u64 = width % step;
    proof {
        let w = width as int;
        let s = step as int;
        vstd::arithmetic::div_mod::lemma_fundamental_div_mod(w, s);
        vstd::arithmetic::div_mod::lemma_fundamental_div_mod(w + s - 1, s);
        let q = (w + s - 1) / s;
        let r = (w + s - 1) % s;
        if rest == 0 {
            assert(q == whole) by (nonlinear_arith)
                requires
                    s > 0,
                    w == s * whole,
                    w + s - 1 == s * q + r,
                    0 <= r < s,
            ;
        } else {
            assert(q == whole + 1) by (nonlinear_arith)
                requires
                    s > 0,
                    w == s * whole + rest,
                    0 < rest < s,
                    w + s - 1 == s * q + r,
                    0 <= r < s,
            ;
        }
        assert(whole <= w) by (nonlinear_arith)
            requires
                s >= 1,
                w == s * whole + rest,
                rest >= 0,
                whole >= 0,
        ;
        if rest > 0 {
            assert(whole < w) by (nonlinear_arith)
                requires
                    s >= 1,
                    w == s * whole + rest,
                    rest > 0,
                    whole >= 0,
            ;
        }
    }
    if rest > 0 {
        whole + 1
    } else if whole == 0 {
        1
    } else {
        whole
    }
}

/// `n` pad characters.
pub open spec fn padding(n: nat) -> Seq<char> {
    Seq::new(n, |i: int| MATH_PAD_CHAR)
}

fn padding_text(n: u64) -> (text: String)
    ensures
        text@ == padding(n as nat),
{
    let mut text = String::new();
    let mut i: u64 = 0;
    while i < n
        invariant
            i <= n,
            text@ =~= padding(i as nat),
        decreases n - i,
    {
        text.push(MATH_PAD_CHAR);
        i = i + 1;
    }
    text
}

/// A substitution: the range and what is shown in place of it.
#[verifier::ext_equal]
pub struct SubstitutionView {
    pub source_range: Range<usize>,
    pub display: Seq<char>,
}

impl View for Substitution {
    type V = SubstitutionView;

    open spec fn view(&self) -> SubstitutionView {
        SubstitutionView { source_range: self.source_range, display: self.display@ }
    }
}

pub open spec fn substitutions_view(subs: Seq<Substitution>) -> Seq<SubstitutionView> {
    subs.map_values(|sub: Substitution| sub@)
}

/// What overlays add to a block, and which of them are drawn.
#[verifier::ext_equal]
pub struct Augment {
    pub substitutions: Seq<SubstitutionView>,
    pub inlines: Seq<InlineRun>,
    pub painted: Seq<usize>,
}

/// An overlay of the width gives way to padding.
pub open spec fn padded(
    before: Augment,
    range: Range<usize>,
    width: u64,
    advance: u64,
    px: u64,
    painted: Seq<usize>,
) -> Augment {
    Augment {
        substitutions: before.substitutions.push(
            SubstitutionView { source_range: range, display: padding(pads(width, advance, px)) },
        ),
        inlines: before.inlines,
        painted,
    }
}

/// What the first `k` formulas add: a formula that was set, of which the width
/// is known, gives way to padding; another one is shown as its source.
pub open spec fn math_augment(
    overlays: Seq<MathOverlay>,
    widths: Seq<Option<u64>>,
    advance: u64,
    px: u64,
    k: int,
) -> Augment
    decreases k,
{
    if k <= 0 {
        Augment { substitutions: Seq::empty(), inlines: Seq::empty(), painted: Seq::empty() }
    } else {
        let before = math_augment(overlays, widths, advance, px, k - 1);
        let overlay = overlays[k - 1];
        let width = if k - 1 < widths.len() {
            widths[k - 1]
        } else {
            None
        };
        match width {
            Some(w) => padded(
                before,
                overlay.source_range,
                w,
                advance,
                px,
                before.painted.push((k - 1) as usize),
            ),
            None => Augment { inlines: before.inlines + failed_math_runs(overlay), ..before },
        }
    }
}

/// What is known of an image: its width where it is loaded.
#[derive(Debug, Clone, Copy, PartialEq, Eq, Structural)]
pub enum ImageLoad {
    Loaded { width: u64 },
    Loading,
    Failed,
}

/// How an image is loaded; one that is not known is loading.
pub open spec fn load_of(loads: Seq<ImageLoad>, k: int) -> ImageLoad {
    if k < loads.len() {
        loads[k]
    } else {
        ImageLoad::Loading
    }
}

/// What the first `k` images add: an image gives way to padding, while it is
/// loading that of a placeholder; one that failed or has no width is shown as its
/// source. Only loaded images are drawn.
pub open spec fn image_augment(
    overlays: Seq<ImageOverlay>,
    loads: Seq<ImageLoad>,
    placeholder: u64,
    advance: u64,
    px: u64,
    k: int,
) -> Augment
    decreases k,
{
    if k <= 0 {
        Augment { substitutions: Seq::empty(), inlines: Seq::empty(), painted: Seq::empty() }
    } else {
        let before = image_augment(overlays, loads, placeholder, advance, px, k - 1);
        let overlay = overlays[k - 1];
        let failed = Augment { inlines: before.inlines + failed_image_runs(overlay), ..before };
        match load_of(loads, k - 1) {
            ImageLoad::Failed => failed,
            ImageLoad::Loaded { width } => if width == 0 {
                failed
            } else {
                padded(
                    before,
                    overlay.source_range,
                    width,
                    advance,
                    px,
                    before.painted.push((k - 1) as usize),
                )
            },
            ImageLoad::Loading => if placeholder == 0 {
                failed
            } else {
                padded(before, overlay.source_range, placeholder, advance, px, before.painted)
            },
        }
    }
}

/// Is the block the same but for its substitutions and runs?
pub open spec fn same_frame(a: RenderBlock, b: RenderBlock) -> bool {
    &&& a.kind == b.kind
    &&& a.source_range == b.source_range
    &&& a.containers == b.containers
    &&& a.hidden_ranges == b.hidden_ranges
    &&& a.delimiter_lines == b.delimiter_lines
    &&& a.math_overlays == b.math_overlays
    &&& a.image_overlays == b.image_overlays
    &&& a.marker_overlays == b.marker_overlays
}

fn push_substitution(subs: &mut Vec<Substitution>, range: &Range<usize>, count: u64)
    ensures
        substitutions_view(final(subs)@) == substitutions_view(old(subs)@).push(
            SubstitutionView { source_range: *range, display: padding(count as nat) },
        ),
{
    let ghost before = substitutions_view(subs@);
    let sub = Substitution {
        source_range: range.start..range.end,
        display: padding_text(count),
    };
    let ghost pushed = sub@;
    subs.push(sub);
    assert(substitutions_view(subs@) =~= before.push(pushed));
}

/// Makes room for the formulas of a block. `widths` tells how wide each formula
/// is, where it could be set. The answer names the formulas to draw.
pub fn augment_block_with_math(
    block: &mut RenderBlock,
    widths: &Vec<Option<u64>>,
    advance: u64,
    px: u64,
) -> (painted: Vec<usize>)
    requires
        px > 0,
    ensures
        ({
            let added = math_augment(
                old(block).math_overlays@,
                widths@,
                advance,
                px,
                old(block).math_overlays@.len() as int,
            );
            &&& substitutions_view(final(block).substitutions@) == substitutions_view(
                old(block).substitutions@,
            ) + added.substitutions
            &&& final(block).inlines@ == old(block).inlines@ + added.inlines
            &&& painted@ == added.painted
        }),
        same_frame(*final(block), *old(block)),
{
    let ghost start = *block;
    let ghost overlays = block.math_overlays@;
    let mut painted: Vec<usize> = Vec::new();
    let mut k: usize = 0;
    while k < block.math_overlays.len()
        invariant
            px > 0,
            k <= overlays.len(),
            overlays == block.math_overlays@,
            same_frame(*block, start),
            ({
                let added = math_augment(overlays, widths@, advance, px, k as int);
                &&& substitutions_view(block.substitutions@) =~= substitutions_view(
                    start.substitutions@,
                ) + added.substitutions
                &&& block.inlines@ =~= start.inlines@ + added.inlines
                &&& painted@ =~= added.painted
            }),
        decreases overlays.len() - k,
    {
        let width: Option<u64> = if k < widths.len() {
            widths[k]
        } else {
            None
        };
        match width {
            Some(w) => {
                let count: u64 = pad_count(w, advance, px);
                push_substitution(
                    &mut block.substitutions,
                    &block.math_overlays[k].source_range,
                    count,
                );
                painted.push(k);
            },
            None => {
                push_failed_overlay_fallback(&mut block.inlines, &block.math_overlays[k]);
            },
        }
        k = k + 1;
    }
    painted
}

/// Makes room for the images of a block. `placeholder` is the width of an image
/// that is loading. The answer names the images to draw.
pub fn augment_block_with_images(
    block: &mut RenderBlock,
    loads: &Vec<ImageLoad>,
    placeholder: u64,
    advance: u64,
    px: u64,
) -> (painted: Vec<usize>)
    requires
        px > 0,
    ensures
        ({
            let added = image_augment(
                old(block).image_overlays@,
                loads@,
                placeholder,
                advance,
                px,
                old(block).image_overlays@.len() as int,
            );
            &&& substitutions_view(final(block).substitutions@) == substitutions_view(
                old(block).substitutions@,
            ) + added.substitutions
            &&& final(block).inlines@ == old(block).inlines@ + added.inlines
            &&& painted@ == added.painted
        }),
        same_frame(*final(block), *old(block)),
{
    let ghost start = *block;
    let ghost overlays = block.image_overlays@;
    let mut painted: Vec<usize> = Vec::new();
    let mut k: usize = 0;
    while k < block.image_overlays.len()
        invariant
            px > 0,
            k <= overlays.len(),
            overlays == block.image_overlays@,
            same_frame(*block, start),
            ({
                let added = image_augment(overlays, loads@, placeholder, advance, px, k as int);
                &&& substitutions_view(block.substitutions@) =~= substitutions_view(
                    start.substitutions@,
                ) + added.substitutions
                &&& block.inlines@ =~= start.inlines@ + added.inlines
                &&& painted@ =~= added.painted
            }),
        decreases overlays.len() - k,
    {
        let load = if k < loads.len() {
            loads[k]
        } else {
            ImageLoad::Loading
        };
        let (width, drawn): (u64, bool) = match load {
            ImageLoad::Loaded { width } => (width, true),
            ImageLoad::Loading => (placeholder, false),
            ImageLoad::Failed => (0, false),
        };
        if width == 0 {
            push_failed_image_overlay_fallback(&mut block.inlines, &block.image_overlays[k]);
        } else {
            let count: u64 = pad_count(width, advance, px);
            push_substitution(
                &mut block.substitutions,
                &block.image_overlays[k].source_range,
                count,
            );
            if drawn {
                painted.push(k);
            }
        }
        k = k + 1;
    }
    painted
}

// ---------------------------------------------------------------------------
// What is hidden
// ---------------------------------------------------------------------------

/// What is left of a range without the bytes of another.
pub open spec fn parts(h: Range<usize>, cut: Range<usize>) -> Seq<Range<usize>> {
    if h.end <= cut.start || h.start >= cut.end {
        seq![h]
    } else {
        (if h.start < cut.start {
            seq![Range { start: h.start, end: cut.start }]
        } else {
            Seq::empty()
        }) + (if h.end > cut.end {
            seq![Range { start: cut.end, end: h.end }]
        } else {
            Seq::empty()
        })
    }
}

/// What is left of the ranges without the bytes of another.
pub open spec fn without(hidden: Seq<Range<usize>>, cut: Range<usize>) -> Seq<Range<usize>>
    decreases hidden.len(),
{
    if hidden.len() == 0 {
        Seq::empty()
    } else {
        without(hidden.drop_last(), cut) + parts(hidden.last(), cut)
    }
}

/// What is left of the ranges without the images.
pub open spec fn without_images(
    hidden: Seq<Range<usize>>,
    overlays: Seq<ImageOverlay>,
) -> Seq<Range<usize>>
    decreases overlays.len(),
{
    if overlays.len() == 0 {
        hidden
    } else {
        without(without_images(hidden, overlays.drop_last()), overlays.last().source_range)
    }
}

/// Takes the bytes of `cut` out of the ranges.
pub fn subtract_hidden_range(hidden: &mut Vec<Range<usize>>, cut: &Range<usize>)
    ensures
        final(hidden)@ == without(old(hidden)@, *cut),
{
    let ghost all = hidden@;
    let mut out: Vec<Range<usize>> = Vec::new();
    let mut i: usize = 0;
    assert(all.take(0) =~= Seq::empty());
    while i < hidden.len()
        invariant
            i <= hidden@.len(),
            all == hidden@,
            out@ == without(all.take(i as int), *cut),
        decreases hidden@.len() - i,
    {
        assert(all.take(i + 1).drop_last() =~= all.take(i as int));
        assert(all.take(i + 1).last() == all[i as int]);
        let ghost before = out@;
        let start: usize = hidden[i].start;
        let end: usize = hidden[i].end;
        if end <= cut.start || start >= cut.end {
            out.push(start..end);
        } else {
            if start < cut.start {
                out.push(start..cut.start);
            }
            if end > cut.end {
                out.push(cut.end..end);
            }
        }
        assert(out@ =~= before + parts(all[i as int], *cut));
        i = i + 1;
    }
    assert(all.take(i as int) =~= all);
    *hidden = out;
}

/// Shows the images of a block as their source.
pub fn strip_embed_image_overlays(block: &mut RenderBlock)
    ensures
        final(block).hidden_ranges@ == without_images(
            old(block).hidden_ranges@,
            old(block).image_overlays@,
        ),
        final(block).image_overlays@.len() == 0,
        final(block).kind == old(block).kind,
        final(block).source_range == old(block).source_range,
        final(block).containers == old(block).containers,
        final(block).inlines == old(block).inlines,
        final(block).delimiter_lines == old(block).delimiter_lines,
        final(block).substitutions == old(block).substitutions,
        final(block).math_overlays == old(block).math_overlays,
        final(block).marker_overlays == old(block).marker_overlays,
{
    let mut cuts: Vec<ImageOverlay> = Vec::new();
    core::mem::swap(&mut cuts, &mut block.image_overlays);
    let mut hidden: Vec<Range<usize>> = Vec::new();
    core::mem::swap(&mut hidden, &mut block.hidden_ranges);
    let ghost start = hidden@;
    let ghost all = cuts@;
    let mut i: usize = 0;
    assert(all.take(0) =~= Seq::empty());
    while i < cuts.len()
        invariant
            i <= cuts@.len(),
            all == cuts@,
            hidden@ == without_images(start, all.take(i as int)),
        decreases cuts@.len() - i,
    {
        assert(all.take(i + 1).drop_last() =~= all.take(i as int));
        assert(all.take(i + 1).last() == all[i as int]);
        subtract_hidden_range(&mut hidden, &cuts[i].source_range);
        i = i + 1;
    }
    assert(all.take(i as int) =~= all);
    block.hidden_ranges = hidden;
}

// ---------------------------------------------------------------------------
// Laws
// ---------------------------------------------------------------------------

/// The padding is as wide as what it makes room for, and no shorter padding is,
/// but for padding of one character.
pub proof fn padding_is_wide_enough(width: u64, advance: u64, px: u64)
    requires
        px > 0,
    ensures
        ({
            let step = if advance < px {
                px
            } else {
                advance
            };
            let n = pads(width, advance, px);
            n >= 1 && n * step >= width && (n > 1 ==> (n - 1) * step < width)
        }),
{
    let step = (if advance < px {
        px
    } else {
        advance
    }) as int;
    let w = width as int;
    let q = (w + step - 1) / step;
    let r = (w + step - 1) % step;
    vstd::arithmetic::div_mod::lemma_fundamental_div_mod(w + step - 1, step);
    assert(q * step >= w) by (nonlinear_arith)
        requires
            w + step - 1 == step * q + r,
            0 <= r < step,
    ;
    assert((q - 1) * step < w) by (nonlinear_arith)
        requires
            w + step - 1 == step * q + r,
            0 <= r < step,
    ;
    if q < 1 {
        assert(w <= step) by (nonlinear_arith)
            requires
                q * step >= w,
                q < 1,
                step > 0,
        ;
    }
}

/// Is the byte in one of the ranges?
pub open spec fn hides(hidden: Seq<Range<usize>>, p: int) -> bool {
    exists|i: int| 0 <= i < hidden.len() && (#[trigger] hidden[i]).start <= p < hidden[i].end
}

proof fn lemma_hides_concat(a: Seq<Range<usize>>, b: Seq<Range<usize>>, p: int)
    ensures
        hides(a + b, p) <==> hides(a, p) || hides(b, p),
{
    if hides(a, p) {
        let i = choose|i: int| 0 <= i < a.len() && (#[trigger] a[i]).start <= p < a[i].end;
        assert((a + b)[i] == a[i]);
    }
    if hides(b, p) {
        let i = choose|i: int| 0 <= i < b.len() && (#[trigger] b[i]).start <= p < b[i].end;
        assert((a + b)[a.len() + i] == b[i]);
    }
    if hides(a + b, p) {
        let i = choose|i: int|
            0 <= i < (a + b).len() && (#[trigger] (a + b)[i]).start <= p < (a + b)[i].end;
        if i < a.len() {
            assert(a[i] == (a + b)[i]);
        } else {
            assert(b[i - a.len()] == (a + b)[i]);
        }
    }
}

/// Taking a range out shows exactly its bytes: another byte is hidden if and only
/// if it was.
pub proof fn cutting_shows_the_cut(hidden: Seq<Range<usize>>, cut: Range<usize>, p: int)
    ensures
        hides(without(hidden, cut), p) <==> hides(hidden, p) && !(cut.start <= p < cut.end),
    decreases hidden.len(),
{
    if hidden.len() > 0 {
        let rest = hidden.drop_last();
        let h = hidden.last();
        cutting_shows_the_cut(rest, cut, p);
        lemma_hides_concat(without(rest, cut), parts(h, cut), p);
        lemma_hides_concat(rest, seq![h], p);
        assert(hidden =~= rest + seq![h]);
        assert(hides(seq![h], p) <==> h.start <= p < h.end) by {
            assert(seq![h][0] == h);
        }
        let left = if h.start < cut.start {
            seq![Range { start: h.start, end: cut.start }]
        } else {
            Seq::empty()
        };
        let right = if h.end > cut.end {
            seq![Range { start: cut.end, end: h.end }]
        } else {
            Seq::empty()
        };
        lemma_hides_concat(left, right, p);
        assert(hides(left, p) <==> h.start < cut.start && h.start <= p < cut.start) by {
            if h.start < cut.start {
                assert(left[0] == Range { start: h.start, end: cut.start });
            }
        }
        assert(hides(right, p) <==> h.end > cut.end && cut.end <= p < h.end) by {
            if h.end > cut.end {
                assert(right[0] == Range { start: cut.end, end: h.end });
            }
        }
    }
}

} // verus!
