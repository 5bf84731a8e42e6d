//! What is shown of a document.

use std::ops::Range;

use gpui_markdown_editor::analysis::is_forbidden_position;
use gpui_markdown_editor::display::block::{
    is_code_block, is_drawn_whole, is_table_block, BlockKind, Container, ImageOverlay, InlineRun,
    InlineStyle, ListItemKind, MarkerOverlay, MathOverlay, RenderBlock, Substitution,
};
use gpui_markdown_editor::display::embeds::{layout_embed, EmbedBody, EmbedPart};
use gpui_markdown_editor::display::latex::{
    containers_continuation_prefix, math_source, sanitize_latex,
};
use gpui_markdown_editor::display::layout::{
    block_claims_cursor, caret_line, caret_row, chains_match_structurally, clamped_scroll,
    embed_is_selected, has_container_boundary, highlight_washes, level_shared_with_neighbor,
    reserved_height, scrolled, selection_washes, spacing_for_block, wash_spans, RowPoint, RowSpan,
    Spacing, Wash,
};
use gpui_markdown_editor::display::lines::{ends_with_hard_break, shape_block_lines, ShownLine};
use gpui_markdown_editor::display::markers::{
    compute_marker_overlay_caret, emit_embed_marker_overlays, line_holding,
    list_marker_display_text, markers_to_paint, shown_at, split_digit_prefix, MarkerCaret,
    PaintedMarker,
};
use gpui_markdown_editor::display::overlays::{
    augment_block_with_images, augment_block_with_math, pad_count, strip_embed_image_overlays,
    subtract_hidden_range, ImageLoad, MATH_PAD_CHAR,
};
use gpui_markdown_editor::display::rows::{
    combined_row_extra, compute_image_row_extra, compute_math_row_extra, formula_top, image_top,
    shaped_content_height, stack_lines, ImageBox, LineMeasure, MathBox, RowExtra, Stack, StackStyle,
};
use gpui_markdown_editor::display::runs::{build_runs_for_line, run_look, Ink, Weight};
use gpui_markdown_editor::display::table::{
    cell_shift, claimed_range, column_extents, column_starts, column_widths, height_of_row,
    row_fragments, row_tops, rule_positions, shown_rows, stretched_delimiter, Extent, Fragment,
    RowGeometry, RowKind, TableAlignment,
};
use gpui_markdown_editor::display::text::{
    build_display_line, display_offset_for_source, source_offset_for_display, unbreakable_words,
};
use gpui_markdown_editor::fencing::wrap_in_fenced_code_block;
use gpui_markdown_editor::state::Selection;
use gpui_markdown_editor::words::Glyphs;

fn block(kind: BlockKind, source_range: Range<usize>) -> RenderBlock {
    RenderBlock {
        kind,
        source_range,
        containers: vec![],
        inlines: vec![],
        hidden_ranges: vec![],
        delimiter_lines: vec![],
        substitutions: vec![],
        math_overlays: vec![],
        image_overlays: vec![],
        marker_overlays: vec![],
    }
}

fn rows(source: &str, ranges: &[Range<usize>]) -> Vec<usize> {
    ranges
        .iter()
        .map(|r| shape_block_lines(source, &block(BlockKind::Paragraph, r.clone())).len())
        .collect()
}

// ---- lines ----

#[test]
fn paragraph_break_alone_shapes_one_line_per_paragraph() {
    assert_eq!(rows("p1\n\np2", &[0..2, 4..6]), vec![1, 1]);
}

#[test]
fn extra_inter_block_pair_shapes_one_visible_empty_row() {
    assert_eq!(rows("p1\n\n\n\np2", &[0..2, 3..5, 6..8]), vec![1, 1, 1]);
}

#[test]
fn six_newlines_between_real_blocks_shape_two_visible_empty_rows() {
    assert_eq!(
        rows("paragraph 1\n\n\n\n\n\nparagraph 2", &[0..11, 12..14, 14..16, 17..28]),
        vec![1, 1, 1, 1]
    );
}

#[test]
fn trailing_pair_shapes_one_visible_empty_row() {
    assert_eq!(rows("paragraph 1\n\n", &[0..11, 12..13]), vec![1, 1]);
}

#[test]
fn three_trailing_pairs_shape_three_visible_empty_rows() {
    assert_eq!(rows("ab\n\n\n\n\n\n", &[0..2, 3..5, 5..7, 7..8]), vec![1, 1, 1, 1]);
}

#[test]
fn leading_pair_shapes_one_visible_empty_row_above() {
    assert_eq!(rows("\n\np1", &[0..2, 2..4]), vec![1, 1]);
}

#[test]
fn trailing_hard_break_shapes_two_lines_in_one_block() {
    assert_eq!(rows("paragraph 1  \n", &[0..14]), vec![2]);
    let lines = shape_block_lines("ab\\\n", &block(BlockKind::Paragraph, 0..4));
    assert_eq!(lines[0].source_range, 0..3);
    assert_eq!(
        lines[1],
        ShownLine { text: String::new(), map: vec![4], source_range: 4..4, is_delimiter: false }
    );
    assert!(ends_with_hard_break(b"ab  \n", 0, 5));
    assert!(!ends_with_hard_break(b"ab \n", 0, 4));
    assert!(!ends_with_hard_break(b"  \n", 1, 3));
}

#[test]
fn empty_body_line_in_top_level_code_block_shapes_one_row() {
    let mut code = block(BlockKind::CodeBlock, 0..10);
    code.delimiter_lines = vec![0..5, 7..10];
    code.hidden_ranges = vec![0..5, 7..10];
    let lines = shape_block_lines("```js\n\n```", &code);
    assert_eq!(lines.len(), 3);
    let delimiters: Vec<bool> = lines.iter().map(|l| l.is_delimiter).collect();
    assert_eq!(delimiters, vec![true, false, true]);
}

#[test]
fn empty_body_line_in_bq_wrapped_code_block_shapes_one_row() {
    let source = "> ```js\n> \n> ```\n";
    let mut code = block(BlockKind::CodeBlock, 2..16);
    code.delimiter_lines = vec![2..7, 11..16];
    code.hidden_ranges = vec![2..7, 8..10, 11..16];
    let lines = shape_block_lines(source, &code);
    assert_eq!(lines.len(), 3);
    assert_eq!(lines[1].text, "");
    code.kind = BlockKind::Paragraph;
    assert_eq!(shape_block_lines(source, &code).len(), 0);
}

#[test]
fn empty_body_line_in_li_wrapped_code_block_shapes_one_row() {
    let mut code = block(BlockKind::CodeBlock, 3..19);
    code.delimiter_lines = vec![3..8, 13..19];
    code.hidden_ranges = vec![3..8, 9..12, 13..19];
    assert_eq!(shape_block_lines("1. ```js\n   \n   ```\n", &code).len(), 3);
}

#[test]
fn empty_doc_shapes_zero_lines_at_shape_layer() {
    assert_eq!(rows("", &[0..0]), vec![0]);
}

#[test]
fn heading_with_inter_block_empties_shapes_one_per_synthetic() {
    assert_eq!(
        rows("# title\n\n\n\n\n\nbody", &[0..7, 8..10, 10..12, 13..17]),
        vec![1, 1, 1, 1]
    );
}

#[test]
fn ranges_that_cut_a_character_have_no_lines() {
    assert_eq!(rows("é", &[0..1, 1..2, 0..9, 0..2]), vec![0, 0, 0, 1]);
}

// ---- the cursor ----

fn claims(blocks: &[Range<usize>], len: usize) -> Vec<Vec<usize>> {
    (0..=len)
        .map(|offset| {
            (0..blocks.len())
                .filter(|&i| {
                    let next = blocks.get(i + 1).map(|b| b.start);
                    block_claims_cursor(offset, blocks[i].start, blocks[i].end, next)
                })
                .collect()
        })
        .collect()
}

#[test]
fn no_offset_is_claimed_by_more_than_one_block() {
    let documents: [(&str, Vec<Range<usize>>); 11] = [
        ("p1\n\np2", vec![0..2, 4..6]),
        ("p1\n\n\n\np2", vec![0..2, 3..5, 6..8]),
        ("p1\n\n\n\n\n\np2", vec![0..2, 3..5, 5..7, 8..10]),
        ("paragraph", vec![0..9]),
        ("paragraph\n\n", vec![0..9, 10..11]),
        ("paragraph\n\n\n\n", vec![0..9, 10..12, 12..13]),
        ("paragraph\n\n\n\n\n\n", vec![0..9, 10..12, 12..14, 14..15]),
        ("\n\np1", vec![0..2, 2..4]),
        ("\n\n\n\np1", vec![0..2, 2..4, 4..6]),
        ("# title\n\nbody", vec![0..7, 9..13]),
        ("# title\n\n\n\n\n\nbody", vec![0..7, 8..10, 10..12, 13..17]),
    ];
    for (src, blocks) in documents {
        for (offset, found) in claims(&blocks, src.len()).into_iter().enumerate() {
            assert!(
                found.len() <= 1,
                "offset {offset} in {src:?} claimed by multiple blocks {found:?}"
            );
            if !is_forbidden_position(src, offset) {
                assert_eq!(found.len(), 1, "allowed offset {offset} in {src:?} claimed by no block");
            }
        }
    }
}

#[test]
fn trailing_empty_layout_keeps_paragraph_end_on_paragraph_row() {
    let found = claims(&[0..9, 10..12, 12..14, 14..15], 15);
    assert_eq!(found[9], vec![0]);
    assert_eq!(found[11], vec![1]);
    assert_eq!(found[13], vec![2]);
    assert_eq!(found[15], vec![3]);
}

#[test]
fn leading_empty_boundary_claimed_by_paragraph_not_empty() {
    let found = claims(&[0..2, 2..4], 4);
    assert_eq!(found[0], vec![0]);
    assert_eq!(found[2], vec![1]);
}

#[test]
fn end_of_doc_still_renders_on_last_block() {
    assert_eq!(claims(&[0..9], 9).last().unwrap(), &vec![0]);
}

#[test]
fn empty_doc_offset_zero_claimed_by_anchor_block() {
    assert_eq!(claims(&[0..0], 0), vec![vec![0]]);
}

#[test]
fn the_caret_goes_to_the_line_that_holds_it() {
    let lines = vec![0..4, 4..8];
    assert_eq!(caret_line(&lines, 4, &(0..8), None, true), Some(1));
    assert_eq!(caret_line(&lines, 8, &(0..8), None, true), Some(1));
    assert_eq!(caret_line(&lines, 8, &(0..8), Some(8), false), None);
    let gap = vec![0..3, 5..8];
    assert_eq!(caret_line(&gap, 3, &(0..8), None, true), Some(0));
    assert_eq!(caret_line(&gap, 3, &(0..8), None, false), None);
}

// ---- what is shown of a line ----

#[test]
fn hidden_bytes_are_left_out_and_mapped() {
    let mut bold = block(BlockKind::Paragraph, 0..9);
    bold.hidden_ranges = vec![0..2, 7..9];
    let glyphs = Glyphs::of("**bold!**");
    let (text, map) = build_display_line(&glyphs, &(0..9), &bold);
    assert_eq!(text, "bold!");
    assert_eq!(map, vec![2, 3, 4, 5, 6, 9]);
    assert_eq!(display_offset_for_source(&(0..9), &map, 5, 1), 0);
    assert_eq!(display_offset_for_source(&(0..9), &map, 5, 4), 2);
    assert_eq!(display_offset_for_source(&(0..9), &map, 5, 8), 5);
    assert_eq!(source_offset_for_display(&(0..9), &map, 2), 4);
    assert_eq!(source_offset_for_display(&(0..9), &map, 9), 9);
}

#[test]
fn substitutions_go_before_hidden_ranges() {
    let mut line = block(BlockKind::Paragraph, 0..6);
    line.hidden_ranges = vec![0..6];
    line.substitutions =
        vec![Substitution { source_range: 2..4, display: "é".to_string() }];
    let (text, map) = build_display_line(&Glyphs::of("abcdef"), &(0..6), &line);
    assert_eq!(text, "é");
    assert_eq!(map, vec![2, 2, 6]);
}

#[test]
fn empty_substitutions_elsewhere_do_not_count() {
    let mut line = block(BlockKind::Paragraph, 0..6);
    line.substitutions = vec![
        Substitution { source_range: 1..1, display: "x".to_string() },
        Substitution { source_range: 3..4, display: "y".to_string() },
        Substitution { source_range: 9..9, display: "z".to_string() },
    ];
    let (text, map) = build_display_line(&Glyphs::of("abcdef"), &(2..6), &line);
    assert_eq!(text, "cyef");
    assert_eq!(map, vec![2, 3, 4, 5, 6]);
}

#[test]
fn words_are_split_at_white_space() {
    assert_eq!(unbreakable_words("  ab c\tdé "), vec![2..4, 5..6, 7..10]);
    assert_eq!(unbreakable_words(" "), Vec::<Range<usize>>::new());
}

#[test]
fn runs_follow_the_styles() {
    let inlines = vec![
        InlineRun { source_range: 0..3, style: InlineStyle::code() },
        InlineRun { source_range: 0..1, style: InlineStyle::dimmed() },
    ];
    let map: Vec<usize> = (0..=12).collect();
    let runs = build_runs_for_line(12, &map, &inlines, false);
    let sizes: Vec<usize> = runs.iter().map(|r| r.0).collect();
    assert_eq!(sizes, vec![1, 2, 9]);
    assert_eq!(runs[0].1.ink, Ink::Delimiter);
    assert!(!runs[0].1.background);
    assert!(runs[1].1.background && runs[1].1.code_font);
    assert_eq!(runs[2].1, run_look(InlineStyle::plain(), false));
    assert!(build_runs_for_line(0, &map, &inlines, false).is_empty());
}

#[test]
fn many_runs_keep_their_order() {
    let inlines: Vec<InlineRun> = (0..20)
        .map(|i| InlineRun { source_range: 2 * i..2 * i + 1, style: InlineStyle::code() })
        .collect();
    let map: Vec<usize> = (0..=40).collect();
    let runs = build_runs_for_line(40, &map, &inlines, false);
    assert_eq!(runs.len(), 40);
    for (i, (size, look)) in runs.iter().enumerate() {
        assert_eq!(*size, 1);
        assert_eq!(look.code_font, i % 2 == 0);
    }
}

#[test]
fn looks_prefer_bold_and_dimmed() {
    let mut style = InlineStyle::plain();
    style.table_header = true;
    assert_eq!(run_look(style, false).weight, Weight::TableHeader);
    assert_eq!(run_look(style, true).weight, Weight::Bold);
    style.bold = true;
    assert_eq!(run_look(style, false).weight, Weight::Bold);
    style.link = true;
    assert_eq!(run_look(style, false).ink, Ink::Link);
    assert!(run_look(style, false).underline);
    style.dimmed = true;
    assert_eq!(run_look(style, false).ink, Ink::Delimiter);
    assert!(!run_look(style, false).underline);
    assert_eq!(run_look(InlineStyle::plain(), false).weight, Weight::Base);
    assert_eq!(run_look(InlineStyle::plain(), false).ink, Ink::Text);
}

// ---- overlays ----

#[test]
fn formulas_give_way_to_padding_or_show_their_source() {
    let mut line = block(BlockKind::Paragraph, 0..20);
    line.math_overlays = vec![
        MathOverlay { source_range: 0..5, content_range: 1..4 },
        MathOverlay { source_range: 8..12, content_range: 9..11 },
    ];
    let painted = augment_block_with_math(&mut line, &vec![Some(25), None], 10, 1);
    assert_eq!(painted, vec![0]);
    assert_eq!(line.substitutions.len(), 1);
    assert_eq!(line.substitutions[0].source_range, 0..5);
    assert_eq!(line.substitutions[0].display, MATH_PAD_CHAR.to_string().repeat(3));
    let ranges: Vec<Range<usize>> =
        line.inlines.iter().map(|r| r.source_range.clone()).collect();
    assert_eq!(ranges, vec![8..9, 11..12, 9..11]);
    assert!(line.inlines[2].style.code);
}

#[test]
fn images_load_wait_or_fail() {
    let mut line = block(BlockKind::Paragraph, 0..40);
    line.image_overlays = vec![
        ImageOverlay { source_range: 0..10, alt_range: 2..4 },
        ImageOverlay { source_range: 11..20, alt_range: 13..15 },
        ImageOverlay { source_range: 21..30, alt_range: 23..25 },
        ImageOverlay { source_range: 31..40, alt_range: 33..35 },
    ];
    let loads =
        vec![ImageLoad::Loaded { width: 7 }, ImageLoad::Failed, ImageLoad::Loaded { width: 0 }];
    let painted = augment_block_with_images(&mut line, &loads, 30, 10, 1);
    assert_eq!(painted, vec![0]);
    let sizes: Vec<usize> =
        line.substitutions.iter().map(|s| s.display.chars().count()).collect();
    assert_eq!(sizes, vec![1, 3]);
    assert_eq!(line.substitutions[1].source_range, 31..40);
    assert_eq!(line.inlines.len(), 4);
    assert_eq!(line.inlines[0].source_range, 11..13);
}

#[test]
fn padding_is_rounded_up() {
    assert_eq!(pad_count(0, 10, 1), 1);
    assert_eq!(pad_count(10, 10, 1), 1);
    assert_eq!(pad_count(11, 10, 1), 2);
    assert_eq!(pad_count(11, 0, 4), 3);
    assert_eq!(pad_count(u64::MAX, 1, 1), u64::MAX);
}

#[test]
fn cuts_split_hidden_ranges() {
    let mut hidden = vec![0..4, 6..12, 14..16];
    subtract_hidden_range(&mut hidden, &(3..8));
    assert_eq!(hidden, vec![0..3, 8..12, 14..16]);
    subtract_hidden_range(&mut hidden, &(9..10));
    assert_eq!(hidden, vec![0..3, 8..9, 10..12, 14..16]);
    let mut line = block(BlockKind::Paragraph, 0..20);
    line.hidden_ranges = vec![0..20];
    line.image_overlays = vec![ImageOverlay { source_range: 5..8, alt_range: 6..7 }];
    strip_embed_image_overlays(&mut line);
    assert_eq!(line.hidden_ranges, vec![0..5, 8..20]);
    assert!(line.image_overlays.is_empty());
}

// ---- markers ----

fn item(kind: ListItemKind, cursor_inside: bool) -> Container {
    Container::ListItem {
        kind,
        cursor_inside,
        marker_byte_len: 2,
        list_max_marker_text: "- ".to_string(),
    }
}

#[test]
fn markers_are_drawn_by_their_item() {
    let dash = b'-';
    let text = list_marker_display_text;
    assert_eq!(text(ListItemKind::Unordered(dash, None), false), "• ");
    assert_eq!(text(ListItemKind::Unordered(dash, None), true), "- ");
    assert_eq!(text(ListItemKind::Unordered(dash, Some(true)), false), "☑ ");
    assert_eq!(text(ListItemKind::Unordered(dash, Some(false)), false), "☐ ");
    assert_eq!(text(ListItemKind::Unordered(b'*', Some(true)), true), "* [x] ");
    assert_eq!(text(ListItemKind::Unordered(b'*', Some(false)), true), "* [ ] ");
    assert_eq!(text(ListItemKind::Ordered { number: 28 }, true), "28. ");
}

#[test]
fn digits_are_split_off() {
    assert_eq!(split_digit_prefix("11. "), Some((2, ". ".to_string())));
    assert_eq!(split_digit_prefix("- "), None);
    assert_eq!(split_digit_prefix(""), None);
    assert_eq!(split_digit_prefix("7"), Some((1, String::new())));
}

#[test]
fn the_caret_enters_the_marker_of_a_task() {
    let containers = vec![
        Container::BlockQuote { cursor_inside: true },
        item(ListItemKind::Unordered(b'-', Some(false)), true),
    ];
    let markers = vec![
        MarkerOverlay { level: 0, source_range: 0..2 },
        MarkerOverlay { level: 1, source_range: 2..8 },
    ];
    let lines = vec![0..12];
    assert_eq!(
        compute_marker_overlay_caret(&markers, &containers, &lines, 5),
        Some(MarkerCaret { level: 1, line: 0, byte: 3 })
    );
    assert_eq!(compute_marker_overlay_caret(&markers, &containers, &lines, 9), None);
    assert_eq!(compute_marker_overlay_caret(&markers, &containers, &vec![20..30], 5), None);
    let missing = vec![MarkerOverlay { level: 7, source_range: 0..9 }];
    assert_eq!(compute_marker_overlay_caret(&missing, &containers, &lines, 5), None);
}

#[test]
fn markers_are_drawn_on_their_lines() {
    let containers = vec![
        Container::BlockQuote { cursor_inside: true },
        item(ListItemKind::Ordered { number: 3 }, false),
    ];
    let markers = vec![
        MarkerOverlay { level: 0, source_range: 0..2 },
        MarkerOverlay { level: 1, source_range: 12..14 },
        MarkerOverlay { level: 1, source_range: 90..92 },
        MarkerOverlay { level: 4, source_range: 0..2 },
    ];
    let lines = vec![0..10, 10..20];
    assert_eq!(
        markers_to_paint(&markers, &containers, &lines),
        vec![
            PaintedMarker { level: 0, line: Some(0), text: ">".to_string() },
            PaintedMarker { level: 1, line: Some(1), text: "3. ".to_string() },
        ]
    );
    assert_eq!(
        emit_embed_marker_overlays(&markers, &containers, &lines),
        vec![
            PaintedMarker { level: 1, line: Some(1), text: "3. ".to_string() },
            PaintedMarker { level: 1, line: None, text: "3. ".to_string() },
        ]
    );
    assert_eq!(line_holding(&lines, 10), Some(1));
    assert_eq!(line_holding(&lines, 20), None);
    assert_eq!(shown_at(&vec![0, 4, 4, 9], 4), Some(1));
    assert_eq!(shown_at(&vec![0, 4], 3), None);
}

// ---- neighbors ----

#[test]
fn containers_are_alike_wherever_the_cursor_is() {
    let a = vec![item(ListItemKind::Unordered(b'-', None), true)];
    let b = vec![item(ListItemKind::Unordered(b'-', None), false)];
    let c = vec![item(ListItemKind::Unordered(b'*', None), false)];
    assert!(chains_match_structurally(&a, &b));
    assert!(!chains_match_structurally(&a, &c));
    assert!(!chains_match_structurally(&a, &vec![]));
    assert!(has_container_boundary(&a, Some(&c)));
    assert!(!has_container_boundary(&a, Some(&b)));
    assert!(!has_container_boundary(&a, None));
    let quote = || Container::BlockQuote { cursor_inside: false };
    let nested = vec![quote(), item(ListItemKind::Unordered(b'-', None), true)];
    let other = vec![quote(), quote()];
    assert!(level_shared_with_neighbor(0, &nested, Some(&other)));
    assert!(!level_shared_with_neighbor(1, &nested, Some(&other)));
    assert!(!level_shared_with_neighbor(0, &nested, None));
    assert!(!level_shared_with_neighbor(5, &nested, Some(&other)));
}

#[test]
fn spacing_depends_on_the_kind_and_the_list() {
    let list = vec![item(ListItemKind::Ordered { number: 1 }, false)];
    assert_eq!(spacing_for_block(&BlockKind::Heading { level: 2 }, &list), Spacing::MajorHeading);
    assert_eq!(spacing_for_block(&BlockKind::Heading { level: 3 }, &list), Spacing::MinorHeading);
    assert_eq!(spacing_for_block(&BlockKind::Paragraph, &list), Spacing::ListItem);
    assert_eq!(spacing_for_block(&BlockKind::CodeBlock, &vec![]), Spacing::Paragraph);
    assert!(is_code_block(&BlockKind::CodeBlock));
    assert!(is_table_block(&BlockKind::Table { edit_mode: true }));
    assert!(is_drawn_whole(&BlockKind::Embed { ordinal: 1 }));
    assert!(!is_drawn_whole(&BlockKind::Image { edit_mode: true }));
}

// ---- washes ----

#[test]
fn washes_are_clipped_to_the_lines() {
    let lines = vec![0..5, 5..10, 10..12];
    let selection = Selection::Range { anchor: 7, head: 3 };
    assert_eq!(
        selection_washes(&lines, &selection),
        vec![
            Wash { line: 0, start: 3, end: 5, to_line_end: true },
            Wash { line: 1, start: 5, end: 7, to_line_end: false },
        ]
    );
    assert_eq!(selection_washes(&lines, &Selection::Cursor(3)), vec![]);
    assert_eq!(highlight_washes(&lines, &vec![1..2, 0..4]).len(), 2);
    assert!(embed_is_selected(&selection, &(3..7)));
    assert!(!embed_is_selected(&selection, &(2..7)));
    assert!(!embed_is_selected(&Selection::Cursor(3), &(3..3)));
}

#[test]
fn washes_over_wrapped_rows_fill_the_middle() {
    let spans = wash_spans(
        RowPoint { row: 0, x: 30 },
        RowPoint { row: 3, x: 12 },
        4,
        100,
        6,
    );
    assert_eq!(
        spans,
        vec![
            RowSpan { row: 0, left: 30, right: 100 },
            RowSpan { row: 1, left: 0, right: 100 },
            RowSpan { row: 2, left: 0, right: 100 },
            RowSpan { row: 3, left: 0, right: 18 },
        ]
    );
    let one = wash_spans(RowPoint { row: 1, x: 3 }, RowPoint { row: 1, x: 9 }, 4, 100, 0);
    assert_eq!(one, vec![RowSpan { row: 1, left: 3, right: 9 }]);
}

#[test]
fn scrolling_stops_at_the_ends() {
    assert_eq!(clamped_scroll(50, 100, 60), 40);
    assert_eq!(clamped_scroll(50, 40, 60), 0);
    assert_eq!(scrolled(10, 20, 40), 0);
    assert_eq!(scrolled(10, -20, 40), 30);
    assert_eq!(scrolled(10, -90, 40), 40);
    assert_eq!(caret_row(1, 2, 7, 7, true), 2);
    assert_eq!(caret_row(1, 2, 7, 7, false), 1);
    assert_eq!(caret_row(2, 2, 7, 7, true), 2);
    assert_eq!(reserved_height(10, Some(50), 20, 3), 56);
    assert_eq!(reserved_height(90, Some(50), 20, 3), 90);
    assert_eq!(reserved_height(10, None, 20, 3), 10);
}

// ---- rows ----

fn line(is_delimiter: bool, wraps: u64) -> LineMeasure {
    LineMeasure { is_delimiter, wraps, extra: RowExtra { top: 0, bottom: 0 } }
}

#[test]
fn plain_paragraph_has_zero_math_row_extra() {
    let extra = compute_math_row_extra(&(0..10), &vec![], 12, 4, 20);
    assert_eq!(extra, RowExtra { top: 0, bottom: 0 });
}

#[test]
fn tall_inline_math_extends_row_reservation() {
    let tall = vec![MathBox { start: 4, ascent: 20, descent: 10 }];
    let extra = compute_math_row_extra(&(0..10), &tall, 12, 4, 20);
    assert_eq!(extra, RowExtra { top: 6, bottom: 4 });
    assert_eq!(
        compute_math_row_extra(&(5..10), &tall, 12, 4, 20),
        RowExtra { top: 0, bottom: 0 }
    );
}

#[test]
fn tall_math_extends_row_more_than_short_math() {
    let short = vec![MathBox { start: 4, ascent: 12, descent: 4 }];
    let tall = vec![MathBox { start: 4, ascent: 20, descent: 10 }];
    let low = compute_math_row_extra(&(0..10), &short, 12, 4, 20);
    let high = compute_math_row_extra(&(0..10), &tall, 12, 4, 20);
    assert!(high.top + high.bottom > low.top + low.bottom + 2);
}

#[test]
fn images_reach_out_on_both_sides() {
    let images = vec![ImageBox { start: 1, height: 40 }, ImageBox { start: 2, height: 30 }];
    let extra = compute_image_row_extra(&(0..10), &images, 20);
    assert_eq!(extra, RowExtra { top: 10, bottom: 10 });
    let both = combined_row_extra(extra, RowExtra { top: 3, bottom: 12 });
    assert_eq!(both, RowExtra { top: 10, bottom: 12 });
}

#[test]
fn formulas_share_the_baseline_and_images_are_centered() {
    let tall = MathBox { start: 1, ascent: 30, descent: 12 };
    // The letters reach from 3 to 17, with the baseline at 13.
    assert_eq!(formula_top(100, &tall, 10, 4, 20), 83);
    let extra = compute_math_row_extra(&(0..5), &vec![tall], 10, 4, 20);
    assert_eq!(extra, RowExtra { top: 17, bottom: 5 });
    assert!(100 - extra.top as i64 <= 83 && 83 + 42 <= 120 + extra.bottom as i64);
    let image = ImageBox { start: 1, height: 25 };
    assert_eq!(image_top(100, &image, 20), 97);
    assert_eq!(image_top(100, &ImageBox { start: 1, height: 11 }, 20), 104);
    let extra = compute_image_row_extra(&(0..5), &vec![image], 20);
    assert_eq!(extra, RowExtra { top: 3, bottom: 3 });
    assert!(100 - extra.top as i64 <= 97 && 97 + 25 <= 120 + extra.bottom as i64);
}

#[test]
fn code_is_padded_between_its_fences() {
    let style = StackStyle { line_height: 20, padding: 5, is_code: true };
    let lines = vec![line(true, 0), line(false, 0), line(false, 1), line(true, 0)];
    assert_eq!(shaped_content_height(&lines, &style), 110);
    assert_eq!(
        stack_lines(&lines, &style),
        Stack {
            height: 110,
            tops: vec![0, 25, 45, 90],
            strip_top: Some(20),
            strip_bottom: Some(90),
        }
    );
    let open = vec![line(true, 0), line(false, 0)];
    assert_eq!(shaped_content_height(&open, &style), 50);
    assert_eq!(stack_lines(&open, &style).strip_bottom, Some(50));
    assert_eq!(shaped_content_height(&vec![], &style), 20);
    assert_eq!(stack_lines(&vec![], &style).tops, vec![0]);
    let plain = StackStyle { line_height: 20, padding: 5, is_code: false };
    assert_eq!(shaped_content_height(&lines, &plain), 100);
}

// ---- tables ----

#[test]
fn columns_shrink_in_proportion() {
    let columns = vec![Extent { min: 20, max: 100 }, Extent { min: 30, max: 50 }];
    assert_eq!(column_widths(&columns, Some(200), 1), vec![100, 50]);
    assert_eq!(column_widths(&columns, None, 1), vec![100, 50]);
    assert_eq!(column_widths(&columns, Some(100), 1), vec![60, 40]);
    assert_eq!(column_widths(&columns, Some(10), 1), vec![20, 30]);
    assert_eq!(column_widths(&vec![Extent { min: 0, max: 0 }], Some(10), 4), vec![4]);
    let thirds = vec![Extent { min: 0, max: 10 }; 3];
    let widths = column_widths(&thirds, Some(20), 1);
    assert!(widths.iter().sum::<u32>() <= 20);
    assert_eq!(column_starts(&vec![60, 40], 5, 10), vec![5, 75, 125]);
}

#[test]
fn columns_are_as_wide_as_their_widest_cells() {
    let rows = vec![
        vec![Extent { min: 5, max: 10 }, Extent { min: 7, max: 7 }],
        vec![Extent { min: 3, max: 30 }],
    ];
    assert_eq!(
        column_extents(&rows, 3),
        vec![
            Extent { min: 5, max: 30 },
            Extent { min: 7, max: 7 },
            Extent { min: 0, max: 0 },
        ]
    );
}

#[test]
fn cells_are_aligned_where_they_fit() {
    assert_eq!(cell_shift(10, 30, TableAlignment::Right, false, 2), Some(20));
    assert_eq!(cell_shift(10, 31, TableAlignment::Center, false, 2), Some(10));
    assert_eq!(cell_shift(10, 30, TableAlignment::Left, false, 2), Some(0));
    assert_eq!(cell_shift(10, 30, TableAlignment::Unset, false, 2), Some(0));
    assert_eq!(cell_shift(10, 30, TableAlignment::Right, true, 2), Some(0));
    assert_eq!(cell_shift(31, 30, TableAlignment::Right, false, 2), Some(0));
    assert_eq!(cell_shift(32, 30, TableAlignment::Right, false, 2), None);
}

#[test]
fn dashes_fill_their_column() {
    let source = "| :-: | --- |";
    assert_eq!(stretched_delimiter(source, &(2..5), 50, 5, 10), ":----:");
    assert_eq!(stretched_delimiter(source, &(8..11), 50, 5, 10), "-----");
    assert_eq!(stretched_delimiter(source, &(2..5), 3, 5, 10), ":-:");
    assert_eq!(stretched_delimiter(source, &(8..11), 50, 5, 0), "---");
    assert_eq!(stretched_delimiter(":", &(0..1), 20, 5, 10), ":-");
}

#[test]
fn rows_split_into_cells_and_what_is_between() {
    let source = "| ab | cd |\n| - | - |\n";
    let row = RowGeometry { kind: RowKind::Header, line: 0..11, cells: vec![2..4, 7..9] };
    assert_eq!(
        row_fragments(source, &row),
        vec![
            Fragment { range: 0..2, after: None },
            Fragment { range: 4..7, after: Some(0) },
            Fragment { range: 9..12, after: Some(1) },
        ]
    );
    assert_eq!(claimed_range(&(2..4), source.len()), 2..5);
    assert_eq!(claimed_range(&(2..22), 22), 2..22);
    let dashes = RowGeometry { kind: RowKind::Delimiter, line: 12..21, cells: vec![] };
    assert_eq!(row_fragments(source, &dashes), vec![]);
    let table = vec![row, dashes];
    assert_eq!(shown_rows(&table, false), vec![0]);
    assert_eq!(shown_rows(&table, true), vec![0, 1]);
}

#[test]
fn table_rows_are_as_high_as_their_highest_cells() {
    assert_eq!(height_of_row(&vec![0, 2, 1], 20), 60);
    assert_eq!(height_of_row(&vec![], 20), 20);
    let tops = row_tops(&vec![20, 60, 20]);
    assert_eq!(tops, vec![0, 20, 80, 100]);
    assert_eq!(rule_positions(&tops, false), vec![20, 80]);
    assert_eq!(rule_positions(&tops, true), Vec::<u64>::new());
    assert_eq!(rule_positions(&row_tops(&vec![20]), false), Vec::<u64>::new());
}

// ---- embeds ----

#[test]
fn embedded_blocks_are_stacked() {
    let part = |body: EmbedBody| EmbedPart { above: 3, below: 4, line_height: 20, body };
    let places = layout_embed(&vec![
        part(EmbedBody::Lines {
            lines: vec![line(true, 0), line(false, 1), line(true, 0)],
            padding: 5,
        }),
        part(EmbedBody::Rule),
        part(EmbedBody::Whole { height: 10 }),
        part(EmbedBody::Nothing),
        part(EmbedBody::Lines { lines: vec![], padding: 0 }),
    ]);
    assert_eq!(places[0].lines, vec![None, Some(8), None]);
    let spans: Vec<(u64, u64)> = places.iter().map(|p| (p.block_top, p.block_bottom)).collect();
    assert_eq!(spans, vec![(3, 53), (60, 80), (87, 107), (114, 114), (121, 141)]);
    for pair in places.windows(2) {
        assert_eq!(pair[0].bottom, pair[1].top);
    }
}

// ---- formulas and fences ----

#[test]
fn prefixes_are_taken_out_of_formulas() {
    let containers = vec![
        Container::BlockQuote { cursor_inside: false },
        item(ListItemKind::Unordered(b'-', None), false),
    ];
    assert_eq!(containers_continuation_prefix(&containers), ">   ");
    assert_eq!(sanitize_latex("a\n>   b\n> c", &containers), "a\nb\n> c");
    assert_eq!(sanitize_latex("a\n>   b", &vec![]), "a\n>   b");
    assert_eq!(sanitize_latex("", &containers), "");
    assert_eq!(
        math_source("$$a\n>   b$$", &(2..9), &containers),
        Some("a\nb".to_string())
    );
    assert_eq!(math_source("é", &(1..2), &containers), None);
}

#[test]
fn fences_outgrow_the_backticks() {
    assert_eq!(wrap_in_fenced_code_block("x"), "```\nx\n```");
    assert_eq!(wrap_in_fenced_code_block("x\n"), "```\nx\n```");
    assert_eq!(wrap_in_fenced_code_block("````"), "`````\n````\n`````");
    assert_eq!(wrap_in_fenced_code_block(""), "```\n\n```");
}
