//! Ranges, edits and the parts of a toggle.

use std::ops::Range;

use gpui_markdown_editor::analysis::SourceEdit;
use gpui_markdown_editor::display::block::{
    BlockKind, ImageOverlay, InlineRun, InlineStyle, MathOverlay, RenderBlock,
};
use gpui_markdown_editor::display::embeds::{place_part, EmbedBody, EmbedPart};
use gpui_markdown_editor::display::lines::line_is_fully_in_a_delimiter;
use gpui_markdown_editor::display::overlays::{
    push_failed_image_overlay_fallback, push_failed_overlay_fallback,
};
use gpui_markdown_editor::display::rows::{line_height_of, LineMeasure, RowExtra, StackStyle};
use gpui_markdown_editor::display::runs::effective_inline_style;
use gpui_markdown_editor::editor::clicks::{drag_over, find_unit, Drag, SelectMode};
use gpui_markdown_editor::editor::composing::replacement_target;
use gpui_markdown_editor::editor::placing::{insert_embed_marker, remove_embed_marker};
use gpui_markdown_editor::embed::{
    drop_blanks, embed_blocks, embed_blocks_in_tree, skip_blanks, EmbedMap,
};
use gpui_markdown_editor::formatting::fingerprint::{
    block_fingerprint, embed_fingerprint, formatting_verbatim_ranges,
    protected_inline_fingerprint, resolved_span_fingerprint, same_marks,
};
use gpui_markdown_editor::formatting::islands::collect_islands;
use gpui_markdown_editor::formatting::plan::{plain_styles, InlineStyles};
use gpui_markdown_editor::formatting::ranges::{
    max_offset, merge_ranges, min_offset, overlaps, subtract_ranges, touches,
};
use gpui_markdown_editor::formatting::rewrite::{
    apply_edits, dedup_edits, is_conflicting, map_offset, remap_selection,
};
use gpui_markdown_editor::formatting::styles::inline_styles_at;
use gpui_markdown_editor::formatting::targets::{is_removal, selected_ranges, word_among_pieces};
use gpui_markdown_editor::formatting::toggle::is_settled;
use gpui_markdown_editor::formatting::{accepts, plan_toggle, InlineFormat};
use gpui_markdown_editor::parser::{is_boundary, parse, skip_digits};
use gpui_markdown_editor::state::{EditorState, Selection};
use gpui_markdown_editor::strings::{chars_of, push_decimal, push_spaces, utf8_len};
use gpui_markdown_editor::words::{holds_word, Glyphs};

fn edit(range: Range<usize>, text: &str) -> SourceEdit {
    SourceEdit { range, replacement: text.to_string() }
}

fn plain(edits: &[SourceEdit]) -> Vec<(Range<usize>, &str)> {
    edits.iter().map(|e| (e.range.clone(), e.replacement.as_str())).collect()
}

// ---- ranges ----

#[test]
fn ranges_touch_where_they_meet_and_overlap_where_they_share() {
    assert!(!overlaps(&(0..2), &(2..3)));
    assert!(overlaps(&(0..3), &(2..4)));
    assert!(touches(&(0..2), &(2..3)));
    assert!(!touches(&(0..2), &(3..4)));
    assert_eq!((min_offset(2, 5), max_offset(2, 5)), (2, 5));
}

#[test]
fn merged_ranges_cover_the_same_bytes() {
    assert_eq!(merge_ranges(vec![4..6, 0..2, 2..3, 5..9]), vec![0..3, 4..9]);
    assert!(merge_ranges(vec![]).is_empty());
}

#[test]
fn subtracting_splits_a_range() {
    assert_eq!(subtract_ranges(&vec![0..9], &(3..5)), vec![0..3, 5..9]);
    assert_eq!(subtract_ranges(&vec![0..4], &(2..9)), vec![0..2]);
    assert!(subtract_ranges(&vec![3..4], &(2..9)).is_empty());
    assert_eq!(subtract_ranges(&vec![0..2], &(5..6)), vec![0..2]);
}

// ---- edits ----

#[test]
fn edits_are_applied_to_characters() {
    let glyphs = Glyphs::of("äb c");
    let edits = vec![edit(0..0, "*"), edit(3..4, ""), edit(5..5, "!")];
    assert_eq!(apply_edits(&glyphs, &edits), "*äbc!");
    assert_eq!(apply_edits(&glyphs, &vec![]), "äb c");
}

#[test]
fn equal_edits_are_dropped_and_conflicts_seen() {
    let edits = vec![edit(1..2, "x"), edit(1..2, "x"), edit(1..2, "y")];
    assert_eq!(plain(&dedup_edits(&edits)), [(1..2, "x"), (1..2, "y")]);
    assert!(is_conflicting(&vec![edit(0..3, ""), edit(2..4, "")]));
    assert!(!is_conflicting(&vec![edit(0..3, ""), edit(3..4, "")]));
}

#[test]
fn positions_move_with_the_text() {
    let edits = vec![edit(2..2, "**"), edit(5..5, "**")];
    assert_eq!(map_offset(0, &edits, true), 0);
    assert_eq!(map_offset(2, &edits, true), 4);
    assert_eq!(map_offset(2, &edits, false), 2);
    assert_eq!(map_offset(3, &edits, true), 5);
    assert_eq!(map_offset(6, &edits, true), 10);
    assert_eq!(remap_selection(Selection::Cursor(3), &edits), Selection::Cursor(5));
}

// ---- the parts of a toggle ----

#[test]
fn a_toggle_is_planned_by_islands() {
    let text = "one two";
    let tree = parse(text);
    let mut islands = Vec::new();
    collect_islands(&tree, text.as_bytes(), &vec![], InlineFormat::Strong, &mut islands);
    assert_eq!(islands.len(), 1);
    let glyphs = Glyphs::of(text);
    let found = selected_ranges(&glyphs, Selection::Cursor(5), &islands);
    assert_eq!(found, vec![(0, 4..7)]);
    assert!(!is_removal(&glyphs, &islands, &found));
    let planned =
        plan_toggle(text, Selection::Cursor(5), &tree, &vec![], InlineFormat::Strong).unwrap();
    assert_eq!(plain(&planned.edits), [(4..4, "**"), (7..7, "**")]);
    let next = "one **two**";
    let next_tree = parse(next);
    let caret = Selection::Cursor(7);
    assert!(accepts(
        text, &tree, &vec![], &planned, next, &next_tree, &vec![], caret, InlineFormat::Strong,
    ));
    let other = "one two";
    assert!(!accepts(
        text, &tree, &vec![], &planned, other, &tree, &vec![], caret, InlineFormat::Strong,
    ));
    assert!(plan_toggle("", Selection::Cursor(0), &parse(""), &vec![], InlineFormat::Strong)
        .is_none());
}

#[test]
fn a_toggle_edits_delimiters_only() {
    let text = "**abcdef**";
    let tree = parse(text);
    let planned =
        plan_toggle(text, Selection::range(4, 6), &tree, &vec![], InlineFormat::Strong).unwrap();
    for e in &planned.edits {
        let taken = &text[e.range.clone()];
        assert!(taken == "**" && e.replacement.is_empty() || taken.is_empty());
        assert!(e.replacement.is_empty() || e.replacement == "**");
    }
}

#[test]
fn the_word_at_the_caret_is_found_among_the_pieces() {
    let pieces: Vec<String> = ["one", " ", "two"].iter().map(|p| p.to_string()).collect();
    assert_eq!(word_among_pieces("one two", &pieces, &(10..17), 15), Some(14..17));
    assert!(holds_word("two"));
    assert!(!holds_word(" "));
}

#[test]
fn styles_are_read_off_the_tree() {
    let tree = parse("a **b *c* d**");
    let none = plain_styles();
    assert_eq!(none, InlineStyles { strong: false, emphasis: false, strikethrough: false });
    let at = |offset: usize| inline_styles_at(&tree, offset, none);
    assert_eq!(at(0), Some(none));
    assert_eq!(at(4), Some(InlineStyles { strong: true, ..none }));
    assert_eq!(at(7), Some(InlineStyles { strong: true, emphasis: true, ..none }));
    assert_eq!(at(99), None);
}

#[test]
fn white_space_is_that_of_unicode() {
    let white: Vec<u32> = (0..0x110000)
        .filter(|&v| char::from_u32(v).is_some_and(char::is_whitespace))
        .collect();
    let mut listed: Vec<u32> = (0x9..=0xd).collect();
    listed.extend([0x20, 0x85, 0xa0, 0x1680]);
    listed.extend(0x2000..=0x200a);
    listed.extend([0x2028, 0x2029, 0x202f, 0x205f, 0x3000]);
    assert_eq!(white, listed);
    for v in listed {
        let c = char::from_u32(v).unwrap();
        let text = format!("{c}a{c}");
        let start = c.len_utf8();
        assert_eq!(Glyphs::of(&text).trim(0, text.len()), Some(start..start + 1));
    }
}

#[test]
fn documents_in_canonical_form_are_settled() {
    let settled = |text: &str| is_settled(text, &parse(text), Selection::Cursor(0));
    assert!(settled("a\n\nb"));
    assert!(settled("- a\n- b"));
    assert!(!settled("- a\n\n- b"));
    assert!(!settled("a\nb"));
    assert!(!settled("> a\n> b"));
    assert!(settled("a  \nb"));
    assert!(settled("```\na\nb\n```"));
}

#[test]
fn fingerprints_see_blocks_links_and_escapes() {
    let same = |a: &str, b: &str| {
        let (s, t) = (parse(a), parse(b));
        (
            same_marks(&block_fingerprint(&s), &block_fingerprint(&t)),
            same_marks(
                &protected_inline_fingerprint(a.as_bytes(), &s),
                &protected_inline_fingerprint(b.as_bytes(), &t),
            ),
            same_marks(
                &resolved_span_fingerprint(a.as_bytes(), &s),
                &resolved_span_fingerprint(b.as_bytes(), &t),
            ),
        )
    };
    assert_eq!(same("a", "**a**"), (true, true, true));
    assert_eq!(same("a", "# a").0, false);
    assert_eq!(same("- a", "- [ ] a").0, false);
    assert_eq!(same("`a`", "`b`").1, false);
    assert_eq!(same("a\\*", "a").2, false);
    assert_eq!(formatting_verbatim_ranges(&parse("a `b` c")), vec![2..5]);
}

#[test]
fn fingerprints_see_embeds() {
    let embeds = EmbedMap::new(vec![(1, "x".to_string())]);
    let text = "{{ embed 1 }}";
    let tree = parse(text);
    let blocks = embed_blocks_in_tree(&tree, text.as_bytes(), &embeds);
    assert_eq!(blocks, embed_blocks(text, &embeds));
    assert_eq!(embed_fingerprint(text.as_bytes(), &blocks).len(), 1);
    assert!(!same_marks(&embed_fingerprint(text.as_bytes(), &blocks), &vec![]));
}

// ---- embeds ----

#[test]
fn blanks_are_skipped_in_both_directions() {
    assert_eq!(skip_blanks(b" \ta", 0, 3), 2);
    assert_eq!(skip_blanks(b"   ", 0, 2), 2);
    assert_eq!(drop_blanks(b"a \t", 3, 0), 1);
    assert_eq!(drop_blanks(b"   ", 3, 2), 2);
}

fn placed_and_removed(text: &str, caret: usize) -> String {
    let (selection, marker) = insert_embed_marker(text, Selection::Cursor(caret), 4);
    let range = selection.selection_range();
    let placed = format!("{}{}{}", &text[..range.start], marker, &text[range.end..]);
    let embeds = EmbedMap::new(vec![(4, "x".to_string())]);
    let gone = remove_embed_marker(&placed, &embeds, 4).unwrap();
    format!("{}{}", &placed[..gone.start], &placed[gone.end..])
}

#[test]
fn removing_a_marker_gives_the_text_back_between_paragraphs() {
    for (text, caret) in [("a\n\nb", 1), ("a\n\nb", 2), ("a\n\nb", 3), ("a", 1), ("a", 0), ("", 0)]
    {
        assert_eq!(placed_and_removed(text, caret), text, "{text:?} at {caret}");
    }
    assert_eq!(placed_and_removed("ab", 1), "a\n\nb");
    assert_eq!(placed_and_removed("a b", 1), "a\n\nb");
}

// ---- what is drawn ----

fn block(delimiter_lines: Vec<Range<usize>>) -> RenderBlock {
    RenderBlock {
        kind: BlockKind::CodeBlock,
        source_range: 0..9,
        containers: vec![],
        inlines: vec![],
        hidden_ranges: vec![],
        delimiter_lines,
        substitutions: vec![],
        math_overlays: vec![],
        image_overlays: vec![],
        marker_overlays: vec![],
    }
}

#[test]
fn a_line_is_a_delimiter_where_one_covers_it() {
    assert!(line_is_fully_in_a_delimiter(&(0..3), &block(vec![0..3])));
    assert!(!line_is_fully_in_a_delimiter(&(0..4), &block(vec![0..3])));
}

#[test]
fn failed_overlays_show_their_source() {
    let mut runs = Vec::new();
    let formula = MathOverlay { source_range: 0..5, content_range: 1..4 };
    push_failed_overlay_fallback(&mut runs, &formula);
    let ranges: Vec<Range<usize>> = runs.iter().map(|r| r.source_range.clone()).collect();
    assert_eq!(ranges, vec![0..1, 4..5, 1..4]);
    assert!(runs[2].style.code && runs[0].style.dimmed);
    let mut runs = Vec::new();
    let image = ImageOverlay { source_range: 0..9, alt_range: 2..5 };
    push_failed_image_overlay_fallback(&mut runs, &image);
    let ranges: Vec<Range<usize>> = runs.iter().map(|r| r.source_range.clone()).collect();
    assert_eq!(ranges, vec![0..2, 5..9]);
}

#[test]
fn styles_over_a_byte_are_merged() {
    let bold = InlineStyle { bold: true, ..InlineStyle::plain() };
    let runs = vec![
        InlineRun { source_range: 0..4, style: bold },
        InlineRun { source_range: 2..6, style: InlineStyle::code() },
    ];
    assert_eq!(effective_inline_style(1, &runs), bold);
    assert_eq!(effective_inline_style(2, &runs), bold.merge(InlineStyle::code()));
    assert_eq!(effective_inline_style(6, &runs), InlineStyle::plain());
}

#[test]
fn a_wrapped_line_is_as_high_as_its_rows() {
    let line =
        LineMeasure { is_delimiter: false, wraps: 2, extra: RowExtra { top: 1, bottom: 3 } };
    let style = StackStyle { line_height: 10, padding: 5, is_code: false };
    assert_eq!(line_height_of(&line, &style), 42);
    let body = EmbedBody::Lines { lines: vec![line], padding: 4 };
    let placed = place_part(&EmbedPart { above: 7, below: 2, line_height: 10, body }, 100);
    assert_eq!(placed.block_top, 107);
    assert_eq!(placed.lines, vec![Some(112)]);
    assert_eq!(placed.block_bottom, 157);
    assert_eq!(placed.bottom, 159);
}

// ---- pointer and input ----

#[test]
fn drags_go_by_units() {
    assert_eq!(find_unit("one two", SelectMode::Word, 5), 4..7);
    assert_eq!(find_unit("a\n\nbc", SelectMode::Line, 4), 3..5);
    assert_eq!(find_unit("abc", SelectMode::Char, 1), 1..1);
    let drag = Drag { mode: SelectMode::Word, anchor: 4..7 };
    assert_eq!(drag_over(&drag, 1, &(0..3)), Selection::Range { anchor: 7, head: 0 });
    assert_eq!(drag_over(&drag, 9, &(8..11)), Selection::Range { anchor: 4, head: 11 });
}

#[test]
fn an_input_method_replaces_what_it_names() {
    assert_eq!(replacement_target("😀ab", &Some(2..3), &Some(0..1)), Some(4..5));
    assert_eq!(replacement_target("ab", &None, &Some(0..1)), Some(0..1));
    assert_eq!(replacement_target("ab", &None, &None), None);
}

// ---- small parts ----

#[test]
fn selections_have_ends() {
    let backward = Selection::range(5, 2);
    assert_eq!((backward.lower_bound(), backward.upper_bound()), (2, 5));
    assert_eq!(backward.selection_range(), 2..5);
    assert!(!backward.is_collapsed());
    assert!(Selection::range(3, 3).is_collapsed());
    let state = EditorState::with_markdown("a".to_string());
    assert_eq!((state.markdown.as_str(), state.selection), ("a", Selection::Cursor(0)));
}

#[test]
fn characters_are_found_by_their_bytes() {
    let glyphs = Glyphs::of("aä b");
    assert_eq!(glyphs.char_at(1), 'ä');
    assert_eq!(glyphs.offset_of(2), 3);
    assert_eq!(glyphs.index_of(3), 2);
    assert_eq!(glyphs.trim(3, 5), Some(4..5));
    assert_eq!(glyphs.trim(3, 4), None);
    assert!(glyphs.has_text(3, 5));
    assert!(!glyphs.has_text(3, 4));
    let mut out = String::from("<");
    glyphs.push_text(&mut out, 1, 4);
    assert_eq!(out, "<ä ");
    assert!(is_boundary("ä".as_bytes(), 0));
    assert!(!is_boundary("ä".as_bytes(), 1));
    assert!(is_boundary("ä".as_bytes(), 2));
    assert_eq!(skip_digits(b"12a", 0, 3), 2);
    assert_eq!(chars_of("aä"), vec!['a', 'ä']);
    assert_eq!((utf8_len('a'), utf8_len('ä'), utf8_len('中'), utf8_len('😀')), (1, 2, 3, 4));
    let mut out = String::new();
    push_spaces(&mut out, 2);
    push_decimal(&mut out, 120);
    assert_eq!(out, "  120");
}
