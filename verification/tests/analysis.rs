//! Positions, prefixes and insertions on small documents.

use std::ops::Range;

use gpui_markdown_editor::analysis::{
    chain_blockquote_depth, chain_continuation_prefix, chain_continuation_prefix_bytes,
    chain_innermost_list_item, chain_outer_prefix_bytes, enclosing_containers_at, enter_insertion,
    fenced_code_blocks, is_forbidden_position, line_break_insertion, list_content_ranges,
    pair_at_end, EnclosingContainer,
};
use gpui_markdown_editor::parser::parse;
use gpui_markdown_editor::syntax::{NodeKind, SyntaxNode};

fn collect_code_ranges(nodes: &[SyntaxNode], out: &mut Vec<Range<usize>>) {
    for n in nodes {
        if matches!(n.kind, NodeKind::CodeBlock { .. }) {
            out.push(n.range.clone());
        }
        collect_code_ranges(&n.children, out);
    }
}

#[test]
fn paragraph_break_interior_is_forbidden() {
    let src = "p1\n\np2";
    assert!(is_forbidden_position(src, 3));
    assert!(!is_forbidden_position(src, 0));
    assert!(!is_forbidden_position(src, 2));
    assert!(!is_forbidden_position(src, 4));
    assert!(!is_forbidden_position(src, 6));
}

#[test]
fn between_two_pairs_is_allowed() {
    let src = "p1\n\n\n\np2";
    assert!(is_forbidden_position(src, 3));
    assert!(!is_forbidden_position(src, 4));
    assert!(is_forbidden_position(src, 5));
}

#[test]
fn six_newline_run_alternates_forbidden_and_allowed() {
    let src = "p1\n\n\n\n\n\np2";
    assert!(is_forbidden_position(src, 3));
    assert!(!is_forbidden_position(src, 4));
    assert!(is_forbidden_position(src, 5));
    assert!(!is_forbidden_position(src, 6));
    assert!(is_forbidden_position(src, 7));
    assert!(!is_forbidden_position(src, 8));
}

#[test]
fn fenced_code_blanks_are_not_forbidden() {
    let src = "```\n\n\n```\n";
    for p in 0..src.len() {
        assert!(
            !is_forbidden_position(src, p),
            "byte {p} unexpectedly forbidden inside code block",
        );
    }
}

// ---- List indent forbidden positions -------------------------------

#[test]
fn list_marker_interior_is_forbidden() {
    // `- foo`: bytes 0..2 are the hidden marker. Cursor at the
    // marker chars (1) is forbidden; the doc-start edge (0) is
    // exempt and the content edge (2) is the unique landing for
    // the line.
    let src = "- foo";
    assert!(!is_forbidden_position(src, 0));
    assert!(is_forbidden_position(src, 1));
    assert!(!is_forbidden_position(src, 2));
    assert!(!is_forbidden_position(src, 3));
}

#[test]
fn ordered_list_marker_interior_is_forbidden() {
    // `1. foo`: bytes 0..3 are the hidden marker (`1. `). Doc
    // start (0) allowed; marker chars (1, 2) forbidden; content
    // edge (3) allowed.
    let src = "1. foo";
    assert!(!is_forbidden_position(src, 0));
    assert!(is_forbidden_position(src, 1));
    assert!(is_forbidden_position(src, 2));
    assert!(!is_forbidden_position(src, 3));
}

#[test]
fn nested_list_outer_indent_plus_inner_marker_form_one_run() {
    // `- outer\n  - nested`: on the inner item's marker line,
    // bytes 8..10 are outer-continuation indent and bytes
    // 10..12 are the inner marker. Together [8, 12) is the
    // hidden run. The "real beginning of the line" (8), the
    // ancestor-indent interior (9), and the inner marker chars
    // (10, 11) all collapse to the same visible position —
    // forbidden. Only the content edge (12) is allowed.
    let src = "- outer\n  - nested";
    assert!(is_forbidden_position(src, 8));
    assert!(is_forbidden_position(src, 9));
    assert!(is_forbidden_position(src, 10));
    assert!(is_forbidden_position(src, 11));
    assert!(!is_forbidden_position(src, 12));
}

#[test]
fn list_continuation_indent_interior_is_forbidden() {
    // `- foo\n  bar`: bytes 6..8 are the hidden continuation
    // indent. The line-start byte (6) and the indent interior
    // (7) are both forbidden — they share the visible content
    // edge with byte 8.
    let src = "- foo\n  bar";
    assert!(is_forbidden_position(src, 6));
    assert!(is_forbidden_position(src, 7));
    assert!(!is_forbidden_position(src, 8));
}

#[test]
fn sibling_list_item_line_start_is_forbidden() {
    // `1. one\n2. two`: byte 7 is the *real beginning* of the
    // second item's line (right after `\n` at byte 6). The
    // marker `2. ` runs 7..10. All four bytes [7, 10) collapse
    // to the same visible content edge; forbidden. Byte 10 is
    // the unique allowed landing for the line.
    let src = "1. one\n2. two";
    assert!(!is_forbidden_position(src, 6)); // end of line 1
    assert!(is_forbidden_position(src, 7));
    assert!(is_forbidden_position(src, 8));
    assert!(is_forbidden_position(src, 9));
    assert!(!is_forbidden_position(src, 10));
}

#[test]
fn cursor_outside_any_list_is_unaffected() {
    // `plain` — no list, no list-indent forbidden positions
    // should ever fire.
    let src = "plain text";
    for p in 0..=src.len() {
        assert!(!is_forbidden_position(src, p));
    }
}

#[test]
fn pair_at_end_finds_depth_0_pair() {
    let bytes = b"p1\n\np2";
    // cursor at byte 4 = start of p2; the pair `\n\n` ends at 4
    // and starts at 2.
    assert_eq!(pair_at_end(bytes, 4), Some(2));
}

#[test]
fn pair_at_end_finds_depth_1_pair() {
    let bytes = b"> hi\n> \n> ";
    // cursor at end of buffer; the depth-1 pair `\n> \n> ` ends
    // there and starts at byte 4.
    assert_eq!(pair_at_end(bytes, bytes.len()), Some(4));
}

// ---- Enter / Shift+Enter routing -----------------------------------

#[test]
fn enter_at_top_level_inserts_paragraph_break() {
    assert_eq!(enter_insertion("hello", 5), "\n\n");
}

#[test]
fn enter_inside_blockquote_inserts_pair() {
    assert_eq!(enter_insertion("> hi", 4), "\n> \n> ");
}

#[test]
fn enter_inside_unordered_list_inserts_next_marker() {
    // After "- foo" (end-of-buffer cursor), Enter should produce
    // a new bullet item below.
    assert_eq!(enter_insertion("- foo", 5), "\n- ");
}

#[test]
fn enter_inside_ordered_list_increments_number() {
    assert_eq!(enter_insertion("1. foo", 6), "\n2. ");
}

#[test]
fn enter_inside_ordered_list_starting_at_ten_yields_eleven() {
    // The list starts at 10; the second item should be 11. Enter
    // at the end of the second item produces 12.
    assert_eq!(enter_insertion("10. ten\n11. eleven", 18), "\n12. ");
}

#[test]
fn enter_in_fenced_code_inserts_single_newline() {
    let src = "```\nx\n```";
    assert_eq!(enter_insertion(src, 5), "\n");
}

#[test]
fn enter_inside_list_with_star_marker_repeats_star() {
    assert_eq!(enter_insertion("* foo", 5), "\n* ");
}

#[test]
fn enter_inside_list_inside_blockquote_emits_combined_prefix() {
    // `> - foo`: cursor in foo. Enter should emit `\n> - ` so the
    // new item stays inside the blockquote *and* starts a new
    // bullet.
    assert_eq!(enter_insertion("> - foo", 7), "\n> - ");
}

// ---- Enclosing chain ----------------------------------------------

#[test]
fn chain_at_top_level_is_empty() {
    assert!(enclosing_containers_at("plain text", 4).is_empty());
}

#[test]
fn chain_inside_blockquote_records_one_bq_level() {
    let chain = enclosing_containers_at("> hi", 4);
    assert_eq!(chain.len(), 1);
    assert!(matches!(chain[0], EnclosingContainer::BlockQuote { .. }));
    assert_eq!(chain_blockquote_depth(&chain), 1);
}

#[test]
fn chain_inside_nested_blockquote_records_two_bq_levels() {
    let chain = enclosing_containers_at("> > deep", 8);
    assert_eq!(chain_blockquote_depth(&chain), 2);
}

#[test]
fn chain_inside_list_item_carries_item_context() {
    let chain = enclosing_containers_at("- foo", 5);
    assert_eq!(chain.len(), 1);
    let inner = chain_innermost_list_item(&chain).unwrap();
    assert_eq!(inner.item_index, 0);
    assert_eq!(inner.marker_width(), 2);
    assert!(!inner.is_ordered());
}

#[test]
fn chain_at_sibling_boundary_picks_later_item() {
    // Cursor at byte 7 sits at end-of-item-0 *and* start-of-item-1
    // by inclusive boundary equality. Pick item 1 (the post-Enter
    // caret semantics).
    let chain = enclosing_containers_at("1. one\n2. two", 7);
    let inner = chain_innermost_list_item(&chain).unwrap();
    assert_eq!(inner.item_index, 1);
}

#[test]
fn chain_continuation_prefix_for_nested_list() {
    // `- outer\n  - inner`: cursor inside inner. The full chain
    // continuation prefix is 4 spaces (outer 2 + inner 2); the
    // outer-only slice (used to position a new sibling at the
    // inner item's depth) is 2 spaces.
    let src = "- outer\n  - inner";
    let chain = enclosing_containers_at(src, src.len());
    assert_eq!(chain_continuation_prefix(&chain), "    ");
    assert_eq!(chain_continuation_prefix_bytes(&chain), 4);
    assert_eq!(chain_outer_prefix_bytes(&chain), 2);
    assert_eq!(chain_continuation_prefix(&chain[..chain.len() - 1]), "  ");
}

#[test]
fn chain_continuation_prefix_alternates_li_and_bq() {
    // `- > - > one`: chain is `[LI(2), BQ, LI(2), BQ]`. Full
    // continuation prefix interleaves LI indents and BQ markers
    // outermost-first.
    let src = "- > - > one";
    let chain = enclosing_containers_at(src, src.len());
    assert_eq!(chain_continuation_prefix(&chain), "  >   > ");
    assert_eq!(chain_continuation_prefix_bytes(&chain), 8);
}

#[test]
fn chain_in_list_inside_blockquote_records_both() {
    // `> - foo` cursor at byte 7: chain should be [BQ, ListItem].
    let chain = enclosing_containers_at("> - foo", 7);
    assert_eq!(chain.len(), 2);
    assert!(matches!(chain[0], EnclosingContainer::BlockQuote { .. }));
    assert!(matches!(chain[1], EnclosingContainer::ListItem(_)));
}

#[test]
fn line_break_top_level_is_plain_hard_break() {
    assert_eq!(line_break_insertion("ab", 2), "  \n");
}

#[test]
fn line_break_inside_blockquote_carries_marker() {
    assert_eq!(line_break_insertion("> hi", 4), "  \n> ");
}

#[test]
fn line_break_inside_list_carries_indent() {
    // Continuation lines inside a list item must carry indent
    // matching the marker width — `- foo` has a 2-byte marker, so
    // a hard break inside the item inserts `  \n` followed by 2
    // spaces of indent. Ordered items inherit a wider marker
    // (`1. ` is 3 bytes) and therefore a wider indent.
    assert_eq!(line_break_insertion("- foo", 5), "  \n  ");
    assert_eq!(line_break_insertion("1. foo", 6), "  \n   ");
    assert_eq!(line_break_insertion("10. tens", 8), "  \n    ");
}

// ---- List ranges ---------------------------------------------------

#[test]
fn list_content_ranges_excludes_trailing_newline() {
    // The trailing `\n` of a list is the boundary with the next
    // top-level block; excluding it from the exempt range lets
    // `promote_soft_breaks` enforce the canonical `\n\n`
    // separator there.
    let ranges = list_content_ranges("- foo\n- bar\n");
    assert_eq!(ranges.len(), 1);
    assert_eq!(ranges[0], 0..11);
}

#[test]
fn list_content_ranges_empty_outside_list() {
    assert!(list_content_ranges("just paragraphs").is_empty());
}

/// The ranges of the fenced code blocks are those of the syntax tree.
#[test]
fn fenced_code_blocks_match_parse_tree() {
    let cases = [
        "```\nx\n```\n",
        "```rust\nfn main() {}\n```\n",
        "~~~js\nlet x = 1;\n~~~\n",
        "```\nunterminated\n",
        "para\n\n```\ncode\n```\n\nafter\n",
        "```\n```\n",
        "> ```\n> x\n> ```\n",
        "- > ```rust\n  > let x = 1;\n  > ```\n",
    ];
    for src in cases {
        let blocks = fenced_code_blocks(src);
        let tree = parse(src);
        let mut pulldown_ranges: Vec<Range<usize>> = Vec::new();
        collect_code_ranges(&tree, &mut pulldown_ranges);
        assert_eq!(
            blocks.iter().map(|b| b.range.clone()).collect::<Vec<_>>(),
            pulldown_ranges,
            "ranges mismatch for {src:?}",
        );
    }
}
