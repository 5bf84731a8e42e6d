//! Pairs, depths, fences and the edits of lists on small documents.

use std::ops::Range;

use gpui_markdown_editor::analysis::edits::{sort_edits, sort_edits_by_start};
use gpui_markdown_editor::analysis::{
    auto_close_fence_edit, blockquote_depth_at, bq_paragraph_outdent, chain_pair_shape,
    consecutive_hard_break_edits, count_line_markers, cursor_at_item_marker_end,
    empty_bq_paragraph_exit_edit, empty_item_exit_edit, enclosing_containers_at,
    enclosing_containers_at_in_tree, fenced_code_blocks, fenced_code_blocks_in_tree,
    fenced_code_ranges, fenced_code_ranges_in_tree, innermost_li_immediate_parent_is_list_item,
    innermost_list_item_at, is_chain_pair_interior, is_forbidden_position, is_in_fenced_code,
    is_in_fenced_code_blocks, is_in_ranges, is_list_indent_interior,
    is_marker_only_line_ending_at, is_marker_only_line_starting_at, is_paragraph_break_interior,
    is_soft_break, item_line_starts, line_depth_ending_at, line_starts_nested_construct,
    list_content_ranges_in_tree, list_item_dedent_edits, list_item_indent_edits,
    list_item_strip_range, list_normalization_edits, list_normalization_edits_in_tree,
    nearest_allowed_position, next_allowed_position, pair_at_end, pair_at_end_for_chain,
    pair_at_start, pair_at_start_for_chain, prev_allowed_position, previous_sibling_marker_width,
    scope_break_text, scope_prefix_at, walk_back_exact, walk_back_markers,
    walk_back_required_newline, walk_forward_exact, walk_forward_markers,
    walk_forward_required_newline, DepthDecreaseEdit, SourceEdit, SourceEditList,
};
use gpui_markdown_editor::parser::{parse, EXTENSIONS};
use gpui_markdown_editor::syntax::NodeKind;
use gpui_markdown_editor::text::{
    count_newlines, is_already_hard_break, line_start_offset, next_line_end, run_end_offset,
    run_start_offset,
};
use pulldown_cmark::{Event, Tag};

fn edit(range: Range<usize>, text: &str) -> SourceEdit {
    SourceEdit { range, replacement: text.to_string() }
}

fn plain(edits: &[SourceEdit]) -> Vec<(Range<usize>, &str)> {
    edits.iter().map(|e| (e.range.clone(), e.replacement.as_str())).collect()
}

/// The text with edits that come in order and do not overlap.
fn rewritten(text: &str, edits: &[SourceEdit]) -> String {
    let mut out = String::new();
    let mut at = 0;
    for e in edits {
        assert!(at <= e.range.start, "{edits:?}");
        out.push_str(&text[at..e.range.start]);
        out.push_str(&e.replacement);
        at = e.range.end;
    }
    out.push_str(&text[at..]);
    out
}

// ---- markers and newlines ----

#[test]
fn markers_are_walked_in_both_directions() {
    let mut q = 4;
    assert_eq!(walk_back_markers(b"> > ", &mut q, usize::MAX), 2);
    assert_eq!(q, 0);
    let mut q = 4;
    assert_eq!(walk_back_markers(b"> > ", &mut q, 1), 1);
    assert_eq!(q, 2);
    let mut q = 0;
    assert_eq!(walk_forward_markers(b"> >x", &mut q, usize::MAX), 2);
    assert_eq!(q, 3);
    let mut q = 1;
    assert_eq!(walk_forward_markers(b"> >x", &mut q, usize::MAX), 1);
    assert_eq!(q, 3);
}

#[test]
fn the_newline_of_a_hard_break_is_not_walked() {
    let mut q = 2;
    assert!(walk_back_required_newline(b"a\n", &mut q));
    assert_eq!(q, 1);
    let mut q = 4;
    assert!(!walk_back_required_newline(b"a  \n", &mut q));
    assert_eq!(q, 4);
    let mut q = 3;
    assert!(!walk_back_required_newline(b"a\\\n", &mut q));
    let mut q = 1;
    assert!(walk_forward_required_newline(b"a\n", &mut q));
    assert_eq!(q, 2);
    let mut q = 3;
    assert!(!walk_forward_required_newline(b"a  \n", &mut q));
    assert_eq!(q, 3);
    assert!(is_already_hard_break(b"a  \n", 3));
    assert!(is_already_hard_break(b"a\\\n", 2));
    assert!(!is_already_hard_break(b"a \n", 2));
}

#[test]
fn exact_bytes_are_walked_or_nothing() {
    let mut q = 3;
    assert!(walk_back_exact(b"abc", &mut q, b"bc"));
    assert_eq!(q, 1);
    assert!(!walk_back_exact(b"abc", &mut q, b"bc"));
    assert_eq!(q, 1);
    assert!(walk_back_exact(b"abc", &mut q, b""));
    let mut q = 1;
    assert!(walk_forward_exact(b"abc", &mut q, b"bc"));
    assert_eq!(q, 3);
    assert!(!walk_forward_exact(b"abc", &mut q, b"c"));
    assert_eq!(q, 3);
}

#[test]
fn lines_and_runs_are_found() {
    assert_eq!(line_start_offset(b"a\nbc", 4), 2);
    assert_eq!(next_line_end(b"a\nbc\n", 2, 5), 4);
    assert_eq!(run_start_offset(b"a\n\n", 3, 0, b'\n'), 1);
    assert_eq!(run_start_offset(b"a\n\n", 3, 2, b'\n'), 2);
    assert_eq!(run_end_offset(b"   a", 1, 4, b' '), 3);
    assert_eq!(count_newlines(b"a\n\nb\n", 0, 4), 2);
}

#[test]
fn line_markers_may_be_indented() {
    assert_eq!(count_line_markers(b"> > x", 0), (2, 4));
    assert_eq!(count_line_markers(b"   >x", 0), (1, 4));
    assert_eq!(count_line_markers(b">   x", 0), (1, 2));
    assert_eq!(count_line_markers(b">   > x", 0), (2, 6));
    assert_eq!(count_line_markers(b"    >x", 0), (0, 0));
    assert_eq!(count_line_markers(b"x", 0), (0, 0));
    assert_eq!(line_depth_ending_at(b"a\n> > b", 7), 2);
    assert_eq!(line_depth_ending_at(b"a\n> > b", 1), 0);
}

#[test]
fn marker_only_lines_are_told_from_content() {
    let b = b"> a\n> \nb";
    assert!(is_marker_only_line_ending_at(b, 6));
    assert!(!is_marker_only_line_ending_at(b, 3));
    assert!(!is_marker_only_line_ending_at(b, 8));
    assert!(is_marker_only_line_starting_at(b, 4));
    assert!(!is_marker_only_line_starting_at(b, 0));
    assert!(!is_marker_only_line_starting_at(b, 7));
}

// ---- pairs and soft breaks ----

#[test]
fn the_inside_of_a_quoted_pair_is_interior() {
    let b = b"a\n> \n> b";
    for p in 0..=b.len() {
        assert_eq!(is_paragraph_break_interior(b, p), (2..7).contains(&p), "at {p}");
    }
    assert!(!is_paragraph_break_interior(b"a\nb", 2));
    let b = b"a\n> \n> \n> b";
    for p in 0..=b.len() {
        assert!(!is_paragraph_break_interior(b, p), "at {p}");
    }
    let b = b"a\n> \n> \n> \n> b";
    for p in 0..=b.len() {
        let inside = (2..13).contains(&p) && p != 7;
        assert_eq!(is_paragraph_break_interior(b, p), inside, "at {p}");
    }
    assert!(!is_paragraph_break_interior(b"a", 9));
}

#[test]
fn odd_runs_of_newlines_have_no_interior() {
    for p in 0..=7 {
        assert!(!is_paragraph_break_interior(b"p1\n\n\np2", p), "at {p}");
        assert!(!is_forbidden_position("p1\n\n\np2", p), "at {p}");
    }
    for p in 0..=8 {
        let inside = p == 3 || p == 5;
        assert_eq!(is_paragraph_break_interior(b"p1\n\n\n\np2", p), inside, "at {p}");
    }
    assert!(!is_paragraph_break_interior(b"p1\n\n> x", 4));
    for text in ["", "a", "a\n\n", "a\n\n\n", "> a\n> \n> ", "- ", "```\n\n"] {
        assert!(!is_forbidden_position(text, text.len()), "{text:?}");
    }
}

#[test]
fn only_lone_newlines_between_lines_of_text_are_soft() {
    assert!(is_soft_break(b"a\nb", 1));
    assert!(!is_soft_break(b"a\nb", 0));
    assert!(!is_soft_break(b"a\n\nb", 1));
    assert!(!is_soft_break(b"a  \nb", 3));
    assert!(!is_soft_break(b"a\\\nb", 2));
    assert!(!is_soft_break(b"\nb", 0));
    assert!(!is_soft_break(b"a\n", 1));
    assert!(is_soft_break(b"> a\nb", 3));
    assert!(!is_soft_break(b"> a\n> \nb", 3));
    assert!(!is_soft_break(b"> a\n> \nb", 6));
}

#[test]
fn pairs_read_both_ways() {
    assert_eq!(pair_at_start(b"a\n\nb", 1), Some(3));
    assert_eq!(pair_at_end(b"a\n\nb", 3), Some(1));
    let b = b"a\n> \n> b";
    assert_eq!(pair_at_start(b, 1), Some(7));
    assert_eq!(pair_at_end(b, 7), Some(1));
    assert_eq!(pair_at_start(b"a\n> \nb", 1), None);
    assert_eq!(pair_at_start(b"a  \n\nb", 3), None);
}

#[test]
fn a_pair_found_backward_inside_of_a_marker_is_not_found_forward() {
    let b = b"a\n>\n> b";
    assert_eq!(pair_at_end(b, 5), Some(1));
    assert_ne!(pair_at_start(b, 1), Some(5));
}

#[test]
fn outdenting_takes_a_marker_from_both_lines() {
    let text = "> a\n> \n> b";
    let (above, below) = bq_paragraph_outdent(text.as_bytes(), 9).unwrap();
    assert_eq!((above.clone(), below.clone()), (4..6, 7..9));
    let next = format!("{}{}{}", &text[..4], &text[6..7], &text[9..]);
    assert_eq!(next, "> a\n\nb");
    assert_eq!(pair_at_end(next.as_bytes(), 5), pair_at_end(text.as_bytes(), 9));
    assert_eq!(bq_paragraph_outdent(b"a\n\n> b", 5), None);
    assert_eq!(bq_paragraph_outdent(b"> a", 2), None);
}

// ---- chains ----

#[test]
fn chains_give_prefixes_and_pair_shapes() {
    let chain = enclosing_containers_at("> - a", 5);
    assert_eq!(chain_pair_shape(&chain), ("> ".to_string(), ">   ".to_string()));
    assert_eq!(blockquote_depth_at("> - a", 5), 1);
    assert!(!innermost_li_immediate_parent_is_list_item(&chain));
    let chain = enclosing_containers_at("- a\n  - b", 9);
    assert_eq!(chain_pair_shape(&chain), (String::new(), "    ".to_string()));
    assert!(innermost_li_immediate_parent_is_list_item(&chain));
    assert_eq!(blockquote_depth_at("- a", 3), 0);
    let tree = parse("> - a");
    assert_eq!(enclosing_containers_at_in_tree(&tree, b"> - a", 5).len(), 2);
}

#[test]
fn pairs_of_a_quote_in_an_item_carry_the_whole_prefix() {
    let text = "1. > a\n   > \n   > b";
    let b = text.as_bytes();
    let chain = enclosing_containers_at(text, 18);
    assert_eq!(pair_at_end_for_chain(b, 18, &chain), Some(6));
    assert_eq!(pair_at_start_for_chain(b, 6, &chain), Some(18));
    assert_eq!(pair_at_end_for_chain(b, 17, &chain), None);
    assert!(is_chain_pair_interior(text, 7));
    assert!(is_chain_pair_interior(text, 13));
    assert!(!is_chain_pair_interior(text, 6));
    assert!(!is_chain_pair_interior(text, 18));
    assert!(!is_chain_pair_interior("a\n\nb", 2));
    assert_eq!(pair_at_end_for_chain(b"a\n\nb", 3, &[]), None);
}

// ---- positions ----

#[test]
fn positions_snap_to_the_nearer_side_and_forward_on_a_tie() {
    let text = "p1\n\np2";
    assert_eq!(next_allowed_position(text, 3), 4);
    assert_eq!(prev_allowed_position(text, 3), 2);
    assert_eq!(nearest_allowed_position(text, 3), 4);
    for p in 0..=text.len() {
        let snapped = nearest_allowed_position(text, p);
        assert!(!is_forbidden_position(text, snapped));
        assert_eq!(nearest_allowed_position(text, snapped), snapped);
    }
}

#[test]
fn positions_in_an_indent_snap_to_the_content() {
    let text = "- a\n- b";
    let hidden: Vec<usize> =
        (0..=text.len()).filter(|&p| is_list_indent_interior(text, p)).collect();
    assert_eq!(hidden, [1, 4, 5]);
    assert_eq!(nearest_allowed_position(text, 4), 6);
    assert_eq!(nearest_allowed_position(text, 1), 2);
}

// ---- fences ----

#[test]
fn open_and_closed_fences_are_told_apart() {
    let closed = "```\nx\n```\n";
    let blocks = fenced_code_blocks(closed);
    assert_eq!(blocks.len(), 1);
    assert!(blocks[0].terminated);
    assert_eq!((blocks[0].opener_fence_char, blocks[0].opener_fence_len), (b'`', 3));
    let open = "~~~~\nx";
    let blocks = fenced_code_blocks(open);
    assert!(!blocks[0].terminated);
    assert_eq!((blocks[0].opener_fence_char, blocks[0].opener_fence_len), (b'~', 4));
    assert!(is_in_fenced_code(open, open.len()));
    assert!(is_in_fenced_code_blocks(&blocks, 5));
    assert!(!is_in_fenced_code("a", 0));
    assert_eq!(fenced_code_ranges(open), vec![blocks[0].range.clone()]);
    let tree = parse(open);
    assert_eq!(fenced_code_blocks_in_tree(&tree, open.as_bytes()), blocks);
    assert_eq!(fenced_code_ranges_in_tree(&tree, open.as_bytes()), fenced_code_ranges(open));
    assert!(is_in_ranges(2, &[1..3]));
    assert!(!is_in_ranges(3, &[1..3]));
}

#[test]
fn an_open_fence_is_closed_in_its_scope() {
    let edit = auto_close_fence_edit("```rust\nx", 9).unwrap();
    assert_eq!(
        edit,
        DepthDecreaseEdit { range: 9..9, replacement: "\n\n```".to_string(), cursor: 10 }
    );
    let edit = auto_close_fence_edit("> ~~~\n> x", 9).unwrap();
    assert_eq!(edit.replacement, "\n> \n> ~~~");
    assert_eq!(edit.cursor, 12);
    assert_eq!(auto_close_fence_edit("```\nx\n```\n", 5), None);
    assert_eq!(auto_close_fence_edit("x", 1), None);
}

// ---- leaving a container ----

#[test]
fn enter_on_an_empty_item_leaves_the_list() {
    assert_eq!(
        empty_item_exit_edit("- a\n- ", 6),
        Some(DepthDecreaseEdit { range: 3..6, replacement: "\n\n".to_string(), cursor: 5 })
    );
    assert_eq!(
        empty_item_exit_edit("- ", 2),
        Some(DepthDecreaseEdit { range: 0..2, replacement: String::new(), cursor: 0 })
    );
    assert_eq!(empty_item_exit_edit("- a", 3), None);
    assert_eq!(empty_item_exit_edit("a", 1), None);
    assert!(cursor_at_item_marker_end("- a", 2));
    assert!(!cursor_at_item_marker_end("- a", 3));
    assert!(!cursor_at_item_marker_end("a", 0));
}

#[test]
fn enter_on_an_empty_quoted_row_leaves_the_quote() {
    assert_eq!(
        empty_bq_paragraph_exit_edit("> a\n> \n> ", 9),
        Some(DepthDecreaseEdit { range: 3..9, replacement: "\n\n".to_string(), cursor: 5 })
    );
    assert_eq!(empty_bq_paragraph_exit_edit("> a", 3), None);
    assert_eq!(empty_bq_paragraph_exit_edit("a\n\n", 3), None);
}

#[test]
fn the_scope_of_a_marker_gives_its_break() {
    assert_eq!(scope_prefix_at("> - a", 2), "> ");
    assert_eq!(scope_prefix_at("- a", 0), "");
    assert_eq!(scope_break_text(""), "\n\n");
    assert_eq!(scope_break_text("> "), "\n> \n> ");
}

// ---- list items ----

#[test]
fn the_innermost_item_is_found_with_its_marker() {
    let item = innermost_list_item_at("- a\n- b", 7).unwrap();
    assert_eq!(item.item_index, 1);
    assert_eq!(item.marker_range, 4..6);
    assert_eq!(item.next_marker_text("- a\n- b"), "- ");
    let text = "- a\n\np\n\n* b";
    let item = innermost_list_item_at(text, 11).unwrap();
    assert_eq!(item.next_marker_text(text), "* ");
    let item = innermost_list_item_at("3. x", 4).unwrap();
    assert!(item.is_ordered());
    assert_eq!(item.next_marker_text("3. x"), "4. ");
    assert!(innermost_list_item_at("x", 1).is_none());
    assert_eq!(previous_sibling_marker_width("- a\n- b", &(4..7)), Some(2));
    assert_eq!(previous_sibling_marker_width("- a\n- b", &(0..4)), None);
    let tree = parse("- a\n- b\n\np");
    assert_eq!(list_content_ranges_in_tree(&tree, b"- a\n- b\n\np"), vec![0..7]);
}

#[test]
fn the_lines_of_an_item_begin_with_its_marker_line() {
    assert_eq!(item_line_starts(b"- a\n  b\n- c", &(0..8)), vec![0, 4]);
    assert_eq!(item_line_starts(b"> - a", &(2..5)), vec![0]);
}

#[test]
fn strips_take_spaces_of_their_line_only() {
    assert_eq!(list_item_strip_range(b"  - b", 0, 0, 2), 0..2);
    assert_eq!(list_item_strip_range(b"    b", 0, 1, 2), 1..3);
    assert_eq!(list_item_strip_range(b"- b", 0, 0, 2), 0..0);
    assert_eq!(list_item_strip_range(b"\n   x", 0, 3, 2), 3..3);
    let line = "> a";
    let indented = format!("{}   {}", &line[..2], &line[2..]);
    assert_eq!(list_item_strip_range(indented.as_bytes(), 0, 2, 3), 2..5);
}

#[test]
fn tab_nests_an_item_under_the_one_before_it() {
    let edits = list_item_indent_edits("- a\n- b", 7).unwrap();
    assert_eq!(plain(&edits), [(4..4, "  ")]);
    let edits = list_item_indent_edits("1. a\n2. b", 9).unwrap();
    assert_eq!(plain(&edits), [(5..5, "   "), (5..8, "1. ")]);
    assert_eq!(rewritten("1. a\n2. b", &edits), "1. a\n   1. b");
    assert!(list_item_indent_edits("- a\n- b", 3).is_none());
    assert!(list_item_indent_edits("a", 1).is_none());
}

#[test]
fn shift_tab_takes_an_item_one_level_up() {
    let edits = list_item_dedent_edits("- a\n  - b", 9).unwrap();
    assert_eq!(plain(&edits), [(4..6, "")]);
    let edits = list_item_dedent_edits("- a\n- b", 7).unwrap();
    assert_eq!(plain(&edits), [(3..6, "\n\n")]);
    assert_eq!(rewritten("- a\n- b", &edits), "- a\n\nb");
    let edits = list_item_dedent_edits("- a\n  b", 3).unwrap();
    assert_eq!(plain(&edits), [(0..2, ""), (4..6, "")]);
    assert!(list_item_dedent_edits("a", 1).is_none());
}

#[test]
fn shift_tab_undoes_tab() {
    let text = "- a\n- b";
    let nested = rewritten(text, &list_item_indent_edits(text, 7).unwrap());
    assert_eq!(nested, "- a\n  - b");
    let back = rewritten(&nested, &list_item_dedent_edits(&nested, 9).unwrap());
    assert_eq!(back, text);
    for text in ["- a\n- b\n  c", "> - a\n> - b\n>   c", "1. x\n   - a\n   - b"] {
        let nested = rewritten(text, &list_item_indent_edits(text, text.len()).unwrap());
        assert_ne!(nested, text);
        let back = list_item_dedent_edits(&nested, nested.len()).unwrap();
        assert_eq!(rewritten(&nested, &back), text);
    }
}

/// Words of one letter each, and longer ones.
fn words() -> Vec<String> {
    let mut words: Vec<String> = ('a'..='z').chain('A'..='Z').map(|c| c.to_string()).collect();
    words.extend(["ab", "xX", "TODO", "http", "embed"].map(str::to_string));
    words.push("q".repeat(63));
    words.push("Zz".repeat(2048));
    words
}

#[test]
fn bulleted_words_are_read_as_items() {
    let options = pulldown_cmark::Options::from_bits_truncate(EXTENSIONS);
    let read = |text: &str| -> Vec<(String, Range<usize>)> {
        pulldown_cmark::Parser::new_ext(text, options)
            .into_offset_iter()
            .map(|(event, range)| {
                let name = match event {
                    Event::Start(Tag::List(None)) => "list",
                    Event::Start(Tag::Item) => "item",
                    Event::End(_) => "end",
                    Event::Text(_) => "text",
                    _ => "other",
                };
                (name.to_string(), range)
            })
            .collect()
    };
    let named = |events: &[(&str, Range<usize>)]| -> Vec<(String, Range<usize>)> {
        events.iter().map(|(name, range)| (name.to_string(), range.clone())).collect()
    };
    for a in words() {
        for b in words() {
            let (f, s) = (a.len(), b.len());
            let text = format!("- {a}\n- {b}");
            let (second, end) = (f + 3, f + s + 5);
            assert_eq!(
                read(&text),
                named(&[
                    ("list", 0..end),
                    ("item", 0..second),
                    ("text", 2..f + 2),
                    ("end", 0..second),
                    ("item", second..end),
                    ("text", second + 2..end),
                    ("end", second..end),
                    ("end", 0..end),
                ])
            );
            let text = format!("- {a}\n  - {b}");
            let (second, end) = (f + 5, f + s + 7);
            assert_eq!(
                read(&text),
                named(&[
                    ("list", 0..end),
                    ("item", 0..end),
                    ("text", 2..f + 2),
                    ("list", second..end),
                    ("item", second..end),
                    ("text", second + 2..end),
                    ("end", second..end),
                    ("end", second..end),
                    ("end", 0..end),
                    ("end", 0..end),
                ])
            );
        }
    }
}

#[test]
fn words_move_below_and_back() {
    for a in words() {
        for b in words() {
            let text = format!("- {a}\n- {b}");
            let below = rewritten(&text, &list_item_indent_edits(&text, text.len()).unwrap());
            assert_eq!(below, format!("- {a}\n  - {b}"));
            let back = list_item_dedent_edits(&below, below.len()).unwrap();
            assert_eq!(rewritten(&below, &back), text);
        }
    }
}

// ---- canonical lists ----

#[test]
fn doubled_hard_breaks_lose_their_markers() {
    let text = "a  \n  \nb";
    let edits = consecutive_hard_break_edits(text, &[]);
    assert_eq!(plain(&edits), [(1..3, ""), (4..6, "")]);
    assert_eq!(rewritten(text, &edits), "a\n\nb");
    assert!(consecutive_hard_break_edits(text, &[5]).is_empty());
    assert!(consecutive_hard_break_edits("a  \nb  \nc", &[]).is_empty());
    let edits = consecutive_hard_break_edits("a\\\n> \\\nb", &[]);
    assert_eq!(plain(&edits), [(1..2, ""), (5..6, "")]);
    let edits = consecutive_hard_break_edits("a\\\n\\\nb", &[]);
    assert_eq!(plain(&edits), [(1..2, ""), (3..4, "")]);
    assert!(consecutive_hard_break_edits("a\\\n\\\nb", &[4]).is_empty());
    assert!(consecutive_hard_break_edits("a\\\n\\b\\\nc", &[]).is_empty());
    let edits = consecutive_hard_break_edits("a\\\n  \nb", &[]);
    assert_eq!(plain(&edits), [(1..2, ""), (3..5, "")]);
}

#[test]
fn lines_that_open_a_construct_are_recognized() {
    let opens = |line: &str| line_starts_nested_construct(line.as_bytes(), 0, line.len(), 2);
    assert!(opens("  - x"));
    assert!(opens("1. x"));
    assert!(opens("12) x"));
    assert!(opens("> x"));
    assert!(opens("```"));
    assert!(opens("~~~~ rust"));
    assert!(!opens("x"));
    assert!(!opens("-x"));
    assert!(!opens("1.x"));
    assert!(!opens("``"));
    assert!(!opens("   "));
}

#[test]
fn loose_items_are_tightened() {
    let text = "- a\n\n- b";
    let edits = list_normalization_edits(text, &[]);
    assert_eq!(rewritten(text, &edits), "- a\n- b");
    let tree = parse(text);
    let again = list_normalization_edits_in_tree(&tree, text.as_bytes(), &[]);
    assert_eq!(plain(&again), plain(&edits));
}

#[test]
fn ordered_items_are_renumbered() {
    let text = "3. a\n5. b";
    let edits = list_normalization_edits(text, &[]);
    assert_eq!(plain(&edits), [(5..8, "4. ")]);
    let edits = list_normalization_edits("5. a", &[]);
    assert_eq!(plain(&edits), [(0..3, "1. ")]);
}

#[test]
fn extra_spaces_after_a_marker_go_unless_the_caret_is_there() {
    let edits = list_normalization_edits("-   a", &[]);
    assert_eq!(plain(&edits), [(2..4, "")]);
    assert!(list_normalization_edits("-   a", &[3]).is_empty());
}

#[test]
fn lazy_continuations_get_a_hard_break_and_an_indent() {
    let edits = list_normalization_edits("- a\nb", &[]);
    assert_eq!(plain(&edits), [(3..3, "  "), (4..4, "  ")]);
    assert_eq!(rewritten("- a\nb", &edits), "- a  \n  b");
    assert!(list_normalization_edits("- a  \n  b", &[]).is_empty());
}

#[test]
fn normalizing_edits_never_overlap() {
    let texts = [
        "1. a\n\n   - b\n   c\n\n5. d\n> x",
        "- a\n\n\n-   b\n  - c\nd\n\n  - e\n",
        "> - a\n> b\n>\n> - c\n>   1. d\n>   3. e",
        "- > 3. a\n  > 7. b\n\n- c\n   \n   d",
        "9. a\n   - b\n10. c\n    d\n",
    ];
    for text in texts {
        let edits = list_normalization_edits(text, &[]);
        assert!(!edits.is_empty(), "{text:?}");
        rewritten(text, &edits);
    }
}

// ---- the tree ----

#[test]
fn headings_tasks_and_rows_are_told_apart() {
    let level = |text: &str| match parse(text)[0].kind {
        NodeKind::Heading { level, .. } => level,
        _ => 0,
    };
    assert_eq!(level("### a"), 3);
    assert_eq!(level("##a\n==="), 1);
    assert_eq!(level("##a\n---"), 2);
    assert_eq!(level("####### a"), 0);
    let checked = |text: &str| match parse(text)[0].children[0].children[0].kind {
        NodeKind::TaskMarker { checked } => Some(checked),
        _ => None,
    };
    assert_eq!(checked("- [x] a"), Some(true));
    assert_eq!(checked("- [ ] a"), Some(false));
    assert_eq!(checked("- [\t] a"), Some(false));
    assert_eq!(checked("- a"), None);
    let table = parse("|a|\n|-|\n|b|");
    let headers: Vec<bool> = table[0]
        .children
        .iter()
        .map(|row| matches!(row.kind, NodeKind::TableRow { is_header: true }))
        .collect();
    assert_eq!(headers, [true, false]);
    let html = parse("<div>\n[x] a\n</div>");
    assert!(html[0].children.iter().all(|line| matches!(line.kind, NodeKind::Html)));
}

// ---- lists of edits ----

#[test]
fn overlapping_strips_merge() {
    let mut list = SourceEditList::new();
    assert!(list.is_empty());
    list.extend(vec![edit(4..6, ""), edit(0..0, ""), edit(5..8, "")]);
    assert!(!list.is_empty());
    assert_eq!(plain(&list.finish()), [(4..8, "")]);
    let mut list = SourceEditList::new();
    list.push(edit(2..4, ""));
    list.push(edit(0..2, ""));
    assert_eq!(plain(&list.finish()), [(0..4, "")]);
    let mut list = SourceEditList::new();
    list.extend(vec![edit(2..4, ""), edit(2..2, "x"), edit(0..2, "")]);
    assert_eq!(plain(&list.finish()), [(0..2, ""), (2..2, "x"), (2..4, "")]);
}

#[test]
fn of_overlapping_edits_the_longer_one_stays() {
    let mut list = SourceEditList::new();
    list.push(edit(1..5, "y"));
    list.push(edit(0..2, "x"));
    assert_eq!(plain(&list.finish()), [(1..5, "y")]);
    let mut list = SourceEditList::new();
    list.push(edit(0..2, "x"));
    list.push(edit(1..3, "y"));
    assert_eq!(plain(&list.finish()), [(0..2, "x")]);
}

#[test]
fn edits_are_sorted_and_disjoint_ones_stay() {
    let edits = vec![edit(3..5, "b"), edit(3..3, "a"), edit(0..1, "")];
    assert_eq!(plain(&sort_edits(&edits)), [(0..1, ""), (3..3, "a"), (3..5, "b")]);
    assert_eq!(plain(&sort_edits_by_start(&edits)), [(0..1, ""), (3..5, "b"), (3..3, "a")]);
    let mut list = SourceEditList::new();
    list.extend(vec![edit(0..1, ""), edit(3..3, "a"), edit(3..5, "b")]);
    assert_eq!(plain(&list.finish()), [(0..1, ""), (3..3, "a"), (3..5, "b")]);
}
