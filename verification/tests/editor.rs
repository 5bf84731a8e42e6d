//! Clicks, drags, undo, the clipboard and composing.

use gpui_markdown_editor::editor::clicks::{
    begin_selection, context_selection, extend_selection_to, line_range_at, segment_among,
    word_range_at, Drag, SelectMode,
};
use gpui_markdown_editor::editor::clipboard::{
    copied_text, is_internal, normalize_line_endings, CLIPBOARD_SENTINEL,
};
use gpui_markdown_editor::editor::commands::{
    can_perform, enter, perform, EditorCommand, Enter, EnterOutcome,
};
use gpui_markdown_editor::editor::composing::replace_and_mark;
use gpui_markdown_editor::editor::geometry::{
    find_line, line_for_offset, move_vertically, offset_for_position, Hit, LineBox,
};
use gpui_markdown_editor::editor::history::{coalescible_type_end, History, MAX_HISTORY};
use gpui_markdown_editor::editor::motion::{
    landing_affinity, line_bound_affinity, move_head, WrapAffinity,
};
use gpui_markdown_editor::editor::placing::{
    insert_embed_marker, remove_embed_marker, separator_range,
};
use gpui_markdown_editor::editor::session::{MarkdownEditorEvent, MarkdownEditorState};
use gpui_markdown_editor::editor::snapping::{nearest_allowed_position_with, snap_selection};
use gpui_markdown_editor::editor::utf16::{
    offset_from_utf16, offset_to_utf16, range_from_utf16, range_to_utf16,
};
use gpui_markdown_editor::embed::EmbedMap;
use gpui_markdown_editor::event::EditorEvent;
use gpui_markdown_editor::state::{EditorState, Selection};

fn state(markdown: &str, selection: Selection) -> EditorState {
    EditorState { markdown: markdown.into(), selection, embeds: EmbedMap::default() }
}

fn at(markdown: &str, cursor: usize) -> EditorState {
    state(markdown, Selection::Cursor(cursor))
}

// ---- words and lines ----

#[test]
fn word_range_selects_the_alphanumeric_run() {
    let text = "the quick brown fox";
    assert_eq!(word_range_at(text, 6), 4..9);
    assert_eq!(&text[word_range_at(text, 6)], "quick");
    assert_eq!(&text[word_range_at(text, 4)], "quick");
    assert_eq!(&text[word_range_at(text, 0)], "the");
    assert_eq!(&text[word_range_at(text, 17)], "fox");
}

#[test]
fn word_range_treats_punctuation_and_whitespace_as_delimiters() {
    let text = "scatter short (blue) wavelengths";
    let paren_open = text.find('(').unwrap();
    assert_eq!(&text[word_range_at(text, paren_open + 1)], "blue");
    assert_eq!(&text[word_range_at(text, paren_open)], "(");
    let space = text.find(' ').unwrap();
    assert!(text[word_range_at(text, space)].chars().all(|c| c == ' '));
}

#[test]
fn word_range_edges() {
    let text = "alpha";
    assert_eq!(&text[word_range_at(text, 5)], "alpha");
    assert_eq!(word_range_at("", 0), 0..0);
}

#[test]
fn line_range_covers_the_paragraph_without_the_newline() {
    let text = "first line\nsecond line\nthird";
    assert_eq!(&text[line_range_at(text, 15)], "second line");
    assert_eq!(&text[line_range_at(text, 11)], "second line");
    assert_eq!(&text[line_range_at(text, 22)], "second line");
    assert_eq!(&text[line_range_at(text, 0)], "first line");
    assert_eq!(&text[line_range_at(text, 26)], "third");
}

#[test]
fn line_range_on_a_blank_line_is_empty() {
    let text = "a\n\nb";
    assert_eq!(line_range_at(text, 2), 2..2);
}

#[test]
fn segments_are_found_among_given_pieces() {
    let pieces: Vec<String> = ["ab", " ", "cd"].iter().map(|s| s.to_string()).collect();
    assert_eq!(segment_among("ab cd", &pieces, 0), 0..2);
    assert_eq!(segment_among("ab cd", &pieces, 2), 2..3);
    assert_eq!(segment_among("ab cd", &pieces, 5), 3..5);
    assert_eq!(segment_among("ab cd", &pieces, 99), 3..5);
}

#[test]
fn a_drag_by_words_keeps_the_first_word() {
    let text = "one two three";
    let none = Drag { mode: SelectMode::Char, anchor: 0..0 };
    let (drag, selection) = begin_selection(text, &none, Selection::Cursor(0), 5, 2, false);
    assert_eq!(drag, Drag { mode: SelectMode::Word, anchor: 4..7 });
    assert_eq!(selection, Selection::Range { anchor: 4, head: 7 });
    assert_eq!(
        extend_selection_to(text, &drag, 9),
        Selection::Range { anchor: 4, head: 13 }
    );
    assert_eq!(
        extend_selection_to(text, &drag, 1),
        Selection::Range { anchor: 7, head: 0 }
    );
}

#[test]
fn a_press_with_shift_keeps_the_anchor() {
    let none = Drag { mode: SelectMode::Char, anchor: 0..0 };
    let selection = Selection::Range { anchor: 2, head: 4 };
    let (drag, next) = begin_selection("abcdefgh", &none, selection, 7, 1, true);
    assert_eq!(drag.anchor, 2..2);
    assert_eq!(next, Selection::Range { anchor: 2, head: 7 });
}

#[test]
fn three_clicks_select_a_line() {
    let none = Drag { mode: SelectMode::Char, anchor: 0..0 };
    let (drag, next) = begin_selection("ab\ncd\nef", &none, Selection::Cursor(0), 4, 3, false);
    assert_eq!(drag.mode, SelectMode::Line);
    assert_eq!(next, Selection::Range { anchor: 3, head: 5 });
}

#[test]
fn a_context_menu_keeps_the_selection_under_it() {
    let selection = Selection::Range { anchor: 6, head: 2 };
    assert_eq!(context_selection(selection, 3), selection);
    assert_eq!(context_selection(selection, 6), Selection::Cursor(6));
    assert_eq!(context_selection(selection, 0), Selection::Cursor(0));
}

// ---- clipboard and commands ----

#[test]
fn line_endings_become_newlines() {
    assert_eq!(normalize_line_endings("a\r\nb\rc\nd"), "a\nb\nc\nd");
    assert_eq!(normalize_line_endings("\r\r\n\n"), "\n\n\n");
    assert_eq!(normalize_line_endings("plain"), "plain");
    let once = normalize_line_endings("x\r\n\ry");
    assert_eq!(normalize_line_endings(&once), once);
}

#[test]
fn copied_text_is_the_selection() {
    let selected = state("hello world", Selection::Range { anchor: 11, head: 6 });
    assert_eq!(copied_text(&selected), Some("world".to_string()));
    assert_eq!(copied_text(&at("hello", 2)), None);
}

#[test]
fn the_sentinel_tells_own_content() {
    assert!(is_internal(Some(&CLIPBOARD_SENTINEL.to_string())));
    assert!(!is_internal(Some(&"other".to_string())));
    assert!(!is_internal(None));
}

#[test]
fn read_only_editors_copy_but_do_not_cut() {
    let selected = Selection::Range { anchor: 0, head: 1 };
    assert!(perform(EditorCommand::Copy, true));
    assert!(!perform(EditorCommand::Cut, true));
    assert!(!perform(EditorCommand::Paste, true));
    assert!(can_perform(EditorCommand::Copy, true, selected, None));
    assert!(!can_perform(EditorCommand::Cut, true, selected, None));
    assert!(!can_perform(EditorCommand::Copy, false, Selection::Cursor(0), None));
    assert!(can_perform(EditorCommand::Paste, false, Selection::Cursor(0), Some("x")));
    assert!(!can_perform(EditorCommand::Paste, false, Selection::Cursor(0), Some("")));
    assert!(can_perform(EditorCommand::SelectAll, true, Selection::Cursor(0), None));
}

#[test]
fn the_enter_key_reports_breaks_or_splits() {
    assert_eq!(
        enter(Enter { secondary: true, shift: true }),
        EnterOutcome::Report { shift: true }
    );
    assert_eq!(
        enter(Enter { secondary: false, shift: true }),
        EnterOutcome::Edit(EditorEvent::InsertLineBreak)
    );
    assert_eq!(
        enter(Enter { secondary: false, shift: false }),
        EnterOutcome::Edit(EditorEvent::InsertNewline)
    );
}

// ---- history ----

#[test]
fn typing_a_character_is_coalescible() {
    assert_eq!(coalescible_type_end(&at("ab", 1), &at("axb", 2)), Some(2));
    assert_eq!(coalescible_type_end(&at("ab", 1), &at("aéb", 3)), Some(3));
    assert_eq!(coalescible_type_end(&at("ab", 1), &at("a b", 2)), None);
    assert_eq!(coalescible_type_end(&at("ab", 1), &at("axyb", 3)), None);
    assert_eq!(coalescible_type_end(&at("ab", 1), &at("b", 0)), None);
    let selected = state("ab", Selection::Range { anchor: 0, head: 1 });
    assert_eq!(coalescible_type_end(&selected, &at("xb", 1)), None);
}

#[test]
fn a_typed_word_is_undone_at_once() {
    let mut history = History::new();
    let mut now = at("", 0);
    for (text, cursor) in [("h", 1), ("hi", 2)] {
        let next = at(text, cursor);
        history.record(now, &next);
        now = next;
    }
    assert!(history.undo(&mut now));
    assert_eq!(now, at("", 0));
    assert!(!history.undo(&mut now));
    assert!(history.redo(&mut now));
    assert_eq!(now, at("hi", 2));
    assert!(!history.redo(&mut now));
}

#[test]
fn other_edits_are_undone_one_by_one() {
    let mut history = History::new();
    let mut now = at("ab", 2);
    let next = at("a", 1);
    history.record(now, &next);
    now = next;
    let next = at("", 0);
    history.record(now, &next);
    now = next;
    assert!(history.undo(&mut now));
    assert_eq!(now, at("a", 1));
    assert!(history.undo(&mut now));
    assert_eq!(now, at("ab", 2));
    let fresh = at("abc ", 4);
    history.record(now, &fresh);
    now = fresh;
    assert!(!history.redo(&mut now));
}

#[test]
fn the_oldest_states_are_forgotten() {
    let mut history = History::new();
    let mut now = at("", 0);
    for n in 0..MAX_HISTORY + 10 {
        let next = at(&" ".repeat(n + 1), n + 1);
        history.record(now, &next);
        now = next;
    }
    let mut steps = 0;
    while history.undo(&mut now) {
        steps += 1;
    }
    assert_eq!(steps, MAX_HISTORY);
    assert_eq!(now.markdown.len(), 10);
}

// ---- sessions ----

#[test]
fn aiming_selects_without_an_event() {
    let mut editor = MarkdownEditorState::with_state(at("abcd", 0));
    editor.aim(Selection::range(1, 3));
    assert_eq!(editor.selection(), Selection::range(1, 3));
    assert_eq!(editor.settle(at("ad", 1)), Some(MarkdownEditorEvent::Change));
    editor.undo();
    assert_eq!(editor.value(), "abcd");
    assert_eq!(editor.selection(), Selection::range(1, 3));
}

#[test]
fn a_move_ends_the_typing_before_it() {
    let mut editor = MarkdownEditorState::new();
    for (text, caret) in [("a", 1), ("ab", 2), ("ab", 1), ("ab", 2), ("abc", 3), ("abcd", 4)] {
        editor.settle(at(text, caret));
    }
    editor.undo();
    assert_eq!(editor.value(), "ab");
    editor.undo();
    assert_eq!(editor.value(), "");
    assert_eq!(editor.undo(), None);
}

#[test]
fn a_session_tells_what_changed() {
    let mut editor = MarkdownEditorState::new();
    assert!(editor.is_empty());
    assert_eq!(editor.settle(at("a", 1)), Some(MarkdownEditorEvent::Change));
    assert_eq!(editor.settle(at("a", 0)), Some(MarkdownEditorEvent::SelectionChanged));
    assert_eq!(editor.settle(at("a", 0)), None);
    assert_eq!(editor.value(), "a");
    assert_eq!(editor.cursor_offset(), 0);
    assert_eq!(editor.undo(), Some(MarkdownEditorEvent::Change));
    assert_eq!(editor.value(), "");
    assert_eq!(editor.redo(), Some(MarkdownEditorEvent::Change));
    assert_eq!(editor.value(), "a");
    assert_eq!(editor.redo(), None);
}

#[test]
fn replacing_the_text_is_no_edit_to_undo() {
    let mut editor = MarkdownEditorState::new().default_value("one".to_string());
    editor.settle(at("two", 0));
    assert_eq!(editor.set_value("three".to_string()), MarkdownEditorEvent::Change);
    assert_eq!(editor.undo(), None);
    assert_eq!(editor.value(), "three");
    editor.clear();
    assert_eq!(editor.value(), "");
}

#[test]
fn blank_text_is_empty() {
    let editor = MarkdownEditorState::new().default_value(" \n\u{a0}\t".to_string());
    assert!(editor.is_empty());
    let editor = MarkdownEditorState::new().default_value(" \n.".to_string());
    assert!(!editor.is_empty());
}

#[test]
fn composing_marks_the_text_until_the_next_event() {
    let mut editor = MarkdownEditorState::with_state(at("ab", 1));
    assert_eq!(
        editor.replace_and_mark_text_in_range(&None, "ka", &None),
        Some(MarkdownEditorEvent::Change)
    );
    assert_eq!(editor.value(), "akab");
    assert_eq!(editor.marked_range(), Some(1..3));
    assert_eq!(editor.cursor_offset(), 3);
    editor.replace_and_mark_text_in_range(&None, "か", &None);
    assert_eq!(editor.value(), "aかb");
    assert_eq!(editor.marked_range(), Some(1..4));
    assert_eq!(
        editor.replace_text_in_range(&None, "火".to_string()),
        vec![
            EditorEvent::SetSelection(Selection::Range { anchor: 1, head: 4 }),
            EditorEvent::InsertText("火".to_string()),
        ]
    );
    editor.settle(at("a火b", 4));
    assert!(!editor.is_composing());
}

#[test]
fn read_only_sessions_refuse_input() {
    let mut editor = MarkdownEditorState::with_state(at("ab", 1));
    editor.set_disabled(true);
    assert_eq!(editor.replace_and_mark_text_in_range(&None, "x", &None), None);
    assert_eq!(editor.value(), "ab");
    assert_eq!(editor.append_at_end("x".to_string()), vec![]);
    assert_eq!(editor.replace_text_in_range(&None, "x".to_string()), vec![]);
}

#[test]
fn text_is_appended_at_the_end() {
    let editor = MarkdownEditorState::with_state(at("aé", 0));
    assert_eq!(
        editor.append_at_end("x".to_string()),
        vec![
            EditorEvent::SetSelection(Selection::Cursor(3)),
            EditorEvent::InsertText("x".to_string()),
        ]
    );
}

#[test]
fn vertical_moves_keep_their_column() {
    let mut editor = MarkdownEditorState::with_state(at("ab\ncd", 1));
    let event = editor.settle_vertical(at("ab\ncd", 4), Some((17, WrapAffinity::Upstream)));
    assert_eq!(event, Some(MarkdownEditorEvent::SelectionChanged));
    assert_eq!(editor.intended_x(), Some(17));
    assert!(!editor.caret_downstream());
    assert_eq!(editor.settle_vertical(at("ab\ncd", 0), None), None);
    assert_eq!(editor.intended_x(), None);
    assert!(editor.caret_downstream());
    let event = editor.settle_line_bound(at("ab\ncd", 2), true, true);
    assert_eq!(event, Some(MarkdownEditorEvent::SelectionChanged));
    assert!(!editor.caret_downstream());
    assert_eq!(editor.settle_line_bound(at("ab\ncd", 0), false, false), None);
    assert!(editor.caret_downstream());
    assert_eq!(editor.undo(), None);
}

#[test]
fn a_click_on_a_highlight_is_told_unless_it_selects() {
    let mut editor = MarkdownEditorState::with_state(at("abcd", 0));
    editor.press_highlight(2, 1, false, true);
    let event = editor.begin_selection(2, 1, false);
    assert_eq!(event, EditorEvent::SetSelection(Selection::Cursor(2)));
    assert!(editor.is_selecting());
    editor.settle(at("abcd", 2));
    assert_eq!(editor.release(), Some(2));
    assert!(!editor.is_selecting());
    assert_eq!(editor.release(), None);

    editor.press_highlight(2, 1, false, true);
    editor.begin_selection(2, 1, false);
    assert_eq!(
        editor.drag_extend_to(4),
        Some(EditorEvent::SetSelection(Selection::Range { anchor: 2, head: 4 }))
    );
    editor.settle(state("abcd", Selection::Range { anchor: 2, head: 4 }));
    assert_eq!(editor.release(), None);
    assert_eq!(editor.drag_extend_to(1), None);
    editor.press_highlight(2, 2, false, true);
    editor.settle(at("abcd", 2));
    assert_eq!(editor.release(), None);
}

#[test]
fn new_embeds_push_the_caret_out() {
    let mut editor = MarkdownEditorState::with_state(at("a\n\n{{ embed 1 }}\n\nb", 5));
    editor.set_embeds(vec![(1, "content".to_string())]);
    assert_eq!(editor.selection(), Selection::Cursor(3));
    assert_eq!(editor.embeds().get(1), Some("content"));
    let mut editor = MarkdownEditorState::with_state(at("a\n\n{{ embed 1 }}\n\nb", 5));
    editor.set_embeds(vec![(2, "content".to_string())]);
    assert_eq!(editor.selection(), Selection::Cursor(5));
    editor.unmark_text();
    assert_eq!(editor.state().markdown, "a\n\n{{ embed 1 }}\n\nb");
}

// ---- composing and units ----

#[test]
fn composed_text_replaces_the_range() {
    let done = replace_and_mark("hello", &(1..4), "é", &None);
    assert_eq!(done.markdown, "héo");
    assert_eq!(done.marked, Some(1..3));
    assert_eq!(done.cursor, 3);
    let done = replace_and_mark("hello", &(1..4), "", &None);
    assert_eq!(done.markdown, "ho");
    assert_eq!(done.marked, None);
    assert_eq!(done.cursor, 1);
    let done = replace_and_mark("hello", &(1..4), "ab", &Some(0..1));
    assert_eq!(done.cursor, 2);
}

#[test]
fn units_count_surrogates_twice() {
    let text = "a😀b";
    assert_eq!(offset_to_utf16(text, 1), 1);
    assert_eq!(offset_to_utf16(text, 5), 3);
    assert_eq!(offset_from_utf16(text, 3), 5);
    assert_eq!(offset_from_utf16(text, 2), 5);
    assert_eq!(range_to_utf16(text, &(1..6)), 1..4);
    assert_eq!(range_from_utf16(text, &(1..4)), 1..6);
    assert_eq!(offset_from_utf16(text, 99), 6);
}

#[test]
fn a_drag_whose_release_was_not_seen_ends() {
    let mut editor = MarkdownEditorState::new().default_value("one two".to_string());
    editor.press_highlight(2, 1, false, true);
    editor.begin_selection(2, 1, false);
    assert!(editor.is_selecting());
    editor.end_drag();
    assert!(!editor.is_selecting());
    assert_eq!(editor.drag_extend_to(5), None);
}

// ---- embeds ----

#[test]
fn a_placed_marker_gets_the_blank_lines_it_lacks() {
    let (selection, text) = insert_embed_marker("before after", Selection::Cursor(7), 3);
    assert_eq!(selection, Selection::Range { anchor: 6, head: 7 });
    assert_eq!(text, "\n\n{{ embed 3 }}\n\n");
    let (selection, text) = insert_embed_marker("", Selection::Cursor(0), 0);
    assert_eq!(selection, Selection::Cursor(0));
    assert_eq!(text, "{{ embed 0 }}");
    let (_, text) = insert_embed_marker("a\n\nb", Selection::Cursor(3), 1);
    assert_eq!(text, "{{ embed 1 }}\n\n");
    let (_, text) = insert_embed_marker("a\nb", Selection::Cursor(2), 1);
    assert_eq!(text, "\n{{ embed 1 }}\n\n");
}

#[test]
fn removing_a_marker_joins_its_neighbours() {
    let embeds = EmbedMap::new(vec![(1, "x".to_string())]);
    let text = "a\n\n{{ embed 1 }}\n\nb";
    assert_eq!(remove_embed_marker(text, &embeds, 1), Some(3..18));
    assert_eq!(remove_embed_marker(text, &embeds, 2), None);
    let text = "a\n\n{{ embed 1 }}";
    assert_eq!(remove_embed_marker(text, &embeds, 1), Some(1..16));
    assert_eq!(separator_range(b"a\n\nX", &(3..4)), 1..4);
}

#[test]
fn positions_inside_of_an_embed_are_left() {
    let embeds = EmbedMap::new(vec![(1, "x".to_string())]);
    let text = "a\n\n{{ embed 1 }}\n\nb";
    assert_eq!(nearest_allowed_position_with(text, &embeds, 4), 3);
    assert_eq!(nearest_allowed_position_with(text, &embeds, 15), 16);
    assert_eq!(nearest_allowed_position_with(text, &EmbedMap::default(), 4), 4);
    let selection = Selection::Range { anchor: 5, head: 6 };
    assert_eq!(snap_selection(text, &embeds, selection), Selection::Cursor(3));
}

// ---- motion and layout ----

#[test]
fn extending_leaves_a_caret_where_the_ends_meet() {
    let selection = Selection::Range { anchor: 3, head: 5 };
    assert_eq!(move_head(selection, 7, true), Selection::Range { anchor: 3, head: 7 });
    assert_eq!(move_head(selection, 3, true), Selection::Cursor(3));
    assert_eq!(move_head(selection, 7, false), Selection::Cursor(7));
    assert_eq!(line_bound_affinity(true), WrapAffinity::Upstream);
    assert_eq!(line_bound_affinity(false), WrapAffinity::Downstream);
    assert_eq!(landing_affinity(0, 1), WrapAffinity::Downstream);
    assert_eq!(landing_affinity(1, 1), WrapAffinity::Upstream);
}

fn row(source: std::ops::Range<usize>, left: i64, top: i64, width: u32, rows: u32) -> LineBox {
    LineBox { source, left, top, width, height: rows * 20, rows }
}

#[test]
fn vertical_moves_pick_the_nearest_line() {
    let lines = [
        row(0..10, 0, 0, 100, 2),
        row(12..15, 0, 50, 30, 1),
        row(16..20, 60, 50, 40, 1),
        row(22..30, 0, 80, 100, 1),
    ];
    assert_eq!(move_vertically(&lines, 0, 0, 20, true, 5), Some((0, 1)));
    assert_eq!(move_vertically(&lines, 0, 1, 20, true, 5), Some((1, 0)));
    assert_eq!(move_vertically(&lines, 0, 1, 20, true, 70), Some((2, 0)));
    assert_eq!(move_vertically(&lines, 1, 0, 20, false, 5), Some((0, 1)));
    assert_eq!(move_vertically(&lines, 0, 0, 20, false, 5), None);
    assert_eq!(move_vertically(&lines, 3, 0, 20, true, 5), None);
}

#[test]
fn positions_are_found_on_their_lines() {
    let lines = [row(0..4, 0, 0, 40, 1), row(5..9, 0, 20, 40, 1)];
    assert_eq!(find_line(&lines, 4), Some(0));
    assert_eq!(find_line(&lines, 5), Some(1));
    assert_eq!(find_line(&lines, 12), None);
    assert_eq!(line_for_offset(&lines, 12), Some(1));
    assert!(lines[0].contains_source_offset(0));
    assert!(!lines[1].contains_source_offset(10));
}

#[test]
fn points_hit_the_line_they_are_level_with() {
    let lines = [
        row(0..4, 0, 10, 40, 1),
        row(5..9, 50, 10, 40, 1),
        row(10..20, 0, 40, 90, 1),
    ];
    assert_eq!(offset_for_position(&lines, 0, 5, 1), Hit::DocumentStart);
    assert_eq!(offset_for_position(&lines, 0, 60, 1), Hit::DocumentEnd);
    assert_eq!(offset_for_position(&lines, 10, 15, 1), Hit::Line { index: 0, y: 5 });
    assert_eq!(offset_for_position(&lines, 48, 15, 1), Hit::Line { index: 1, y: 5 });
    assert_eq!(offset_for_position(&lines, 10, 32, 1), Hit::Line { index: 0, y: 19 });
    assert_eq!(offset_for_position(&lines, 10, 38, 1), Hit::Line { index: 2, y: 0 });
    assert_eq!(offset_for_position(&lines, 10, 32, 4), Hit::Line { index: 0, y: 16 });
    assert_eq!(offset_for_position(&[], 0, 0, 1), Hit::DocumentStart);
}
