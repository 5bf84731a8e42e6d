//! Toggling bold and italic.

use gpui_markdown_editor::embed::{embed_blocks, EmbedMap};
use gpui_markdown_editor::formatting::{style_at, toggle, InlineFormat};
use gpui_markdown_editor::parser::parse;
use gpui_markdown_editor::state::{EditorState, Selection};

fn apply(markdown: &str, selection: Selection, format: InlineFormat) -> EditorState {
    toggle(
        EditorState {
            markdown: markdown.into(),
            selection,
            ..Default::default()
        },
        format,
    )
}

#[test]
fn collapsed_caret_toggles_the_word_and_stays_collapsed() {
    let state = apply("one two", Selection::Cursor(5), InlineFormat::Strong);
    assert_eq!(state.markdown, "one **two**");
    assert_eq!(state.selection, Selection::Cursor(7));
}

#[test]
fn whole_and_partial_target_spans_are_removed_semantically() {
    let whole = apply("**one two**", Selection::range(0, 11), InlineFormat::Strong);
    assert_eq!(whole.markdown, "one two");

    let middle = apply("**abcdef**", Selection::range(4, 6), InlineFormat::Strong);
    assert_eq!(middle.markdown, "**ab**cd**ef**");
}

#[test]
fn mixed_selection_extends_and_merges_the_existing_style() {
    let state = apply("**abc** def", Selection::range(3, 11), InlineFormat::Strong);
    assert_eq!(state.markdown, "**abc def**");
}

fn apply_marked(markdown: &str, format: InlineFormat) -> EditorState {
    let start = markdown.find('⟦').expect("selection start");
    let end = markdown.find('⟧').expect("selection end");
    let mut plain = markdown.to_string();
    plain.remove(end);
    plain.remove(start);
    apply(
        &plain,
        Selection::range(start, end - '⟦'.len_utf8()),
        format,
    )
}

#[test]
fn opposite_inline_style_is_preserved_and_forms_its_own_context() {
    let state = apply("*one* two", Selection::range(0, 9), InlineFormat::Strong);
    assert_eq!(state.markdown, "***one*** **two**");
    let tree = parse(&state.markdown);
    assert!(style_at(&tree, 3, InlineFormat::Strong, false));
    assert!(style_at(&tree, 3, InlineFormat::Emphasis, false));
}

#[test]
fn applying_italic_splits_at_a_strong_boundary() {
    let state = apply_marked(
        "Alpha **bravo ⟦charlie** delta⟧ echo.",
        InlineFormat::Emphasis,
    );
    assert_eq!(state.markdown, "Alpha **bravo *charlie*** *delta* echo.");
}

#[test]
fn applying_strong_splits_at_an_emphasis_boundary() {
    let state = apply_marked("Alpha *bravo ⟦charlie* delta⟧ echo.", InlineFormat::Strong);
    assert_eq!(state.markdown, "Alpha *bravo **charlie*** **delta** echo.");
}

#[test]
fn partial_removal_preserves_the_opposite_style_without_crossing_it() {
    let state = apply_marked("*alpha **⟦bravo⟧** charlie*", InlineFormat::Emphasis);
    assert_eq!(state.markdown, "*alpha* **bravo** *charlie*");
}

#[test]
fn block_boundaries_are_split_without_touching_their_chrome() {
    let markdown = "# head\n\n- one\n- two\n\n| a | b |\n| --- | --- |\n| c | d |";
    let state = apply(
        markdown,
        Selection::range(0, markdown.len()),
        InlineFormat::Strong,
    );
    assert_eq!(
        state.markdown,
        "# **head**\n\n- **one**\n- **two**\n\n| **a** | **b** |\n| --- | --- |\n| **c** | **d** |"
    );
}

#[test]
fn links_keep_formatting_inside_their_text_context() {
    let markdown = "[one](https://example.test) two";
    let state = apply(
        markdown,
        Selection::range(0, markdown.len()),
        InlineFormat::Strong,
    );
    assert_eq!(state.markdown, "[**one**](https://example.test) **two**");
}

#[test]
fn a_selection_leaving_a_link_splits_at_the_link_boundary() {
    let state = apply_marked(
        "Alpha [bravo ⟦charlie](https://example.test) delta⟧ echo.",
        InlineFormat::Strong,
    );
    assert_eq!(
        state.markdown,
        "Alpha [bravo **charlie**](https://example.test) **delta** echo."
    );
}

#[test]
fn nested_link_and_strong_contexts_split_independently() {
    let state = apply_marked(
        "[**bravo ⟦charlie** delta](https://example.test) echo⟧",
        InlineFormat::Emphasis,
    );
    assert_eq!(
        state.markdown,
        "[**bravo *charlie*** *delta*](https://example.test) *echo*"
    );
}

#[test]
fn strikethrough_is_an_inline_boundary_too() {
    let state = apply_marked("~~alpha ⟦bravo~~ charlie⟧", InlineFormat::Emphasis);
    assert_eq!(state.markdown, "~~alpha *bravo*~~ *charlie*");
}

#[test]
fn removing_an_outer_style_from_link_text_keeps_the_link_intact() {
    let state = apply_marked(
        "*alpha [⟦bravo⟧](https://example.test) charlie*",
        InlineFormat::Emphasis,
    );
    assert_eq!(
        state.markdown,
        "*alpha* [bravo](https://example.test) *charlie*"
    );
}

#[test]
fn opaque_inline_atoms_are_only_formatted_as_whole_constructs() {
    let partial = apply("`code`", Selection::range(2, 4), InlineFormat::Strong);
    assert_eq!(partial.markdown, "`code`");

    let whole = apply("`code`", Selection::range(0, 6), InlineFormat::Strong);
    assert_eq!(whole.markdown, "**`code`**");
}

#[test]
fn fences_and_display_math_are_inert_while_surrounding_prose_formats() {
    let markdown = "before\n\n```\ncode\n```\n\n$$\nmath\n$$\n\nafter";
    let state = apply(
        markdown,
        Selection::range(0, markdown.len()),
        InlineFormat::Emphasis,
    );
    assert_eq!(
        state.markdown,
        "*before*\n\n```\ncode\n```\n\n$$\nmath\n$$\n\n*after*"
    );
}

#[test]
fn removing_format_that_would_create_a_list_is_refused() {
    let state = apply("**- item**", Selection::range(0, 10), InlineFormat::Strong);
    assert_eq!(state.markdown, "**- item**");
}

#[test]
fn partial_removal_rejects_ambiguous_delimiters_that_change_unselected_style() {
    let state = apply_marked("***a⟦b⟧c***", InlineFormat::Strong);
    assert_eq!(state.markdown, "***abc***");
}

#[test]
fn whitespace_between_styled_spans_does_not_vote_against_removal() {
    let markdown = "**abc** **def**";
    let state = apply(
        markdown,
        Selection::range(0, markdown.len()),
        InlineFormat::Strong,
    );
    assert_eq!(state.markdown, "abc def");
}

#[test]
fn removing_format_cannot_materialize_task_list_syntax() {
    for markdown in ["- **[ ] foo**", "- **[x] foo**"] {
        let state = apply(
            markdown,
            Selection::range(0, markdown.len()),
            InlineFormat::Strong,
        );
        assert_eq!(state.markdown, markdown);
    }
}

#[test]
fn removing_format_cannot_materialize_a_mapped_embed() {
    let markdown = "**{{ embed 1 }}**";
    let state = toggle(
        EditorState {
            markdown: markdown.into(),
            selection: Selection::range(0, markdown.len()),
            embeds: EmbedMap::new(vec![(1, "embedded content".into())]),
        },
        InlineFormat::Strong,
    );
    assert_eq!(state.markdown, markdown);
    assert!(embed_blocks(&state.markdown, &state.embeds).is_empty());
}

#[test]
fn post_format_canonicalization_cannot_materialize_a_list() {
    for markdown in ["**-foo**", "**+foo**"] {
        let state = apply(
            markdown,
            Selection::range(0, markdown.len()),
            InlineFormat::Strong,
        );
        assert_eq!(state.markdown, markdown);
    }
}

#[test]
fn resolved_spans_are_atomic_formatting_units() {
    let caret = apply("&amp;", Selection::Cursor(2), InlineFormat::Strong);
    assert_eq!(caret.markdown, "**&amp;**");

    let whole = apply("&#38;", Selection::range(0, 5), InlineFormat::Emphasis);
    assert_eq!(whole.markdown, "*&#38;*");

    let escaped = apply(r"\#", Selection::Cursor(1), InlineFormat::Strong);
    assert_eq!(escaped.markdown, r"\#");

    let partial_escape = apply(r"\#", Selection::range(1, 2), InlineFormat::Strong);
    assert_eq!(partial_escape.markdown, r"\#");

    let partial = apply("&amp;", Selection::range(1, 4), InlineFormat::Strong);
    assert_eq!(partial.markdown, "&amp;");
}

#[test]
fn target_formatting_cannot_materialize_an_opposite_inline_style() {
    let state = apply("~~a~", Selection::range(0, 1), InlineFormat::Strong);
    assert_eq!(state.markdown, "~~a~");
}

#[test]
fn images_are_inert_boundaries_for_inline_formatting() {
    let image = "![alt](url)";
    let standalone = apply(
        image,
        Selection::range(0, image.len()),
        InlineFormat::Strong,
    );
    assert_eq!(standalone.markdown, image);

    let mixed = "before ![alt](url) after";
    let state = apply(
        mixed,
        Selection::range(0, mixed.len()),
        InlineFormat::Strong,
    );
    assert_eq!(state.markdown, "**before** ![alt](url) **after**");
}
