//! Embed markers and blocks.

use gpui_markdown_editor::embed::{
    embed_blocks, embed_ending_at, embed_interior_at, embed_marker, embed_starting_at,
    parse_embed_text, EmbedMap,
};
use gpui_markdown_editor::parser::parse;

fn map(ordinals: &[u64]) -> EmbedMap {
    EmbedMap::new(ordinals.iter().map(|&n| (n, format!("content {n}"))).collect())
}

#[test]
fn parse_embed_text_lexical_rules() {
    assert_eq!(parse_embed_text("{{ embed 0 }}"), Some(0));
    assert_eq!(parse_embed_text("{{embed 12}}"), Some(12));
    assert_eq!(parse_embed_text("{{\tembed\t7\t}}"), Some(7));
    assert_eq!(parse_embed_text("  {{ embed 3 }}  "), Some(3));
    assert_eq!(parse_embed_text("{{ embed 007 }}"), Some(7));
    assert_eq!(parse_embed_text("{{ embed0 }}"), None);
    assert_eq!(parse_embed_text("{{ embed -1 }}"), None);
    assert_eq!(parse_embed_text("{{ embed +1 }}"), None);
    assert_eq!(parse_embed_text("{{ embed 0x1 }}"), None);
    assert_eq!(parse_embed_text("{{ embed }}"), None);
    assert_eq!(parse_embed_text("{ embed 0 }"), None);
    assert_eq!(parse_embed_text("{{ embed 0 }} tail"), None);
    assert_eq!(parse_embed_text("x {{ embed 0 }}"), None);
    assert_eq!(parse_embed_text("\\{{ embed 0 }}"), None);
}

#[test]
fn canonical_marker_round_trips() {
    assert_eq!(embed_marker(4), "{{ embed 4 }}");
    assert_eq!(parse_embed_text(&embed_marker(4)), Some(4));
}

#[test]
fn embed_blocks_finds_sole_paragraph_mapped_markers() {
    let src = "before\n\n{{ embed 1 }}\n\nafter";
    let blocks = embed_blocks(src, &map(&[1]));
    assert_eq!(blocks.len(), 1);
    assert_eq!(blocks[0].ordinal, 1);
    assert_eq!(&src[blocks[0].range.clone()], "{{ embed 1 }}");
}

#[test]
fn unmapped_inline_nested_and_escaped_markers_are_plain_text() {
    let m = map(&[1]);
    // Unmapped ordinal.
    assert!(embed_blocks("{{ embed 9 }}", &m).is_empty());
    // Inline occurrence (not the sole paragraph content).
    assert!(embed_blocks("see {{ embed 1 }} here", &m).is_empty());
    // Inside a blockquote / list (v1: top-level only).
    assert!(embed_blocks("> {{ embed 1 }}", &m).is_empty());
    assert!(embed_blocks("- {{ embed 1 }}", &m).is_empty());
    // Inside a fenced code block.
    assert!(embed_blocks("```\n{{ embed 1 }}\n```", &m).is_empty());
    // Escaped opener — renders as literal braces, never a block.
    assert!(embed_blocks("\\{{ embed 1 }}", &m).is_empty());
    // Empty map disables everything.
    assert!(embed_blocks("{{ embed 1 }}", &EmbedMap::default()).is_empty());
}

#[test]
fn interior_and_edge_queries() {
    let src = "a\n\n{{ embed 1 }}\n\nb";
    let m = map(&[1]);
    let block = &embed_blocks(src, &m)[0];
    let (start, end) = (block.range.start, block.range.end);
    assert!(embed_interior_at(src, &m, start).is_none());
    assert!(embed_interior_at(src, &m, start + 1).is_some());
    assert!(embed_interior_at(src, &m, end - 1).is_some());
    assert!(embed_interior_at(src, &m, end).is_none());
    assert_eq!(embed_ending_at(src, &m, end).as_ref(), Some(block));
    assert_eq!(embed_starting_at(src, &m, start).as_ref(), Some(block));
    assert!(embed_ending_at(src, &m, start).is_none());
    assert!(embed_starting_at(src, &m, end).is_none());
}

#[test]
fn top_level_blocks_come_in_order() {
    for src in [
        "{{ embed 1 }}\n\n> a\nb\n\n{{ embed 2 }}",
        "- a\n\n{{ embed 1 }}\n- b\n***\n{{ embed 2 }}\n",
        "<div>\n\t- a\n</div>\n\n{{ embed 1 }}\n\n# h\n{{ embed 2 }}",
        "| a |\n|---|\n| b |\n\n{{ embed 1 }}\n\n$$\nx\n$$\n\n{{ embed 2 }}",
        "é\n===\n```\n{{ embed 1 }}\n```\n    code\n\n{{ embed 1 }}\n\n{{ embed 2 }}",
        "[r]: /u\n- [ ] t\n\n      x\n\n{{ embed 1 }}\n\n1. y\n\n{{ embed 2 }}",
    ] {
        let tree = parse(src);
        assert!(tree.len() > 1);
        for pair in tree.windows(2) {
            assert!(pair[0].range.end <= pair[1].range.start, "{src:?}");
        }
        let m = map(&[1, 2]);
        let blocks = embed_blocks(src, &m);
        assert_eq!(blocks.len(), 2, "{src:?}");
        for block in &blocks {
            for p in block.range.start + 1..block.range.end {
                assert_eq!(embed_interior_at(src, &m, p).unwrap().range, block.range);
            }
            assert!(embed_interior_at(src, &m, block.range.start).is_none());
            assert!(embed_interior_at(src, &m, block.range.end).is_none());
            assert_eq!(embed_starting_at(src, &m, block.range.start).unwrap().range, block.range);
            assert_eq!(embed_ending_at(src, &m, block.range.end).unwrap().range, block.range);
        }
    }
}
