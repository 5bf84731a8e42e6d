//! Classification and segmentation of East Asian text.

use gpui_markdown_editor::cjk::{cjk_segments, is_cjk_script, is_variation_selector, takes_emphasis_dot, CJK_BLOCKS};

#[test]
fn han_kana_and_hangul_are_cjk_script() {
    for c in ['中', '文', 'あ', 'ア', '한', '々', 'ー'] {
        assert!(is_cjk_script(c), "{c} should be CJK script");
    }
}

#[test]
fn latin_and_latin_punctuation_are_not_cjk_script() {
    for c in ['a', 'Z', '0', ',', '.', ' ', '—', 'é'] {
        assert!(!is_cjk_script(c), "{c} should not be CJK script");
    }
}

#[test]
fn cjk_punctuation_splits_with_the_run_but_takes_no_dot() {
    for c in ['，', '。', '、', '「', '」', '　'] {
        assert!(is_cjk_script(c), "{c} belongs to the CJK sub-run");
        assert!(!takes_emphasis_dot(c), "{c} must not take a dot");
    }
}

#[test]
fn ideographs_and_fullwidth_alphanumerics_take_dots() {
    for c in ['中', 'あ', '한', '１', 'Ａ'] {
        assert!(takes_emphasis_dot(c), "{c} should take a dot");
    }
}

#[test]
fn latin_never_takes_a_dot() {
    for c in ['a', '1', '-'] {
        assert!(!takes_emphasis_dot(c));
    }
}

#[test]
fn block_table_is_sorted_and_non_overlapping() {
    for pair in CJK_BLOCKS.windows(2) {
        assert!(
            pair[0].1 < pair[1].0,
            "blocks must be sorted and disjoint: {:04X?} then {:04X?}",
            pair[0],
            pair[1]
        );
    }
    for (lo, hi) in CJK_BLOCKS.iter() {
        assert!(lo <= hi, "block U+{lo:04X}..U+{hi:04X} is inverted");
    }
}

#[test]
fn block_edges_match_their_ranges() {
    // Both edges of every block answer yes, and the codepoint just
    // outside each edge answers no unless a *different* block claims
    // it. Widening a range into its neighbour trips this.
    let covered = |cp: u32| CJK_BLOCKS.iter().any(|(lo, hi)| (*lo..=*hi).contains(&cp));
    for (lo, hi) in CJK_BLOCKS.iter() {
        for edge in [*lo, *hi] {
            let c = char::from_u32(edge).expect("block edges are scalar values");
            assert!(is_cjk_script(c), "U+{edge:04X} is inside its own block");
        }
        for outside in [lo.checked_sub(1), hi.checked_add(1)].into_iter().flatten() {
            if covered(outside) {
                continue; // an adjacent block owns it
            }
            let Some(c) = char::from_u32(outside) else {
                continue; // surrogate half — never a `char`
            };
            assert!(
                !is_cjk_script(c),
                "U+{outside:04X} sits outside every block but classified as CJK"
            );
        }
    }
}

#[test]
fn hangul_jamo_extended_b_is_cjk() {
    // The Hangul Syllables block ends at U+D7AF, and Hangul Jamo
    // Extended-B starts at U+D7B0.
    for c in ['\u{D7B0}', '\u{D7CB}', '\u{D7FB}', '\u{D7FF}'] {
        assert!(
            is_cjk_script(c),
            "U+{:04X} is Hangul Jamo Extended-B",
            c as u32
        );
    }
    // The jamo are letters, so they take dots like any other CJK word
    // character.
    assert!(takes_emphasis_dot('\u{D7B0}'));
    // Both neighbours of the pair of blocks stay outside.
    assert!(
        is_cjk_script('\u{AC00}'),
        "Hangul Syllables still start at U+AC00"
    );
    assert!(!is_cjk_script('\u{ABFF}'));
}

#[test]
fn kanbun_annotation_marks_are_cjk() {
    // Annotation marks, not word characters: they join the run without
    // taking a dot, as CJK punctuation does.
    for c in ['\u{3190}', '\u{319F}'] {
        assert!(is_cjk_script(c), "U+{:04X} is Kanbun", c as u32);
        assert!(!takes_emphasis_dot(c));
    }
}

#[test]
fn supplementary_plane_kana_is_cjk() {
    for c in ['\u{1AFF0}', '\u{1B000}', '\u{1B132}'] {
        assert!(
            is_cjk_script(c),
            "U+{:04X} is supplementary-plane kana",
            c as u32
        );
        assert!(takes_emphasis_dot(c));
    }
}

#[test]
fn ideographic_symbols_and_punctuation_is_cjk() {
    // Most of it is of the Han script, the iteration marks among them.
    for c in ['\u{16FE0}', '\u{16FE3}', '\u{16FFF}'] {
        assert!(
            is_cjk_script(c),
            "U+{:04X} is Ideographic Symbols and Punctuation",
            c as u32
        );
    }
    // An iteration mark stands for the character it repeats, so it
    // is marked like one; the hook mark is punctuation and is not.
    assert!(
        takes_emphasis_dot('\u{16FE3}'),
        "OLD CHINESE ITERATION MARK"
    );
    assert!(!takes_emphasis_dot('\u{16FE2}'), "OLD CHINESE HOOK MARK");
}

#[test]
fn enclosed_ideographic_supplement_stays_out() {
    // Symbols of the common script, none of them alphanumeric.
    for c in ['\u{1F210}', '\u{1F250}', '\u{1F265}'] {
        assert!(
            !is_cjk_script(c),
            "U+{:04X} is an enclosed symbol",
            c as u32
        );
    }
}

#[test]
fn the_ideograph_extensions_are_listed_block_by_block() {
    for (name, lo, hi) in [
        ("Extension B", 0x20000u32, 0x2A6DFu32),
        ("Extension C", 0x2A700, 0x2B73F),
        ("Extension D", 0x2B740, 0x2B81F),
        ("Extension E", 0x2B820, 0x2CEAF),
        ("Extension F", 0x2CEB0, 0x2EBEF),
        ("Extension I", 0x2EBF0, 0x2EE5F),
        ("Compatibility Ideographs Supplement", 0x2F800, 0x2FA1F),
        ("Extension G", 0x30000, 0x3134F),
        ("Extension H", 0x31350, 0x323AF),
        ("Extension J", 0x323B0, 0x3347F),
    ] {
        for edge in [lo, hi] {
            let c = char::from_u32(edge).expect("scalar value");
            assert!(is_cjk_script(c), "U+{edge:04X} is in CJK {name}");
        }
    }
    // The gaps between the blocks.
    for gap in [0x2A6E0u32, 0x2EE60, 0x2FA20, 0x33480, 0x3FFFF] {
        let c = char::from_u32(gap).expect("scalar value");
        assert!(
            !is_cjk_script(c),
            "U+{gap:04X} belongs to no CJK block and must not classify"
        );
    }
}

#[test]
fn segments_split_a_mixed_run() {
    // "中文 mixed 测试" — two CJK segments around a Latin one.
    let text = "中文 mixed 测试";
    let segs = cjk_segments(text);
    assert_eq!(segs.len(), 2);
    assert_eq!(&text[segs[0].clone()], "中文");
    assert_eq!(&text[segs[1].clone()], "测试");
}

#[test]
fn segments_keep_cjk_punctuation_inside_one_run() {
    let text = "中文，测试";
    let segs = cjk_segments(text);
    assert_eq!(segs.len(), 1);
    assert_eq!(&text[segs[0].clone()], text);
}

#[test]
fn segments_run_through_attached_variation_selectors() {
    // 葛 + VARIATION SELECTOR-17 is one ideographic variation
    // sequence; the selector must not be handed to the italic run.
    let text = "\u{845B}\u{E0100}\u{57CE}";
    let segs = cjk_segments(text);
    assert_eq!(segs.len(), 1);
    assert_eq!(&text[segs[0].clone()], text);

    // The BMP selectors attach the same way.
    let text = "\u{3297}\u{FE0F} latin";
    let segs = cjk_segments(text);
    assert_eq!(&text[segs[0].clone()], "\u{3297}\u{FE0F}");
}

#[test]
fn a_variation_selector_without_a_cjk_base_stays_out() {
    // It modifies whatever precedes it, and nothing here does.
    assert!(cjk_segments("a\u{FE0F}").is_empty());
    assert!(cjk_segments("\u{E0100}").is_empty());
    // A selector separated from the CJK run by a Latin character
    // belongs to that character, not to the run.
    let text = "\u{4E2D}a\u{FE0F}";
    let segs = cjk_segments(text);
    assert_eq!(segs.len(), 1);
    assert_eq!(&text[segs[0].clone()], "\u{4E2D}");
}

#[test]
fn a_variation_selector_takes_no_dot_of_its_own() {
    for c in ['\u{FE00}', '\u{FE0F}', '\u{E0100}', '\u{E01EF}'] {
        assert!(is_variation_selector(c));
        assert!(
            !takes_emphasis_dot(c),
            "U+{:04X} marks nothing of its own",
            c as u32
        );
    }
    assert!(
        !is_variation_selector('\u{FE10}'),
        "Vertical Forms starts here"
    );
}

#[test]
fn pure_latin_has_no_segments() {
    assert!(cjk_segments("plain latin text").is_empty());
}
