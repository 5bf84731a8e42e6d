//! Escapes and character references.

use gpui_markdown_editor::escapes::{scan, ResolvedSpan};

fn scan_all(src: &str) -> Vec<ResolvedSpan> {
    scan(src.as_bytes(), 0..src.len(), &[])
}

#[test]
fn escapes_punctuation() {
    let r = scan_all(r"a\*b");
    assert_eq!(r.len(), 1);
    assert_eq!(r[0].source_range, 1..3);
    assert_eq!(r[0].display, "*");
}

#[test]
fn escape_at_end_of_buffer_is_a_no_op() {
    let r = scan_all("a\\");
    assert!(r.is_empty());
}

#[test]
fn backslash_before_letter_is_literal() {
    let r = scan_all(r"a\nb"); // `\n` is the literal two chars, not an escape
    assert!(r.is_empty());
}

#[test]
fn backslash_before_newline_is_not_an_escape() {
    let r = scan_all("a\\\nb");
    assert!(r.is_empty());
}

#[test]
fn double_backslash_escapes_the_second() {
    // `\\` — first `\` escapes the second; the second `\` is a literal.
    let r = scan_all(r"a\\b");
    assert_eq!(r.len(), 1);
    assert_eq!(r[0].source_range, 1..3);
    assert_eq!(r[0].display, "\\");
}

#[test]
fn entity_amp() {
    let r = scan_all("a&amp;b");
    assert_eq!(r.len(), 1);
    assert_eq!(r[0].source_range, 1..6);
    assert_eq!(r[0].display, "&");
}

#[test]
fn entity_decimal() {
    let r = scan_all("&#169;");
    assert_eq!(r.len(), 1);
    assert_eq!(r[0].source_range, 0..6);
    assert_eq!(r[0].display, "©");
}

#[test]
fn entity_hex_lowercase() {
    let r = scan_all("&#xa9;");
    assert_eq!(r.len(), 1);
    assert_eq!(r[0].display, "©");
}

#[test]
fn entity_hex_uppercase() {
    let r = scan_all("&#XA9;");
    assert_eq!(r.len(), 1);
    assert_eq!(r[0].display, "©");
}

#[test]
fn unknown_named_entity_does_not_match() {
    let r = scan_all("&banana;");
    assert!(r.is_empty());
}

#[test]
fn missing_semicolon_does_not_match() {
    let r = scan_all("&amp");
    assert!(r.is_empty());
}

#[test]
fn null_resolves_to_replacement() {
    let r = scan_all("&#0;");
    assert_eq!(r.len(), 1);
    assert_eq!(r[0].display, "\u{FFFD}");
}

#[test]
fn out_of_range_resolves_to_replacement() {
    // 0x110000 is past the Unicode max. Numeric needs 7 digits decimal
    // or fits in 6 hex.
    let r = scan_all("&#x110000;");
    assert_eq!(r.len(), 1);
    assert!(r.is_empty() || r[0].display == "\u{FFFD}");
}

#[test]
fn skips_verbatim_range() {
    // `\*` inside the verbatim region [0..7) should be skipped; the
    // second `\*` outside is reported.
    let src = r"`\*foo`\*";
    #[allow(clippy::single_range_in_vec_init)]
    let v = vec![0..7usize];
    let r = scan(src.as_bytes(), 0..src.len(), &v);
    assert_eq!(r.len(), 1);
    assert_eq!(r[0].source_range, 7..9);
}

#[test]
fn multi_byte_decoded_entity() {
    let r = scan_all("&mdash;");
    assert_eq!(r.len(), 1);
    assert_eq!(r[0].display, "—");
    assert!(r[0].display.len() > 1); // multi-byte UTF-8 result
}
