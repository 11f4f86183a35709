use treeprint::glyphs::GlyphSet;
use treeprint::order::str_le;

#[test]
fn name_order_is_codepoint_lexicographic() {
    assert!(str_le("", ""));
    assert!(str_le("", "a"));
    assert!(!str_le("a", ""));
    assert!(str_le("a", "a"));
    assert!(str_le("a", "b"));
    assert!(!str_le("b", "a"));
    assert!(str_le("a", "ab"));
    assert!(!str_le("ab", "a"));
    assert!(str_le("abc", "abd"));
    // Upper case sorts before lower case, as in byte order.
    assert!(str_le("B", "a"));
    // Codepoint order coincides with UTF-8 byte order.
    assert!(str_le("a", "é"));
    assert!(str_le("é", "日"));
}

#[test]
fn glyph_set_selection() {
    let unicode = GlyphSet::select(false);
    assert_eq!(unicode.corner, "└───");
    assert_eq!(unicode.branch, "├───");
    assert_eq!(unicode.blank, "    ");
    assert_eq!(unicode.vertical, "│   ");
    let ascii = GlyphSet::select(true);
    assert_eq!(ascii.corner, "\\---");
    assert_eq!(ascii.branch, "+---");
    assert_eq!(ascii.blank, "    ");
    assert_eq!(ascii.vertical, "|   ");
}
