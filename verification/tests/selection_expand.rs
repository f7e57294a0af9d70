use bevy_instanced_text::expand::{is_boundary, DEFAULT_SEMANTIC_ESCAPE_CHARS};
use bevy_instanced_text::selection::{Selection, SelectionMode};
use bevy_instanced_text::text::TextSpan;

#[test]
fn semantic_expansion_grabs_word() {
    let content = String::from("hello world foo");
    let mut sel = Selection::cursor(7); // inside "world"
    sel.expand_semantic(&content, DEFAULT_SEMANTIC_ESCAPE_CHARS);
    assert_eq!(sel.range(), (6, 11));
    assert_eq!(sel.mode, SelectionMode::Semantic);
}

#[test]
fn line_expansion_includes_newline() {
    let content = String::from("first\nsecond\nthird\n");
    let mut sel = Selection::cursor(8); // inside "second"
    sel.expand_to_lines(&content);
    // "second\n" is chars 6..13
    assert_eq!(sel.range(), (6, 13));
    assert_eq!(sel.mode, SelectionMode::Line);
}

#[test]
fn semantic_does_not_cross_brackets() {
    let content = String::from("foo.bar(baz)");
    let mut sel = Selection::cursor(9); // inside "baz"
    sel.expand_semantic(&content, DEFAULT_SEMANTIC_ESCAPE_CHARS);
    assert_eq!(sel.range(), (8, 11));
}

#[test]
fn semantic_keeps_dotted_identifier() {
    let content = String::from("foo.bar baz");
    let mut sel = Selection::cursor(2);
    sel.expand_semantic(&content, DEFAULT_SEMANTIC_ESCAPE_CHARS);
    assert_eq!(sel.range(), (0, 7));
}

#[test]
fn semantic_expansion_keeps_direction_of_reversed_selection() {
    let content = TextSpan::new("alpha beta gamma");
    // head before anchor: reversed
    let mut sel = Selection::new(7, 8);
    assert!(sel.is_reversed());
    sel.expand_semantic(&content, DEFAULT_SEMANTIC_ESCAPE_CHARS);
    assert_eq!(sel.head_offset(), 6);
    assert_eq!(sel.anchor_offset(), 10);
    assert!(sel.is_reversed());
}

#[test]
fn semantic_expansion_on_empty_content_is_unchanged() {
    let content = TextSpan::new("");
    let mut sel = Selection::cursor(0);
    sel.expand_semantic(&content, DEFAULT_SEMANTIC_ESCAPE_CHARS);
    assert_eq!(sel.range(), (0, 0));
    assert_eq!(sel.mode, SelectionMode::Simple);
}

#[test]
fn semantic_expansion_past_the_end_walks_back_from_the_offset() {
    // The start walks back one step per word character before the clamped
    // offset, counting from the given offset; the end clamps to the text.
    let content = TextSpan::new("word");
    let mut sel = Selection::cursor(9);
    sel.expand_semantic(&content, DEFAULT_SEMANTIC_ESCAPE_CHARS);
    assert_eq!(sel.head_offset(), 4);
    assert_eq!(sel.anchor_offset(), 5);
}

#[test]
fn semantic_expansion_stops_at_box_drawing_bar() {
    let content = TextSpan::new("ab\u{2502}cd");
    let mut sel = Selection::cursor(4);
    sel.expand_semantic(&content, DEFAULT_SEMANTIC_ESCAPE_CHARS);
    assert_eq!(sel.range(), (3, 5));
}

#[test]
fn line_expansion_of_last_line_without_newline() {
    let content = TextSpan::new("one\ntwo");
    let mut sel = Selection::cursor(5);
    sel.expand_to_lines(&content);
    assert_eq!(sel.range(), (4, 7));
}

#[test]
fn line_expansion_spans_several_lines() {
    let content = TextSpan::new("a\nbb\nccc\n");
    let mut sel = Selection::new(6, 3);
    sel.expand_to_lines(&content);
    assert_eq!(sel.range(), (2, 9));
}

#[test]
fn boundary_characters() {
    assert!(is_boundary(' ', DEFAULT_SEMANTIC_ESCAPE_CHARS));
    assert!(is_boundary('\n', ""));
    assert!(is_boundary('(', DEFAULT_SEMANTIC_ESCAPE_CHARS));
    assert!(is_boundary('\u{2502}', DEFAULT_SEMANTIC_ESCAPE_CHARS));
    assert!(!is_boundary('.', DEFAULT_SEMANTIC_ESCAPE_CHARS));
    assert!(!is_boundary('x', DEFAULT_SEMANTIC_ESCAPE_CHARS));
    assert!(!is_boundary('(', ""));
}

#[test]
fn boundaries_are_unicode_white_space() {
    for c in ['\t', '\n', '\u{0B}', '\u{0C}', '\r', ' ', '\u{85}', '\u{A0}', '\u{1680}', '\u{2000}', '\u{200A}', '\u{2028}', '\u{2029}', '\u{202F}', '\u{205F}', '\u{3000}'] {
        assert!(is_boundary(c, ""), "{:?}", c);
    }
    for c in ['a', '\u{200B}', '\u{180E}', '\u{FEFF}', '\u{1F600}'] {
        assert!(!is_boundary(c, ""), "{:?}", c);
    }
}
