use bevy_instanced_text::text::{chars_of, line_and_column, line_body_of, TextContent, TextSpan};

#[test]
fn line_queries_follow_rope_convention() {
    let t = TextSpan::new("ab\ncde\n");
    assert_eq!(t.line_count(), 3);
    assert_eq!(t.char_count(), 7);
    assert_eq!(t.line_to_char(0), 0);
    assert_eq!(t.line_to_char(1), 3);
    assert_eq!(t.line_to_char(2), 7);
    assert_eq!(t.line_to_char(9), 7);
    assert_eq!(t.char_to_line(0), 0);
    assert_eq!(t.char_to_line(3), 1);
    assert_eq!(t.char_to_line(6), 1);
    assert_eq!(t.char_to_line(7), 2);
    assert_eq!(t.char_to_line(100), 2);
    assert_eq!(t.line(0), "ab\n");
    assert_eq!(t.line(1), "cde\n");
    assert_eq!(t.line(2), "");
    assert_eq!(t.line(5), "");
    assert_eq!(t.line_len_chars(1), 3);
    assert_eq!(t.line_len_chars(2), 0);
    assert_eq!(line_body_of(&t, 1), vec!['c', 'd', 'e']);
}

#[test]
fn empty_text_has_one_line() {
    let t = TextSpan::new("");
    assert_eq!(t.line_count(), 1);
    assert_eq!(t.line_to_char(0), 0);
    assert_eq!(t.line(0), "");
}

#[test]
fn slices_clamp_to_the_text() {
    let t = TextSpan::new("héllo wörld");
    assert_eq!(t.slice_chars(1..5), "éllo");
    assert_eq!(t.slice_chars(6..100), "wörld");
    assert_eq!(t.slice_chars(8..3), "");
    assert_eq!(t.slice_chars(40..50), "");
    assert_eq!(t.0.chars().nth(7), Some('ö'));
    assert_eq!(t.0, "héllo wörld");
    assert_eq!(t.clone().0, "héllo wörld");
    assert_eq!(TextSpan::new(String::from("x")).0, "x");
    assert_eq!(TextSpan::default().line_count(), 1);
    assert_eq!(chars_of("aé"), vec!['a', 'é']);
}

#[test]
fn line_and_column_of_offsets() {
    let t = TextSpan::new("ab\ncde\nf");
    assert_eq!(line_and_column(&t, 0), (0, 0));
    assert_eq!(line_and_column(&t, 2), (0, 2));
    assert_eq!(line_and_column(&t, 3), (1, 0));
    assert_eq!(line_and_column(&t, 5), (1, 2));
    assert_eq!(line_and_column(&t, 8), (2, 1));
    assert_eq!(line_and_column(&t, 50), (2, 1));
}

#[test]
fn string_content_answers_like_text_span() {
    let text = String::from("ab\ncde\n");
    let span = TextSpan::new(&text);
    assert_eq!(text.line_count(), span.line_count());
    for i in 0..4 {
        assert_eq!(text.line(i), span.line(i));
        assert_eq!(text.line_len_chars(i), span.line_len_chars(i));
        assert_eq!(text.line_to_char(i), span.line_to_char(i));
    }
    for ch in 0..9 {
        assert_eq!(text.char_to_line(ch), span.char_to_line(ch));
    }
    assert_eq!(text.char_count(), 7);
    assert_eq!(text.slice_chars(1..4), "b\nc");
    assert_eq!(text.as_contiguous_str(), Some("ab\ncde\n"));
    assert_eq!(span.as_contiguous_str(), None);
    assert_eq!(line_body_of(&text, 0), vec!['a', 'b']);
}
