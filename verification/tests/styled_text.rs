use bevy_instanced_text::styled::styled_lines_text;
use bevy_instanced_text::text::{line_body_of, TextContent, TextSpan};

fn lines(spec: &[&[&str]]) -> Vec<Vec<String>> {
    spec.iter().map(|l| l.iter().map(|s| s.to_string()).collect()).collect()
}

#[test]
fn styled_line_derives_text_from_segments() {
    let (text, keyed) = styled_lines_text(&lines(&[&["normal ", "blue"]]));
    assert_eq!(text, "normal blue");
    assert_eq!(keyed, vec![0]);
}

#[test]
fn styled_lines_joins_with_newline_and_keys_per_line() {
    let (text, keyed) = styled_lines_text(&lines(&[&["fn ", "main"], &["  body"]]));
    assert_eq!(text, "fn main\n  body");
    assert_eq!(keyed, vec![0, 1]);
}

#[test]
fn empty_line_is_not_keyed() {
    let (text, keyed) = styled_lines_text(&lines(&[&["a"], &[]]));
    assert_eq!(text, "a\n");
    assert_eq!(keyed, vec![0]);
}

#[test]
fn no_lines_give_empty_text() {
    let (text, keyed) = styled_lines_text(&Vec::new());
    assert_eq!(text, "");
    assert!(keyed.is_empty());
}

#[test]
fn empty_middle_line_keeps_its_newline() {
    let (text, keyed) = styled_lines_text(&lines(&[&["x"], &[], &["y", "z"]]));
    assert_eq!(text, "x\n\nyz");
    assert_eq!(keyed, vec![0, 2]);
}

#[test]
fn styled_buffer_lines_match_their_segments() {
    let spec: &[&[&str]] = &[&["fn ", "main"], &[], &["  ", "body", "()"]];
    let (text, _keyed) = styled_lines_text(&lines(spec));
    let buffer = TextSpan::new(&text);
    assert_eq!(buffer.line_count(), spec.len());
    for (i, segs) in spec.iter().enumerate() {
        let expected: Vec<char> = segs.concat().chars().collect();
        assert_eq!(line_body_of(&buffer, i), expected);
    }
}
