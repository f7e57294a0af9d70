use bevy_instanced_text::wrap::{wrap_row_break, wrap_text_into_chunks};

fn texts(chunks: &[(usize, String)]) -> Vec<&str> {
    chunks.iter().map(|(_, t)| t.as_str()).collect()
}

fn check_offsets(text: &str, chunks: &[(usize, String)]) {
    let mut offset = 0;
    for (start, chunk) in chunks {
        assert_eq!(*start, offset);
        assert_eq!(&text[*start..*start + chunk.len()], chunk.as_str());
        offset += chunk.len();
    }
    assert_eq!(offset, text.len());
}

#[test]
fn wrap_breaks_after_last_space_before_budget() {
    let body = "the quick brown fox jumps over the lazy dog and runs away.";
    let chunks = wrap_text_into_chunks(body, 30);
    assert!(chunks.len() >= 2);
    let recomposed: String = chunks.iter().map(|(_, t)| t.as_str()).collect();
    assert_eq!(recomposed, body);
    for (_, t) in &chunks {
        assert!(t.chars().count() <= 31, "chunk {:?} exceeded budget+1", t);
    }
    check_offsets(body, &chunks);
}

#[test]
fn wrap_keeps_long_words_intact() {
    let body = "short pneumonoultramicroscopicsilicovolcanoconiosis end";
    let chunks = wrap_text_into_chunks(body, 10);
    let recomposed: String = chunks.iter().map(|(_, t)| t.as_str()).collect();
    assert_eq!(recomposed, body);
    assert!(chunks
        .iter()
        .any(|(_, t)| t.contains("pneumonoultramicroscopicsilicovolcanoconiosis")));
    check_offsets(body, &chunks);
}

#[test]
fn wrap_splits_at_the_space_after_quick() {
    let chunks = wrap_text_into_chunks("the quick fox runs", 10);
    assert_eq!(chunks, vec![(0, "the quick ".to_string()), (10, "fox runs".to_string())]);
}

#[test]
fn wrap_of_empty_text_or_zero_budget_is_whole_text() {
    assert_eq!(wrap_text_into_chunks("", 5), vec![(0, String::new())]);
    assert_eq!(wrap_text_into_chunks("a b c", 0), vec![(0, "a b c".to_string())]);
}

#[test]
fn wrap_short_text_is_one_chunk() {
    assert_eq!(wrap_text_into_chunks("hello", 80), vec![(0, "hello".to_string())]);
}

#[test]
fn wrap_breaks_at_newlines() {
    let chunks = wrap_text_into_chunks("ab\ncd\n", 80);
    assert_eq!(texts(&chunks), vec!["ab\n", "cd\n"]);
    assert_eq!(chunks[1].0, 3);
}

#[test]
fn wrap_breaks_before_following_space_when_word_fills_budget() {
    // "abcd" fills the budget and a space follows: break before it. The
    // next row then breaks right after that space once it is full.
    let chunks = wrap_text_into_chunks("abcd efg", 4);
    assert_eq!(texts(&chunks), vec!["abcd", " ", "efg"]);
    assert_eq!(chunks[2].0, 5);
}

#[test]
fn wrap_reports_byte_offsets_for_multibyte_text() {
    let body = "ééé ààà ööö";
    let chunks = wrap_text_into_chunks(body, 4);
    assert_eq!(texts(&chunks), vec!["ééé ", "ààà ", "ööö"]);
    assert_eq!(chunks[1].0, 7);
    check_offsets(body, &chunks);
}

#[test]
fn wrap_rows_reassemble_and_break_only_at_spaces() {
    let body = "lorem ipsum\tdolor sit amet, consectetur adipiscing elit sed do";
    for budget in 1..20 {
        let chunks = wrap_text_into_chunks(body, budget);
        check_offsets(body, &chunks);
        for (k, (_, t)) in chunks.iter().enumerate() {
            if k + 1 < chunks.len() {
                let last = t.chars().last().unwrap();
                let next_first = chunks[k + 1].1.chars().next().unwrap();
                assert!(
                    matches!(last, ' ' | '\t' | '\n') || matches!(next_first, ' ' | '\t' | '\n'),
                    "budget {budget}: break between {t:?} and {:?}",
                    chunks[k + 1].1
                );
            }
        }
    }
}

#[test]
fn shaped_row_breaks_after_the_last_space_before_the_overflow() {
    // One glyph per byte of "ab cd ef"; glyph 7 ('f') overflows.
    let text = "ab cd ef";
    let glyphs: Vec<usize> = (0..text.len()).collect();
    assert_eq!(wrap_row_break(text.as_bytes(), &glyphs, 0, 7), (6, 0..6));
    // No space after the row start: break at the overflowing glyph.
    assert_eq!(wrap_row_break(text.as_bytes(), &glyphs, 6, 8), (8, 6..8));
    // A tab counts as a space too.
    let tabbed = "ab\tcd";
    let g: Vec<usize> = (0..tabbed.len()).collect();
    assert_eq!(wrap_row_break(tabbed.as_bytes(), &g, 0, 4), (3, 0..3));
    // A space right at the row start does not count.
    assert_eq!(wrap_row_break(text.as_bytes(), &glyphs, 2, 4), (4, 2..4));
}

#[test]
fn shaped_row_break_skips_multibyte_glyph_bytes() {
    // Glyphs start at bytes 0, 2, 3, 4 of "éa é" ('é' is two bytes).
    let text = "éa é";
    let glyphs = vec![0usize, 2, 3, 4];
    assert_eq!(wrap_row_break(text.as_bytes(), &glyphs, 0, 3), (3, 0..4));
    assert_eq!(wrap_row_break(text.as_bytes(), &glyphs, 0, 2), (2, 0..3));
}
