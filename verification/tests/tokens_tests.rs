use boopl::tokens::{is_range_token, parse_range_token, start, tokenize, RawToken};

fn num(s: &str, l: i32) -> RawToken {
    RawToken::Number(s.to_string(), l)
}

fn kw(s: &str, l: i32) -> RawToken {
    RawToken::Keyword(s.to_string(), l)
}

#[test]
fn tokenize_two_instructions() {
    let r = tokenize("x T; y F;").unwrap();
    assert_eq!(r, vec![vec![num("x", 1), RawToken::Bool(true, 1)], vec![num("y", 1), RawToken::Bool(false, 1)]]);
}

#[test]
fn tokenize_names_are_built_char_by_char() {
    let r = tokenize("abc_1 T;").unwrap();
    assert_eq!(r, vec![vec![num("abc_1", 1), RawToken::Bool(true, 1)]]);
}

#[test]
fn tokenize_skips_comments_and_counts_lines() {
    let r = tokenize("x T; // note\n/* a\nb */ y F;").unwrap();
    assert_eq!(r, vec![vec![num("x", 1), RawToken::Bool(true, 1)], vec![num("y", 3), RawToken::Bool(false, 3)]]);
}

#[test]
fn tokenize_labels_and_keywords() {
    let r = tokenize("G P.end;\nPD.a P.b;").unwrap();
    assert_eq!(
        r,
        vec![
            vec![kw("G", 1), RawToken::LabelP("end".to_string(), 1)],
            vec![RawToken::LabelPD("a".to_string(), 2), RawToken::LabelP("b".to_string(), 2)],
        ]
    );
}

#[test]
fn tokenize_repeats_instruction_in_parentheses() {
    let r = tokenize("(3) x T;").unwrap();
    assert_eq!(r.len(), 3);
    for line in &r {
        assert_eq!(line, &vec![num("x", 1), RawToken::Bool(true, 1)]);
    }
}

#[test]
fn tokenize_last_instruction_without_semicolon() {
    let r = tokenize("E").unwrap();
    assert_eq!(r, vec![vec![kw("E", 1)]]);
}

#[test]
fn tokenize_rejects_unknown_word() {
    let r = tokenize("x $;");
    assert_eq!(r, Err(("   >>  ! не получилось обработать слово: $  (1)\n\n".to_string(), 1)));
}

#[test]
fn tokenize_rejects_bad_pointer() {
    let r = tokenize("Q.x;");
    assert_eq!(r, Err(("   >>  ! не удальсь обработать указатель Q.x  (1)\n\n".to_string(), 1)));
}

#[test]
fn tokenize_rejects_too_many_tokens() {
    let r = tokenize("a b c d e;");
    assert_eq!(r, Err(("Слишком много токенов: 'a b c d e'".to_string(), 1)));
}

#[test]
fn tokenize_rejects_bad_repeat_count() {
    let r = tokenize("(a) x T;");
    assert_eq!(r, Err(("Ошибка парсинга 'a' в число: invalid digit found in string".to_string(), 1)));
}

#[test]
fn start_on_empty_source_gives_no_lines() {
    assert_eq!(start(String::new()), Ok(vec![]));
    assert_eq!(start("  ;  ; ".to_string()), Ok(vec![]));
}

#[test]
fn range_token_shape() {
    assert!(is_range_token("a{0..3}"));
    assert!(is_range_token("a{x}"));
    assert!(!is_range_token("a{3"));
    assert!(!is_range_token("a3}"));
}

#[test]
fn range_token_parsing() {
    assert_eq!(parse_range_token("a{0..3}"), Some(("a".to_string(), 0, 3)));
    assert_eq!(parse_range_token("b_1{5..-2}"), Some(("b_1".to_string(), 5, -2)));
    assert_eq!(parse_range_token("c{5}"), Some(("c".to_string(), 5, 5)));
    assert_eq!(parse_range_token("a{x}"), None);
    assert_eq!(parse_range_token("{1}"), None);
    assert_eq!(parse_range_token("a{1..2..3}"), None);
    assert_eq!(parse_range_token("a-b{1}"), None);
    assert_eq!(parse_range_token("plain"), None);
}

#[test]
fn repeat_count_zero_drops_instruction() {
    assert_eq!(tokenize("(0) x T; E;").unwrap(), vec![vec![kw("E", 1)]]);
}

#[test]
fn repeat_count_gathers_all_parentheses() {
    let r = tokenize("(1)(2) x T;").unwrap();
    assert_eq!(r.len(), 12);
}

#[test]
fn range_and_odd_label_words() {
    let r = tokenize("a{0..2} T;\nP. PD.;").unwrap();
    assert_eq!(
        r,
        vec![
            vec![num("a{0..2}", 1), RawToken::Bool(true, 1)],
            vec![num("P.", 2), RawToken::LabelPD(String::new(), 2)],
        ]
    );
}
