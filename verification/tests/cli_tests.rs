use boopl::cli::{format_token, parse_args, tokens_listing};
use boopl::error::BooplError;
use boopl::parentheses_preprocessor::parentheses_process;
use boopl::tokens::RawToken;

fn args(v: &[&str]) -> Vec<String> {
    v.iter().map(|s| s.to_string()).collect()
}

#[test]
fn command_line_forms() {
    assert_eq!(parse_args(&args(&["boopl"])), Err("Использование: boopl [--debug] <файл>".to_string()));
    assert_eq!(parse_args(&args(&["boopl", "--debug", "a.bpl"])), Ok(("a.bpl".to_string(), true)));
    assert_eq!(parse_args(&args(&["boopl", "a.bpl", "-debug"])), Ok(("a.bpl".to_string(), true)));
    assert_eq!(parse_args(&args(&["boopl", "a", "b"])), Ok(("b".to_string(), false)));
    assert_eq!(parse_args(&args(&["boopl", "-x"])), Err("Ошибка: не указано имя файла".to_string()));
}

#[test]
fn tokens_as_listed() {
    assert_eq!(format_token(&RawToken::Bool(true, 1)), "true");
    assert_eq!(format_token(&RawToken::Bool(false, 1)), "false");
    assert_eq!(format_token(&RawToken::Number("n".to_string(), 1)), "n");
    assert_eq!(format_token(&RawToken::Keyword("G".to_string(), 1)), "G");
    assert_eq!(format_token(&RawToken::LabelP("x".to_string(), 1)), "P.x");
    assert_eq!(format_token(&RawToken::LabelPD("y".to_string(), 1)), "PD.y");
}

#[test]
fn listing_numbers_lines() {
    let lines = vec![
        vec![RawToken::Number("x".to_string(), 1), RawToken::Bool(true, 1)],
        vec![RawToken::Keyword("E".to_string(), 2)],
    ];
    assert_eq!(tokens_listing(&lines), "=== ТОКЕНЫ ===\n\n1: x true \n2: E \n");
    assert_eq!(tokens_listing(&vec![]), "=== ТОКЕНЫ ===\n\n");
}

#[test]
fn error_text_with_and_without_file() {
    let e = BooplError::new("плохо".to_string(), 3);
    assert_eq!(e.to_text(), "\n   >>  ! плохо  (3)\n\n");
    let e = e.with_file("f.bpl".to_string());
    assert_eq!(e.message, "плохо");
    assert_eq!(e.line, 3);
    assert_eq!(e.to_text(), "\n   >>  ! плохо  (f.bpl:3)\n\n");
}

#[test]
fn bare_parentheses_count() {
    assert_eq!(parentheses_process(&vec![]), Ok(1));
    assert_eq!(parentheses_process(&vec!['4', '_', '2']), Ok(42));
    assert_eq!(
        parentheses_process(&vec!['x']),
        Err("Ошибка парсинга 'x' в число: invalid digit found in string".to_string())
    );
    assert_eq!(
        parentheses_process(&vec!['-', '1']),
        Err("Ошибка: '-1' содержит не ASCII-буквенно-цифровые символы".to_string())
    );
}
