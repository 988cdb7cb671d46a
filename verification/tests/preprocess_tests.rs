use boopl::error::BooplError;
use boopl::preprocessors::function_preprocessor::FuncError;
use boopl::preprocessors::range_expander::ranges_fit_check;
use boopl::preprocessors::{else_processing, expand, expand_ranges, parentheses_process};
use boopl::tokens::RawToken;

fn num(s: &str, l: i32) -> RawToken {
    RawToken::Number(s.to_string(), l)
}

fn kw(s: &str, l: i32) -> RawToken {
    RawToken::Keyword(s.to_string(), l)
}

fn lp(s: &str, l: i32) -> RawToken {
    RawToken::LabelP(s.to_string(), l)
}

fn lpd(s: &str, l: i32) -> RawToken {
    RawToken::LabelPD(s.to_string(), l)
}

#[test]
fn ranges_expand_ascending() {
    let input = vec![vec![num("a{0..2}", 1), RawToken::Bool(true, 1)]];
    assert!(ranges_fit_check(&input));
    let r = expand_ranges(input).unwrap();
    assert_eq!(
        r,
        vec![
            vec![num("a0", 1), RawToken::Bool(true, 1)],
            vec![num("a1", 1), RawToken::Bool(true, 1)],
            vec![num("a2", 1), RawToken::Bool(true, 1)],
        ]
    );
}

#[test]
fn ranges_expand_descending_in_step() {
    let input = vec![vec![num("b{2..0}", 4), num("c{5..7}", 4)]];
    let r = expand_ranges(input).unwrap();
    assert_eq!(
        r,
        vec![vec![num("b2", 4), num("c5", 4)], vec![num("b1", 4), num("c6", 4)], vec![num("b0", 4), num("c7", 4)]]
    );
}

#[test]
fn ranges_single_value() {
    let r = expand_ranges(vec![vec![num("c{5}", 1)]]).unwrap();
    assert_eq!(r, vec![vec![num("c5", 1)]]);
}

#[test]
fn ranges_leave_other_lines() {
    let input = vec![vec![num("x", 1), RawToken::Bool(false, 1)], vec![kw("E", 2)]];
    let r = expand_ranges(input.clone()).unwrap();
    assert_eq!(r, input);
}

#[test]
fn ranges_of_different_lengths_fail() {
    let e = expand_ranges(vec![vec![num("a{0..1}", 1), num("b{0..2}", 2)]]).unwrap_err();
    assert_eq!(e.message, "Разные длины в range expansion");
    assert_eq!(e.line, 2);
    assert!(e.file.is_none());
}

#[test]
fn malformed_range_fails() {
    let e = expand_ranges(vec![vec![num("a{x}", 7)]]).unwrap_err();
    assert_eq!(e.message, "Некорректный range токен 'a{x}'");
    assert_eq!(e.line, 7);
}

#[test]
fn range_too_long_for_i32_is_flagged() {
    let input = vec![vec![num("a{-2147483648..2147483647}", 1)]];
    assert!(!ranges_fit_check(&input));
}

#[test]
fn parentheses_counts() {
    assert_eq!(parentheses_process(&vec![], 1).unwrap(), 1);
    assert_eq!(parentheses_process(&vec!['_', '_'], 1).unwrap(), 1);
    assert_eq!(parentheses_process(&vec!['1', '_', '2'], 1).unwrap(), 12);
}

#[test]
fn parentheses_errors() {
    let e: BooplError = parentheses_process(&vec!['a'], 5).unwrap_err();
    assert_eq!(e.message, "Ошибка парсинга 'a' в число: invalid digit found in string");
    assert_eq!(e.line, 5);
    let e = parentheses_process(&vec!['-', '1'], 6).unwrap_err();
    assert_eq!(e.message, "'-1' содержит недопустимые символы");
    let e = parentheses_process(&"99999999999".chars().collect(), 2).unwrap_err();
    assert_eq!(e.message, "Ошибка парсинга '99999999999' в число: number too large to fit in target type");
}

#[test]
fn else_chain_is_rewritten() {
    let input = vec![
        vec![kw("IF", 1), num("c", 1)],
        vec![num("x", 2), RawToken::Bool(true, 2)],
        vec![kw("ELSE", 3)],
        vec![num("x", 4), RawToken::Bool(false, 4)],
        vec![kw("E", 5)],
    ];
    let r = else_processing(input);
    assert_eq!(
        r,
        vec![
            vec![kw("IF", 2), num("c", 2)],
            vec![num("x", 2), RawToken::Bool(true, 2)],
            vec![kw("G", 2), lp("__close_else_0", 2)],
            vec![kw("E", 2)],
            vec![lp("__else_0_0", 4)],
            vec![num("x", 4), RawToken::Bool(false, 4)],
            vec![lp("__close_else_0", 5)],
        ]
    );
}

#[test]
fn else_if_chain_gets_labels() {
    let input = vec![
        vec![kw("IF", 1), num("a", 1)],
        vec![num("x", 2), RawToken::Bool(true, 2)],
        vec![kw("ELSE", 3), kw("IF", 3), num("b", 3)],
        vec![num("y", 4), RawToken::Bool(true, 4)],
        vec![kw("E", 5)],
    ];
    let r = else_processing(input);
    assert_eq!(
        r,
        vec![
            vec![kw("IF", 2), num("a", 2)],
            vec![num("x", 2), RawToken::Bool(true, 2)],
            vec![kw("G", 2), lp("__close_else_0", 2)],
            vec![kw("E", 2)],
            vec![lp("__else_0_0", 4)],
            vec![kw("IF", 4), num("b", 4)],
            vec![num("y", 4), RawToken::Bool(true, 4)],
            vec![lp("__close_else_0", 5)],
        ]
    );
}

#[test]
fn lines_without_else_are_unchanged() {
    let input = vec![vec![kw("IF", 1), num("c", 1)], vec![num("x", 2), RawToken::Bool(true, 2)], vec![kw("E", 3)]];
    assert_eq!(else_processing(input.clone()), input);
}

#[test]
fn functions_become_labels_and_jumps() {
    let input = vec![
        vec![kw("FUNC", 1), num("f", 1)],
        vec![num("x", 2), RawToken::Bool(true, 2)],
        vec![kw("RET", 3), kw("E", 3)],
        vec![kw("CALL", 4), num("f", 4)],
    ];
    let r = expand(input).unwrap();
    assert_eq!(
        r,
        vec![
            vec![lpd("__return", 0)],
            vec![kw("G", 1), lp("__func_close_1", 1)],
            vec![lp("f", 1)],
            vec![num("x", 2), RawToken::Bool(true, 2)],
            vec![kw("G", 3), lpd("__return", 3)],
            vec![lp("__func_close_1", 3)],
            vec![lpd("__func_return_1", 4), lpd("__return", 4)],
            vec![lpd("__return", 4), lp("__local_func_1", 4)],
            vec![kw("G", 4), lp("f", 4)],
            vec![lp("__local_func_1", 4)],
        ]
    );
}

#[test]
fn return_after_a_call_uses_saved_pointer() {
    let input = vec![
        vec![kw("FUNC", 1), num("f", 1)],
        vec![kw("CALL", 2), num("g", 2)],
        vec![kw("RET", 3)],
    ];
    let r = expand(input).unwrap();
    assert_eq!(
        r,
        vec![
            vec![lpd("__return", 0)],
            vec![kw("G", 1), lp("__func_close_1", 1)],
            vec![lp("f", 1)],
            vec![lpd("__func_return_1", 2), lpd("__return", 2)],
            vec![lpd("__return", 2), lp("__local_func_1", 2)],
            vec![kw("G", 2), lp("g", 2)],
            vec![lp("__local_func_1", 2)],
            vec![kw("G", 3), lpd("__func_return_1", 3)],
        ]
    );
}

#[test]
fn bare_ret_outside_function_is_dropped() {
    let r = expand(vec![vec![kw("RET", 1)], vec![kw("E", 2)]]).unwrap();
    assert_eq!(r, vec![vec![lpd("__return", 0)], vec![kw("E", 2)]]);
}

#[test]
fn unknown_use_of_function_words_fails() {
    let r = expand(vec![vec![kw("CALL", 1)]]);
    match r {
        Err(FuncError::Unprocessable(line)) => assert_eq!(line, vec![kw("CALL", 1)]),
        _ => panic!("expected an error"),
    }
}

#[test]
fn plain_program_only_gains_return_pointer() {
    let input = vec![vec![num("x", 1), RawToken::Bool(true, 1)], vec![kw("G", 2), lp("a", 2)]];
    let r = expand(input.clone()).unwrap();
    let mut expected = vec![vec![lpd("__return", 0)]];
    expected.extend(input);
    assert_eq!(r, expected);
}

#[test]
fn inclusive_ranges_both_ways() {
    let up = expand_ranges(vec![vec![num("a{0..7}", 1)]]).unwrap();
    assert_eq!(up.len(), 8);
    assert_eq!(up[0], vec![num("a0", 1)]);
    assert_eq!(up[7], vec![num("a7", 1)]);
    let down = expand_ranges(vec![vec![num("a{8..1}", 1)]]).unwrap();
    assert_eq!(down.len(), 8);
    assert_eq!(down[0], vec![num("a8", 1)]);
    assert_eq!(down[7], vec![num("a1", 1)]);
}

#[test]
fn earlier_error_comes_before_a_long_range() {
    let input = vec![vec![num("a{x}", 1)], vec![num("b{-2147483648..2147483647}", 2)]];
    assert!(ranges_fit_check(&input));
    let e = expand_ranges(input).unwrap_err();
    assert_eq!(e.message, "Некорректный range токен 'a{x}'");
    assert_eq!(e.line, 1);
}

#[test]
fn long_range_after_a_mismatch_is_not_counted() {
    let input = vec![vec![num("a{0..1}", 1), num("b{0..2}", 1), num("c{-2147483648..2147483647}", 1)]];
    assert!(ranges_fit_check(&input));
    let e = expand_ranges(input).unwrap_err();
    assert_eq!(e.message, "Разные длины в range expansion");
}
