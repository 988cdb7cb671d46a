use boopl::function_preprocessor::expand_tokens;
use boopl::tokens::RawToken;

fn num(s: &str, l: i32) -> RawToken {
    RawToken::Number(s.to_string(), l)
}

fn kw(s: &str, l: i32) -> RawToken {
    RawToken::Keyword(s.to_string(), l)
}

fn lp(s: &str, l: i32) -> RawToken {
    RawToken::LabelP(s.to_string(), l)
}

fn lpd(s: &str, l: i32) -> RawToken {
    RawToken::LabelPD(s.to_string(), l)
}

#[test]
fn call_of_declared_function_becomes_jump() {
    let input = vec![
        vec![kw("CALL", 1), num("f", 1)],
        vec![kw("FUNC", 2), num("f", 2)],
        vec![num("x", 3), RawToken::Bool(true, 3)],
        vec![kw("RET", 4)],
    ];
    let r = expand_tokens(input).unwrap();
    assert_eq!(
        r,
        vec![
            vec![lpd("__ret", 1), lp("__ret_0", 1)],
            vec![kw("G", 1), lp("__func_f_body", 1)],
            vec![lp("__ret_0", 1)],
            vec![num("x", 3), RawToken::Bool(true, 3)],
            vec![lpd("__ret", 0)],
            vec![],
            vec![lp("__func_f_body", 0)],
            vec![lpd("__local_ret_f", 0), lpd("__ret", 0)],
            vec![num("x", 3), RawToken::Bool(true, 3)],
            vec![kw("G", 4), lpd("__local_ret_f", 4)],
            vec![kw("G", 0), lpd("__local_ret_f", 0)],
            vec![],
        ]
    );
}

#[test]
fn calls_inside_bodies_are_numbered_after_main() {
    let input = vec![
        vec![kw("FUNC", 1), num("a", 1)],
        vec![kw("CALL", 2), num("b", 2)],
        vec![kw("RET", 3)],
        vec![kw("FUNC", 4), num("b", 4)],
        vec![kw("RET", 5)],
    ];
    let r = expand_tokens(input).unwrap();
    assert_eq!(
        r,
        vec![
            vec![lpd("__ret", 2), lp("__ret_0", 2)],
            vec![kw("G", 2), lp("__func_b_body", 2)],
            vec![lp("__ret_0", 2)],
            vec![lpd("__ret", 0)],
            vec![],
            vec![lp("__func_a_body", 0)],
            vec![lpd("__local_ret_a", 0), lpd("__ret", 0)],
            vec![lpd("__ret", 2), lp("__ret_a_1", 2)],
            vec![kw("G", 2), lp("__func_b_body", 2)],
            vec![lp("__ret_a_1", 2)],
            vec![kw("G", 3), lpd("__local_ret_a", 3)],
            vec![kw("G", 0), lpd("__local_ret_a", 0)],
            vec![],
            vec![lp("__func_b_body", 0)],
            vec![lpd("__local_ret_b", 0), lpd("__ret", 0)],
            vec![kw("G", 5), lpd("__local_ret_b", 5)],
            vec![kw("G", 0), lpd("__local_ret_b", 0)],
            vec![],
        ]
    );
}

#[test]
fn program_without_functions_is_unchanged() {
    let input = vec![vec![num("x", 1), RawToken::Bool(true, 1)], vec![kw("E", 2)]];
    assert_eq!(expand_tokens(input.clone()).unwrap(), input);
}

#[test]
fn redefined_function_fails() {
    let input = vec![vec![kw("FUNC", 1), num("f", 1)], vec![kw("FUNC", 2), num("f", 2)]];
    assert_eq!(expand_tokens(input), Err("Строка 2: Переопределение функции 'f'".to_string()));
}

#[test]
fn call_of_undeclared_function_fails() {
    let input = vec![vec![kw("CALL", 5), num("g", 5)]];
    assert_eq!(expand_tokens(input), Err("Строка 5: Функция 'g' не объявлена".to_string()));
}

#[test]
fn self_call_is_a_cycle() {
    let input = vec![vec![kw("FUNC", 1), num("f", 1)], vec![kw("CALL", 2), num("f", 2)]];
    assert_eq!(expand_tokens(input), Err("Обнаружена циклическая зависимость: f".to_string()));
}

#[test]
fn mutual_calls_are_a_cycle() {
    let input = vec![
        vec![kw("FUNC", 1), num("a", 1)],
        vec![kw("CALL", 2), num("b", 2)],
        vec![kw("FUNC", 3), num("b", 3)],
        vec![kw("CALL", 4), num("a", 4)],
    ];
    assert_eq!(expand_tokens(input), Err("Обнаружена циклическая зависимость: a -> b".to_string()));
}
