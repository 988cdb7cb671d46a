use boopl::name_map::IdentNameMap;
use boopl::to_bytecode::to_bytecode;
use boopl::tokens::Token;
use boopl::vm::pre_run::{pre_run, PreRunError};
use boopl::vm::{start, VM};
use std::collections::HashMap;

fn kw(s: &str, l: i32) -> Token {
    Token::Keyword(s.to_string(), l)
}

fn table(p: &[(i32, &str)], n: &[(i32, &str)]) -> IdentNameMap {
    let mut m = IdentNameMap::new();
    m.load_p(p.iter().map(|(k, v)| (*k, v.to_string())).collect::<HashMap<i32, String>>());
    m.load_n(n.iter().map(|(k, v)| (*k, v.to_string())).collect::<HashMap<i32, String>>());
    m
}

#[test]
fn bytecode_of_simple_lines() {
    let m = table(&[], &[]);
    let lines = vec![
        vec![Token::Number(0, 1), Token::Bool(true, 1)],
        vec![],
        vec![Token::Number(0, 2), Token::Number(1, 2)],
        vec![Token::LabelP(4, 3)],
        vec![kw("G", 4), Token::LabelP(4, 4)],
        vec![Token::Number(2, 5), kw("A", 5), Token::Number(0, 5), Token::Number(1, 5)],
        vec![kw("E", 6)],
    ];
    let b = to_bytecode(lines, &m).unwrap();
    assert_eq!(
        b,
        vec![
            (vec![0], 0),
            (vec![101, 0], 1),
            (vec![150, 0, 1], 2),
            (vec![200, 4], 3),
            (vec![230, 4], 4),
            (vec![551, 2, 0, 1], 5),
            (vec![50], 6),
        ]
    );
}

#[test]
fn bytecode_error_quotes_the_line() {
    let m = table(&[(4, "end")], &[(0, "x")]);
    let lines = vec![vec![kw("G", 1), Token::Number(0, 2)]];
    let e = to_bytecode(lines, &m).unwrap_err();
    assert_eq!(e, "\n   >>  ! Ошибка в обработке последовательности токенов \"G x\"  (2)\n\n");
}

#[test]
fn bytecode_error_escapes_quotes() {
    let m = table(&[(1, "a\"b")], &[]);
    let lines = vec![vec![Token::LabelP(1, 3), kw("E", 3)]];
    let e = to_bytecode(lines, &m).unwrap_err();
    assert_eq!(e, "\n   >>  ! Ошибка в обработке последовательности токенов \"P.a\\\"b E\"  (3)\n\n");
}

#[test]
fn pre_run_resolves_labels() {
    let program = vec![(vec![0], 0), (vec![200, 5], 1), (vec![230, 5], 2)];
    let (code, lines) = pre_run(program).unwrap();
    assert_eq!(code, vec![vec![0], vec![230, 0]]);
    assert_eq!(lines, vec![0, 2]);
}

#[test]
fn pre_run_matches_if_with_end() {
    let program = vec![(vec![0], 0), (vec![300, 7], 1), (vec![101, 7], 2), (vec![50], 3)];
    let (code, _) = pre_run(program).unwrap();
    assert_eq!(code, vec![vec![0], vec![300, 7, 3], vec![101, 7], vec![51]]);
}

#[test]
fn pre_run_errors() {
    match pre_run(vec![(vec![0], 0), (vec![200, 5], 1), (vec![200, 5], 2)]) {
        Err(PreRunError::Redeclared { label, line }) => {
            assert_eq!(label, 5);
            assert_eq!(line, 2);
        },
        _ => panic!("expected a redeclaration"),
    }
    match pre_run(vec![(vec![0], 0), (vec![230, 9], 4)]) {
        Err(PreRunError::UndefinedJump { label, instr, line }) => {
            assert_eq!((label, instr, line), (9, vec![230, 9], 4));
        },
        _ => panic!("expected an undefined jump"),
    }
    match pre_run(vec![(vec![0], 0), (vec![260, 1, 9], 4)]) {
        Err(PreRunError::UndefinedAssign { label, .. }) => assert_eq!(label, 9),
        _ => panic!("expected an undefined assignment"),
    }
    match pre_run(vec![(vec![0], 0), (vec![302, 1, 9], 4)]) {
        Err(PreRunError::UndefinedIfJump { label, .. }) => assert_eq!(label, 9),
        _ => panic!("expected an undefined jump after if"),
    }
    match pre_run(vec![(vec![0], 0), (vec![300, 7], 3)]) {
        Err(PreRunError::MissingEnd { var, line }) => assert_eq!((var, line), (7, 3)),
        _ => panic!("expected a missing end"),
    }
}

#[test]
fn pre_run_error_messages() {
    let m = table(&[(5, "loop")], &[(7, "c")]);
    let e = pre_run(vec![(vec![0], 0), (vec![230, 5], 4)]).unwrap_err();
    assert_eq!(
        e.describe(&m).unwrap(),
        "\n ! пре ран-тайм\n\n   >>  ! попытка перейти по не определённому указателю: P.loop; в строке: [230, 5]  (4)\n\n"
    );
    let e = pre_run(vec![(vec![0], 0), (vec![300, 7], 3)]).unwrap_err();
    assert_eq!(e.describe(&m).unwrap(), "\n ! пре ран-тайм\n\n   >>  ! не найден end для if: IF c  (3)\n\n");
    let e = pre_run(vec![(vec![0], 0), (vec![230, 6], 4)]).unwrap_err();
    assert!(e.describe(&m).is_none());
}

#[test]
fn vm_loads_flat_bytecode() {
    let b = start(vec![(vec![0], 0), (vec![300, 7], 1), (vec![50], 2)]).unwrap();
    assert_eq!(b, vec![0, 300, 7, 2, 51]);
    let mut vm = VM::new();
    assert!(vm.run(vec![(vec![0], 0), (vec![200, 1], 1), (vec![230, 1], 2)]).is_ok());
}

#[test]
fn translated_program_runs_through_the_pipeline() {
    let m = table(&[(0, "top")], &[(0, "x")]);
    let lines = vec![
        vec![Token::LabelP(0, 1)],
        vec![Token::Number(0, 2), Token::Bool(true, 2)],
        vec![kw("G", 3), Token::LabelP(0, 3)],
    ];
    let b = to_bytecode(lines, &m).unwrap();
    assert_eq!(start(b).unwrap(), vec![0, 101, 0, 230, 0]);
}

#[test]
fn only_the_first_bad_line_needs_names() {
    let m = table(&[], &[]);
    let lines = vec![vec![kw("G", 1)], vec![Token::Number(99, 2), kw("E", 2)]];
    let e = to_bytecode(lines, &m).unwrap_err();
    assert_eq!(e, "\n   >>  ! Ошибка в обработке последовательности токенов \"G\"  (1)\n\n");
}

#[test]
fn bytecode_has_one_instruction_per_non_empty_line() {
    let m = table(&[], &[]);
    let lines = vec![vec![], vec![kw("E", 1)], vec![], vec![kw("IN", 2)]];
    let b = to_bytecode(lines, &m).unwrap();
    assert_eq!(b, vec![(vec![0], 0), (vec![50], 1), (vec![600], 2)]);
}
