use boopl::mini_vm::{is_num, parse, run, split_words};

#[test]
fn output_when_cell_holds_one() {
    assert_eq!(run("1 1 I 1 5"), (vec![5], Ok(())));
}

#[test]
fn no_output_when_cell_is_not_one() {
    assert_eq!(run("I 2 5 2 3 I 2 6"), (vec![], Ok(())));
}

#[test]
fn later_store_overwrites() {
    assert_eq!(run("4 1 I 4 7\n4 0 I 4 8 4 1 I 4 9"), (vec![7, 9], Ok(())));
}

#[test]
fn mini_vm_errors() {
    assert_eq!(run("1 1 I 1"), (vec![], Err("I needs two numbers".to_string())));
    assert_eq!(run("1 1 I 1 2 5"), (vec![2], Err("pair needs two numbers".to_string())));
    assert_eq!(run("x"), (vec![], Err("unknown token: x".to_string())));
    assert_eq!(run("1 a"), (vec![], Err("'a' is not a number".to_string())));
    assert_eq!(run("99999999999 1"), (vec![], Err("'99999999999' is not a number".to_string())));
}

#[test]
fn empty_program_does_nothing() {
    assert_eq!(run(" \n\t "), (vec![], Ok(())));
}

#[test]
fn number_words() {
    assert!(is_num("123"));
    assert!(is_num(""));
    assert!(!is_num("12a"));
    assert!(!is_num("-1"));
    assert_eq!(parse("-5"), Ok(-5));
    assert_eq!(parse("+7"), Ok(7));
    assert_eq!(parse("x"), Err("'x' is not a number".to_string()));
}

#[test]
fn words_split_at_white_space() {
    assert_eq!(split_words("  a bc\n\td  "), vec!["a".to_string(), "bc".to_string(), "d".to_string()]);
    assert!(split_words("   ").is_empty());
}
