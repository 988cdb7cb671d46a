use boopl::name_map::IdentNameMap;
use boopl::namezator::{extract_names, namezating, number_names, parse_name, text_less, NameKind, NamePart};
use boopl::tokens::{RawToken, Token};
use std::collections::HashMap;

fn names(v: &[&str]) -> Vec<String> {
    v.iter().map(|s| s.to_string()).collect()
}

fn parts_text(p: &[NamePart]) -> Vec<String> {
    p.iter()
        .map(|x| match x {
            NamePart::Text(s) => format!("t:{}", s),
            NamePart::Number(n) => format!("n:{}", n),
        })
        .collect()
}

#[test]
fn name_parts() {
    assert_eq!(parts_text(&parse_name("a_10_b")), vec!["t:a", "t:_", "n:10", "t:_", "t:b"]);
    assert_eq!(parts_text(&parse_name("_x")), vec!["t:_", "t:_", "t:x"]);
    assert_eq!(parts_text(&parse_name("7")), vec!["n:7"]);
    assert_eq!(parts_text(&parse_name("a__b")), vec!["t:a", "t:_", "t:_", "t:_", "t:b"]);
    assert_eq!(parts_text(&parse_name("v_+3")), vec!["t:v", "t:_", "n:3"]);
    assert!(parse_name("").is_empty());
}

#[test]
fn string_order() {
    assert!(text_less("a", "b"));
    assert!(text_less("a", "ab"));
    assert!(!text_less("ab", "a"));
    assert!(!text_less("a", "a"));
    assert!(text_less("x_01", "x_1"));
}

#[test]
fn numbering_walks_children_before_parent() {
    let ids = number_names(&names(&["a", "a_1", "a_2"]));
    assert_eq!(ids, vec![2, 0, 1]);
}

#[test]
fn numbering_puts_texts_before_numbers() {
    let ids = number_names(&names(&["10", "b", "2"]));
    assert_eq!(ids, vec![2, 0, 1]);
}

#[test]
fn names_with_equal_parts_share_a_block() {
    let ids = number_names(&names(&["x_1", "x_01", "y"]));
    assert_eq!(ids, vec![1, 0, 1]);
}

#[test]
fn names_are_extracted_once_in_order() {
    let lines = vec![
        vec![RawToken::Number("y".to_string(), 1), RawToken::Number("x".to_string(), 1)],
        vec![RawToken::LabelP("l".to_string(), 2), RawToken::Number("y".to_string(), 2)],
    ];
    assert_eq!(extract_names(&lines, NameKind::Var), names(&["y", "x"]));
    assert_eq!(extract_names(&lines, NameKind::Static), names(&["l"]));
    assert!(extract_names(&lines, NameKind::Dynamic).is_empty());
}

#[test]
fn namezating_renames_and_keeps_tables() {
    let lines = vec![
        vec![RawToken::Number("x".to_string(), 1), RawToken::Bool(true, 1)],
        vec![RawToken::Keyword("G".to_string(), 2), RawToken::LabelP("end".to_string(), 2)],
        vec![],
        vec![RawToken::LabelP("end".to_string(), 3)],
        vec![RawToken::LabelPD("p".to_string(), 4), RawToken::LabelPD("q".to_string(), 4)],
    ];
    let (tokens, map) = namezating(lines);
    assert_eq!(
        tokens,
        vec![
            vec![Token::Number(0, 1), Token::Bool(true, 1)],
            vec![Token::Keyword("G".to_string(), 2), Token::LabelP(0, 2)],
            vec![Token::LabelP(0, 3)],
            vec![Token::LabelPD(0, 4), Token::LabelPD(1, 4)],
        ]
    );
    assert_eq!(map.get_name_n(0), "x");
    assert_eq!(map.get_name_p(0), "end");
    assert_eq!(map.get_name_pd(0), "p");
    assert_eq!(map.get_name_pd(1), "q");
}

#[test]
fn shared_number_keeps_the_later_name() {
    let lines = vec![vec![
        RawToken::Number("x_01".to_string(), 1),
        RawToken::Number("x_1".to_string(), 1),
        RawToken::Number("y".to_string(), 1),
    ]];
    let (tokens, map) = namezating(lines);
    assert_eq!(tokens, vec![vec![Token::Number(0, 1), Token::Number(1, 1), Token::Number(1, 1)]]);
    assert_eq!(map.get_name_n(0), "x_01");
    assert_eq!(map.get_name_n(1), "y");
}

#[test]
fn loaded_tables_give_names_back() {
    let mut map = IdentNameMap::new();
    let mut p = HashMap::new();
    p.insert(3, "start".to_string());
    let mut n = HashMap::new();
    n.insert(7, "v".to_string());
    map.load_p(p);
    map.load_n(n);
    map.load_pd(HashMap::new());
    assert_eq!(map.get_name_p(3), "start");
    assert_eq!(map.get_name_n(7), "v");
}

#[test]
fn ids_of_a_kind_are_exactly_zero_to_count() {
    let mut ids = number_names(&names(&["b", "a", "c_1", "c", "d_2_x"]));
    ids.sort();
    assert_eq!(ids, vec![0, 1, 2, 3, 4]);
}

#[test]
fn kinds_are_numbered_apart() {
    let lines = vec![vec![RawToken::LabelP("a".to_string(), 1), RawToken::Number("a".to_string(), 1)]];
    let (tokens, map) = namezating(lines);
    assert_eq!(tokens, vec![vec![Token::LabelP(0, 1), Token::Number(0, 1)]]);
    assert_eq!(map.get_name_p(0), "a");
    assert_eq!(map.get_name_n(0), "a");
}
