use boopl::importer::{ImportAction, ImportEvent, Importer};
use boopl::tokens::RawToken;

fn num(s: &str, l: i32) -> RawToken {
    RawToken::Number(s.to_string(), l)
}

fn import(name: &str, l: i32) -> Vec<RawToken> {
    vec![RawToken::Keyword("IMPORT".to_string(), l), num(name, l)]
}

fn found(path: &str) -> ImportEvent {
    ImportEvent::Found { path: path.to_string(), canonical: path.to_string(), dir: "lib".to_string() }
}

#[test]
fn program_without_imports_passes_through() {
    let lines = vec![vec![num("x", 1), RawToken::Bool(true, 1)], vec![RawToken::Keyword("E".to_string(), 2)]];
    let mut imp = Importer::new(lines.clone(), ".".to_string());
    assert!(matches!(imp.next_action(), ImportAction::Done));
    assert_eq!(imp.finish(), lines);
}

#[test]
fn imported_file_takes_the_place_of_its_line() {
    let lines = vec![import("util", 1), vec![num("x", 2), RawToken::Bool(true, 2)]];
    let mut imp = Importer::new(lines, "src".to_string());
    match imp.next_action() {
        ImportAction::Find { name, dir } => {
            assert_eq!(name, "util");
            assert_eq!(dir, "src");
        },
        a => panic!("unexpected {:?}", a),
    }
    assert!(imp.step(found("src/util.bpl")).is_ok());
    match imp.next_action() {
        ImportAction::Read { path } => assert_eq!(path, "src/util.bpl"),
        a => panic!("unexpected {:?}", a),
    }
    assert!(imp.step(ImportEvent::Content("y F;".to_string())).is_ok());
    assert!(matches!(imp.next_action(), ImportAction::Done));
    assert_eq!(imp.finish(), vec![vec![num("y", 1), RawToken::Bool(false, 1)], vec![num("x", 2), RawToken::Bool(true, 2)]]);
}

#[test]
fn nested_import_looks_from_the_imported_file() {
    let mut imp = Importer::new(vec![import("a", 1)], ".".to_string());
    assert!(matches!(imp.next_action(), ImportAction::Find { .. }));
    imp.step(found("lib/a.bpl")).unwrap();
    assert!(matches!(imp.next_action(), ImportAction::Read { .. }));
    imp.step(ImportEvent::Content("IMPORT b; z T;".to_string())).unwrap();
    match imp.next_action() {
        ImportAction::Find { name, dir } => {
            assert_eq!(name, "b");
            assert_eq!(dir, "lib");
        },
        a => panic!("unexpected {:?}", a),
    }
    imp.step(found("lib/b.bpl")).unwrap();
    assert!(matches!(imp.next_action(), ImportAction::Read { .. }));
    imp.step(ImportEvent::Content("w F;".to_string())).unwrap();
    assert!(matches!(imp.next_action(), ImportAction::Done));
    assert_eq!(imp.finish(), vec![vec![num("w", 1), RawToken::Bool(false, 1)], vec![num("z", 1), RawToken::Bool(true, 1)]]);
}

#[test]
fn file_imported_twice_is_read_once() {
    let mut imp = Importer::new(vec![import("a", 1), import("a", 2)], ".".to_string());
    assert!(matches!(imp.next_action(), ImportAction::Find { .. }));
    imp.step(found("lib/a.bpl")).unwrap();
    assert!(matches!(imp.next_action(), ImportAction::Read { .. }));
    imp.step(ImportEvent::Content("q T;".to_string())).unwrap();
    assert!(matches!(imp.next_action(), ImportAction::Find { .. }));
    imp.step(found("lib/a.bpl")).unwrap();
    assert!(matches!(imp.next_action(), ImportAction::Done));
    assert_eq!(imp.finish(), vec![vec![num("q", 1), RawToken::Bool(true, 1)]]);
}

#[test]
fn missing_file_is_an_error() {
    let mut imp = Importer::new(vec![import("nope", 3)], ".".to_string());
    assert!(matches!(imp.next_action(), ImportAction::Find { .. }));
    assert_eq!(imp.step(ImportEvent::Missing), Err("Строка 3: Файл 'nope' не найден".to_string()));
}

#[test]
fn unreadable_file_is_an_error() {
    let mut imp = Importer::new(vec![import("a", 4)], ".".to_string());
    imp.next_action();
    imp.step(found("a.bpl")).unwrap();
    imp.next_action();
    assert_eq!(
        imp.step(ImportEvent::ReadFailed("denied".to_string())),
        Err("Строка 4: Не удалось прочитать файл 'a': denied".to_string())
    );
}

#[test]
fn bad_imported_file_is_an_error() {
    let mut imp = Importer::new(vec![import("a", 4)], ".".to_string());
    imp.next_action();
    imp.step(found("a.bpl")).unwrap();
    imp.next_action();
    assert_eq!(
        imp.step(ImportEvent::Content("\n$;".to_string())),
        Err("Строка 2 в файле 'a':    >>  ! не получилось обработать слово: $  (2)\n\n".to_string())
    );
}

#[test]
fn imported_files_are_looked_for_in_order() {
    let c = boopl::importer::file_candidates("m");
    let expected: Vec<(Option<String>, String)> = vec![
        (None, "m".to_string()),
        (None, "m.bpl".to_string()),
        (None, "m.txt".to_string()),
        (Some("lib".to_string()), "m".to_string()),
        (Some("lib".to_string()), "m.bpl".to_string()),
        (Some("lib".to_string()), "m.txt".to_string()),
        (Some("libs".to_string()), "m".to_string()),
        (Some("libs".to_string()), "m.bpl".to_string()),
        (Some("libs".to_string()), "m.txt".to_string()),
    ];
    assert_eq!(c, expected);
}
