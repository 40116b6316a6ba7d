use py_dependency_mapper::imports::{
    imports_from_source, matches_any_prefix, modules_of_file, names_of_statements, select_names,
    ImportStatement,
};

fn texts(items: &[&str]) -> Vec<String> {
    items.iter().map(|s| s.to_string()).collect()
}

#[test]
fn plain_imports_are_taken_verbatim() {
    assert_eq!(imports_from_source("import os\nimport a.b.c\n"), texts(&["os", "a.b.c"]));
}

#[test]
fn several_names_in_one_statement_keep_their_order() {
    assert_eq!(imports_from_source("import a, b.c, d\n"), texts(&["a", "b.c", "d"]));
}

#[test]
fn an_alias_does_not_change_the_name() {
    assert_eq!(imports_from_source("import numpy.linalg as la\n"), texts(&["numpy.linalg"]));
}

#[test]
fn from_import_gives_the_module_and_one_name_per_symbol() {
    assert_eq!(
        imports_from_source("from pkg.sub import x, y as z\n"),
        texts(&["pkg.sub", "pkg.sub.x", "pkg.sub.y"])
    );
}

#[test]
fn wildcard_gives_only_the_module() {
    assert_eq!(imports_from_source("from pkg import *\n"), texts(&["pkg"]));
}

#[test]
fn relative_imports_give_nothing() {
    assert_eq!(imports_from_source("from . import a\nfrom .b import c\nfrom ..d.e import f\n"), texts(&[]));
}

#[test]
fn imports_inside_blocks_are_found() {
    let source = "\
import top
def f():
    import inner
    if True:
        from deep import thing
class C:
    import in_class
try:
    import guarded
except ImportError:
    import fallback
";
    assert_eq!(
        imports_from_source(source),
        texts(&["top", "inner", "deep", "deep.thing", "in_class", "guarded", "fallback"])
    );
}

#[test]
fn text_that_does_not_parse_gives_nothing() {
    assert_eq!(imports_from_source("import a\ndef broken(:\n"), texts(&[]));
}

#[test]
fn empty_text_gives_nothing() {
    assert_eq!(imports_from_source(""), texts(&[]));
}

#[test]
fn names_of_statements_follow_the_rules_without_a_parser() {
    let statements = vec![
        ImportStatement::Import { names: texts(&["a.b", "c"]) },
        ImportStatement::ImportFrom { module: Some("m".to_string()), names: texts(&["x", "*", "y"]), level: 0 },
        ImportStatement::ImportFrom { module: Some("rel".to_string()), names: texts(&["x"]), level: 1 },
        ImportStatement::ImportFrom { module: None, names: texts(&["x"]), level: 0 },
    ];
    assert_eq!(names_of_statements(&statements), texts(&["a.b", "c", "m", "m.x", "m.y"]));
}

#[test]
fn prefix_test_is_on_characters_only() {
    let prefixes = texts(&["pkg"]);
    assert!(matches_any_prefix("pkg", &prefixes));
    assert!(matches_any_prefix("pkg.sub", &prefixes));
    assert!(matches_any_prefix("pkgextra", &prefixes));
    assert!(!matches_any_prefix("pk", &prefixes));
    assert!(!matches_any_prefix("other.pkg", &prefixes));
}

#[test]
fn no_prefix_matches_nothing_and_empty_prefix_matches_all() {
    assert!(!matches_any_prefix("a", &texts(&[])));
    assert!(matches_any_prefix("a", &texts(&[""])));
}

#[test]
fn select_names_keeps_matching_names_in_order() {
    let names = texts(&["os", "app.core", "lib.x", "app", "sys", "application"]);
    assert_eq!(
        select_names(&names, &texts(&["app", "lib."])),
        texts(&["app.core", "lib.x", "app", "application"])
    );
}

#[test]
fn modules_of_file_decodes_parses_and_filters() {
    let bytes = "import os\nfrom a.b import c\nimport ab\n".as_bytes();
    assert_eq!(modules_of_file(bytes, &texts(&["a"])), texts(&["a.b", "a.b.c", "ab"]));
}

#[test]
fn bytes_that_are_not_text_have_no_modules() {
    let bytes = [b'i', b'm', b'p', b'o', b'r', b't', b' ', b'a', 0xff, 0xfe];
    assert_eq!(modules_of_file(&bytes, &texts(&["a"])), texts(&[]));
}

#[test]
fn non_ascii_text_is_decoded() {
    let bytes = "# caf\u{e9}\nimport a\n".as_bytes();
    assert_eq!(modules_of_file(bytes, &texts(&["a"])), texts(&["a"]));
}
