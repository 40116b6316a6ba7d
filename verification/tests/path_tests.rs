use py_dependency_mapper::path_map::PathMap;
use py_dependency_mapper::paths::{
    is_source_file, join, module_file_candidate, package_init_candidate, package_init_candidates,
    select_source_files,
};
use py_dependency_mapper::text::{append_chars, from_chars, starts_with, to_chars};

fn texts(items: &[&str]) -> Vec<String> {
    items.iter().map(|s| s.to_string()).collect()
}

#[test]
fn chars_round_trip() {
    let chars = to_chars("a/\u{e9}.py");
    assert_eq!(chars, vec!['a', '/', '\u{e9}', '.', 'p', 'y']);
    assert_eq!(from_chars(&chars), "a/\u{e9}.py");
    assert_eq!(from_chars(&Vec::new()), "");
}

#[test]
fn append_chars_adds_at_the_end() {
    let mut target = vec!['a', 'b'];
    append_chars(&mut target, &vec!['c', 'd']);
    assert_eq!(target, vec!['a', 'b', 'c', 'd']);
}

#[test]
fn starts_with_compares_characters() {
    assert!(starts_with("abc", "ab"));
    assert!(starts_with("abc", ""));
    assert!(starts_with("abc", "abc"));
    assert!(!starts_with("abc", "abcd"));
    assert!(!starts_with("abc", "b"));
}

#[test]
fn join_adds_one_separator() {
    assert_eq!(join("/root", "pkg/mod.py"), "/root/pkg/mod.py");
    assert_eq!(join("/root/", "pkg"), "/root/pkg");
    assert_eq!(join("/", "pkg"), "/pkg");
    assert_eq!(join("", "pkg"), "pkg");
    assert_eq!(join("/root", ""), "/root/");
}

#[test]
fn join_lets_an_absolute_path_stand() {
    assert_eq!(join("/root", "/elsewhere/x.py"), "/elsewhere/x.py");
}

#[test]
fn package_initializer_of_a_module() {
    assert_eq!(package_init_candidate("a.b.c", "/r"), "/r/a/b/c/__init__.py");
    assert_eq!(package_init_candidate("a", "/r"), "/r/a/__init__.py");
}

#[test]
fn source_file_of_a_module() {
    assert_eq!(module_file_candidate("a.b.c", "/r"), "/r/a/b/c.py");
    assert_eq!(module_file_candidate("a", "/r"), "/r/a.py");
}

#[test]
fn ancestor_initializers_outermost_first() {
    assert_eq!(
        package_init_candidates("a.b.c", "/r"),
        texts(&["/r/a/__init__.py", "/r/a/b/__init__.py"])
    );
}

#[test]
fn a_top_level_module_has_no_ancestors() {
    assert_eq!(package_init_candidates("a", "/r"), texts(&[]));
    assert_eq!(package_init_candidates("", "/r"), texts(&[]));
}

#[test]
fn source_files_end_in_py_after_a_stem() {
    assert!(is_source_file("/r/a.py"));
    assert!(is_source_file("a.py"));
    assert!(is_source_file("/r/a.b.py"));
    assert!(!is_source_file("/r/a.pyc"));
    assert!(!is_source_file("/r/a.txt"));
    assert!(!is_source_file("/r/py"));
    assert!(!is_source_file("/r/.py"));
    assert!(!is_source_file(".py"));
    assert!(!is_source_file(""));
    assert!(!is_source_file("/r/a.PY"));
}

#[test]
fn select_source_files_keeps_order() {
    let listed = texts(&["/r/b.py", "/r/readme.md", "/r/a.py", "/r/data.json", "/r/p/__init__.py"]);
    assert_eq!(select_source_files(listed), texts(&["/r/b.py", "/r/a.py", "/r/p/__init__.py"]));
}

#[test]
fn path_map_first_write_wins() {
    let mut map: PathMap<u32> = PathMap::new();
    assert_eq!(map.len(), 0);
    assert!(map.insert("/a".to_string(), 1));
    assert!(map.insert("/b".to_string(), 2));
    assert!(!map.insert("/a".to_string(), 3));
    assert_eq!(map.len(), 2);
    assert_eq!(map.get("/a"), Some(&1));
    assert_eq!(map.get("/b"), Some(&2));
    assert_eq!(map.get("/c"), None);
    assert!(map.contains_key("/a"));
    assert!(!map.contains_key("/c"));
    assert_eq!(map.keys(), &texts(&["/a", "/b"]));
}
