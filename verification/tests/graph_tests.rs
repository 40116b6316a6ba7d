use py_dependency_mapper::graph::{get_dependency_graph, reachable_from};
use py_dependency_mapper::path_map::PathMap;
use py_dependency_mapper::project::{DependencyMap, FingerprintMap, NotFound, ProjectFile};

fn map_of(entries: &[(&str, &str, &[&str])]) -> DependencyMap {
    let mut map: DependencyMap = PathMap::new();
    for (path, hash, imports) in entries {
        let file = ProjectFile {
            hash: hash.to_string(),
            imports: imports.iter().map(|s| s.to_string()).collect(),
        };
        assert!(map.insert(path.to_string(), file));
    }
    map
}

fn pairs(found: &FingerprintMap) -> Vec<(String, String)> {
    let mut out: Vec<(String, String)> = found
        .keys()
        .iter()
        .map(|k| (k.clone(), found.get(k).unwrap().clone()))
        .collect();
    out.sort();
    out
}

fn expect(items: &[(&str, &str)]) -> Vec<(String, String)> {
    items.iter().map(|(a, b)| (a.to_string(), b.to_string())).collect()
}

#[test]
fn entry_without_imports_is_alone() {
    let map = map_of(&[("/r/a.py", "ha", &[]), ("/r/b.py", "hb", &["/r/a.py"])]);
    let found = get_dependency_graph(&map, Some("/r/a.py")).unwrap();
    assert_eq!(pairs(&found), expect(&[("/r/a.py", "ha")]));
}

#[test]
fn mutual_imports_end_with_both_files_once() {
    let map = map_of(&[("/r/a.py", "ha", &["/r/b.py"]), ("/r/b.py", "hb", &["/r/a.py"])]);
    let from_a = get_dependency_graph(&map, Some("/r/a.py")).unwrap();
    assert_eq!(from_a.len(), 2);
    assert_eq!(pairs(&from_a), expect(&[("/r/a.py", "ha"), ("/r/b.py", "hb")]));
    let from_b = get_dependency_graph(&map, Some("/r/b.py")).unwrap();
    assert_eq!(pairs(&from_b), expect(&[("/r/a.py", "ha"), ("/r/b.py", "hb")]));
}

#[test]
fn a_file_that_imports_itself_is_found_once() {
    let map = map_of(&[("/r/a.py", "ha", &["/r/a.py", "/r/a.py"])]);
    let found = reachable_from(&map, "/r/a.py");
    assert_eq!(pairs(&found), expect(&[("/r/a.py", "ha")]));
}

#[test]
fn entry_without_a_record_gives_an_empty_result() {
    let map = map_of(&[("/r/a.py", "ha", &[])]);
    let found = get_dependency_graph(&map, Some("/r/missing.py")).unwrap();
    assert_eq!(found.len(), 0);
    assert_eq!(pairs(&found), expect(&[]));
}

#[test]
fn unresolved_entry_is_not_found() {
    let map = map_of(&[("/r/a.py", "ha", &[])]);
    assert_eq!(get_dependency_graph(&map, None).err(), Some(NotFound::EntryPoint));
}

#[test]
fn imports_without_a_record_are_left_out() {
    let map = map_of(&[("/r/a.py", "ha", &["/r/gone.py", "/r/b.py"]), ("/r/b.py", "hb", &[])]);
    let found = reachable_from(&map, "/r/a.py");
    assert_eq!(pairs(&found), expect(&[("/r/a.py", "ha"), ("/r/b.py", "hb")]));
}

#[test]
fn a_file_reached_along_two_routes_is_found_once() {
    let map = map_of(&[
        ("/r/top.py", "h0", &["/r/left.py", "/r/right.py"]),
        ("/r/left.py", "h1", &["/r/base.py"]),
        ("/r/right.py", "h2", &["/r/base.py"]),
        ("/r/base.py", "h3", &[]),
        ("/r/unrelated.py", "h4", &["/r/top.py"]),
    ]);
    let found = reachable_from(&map, "/r/top.py");
    assert_eq!(
        pairs(&found),
        expect(&[
            ("/r/base.py", "h3"),
            ("/r/left.py", "h1"),
            ("/r/right.py", "h2"),
            ("/r/top.py", "h0"),
        ])
    );
}

#[test]
fn a_long_chain_is_followed_to_its_end() {
    let map = map_of(&[
        ("/1", "a", &["/2"]),
        ("/2", "b", &["/3"]),
        ("/3", "c", &["/4"]),
        ("/4", "d", &["/1"]),
    ]);
    let found = reachable_from(&map, "/3");
    assert_eq!(pairs(&found), expect(&[("/1", "a"), ("/2", "b"), ("/3", "c"), ("/4", "d")]));
}

#[test]
fn an_empty_map_gives_an_empty_result() {
    let map: DependencyMap = PathMap::new();
    assert_eq!(reachable_from(&map, "/r/a.py").len(), 0);
}
