use py_dependency_mapper::builder::{MapBuilder, Stage};
use py_dependency_mapper::fingerprint::fingerprint;
use py_dependency_mapper::project::{DependencyMap, NotFound};
use py_dependency_mapper::requests::{Answer, PathKind, Request};
use std::collections::BTreeMap;

/// A tree of files held in memory, answering what a disk would.
struct Tree {
    files: BTreeMap<String, Option<Vec<u8>>>,
    links: BTreeMap<String, String>,
    probes: Vec<String>,
    reads: Vec<String>,
}

impl Tree {
    fn new(files: &[(&str, &str)]) -> Tree {
        let mut tree = Tree {
            files: BTreeMap::new(),
            links: BTreeMap::new(),
            probes: Vec::new(),
            reads: Vec::new(),
        };
        for (path, text) in files {
            tree.files.insert(path.to_string(), Some(text.as_bytes().to_vec()));
        }
        tree
    }

    fn is_dir(&self, path: &str) -> bool {
        let below = format!("{}/", path.trim_end_matches('/'));
        self.files.keys().any(|f| f.starts_with(&below))
    }

    fn present(&self, path: &str) -> bool {
        self.files.contains_key(path) || self.is_dir(path)
    }

    fn answer(&mut self, request: &Request) -> Option<Answer> {
        match request {
            Request::Canonicalize(path) => {
                let target = self.links.get(path).cloned().unwrap_or(path.clone());
                Some(Answer::Canonical(if self.present(&target) { Some(target) } else { None }))
            }
            Request::Classify(path) => Some(Answer::Kind(if self.is_dir(path) {
                PathKind::Directory
            } else if self.files.contains_key(path) {
                PathKind::File
            } else {
                PathKind::Other
            })),
            Request::ListFiles(path) => {
                let below = format!("{}/", path.trim_end_matches('/'));
                let mut listed: Vec<String> =
                    self.files.keys().filter(|f| f.starts_with(&below)).cloned().collect();
                listed.extend(self.links.keys().filter(|f| f.starts_with(&below)).cloned());
                Some(Answer::Files(listed))
            }
            Request::Read(path) => {
                self.reads.push(path.clone());
                Some(Answer::Content(self.files.get(path).cloned().unwrap_or(None)))
            }
            Request::Exists(path) => {
                self.probes.push(path.clone());
                Some(Answer::Exists(self.present(path)))
            }
            Request::Finished => None,
        }
    }
}

fn texts(items: &[&str]) -> Vec<String> {
    items.iter().map(|s| s.to_string()).collect()
}

fn build(tree: &mut Tree, root: &str, prefixes: &[&str], includes: &[&str]) -> Result<DependencyMap, NotFound> {
    let mut builder = MapBuilder::new(root, texts(prefixes), texts(includes));
    let mut request = builder.request();
    let mut steps = 0;
    while let Some(answer) = tree.answer(&request) {
        request = builder.step(answer);
        steps += 1;
        assert!(steps < 100_000);
    }
    assert!(builder.is_done());
    builder.into_result()
}

fn imports_of(map: &DependencyMap, path: &str) -> Vec<String> {
    let mut imports = map.get(path).unwrap().imports.clone();
    imports.sort();
    imports
}

fn snapshot(map: &DependencyMap) -> Vec<(String, String, Vec<String>)> {
    let mut out: Vec<(String, String, Vec<String>)> = map
        .keys()
        .iter()
        .map(|k| (k.clone(), map.get(k).unwrap().hash.clone(), imports_of(map, k)))
        .collect();
    out.sort();
    out
}

#[test]
fn importing_a_submodule_pulls_in_every_package_initializer() {
    let mut tree = Tree::new(&[
        ("/r/a/__init__.py", ""),
        ("/r/a/b/__init__.py", ""),
        ("/r/a/b/c.py", "x = 1\n"),
        ("/r/main.py", "import a.b.c\n"),
    ]);
    let map = build(&mut tree, "/r", &["a"], &["main.py"]).unwrap();
    assert_eq!(map.len(), 1);
    assert_eq!(
        imports_of(&map, "/r/main.py"),
        texts(&["/r/a/__init__.py", "/r/a/b/__init__.py", "/r/a/b/c.py"])
    );
    assert_eq!(map.get("/r/main.py").unwrap().hash, fingerprint(b"import a.b.c\n"));
}

#[test]
fn a_whole_directory_is_scanned() {
    let mut tree = Tree::new(&[
        ("/r/a/__init__.py", ""),
        ("/r/a/b/__init__.py", ""),
        ("/r/a/b/c.py", "from a import b\n"),
        ("/r/main.py", "import a.b.c\n"),
        ("/r/notes.txt", "import a\n"),
    ]);
    let map = build(&mut tree, "/r", &["a"], &[""]).unwrap();
    assert_eq!(
        map.keys().iter().cloned().collect::<std::collections::BTreeSet<String>>(),
        texts(&["/r/a/__init__.py", "/r/a/b/__init__.py", "/r/a/b/c.py", "/r/main.py"])
            .into_iter()
            .collect()
    );
    assert_eq!(
        imports_of(&map, "/r/a/b/c.py"),
        texts(&["/r/a/__init__.py", "/r/a/b/__init__.py"])
    );
    assert_eq!(imports_of(&map, "/r/a/__init__.py"), texts(&[]));
}

#[test]
fn names_outside_the_filter_are_never_resolved() {
    let mut tree = Tree::new(&[
        ("/r/a.py", ""),
        ("/r/b.py", ""),
        ("/r/main.py", "import a\nimport b\nimport os\n"),
    ]);
    let map = build(&mut tree, "/r", &["a"], &["main.py"]).unwrap();
    assert_eq!(imports_of(&map, "/r/main.py"), texts(&["/r/a.py"]));
    assert!(tree.probes.iter().all(|p| !p.contains("/b") && !p.contains("os")));
}

#[test]
fn a_prefix_also_matches_a_sibling_with_a_longer_name() {
    let mut tree = Tree::new(&[
        ("/r/pkg/__init__.py", ""),
        ("/r/pkgextra.py", ""),
        ("/r/main.py", "import pkg\nimport pkgextra\n"),
    ]);
    let map = build(&mut tree, "/r", &["pkg"], &["main.py"]).unwrap();
    assert_eq!(imports_of(&map, "/r/main.py"), texts(&["/r/pkg/__init__.py", "/r/pkgextra.py"]));
}

#[test]
fn relative_imports_add_nothing() {
    let mut tree = Tree::new(&[
        ("/r/a/__init__.py", ""),
        ("/r/a/b.py", ""),
        ("/r/a/c.py", "from . import b\nfrom .b import x\n"),
    ]);
    let map = build(&mut tree, "/r", &["a", "b", ""], &["a/c.py"]).unwrap();
    assert_eq!(imports_of(&map, "/r/a/c.py"), texts(&[]));
    assert_eq!(tree.probes, texts(&[]));
}

#[test]
fn a_package_wins_over_a_module_of_the_same_name() {
    let mut tree = Tree::new(&[
        ("/r/a/__init__.py", ""),
        ("/r/a.py", ""),
        ("/r/main.py", "import a\n"),
    ]);
    let map = build(&mut tree, "/r", &["a"], &["main.py"]).unwrap();
    assert_eq!(imports_of(&map, "/r/main.py"), texts(&["/r/a/__init__.py"]));
    assert_eq!(tree.probes, texts(&["/r/a/__init__.py"]));
}

#[test]
fn a_symbol_import_resolves_when_the_symbol_is_a_submodule() {
    let mut tree = Tree::new(&[
        ("/r/a/__init__.py", ""),
        ("/r/a/sub.py", ""),
        ("/r/main.py", "from a import sub, helper\n"),
    ]);
    let map = build(&mut tree, "/r", &["a"], &["main.py"]).unwrap();
    assert_eq!(imports_of(&map, "/r/main.py"), texts(&["/r/a/__init__.py", "/r/a/sub.py"]));
}

#[test]
fn an_import_that_resolves_to_nothing_is_left_out() {
    let mut tree = Tree::new(&[("/r/main.py", "import a.b\n")]);
    let map = build(&mut tree, "/r", &["a"], &["main.py"]).unwrap();
    assert_eq!(imports_of(&map, "/r/main.py"), texts(&[]));
    assert_eq!(tree.probes, texts(&["/r/a/__init__.py", "/r/a/b/__init__.py", "/r/a/b.py"]));
}

#[test]
fn each_module_name_is_looked_up_once() {
    let mut tree = Tree::new(&[
        ("/r/a/__init__.py", ""),
        ("/r/a/b.py", ""),
        ("/r/one.py", "import a.b\nimport a.b\n"),
        ("/r/two.py", "import a.b\n"),
    ]);
    let map = build(&mut tree, "/r", &["a"], &["one.py", "two.py"]).unwrap();
    assert_eq!(imports_of(&map, "/r/one.py"), texts(&["/r/a/__init__.py", "/r/a/b.py"]));
    assert_eq!(imports_of(&map, "/r/two.py"), texts(&["/r/a/__init__.py", "/r/a/b.py"]));
    assert_eq!(tree.probes, texts(&["/r/a/__init__.py", "/r/a/b/__init__.py", "/r/a/b.py"]));
}

#[test]
fn a_missing_source_root_is_the_one_failure() {
    let mut tree = Tree::new(&[("/r/main.py", "")]);
    assert_eq!(build(&mut tree, "/nowhere", &["a"], &["main.py"]).err(), Some(NotFound::SourceRoot));
    assert_eq!(tree.reads, texts(&[]));
}

#[test]
fn an_unreadable_file_is_absent_from_the_map() {
    let mut tree = Tree::new(&[("/r/ok.py", "")]);
    tree.files.insert("/r/locked.py".to_string(), None);
    let map = build(&mut tree, "/r", &[], &["locked.py", "ok.py"]).unwrap();
    assert!(!map.contains_key("/r/locked.py"));
    assert!(map.contains_key("/r/ok.py"));
    assert_eq!(map.len(), 1);
}

#[test]
fn bytes_that_are_not_text_are_recorded_without_imports() {
    let mut tree = Tree::new(&[("/r/a.py", "")]);
    tree.files.insert("/r/blob.py".to_string(), Some(vec![b'i', 0xff, 0xfe, 0x00]));
    let map = build(&mut tree, "/r", &["a"], &["blob.py"]).unwrap();
    assert_eq!(imports_of(&map, "/r/blob.py"), texts(&[]));
    assert_eq!(map.get("/r/blob.py").unwrap().hash, fingerprint(&[b'i', 0xff, 0xfe, 0x00]));
}

#[test]
fn text_that_does_not_parse_is_recorded_without_imports() {
    let mut tree = Tree::new(&[("/r/a.py", ""), ("/r/bad.py", "import a\nclass (:\n")]);
    let map = build(&mut tree, "/r", &["a"], &["bad.py"]).unwrap();
    assert_eq!(imports_of(&map, "/r/bad.py"), texts(&[]));
    assert_eq!(map.get("/r/bad.py").unwrap().hash, fingerprint(b"import a\nclass (:\n"));
}

#[test]
fn two_routes_to_one_file_give_one_record() {
    let mut tree = Tree::new(&[("/r/real.py", "x = 1\n"), ("/r/a.py", "")]);
    tree.links.insert("/r/alias.py".to_string(), "/r/real.py".to_string());
    let map = build(&mut tree, "/r", &[], &[""]).unwrap();
    assert_eq!(map.keys().len(), 2);
    assert!(map.contains_key("/r/real.py"));
    assert!(!map.contains_key("/r/alias.py"));
    assert_eq!(tree.reads.iter().filter(|p| p.as_str() == "/r/real.py").count(), 1);
}

#[test]
fn a_path_named_twice_is_analysed_once() {
    let mut tree = Tree::new(&[("/r/main.py", "")]);
    let map = build(&mut tree, "/r", &[], &["main.py", "main.py", ""]).unwrap();
    assert_eq!(map.len(), 1);
    assert_eq!(tree.reads, texts(&["/r/main.py"]));
}

#[test]
fn include_paths_that_are_not_source_files_or_do_not_exist_are_passed_over() {
    let mut tree = Tree::new(&[("/r/main.py", ""), ("/r/notes.txt", "")]);
    let map = build(&mut tree, "/r", &[], &["notes.txt", "missing", "main.py"]).unwrap();
    assert_eq!(map.keys(), &texts(&["/r/main.py"]));
}

#[test]
fn no_include_paths_give_an_empty_map() {
    let mut tree = Tree::new(&[("/r/main.py", "")]);
    let map = build(&mut tree, "/r", &["a"], &[]).unwrap();
    assert_eq!(map.len(), 0);
}

#[test]
fn building_twice_gives_the_same_map() {
    let files = [
        ("/r/a/__init__.py", "from a import b\n"),
        ("/r/a/b.py", "import a\nimport c\n"),
        ("/r/c.py", "import a.b\n"),
        ("/r/main.py", "import a.b\nimport c\nimport os\n"),
    ];
    let first = build(&mut Tree::new(&files), "/r", &["a", "c"], &[""]).unwrap();
    let second = build(&mut Tree::new(&files), "/r", &["a", "c"], &[""]).unwrap();
    assert_eq!(snapshot(&first), snapshot(&second));
    assert_eq!(first.len(), 4);
    assert_eq!(imports_of(&first, "/r/c.py"), texts(&["/r/a/__init__.py", "/r/a/b.py"]));
}

#[test]
fn an_answer_that_does_not_fit_changes_nothing() {
    let mut builder = MapBuilder::new("/r", texts(&["a"]), texts(&["main.py"]));
    assert_eq!(builder.stage(), Stage::AwaitRoot);
    let request = builder.step(Answer::Exists(true));
    assert!(matches!(request, Request::Canonicalize(ref p) if p == "/r"));
    assert_eq!(builder.stage(), Stage::AwaitRoot);
    let request = builder.step(Answer::Canonical(Some("/real".to_string())));
    assert!(matches!(request, Request::Classify(ref p) if p == "/real/main.py"));
    let request = builder.step(Answer::Files(texts(&["/real/x.py"])));
    assert!(matches!(request, Request::Classify(ref p) if p == "/real/main.py"));
    assert_eq!(builder.stage(), Stage::AwaitKind);
}

#[test]
fn the_requests_of_one_file_come_in_order() {
    let mut builder = MapBuilder::new("/r", texts(&["a"]), texts(&["main.py"]));
    let mut seen: Vec<String> = Vec::new();
    let mut request = builder.request();
    let mut tree = Tree::new(&[("/r/a/b.py", ""), ("/r/main.py", "import a.b\n")]);
    while let Some(answer) = tree.answer(&request) {
        seen.push(format!("{:?}", request));
        request = builder.step(answer);
    }
    assert_eq!(
        seen,
        texts(&[
            "Canonicalize(\"/r\")",
            "Classify(\"/r/main.py\")",
            "Canonicalize(\"/r/main.py\")",
            "Read(\"/r/main.py\")",
            "Exists(\"/r/a/__init__.py\")",
            "Exists(\"/r/a/b/__init__.py\")",
            "Exists(\"/r/a/b.py\")",
        ])
    );
    assert_eq!(builder.stage(), Stage::Finished);
    assert_eq!(imports_of(&builder.into_result().unwrap(), "/r/main.py"), texts(&["/r/a/b.py"]));
}
