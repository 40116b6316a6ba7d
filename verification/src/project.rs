//! The records a dependency map is made of.

use crate::path_map::PathMap;
use crate::text::views;
use vstd::prelude::*;

verus! {

/// What is known of one source file: the fingerprint of its bytes and the
/// files it imports.
#[derive(Clone, Debug)]
pub struct ProjectFile {
    pub hash: String,
    pub imports: Vec<String>,
}

/// Mathematical form of a [`ProjectFile`]. The imports form a set: their
/// order carries no meaning.
pub struct ProjectFileView {
    pub hash: Seq<char>,
    pub imports: Set<Seq<char>>,
}

impl View for ProjectFile {
    type V = ProjectFileView;

    open spec fn view(&self) -> ProjectFileView {
        ProjectFileView { hash: self.hash@, imports: views(self.imports@).to_set() }
    }
}

/// From the canonical path of each known file to its record.
pub type DependencyMap = PathMap<ProjectFile>;

/// From the canonical path of a file to its fingerprint.
pub type FingerprintMap = PathMap<String>;

/// A dependency map with each record in mathematical form.
pub open spec fn file_views(map: Map<Seq<char>, ProjectFile>) -> Map<Seq<char>, ProjectFileView> {
    map.map_values(|file: ProjectFile| file@)
}

/// A fingerprint map with each fingerprint as plain text.
pub open spec fn fingerprint_views(map: Map<Seq<char>, String>) -> Map<Seq<char>, Seq<char>> {
    map.map_values(|hash: String| hash@)
}

/// `imports` with `path` added at the end unless it is already there.
pub open spec fn with_import(imports: Seq<Seq<char>>, path: Seq<char>) -> Seq<Seq<char>> {
    if imports.contains(path) {
        imports
    } else {
        imports.push(path)
    }
}

/// `imports` with each of `extra` added in turn.
pub open spec fn with_imports(imports: Seq<Seq<char>>, extra: Seq<Seq<char>>) -> Seq<Seq<char>>
    decreases extra.len(),
{
    if extra.len() == 0 {
        imports
    } else {
        with_import(with_imports(imports, extra.drop_last()), extra.last())
    }
}

/// `imports` with the file a module resolved to, if it resolved.
pub open spec fn with_resolution(imports: Seq<Seq<char>>, resolution: Option<Seq<char>>) -> Seq<
    Seq<char>,
> {
    match resolution {
        Some(path) => with_import(imports, path),
        None => imports,
    }
}

/// `map` with `file` recorded for `path` unless the path already has a
/// record: the first record stays.
pub open spec fn with_record(
    map: Map<Seq<char>, ProjectFileView>,
    path: Seq<char>,
    file: ProjectFileView,
) -> Map<Seq<char>, ProjectFileView> {
    if map.contains_key(path) {
        map
    } else {
        map.insert(path, file)
    }
}

/// Adding an import to a list without repeats leaves it without repeats.
pub proof fn lemma_with_import_has_no_repeats(imports: Seq<Seq<char>>, path: Seq<char>)
    requires
        imports.no_duplicates(),
    ensures
        with_import(imports, path).no_duplicates(),
{
    if !imports.contains(path) {
        let longer = imports.push(path);
        assert forall|i: int, j: int|
            0 <= i < longer.len() && 0 <= j < longer.len() && i != j implies longer[i]
            != longer[j] by {
            if i < imports.len() {
                assert(imports.contains(imports[i]));
            }
            if j < imports.len() {
                assert(imports.contains(imports[j]));
            }
        }
    }
}

/// No record of `map` names an import twice.
pub open spec fn without_repeats(map: Map<Seq<char>, ProjectFile>) -> bool {
    forall|path: Seq<char>| #[trigger]
        map.contains_key(path) ==> views(map[path].imports@).no_duplicates()
}

/// What could not be found on disk.
#[derive(Clone, Copy, Debug, PartialEq, Eq, Structural)]
pub enum NotFound {
    /// The source root does not resolve to an existing location.
    SourceRoot,
    /// The entry point does not resolve to an existing location.
    EntryPoint,
}

} // verus!
