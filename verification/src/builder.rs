//! Building a dependency map, one request at a time.
//!
//! A [`MapBuilder`] holds every decision of a build pass and none of its
//! I/O. It always has one pending [`Request`]; the driver carries the
//! request out and hands the [`Answer`] to [`MapBuilder::step`], which moves
//! the builder on to its next request. What the builder does with each
//! answer is given by [`after_answer`].

use crate::fingerprint::{fingerprint, fingerprint_of};
use crate::imports::{file_modules, modules_of_file};
use crate::path_map::PathMap;
use crate::paths::{
    ancestor_init_paths, join, join_path, module_file_candidate, module_file_path,
    package_init_candidate, package_init_candidates, package_init_path, select_source_files,
    source_files,
};
use crate::project::{
    file_views, lemma_with_import_has_no_repeats, with_import, with_imports, with_record,
    with_resolution, without_repeats, DependencyMap, NotFound, ProjectFile, ProjectFileView,
};
use crate::requests::{Answer, AnswerView, PathKind, Request, RequestView};
use crate::text::views;
use vstd::prelude::*;

verus! {

/// What a builder is waiting for.
#[derive(Clone, Copy, Debug, PartialEq, Eq, Structural)]
pub enum Stage {
    /// The canonical form of the source root.
    AwaitRoot,
    /// The kind of the current include path.
    AwaitKind,
    /// The files below the current include path.
    AwaitListing,
    /// The canonical form of the current file.
    AwaitCanonical,
    /// The bytes of the current file.
    AwaitContent,
    /// Whether the current ancestor initializer exists.
    AwaitAncestor,
    /// Whether the current module is a package with an initializer.
    AwaitPackageInit,
    /// Whether the current module is a plain source file.
    AwaitModuleFile,
    /// Nothing: every include path has been dealt with.
    Finished,
    /// Nothing: the source root does not exist.
    Failed,
}

/// Mathematical form of a [`MapBuilder`].
#[verifier::ext_equal]
pub struct BuilderView {
    pub stage: Stage,
    /// The source root: as given until it has been resolved, canonical after.
    pub source_root: Seq<char>,
    pub filter_prefixes: Seq<Seq<char>>,
    pub include_paths: Seq<Seq<char>>,
    /// Index of the include path being dealt with.
    pub next_include: nat,
    /// Source files found under the current include path.
    pub files: Seq<Seq<char>>,
    /// Index of the file being dealt with.
    pub next_file: nat,
    /// Canonical path of the file being analysed.
    pub path: Seq<char>,
    /// Fingerprint of the file being analysed.
    pub hash: Seq<char>,
    /// Module names the file being analysed imports, after filtering.
    pub modules: Seq<Seq<char>>,
    /// Index of the module being resolved.
    pub next_module: nat,
    /// Import targets gathered so far for the file being analysed.
    pub imports: Seq<Seq<char>>,
    /// Ancestor initializers being probed for the current module.
    pub candidates: Seq<Seq<char>>,
    /// Index of the initializer being probed.
    pub next_candidate: nat,
    /// Ancestor initializers found to exist so far for the current module.
    pub found: Seq<Seq<char>>,
    pub dependency_map: Map<Seq<char>, ProjectFileView>,
    /// Resolution cache: module name to the file it resolves to, if any.
    pub resolutions: Map<Seq<char>, Option<Seq<char>>>,
    /// Ancestor-initializer cache: module name to the initializers that exist.
    pub package_inits: Map<Seq<char>, Seq<Seq<char>>>,
}

/// The view of an optional text.
pub open spec fn option_view(text: Option<String>) -> Option<Seq<char>> {
    match text {
        Some(t) => Some(t@),
        None => None,
    }
}

/// A resolution cache with each entry as plain text.
pub open spec fn resolution_views(cache: Map<Seq<char>, Option<String>>) -> Map<
    Seq<char>,
    Option<Seq<char>>,
> {
    cache.map_values(|r: Option<String>| option_view(r))
}

/// An ancestor-initializer cache with each entry as plain text.
pub open spec fn inits_views(cache: Map<Seq<char>, Vec<String>>) -> Map<Seq<char>, Seq<Seq<char>>> {
    cache.map_values(|inits: Vec<String>| views(inits@))
}

/// Stages in which an include path is being dealt with.
pub open spec fn scanning(stage: Stage) -> bool {
    stage != Stage::AwaitRoot && stage != Stage::Finished && stage != Stage::Failed
}

/// Stages in which a file is being dealt with.
pub open spec fn in_file(stage: Stage) -> bool {
    scanning(stage) && stage != Stage::AwaitKind && stage != Stage::AwaitListing
}

/// Stages in which a module is being resolved.
pub open spec fn in_module(stage: Stage) -> bool {
    stage == Stage::AwaitAncestor || stage == Stage::AwaitPackageInit || stage
        == Stage::AwaitModuleFile
}

/// The indices of a state point at what its stage is waiting on, and a
/// module is only asked about while its cache has no answer.
pub open spec fn well_formed(s: BuilderView) -> bool {
    &&& scanning(s.stage) ==> s.next_include < s.include_paths.len()
    &&& in_file(s.stage) ==> s.next_file < s.files.len()
    &&& in_module(s.stage) ==> s.next_module < s.modules.len()
    &&& s.stage == Stage::AwaitAncestor ==> s.next_candidate < s.candidates.len()
        && !s.package_inits.contains_key(current_module(s))
    &&& s.stage == Stage::AwaitPackageInit || s.stage == Stage::AwaitModuleFile
        ==> !s.resolutions.contains_key(current_module(s))
}

/// The include path being dealt with, taken relative to the source root.
pub open spec fn current_include(s: BuilderView) -> Seq<char> {
    join_path(s.source_root, s.include_paths[s.next_include as int])
}

/// The module being resolved.
pub open spec fn current_module(s: BuilderView) -> Seq<char> {
    s.modules[s.next_module as int]
}

/// The state a build pass starts in.
pub open spec fn initial_state(
    source_root: Seq<char>,
    filter_prefixes: Seq<Seq<char>>,
    include_paths: Seq<Seq<char>>,
) -> BuilderView {
    BuilderView {
        stage: Stage::AwaitRoot,
        source_root,
        filter_prefixes,
        include_paths,
        next_include: 0,
        files: Seq::empty(),
        next_file: 0,
        path: Seq::empty(),
        hash: Seq::empty(),
        modules: Seq::empty(),
        next_module: 0,
        imports: Seq::empty(),
        candidates: Seq::empty(),
        next_candidate: 0,
        found: Seq::empty(),
        dependency_map: Map::empty(),
        resolutions: Map::empty(),
        package_inits: Map::empty(),
    }
}

/// What a state asks of the driver.
pub open spec fn pending_request(s: BuilderView) -> RequestView {
    match s.stage {
        Stage::AwaitRoot => RequestView::Canonicalize(s.source_root),
        Stage::AwaitKind => RequestView::Classify(current_include(s)),
        Stage::AwaitListing => RequestView::ListFiles(current_include(s)),
        Stage::AwaitCanonical => RequestView::Canonicalize(s.files[s.next_file as int]),
        Stage::AwaitContent => RequestView::Read(s.path),
        Stage::AwaitAncestor => RequestView::Exists(s.candidates[s.next_candidate as int]),
        Stage::AwaitPackageInit => RequestView::Exists(
            package_init_path(s.source_root, current_module(s)),
        ),
        Stage::AwaitModuleFile => RequestView::Exists(
            module_file_path(s.source_root, current_module(s)),
        ),
        Stage::Finished => RequestView::Finished,
        Stage::Failed => RequestView::Finished,
    }
}

/// Turns to the include path at `next_include`, or finishes when there is none.
pub open spec fn start_include(s: BuilderView) -> BuilderView {
    if s.next_include < s.include_paths.len() {
        BuilderView { stage: Stage::AwaitKind, ..s }
    } else {
        BuilderView { stage: Stage::Finished, ..s }
    }
}

/// Turns to the file at `next_file`, or to the next include path when the
/// files of this one are used up.
pub open spec fn start_file(s: BuilderView) -> BuilderView {
    if s.next_file < s.files.len() {
        BuilderView { stage: Stage::AwaitCanonical, ..s }
    } else {
        start_include(BuilderView { next_include: s.next_include + 1, ..s })
    }
}

/// Leaves the current file and turns to the next.
pub open spec fn skip_file(s: BuilderView) -> BuilderView {
    start_file(BuilderView { next_file: s.next_file + 1, ..s })
}

/// Records the file under analysis with the imports gathered for it, then
/// turns to the next file.
pub open spec fn record_file(s: BuilderView) -> BuilderView {
    skip_file(
        BuilderView {
            dependency_map: with_record(
                s.dependency_map,
                s.path,
                ProjectFileView { hash: s.hash, imports: s.imports.to_set() },
            ),
            path: Seq::empty(),
            hash: Seq::empty(),
            imports: Seq::empty(),
            ..s
        },
    )
}

/// Resolves the modules of the file under analysis from `next_module` on,
/// for as long as the caches have the answers. For each module the
/// initializers of its ancestors come first (`inits_done` says they are
/// dealt with), then the module itself. A cache is consulted before anything
/// is asked; the first module it does not know stops the run with a request.
/// When no module is left the file is recorded.
pub open spec fn resolve_modules(s: BuilderView, inits_done: bool) -> BuilderView
    decreases s.modules.len() - s.next_module, if inits_done { 0nat } else { 1nat },
{
    if s.next_module >= s.modules.len() {
        record_file(s)
    } else if !inits_done {
        if s.package_inits.contains_key(current_module(s)) {
            resolve_modules(
                BuilderView {
                    imports: with_imports(s.imports, s.package_inits[current_module(s)]),
                    ..s
                },
                true,
            )
        } else if ancestor_init_paths(s.source_root, current_module(s)).len() == 0 {
            resolve_modules(
                BuilderView {
                    package_inits: s.package_inits.insert(current_module(s), Seq::empty()),
                    ..s
                },
                true,
            )
        } else {
            BuilderView {
                stage: Stage::AwaitAncestor,
                candidates: ancestor_init_paths(s.source_root, current_module(s)),
                next_candidate: 0,
                found: Seq::empty(),
                ..s
            }
        }
    } else {
        if s.resolutions.contains_key(current_module(s)) {
            resolve_modules(
                BuilderView {
                    imports: with_resolution(s.imports, s.resolutions[current_module(s)]),
                    next_module: s.next_module + 1,
                    ..s
                },
                false,
            )
        } else {
            BuilderView { stage: Stage::AwaitPackageInit, ..s }
        }
    }
}

/// Settles the current module: caches what it resolved to, adds the file
/// to the imports, and goes on with the next module.
pub open spec fn resolved(s: BuilderView, resolution: Option<Seq<char>>) -> BuilderView {
    resolve_modules(
        BuilderView {
            resolutions: s.resolutions.insert(current_module(s), resolution),
            imports: with_resolution(s.imports, resolution),
            next_module: s.next_module + 1,
            ..s
        },
        false,
    )
}

/// The state after the driver's answer.
///
/// - An unresolvable source root fails the pass; nothing else does.
/// - A directory is listed and its source files are taken in order; a single
///   file is taken if it is a source file; anything else is passed over.
/// - A file is known by its canonical path, or by its path as listed when
///   that does not resolve. A file that already has a record is passed over,
///   and so is one that cannot be read.
/// - A file that can be read is fingerprinted and its imports resolved.
/// - An ancestor initializer counts when it exists. A module resolves to its
///   package initializer when that exists, else to its source file when that
///   exists, else to nothing. Either outcome is cached under the module name.
/// - An answer that does not fit the pending request changes nothing.
pub open spec fn after_answer(s: BuilderView, answer: AnswerView) -> BuilderView {
    match (s.stage, answer) {
        (Stage::AwaitRoot, AnswerView::Canonical(Some(root))) => start_include(
            BuilderView { source_root: root, ..s },
        ),
        (Stage::AwaitRoot, AnswerView::Canonical(None)) => BuilderView {
            stage: Stage::Failed,
            ..s
        },
        (Stage::AwaitKind, AnswerView::Kind(PathKind::Directory)) => BuilderView {
            stage: Stage::AwaitListing,
            ..s
        },
        (Stage::AwaitKind, AnswerView::Kind(PathKind::File)) => start_file(
            BuilderView { files: source_files(seq![current_include(s)]), next_file: 0, ..s },
        ),
        (Stage::AwaitKind, AnswerView::Kind(PathKind::Other)) => start_file(
            BuilderView { files: Seq::empty(), next_file: 0, ..s },
        ),
        (Stage::AwaitListing, AnswerView::Files(listed)) => start_file(
            BuilderView { files: source_files(listed), next_file: 0, ..s },
        ),
        (Stage::AwaitCanonical, AnswerView::Canonical(canonical)) => {
            let path = match canonical {
                Some(p) => p,
                None => s.files[s.next_file as int],
            };
            if s.dependency_map.contains_key(path) {
                skip_file(s)
            } else {
                BuilderView { stage: Stage::AwaitContent, path, ..s }
            }
        },
        (Stage::AwaitContent, AnswerView::Content(None)) => skip_file(s),
        (Stage::AwaitContent, AnswerView::Content(Some(bytes))) => resolve_modules(
            BuilderView {
                hash: fingerprint_of(bytes),
                modules: file_modules(bytes, s.filter_prefixes),
                next_module: 0,
                imports: Seq::empty(),
                ..s
            },
            false,
        ),
        (Stage::AwaitAncestor, AnswerView::Exists(exists)) => {
            let found = if exists {
                s.found.push(s.candidates[s.next_candidate as int])
            } else {
                s.found
            };
            if s.next_candidate + 1 < s.candidates.len() {
                BuilderView { found, next_candidate: s.next_candidate + 1, ..s }
            } else {
                resolve_modules(
                    BuilderView {
                        package_inits: s.package_inits.insert(current_module(s), found),
                        imports: with_imports(s.imports, found),
                        candidates: Seq::empty(),
                        next_candidate: 0,
                        found: Seq::empty(),
                        ..s
                    },
                    true,
                )
            }
        },
        (Stage::AwaitPackageInit, AnswerView::Exists(exists)) => if exists {
            resolved(s, Some(package_init_path(s.source_root, current_module(s))))
        } else {
            BuilderView { stage: Stage::AwaitModuleFile, ..s }
        },
        (Stage::AwaitModuleFile, AnswerView::Exists(exists)) => resolved(
            s,
            if exists {
                Some(module_file_path(s.source_root, current_module(s)))
            } else {
                None
            },
        ),
        _ => s,
    }
}

/// `later` knows everything `earlier` knew: every record and every cached
/// answer is still there, unchanged.
pub open spec fn keeps_what_was_known(later: BuilderView, earlier: BuilderView) -> bool {
    &&& forall|path: Seq<char>| #[trigger]
        earlier.dependency_map.contains_key(path) ==> later.dependency_map.contains_key(path)
            && later.dependency_map[path] == earlier.dependency_map[path]
    &&& forall|module: Seq<char>| #[trigger]
        earlier.resolutions.contains_key(module) ==> later.resolutions.contains_key(module)
            && later.resolutions[module] == earlier.resolutions[module]
    &&& forall|module: Seq<char>| #[trigger]
        earlier.package_inits.contains_key(module) ==> later.package_inits.contains_key(module)
            && later.package_inits[module] == earlier.package_inits[module]
}

proof fn lemma_keeps_on_keeping(last: BuilderView, middle: BuilderView, first: BuilderView)
    requires
        keeps_what_was_known(middle, first),
        keeps_what_was_known(last, middle),
    ensures
        keeps_what_was_known(last, first),
{
    assert forall|path: Seq<char>| #[trigger]
        first.dependency_map.contains_key(path) implies last.dependency_map.contains_key(path)
        && last.dependency_map[path] == first.dependency_map[path] by {
        assert(middle.dependency_map.contains_key(path));
    }
    assert forall|module: Seq<char>| #[trigger]
        first.resolutions.contains_key(module) implies last.resolutions.contains_key(module)
        && last.resolutions[module] == first.resolutions[module] by {
        assert(middle.resolutions.contains_key(module));
    }
    assert forall|module: Seq<char>| #[trigger]
        first.package_inits.contains_key(module) implies last.package_inits.contains_key(module)
        && last.package_inits[module] == first.package_inits[module] by {
        assert(middle.package_inits.contains_key(module));
    }
}

proof fn lemma_resolve_modules_keeps_what_was_known(s: BuilderView, inits_done: bool)
    ensures
        keeps_what_was_known(resolve_modules(s, inits_done), s),
    decreases s.modules.len() - s.next_module, if inits_done { 0nat } else { 1nat },
{
    if s.next_module >= s.modules.len() {
    } else if !inits_done {
        if s.package_inits.contains_key(current_module(s)) {
            let next = BuilderView {
                imports: with_imports(s.imports, s.package_inits[current_module(s)]),
                ..s
            };
            lemma_resolve_modules_keeps_what_was_known(next, true);
            lemma_keeps_on_keeping(resolve_modules(next, true), next, s);
        } else if ancestor_init_paths(s.source_root, current_module(s)).len() == 0 {
            let next = BuilderView {
                package_inits: s.package_inits.insert(current_module(s), Seq::empty()),
                ..s
            };
            lemma_resolve_modules_keeps_what_was_known(next, true);
            lemma_keeps_on_keeping(resolve_modules(next, true), next, s);
        }
    } else {
        if s.resolutions.contains_key(current_module(s)) {
            let next = BuilderView {
                imports: with_resolution(s.imports, s.resolutions[current_module(s)]),
                next_module: s.next_module + 1,
                ..s
            };
            lemma_resolve_modules_keeps_what_was_known(next, false);
            lemma_keeps_on_keeping(resolve_modules(next, false), next, s);
        }
    }
}

/// Within a pass the dependency map and both caches only grow: whatever
/// the answer, no record and no cached answer is dropped or replaced.
pub proof fn lemma_answers_only_add(s: BuilderView, answer: AnswerView)
    requires
        well_formed(s),
    ensures
        keeps_what_was_known(after_answer(s, answer), s),
{
    match (s.stage, answer) {
        (Stage::AwaitContent, AnswerView::Content(Some(bytes))) => {
            let next = BuilderView {
                hash: fingerprint_of(bytes),
                modules: file_modules(bytes, s.filter_prefixes),
                next_module: 0,
                imports: Seq::empty(),
                ..s
            };
            lemma_resolve_modules_keeps_what_was_known(next, false);
            lemma_keeps_on_keeping(resolve_modules(next, false), next, s);
        },
        (Stage::AwaitAncestor, AnswerView::Exists(exists)) => {
            let found = if exists {
                s.found.push(s.candidates[s.next_candidate as int])
            } else {
                s.found
            };
            let next = BuilderView {
                package_inits: s.package_inits.insert(current_module(s), found),
                imports: with_imports(s.imports, found),
                candidates: Seq::empty(),
                next_candidate: 0,
                found: Seq::empty(),
                ..s
            };
            lemma_resolve_modules_keeps_what_was_known(next, true);
            lemma_keeps_on_keeping(resolve_modules(next, true), next, s);
        },
        (Stage::AwaitPackageInit, AnswerView::Exists(exists)) => {
            let resolution = Some(package_init_path(s.source_root, current_module(s)));
            let next = BuilderView {
                resolutions: s.resolutions.insert(current_module(s), resolution),
                imports: with_resolution(s.imports, resolution),
                next_module: s.next_module + 1,
                ..s
            };
            lemma_resolve_modules_keeps_what_was_known(next, false);
            lemma_keeps_on_keeping(resolve_modules(next, false), next, s);
        },
        (Stage::AwaitModuleFile, AnswerView::Exists(exists)) => {
            let resolution = if exists {
                Some(module_file_path(s.source_root, current_module(s)))
            } else {
                None
            };
            let next = BuilderView {
                resolutions: s.resolutions.insert(current_module(s), resolution),
                imports: with_resolution(s.imports, resolution),
                next_module: s.next_module + 1,
                ..s
            };
            lemma_resolve_modules_keeps_what_was_known(next, false);
            lemma_keeps_on_keeping(resolve_modules(next, false), next, s);
        },
        _ => {},
    }
}

fn holds(list: &Vec<String>, text: &String) -> (yes: bool)
    ensures
        yes == views(list@).contains(text@),
{
    let mut i: usize = 0;
    while i < list.len()
        invariant
            i <= list.len(),
            forall|j: int| 0 <= j < i ==> views(list@)[j] != text@,
        decreases list.len() - i,
    {
        if list[i] == *text {
            assert(views(list@)[i as int] == text@);
            return true;
        }
        i += 1;
    }
    false
}

fn add_import(imports: &mut Vec<String>, path: &String)
    ensures
        views(final(imports)@) == with_import(views(old(imports)@), path@),
        views(old(imports)@).no_duplicates() ==> views(final(imports)@).no_duplicates(),
{
    proof {
        if views(imports@).no_duplicates() {
            lemma_with_import_has_no_repeats(views(imports@), path@);
        }
    }
    if !holds(imports, path) {
        imports.push(path.clone());
        assert(views(imports@) =~= views(old(imports)@).push(path@));
    }
}

fn add_imports(imports: &mut Vec<String>, extra: &Vec<String>)
    ensures
        views(final(imports)@) == with_imports(views(old(imports)@), views(extra@)),
        views(old(imports)@).no_duplicates() ==> views(final(imports)@).no_duplicates(),
{
    let mut i: usize = 0;
    assert(views(extra@).take(0) =~= Seq::<Seq<char>>::empty());
    while i < extra.len()
        invariant
            i <= extra.len(),
            views(imports@) == with_imports(views(old(imports)@), views(extra@).take(i as int)),
            views(old(imports)@).no_duplicates() ==> views(imports@).no_duplicates(),
        decreases extra.len() - i,
    {
        assert(views(extra@).take(i + 1).drop_last() =~= views(extra@).take(i as int));
        add_import(imports, &extra[i]);
        i += 1;
    }
    assert(views(extra@).take(extra.len() as int) =~= views(extra@));
}

fn add_resolution(imports: &mut Vec<String>, resolution: &Option<String>)
    ensures
        views(final(imports)@) == with_resolution(views(old(imports)@), option_view(*resolution)),
        views(old(imports)@).no_duplicates() ==> views(final(imports)@).no_duplicates(),
{
    match resolution {
        Some(path) => add_import(imports, path),
        None => {},
    }
}

/// A build pass in progress.
pub struct MapBuilder {
    stage: Stage,
    source_root: String,
    filter_prefixes: Vec<String>,
    include_paths: Vec<String>,
    next_include: usize,
    files: Vec<String>,
    next_file: usize,
    path: String,
    hash: String,
    modules: Vec<String>,
    next_module: usize,
    imports: Vec<String>,
    candidates: Vec<String>,
    next_candidate: usize,
    found: Vec<String>,
    dependency_map: DependencyMap,
    resolution_cache: PathMap<Option<String>>,
    inits_cache: PathMap<Vec<String>>,
}

impl View for MapBuilder {
    type V = BuilderView;

    closed spec fn view(&self) -> BuilderView {
        BuilderView {
            stage: self.stage,
            source_root: self.source_root@,
            filter_prefixes: views(self.filter_prefixes@),
            include_paths: views(self.include_paths@),
            next_include: self.next_include as nat,
            files: views(self.files@),
            next_file: self.next_file as nat,
            path: self.path@,
            hash: self.hash@,
            modules: views(self.modules@),
            next_module: self.next_module as nat,
            imports: views(self.imports@),
            candidates: views(self.candidates@),
            next_candidate: self.next_candidate as nat,
            found: views(self.found@),
            dependency_map: file_views(self.dependency_map@),
            resolutions: resolution_views(self.resolution_cache@),
            package_inits: inits_views(self.inits_cache@),
        }
    }
}

impl MapBuilder {
    /// The maps a builder owns are well formed, and no list of imports
    /// names a file twice.
    spec fn maps_wf(&self) -> bool {
        &&& self.dependency_map.wf()
        &&& self.resolution_cache.wf()
        &&& self.inits_cache.wf()
        &&& views(self.imports@).no_duplicates()
        &&& without_repeats(self.dependency_map@)
    }

    /// The builder is in a state it can be stepped from.
    pub closed spec fn wf(&self) -> bool {
        self.maps_wf() && well_formed(self@)
    }

    /// A builder that can be stepped has a well-formed view, so the laws
    /// stated of well-formed states hold of it.
    pub proof fn lemma_wf_view(&self)
        requires
            self.wf(),
        ensures
            well_formed(self@),
    {
    }

    /// Starts a build pass over `include_paths`, each taken relative to
    /// `source_root`, keeping only imports that start with one of
    /// `filter_prefixes`. The first request asks for the canonical root.
    pub fn new(source_root: &str, filter_prefixes: Vec<String>, include_paths: Vec<String>) -> (builder:
        MapBuilder)
        ensures
            builder.wf(),
            builder@ == initial_state(source_root@, views(filter_prefixes@), views(include_paths@)),
    {
        let builder = MapBuilder {
            stage: Stage::AwaitRoot,
            source_root: source_root.to_owned(),
            filter_prefixes,
            include_paths,
            next_include: 0,
            files: Vec::new(),
            next_file: 0,
            path: String::new(),
            hash: String::new(),
            modules: Vec::new(),
            next_module: 0,
            imports: Vec::new(),
            candidates: Vec::new(),
            next_candidate: 0,
            found: Vec::new(),
            dependency_map: PathMap::new(),
            resolution_cache: PathMap::new(),
            inits_cache: PathMap::new(),
        };
        assert(builder@ =~~= initial_state(
            source_root@,
            views(filter_prefixes@),
            views(include_paths@),
        ));
        builder
    }

    /// The stage the builder is in.
    pub fn stage(&self) -> (stage: Stage)
        ensures
            stage == self@.stage,
    {
        self.stage
    }

    /// The pending request.
    pub fn request(&self) -> (request: Request)
        requires
            self.wf(),
        ensures
            request@ == pending_request(self@),
    {
        match self.stage {
            Stage::AwaitRoot => Request::Canonicalize(self.source_root.clone()),
            Stage::AwaitKind => Request::Classify(
                join(self.source_root.as_str(), self.include_paths[self.next_include].as_str()),
            ),
            Stage::AwaitListing => Request::ListFiles(
                join(self.source_root.as_str(), self.include_paths[self.next_include].as_str()),
            ),
            Stage::AwaitCanonical => Request::Canonicalize(self.files[self.next_file].clone()),
            Stage::AwaitContent => Request::Read(self.path.clone()),
            Stage::AwaitAncestor => Request::Exists(self.candidates[self.next_candidate].clone()),
            Stage::AwaitPackageInit => Request::Exists(
                package_init_candidate(
                    self.modules[self.next_module].as_str(),
                    self.source_root.as_str(),
                ),
            ),
            Stage::AwaitModuleFile => Request::Exists(
                module_file_candidate(
                    self.modules[self.next_module].as_str(),
                    self.source_root.as_str(),
                ),
            ),
            Stage::Finished => Request::Finished,
            Stage::Failed => Request::Finished,
        }
    }

    fn start_include(&mut self)
        requires
            old(self).maps_wf(),
        ensures
            final(self).wf(),
            final(self)@ == start_include(old(self)@),
    {
        if self.next_include < self.include_paths.len() {
            self.stage = Stage::AwaitKind;
        } else {
            self.stage = Stage::Finished;
        }
    }

    fn start_file(&mut self)
        requires
            old(self).maps_wf(),
            old(self).next_include < old(self).include_paths.len(),
        ensures
            final(self).wf(),
            final(self)@ == start_file(old(self)@),
    {
        if self.next_file < self.files.len() {
            self.stage = Stage::AwaitCanonical;
        } else {
            self.next_include = self.next_include + 1;
            self.start_include();
        }
    }

    fn skip_file(&mut self)
        requires
            old(self).maps_wf(),
            old(self).next_include < old(self).include_paths.len(),
            old(self).next_file < old(self).files.len(),
        ensures
            final(self).wf(),
            final(self)@ == skip_file(old(self)@),
    {
        self.next_file = self.next_file + 1;
        self.start_file();
    }

    fn record_file(&mut self)
        requires
            old(self).maps_wf(),
            old(self).next_include < old(self).include_paths.len(),
            old(self).next_file < old(self).files.len(),
        ensures
            final(self).wf(),
            final(self)@ == record_file(old(self)@),
    {
        let mut path = String::new();
        let mut hash = String::new();
        let mut imports: Vec<String> = Vec::new();
        std::mem::swap(&mut self.path, &mut path);
        std::mem::swap(&mut self.hash, &mut hash);
        std::mem::swap(&mut self.imports, &mut imports);
        let file = ProjectFile { hash, imports };
        let ghost before = self.dependency_map@;
        self.dependency_map.insert(path, file);
        proof {
            assert(views(self.imports@) =~= Seq::<Seq<char>>::empty());
            assert(file_views(self.dependency_map@) =~= with_record(
                file_views(before),
                path@,
                file@,
            ));
        }
        self.skip_file();
    }

    fn resolve_modules(&mut self, inits_done: bool)
        requires
            old(self).maps_wf(),
            old(self).next_include < old(self).include_paths.len(),
            old(self).next_file < old(self).files.len(),
            old(self).next_module <= old(self).modules.len(),
        ensures
            final(self).wf(),
            final(self)@ == resolve_modules(old(self)@, inits_done),
    {
        let mut done = inits_done;
        while self.next_module < self.modules.len()
            invariant
                self.maps_wf(),
                self.next_include < self.include_paths.len(),
                self.next_file < self.files.len(),
                self.next_module <= self.modules.len(),
                resolve_modules(self@, done) == resolve_modules(old(self)@, inits_done),
            decreases self.modules.len() - self.next_module, if done { 0nat } else { 1nat },
        {
            let ghost before = self@;
            let module = self.modules[self.next_module].clone();
            assert(module@ == current_module(before));
            if !done {
                match self.inits_cache.get(module.as_str()) {
                    Some(inits) => {
                        add_imports(&mut self.imports, inits);
                        assert(self@ =~~= BuilderView {
                            imports: with_imports(
                                before.imports,
                                before.package_inits[current_module(before)],
                            ),
                            ..before
                        });
                    },
                    None => {
                        let candidates = package_init_candidates(
                            module.as_str(),
                            self.source_root.as_str(),
                        );
                        if candidates.len() == 0 {
                            let ghost cache_before = self.inits_cache@;
                            self.inits_cache.insert(module, candidates);
                            assert(views(candidates@) =~= Seq::<Seq<char>>::empty());
                            assert(inits_views(self.inits_cache@) =~= inits_views(
                                cache_before,
                            ).insert(current_module(before), Seq::empty()));
                            assert(self@ =~~= BuilderView {
                                package_inits: before.package_inits.insert(
                                    current_module(before),
                                    Seq::empty(),
                                ),
                                ..before
                            });
                        } else {
                            self.candidates = candidates;
                            self.next_candidate = 0;
                            self.found = Vec::new();
                            self.stage = Stage::AwaitAncestor;
                            assert(self@ =~~= BuilderView {
                                stage: Stage::AwaitAncestor,
                                candidates: ancestor_init_paths(
                                    before.source_root,
                                    current_module(before),
                                ),
                                next_candidate: 0,
                                found: Seq::empty(),
                                ..before
                            });
                            return ;
                        }
                    },
                }
                done = true;
            } else {
                match self.resolution_cache.get(module.as_str()) {
                    Some(resolution) => {
                        add_resolution(&mut self.imports, resolution);
                        self.next_module = self.next_module + 1;
                        done = false;
                        assert(self@ =~~= BuilderView {
                            imports: with_resolution(
                                before.imports,
                                before.resolutions[current_module(before)],
                            ),
                            next_module: before.next_module + 1,
                            ..before
                        });
                    },
                    None => {
                        self.stage = Stage::AwaitPackageInit;
                        assert(self@ =~~= BuilderView { stage: Stage::AwaitPackageInit, ..before });
                        return ;
                    },
                }
            }
        }
        self.record_file();
    }

    fn resolved(&mut self, resolution: Option<String>)
        requires
            old(self).maps_wf(),
            old(self).next_include < old(self).include_paths.len(),
            old(self).next_file < old(self).files.len(),
            old(self).next_module < old(self).modules.len(),
            !old(self)@.resolutions.contains_key(current_module(old(self)@)),
        ensures
            final(self).wf(),
            final(self)@ == resolved(old(self)@, option_view(resolution)),
    {
        let ghost before = self@;
        let ghost cache_before = self.resolution_cache@;
        add_resolution(&mut self.imports, &resolution);
        let module = self.modules[self.next_module].clone();
        self.resolution_cache.insert(module, resolution);
        self.next_module = self.next_module + 1;
        proof {
            assert(resolution_views(self.resolution_cache@) =~= resolution_views(
                cache_before,
            ).insert(current_module(before), option_view(resolution)));
            assert(self@ =~~= BuilderView {
                resolutions: before.resolutions.insert(
                    current_module(before),
                    option_view(resolution),
                ),
                imports: with_resolution(before.imports, option_view(resolution)),
                next_module: before.next_module + 1,
                ..before
            });
        }
        self.resolve_modules(false);
    }

    /// Takes the driver's answer to the pending request and returns the
    /// next request.
    pub fn step(&mut self, answer: Answer) -> (request: Request)
        requires
            old(self).wf(),
        ensures
            final(self).wf(),
            final(self)@ == after_answer(old(self)@, answer@),
            request@ == pending_request(final(self)@),
    {
        let ghost before = self@;
        match self.stage {
            Stage::AwaitRoot => match answer {
                Answer::Canonical(Some(root)) => {
                    self.source_root = root;
                    self.start_include();
                },
                Answer::Canonical(None) => {
                    self.stage = Stage::Failed;
                },
                _ => {},
            },
            Stage::AwaitKind => match answer {
                Answer::Kind(PathKind::Directory) => {
                    self.stage = Stage::AwaitListing;
                },
                Answer::Kind(PathKind::File) => {
                    let full = join(
                        self.source_root.as_str(),
                        self.include_paths[self.next_include].as_str(),
                    );
                    let mut listed: Vec<String> = Vec::new();
                    listed.push(full);
                    assert(views(listed@) =~= seq![current_include(before)]);
                    self.files = select_source_files(listed);
                    self.next_file = 0;
                    self.start_file();
                },
                Answer::Kind(PathKind::Other) => {
                    self.files = Vec::new();
                    self.next_file = 0;
                    assert(views(self.files@) =~= Seq::<Seq<char>>::empty());
                    self.start_file();
                },
                _ => {},
            },
            Stage::AwaitListing => match answer {
                Answer::Files(listed) => {
                    self.files = select_source_files(listed);
                    self.next_file = 0;
                    self.start_file();
                },
                _ => {},
            },
            Stage::AwaitCanonical => match answer {
                Answer::Canonical(canonical) => {
                    let path = match canonical {
                        Some(p) => p,
                        None => self.files[self.next_file].clone(),
                    };
                    if self.dependency_map.contains_key(path.as_str()) {
                        self.skip_file();
                    } else {
                        self.path = path;
                        self.stage = Stage::AwaitContent;
                    }
                },
                _ => {},
            },
            Stage::AwaitContent => match answer {
                Answer::Content(Some(bytes)) => {
                    self.hash = fingerprint(bytes.as_slice());
                    self.modules = modules_of_file(bytes.as_slice(), &self.filter_prefixes);
                    self.next_module = 0;
                    self.imports = Vec::new();
                    assert(views(self.imports@) =~= Seq::<Seq<char>>::empty());
                    self.resolve_modules(false);
                },
                Answer::Content(None) => {
                    self.skip_file();
                },
                _ => {},
            },
            Stage::AwaitAncestor => match answer {
                Answer::Exists(exists) => {
                    assert(self.next_candidate < self.candidates.len());
                    if exists {
                        self.found.push(self.candidates[self.next_candidate].clone());
                        assert(views(self.found@) =~= before.found.push(
                            before.candidates[before.next_candidate as int],
                        ));
                    }
                    if self.next_candidate + 1 < self.candidates.len() {
                        self.next_candidate = self.next_candidate + 1;
                    } else {
                        let ghost cache_before = self.inits_cache@;
                        let ghost found = views(self.found@);
                        add_imports(&mut self.imports, &self.found);
                        let mut inits: Vec<String> = Vec::new();
                        std::mem::swap(&mut self.found, &mut inits);
                        let module = self.modules[self.next_module].clone();
                        self.inits_cache.insert(module, inits);
                        self.candidates = Vec::new();
                        self.next_candidate = 0;
                        proof {
                            assert(views(self.found@) =~= Seq::<Seq<char>>::empty());
                            assert(views(self.candidates@) =~= Seq::<Seq<char>>::empty());
                            assert(inits_views(self.inits_cache@) =~= inits_views(
                                cache_before,
                            ).insert(current_module(before), found));
                        }
                        self.resolve_modules(true);
                    }
                },
                _ => {},
            },
            Stage::AwaitPackageInit => match answer {
                Answer::Exists(exists) => {
                    if exists {
                        let path = package_init_candidate(
                            self.modules[self.next_module].as_str(),
                            self.source_root.as_str(),
                        );
                        self.resolved(Some(path));
                    } else {
                        self.stage = Stage::AwaitModuleFile;
                    }
                },
                _ => {},
            },
            Stage::AwaitModuleFile => match answer {
                Answer::Exists(exists) => {
                    let resolution = if exists {
                        Some(
                            module_file_candidate(
                                self.modules[self.next_module].as_str(),
                                self.source_root.as_str(),
                            ),
                        )
                    } else {
                        None
                    };
                    self.resolved(resolution);
                },
                _ => {},
            },
            Stage::Finished => {},
            Stage::Failed => {},
        }
        assert(self@ =~~= after_answer(before, answer@));
        self.request()
    }

    /// Whether the pass has ended, in success or in failure.
    pub fn is_done(&self) -> (done: bool)
        ensures
            done == (self@.stage == Stage::Finished || self@.stage == Stage::Failed),
    {
        match self.stage {
            Stage::Finished => true,
            Stage::Failed => true,
            _ => false,
        }
    }

    /// The outcome of the pass: the dependency map as far as it has been
    /// built, or the one failure, that the source root was not found.
    pub fn into_result(self) -> (result: Result<DependencyMap, NotFound>)
        requires
            self.wf(),
        ensures
            match result {
                Ok(map) => self@.stage != Stage::Failed && map.wf() && without_repeats(map@)
                    && file_views(map@) == self@.dependency_map,
                Err(e) => self@.stage == Stage::Failed && e == NotFound::SourceRoot,
            },
    {
        match self.stage {
            Stage::Failed => Err(NotFound::SourceRoot),
            _ => Ok(self.dependency_map),
        }
    }
}

} // verus!
