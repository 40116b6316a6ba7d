//! What a dependency map should be, said without a builder.
//!
//! A [`World`] is everything a disk could answer, frozen: a tree that does
//! not change while it is being read. [`dependency_map_of`] gives the map
//! that belongs to a world directly, file by file.

use crate::fingerprint::fingerprint_of;
use crate::imports::{file_modules, file_text, lemma_selected_names, matches_filter, source_import_names};
use crate::paths::{
    ancestor_init_paths, join_path, module_file_path, package_init_path, source_files,
};
use crate::project::{with_import, with_imports, with_resolution, NotFound, ProjectFileView};
use crate::requests::{AnswerView, PathKind, RequestView};
use vstd::prelude::*;

verus! {

/// The answers of an unchanging file tree.
pub struct World {
    /// The canonical form of a path, if the path resolves.
    pub canonical: spec_fn(Seq<char>) -> Option<Seq<char>>,
    /// Whether a path is a directory, a regular file, or neither.
    pub kind: spec_fn(Seq<char>) -> PathKind,
    /// The regular files below a directory.
    pub listing: spec_fn(Seq<char>) -> Seq<Seq<char>>,
    /// The bytes of a file, if it can be read.
    pub content: spec_fn(Seq<char>) -> Option<Seq<u8>>,
    /// Whether anything exists at a path.
    pub present: spec_fn(Seq<char>) -> bool,
}

/// What a world answers to a request.
pub open spec fn answer_of(world: World, request: RequestView) -> AnswerView {
    match request {
        RequestView::Canonicalize(path) => AnswerView::Canonical((world.canonical)(path)),
        RequestView::Classify(path) => AnswerView::Kind((world.kind)(path)),
        RequestView::ListFiles(path) => AnswerView::Files((world.listing)(path)),
        RequestView::Read(path) => AnswerView::Content((world.content)(path)),
        RequestView::Exists(path) => AnswerView::Exists((world.present)(path)),
        RequestView::Finished => AnswerView::Exists(false),
    }
}

/// `found`, then those of `candidates` from index `next` on that exist.
pub open spec fn existing_from(
    world: World,
    found: Seq<Seq<char>>,
    candidates: Seq<Seq<char>>,
    next: nat,
) -> Seq<Seq<char>>
    decreases candidates.len() - next,
{
    if next >= candidates.len() {
        found
    } else if (world.present)(candidates[next as int]) {
        existing_from(world, found.push(candidates[next as int]), candidates, next + 1)
    } else {
        existing_from(world, found, candidates, next + 1)
    }
}

/// The initializer files of the packages enclosing `module` that exist,
/// outermost first.
pub open spec fn existing_inits(world: World, root: Seq<char>, module: Seq<char>) -> Seq<Seq<char>> {
    existing_from(world, Seq::empty(), ancestor_init_paths(root, module), 0)
}

/// The file `module` resolves to: its package initializer if that exists,
/// else its source file if that exists, else nothing.
pub open spec fn resolution(world: World, root: Seq<char>, module: Seq<char>) -> Option<Seq<char>> {
    if (world.present)(package_init_path(root, module)) {
        Some(package_init_path(root, module))
    } else if (world.present)(module_file_path(root, module)) {
        Some(module_file_path(root, module))
    } else {
        None
    }
}

/// `imports`, then what the modules from index `next` on add: for each its
/// existing ancestor initializers and the file it resolves to.
pub open spec fn imports_from(
    world: World,
    root: Seq<char>,
    imports: Seq<Seq<char>>,
    modules: Seq<Seq<char>>,
    next: nat,
) -> Seq<Seq<char>>
    decreases modules.len() - next,
{
    if next >= modules.len() {
        imports
    } else {
        imports_from(
            world,
            root,
            with_resolution(
                with_imports(imports, existing_inits(world, root, modules[next as int])),
                resolution(world, root, modules[next as int]),
            ),
            modules,
            next + 1,
        )
    }
}

/// The record of a file with these bytes.
pub open spec fn analyzed_file(
    world: World,
    root: Seq<char>,
    prefixes: Seq<Seq<char>>,
    bytes: Seq<u8>,
) -> ProjectFileView {
    ProjectFileView {
        hash: fingerprint_of(bytes),
        imports: imports_from(world, root, Seq::empty(), file_modules(bytes, prefixes), 0).to_set(),
    }
}

/// `map` after the file listed as `listed` has been dealt with. The file is
/// known by its canonical path, or as listed if that does not resolve. It
/// adds nothing if it already has a record or cannot be read. The listed
/// path is a source file by its name; the canonical path it is recorded
/// under need not be, where the listed name is a link.
pub open spec fn with_file(
    world: World,
    root: Seq<char>,
    prefixes: Seq<Seq<char>>,
    map: Map<Seq<char>, ProjectFileView>,
    listed: Seq<char>,
) -> Map<Seq<char>, ProjectFileView> {
    let path = match (world.canonical)(listed) {
        Some(canonical) => canonical,
        None => listed,
    };
    if map.contains_key(path) {
        map
    } else {
        match (world.content)(path) {
            Some(bytes) => map.insert(path, analyzed_file(world, root, prefixes, bytes)),
            None => map,
        }
    }
}

/// `map` after the files from index `next` on have been dealt with, in order.
pub open spec fn with_files_from(
    world: World,
    root: Seq<char>,
    prefixes: Seq<Seq<char>>,
    map: Map<Seq<char>, ProjectFileView>,
    files: Seq<Seq<char>>,
    next: nat,
) -> Map<Seq<char>, ProjectFileView>
    decreases files.len() - next,
{
    if next >= files.len() {
        map
    } else {
        with_files_from(
            world,
            root,
            prefixes,
            with_file(world, root, prefixes, map, files[next as int]),
            files,
            next + 1,
        )
    }
}

/// The source files an include path stands for: those below it if it is a
/// directory, itself if it is a source file, none otherwise.
pub open spec fn files_of_include(world: World, root: Seq<char>, include_path: Seq<char>) -> Seq<
    Seq<char>,
> {
    match (world.kind)(join_path(root, include_path)) {
        PathKind::Directory => source_files((world.listing)(join_path(root, include_path))),
        PathKind::File => source_files(seq![join_path(root, include_path)]),
        PathKind::Other => Seq::empty(),
    }
}

/// `map` after the include paths from index `next` on have been dealt with,
/// in order.
pub open spec fn with_includes_from(
    world: World,
    root: Seq<char>,
    prefixes: Seq<Seq<char>>,
    map: Map<Seq<char>, ProjectFileView>,
    includes: Seq<Seq<char>>,
    next: nat,
) -> Map<Seq<char>, ProjectFileView>
    decreases includes.len() - next,
{
    if next >= includes.len() {
        map
    } else {
        with_includes_from(
            world,
            root,
            prefixes,
            with_files_from(
                world,
                root,
                prefixes,
                map,
                files_of_include(world, root, includes[next as int]),
                0,
            ),
            includes,
            next + 1,
        )
    }
}

/// The dependency map of a world: every source file under the include
/// paths, each with its fingerprint and the files its filtered imports
/// resolve to. There is none when the source root does not resolve.
pub open spec fn dependency_map_of(
    world: World,
    source_root: Seq<char>,
    prefixes: Seq<Seq<char>>,
    includes: Seq<Seq<char>>,
) -> Result<Map<Seq<char>, ProjectFileView>, NotFound> {
    match (world.canonical)(source_root) {
        Some(root) => Ok(with_includes_from(world, root, prefixes, Map::empty(), includes, 0)),
        None => Err(NotFound::SourceRoot),
    }
}

/// `target` is one of the files `module` can stand for below `root`: the
/// initializer of a package that encloses it, its own initializer, or its
/// source file.
pub open spec fn is_target_of(root: Seq<char>, module: Seq<char>, target: Seq<char>) -> bool {
    ||| ancestor_init_paths(root, module).contains(target)
    ||| target == package_init_path(root, module)
    ||| target == module_file_path(root, module)
}

/// Every record of `map` is the analysis of the bytes found at its path.
pub open spec fn records_analyse_files(
    world: World,
    root: Seq<char>,
    prefixes: Seq<Seq<char>>,
    map: Map<Seq<char>, ProjectFileView>,
) -> bool {
    forall|path: Seq<char>| #[trigger]
        map.contains_key(path) ==> (world.content)(path) is Some && map[path] == analyzed_file(
            world,
            root,
            prefixes,
            (world.content)(path)->0,
        )
}

proof fn lemma_existing_from_holds(
    world: World,
    found: Seq<Seq<char>>,
    candidates: Seq<Seq<char>>,
    next: nat,
    target: Seq<char>,
)
    requires
        existing_from(world, found, candidates, next).contains(target),
    ensures
        found.contains(target) || (candidates.contains(target) && (world.present)(target)),
    decreases candidates.len() - next,
{
    if next < candidates.len() {
        let candidate = candidates[next as int];
        if (world.present)(candidate) {
            lemma_existing_from_holds(world, found.push(candidate), candidates, next + 1, target);
            if found.push(candidate).contains(target) && !found.contains(target) {
                let i = choose|i: int|
                    0 <= i < found.push(candidate).len() && found.push(candidate)[i] == target;
                assert(i == found.len());
            }
        } else {
            lemma_existing_from_holds(world, found, candidates, next + 1, target);
        }
    }
}

proof fn lemma_with_import_holds(imports: Seq<Seq<char>>, path: Seq<char>, target: Seq<char>)
    requires
        with_import(imports, path).contains(target),
    ensures
        imports.contains(target) || target == path,
{
    if !imports.contains(path) && !imports.contains(target) {
        let i = choose|i: int|
            0 <= i < imports.push(path).len() && imports.push(path)[i] == target;
        assert(i == imports.len());
    }
}

proof fn lemma_with_imports_holds(
    imports: Seq<Seq<char>>,
    extra: Seq<Seq<char>>,
    target: Seq<char>,
)
    requires
        with_imports(imports, extra).contains(target),
    ensures
        imports.contains(target) || extra.contains(target),
    decreases extra.len(),
{
    if extra.len() > 0 {
        lemma_with_import_holds(with_imports(imports, extra.drop_last()), extra.last(), target);
        if with_imports(imports, extra.drop_last()).contains(target) {
            lemma_with_imports_holds(imports, extra.drop_last(), target);
            if extra.drop_last().contains(target) {
                let i = choose|i: int|
                    0 <= i < extra.drop_last().len() && extra.drop_last()[i] == target;
                assert(extra[i] == target);
            }
        } else {
            assert(extra[extra.len() - 1] == target);
        }
    }
}

/// Whatever resolving modules adds to a file's imports exists and is a
/// target of one of those modules.
pub proof fn lemma_imports_from_holds(
    world: World,
    root: Seq<char>,
    imports: Seq<Seq<char>>,
    modules: Seq<Seq<char>>,
    next: nat,
    target: Seq<char>,
)
    requires
        imports_from(world, root, imports, modules, next).contains(target),
    ensures
        imports.contains(target) || exists|i: int|
            next <= i < modules.len() && is_target_of(root, #[trigger] modules[i], target) && (
            world.present)(target),
    decreases modules.len() - next,
{
    if next < modules.len() {
        let module = modules[next as int];
        let with_inits = with_imports(imports, existing_inits(world, root, module));
        let with_module = with_resolution(with_inits, resolution(world, root, module));
        lemma_imports_from_holds(world, root, with_module, modules, next + 1, target);
        if with_module.contains(target) && !imports.contains(target) {
            if with_inits.contains(target) {
                lemma_with_imports_holds(imports, existing_inits(world, root, module), target);
                lemma_existing_from_holds(
                    world,
                    Seq::empty(),
                    ancestor_init_paths(root, module),
                    0,
                    target,
                );
            } else {
                lemma_with_import_holds(with_inits, resolution(world, root, module)->0, target);
            }
            assert(is_target_of(root, modules[next as int], target) && (world.present)(target));
        }
    }
}

proof fn lemma_existing_from_keeps_all(
    world: World,
    found: Seq<Seq<char>>,
    candidates: Seq<Seq<char>>,
    next: nat,
)
    requires
        next <= candidates.len(),
        forall|i: int| next <= i < candidates.len() ==> (world.present)(#[trigger] candidates[i]),
    ensures
        existing_from(world, found, candidates, next) == found + candidates.subrange(
            next as int,
            candidates.len() as int,
        ),
    decreases candidates.len() - next,
{
    if next < candidates.len() {
        lemma_existing_from_keeps_all(
            world,
            found.push(candidates[next as int]),
            candidates,
            next + 1,
        );
        assert(found.push(candidates[next as int]) + candidates.subrange(
            (next + 1) as int,
            candidates.len() as int,
        ) =~= found + candidates.subrange(next as int, candidates.len() as int));
    } else {
        assert(found + candidates.subrange(next as int, candidates.len() as int) =~= found);
    }
}

proof fn lemma_with_imports_as_set(imports: Seq<Seq<char>>, extra: Seq<Seq<char>>)
    ensures
        with_imports(imports, extra).to_set() == imports.to_set().union(extra.to_set()),
    decreases extra.len(),
{
    if extra.len() == 0 {
        assert(with_imports(imports, extra).to_set() =~= imports.to_set().union(extra.to_set()));
    } else {
        let earlier = with_imports(imports, extra.drop_last());
        lemma_with_imports_as_set(imports, extra.drop_last());
        assert forall|t: Seq<char>|
            with_imports(imports, extra).to_set().contains(t) <==> imports.to_set().union(
                extra.to_set(),
            ).contains(t) by {
            if with_imports(imports, extra).contains(t) {
                lemma_with_imports_holds(imports, extra, t);
            }
            if imports.contains(t) || extra.contains(t) {
                if extra.contains(t) && t != extra.last() {
                    let i = choose|i: int| 0 <= i < extra.len() && extra[i] == t;
                    assert(extra.drop_last()[i] == t);
                }
                if t == extra.last() {
                    if !earlier.contains(t) {
                        assert(earlier.push(t)[earlier.len() as int] == t);
                    }
                } else {
                    assert(earlier.to_set().contains(t));
                    let i = choose|i: int| 0 <= i < earlier.len() && earlier[i] == t;
                    if !earlier.contains(extra.last()) {
                        assert(earlier.push(extra.last())[i] == t);
                    }
                }
            }
        }
        assert(with_imports(imports, extra).to_set() =~= imports.to_set().union(extra.to_set()));
    }
}

/// Importing a module that is a plain source file inside packages brings in
/// the initializer of every enclosing package and the source file, and
/// nothing else.
pub proof fn lemma_submodule_imports(world: World, root: Seq<char>, module: Seq<char>)
    requires
        forall|i: int|
            0 <= i < ancestor_init_paths(root, module).len() ==> (world.present)(
                #[trigger] ancestor_init_paths(root, module)[i],
            ),
        !(world.present)(package_init_path(root, module)),
        (world.present)(module_file_path(root, module)),
    ensures
        imports_from(world, root, Seq::empty(), seq![module], 0).to_set() == ancestor_init_paths(
            root,
            module,
        ).to_set().insert(module_file_path(root, module)),
{
    let ancestors = ancestor_init_paths(root, module);
    let file = module_file_path(root, module);
    lemma_existing_from_keeps_all(world, Seq::empty(), ancestors, 0);
    assert(Seq::<Seq<char>>::empty() + ancestors.subrange(0, ancestors.len() as int) =~= ancestors);
    assert(existing_inits(world, root, module) == ancestors);
    let with_inits = with_imports(Seq::empty(), ancestors);
    lemma_with_imports_as_set(Seq::empty(), ancestors);
    assert(with_inits.to_set() =~= ancestors.to_set());
    let all = with_resolution(with_inits, Some(file));
    assert(seq![module][0] == module);
    assert(imports_from(world, root, all, seq![module], 1) == all);
    assert(imports_from(world, root, Seq::empty(), seq![module], 0) == all);
    assert forall|t: Seq<char>| all.to_set().contains(t) <==> ancestors.to_set().insert(
        file,
    ).contains(t) by {
        if all.contains(t) {
            lemma_with_import_holds(with_inits, file, t);
        }
        if with_inits.contains(t) || t == file {
            if with_inits.contains(file) {
            } else {
                if t == file {
                    assert(with_inits.push(file)[with_inits.len() as int] == t);
                } else {
                    let i = choose|i: int| 0 <= i < with_inits.len() && with_inits[i] == t;
                    assert(with_inits.push(file)[i] == t);
                }
            }
        }
    }
    assert(all.to_set() =~= ancestors.to_set().insert(file));
}

proof fn lemma_with_files_from_analyses(
    world: World,
    root: Seq<char>,
    prefixes: Seq<Seq<char>>,
    map: Map<Seq<char>, ProjectFileView>,
    files: Seq<Seq<char>>,
    next: nat,
)
    requires
        records_analyse_files(world, root, prefixes, map),
    ensures
        records_analyse_files(
            world,
            root,
            prefixes,
            with_files_from(world, root, prefixes, map, files, next),
        ),
    decreases files.len() - next,
{
    if next < files.len() {
        lemma_with_files_from_analyses(
            world,
            root,
            prefixes,
            with_file(world, root, prefixes, map, files[next as int]),
            files,
            next + 1,
        );
    }
}

proof fn lemma_with_includes_from_analyses(
    world: World,
    root: Seq<char>,
    prefixes: Seq<Seq<char>>,
    map: Map<Seq<char>, ProjectFileView>,
    includes: Seq<Seq<char>>,
    next: nat,
)
    requires
        records_analyse_files(world, root, prefixes, map),
    ensures
        records_analyse_files(
            world,
            root,
            prefixes,
            with_includes_from(world, root, prefixes, map, includes, next),
        ),
    decreases includes.len() - next,
{
    if next < includes.len() {
        let files = files_of_include(world, root, includes[next as int]);
        lemma_with_files_from_analyses(world, root, prefixes, map, files, 0);
        lemma_with_includes_from_analyses(
            world,
            root,
            prefixes,
            with_files_from(world, root, prefixes, map, files, 0),
            includes,
            next + 1,
        );
    }
}

/// Every record of a world's dependency map belongs to a file that can be
/// read, and is the analysis of that file's bytes: the fingerprint of the
/// bytes and the targets of the modules the file imports.
pub proof fn lemma_records_analyse_their_files(
    world: World,
    source_root: Seq<char>,
    prefixes: Seq<Seq<char>>,
    includes: Seq<Seq<char>>,
    path: Seq<char>,
)
    requires
        dependency_map_of(world, source_root, prefixes, includes) is Ok,
        dependency_map_of(world, source_root, prefixes, includes)->Ok_0.contains_key(path),
    ensures
        (world.canonical)(source_root) is Some,
        (world.content)(path) is Some,
        dependency_map_of(world, source_root, prefixes, includes)->Ok_0[path] == analyzed_file(
            world,
            (world.canonical)(source_root)->0,
            prefixes,
            (world.content)(path)->0,
        ),
{
    let root = (world.canonical)(source_root)->0;
    lemma_with_includes_from_analyses(world, root, prefixes, Map::empty(), includes, 0);
}

/// Every import target in a world's dependency map exists, and is a target
/// of a module name that the importing file's text refers to and that
/// starts with one of the filter prefixes. A name that starts with none of
/// them contributes nothing.
pub proof fn lemma_imports_pass_the_filter(
    world: World,
    source_root: Seq<char>,
    prefixes: Seq<Seq<char>>,
    includes: Seq<Seq<char>>,
    path: Seq<char>,
    target: Seq<char>,
)
    requires
        dependency_map_of(world, source_root, prefixes, includes) is Ok,
        dependency_map_of(world, source_root, prefixes, includes)->Ok_0.contains_key(path),
        dependency_map_of(world, source_root, prefixes, includes)->Ok_0[path].imports.contains(
            target,
        ),
    ensures
        (world.present)(target),
        (world.canonical)(source_root) is Some,
        (world.content)(path) is Some,
        file_text((world.content)(path)->0) is Some,
        exists|module: Seq<char>|
            source_import_names(file_text((world.content)(path)->0)->0).contains(module)
                && matches_filter(module, prefixes) && #[trigger] is_target_of(
                (world.canonical)(source_root)->0,
                module,
                target,
            ),
{
    lemma_records_analyse_their_files(world, source_root, prefixes, includes, path);
    let root = (world.canonical)(source_root)->0;
    let bytes = (world.content)(path)->0;
    let modules = file_modules(bytes, prefixes);
    lemma_imports_from_holds(world, root, Seq::empty(), modules, 0, target);
    let i = choose|i: int|
        0 <= i < modules.len() && is_target_of(root, #[trigger] modules[i], target) && (
        world.present)(target);
    assert(modules.contains(modules[i]));
    let text = file_text(bytes)->0;
    lemma_selected_names(source_import_names(text), prefixes, modules[i]);
    assert(is_target_of(root, modules[i], target));
}

} // verus!
