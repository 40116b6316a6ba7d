//! A builder driven by an unchanging world ends with the map of that world.
//!
//! [`outcome`] reads off, from any state of a builder, the map the pass
//! will end with if every request from there on is answered by one world.
//! No answer changes that outcome, so a pass that ends has built exactly
//! [`dependency_map_of`] the world.

use crate::builder::{
    after_answer, current_include, current_module, in_file, in_module, initial_state,
    pending_request, record_file, resolve_modules, resolved, scanning, skip_file, start_file,
    start_include, well_formed, BuilderView, Stage,
};
use crate::paths::{ancestor_init_paths, module_file_path, package_init_path};
use crate::project::{with_imports, with_record, with_resolution, NotFound, ProjectFileView};
use crate::requests::PathKind;
use crate::world::{
    analyzed_file, answer_of, dependency_map_of, existing_from, existing_inits,
    files_of_include, imports_from, resolution, with_files_from, with_includes_from,
    World,
};
use vstd::prelude::*;

verus! {

/// Every cached answer is the answer the world would give.
pub open spec fn caches_sound(world: World, s: BuilderView) -> bool {
    &&& forall|module: Seq<char>| #[trigger]
        s.package_inits.contains_key(module) ==> s.package_inits[module] == existing_inits(
            world,
            s.source_root,
            module,
        )
    &&& forall|module: Seq<char>| #[trigger]
        s.resolutions.contains_key(module) ==> s.resolutions[module] == resolution(
            world,
            s.source_root,
            module,
        )
}

/// What holds of every state a builder reaches when one world answers it.
pub open spec fn consistent(world: World, s: BuilderView) -> bool {
    &&& well_formed(s)
    &&& if s.stage == Stage::AwaitRoot {
        s.package_inits == Map::<Seq<char>, Seq<Seq<char>>>::empty() && s.resolutions == Map::<
            Seq<char>,
            Option<Seq<char>>,
        >::empty()
    } else {
        caches_sound(world, s)
    }
    &&& s.stage == Stage::AwaitListing ==> (world.kind)(current_include(s)) == PathKind::Directory
    &&& s.stage == Stage::AwaitContent || in_module(s.stage) ==> !s.dependency_map.contains_key(
        s.path,
    )
    &&& s.stage == Stage::AwaitAncestor ==> existing_from(
        world,
        s.found,
        s.candidates,
        s.next_candidate,
    ) == existing_inits(world, s.source_root, current_module(s))
    &&& s.stage == Stage::AwaitModuleFile ==> !(world.present)(
        package_init_path(s.source_root, current_module(s)),
    )
}

/// The map the pass ends with once the file in hand has left `map` behind:
/// the remaining files of this include path follow, then the remaining
/// include paths.
pub open spec fn after_file(
    world: World,
    s: BuilderView,
    map: Map<Seq<char>, ProjectFileView>,
) -> Map<Seq<char>, ProjectFileView> {
    with_includes_from(
        world,
        s.source_root,
        s.filter_prefixes,
        with_files_from(world, s.source_root, s.filter_prefixes, map, s.files, s.next_file + 1),
        s.include_paths,
        s.next_include + 1,
    )
}

/// The map the pass ends with once the module in hand has left the file's
/// imports at `imports`: the remaining modules follow, then the record.
pub open spec fn after_module(world: World, s: BuilderView, imports: Seq<Seq<char>>) -> Map<
    Seq<char>,
    ProjectFileView,
> {
    after_file(
        world,
        s,
        s.dependency_map.insert(
            s.path,
            ProjectFileView {
                hash: s.hash,
                imports: imports_from(
                    world,
                    s.source_root,
                    imports,
                    s.modules,
                    s.next_module + 1,
                ).to_set(),
            },
        ),
    )
}

/// What a pass in state `s` ends with if `world` answers every request
/// from here on.
pub open spec fn outcome(world: World, s: BuilderView) -> Result<
    Map<Seq<char>, ProjectFileView>,
    NotFound,
> {
    match s.stage {
        Stage::AwaitRoot => match (world.canonical)(s.source_root) {
            Some(root) => Ok(
                with_includes_from(
                    world,
                    root,
                    s.filter_prefixes,
                    s.dependency_map,
                    s.include_paths,
                    s.next_include,
                ),
            ),
            None => Err(NotFound::SourceRoot),
        },
        Stage::Failed => Err(NotFound::SourceRoot),
        Stage::Finished => Ok(s.dependency_map),
        Stage::AwaitKind => Ok(
            with_includes_from(
                world,
                s.source_root,
                s.filter_prefixes,
                s.dependency_map,
                s.include_paths,
                s.next_include,
            ),
        ),
        Stage::AwaitListing => Ok(
            with_includes_from(
                world,
                s.source_root,
                s.filter_prefixes,
                s.dependency_map,
                s.include_paths,
                s.next_include,
            ),
        ),
        Stage::AwaitCanonical => Ok(
            with_includes_from(
                world,
                s.source_root,
                s.filter_prefixes,
                with_files_from(
                    world,
                    s.source_root,
                    s.filter_prefixes,
                    s.dependency_map,
                    s.files,
                    s.next_file,
                ),
                s.include_paths,
                s.next_include + 1,
            ),
        ),
        Stage::AwaitContent => Ok(
            after_file(
                world,
                s,
                match (world.content)(s.path) {
                    Some(bytes) => s.dependency_map.insert(
                        s.path,
                        analyzed_file(world, s.source_root, s.filter_prefixes, bytes),
                    ),
                    None => s.dependency_map,
                },
            ),
        ),
        Stage::AwaitAncestor => Ok(
            after_module(
                world,
                s,
                with_resolution(
                    with_imports(
                        s.imports,
                        existing_from(world, s.found, s.candidates, s.next_candidate),
                    ),
                    resolution(world, s.source_root, current_module(s)),
                ),
            ),
        ),
        Stage::AwaitPackageInit => Ok(
            after_module(
                world,
                s,
                with_resolution(s.imports, resolution(world, s.source_root, current_module(s))),
            ),
        ),
        Stage::AwaitModuleFile => Ok(
            after_module(
                world,
                s,
                with_resolution(s.imports, resolution(world, s.source_root, current_module(s))),
            ),
        ),
    }
}

/// The state after the world has answered the pending request.
pub open spec fn answered(world: World, s: BuilderView) -> BuilderView {
    after_answer(s, answer_of(world, pending_request(s)))
}

/// The state after the world has answered `steps` requests in a row.
pub open spec fn driven(world: World, s: BuilderView, steps: nat) -> BuilderView
    decreases steps,
{
    if steps == 0 {
        s
    } else {
        answered(world, driven(world, s, (steps - 1) as nat))
    }
}

/// What a pass that has ended has to show: its map, or that the source
/// root was not found.
pub open spec fn result_of(s: BuilderView) -> Result<Map<Seq<char>, ProjectFileView>, NotFound> {
    if s.stage == Stage::Failed {
        Err(NotFound::SourceRoot)
    } else {
        Ok(s.dependency_map)
    }
}

proof fn lemma_start_include(world: World, s: BuilderView)
    requires
        caches_sound(world, s),
    ensures
        consistent(world, start_include(s)),
        outcome(world, start_include(s)) == Ok::<Map<Seq<char>, ProjectFileView>, NotFound>(
            with_includes_from(
                world,
                s.source_root,
                s.filter_prefixes,
                s.dependency_map,
                s.include_paths,
                s.next_include,
            ),
        ),
{
}

proof fn lemma_start_file(world: World, s: BuilderView)
    requires
        caches_sound(world, s),
        s.next_include < s.include_paths.len(),
    ensures
        consistent(world, start_file(s)),
        outcome(world, start_file(s)) == Ok::<Map<Seq<char>, ProjectFileView>, NotFound>(
            with_includes_from(
                world,
                s.source_root,
                s.filter_prefixes,
                with_files_from(
                    world,
                    s.source_root,
                    s.filter_prefixes,
                    s.dependency_map,
                    s.files,
                    s.next_file,
                ),
                s.include_paths,
                s.next_include + 1,
            ),
        ),
{
    if s.next_file >= s.files.len() {
        lemma_start_include(world, BuilderView { next_include: s.next_include + 1, ..s });
    }
}

proof fn lemma_skip_file(world: World, s: BuilderView)
    requires
        caches_sound(world, s),
        s.next_include < s.include_paths.len(),
    ensures
        consistent(world, skip_file(s)),
        outcome(world, skip_file(s)) == Ok::<Map<Seq<char>, ProjectFileView>, NotFound>(
            after_file(world, s, s.dependency_map),
        ),
{
    lemma_start_file(world, BuilderView { next_file: s.next_file + 1, ..s });
}

proof fn lemma_record_file(world: World, s: BuilderView)
    requires
        caches_sound(world, s),
        s.next_include < s.include_paths.len(),
        !s.dependency_map.contains_key(s.path),
    ensures
        consistent(world, record_file(s)),
        outcome(world, record_file(s)) == Ok::<Map<Seq<char>, ProjectFileView>, NotFound>(
            after_file(
                world,
                s,
                s.dependency_map.insert(
                    s.path,
                    ProjectFileView { hash: s.hash, imports: s.imports.to_set() },
                ),
            ),
        ),
{
    lemma_skip_file(
        world,
        BuilderView {
            dependency_map: with_record(
                s.dependency_map,
                s.path,
                ProjectFileView { hash: s.hash, imports: s.imports.to_set() },
            ),
            path: Seq::empty(),
            hash: Seq::empty(),
            imports: Seq::empty(),
            ..s
        },
    );
}

/// The imports a file ends with when its modules are resolved from the
/// position of `s` on.
pub open spec fn final_imports(world: World, s: BuilderView, inits_done: bool) -> Seq<Seq<char>> {
    if inits_done {
        imports_from(
            world,
            s.source_root,
            with_resolution(s.imports, resolution(world, s.source_root, current_module(s))),
            s.modules,
            s.next_module + 1,
        )
    } else {
        imports_from(world, s.source_root, s.imports, s.modules, s.next_module)
    }
}

proof fn lemma_no_imports_added(imports: Seq<Seq<char>>)
    ensures
        with_imports(imports, Seq::empty()) == imports,
{
}

proof fn lemma_resolve_modules(world: World, s: BuilderView, inits_done: bool)
    requires
        caches_sound(world, s),
        s.next_include < s.include_paths.len(),
        s.next_file < s.files.len(),
        s.next_module <= s.modules.len(),
        inits_done ==> s.next_module < s.modules.len(),
        !s.dependency_map.contains_key(s.path),
    ensures
        consistent(world, resolve_modules(s, inits_done)),
        outcome(world, resolve_modules(s, inits_done)) == Ok::<
            Map<Seq<char>, ProjectFileView>,
            NotFound,
        >(
            after_file(
                world,
                s,
                s.dependency_map.insert(
                    s.path,
                    ProjectFileView {
                        hash: s.hash,
                        imports: final_imports(world, s, inits_done).to_set(),
                    },
                ),
            ),
        ),
    decreases s.modules.len() - s.next_module, if inits_done { 0nat } else { 1nat },
{
    let module = current_module(s);
    if s.next_module >= s.modules.len() {
        lemma_record_file(world, s);
    } else if !inits_done {
        if s.package_inits.contains_key(module) {
            let next = BuilderView {
                imports: with_imports(s.imports, s.package_inits[module]),
                ..s
            };
            lemma_resolve_modules(world, next, true);
        } else if ancestor_init_paths(s.source_root, module).len() == 0 {
            let next = BuilderView {
                package_inits: s.package_inits.insert(module, Seq::empty()),
                ..s
            };
            assert(existing_inits(world, s.source_root, module) == Seq::<Seq<char>>::empty());
            lemma_no_imports_added(s.imports);
            lemma_resolve_modules(world, next, true);
        } else {
        }
    } else {
        if s.resolutions.contains_key(module) {
            let next = BuilderView {
                imports: with_resolution(s.imports, s.resolutions[module]),
                next_module: s.next_module + 1,
                ..s
            };
            lemma_resolve_modules(world, next, false);
        } else {
        }
    }
}

proof fn lemma_resolved(world: World, s: BuilderView)
    requires
        consistent(world, s),
        s.stage == Stage::AwaitPackageInit || s.stage == Stage::AwaitModuleFile,
        s.next_include < s.include_paths.len(),
        s.next_file < s.files.len(),
    ensures
        consistent(world, resolved(s, resolution(world, s.source_root, current_module(s)))),
        outcome(world, resolved(s, resolution(world, s.source_root, current_module(s))))
            == outcome(world, s),
{
    let found = resolution(world, s.source_root, current_module(s));
    let next = BuilderView {
        resolutions: s.resolutions.insert(current_module(s), found),
        imports: with_resolution(s.imports, found),
        next_module: s.next_module + 1,
        ..s
    };
    lemma_resolve_modules(world, next, false);
}

/// No answer of the world changes what the pass will end with, and every
/// state reached stays consistent with the world.
pub proof fn lemma_answer_keeps_outcome(world: World, s: BuilderView)
    requires
        consistent(world, s),
    ensures
        consistent(world, answered(world, s)),
        outcome(world, answered(world, s)) == outcome(world, s),
{
    let next = answered(world, s);
    match s.stage {
        Stage::AwaitRoot => {
            match (world.canonical)(s.source_root) {
                Some(root) => {
                    lemma_start_include(world, BuilderView { source_root: root, ..s });
                },
                None => {},
            }
        },
        Stage::AwaitKind => {
            match (world.kind)(current_include(s)) {
                PathKind::Directory => {},
                PathKind::File => {
                    lemma_start_file(
                        world,
                        BuilderView {
                            files: files_of_include(
                                world,
                                s.source_root,
                                s.include_paths[s.next_include as int],
                            ),
                            next_file: 0,
                            ..s
                        },
                    );
                },
                PathKind::Other => {
                    lemma_start_file(
                        world,
                        BuilderView { files: Seq::empty(), next_file: 0, ..s },
                    );
                },
            }
        },
        Stage::AwaitListing => {
            lemma_start_file(
                world,
                BuilderView {
                    files: files_of_include(
                        world,
                        s.source_root,
                        s.include_paths[s.next_include as int],
                    ),
                    next_file: 0,
                    ..s
                },
            );
        },
        Stage::AwaitCanonical => {
            let listed = s.files[s.next_file as int];
            let path = match (world.canonical)(listed) {
                Some(p) => p,
                None => listed,
            };
            if s.dependency_map.contains_key(path) {
                lemma_skip_file(world, s);
            }
        },
        Stage::AwaitContent => {
            match (world.content)(s.path) {
                Some(bytes) => {
                    lemma_resolve_modules(
                        world,
                        BuilderView {
                            hash: crate::fingerprint::fingerprint_of(bytes),
                            modules: crate::imports::file_modules(bytes, s.filter_prefixes),
                            next_module: 0,
                            imports: Seq::empty(),
                            ..s
                        },
                        false,
                    );
                },
                None => {
                    lemma_skip_file(world, s);
                },
            }
        },
        Stage::AwaitAncestor => {
            let candidate = s.candidates[s.next_candidate as int];
            let found = if (world.present)(candidate) {
                s.found.push(candidate)
            } else {
                s.found
            };
            if s.next_candidate + 1 < s.candidates.len() {
            } else {
                assert(existing_from(world, found, s.candidates, s.next_candidate + 1) == found);
                lemma_resolve_modules(
                    world,
                    BuilderView {
                        package_inits: s.package_inits.insert(current_module(s), found),
                        imports: with_imports(s.imports, found),
                        candidates: Seq::empty(),
                        next_candidate: 0,
                        found: Seq::empty(),
                        ..s
                    },
                    true,
                );
            }
        },
        Stage::AwaitPackageInit => {
            if (world.present)(package_init_path(s.source_root, current_module(s))) {
                lemma_resolved(world, s);
            }
        },
        Stage::AwaitModuleFile => {
            lemma_resolved(world, s);
        },
        Stage::Finished => {},
        Stage::Failed => {},
    }
}

/// However many requests the world has answered, the pass will still end
/// with the map of that world.
pub proof fn lemma_driven_keeps_outcome(
    world: World,
    source_root: Seq<char>,
    prefixes: Seq<Seq<char>>,
    includes: Seq<Seq<char>>,
    steps: nat,
)
    ensures
        consistent(world, driven(world, initial_state(source_root, prefixes, includes), steps)),
        outcome(world, driven(world, initial_state(source_root, prefixes, includes), steps))
            == dependency_map_of(world, source_root, prefixes, includes),
    decreases steps,
{
    let start = initial_state(source_root, prefixes, includes);
    if steps > 0 {
        lemma_driven_keeps_outcome(world, source_root, prefixes, includes, (steps - 1) as nat);
        lemma_answer_keeps_outcome(world, driven(world, start, (steps - 1) as nat));
    }
}

/// A pass that has ended after any number of answers from one world shows
/// exactly the dependency map of that world, or fails exactly when the
/// source root does not resolve.
pub proof fn lemma_finished_pass_shows_the_map(
    world: World,
    source_root: Seq<char>,
    prefixes: Seq<Seq<char>>,
    includes: Seq<Seq<char>>,
    steps: nat,
)
    requires
        ({
            let end = driven(world, initial_state(source_root, prefixes, includes), steps);
            end.stage == Stage::Finished || end.stage == Stage::Failed
        }),
    ensures
        result_of(driven(world, initial_state(source_root, prefixes, includes), steps))
            == dependency_map_of(world, source_root, prefixes, includes),
{
    lemma_driven_keeps_outcome(world, source_root, prefixes, includes, steps);
}

/// Two passes over an unchanged tree end with equal maps, however the
/// requests were spread over time.
pub proof fn lemma_rebuilding_gives_the_same_map(
    world: World,
    source_root: Seq<char>,
    prefixes: Seq<Seq<char>>,
    includes: Seq<Seq<char>>,
    first_steps: nat,
    second_steps: nat,
)
    requires
        ({
            let first = driven(world, initial_state(source_root, prefixes, includes), first_steps);
            first.stage == Stage::Finished || first.stage == Stage::Failed
        }),
        ({
            let second = driven(
                world,
                initial_state(source_root, prefixes, includes),
                second_steps,
            );
            second.stage == Stage::Finished || second.stage == Stage::Failed
        }),
    ensures
        result_of(driven(world, initial_state(source_root, prefixes, includes), first_steps))
            == result_of(
            driven(world, initial_state(source_root, prefixes, includes), second_steps),
        ),
{
    lemma_finished_pass_shows_the_map(world, source_root, prefixes, includes, first_steps);
    lemma_finished_pass_shows_the_map(world, source_root, prefixes, includes, second_steps);
}

/// Whether a pass has ended.
pub open spec fn has_ended(s: BuilderView) -> bool {
    s.stage == Stage::Finished || s.stage == Stage::Failed
}

/// Include paths still to be dealt with, counted so that every stage that
/// comes before the scanning counts more.
pub open spec fn includes_left(s: BuilderView) -> nat {
    if s.stage == Stage::AwaitRoot {
        s.include_paths.len() + 2
    } else if scanning(s.stage) {
        (s.include_paths.len() - s.next_include + 1) as nat
    } else {
        0
    }
}

/// How far the work on the current include path still is from its files.
pub open spec fn include_rank(s: BuilderView) -> nat {
    match s.stage {
        Stage::AwaitKind => 2,
        Stage::AwaitListing => 1,
        _ => 0,
    }
}

/// Files of the current include path still to be dealt with.
pub open spec fn files_left(s: BuilderView) -> nat {
    if in_file(s.stage) {
        (s.files.len() - s.next_file) as nat
    } else {
        0
    }
}

/// How far the work on the current file still is from its modules.
pub open spec fn file_rank(s: BuilderView) -> nat {
    match s.stage {
        Stage::AwaitCanonical => 2,
        Stage::AwaitContent => 1,
        _ => 0,
    }
}

/// Modules of the current file still to be resolved.
pub open spec fn modules_left(s: BuilderView) -> nat {
    if in_module(s.stage) {
        (s.modules.len() - s.next_module) as nat
    } else {
        0
    }
}

/// How far the work on the current module still is from its end.
pub open spec fn module_rank(s: BuilderView) -> nat {
    match s.stage {
        Stage::AwaitAncestor => 2,
        Stage::AwaitPackageInit => 1,
        _ => 0,
    }
}

/// Ancestor initializers of the current module still to be probed.
pub open spec fn candidates_left(s: BuilderView) -> nat {
    if s.stage == Stage::AwaitAncestor {
        (s.candidates.len() - s.next_candidate) as nat
    } else {
        0
    }
}

/// `later` has less work ahead than `earlier`: fewer include paths, or as
/// many and nearer to their files, or as near and fewer files, and so on
/// down to the ancestor initializers of one module.
pub open spec fn nearer_the_end(later: BuilderView, earlier: BuilderView) -> bool {
    ||| includes_left(later) < includes_left(earlier)
    ||| includes_left(later) == includes_left(earlier) && include_rank(later) < include_rank(
        earlier,
    )
    ||| includes_left(later) == includes_left(earlier) && include_rank(later) == include_rank(
        earlier,
    ) && files_left(later) < files_left(earlier)
    ||| includes_left(later) == includes_left(earlier) && include_rank(later) == include_rank(
        earlier,
    ) && files_left(later) == files_left(earlier) && file_rank(later) < file_rank(earlier)
    ||| includes_left(later) == includes_left(earlier) && include_rank(later) == include_rank(
        earlier,
    ) && files_left(later) == files_left(earlier) && file_rank(later) == file_rank(earlier)
        && modules_left(later) < modules_left(earlier)
    ||| includes_left(later) == includes_left(earlier) && include_rank(later) == include_rank(
        earlier,
    ) && files_left(later) == files_left(earlier) && file_rank(later) == file_rank(earlier)
        && modules_left(later) == modules_left(earlier) && module_rank(later) < module_rank(
        earlier,
    )
    ||| includes_left(later) == includes_left(earlier) && include_rank(later) == include_rank(
        earlier,
    ) && files_left(later) == files_left(earlier) && file_rank(later) == file_rank(earlier)
        && modules_left(later) == modules_left(earlier) && module_rank(later) == module_rank(
        earlier,
    ) && candidates_left(later) < candidates_left(earlier)
}

/// `later` has left the file that `earlier` was on.
pub open spec fn past_the_file(later: BuilderView, earlier: BuilderView) -> bool {
    &&& later.include_paths == earlier.include_paths
    &&& well_formed(later)
    &&& {
        ||| later.stage == Stage::AwaitCanonical && later.next_include == earlier.next_include
            && later.files == earlier.files && later.next_file == earlier.next_file + 1
        ||| later.stage == Stage::AwaitKind && later.next_include == earlier.next_include + 1
        ||| later.stage == Stage::Finished
    }
}

/// `later` is still on the file that `earlier` was on, at the same module
/// or a later one.
pub open spec fn on_the_file(later: BuilderView, earlier: BuilderView, inits_done: bool) -> bool {
    &&& later.include_paths == earlier.include_paths
    &&& later.next_include == earlier.next_include
    &&& later.files == earlier.files
    &&& later.next_file == earlier.next_file
    &&& later.modules == earlier.modules
    &&& later.next_module >= earlier.next_module
    &&& later.next_module < later.modules.len()
    &&& later.stage == Stage::AwaitAncestor || later.stage == Stage::AwaitPackageInit
    &&& later.stage == Stage::AwaitAncestor ==> later.next_candidate == 0
    &&& inits_done && later.next_module == earlier.next_module ==> later.stage
        == Stage::AwaitPackageInit
}

proof fn lemma_skip_file_moves_on(s: BuilderView)
    requires
        s.next_include < s.include_paths.len(),
        s.next_file < s.files.len(),
    ensures
        past_the_file(skip_file(s), s),
{
}

proof fn lemma_resolve_modules_moves_on(s: BuilderView, inits_done: bool)
    requires
        s.next_include < s.include_paths.len(),
        s.next_file < s.files.len(),
        s.next_module <= s.modules.len(),
        inits_done ==> s.next_module < s.modules.len(),
    ensures
        past_the_file(resolve_modules(s, inits_done), s) || on_the_file(
            resolve_modules(s, inits_done),
            s,
            inits_done,
        ),
    decreases s.modules.len() - s.next_module, if inits_done { 0nat } else { 1nat },
{
    let module = current_module(s);
    if s.next_module >= s.modules.len() {
        lemma_skip_file_moves_on(
            BuilderView {
                dependency_map: with_record(
                    s.dependency_map,
                    s.path,
                    ProjectFileView { hash: s.hash, imports: s.imports.to_set() },
                ),
                path: Seq::empty(),
                hash: Seq::empty(),
                imports: Seq::empty(),
                ..s
            },
        );
    } else if !inits_done {
        if s.package_inits.contains_key(module) {
            lemma_resolve_modules_moves_on(
                BuilderView { imports: with_imports(s.imports, s.package_inits[module]), ..s },
                true,
            );
        } else if ancestor_init_paths(s.source_root, module).len() == 0 {
            lemma_resolve_modules_moves_on(
                BuilderView { package_inits: s.package_inits.insert(module, Seq::empty()), ..s },
                true,
            );
        }
    } else {
        if s.resolutions.contains_key(module) {
            lemma_resolve_modules_moves_on(
                BuilderView {
                    imports: with_resolution(s.imports, s.resolutions[module]),
                    next_module: s.next_module + 1,
                    ..s
                },
                false,
            );
        }
    }
}

/// Every answer brings a pass that has not ended nearer to its end.
pub proof fn lemma_answer_brings_the_end_nearer(world: World, s: BuilderView)
    requires
        well_formed(s),
        !has_ended(s),
    ensures
        nearer_the_end(answered(world, s), s),
{
    let next = answered(world, s);
    match s.stage {
        Stage::AwaitRoot => {},
        Stage::AwaitKind => {},
        Stage::AwaitListing => {},
        Stage::AwaitCanonical => {
            lemma_skip_file_moves_on(s);
        },
        Stage::AwaitContent => {
            match (world.content)(s.path) {
                Some(bytes) => {
                    lemma_resolve_modules_moves_on(
                        BuilderView {
                            hash: crate::fingerprint::fingerprint_of(bytes),
                            modules: crate::imports::file_modules(bytes, s.filter_prefixes),
                            next_module: 0,
                            imports: Seq::empty(),
                            ..s
                        },
                        false,
                    );
                },
                None => {
                    lemma_skip_file_moves_on(s);
                },
            }
        },
        Stage::AwaitAncestor => {
            let candidate = s.candidates[s.next_candidate as int];
            let found = if (world.present)(candidate) {
                s.found.push(candidate)
            } else {
                s.found
            };
            if s.next_candidate + 1 >= s.candidates.len() {
                lemma_resolve_modules_moves_on(
                    BuilderView {
                        package_inits: s.package_inits.insert(current_module(s), found),
                        imports: with_imports(s.imports, found),
                        candidates: Seq::empty(),
                        next_candidate: 0,
                        found: Seq::empty(),
                        ..s
                    },
                    true,
                );
            }
        },
        Stage::AwaitPackageInit => {
            if (world.present)(package_init_path(s.source_root, current_module(s))) {
                let found = Some(package_init_path(s.source_root, current_module(s)));
                lemma_resolve_modules_moves_on(
                    BuilderView {
                        resolutions: s.resolutions.insert(current_module(s), found),
                        imports: with_resolution(s.imports, found),
                        next_module: s.next_module + 1,
                        ..s
                    },
                    false,
                );
            }
        },
        Stage::AwaitModuleFile => {
            let found = if (world.present)(module_file_path(s.source_root, current_module(s))) {
                Some(module_file_path(s.source_root, current_module(s)))
            } else {
                None
            };
            lemma_resolve_modules_moves_on(
                BuilderView {
                    resolutions: s.resolutions.insert(current_module(s), found),
                    imports: with_resolution(s.imports, found),
                    next_module: s.next_module + 1,
                    ..s
                },
                false,
            );
        },
        Stage::Finished => {},
        Stage::Failed => {},
    }
}

proof fn lemma_driven_from_the_next(world: World, s: BuilderView, steps: nat)
    ensures
        driven(world, s, steps + 1) == driven(world, answered(world, s), steps),
    decreases steps,
{
    if steps > 0 {
        lemma_driven_from_the_next(world, s, (steps - 1) as nat);
    } else {
        assert(driven(world, s, 0) == s);
        assert(driven(world, s, 1) == answered(world, driven(world, s, 0)));
    }
}

/// From any state consistent with a world, the world's answers bring the
/// pass to its end in finitely many steps. Returns such a number of steps.
pub proof fn lemma_pass_ends_from(world: World, s: BuilderView) -> (steps: nat)
    requires
        consistent(world, s),
    ensures
        has_ended(driven(world, s, steps)),
    decreases
            includes_left(s),
            include_rank(s),
            files_left(s),
            file_rank(s),
            modules_left(s),
            module_rank(s),
            candidates_left(s),
{
    if has_ended(s) {
        0
    } else {
        lemma_answer_keeps_outcome(world, s);
        lemma_answer_brings_the_end_nearer(world, s);
        let rest = lemma_pass_ends_from(world, answered(world, s));
        lemma_driven_from_the_next(world, s, rest);
        rest + 1
    }
}

/// A pass over an unchanging tree always ends, and when it has ended it
/// shows the dependency map of that tree, or the failure to find its root.
pub proof fn lemma_every_pass_ends_with_the_map(
    world: World,
    source_root: Seq<char>,
    prefixes: Seq<Seq<char>>,
    includes: Seq<Seq<char>>,
) -> (steps: nat)
    ensures
        has_ended(driven(world, initial_state(source_root, prefixes, includes), steps)),
        result_of(driven(world, initial_state(source_root, prefixes, includes), steps))
            == dependency_map_of(world, source_root, prefixes, includes),
{
    lemma_driven_keeps_outcome(world, source_root, prefixes, includes, 0);
    let steps = lemma_pass_ends_from(world, initial_state(source_root, prefixes, includes));
    lemma_finished_pass_shows_the_map(world, source_root, prefixes, includes, steps);
    steps
}

} // verus!
