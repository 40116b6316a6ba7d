//! The files an entry file depends on, directly or through other files.

use crate::path_map::PathMap;
use crate::project::{fingerprint_views, DependencyMap, FingerprintMap, NotFound, ProjectFile};
use crate::text::views;
use vstd::prelude::*;

verus! {

/// `chain` walks import edges of `map`: every file on it has a record, and
/// each file imports the next.
pub open spec fn is_import_chain(map: Map<Seq<char>, ProjectFile>, chain: Seq<Seq<char>>) -> bool {
    &&& chain.len() > 0
    &&& forall|i: int| 0 <= i < chain.len() ==> map.contains_key(#[trigger] chain[i])
    &&& forall|i: int|
        0 <= i < chain.len() - 1 ==> map[#[trigger] chain[i]]@.imports.contains(chain[i + 1])
}

/// `path` can be reached from `entry` along import edges between files that
/// have a record. A file with a record reaches itself.
pub open spec fn reaches(map: Map<Seq<char>, ProjectFile>, entry: Seq<char>, path: Seq<char>) -> bool {
    exists|chain: Seq<Seq<char>>|
        is_import_chain(map, chain) && chain[0] == entry && #[trigger] chain.last() == path
}

/// The files reachable from `entry`, each with the fingerprint in its record.
pub open spec fn reachable_fingerprints(map: Map<Seq<char>, ProjectFile>, entry: Seq<char>) -> Map<
    Seq<char>,
    Seq<char>,
> {
    Map::new(|path: Seq<char>| reaches(map, entry, path), |path: Seq<char>| map[path]@.hash)
}

/// A file with a record reaches itself.
pub proof fn lemma_reaches_itself(map: Map<Seq<char>, ProjectFile>, entry: Seq<char>)
    requires
        map.contains_key(entry),
    ensures
        reaches(map, entry, entry),
{
    let chain = seq![entry];
    assert(is_import_chain(map, chain));
    assert(chain[0] == entry && chain.last() == entry);
}

/// Whatever a reachable file imports is reachable too, if it has a record.
pub proof fn lemma_reaches_import(
    map: Map<Seq<char>, ProjectFile>,
    entry: Seq<char>,
    from: Seq<char>,
    to: Seq<char>,
)
    requires
        reaches(map, entry, from),
        map[from]@.imports.contains(to),
        map.contains_key(to),
    ensures
        reaches(map, entry, to),
{
    let chain = choose|chain: Seq<Seq<char>>|
        is_import_chain(map, chain) && chain[0] == entry && #[trigger] chain.last() == from;
    let longer = chain.push(to);
    assert forall|i: int| 0 <= i < longer.len() implies map.contains_key(
        #[trigger] longer[i],
    ) by {
        if i < chain.len() {
            assert(longer[i] == chain[i]);
        }
    }
    assert forall|i: int| 0 <= i < longer.len() - 1 implies map[#[trigger] longer[i]]@.imports.contains(
        longer[i + 1],
    ) by {
        if i < chain.len() - 1 {
            assert(longer[i] == chain[i]);
            assert(longer[i + 1] == chain[i + 1]);
        } else {
            assert(longer[i] == chain.last());
        }
    }
    assert(is_import_chain(map, longer));
    assert(longer[0] == entry && longer.last() == to);
}

/// The condition under which a set of files holds everything reachable:
/// it holds the entry if that has a record, and with each file those of
/// its imports that have a record.
pub open spec fn closed_under_imports(
    map: Map<Seq<char>, ProjectFile>,
    entry: Seq<char>,
    files: Set<Seq<char>>,
) -> bool {
    &&& map.contains_key(entry) ==> files.contains(entry)
    &&& forall|from: Seq<char>, to: Seq<char>|
        files.contains(from) && #[trigger] map[from]@.imports.contains(to) && map.contains_key(to)
            ==> files.contains(to)
}

proof fn lemma_closed_holds_chain(
    map: Map<Seq<char>, ProjectFile>,
    entry: Seq<char>,
    files: Set<Seq<char>>,
    chain: Seq<Seq<char>>,
    i: int,
)
    requires
        closed_under_imports(map, entry, files),
        is_import_chain(map, chain),
        chain[0] == entry,
        0 <= i < chain.len(),
    ensures
        files.contains(chain[i]),
    decreases i,
{
    if i > 0 {
        lemma_closed_holds_chain(map, entry, files, chain, i - 1);
        assert(map[chain[i - 1]]@.imports.contains(chain[i - 1 + 1]));
    }
}

/// A set closed under imports holds every reachable file.
pub proof fn lemma_closed_holds_reachable(
    map: Map<Seq<char>, ProjectFile>,
    entry: Seq<char>,
    files: Set<Seq<char>>,
    path: Seq<char>,
)
    requires
        closed_under_imports(map, entry, files),
        reaches(map, entry, path),
    ensures
        files.contains(path),
{
    let chain = choose|chain: Seq<Seq<char>>|
        is_import_chain(map, chain) && chain[0] == entry && #[trigger] chain.last() == path;
    lemma_closed_holds_chain(map, entry, files, chain, chain.len() - 1);
}

/// An entry without a record reaches nothing: the result is empty.
pub proof fn lemma_unknown_entry_reaches_nothing(map: Map<Seq<char>, ProjectFile>, entry: Seq<char>)
    requires
        !map.contains_key(entry),
    ensures
        reachable_fingerprints(map, entry) == Map::<Seq<char>, Seq<char>>::empty(),
{
    assert(reachable_fingerprints(map, entry) =~= Map::<Seq<char>, Seq<char>>::empty());
}

/// An entry that imports nothing reaches itself alone.
pub proof fn lemma_entry_without_imports(map: Map<Seq<char>, ProjectFile>, entry: Seq<char>)
    requires
        map.contains_key(entry),
        map[entry]@.imports == Set::<Seq<char>>::empty(),
    ensures
        reachable_fingerprints(map, entry) == Map::<Seq<char>, Seq<char>>::empty().insert(
            entry,
            map[entry]@.hash,
        ),
{
    let alone = Set::<Seq<char>>::empty().insert(entry);
    assert(closed_under_imports(map, entry, alone));
    assert forall|p: Seq<char>| reaches(map, entry, p) implies p == entry by {
        lemma_closed_holds_reachable(map, entry, alone, p);
    }
    lemma_reaches_itself(map, entry);
    assert(reachable_fingerprints(map, entry) =~= Map::<Seq<char>, Seq<char>>::empty().insert(
        entry,
        map[entry]@.hash,
    ));
}

/// Two files that import each other and nothing else reach exactly each
/// other: from either, the result holds both, each once.
pub proof fn lemma_mutual_imports(map: Map<Seq<char>, ProjectFile>, a: Seq<char>, b: Seq<char>)
    requires
        map.contains_key(a),
        map.contains_key(b),
        map[a]@.imports == Set::<Seq<char>>::empty().insert(b),
        map[b]@.imports == Set::<Seq<char>>::empty().insert(a),
    ensures
        reachable_fingerprints(map, a) == Map::<Seq<char>, Seq<char>>::empty().insert(
            a,
            map[a]@.hash,
        ).insert(b, map[b]@.hash),
{
    let both = Set::<Seq<char>>::empty().insert(a).insert(b);
    assert(closed_under_imports(map, a, both));
    assert forall|p: Seq<char>| reaches(map, a, p) implies p == a || p == b by {
        lemma_closed_holds_reachable(map, a, both, p);
    }
    lemma_reaches_itself(map, a);
    lemma_reaches_import(map, a, a, b);
    assert(reachable_fingerprints(map, a) =~= Map::<Seq<char>, Seq<char>>::empty().insert(
        a,
        map[a]@.hash,
    ).insert(b, map[b]@.hash));
}

/// Walks the import edges of `dependency_map` from `entry`, which is taken
/// as written: the caller has made it canonical. Every file is visited once,
/// however many files import it and whether or not imports run in circles.
/// Paths without a record contribute nothing.
pub fn reachable_from(dependency_map: &DependencyMap, entry: &str) -> (found: FingerprintMap)
    requires
        dependency_map.wf(),
    ensures
        found.wf(),
        fingerprint_views(found@) == reachable_fingerprints(dependency_map@, entry@),
{
    let mut found: FingerprintMap = PathMap::new();
    let mut seen: PathMap<()> = PathMap::new();
    let mut stack: Vec<String> = Vec::new();
    stack.push(entry.to_owned());
    proof {
        dependency_map.lemma_keys();
        assert(views(stack@)[0] == entry@);
        if dependency_map@.contains_key(entry@) {
            lemma_reaches_itself(dependency_map@, entry@);
        }
    }
    while stack.len() > 0
        invariant
            dependency_map.wf(),
            dependency_map@.dom().finite(),
            seen.wf(),
            found.wf(),
            forall|p: Seq<char>|
                found@.contains_key(p) <==> seen@.contains_key(p) && dependency_map@.contains_key(
                    p,
                ),
            forall|p: Seq<char>| #[trigger]
                found@.contains_key(p) ==> reaches(dependency_map@, entry@, p) && found@[p]@
                    == dependency_map@[p]@.hash,
            forall|i: int|
                0 <= i < stack.len() && dependency_map@.contains_key(#[trigger] views(stack@)[i])
                    ==> reaches(dependency_map@, entry@, views(stack@)[i]),
            dependency_map@.contains_key(entry@) ==> found@.contains_key(entry@) || views(
                stack@,
            ).contains(entry@),
            forall|from: Seq<char>, to: Seq<char>|
                found@.contains_key(from) && #[trigger] dependency_map@[from]@.imports.contains(to)
                    && dependency_map@.contains_key(to) ==> found@.contains_key(to) || views(
                    stack@,
                ).contains(to),
        decreases dependency_map@.dom().difference(seen@.dom()).len(), stack.len(),
    {
        let ghost stack_before = views(stack@);
        let ghost seen_before = seen@.dom();
        let ghost found_before = found@;
        let current = stack.pop().unwrap();
        proof {
            assert(views(stack@) =~= stack_before.drop_last());
            assert(stack_before.last() == current@);
            assert forall|t: Seq<char>| stack_before.contains(t) implies t == current@ || views(
                stack@,
            ).contains(t) by {
                let i = choose|i: int| 0 <= i < stack_before.len() && stack_before[i] == t;
                if i < stack_before.len() - 1 {
                    assert(views(stack@)[i] == t);
                }
            }
            assert forall|i: int|
                0 <= i < stack.len() && dependency_map@.contains_key(
                    #[trigger] views(stack@)[i],
                ) implies reaches(dependency_map@, entry@, views(stack@)[i]) by {
                assert(views(stack@)[i] == stack_before[i]);
            }
            assert(dependency_map@.contains_key(current@) ==> reaches(
                dependency_map@,
                entry@,
                current@,
            )) by {
                assert(stack_before[stack_before.len() - 1] == current@);
            }
        }
        if seen.insert(current.clone(), ()) {
            match dependency_map.get(current.as_str()) {
                Some(file) => {
                    found.insert(current, file.hash.clone());
                    proof {
                        assert(dependency_map@.dom().difference(seen@.dom())
                            =~= dependency_map@.dom().difference(seen_before).remove(current@));
                    }
                    let mut j: usize = 0;
                    while j < file.imports.len()
                        invariant
                            j <= file.imports.len(),
                            dependency_map@.contains_key(current@),
                            *file == dependency_map@[current@],
                            found@ == found_before.insert(current@, file.hash),
                            reaches(dependency_map@, entry@, current@),
                            forall|i: int|
                                0 <= i < stack.len() && dependency_map@.contains_key(
                                    #[trigger] views(stack@)[i],
                                ) ==> reaches(dependency_map@, entry@, views(stack@)[i]),
                            forall|t: Seq<char>|
                                stack_before.contains(t) ==> t == current@ || views(
                                    stack@,
                                ).contains(t),
                            forall|k: int|
                                0 <= k < j ==> views(stack@).contains(
                                    #[trigger] views(file.imports@)[k],
                                ),
                        decreases file.imports.len() - j,
                    {
                        let ghost inner_before = views(stack@);
                        stack.push(file.imports[j].clone());
                        proof {
                            let target = views(file.imports@)[j as int];
                            assert(views(stack@) =~= inner_before.push(target));
                            assert(views(stack@)[inner_before.len() as int] == target);
                            assert forall|t: Seq<char>|
                                inner_before.contains(t) implies views(stack@).contains(t) by {
                                let i = choose|i: int|
                                    0 <= i < inner_before.len() && inner_before[i] == t;
                                assert(views(stack@)[i] == t);
                            }
                            assert(views(file.imports@).to_set().contains(target));
                            if dependency_map@.contains_key(target) {
                                lemma_reaches_import(
                                    dependency_map@,
                                    entry@,
                                    current@,
                                    target,
                                );
                            }
                            assert forall|i: int|
                                0 <= i < stack.len() && dependency_map@.contains_key(
                                    #[trigger] views(stack@)[i],
                                ) implies reaches(dependency_map@, entry@, views(stack@)[i]) by {
                                if i < inner_before.len() {
                                    assert(views(stack@)[i] == inner_before[i]);
                                }
                            }
                        }
                        j += 1;
                    }
                    proof {
                        assert forall|from: Seq<char>, to: Seq<char>|
                            found@.contains_key(from)
                                && #[trigger] dependency_map@[from]@.imports.contains(to)
                                && dependency_map@.contains_key(to) implies found@.contains_key(to)
                            || views(stack@).contains(to) by {
                            if from == current@ {
                                let k = choose|k: int|
                                    0 <= k < views(file.imports@).len() && views(file.imports@)[k]
                                        == to;
                                assert(views(stack@).contains(views(file.imports@)[k]));
                            } else {
                                assert(found_before.contains_key(from));
                                if !found_before.contains_key(to) {
                                    assert(stack_before.contains(to));
                                }
                            }
                        }
                    }
                },
                None => {
                    proof {
                        assert(dependency_map@.dom().difference(seen@.dom())
                            =~= dependency_map@.dom().difference(seen_before));
                    }
                },
            }
        }
    }
    proof {
        assert(views(stack@) =~= Seq::<Seq<char>>::empty());
        assert(closed_under_imports(dependency_map@, entry@, found@.dom()));
        assert forall|p: Seq<char>| reaches(dependency_map@, entry@, p) implies found@.contains_key(
            p,
        ) by {
            lemma_closed_holds_reachable(dependency_map@, entry@, found@.dom(), p);
        }
        assert(fingerprint_views(found@) =~= reachable_fingerprints(dependency_map@, entry@));
    }
    found
}

/// The files that `entry_point` depends on, itself included, each with its
/// fingerprint. `entry_point` is the canonical path of the entry file, or
/// `None` when the entry file could not be resolved on disk, which is the
/// one failure. An entry without a record gives an empty map.
pub fn get_dependency_graph(dependency_map: &DependencyMap, entry_point: Option<&str>) -> (graph:
    Result<FingerprintMap, NotFound>)
    requires
        dependency_map.wf(),
    ensures
        match graph {
            Ok(found) => entry_point matches Some(entry) && found.wf() && fingerprint_views(found@)
                == reachable_fingerprints(dependency_map@, entry@),
            Err(e) => entry_point is None && e == NotFound::EntryPoint,
        },
{
    match entry_point {
        Some(entry) => Ok(reachable_from(dependency_map, entry)),
        None => Err(NotFound::EntryPoint),
    }
}

} // verus!
