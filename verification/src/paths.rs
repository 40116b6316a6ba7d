//! How dotted module names map to file paths below a source root.
//!
//! Paths are plain text with `/` as the separator. Nothing here looks at a
//! disk: these rules only name the files a module could live in.

use crate::text::{append_chars, from_chars, to_chars, views};
use vstd::prelude::*;

verus! {

/// The path separator.
pub open spec fn separator() -> Seq<char> {
    seq!['/']
}

/// Name of the file that makes a directory a package.
pub open spec fn init_file_name() -> Seq<char> {
    seq!['_', '_', 'i', 'n', 'i', 't', '_', '_', '.', 'p', 'y']
}

/// Suffix carried by every source file.
pub open spec fn source_suffix() -> Seq<char> {
    seq!['.', 'p', 'y']
}

/// `rel` taken relative to `base`. An absolute `rel` stands for itself, and
/// no separator is added to an empty `base` or to one that already ends
/// with a separator.
pub open spec fn join_path(base: Seq<char>, rel: Seq<char>) -> Seq<char> {
    if rel.len() > 0 && rel[0] == '/' {
        rel
    } else if base.len() == 0 || base.last() == '/' {
        base + rel
    } else {
        base + separator() + rel
    }
}

/// A dotted module name with every dot turned into a separator.
pub open spec fn module_relative_path(module: Seq<char>) -> Seq<char> {
    module.map_values(|c: char| if c == '.' { '/' } else { c })
}

/// Where `module` lives below `root`, before it is known whether it is a
/// package directory or a single file. The path is `root` joined with the
/// name as written: it is canonical as far as `root` is and no directory on
/// the way is a link.
pub open spec fn module_location(root: Seq<char>, module: Seq<char>) -> Seq<char> {
    join_path(root, module_relative_path(module))
}

/// The initializer file `module` has if it is a package.
pub open spec fn package_init_path(root: Seq<char>, module: Seq<char>) -> Seq<char> {
    join_path(module_location(root, module), init_file_name())
}

/// The source file `module` has if it is a plain module.
pub open spec fn module_file_path(root: Seq<char>, module: Seq<char>) -> Seq<char> {
    module_location(root, module) + source_suffix()
}

/// Initializer files of the packages that enclose `module`, outermost first,
/// counting only the dots among the first `n` characters of the name.
pub open spec fn ancestor_init_paths_within(root: Seq<char>, module: Seq<char>, n: nat) -> Seq<
    Seq<char>,
>
    decreases n,
{
    if n == 0 {
        Seq::empty()
    } else {
        let outer = ancestor_init_paths_within(root, module, (n - 1) as nat);
        if module[n - 1] == '.' {
            outer.push(package_init_path(root, module.subrange(0, n - 1)))
        } else {
            outer
        }
    }
}

/// Initializer files of every package that encloses `module`, outermost
/// first: one for each dot in the name, built from the name up to that dot.
pub open spec fn ancestor_init_paths(root: Seq<char>, module: Seq<char>) -> Seq<Seq<char>> {
    ancestor_init_paths_within(root, module, module.len())
}

/// Whether `path` names a source file: it ends in `.py` after a non-empty stem.
pub open spec fn has_source_extension(path: Seq<char>) -> bool {
    &&& path.len() > 3
    &&& path.subrange(path.len() - 3, path.len() as int) == source_suffix()
    &&& path[path.len() - 4] != '/'
}

/// The paths among `listed` that name source files, in order.
pub open spec fn source_files(listed: Seq<Seq<char>>) -> Seq<Seq<char>>
    decreases listed.len(),
{
    if listed.len() == 0 {
        Seq::empty()
    } else {
        let earlier = source_files(listed.drop_last());
        if has_source_extension(listed.last()) {
            earlier.push(listed.last())
        } else {
            earlier
        }
    }
}

fn init_file_chars() -> (name: Vec<char>)
    ensures
        name@ == init_file_name(),
{
    let name = vec!['_', '_', 'i', 'n', 'i', 't', '_', '_', '.', 'p', 'y'];
    assert(name@ =~= init_file_name());
    name
}

fn join_chars(base: &Vec<char>, rel: &Vec<char>) -> (joined: Vec<char>)
    ensures
        joined@ == join_path(base@, rel@),
{
    if rel.len() > 0 && rel[0] == '/' {
        rel.clone()
    } else {
        let mut joined = base.clone();
        if base.len() > 0 && base[base.len() - 1] != '/' {
            joined.push('/');
        }
        append_chars(&mut joined, rel);
        joined
    }
}

fn relative_chars(module: &Vec<char>) -> (rel: Vec<char>)
    ensures
        rel@ == module_relative_path(module@),
{
    let mut rel: Vec<char> = Vec::new();
    let mut i: usize = 0;
    while i < module.len()
        invariant
            i <= module.len(),
            rel@ == module_relative_path(module@.take(i as int)),
        decreases module.len() - i,
    {
        let c = module[i];
        rel.push(if c == '.' { '/' } else { c });
        i += 1;
        assert(rel@ =~= module_relative_path(module@.take(i as int)));
    }
    assert(module@.take(module.len() as int) =~= module@);
    rel
}

/// Joins `rel` onto `base`.
pub fn join(base: &str, rel: &str) -> (joined: String)
    ensures
        joined@ == join_path(base@, rel@),
{
    from_chars(&join_chars(&to_chars(base), &to_chars(rel)))
}

/// The initializer file to look for when `module` may be a package.
pub fn package_init_candidate(module: &str, source_root: &str) -> (path: String)
    ensures
        path@ == package_init_path(source_root@, module@),
{
    let location = join_chars(&to_chars(source_root), &relative_chars(&to_chars(module)));
    from_chars(&join_chars(&location, &init_file_chars()))
}

/// The source file to look for when `module` may be a plain module.
pub fn module_file_candidate(module: &str, source_root: &str) -> (path: String)
    ensures
        path@ == module_file_path(source_root@, module@),
{
    let mut location = join_chars(&to_chars(source_root), &relative_chars(&to_chars(module)));
    let suffix = vec!['.', 'p', 'y'];
    assert(suffix@ =~= source_suffix());
    append_chars(&mut location, &suffix);
    from_chars(&location)
}

/// The initializer files to look for in the packages enclosing `module`,
/// outermost first.
pub fn package_init_candidates(module: &str, source_root: &str) -> (paths: Vec<String>)
    ensures
        views(paths@) == ancestor_init_paths(source_root@, module@),
{
    let name = to_chars(module);
    let root = to_chars(source_root);
    let init = init_file_chars();
    let mut paths: Vec<String> = Vec::new();
    let mut prefix: Vec<char> = Vec::new();
    let mut i: usize = 0;
    while i < name.len()
        invariant
            i <= name.len(),
            name@ == module@,
            root@ == source_root@,
            init@ == init_file_name(),
            prefix@ == module_relative_path(name@.subrange(0, i as int)),
            views(paths@) == ancestor_init_paths_within(root@, name@, i as nat),
        decreases name.len() - i,
    {
        let c = name[i];
        if c == '.' {
            let location = join_chars(&root, &prefix);
            let path = from_chars(&join_chars(&location, &init));
            let ghost before = paths@;
            paths.push(path);
            assert(views(paths@) =~= views(before).push(path@));
            prefix.push('/');
        } else {
            prefix.push(c);
        }
        i += 1;
        assert(prefix@ =~= module_relative_path(name@.subrange(0, i as int)));
    }
    paths
}

/// Whether `path` names a source file.
pub fn is_source_file(path: &str) -> (yes: bool)
    ensures
        yes == has_source_extension(path@),
{
    let chars = to_chars(path);
    let n = chars.len();
    if n <= 3 {
        return false;
    }
    let yes = chars[n - 3] == '.' && chars[n - 2] == 'p' && chars[n - 1] == 'y' && chars[n - 4]
        != '/';
    assert(path@.subrange(n - 3, n as int) == source_suffix() <==> (path@[n - 3] == '.' && path@[n
        - 2] == 'p' && path@[n - 1] == 'y')) by {
        let tail = path@.subrange(n - 3, n as int);
        assert(tail.len() == 3);
        assert(tail[0] == path@[n - 3] && tail[1] == path@[n - 2] && tail[2] == path@[n - 1]);
        if path@[n - 3] == '.' && path@[n - 2] == 'p' && path@[n - 1] == 'y' {
            assert(tail =~= source_suffix());
        }
    }
    yes
}

/// Keeps the paths that name source files, in order.
pub fn select_source_files(listed: Vec<String>) -> (selected: Vec<String>)
    ensures
        views(selected@) == source_files(views(listed@)),
{
    let mut selected: Vec<String> = Vec::new();
    let mut i: usize = 0;
    assert(views(selected@) =~= Seq::<Seq<char>>::empty());
    assert(views(listed@).take(0) =~= Seq::<Seq<char>>::empty());
    while i < listed.len()
        invariant
            i <= listed.len(),
            views(selected@) == source_files(
                views(listed@).take(i as int),
            ),
        decreases listed.len() - i,
    {
        assert(views(listed@).take(i + 1).drop_last() =~= views(
            listed@,
        ).take(i as int));
        if is_source_file(listed[i].as_str()) {
            let ghost before = views(selected@);
            selected.push(listed[i].clone());
            assert(views(selected@) =~= before.push(listed@[i as int]@));
        }
        i += 1;
    }
    assert(views(listed@).take(listed.len() as int) =~= views(listed@));
    selected
}

} // verus!
