//! Pure pieces of assembly: visibility scopes, the executable and manifest-target
//! indexes, directory ownership, package-relative test roles, and member-type
//! projections.

use vstd::prelude::*;

use rustc_hash::FxHashMap;

use crate::fx::{str_ids, str_ids_get, str_ids_insert_if_absent, str_ids_new};
use crate::graph::{FileNode, PackageNode};
use crate::text::{first_index, lemma_first_index, owned, parse_unsigned, parse_unsigned_str, str_eq, views};
use crate::vocab::{ExecutableTarget, FileClass, FileRole, ProjectPath, VisibilityScope};

verus! {

/// Whether a declaration in file `d` at `scope` is visible from file `s`. Scopes nest
/// (`File ⊂ Unit ⊂ Package ⊂ Public`): each accepts what a narrower one would.
pub open spec fn scope_contains(
    scope: VisibilityScope,
    d: int,
    s: int,
    units: Seq<Option<String>>,
    files: Seq<FileNode>,
) -> bool {
    match scope {
        VisibilityScope::File => d == s,
        VisibilityScope::Unit => d == s || match (units[d], units[s]) {
            (Some(a), Some(b)) => a@ == b@,
            _ => false,
        },
        VisibilityScope::Package => files[d].package == files[s].package,
        VisibilityScope::Public => true,
    }
}

pub fn scope_contains_site(
    scope: VisibilityScope,
    decl_file: usize,
    site_file: usize,
    file_unit: &[Option<String>],
    files: &[FileNode],
) -> (r: bool)
    requires
        scope is Unit && decl_file != site_file ==> decl_file < file_unit@.len() && site_file
            < file_unit@.len(),
        scope is Package ==> decl_file < files@.len() && site_file < files@.len(),
    ensures
        r == scope_contains(scope, decl_file as int, site_file as int, file_unit@, files@),
{
    match scope {
        VisibilityScope::File => decl_file == site_file,
        VisibilityScope::Unit => {
            if decl_file == site_file {
                return true;
            }
            match (&file_unit[decl_file], &file_unit[site_file]) {
                (Some(a), Some(b)) => str_eq(a.as_str(), b.as_str()),
                _ => false,
            }
        },
        VisibilityScope::Package => files[decl_file].package == files[site_file].package,
        VisibilityScope::Public => true,
    }
}

/// The executables of the first `i` packages, in order.
pub open spec fn exes_upto(packages: Seq<PackageNode>, i: int) -> Seq<ExecutableTarget>
    decreases i,
{
    if i <= 0 {
        Seq::empty()
    } else {
        exes_upto(packages, i - 1) + packages[i - 1].executables@
    }
}

/// The entry file of the first executable named `name` whose entry is a known file.
pub open spec fn first_entry(exes: Seq<ExecutableTarget>, paths: Map<Seq<char>, u32>, name: Seq<char>) -> Option<u32>
    decreases exes.len(),
{
    if exes.len() == 0 {
        None
    } else {
        match first_entry(exes.drop_last(), paths, name) {
            Some(f) => Some(f),
            None => if exes.last().name@ == name && paths.contains_key(exes.last().entry.0@) {
                Some(paths[exes.last().entry.0@])
            } else {
                None
            },
        }
    }
}

/// The executable-name table over a run of executables.
pub open spec fn exe_table(exes: Seq<ExecutableTarget>, paths: Map<Seq<char>, u32>) -> Map<Seq<char>, u32> {
    Map::new(
        |n: Seq<char>| first_entry(exes, paths, n) is Some,
        |n: Seq<char>| first_entry(exes, paths, n)->0,
    )
}

/// Every package's named executables as one name-to-entry-file index. The first
/// declaration wins on a duplicate name; an entry naming a file outside the index
/// drops out.
pub fn executable_name_index(packages: &[PackageNode], file_index: &FxHashMap<String, u32>) -> (r: FxHashMap<String, u32>)
    ensures
        str_ids(r) == exe_table(exes_upto(packages@, packages@.len() as int), str_ids(*file_index)),
{
    let ghost paths = str_ids(*file_index);
    let mut index = str_ids_new();
    let mut i: usize = 0;
    proof {
        assert(str_ids(index) =~= exe_table(exes_upto(packages@, 0), paths));
    }
    while i < packages.len()
        invariant
            paths == str_ids(*file_index),
            i <= packages@.len(),
            str_ids(index) == exe_table(exes_upto(packages@, i as int), paths),
        decreases packages@.len() - i,
    {
        let exes = &packages[i].executables;
        let ghost base = exes_upto(packages@, i as int);
        let mut k: usize = 0;
        proof {
            assert(base + exes@.take(0) =~= base);
        }
        while k < exes.len()
            invariant
                paths == str_ids(*file_index),
                i < packages@.len(),
                *exes == packages@[i as int].executables,
                base == exes_upto(packages@, i as int),
                k <= exes@.len(),
                str_ids(index) == exe_table(base + exes@.take(k as int), paths),
            decreases exes@.len() - k,
        {
            let exe = &exes[k];
            let ghost seq = base + exes@.take(k as int);
            let ghost next = base + exes@.take(k + 1);
            proof {
                assert(next =~= seq.push(*exe));
                assert(next.drop_last() =~= seq);
            }
            match str_ids_get(file_index, exe.entry.0.as_str()) {
                Some(file) => {
                    str_ids_insert_if_absent(&mut index, exe.name.as_str(), file);
                },
                None => {},
            }
            proof {
                assert(str_ids(index) =~= exe_table(next, paths));
            }
            k = k + 1;
        }
        proof {
            assert(exes@.take(exes@.len() as int) =~= exes@);
        }
        i = i + 1;
    }
    index
}

/// The position of the last `/` in `s`.
pub open spec fn last_slash(s: Seq<char>) -> Option<int>
    decreases s.len(),
{
    if s.len() == 0 {
        None
    } else if s.last() == '/' {
        Some(s.len() - 1)
    } else {
        last_slash(s.drop_last())
    }
}

/// The directory part of a project-relative path: everything before its last `/`,
/// or the empty string for a root-level path.
pub open spec fn dirname(s: Seq<char>) -> Seq<char> {
    match last_slash(s) {
        Some(i) => s.take(i),
        None => Seq::empty(),
    }
}

proof fn lemma_last_slash_bound(s: Seq<char>)
    ensures
        last_slash(s) matches Some(i) ==> 0 <= i < s.len() && s[i] == '/',
    decreases s.len(),
{
    if s.len() > 0 && s.last() != '/' {
        lemma_last_slash_bound(s.drop_last());
    }
}

/// The directory part of a project-relative path (`""` for root-level files).
pub fn core_dirname(path: &str) -> (r: &str)
    ensures
        r@ == dirname(path@),
{
    let n = path.unicode_len();
    let mut i: usize = n;
    proof {
        assert(path@.take(n as int) =~= path@);
    }
    while i > 0 && path.get_char(i - 1) != '/'
        invariant
            n == path@.len(),
            i <= n,
            last_slash(path@) == last_slash(path@.take(i as int)),
        decreases i,
    {
        proof {
            assert(path@.take(i as int).drop_last() =~= path@.take(i - 1));
        }
        i = i - 1;
    }
    if i == 0 {
        proof {
            assert(path@.take(0).len() == 0);
        }
        return path.substring_char(0, 0);
    }
    proof {
        assert(path@.take(i as int).last() == path@[i - 1]);
    }
    path.substring_char(0, i - 1)
}

/// Whether `ancestor` governs `dir` (contains it at any depth, or equals it); the
/// empty, project-root directory governs everything.
pub open spec fn governs_dir(ancestor: Seq<char>, dir: Seq<char>) -> bool {
    ancestor.len() == 0 || dir == ancestor || (dir.len() > ancestor.len() && dir.take(ancestor.len() as int)
        == ancestor && dir[ancestor.len() as int] == '/')
}

/// `s` begins with `prefix` followed by a `/`.
fn under_prefix(s: &str, prefix: &str) -> (r: bool)
    ensures
        r == (s@.len() > prefix@.len() && s@.take(prefix@.len() as int) == prefix@ && s@[prefix@.len() as int]
            == '/'),
{
    let n = s.unicode_len();
    let m = prefix.unicode_len();
    if n <= m {
        return false;
    }
    let head = s.substring_char(0, m);
    str_eq(head, prefix) && s.get_char(m) == '/'
}

/// Does `manifest_dir` govern (contain, at any depth, or equal) `file_dir`?
pub fn package_owns(manifest_dir: &str, file_dir: &str) -> (r: bool)
    ensures
        r == governs_dir(manifest_dir@, file_dir@),
{
    manifest_dir.unicode_len() == 0 || str_eq(file_dir, manifest_dir) || under_prefix(file_dir, manifest_dir)
}

/// The first occurrence of each path, in order.
pub open spec fn dedup_paths(s: Seq<Seq<char>>) -> Seq<Seq<char>>
    decreases s.len(),
{
    if s.len() == 0 {
        Seq::empty()
    } else if dedup_paths(s.drop_last()).contains(s.last()) {
        dedup_paths(s.drop_last())
    } else {
        dedup_paths(s.drop_last()).push(s.last())
    }
}

/// The paths as plain values.
pub open spec fn path_views(s: Seq<ProjectPath>) -> Seq<Seq<char>> {
    s.map_values(|p: ProjectPath| p.0@)
}

fn contains_path(list: &Vec<ProjectPath>, p: &str) -> (r: bool)
    ensures
        r == path_views(list@).contains(p@),
{
    let mut i: usize = 0;
    while i < list.len()
        invariant
            i <= list@.len(),
            forall|k: int| 0 <= k < i ==> list@[k].0@ != p@,
        decreases list@.len() - i,
    {
        if str_eq(list[i].0.as_str(), p) {
            proof {
                assert(path_views(list@)[i as int] == p@);
            }
            return true;
        }
        i = i + 1;
    }
    proof {
        if path_views(list@).contains(p@) {
            let k = choose|k: int| 0 <= k < path_views(list@).len() && path_views(list@)[k] == p@;
            assert(list@[k].0@ == p@);
        }
    }
    false
}

fn push_new_paths(targets: &mut Vec<ProjectPath>, paths: &[ProjectPath], Ghost(prior): Ghost<Seq<Seq<char>>>)
    requires
        path_views(old(targets)@) == dedup_paths(prior),
    ensures
        path_views(final(targets)@) == dedup_paths(prior + path_views(paths@)),
{
    let mut i: usize = 0;
    proof {
        assert(prior + path_views(paths@).take(0) =~= prior);
    }
    while i < paths.len()
        invariant
            i <= paths@.len(),
            path_views(targets@) == dedup_paths(prior + path_views(paths@).take(i as int)),
        decreases paths@.len() - i,
    {
        let ghost before = targets@;
        let ghost seq = prior + path_views(paths@).take(i as int);
        let ghost next = prior + path_views(paths@).take(i + 1);
        proof {
            assert(next =~= seq.push(paths@[i as int].0@));
            assert(next.drop_last() =~= seq);
        }
        let p = paths[i].0.as_str();
        if !contains_path(targets, p) {
            targets.push(ProjectPath(owned(p)));
            proof {
                assert(path_views(targets@) =~= path_views(before).push(p@));
            }
        }
        i = i + 1;
    }
    proof {
        assert(path_views(paths@).take(paths@.len() as int) =~= path_views(paths@));
    }
}

/// A manifest's resolved target files: its root targets then its import entries,
/// each path once, in declaration order.
pub fn manifest_targets(roots: &[ProjectPath], entries: &[ProjectPath]) -> (r: Vec<ProjectPath>)
    ensures
        path_views(r@) == dedup_paths(path_views(roots@) + path_views(entries@)),
{
    let mut targets: Vec<ProjectPath> = Vec::new();
    proof {
        assert(path_views(targets@) =~= dedup_paths(Seq::empty()));
        assert(Seq::<Seq<char>>::empty() + path_views(roots@) =~= path_views(roots@));
    }
    push_new_paths(&mut targets, roots, Ghost(Seq::empty()));
    push_new_paths(&mut targets, entries, Ghost(path_views(roots@)));
    targets
}

/// The directory a package's manifest anchors: its manifest's directory, or the
/// project root for the implicit, manifest-less package.
pub open spec fn manifest_dir(p: PackageNode) -> Seq<char> {
    match p.manifest {
        Some(m) => dirname(m.0@),
        None => Seq::empty(),
    }
}

/// A path relative to a directory: the text after `dir/`, or the path itself for the
/// root; `None` when the path is not under `dir`.
pub open spec fn relative_to(path: Seq<char>, dir: Seq<char>) -> Option<Seq<char>> {
    if dir.len() == 0 {
        Some(path)
    } else if path.len() > dir.len() && path.take(dir.len() as int) == dir && path[dir.len() as int] == '/' {
        Some(path.skip(dir.len() as int + 1))
    } else {
        None
    }
}

/// The first directory segment of a relative path; none for a bare file name.
pub open spec fn first_dir(rel: Seq<char>) -> Option<Seq<char>> {
    match first_index(rel, '/') {
        Some(k) => Some(rel.take(k)),
        None => None,
    }
}

/// A production file is re-roled as test when, relative to its package's manifest
/// directory, its first directory segment is one of its claiming adapter's package
/// test directories.
pub open spec fn promotes(f: FileNode, packages: Seq<PackageNode>, dirs: Option<Vec<String>>) -> bool {
    match (dirs, f.class) {
        (Some(d), Some(c)) => d@.len() > 0 && c.role == FileRole::Production && match relative_to(
            f.path.0@,
            manifest_dir(packages[f.package.0 as int]),
        ) {
            Some(rel) => match first_dir(rel) {
                Some(fd) => exists|k: int| 0 <= k < d@.len() && (#[trigger] d@[k])@ == fd,
                None => false,
            },
            None => false,
        },
        _ => false,
    }
}

/// A file re-roled as test, everything else kept.
pub open spec fn as_test(f: FileNode) -> FileNode {
    FileNode { class: Some(FileClass { role: FileRole::Test, origin: f.class->0.origin }), ..f }
}

/// The text after `dir/` (or the whole path for the root), when the path is there.
fn relative_path<'a>(path: &'a str, dir: &str) -> (r: Option<&'a str>)
    ensures
        match relative_to(path@, dir@) {
            Some(rel) => r is Some && r->0@ == rel,
            None => r is None,
        },
{
    if dir.unicode_len() == 0 {
        return Some(path);
    }
    if under_prefix(path, dir) {
        let m = dir.unicode_len();
        let n = path.unicode_len();
        proof {
            assert(path@.subrange(m + 1, n as int) =~= path@.skip(m + 1));
        }
        Some(path.substring_char(m + 1, n))
    } else {
        None
    }
}

/// The first directory segment of a relative path.
fn first_segment<'a>(rel: &'a str) -> (r: Option<&'a str>)
    ensures
        match first_dir(rel@) {
            Some(fd) => r is Some && r->0@ == fd,
            None => r is None,
        },
{
    let n = rel.unicode_len();
    let mut k: usize = 0;
    while k < n && rel.get_char(k) != '/'
        invariant
            n == rel@.len(),
            k <= n,
            forall|j: int| 0 <= j < k ==> #[trigger] rel@[j] != '/',
        decreases n - k,
    {
        k = k + 1;
    }
    proof {
        lemma_first_index(rel@, '/');
    }
    if k < n {
        proof {
            let f = first_index(rel@, '/');
            assert(f == Some(k as int)) by {
                let w = f->0;
                if w < k {
                    assert(rel@[w] != '/');
                }
                if w > k {
                    assert(rel@[k as int] == '/');
                }
            }
        }
        Some(rel.substring_char(0, k))
    } else {
        None
    }
}

fn names_dir(dirs: &Vec<String>, segment: &str) -> (r: bool)
    ensures
        r == exists|k: int| 0 <= k < dirs@.len() && (#[trigger] dirs@[k])@ == segment@,
{
    let mut k: usize = 0;
    while k < dirs.len()
        invariant
            k <= dirs@.len(),
            forall|j: int| 0 <= j < k ==> (#[trigger] dirs@[j])@ != segment@,
        decreases dirs@.len() - k,
    {
        if str_eq(dirs[k].as_str(), segment) {
            return true;
        }
        k = k + 1;
    }
    false
}

fn should_promote(f: &FileNode, packages: &[PackageNode], dirs: &Option<Vec<String>>) -> (r: bool)
    requires
        match (*dirs, f.class) {
            (Some(d), Some(c)) => d@.len() > 0 && c.role == FileRole::Production ==> (f.package.0 as int)
                < packages@.len(),
            _ => true,
        },
    ensures
        r == promotes(*f, packages@, *dirs),
{
    let d = match dirs {
        Some(d) => d,
        None => return false,
    };
    if d.len() == 0 {
        return false;
    }
    let c = match &f.class {
        Some(c) => c,
        None => return false,
    };
    if c.role != FileRole::Production {
        return false;
    }
    let package = &packages[f.package.0 as usize];
    let dir = match &package.manifest {
        Some(m) => core_dirname(m.0.as_str()),
        None => "",
    };
    proof {
        if package.manifest is None {
            reveal_strlit("");
            assert(dir@ =~= manifest_dir(*package));
        }
    }
    let rel = match relative_path(f.path.0.as_str(), dir) {
        Some(rel) => rel,
        None => return false,
    };
    match first_segment(rel) {
        Some(segment) => names_dir(d, segment),
        None => false,
    }
}

/// Re-roles production files as test when their path, relative to their package's
/// manifest directory, starts with one of the claiming adapter's package test
/// directories (`test_dirs[i]` for file `i`). Promotion only: test and tooling roles,
/// and unclassified files, stay as they are.
pub fn promote_package_relative_test_roles(
    files: &mut Vec<FileNode>,
    packages: &[PackageNode],
    test_dirs: &[Option<Vec<String>>],
)
    requires
        test_dirs@.len() == old(files)@.len(),
        forall|i: int|
            0 <= i < old(files)@.len() ==> match (test_dirs@[i], (#[trigger] old(files)@[i]).class) {
                (Some(d), Some(c)) => d@.len() > 0 && c.role == FileRole::Production ==> (
                old(files)@[i].package.0 as int) < packages@.len(),
                _ => true,
            },
    ensures
        final(files)@.len() == old(files)@.len(),
        forall|i: int|
            0 <= i < old(files)@.len() ==> #[trigger] final(files)@[i] == if promotes(
                old(files)@[i],
                packages@,
                test_dirs@[i],
            ) {
                as_test(old(files)@[i])
            } else {
                old(files)@[i]
            },
{
    let ghost input = files@;
    let mut taken: Vec<FileNode> = Vec::new();
    std::mem::swap(&mut taken, files);
    let mut rest = crate::seqs::reversed(taken);
    while rest.len() > 0
        invariant
            test_dirs@.len() == input.len(),
            forall|i: int|
                0 <= i < input.len() ==> match (test_dirs@[i], (#[trigger] input[i]).class) {
                    (Some(d), Some(c)) => d@.len() > 0 && c.role == FileRole::Production ==> (
                    input[i].package.0 as int) < packages@.len(),
                    _ => true,
                },
            rest@.len() <= input.len(),
            forall|k: int| 0 <= k < rest@.len() ==> rest@[k] == input[input.len() - 1 - k],
            files@.len() == input.len() - rest@.len(),
            forall|i: int|
                0 <= i < files@.len() ==> #[trigger] files@[i] == if promotes(input[i], packages@, test_dirs@[i]) {
                    as_test(input[i])
                } else {
                    input[i]
                },
        decreases rest@.len(),
    {
        let i = files.len();
        let mut node = rest.pop().unwrap();
        proof {
            assert(node == input[i as int]);
        }
        if should_promote(&node, packages, &test_dirs[i]) {
            let origin = match &node.class {
                Some(c) => c.origin,
                None => crate::vocab::FileOrigin::Authored,
            };
            node.class = Some(FileClass { role: FileRole::Test, origin });
        }
        files.push(node);
    }
}

/// A segment's projection marker: `member` has none, `member?` is parameter 0,
/// `member?N` parameter `N`; an unparsable marker leaves the segment whole.
pub open spec fn projection_spec(index: Seq<char>) -> Option<int> {
    if index.len() == 0 {
        Some(0)
    } else {
        parse_unsigned(index, usize::MAX as int)
    }
}

/// The marker's parameter index: bare `?` is shorthand for `?0`.
pub fn projection_index(index: &str) -> (r: Option<usize>)
    ensures
        match projection_spec(index@) {
            Some(n) => r is Some && r->0 as int == n,
            None => r is None,
        },
{
    if index.unicode_len() == 0 {
        return Some(0);
    }
    match parse_unsigned_str(index, usize::MAX as u64) {
        Some(n) => {
            proof {
                crate::text::lemma_parse_unsigned_range(index@, usize::MAX as int);
            }
            Some(n as usize)
        },
        None => None,
    }
}

/// A segment split at its first `?` into member and projection, when the marker
/// parses; the whole segment with no projection otherwise.
pub open spec fn split_projection_spec(segment: Seq<char>) -> (Seq<char>, Option<int>) {
    match first_index(segment, '?') {
        None => (segment, None),
        Some(k) => match projection_spec(segment.skip(k + 1)) {
            Some(n) => (segment.take(k), Some(n)),
            None => (segment, None),
        },
    }
}

pub fn split_projection(segment: &str) -> (r: (&str, Option<usize>))
    ensures
        r.0@ == split_projection_spec(segment@).0,
        match split_projection_spec(segment@).1 {
            Some(n) => r.1 is Some && r.1->0 as int == n,
            None => r.1 is None,
        },
{
    let n = segment.unicode_len();
    let mut k: usize = 0;
    while k < n && segment.get_char(k) != '?'
        invariant
            n == segment@.len(),
            k <= n,
            forall|j: int| 0 <= j < k ==> #[trigger] segment@[j] != '?',
        decreases n - k,
    {
        k = k + 1;
    }
    proof {
        lemma_first_index(segment@, '?');
    }
    if k == n {
        return (segment, None);
    }
    proof {
        let f = first_index(segment@, '?');
        assert(f == Some(k as int)) by {
            let w = f->0;
            if w < k {
                assert(segment@[w] != '?');
            }
            if w > k {
                assert(segment@[k as int] == '?');
            }
        }
        assert(segment@.subrange(k + 1, n as int) =~= segment@.skip(k + 1));
    }
    let index = segment.substring_char(k + 1, n);
    match projection_index(index) {
        Some(p) => (segment.substring_char(0, k), Some(p)),
        None => (segment, None),
    }
}

/// The type a hop lands on: the projected type parameter under a `?N` marker, the
/// yielded type itself otherwise.
pub fn hop_type_name(fact: &(String, Vec<String>), projection: Option<usize>) -> (r: Option<&String>)
    ensures
        match projection {
            Some(n) => if n < fact.1@.len() {
                r is Some && *r->0 == fact.1@[n as int]
            } else {
                r is None
            },
            None => r is Some && *r->0 == fact.0,
        },
{
    match projection {
        Some(n) => {
            if n < fact.1.len() {
                Some(&fact.1[n])
            } else {
                None
            }
        },
        None => Some(&fact.0),
    }
}

} // verus!
