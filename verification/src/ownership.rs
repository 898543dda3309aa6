//! Package ownership of project paths: the deepest package directory above a path owns
//! it, and on a tie (two packages declared for one directory) the earlier package in
//! the name-sorted list keeps it, so ownership never depends on iteration order.

use vstd::prelude::*;

use crate::graph::assemble::{core_dirname, dirname, governs_dir, package_owns};
use rustc_hash::FxHashMap;

use crate::fx::{str_lists, str_lists_get, str_lists_push, str_lists_new};
use crate::graph::DependencyScope;
use crate::text::{str_eq, views};
use crate::vocab::ProjectPath;

verus! {

/// A manifest-declared package: its name, the `/`-separated directory it owns (empty at
/// the project root), and the manifest that anchors it.
#[derive(Debug, Clone)]
pub struct GraphPackage {
    pub name: String,
    pub dir: String,
    pub manifest: ProjectPath,
}

/// The package list ownership is decided over, name-sorted.
#[derive(Debug, Clone)]
pub struct Graph {
    pub packages: Vec<GraphPackage>,
}

/// What ownership reads of one manifest's declarations: the manifest's path, and the
/// package it declares (an index into the package list), if any.
#[derive(Debug, Clone)]
pub struct ManifestDeclarations {
    pub manifest: ProjectPath,
    pub package: Option<u32>,
}

/// A package directory's depth: its length. Every directory above one path is a
/// prefix of it, so counting characters orders them as counting bytes does.
pub open spec fn dir_len(p: GraphPackage) -> nat {
    p.dir@.len()
}

/// Package `i` lies above `path`.
pub open spec fn candidate(g: Graph, path: Seq<char>, i: int) -> bool {
    0 <= i < g.packages@.len() && governs_dir(g.packages@[i].dir@, path)
}

/// `i` owns `path` over `j`: deeper, or as deep and earlier.
pub open spec fn outranks(g: Graph, i: int, j: int) -> bool {
    dir_len(g.packages@[j]) < dir_len(g.packages@[i]) || (dir_len(g.packages@[j]) == dir_len(g.packages@[i])
        && i <= j)
}

impl Graph {
    /// The package owning `path`: the deepest package directory above it, the earlier
    /// package on a tie; `None` outside every package.
    pub fn package_of(&self, path: &str) -> (r: Option<u32>)
        requires
            self.packages@.len() <= 0xffff_ffff,
        ensures
            match r {
                Some(i) => candidate(*self, path@, i as int) && forall|j: int|
                    #[trigger] candidate(*self, path@, j) ==> outranks(*self, i as int, j),
                None => forall|j: int| !#[trigger] candidate(*self, path@, j),
            },
    {
        let mut best: Option<usize> = None;
        let mut i: usize = 0;
        while i < self.packages.len()
            invariant
                self.packages@.len() <= 0xffff_ffff,
                i <= self.packages@.len(),
                match best {
                    Some(b) => b < i && candidate(*self, path@, b as int) && forall|j: int|
                        0 <= j < i && #[trigger] candidate(*self, path@, j) ==> outranks(*self, b as int, j),
                    None => forall|j: int| 0 <= j < i ==> !#[trigger] candidate(*self, path@, j),
                },
            decreases self.packages@.len() - i,
        {
            let p = &self.packages[i];
            if package_owns(p.dir.as_str(), path) {
                match best {
                    None => {
                        best = Some(i);
                    },
                    Some(b) => {
                        if p.dir.as_str().unicode_len() > self.packages[b].dir.as_str().unicode_len() {
                            best = Some(i);
                        }
                    },
                }
            }
            i = i + 1;
        }
        match best {
            Some(b) => Some(b as u32),
            None => None,
        }
    }
}

impl ManifestDeclarations {
    /// Whether this manifest's package owns `path`, whose owning package is
    /// `path_package`: the declared package when there is one, the manifest's own
    /// directory otherwise.
    pub fn owns(&self, path: &str, path_package: Option<u32>) -> (r: bool)
        ensures
            r == match self.package {
                Some(ix) => path_package == Some(ix),
                None => governs_dir(dirname(self.manifest.0@), path@),
            },
    {
        match self.package {
            Some(ix) => match path_package {
                Some(p) => p == ix,
                None => false,
            },
            None => package_owns(core_dirname(self.manifest.0.as_str()), path),
        }
    }
}

/// The first package whose anchoring manifest is `manifest`.
pub open spec fn package_declared_by(g: Graph, manifest: Seq<char>, k: int) -> Option<int>
    decreases k,
{
    if k <= 0 {
        None
    } else {
        match package_declared_by(g, manifest, k - 1) {
            Some(i) => Some(i),
            None => if g.packages@[k - 1].manifest.0@ == manifest {
                Some(k - 1)
            } else {
                None
            },
        }
    }
}

impl Graph {
    /// The package a manifest declares: the first whose anchoring manifest it is.
    pub fn package_declared_by(&self, manifest: &str) -> (r: Option<u32>)
        requires
            self.packages@.len() <= 0x1_0000_0000,
        ensures
            match package_declared_by(*self, manifest@, self.packages@.len() as int) {
                Some(i) => r == Some(i as u32),
                None => r is None,
            },
    {
        let mut i: usize = 0;
        while i < self.packages.len()
            invariant
                i <= self.packages@.len() <= 0x1_0000_0000,
                package_declared_by(*self, manifest@, i as int) is None,
            decreases self.packages@.len() - i,
        {
            if str_eq(self.packages[i].manifest.0.as_str(), manifest) {
                proof {
                    lemma_declared_stays(*self, manifest@, i + 1, self.packages@.len() as int);
                }
                return Some(i as u32);
            }
            i = i + 1;
        }
        None
    }
}

proof fn lemma_declared_stays(g: Graph, manifest: Seq<char>, k: int, m: int)
    requires
        0 <= k <= m,
        package_declared_by(g, manifest, k) is Some,
    ensures
        package_declared_by(g, manifest, m) == package_declared_by(g, manifest, k),
    decreases m - k,
{
    if k < m {
        lemma_declared_stays(g, manifest, k, m - 1);
    }
}

/// The package owning `path` per [`Graph::package_of`]'s rule: the deepest package
/// directory above it, the earlier package on a tie.
pub open spec fn owner_of(g: Graph, path: Seq<char>) -> Option<int> {
    if exists|i: int| #[trigger] candidate(g, path, i) {
        Some(choose|i: int| #[trigger] candidate(g, path, i) && forall|j: int| #[trigger] candidate(g, path, j) ==> outranks(g, i, j))
    } else {
        None
    }
}

proof fn lemma_owner_unique(g: Graph, path: Seq<char>, i: int)
    requires
        candidate(g, path, i),
        forall|j: int| #[trigger] candidate(g, path, j) ==> outranks(g, i, j),
    ensures
        owner_of(g, path) == Some(i),
{
    let c = choose|c: int| #[trigger] candidate(g, path, c) && forall|j: int| #[trigger] candidate(g, path, j) ==> outranks(g, c, j);
    assert(candidate(g, path, c));
    assert(outranks(g, i, c) && outranks(g, c, i));
}

/// Whether manifest `md` owns the file at `path`: its package owns it (see
/// [`owner_of`]), or, declaring none, its directory does.
pub open spec fn manifest_owns(g: Graph, md: ManifestDeclarations, path: Seq<char>) -> bool {
    match md.package {
        Some(ix) => owner_of(g, path) == Some(ix as int),
        None => governs_dir(dirname(md.manifest.0@), path),
    }
}

/// The indices of the first `k` of `paths` that `md` owns, in order.
pub open spec fn owned_upto(g: Graph, md: ManifestDeclarations, paths: Seq<Seq<char>>, k: int) -> Seq<u32>
    decreases k,
{
    if k <= 0 {
        Seq::empty()
    } else if manifest_owns(g, md, paths[k - 1]) {
        owned_upto(g, md, paths, k - 1).push((k - 1) as u32)
    } else {
        owned_upto(g, md, paths, k - 1)
    }
}

impl ManifestDeclarations {
    /// The files this manifest's package owns, as indices into `paths` (the graph's
    /// files, in order): one rule for the claimed files judged against a declaration
    /// and the unclaimed ones that cast doubt on the judgment.
    pub fn owned_files(&self, graph: &Graph, paths: &[String]) -> (r: Vec<u32>)
        requires
            graph.packages@.len() <= 0xffff_ffff,
            paths@.len() <= 0x1_0000_0000,
        ensures
            r@ == owned_upto(*graph, *self, views(paths@), paths@.len() as int),
    {
        let mut owned: Vec<u32> = Vec::new();
        let mut i: usize = 0;
        while i < paths.len()
            invariant
                graph.packages@.len() <= 0xffff_ffff,
                i <= paths@.len() <= 0x1_0000_0000,
                owned@ == owned_upto(*graph, *self, views(paths@), i as int),
            decreases paths@.len() - i,
        {
            let path = paths[i].as_str();
            let package = graph.package_of(path);
            proof {
                assert(views(paths@)[i as int] == path@);
                match package {
                    Some(p) => lemma_owner_unique(*graph, path@, p as int),
                    None => {},
                }
            }
            if self.owns(path, package) {
                owned.push(i as u32);
            }
            i = i + 1;
        }
        owned
    }
}

/// Whether a declaration of `scope` is a usage claim the engine judges: only where the
/// adapter derives package identity, and only for a production scope, or an unscoped
/// declaration under an ecosystem whose declarations are unscoped.
pub open spec fn claims_use(judgeable: bool, unscoped: bool, scope: Option<DependencyScope>) -> bool {
    judgeable && match scope {
        Some(DependencyScope::Prod) => true,
        None => unscoped,
        _ => false,
    }
}

/// Per declaration, whether it is a usage claim the engine judges.
pub fn judged_declarations(judgeable: bool, unscoped: bool, scopes: &[Option<DependencyScope>]) -> (r: Vec<bool>)
    ensures
        r@.len() == scopes@.len(),
        forall|k: int| 0 <= k < r@.len() ==> #[trigger] r@[k] == claims_use(judgeable, unscoped, scopes@[k]),
{
    let mut out: Vec<bool> = Vec::new();
    let mut k: usize = 0;
    while k < scopes.len()
        invariant
            k <= scopes@.len(),
            out@.len() == k,
            forall|j: int| 0 <= j < k ==> #[trigger] out@[j] == claims_use(judgeable, unscoped, scopes@[j]),
        decreases scopes@.len() - k,
    {
        let claims = judgeable && match scopes[k] {
            Some(DependencyScope::Prod) => true,
            None => unscoped,
            _ => false,
        };
        out.push(claims);
        k = k + 1;
    }
    out
}

/// A character's ASCII lower case: `A`..`Z` become `a`..`z`, every other character
/// stands.
pub open spec fn ascii_lower(c: char) -> char {
    if 'A' <= c && c <= 'Z' {
        ((c as u32) + 32) as char
    } else {
        c
    }
}

/// `str::to_ascii_lowercase`: each character mapped to its ASCII lower case.
#[verifier::external_body]
fn to_ascii_lowercase(s: &str) -> (r: String)
    ensures
        r@ == s@.map_values(|c: char| ascii_lower(c)),
{
    s.to_ascii_lowercase()
}

/// The last position of `c` in `s`.
pub open spec fn last_index_of(s: Seq<char>, c: char) -> Option<int>
    decreases s.len(),
{
    if s.len() == 0 {
        None
    } else if s.last() == c {
        Some(s.len() - 1)
    } else {
        last_index_of(s.drop_last(), c)
    }
}

proof fn lemma_last_index_of(s: Seq<char>, c: char)
    ensures
        last_index_of(s, c) matches Some(i) ==> 0 <= i < s.len() && s[i] == c,
    decreases s.len(),
{
    if s.len() > 0 && s.last() != c {
        lemma_last_index_of(s.drop_last(), c);
    }
}

/// A path's file-name suffix, lower-cased: what follows the last `.` of the part after
/// the last `/`; none when the file name holds no `.`.
pub open spec fn file_suffix(path: Seq<char>) -> Option<Seq<char>> {
    let name = match last_index_of(path, '/') {
        Some(i) => path.skip(i + 1),
        None => path,
    };
    match last_index_of(name, '.') {
        Some(d) => Some(name.skip(d + 1).map_values(|c: char| ascii_lower(c))),
        None => None,
    }
}

fn last_position(s: &str, c: char) -> (r: Option<usize>)
    ensures
        match last_index_of(s@, c) {
            Some(i) => r == Some(i as usize),
            None => r is None,
        },
{
    let n = s.unicode_len();
    let mut i: usize = n;
    proof {
        assert(s@.take(n as int) =~= s@);
    }
    while i > 0
        invariant
            n == s@.len(),
            i <= n,
            last_index_of(s@, c) == last_index_of(s@.take(i as int), c),
        decreases i,
    {
        proof {
            assert(s@.take(i as int).drop_last() =~= s@.take(i - 1));
        }
        if s.get_char(i - 1) == c {
            return Some(i - 1);
        }
        i = i - 1;
    }
    None
}

/// The suffix a file's imports are indexed under, for the manifests that read imports
/// written in files another extension claims.
pub fn import_suffix(path: &str) -> (r: Option<String>)
    ensures
        match file_suffix(path@) {
            Some(x) => r matches Some(t) && t@ == x,
            None => r is None,
        },
{
    let n = path.unicode_len();
    let name = match last_position(path, '/') {
        Some(i) => {
            proof {
                lemma_last_index_of(path@, '/');
            }
            path.substring_char(i + 1, n)
        },
        None => path,
    };
    proof {
        assert(name@ =~= match last_index_of(path@, '/') {
            Some(i) => path@.skip(i + 1),
            None => path@,
        });
    }
    let m = name.unicode_len();
    match last_position(name, '.') {
        Some(d) => {
            proof {
                lemma_last_index_of(name@, '.');
            }
            let ext = name.substring_char(d + 1, m);
            proof {
                assert(ext@ =~= name@.skip(d + 1));
            }
            Some(to_ascii_lowercase(ext))
        },
        None => None,
    }
}

/// One file's package imports, as the dependency judgement indexes them: the adapter
/// that claims the file, its import suffix, and every package specifier it imports.
#[derive(Debug, Clone)]
pub struct FileImports {
    pub adapter: String,
    pub suffix: Option<String>,
    pub packages: Vec<String>,
}

/// Whether file `f` is indexed under `key`: by its adapter, or by its suffix.
pub open spec fn indexed_under(f: FileImports, key: Seq<char>, by_suffix: bool) -> bool {
    if by_suffix {
        f.suffix matches Some(x) && x@ == key
    } else {
        f.adapter@ == key
    }
}

/// File `i` recorded as an importer of `spec`, unless it is the last one recorded.
pub open spec fn add_importer(m: Map<Seq<char>, Seq<u32>>, spec: Seq<char>, i: u32) -> Map<Seq<char>, Seq<u32>> {
    let held = if m.contains_key(spec) {
        m[spec]
    } else {
        Seq::empty()
    };
    if held.len() > 0 && held.last() == i {
        m
    } else {
        m.insert(spec, held.push(i))
    }
}

/// The first `k` specifiers of file `i` recorded.
pub open spec fn file_importers(m: Map<Seq<char>, Seq<u32>>, specs: Seq<String>, i: u32, k: int) -> Map<
    Seq<char>,
    Seq<u32>,
>
    decreases k,
{
    if k <= 0 {
        m
    } else {
        add_importer(file_importers(m, specs, i, k - 1), specs[k - 1]@, i)
    }
}

/// The importer table under `key` after the first `n` files: each package specifier
/// to the files indexed under `key` that import it, ascending, each once.
pub open spec fn importers_upto(files: Seq<FileImports>, key: Seq<char>, by_suffix: bool, n: int) -> Map<
    Seq<char>,
    Seq<u32>,
>
    decreases n,
{
    if n <= 0 {
        Map::empty()
    } else {
        let before = importers_upto(files, key, by_suffix, n - 1);
        if indexed_under(files[n - 1], key, by_suffix) {
            file_importers(before, files[n - 1].packages@, (n - 1) as u32, files[n - 1].packages@.len() as int)
        } else {
            before
        }
    }
}

/// Records file `i` under `spec`, unless it was the last importer recorded there.
fn record_importer(m: &mut FxHashMap<String, Vec<u32>>, spec: &str, i: u32)
    ensures
        str_lists(*final(m)) == add_importer(str_lists(*old(m)), spec@, i),
{
    let last = match str_lists_get(m, spec) {
        Some(list) => if list.len() > 0 {
            Some(list[list.len() - 1])
        } else {
            None
        },
        None => None,
    };
    if last != Some(i) {
        str_lists_push(m, spec, i);
    }
}

/// The importer table of every file indexed under `key` (an adapter, or with
/// `by_suffix` a file suffix): each package specifier to the files that import it,
/// ascending, each once.
pub fn importer_table(files: &[FileImports], key: &str, by_suffix: bool) -> (r: FxHashMap<String, Vec<u32>>)
    requires
        files@.len() <= u32::MAX,
    ensures
        str_lists(r) == importers_upto(files@, key@, by_suffix, files@.len() as int),
{
    let mut table = str_lists_new();
    proof {
        assert(str_lists(table) =~= Map::<Seq<char>, Seq<u32>>::empty());
    }
    let mut i: usize = 0;
    while i < files.len()
        invariant
            i <= files@.len() <= u32::MAX,
            str_lists(table) == importers_upto(files@, key@, by_suffix, i as int),
        decreases files@.len() - i,
    {
        let f = &files[i];
        let indexed = if by_suffix {
            match &f.suffix {
                Some(x) => str_eq(x.as_str(), key),
                None => false,
            }
        } else {
            str_eq(f.adapter.as_str(), key)
        };
        if indexed {
            let ghost start = str_lists(table);
            let mut k: usize = 0;
            while k < f.packages.len()
                invariant
                    k <= f.packages@.len(),
                    i < files@.len() <= u32::MAX,
                    *f == files@[i as int],
                    str_lists(table) == file_importers(start, f.packages@, i as u32, k as int),
                decreases f.packages@.len() - k,
            {
                record_importer(&mut table, f.packages[k].as_str(), i as u32);
                k = k + 1;
            }
        }
        i = i + 1;
    }
    table
}

} // verus!
