//! Pieces of assembling the top-level graph: a file's content hash in hex, the
//! discovered paths in order, and the declared packages — name-sorted, one per
//! `(name, directory)` (the first declaration wins), each anchored to the declaring
//! manifest in its own directory when one exists.

use vstd::prelude::*;

use crate::graph::assemble::{core_dirname, dirname};
use crate::graph::key::{ascending_by, sort_by_view, total_order};
use crate::ownership::GraphPackage;
use crate::text::{
    compare_str, lemma_lex_antisymmetric, lemma_lex_reflexive, lemma_lex_total, lemma_lex_transitive, owned,
    seq_lex_le, seq_lex_lt, str_eq, Comparison,
};
use crate::extract::ClaimedFile;
use crate::graph::key::DiscoveredFile;
use crate::vocab::ProjectPath;

verus! {

/// The character of a hexadecimal digit, lower case.
pub open spec fn hex_digit(d: int) -> char {
    if d < 10 {
        (('0' as u32) + d) as char
    } else {
        (('a' as u32) + d - 10) as char
    }
}

/// Bytes in hexadecimal, two lower-case digits each.
pub open spec fn hex_text(bytes: Seq<u8>) -> Seq<char>
    decreases bytes.len(),
{
    if bytes.len() == 0 {
        Seq::empty()
    } else {
        hex_text(bytes.drop_last()) + seq![hex_digit((bytes.last() / 16) as int), hex_digit((bytes.last() % 16) as int)]
    }
}

fn hex_str(d: u8) -> (r: &'static str)
    requires
        d < 16,
    ensures
        r@ == seq![hex_digit(d as int)],
{
    proof {
        reveal_strlit("0");
        reveal_strlit("1");
        reveal_strlit("2");
        reveal_strlit("3");
        reveal_strlit("4");
        reveal_strlit("5");
        reveal_strlit("6");
        reveal_strlit("7");
        reveal_strlit("8");
        reveal_strlit("9");
        reveal_strlit("a");
        reveal_strlit("b");
        reveal_strlit("c");
        reveal_strlit("d");
        reveal_strlit("e");
        reveal_strlit("f");
    }
    match d {
        0 => "0",
        1 => "1",
        2 => "2",
        3 => "3",
        4 => "4",
        5 => "5",
        6 => "6",
        7 => "7",
        8 => "8",
        9 => "9",
        10 => "a",
        11 => "b",
        12 => "c",
        13 => "d",
        14 => "e",
        _ => "f",
    }
}

/// A content hash in hexadecimal, as a graph file records it.
pub fn hash_hex(hash: &[u8; 32]) -> (r: String)
    ensures
        r@ == hex_text(hash@),
{
    let mut out = String::new();
    let mut i: usize = 0;
    proof {
        assert(hash@.take(0) =~= Seq::<u8>::empty());
    }
    while i < 32
        invariant
            i <= 32,
            hash@.len() == 32,
            out@ == hex_text(hash@.take(i as int)),
        decreases 32 - i,
    {
        let b = hash[i];
        out.append(hex_str(b / 16));
        out.append(hex_str(b % 16));
        proof {
            assert(hash@.take(i + 1).drop_last() =~= hash@.take(i as int));
            assert(hash@.take(i + 1).last() == b);
        }
        i = i + 1;
    }
    proof {
        assert(hash@.take(32) =~= hash@);
    }
    out
}

/// A path's characters, as paths are ordered.
pub open spec fn path_view(p: String) -> Seq<char> {
    p@
}

/// `path_view`, as a value.
pub open spec fn path_view_fn() -> spec_fn(String) -> Seq<char> {
    |p: String| path_view(p)
}

/// Paths order lexicographically by character.
pub open spec fn path_le_fn() -> spec_fn(Seq<char>, Seq<char>) -> bool {
    |a: Seq<char>, b: Seq<char>| seq_lex_le(a, b)
}

proof fn lemma_path_order()
    ensures
        total_order(path_le_fn()),
{
    let le = path_le_fn();
    assert forall|a: Seq<char>, b: Seq<char>| #[trigger] le(a, b) || le(b, a) by {
        lemma_lex_total(a, b);
    }
    assert forall|a: Seq<char>, b: Seq<char>| #[trigger] le(a, b) && le(b, a) implies a == b by {
        lemma_lex_antisymmetric(a, b);
    }
    assert forall|a: Seq<char>, b: Seq<char>, c: Seq<char>| #[trigger] le(a, b) && #[trigger] le(b, c) implies le(a, c) by {
        lemma_lex_transitive(a, b, c);
    }
}

/// The discovered paths in order, as the graph lists them.
pub fn sorted_paths(paths: Vec<String>) -> (r: Vec<String>)
    ensures
        r@.map_values(path_view_fn()).to_multiset() == paths@.map_values(path_view_fn()).to_multiset(),
        ascending_by(r@.map_values(path_view_fn()), path_le_fn()),
{
    proof {
        lemma_path_order();
    }
    let precedes = (|a: &String, b: &String| -> (r: bool)
        ensures
            r == seq_lex_le(path_view(*a), path_view(*b)),
        {
            proof {
                lemma_lex_reflexive(a@);
            }
            match compare_str(a.as_str(), b.as_str()) {
                Comparison::Greater => false,
                _ => true,
            }
        });
    sort_by_view::<String, Seq<char>, _>(paths, Ghost(path_view_fn()), Ghost(path_le_fn()), precedes)
}

/// A package one manifest declares: its name and the directory it owns.
#[derive(Debug, Clone)]
pub struct DeclaredPackage {
    pub name: String,
    pub dir: String,
}

/// What one manifest declared, as far as package collection reads it.
#[derive(Debug, Clone)]
pub struct ManifestRead {
    pub manifest: ProjectPath,
    pub packages: Vec<DeclaredPackage>,
}

/// Whether read `r` declares the package `(name, dir)`.
pub open spec fn declares(r: ManifestRead, key: (Seq<char>, Seq<char>)) -> bool {
    exists|j: int| 0 <= j < r.packages@.len() && (#[trigger] r.packages@[j]).name@ == key.0 && r.packages@[j].dir@ == key.1
}

/// The first of the first `k` reads that declares `key`.
pub open spec fn first_read(reads: Seq<ManifestRead>, key: (Seq<char>, Seq<char>), k: int) -> Option<int>
    decreases k,
{
    if k <= 0 {
        None
    } else {
        match first_read(reads, key, k - 1) {
            Some(i) => Some(i),
            None => if declares(reads[k - 1], key) {
                Some(k - 1)
            } else {
                None
            },
        }
    }
}

/// The first of the first `k` declaring manifests that sits in directory `dir`.
pub open spec fn own_manifest(manifests: Seq<ProjectPath>, dir: Seq<char>, k: int) -> Option<Seq<char>>
    decreases k,
{
    if k <= 0 {
        None
    } else {
        match own_manifest(manifests, dir, k - 1) {
            Some(m) => Some(m),
            None => if dirname(manifests[k - 1].0@) == dir {
                Some(manifests[k - 1].0@)
            } else {
                None
            },
        }
    }
}

/// A package as packages are ordered: by name, then directory, then manifest.
pub open spec fn package_view(p: GraphPackage) -> (Seq<char>, Seq<char>, Seq<char>) {
    (p.name@, p.dir@, p.manifest.0@)
}

/// `package_view`, as a value.
pub open spec fn package_view_fn() -> spec_fn(GraphPackage) -> (Seq<char>, Seq<char>, Seq<char>) {
    |p: GraphPackage| package_view(p)
}

/// Name, then directory, then manifest, each lexicographic.
pub open spec fn package_le(a: (Seq<char>, Seq<char>, Seq<char>), b: (Seq<char>, Seq<char>, Seq<char>)) -> bool {
    seq_lex_lt(a.0, b.0) || (a.0 == b.0 && (seq_lex_lt(a.1, b.1) || (a.1 == b.1 && seq_lex_le(a.2, b.2))))
}

/// `package_le`, as a value.
pub open spec fn package_le_fn() -> spec_fn((Seq<char>, Seq<char>, Seq<char>), (Seq<char>, Seq<char>, Seq<char>)) -> bool {
    |a: (Seq<char>, Seq<char>, Seq<char>), b: (Seq<char>, Seq<char>, Seq<char>)| package_le(a, b)
}

proof fn lemma_package_order()
    ensures
        total_order(package_le_fn()),
{
    let le = package_le_fn();
    assert forall|a: (Seq<char>, Seq<char>, Seq<char>), b: (Seq<char>, Seq<char>, Seq<char>)| #[trigger] le(a, b) || le(b, a) by {
        lemma_lex_total(a.0, b.0);
        lemma_lex_total(a.1, b.1);
        lemma_lex_total(a.2, b.2);
    }
    assert forall|a: (Seq<char>, Seq<char>, Seq<char>), b: (Seq<char>, Seq<char>, Seq<char>)|
        #[trigger] le(a, b) && le(b, a) implies a == b by {
        if a.0 != b.0 {
            lemma_lex_antisymmetric(a.0, b.0);
        }
        if a.1 != b.1 {
            lemma_lex_antisymmetric(a.1, b.1);
        }
        lemma_lex_antisymmetric(a.2, b.2);
    }
    assert forall|
        a: (Seq<char>, Seq<char>, Seq<char>),
        b: (Seq<char>, Seq<char>, Seq<char>),
        c: (Seq<char>, Seq<char>, Seq<char>),
    | #[trigger] le(a, b) && #[trigger] le(b, c) implies le(a, c) by {
        if a.0 != b.0 && b.0 != c.0 {
            lemma_lex_transitive(a.0, b.0, c.0);
            if a.0 == c.0 {
                lemma_lex_antisymmetric(a.0, b.0);
            }
        }
        if a.0 == b.0 && b.0 == c.0 && a.1 != b.1 && b.1 != c.1 {
            lemma_lex_transitive(a.1, b.1, c.1);
            if a.1 == c.1 {
                lemma_lex_antisymmetric(a.1, b.1);
            }
        }
        if a.0 == b.0 && b.0 == c.0 && a.1 == b.1 && b.1 == c.1 {
            lemma_lex_transitive(a.2, b.2, c.2);
        }
    }
}

fn package_le_exec(a: &GraphPackage, b: &GraphPackage) -> (r: bool)
    ensures
        r == package_le(package_view(*a), package_view(*b)),
{
    proof {
        lemma_lex_reflexive(a.manifest.0@);
    }
    match compare_str(a.name.as_str(), b.name.as_str()) {
        Comparison::Less => true,
        Comparison::Greater => false,
        Comparison::Equal => match compare_str(a.dir.as_str(), b.dir.as_str()) {
            Comparison::Less => true,
            Comparison::Greater => false,
            Comparison::Equal => match compare_str(a.manifest.0.as_str(), b.manifest.0.as_str()) {
                Comparison::Greater => false,
                _ => true,
            },
        },
    }
}

/// A package's key: its name and directory.
pub open spec fn package_key(p: GraphPackage) -> (Seq<char>, Seq<char>) {
    (p.name@, p.dir@)
}

/// Whether `found` holds, once each, the packages the first `k` reads declare, each
/// with the manifest of the first read declaring it.
pub open spec fn first_declarations(found: Seq<GraphPackage>, reads: Seq<ManifestRead>, k: int) -> bool {
    &&& forall|i: int, j: int| 0 <= i < j < found.len() ==> package_key(found[i]) != package_key(found[j])
    &&& forall|i: int|
        0 <= i < found.len() ==> ((#[trigger] first_read(reads, package_key(found[i]), k)) matches Some(r)
            && found[i].manifest.0@ == reads[r].manifest.0@)
    &&& forall|key: (Seq<char>, Seq<char>)|
        #[trigger] first_read(reads, key, k) is Some ==> exists|i: int| 0 <= i < found.len() && package_key(found[i]) == key
}

proof fn lemma_first_read_stays(reads: Seq<ManifestRead>, key: (Seq<char>, Seq<char>), k: int, m: int)
    requires
        0 <= k <= m,
        first_read(reads, key, k) is Some,
    ensures
        first_read(reads, key, m) == first_read(reads, key, k),
    decreases m - k,
{
    if k < m {
        lemma_first_read_stays(reads, key, k, m - 1);
    }
}

/// Whether `found` holds `key`.
fn holds_key(found: &Vec<GraphPackage>, name: &str, dir: &str) -> (r: bool)
    ensures
        r == exists|i: int| 0 <= i < found@.len() && package_key(found@[i]) == (name@, dir@),
{
    let mut i: usize = 0;
    while i < found.len()
        invariant
            i <= found@.len(),
            forall|j: int| 0 <= j < i ==> package_key(#[trigger] found@[j]) != (name@, dir@),
        decreases found@.len() - i,
    {
        if str_eq(found[i].name.as_str(), name) && str_eq(found[i].dir.as_str(), dir) {
            return true;
        }
        i = i + 1;
    }
    false
}

/// The packages the reads declare, once per `(name, directory)`, each with the
/// manifest of the first read declaring it, in read order.
fn first_declared_packages(reads: &[ManifestRead]) -> (r: Vec<GraphPackage>)
    ensures
        first_declarations(r@, reads@, reads@.len() as int),
{
    let mut found: Vec<GraphPackage> = Vec::new();
    let mut k: usize = 0;
    while k < reads.len()
        invariant
            k <= reads@.len(),
            first_declarations(found@, reads@, k as int),
        decreases reads@.len() - k,
    {
        let read = &reads[k];
        let ghost before = found@;
        let mut j: usize = 0;
        while j < read.packages.len()
            invariant
                k < reads@.len(),
                *read == reads@[k as int],
                j <= read.packages@.len(),
                first_declarations(before, reads@, k as int),
                before.len() <= found@.len(),
                forall|i: int| 0 <= i < before.len() ==> found@[i] == before[i],
                forall|i: int, i2: int| 0 <= i < i2 < found@.len() ==> package_key(found@[i]) != package_key(found@[i2]),
                forall|i: int|
                    before.len() <= i < found@.len() ==> first_read(reads@, package_key(#[trigger] found@[i]), k as int) is None
                        && declares(reads@[k as int], package_key(found@[i])) && found@[i].manifest.0@
                        == reads@[k as int].manifest.0@,
                forall|key: (Seq<char>, Seq<char>)|
                    #[trigger] first_read(reads@, key, k as int) is None && (exists|q: int|
                        0 <= q < j && (read.packages@[q].name@, read.packages@[q].dir@) == key) ==> exists|i: int|
                        0 <= i < found@.len() && package_key(found@[i]) == key,
            decreases read.packages@.len() - j,
        {
            let p = &read.packages[j];
            if !holds_key(&found, p.name.as_str(), p.dir.as_str()) {
                let ghost prev = found@;
                proof {
                    let key = (p.name@, p.dir@);
                    if first_read(reads@, key, k as int) is Some {
                        let w = choose|i: int| 0 <= i < before.len() && package_key(before[i]) == key;
                        assert(found@[w] == before[w]);
                        assert(false);
                    }
                    assert(declares(reads@[k as int], key)) by {
                        assert(read.packages@[j as int] == *p);
                    }
                }
                found.push(GraphPackage { name: owned(p.name.as_str()), dir: owned(p.dir.as_str()), manifest: ProjectPath(owned(read.manifest.0.as_str())) });
                proof {
                    assert forall|key: (Seq<char>, Seq<char>)|
                        #[trigger] first_read(reads@, key, k as int) is None && (exists|q: int|
                            0 <= q < j + 1 && (read.packages@[q].name@, read.packages@[q].dir@) == key) implies exists|i: int|
                            0 <= i < found@.len() && package_key(found@[i]) == key by {
                        let q = choose|q: int| 0 <= q < j + 1 && (read.packages@[q].name@, read.packages@[q].dir@) == key;
                        if q < j {
                            let i = choose|i: int| 0 <= i < prev.len() && package_key(prev[i]) == key;
                            assert(found@[i] == prev[i]);
                        } else {
                            assert(package_key(found@[prev.len() as int]) == key);
                        }
                    }
                }
            } else {
                proof {
                    assert forall|key: (Seq<char>, Seq<char>)|
                        #[trigger] first_read(reads@, key, k as int) is None && (exists|q: int|
                            0 <= q < j + 1 && (read.packages@[q].name@, read.packages@[q].dir@) == key) implies exists|i: int|
                            0 <= i < found@.len() && package_key(found@[i]) == key by {
                        let q = choose|q: int| 0 <= q < j + 1 && (read.packages@[q].name@, read.packages@[q].dir@) == key;
                        if q == j {
                            assert((p.name@, p.dir@) == key);
                        }
                    }
                }
            }
            j = j + 1;
        }
        proof {
            assert forall|i: int|
                0 <= i < found@.len() implies ((#[trigger] first_read(reads@, package_key(found@[i]), k + 1)) matches Some(r)
                    && found@[i].manifest.0@ == reads@[r].manifest.0@) by {
                if i < before.len() {
                    assert(found@[i] == before[i]);
                    lemma_first_read_stays(reads@, package_key(before[i]), k as int, k + 1);
                }
            }
            assert forall|key: (Seq<char>, Seq<char>)|
                #[trigger] first_read(reads@, key, k + 1) is Some implies exists|i: int|
                    0 <= i < found@.len() && package_key(found@[i]) == key by {
                if first_read(reads@, key, k as int) is Some {
                    let i = choose|i: int| 0 <= i < before.len() && package_key(before[i]) == key;
                    assert(found@[i] == before[i]);
                } else {
                    assert(declares(reads@[k as int], key));
                    let q = choose|q: int|
                        0 <= q < reads@[k as int].packages@.len() && (#[trigger] reads@[k as int].packages@[q]).name@ == key.0
                            && reads@[k as int].packages@[q].dir@ == key.1;
                    assert((read.packages@[q].name@, read.packages@[q].dir@) == key);
                }
            }
        }
        k = k + 1;
    }
    found
}

/// The manifest of the first of `manifests` in directory `dir`, if any.
fn own_manifest_of(manifests: &[ProjectPath], dir: &str) -> (r: Option<String>)
    ensures
        match own_manifest(manifests@, dir@, manifests@.len() as int) {
            Some(m) => r matches Some(s) && s@ == m,
            None => r is None,
        },
{
    let mut i: usize = 0;
    while i < manifests.len()
        invariant
            i <= manifests@.len(),
            own_manifest(manifests@, dir@, i as int) is None,
        decreases manifests@.len() - i,
    {
        if str_eq(core_dirname(manifests[i].0.as_str()), dir) {
            proof {
                lemma_own_manifest_stays(manifests@, dir@, i + 1, manifests@.len() as int);
            }
            return Some(owned(manifests[i].0.as_str()));
        }
        i = i + 1;
    }
    None
}

proof fn lemma_own_manifest_stays(manifests: Seq<ProjectPath>, dir: Seq<char>, k: int, m: int)
    requires
        0 <= k <= m,
        own_manifest(manifests, dir, k) is Some,
    ensures
        own_manifest(manifests, dir, m) == own_manifest(manifests, dir, k),
    decreases m - k,
{
    if k < m {
        lemma_own_manifest_stays(manifests, dir, k, m - 1);
    }
}

/// The manifest a collected package is anchored to: the declaring manifest in the
/// package's own directory when there is one, else the first manifest that declared it.
pub open spec fn anchoring_manifest(reads: Seq<ManifestRead>, manifests: Seq<ProjectPath>, key: (Seq<char>, Seq<char>)) -> Seq<
    char,
> {
    match own_manifest(manifests, key.1, manifests.len() as int) {
        Some(m) => m,
        None => reads[first_read(reads, key, reads.len() as int)->0].manifest.0@,
    }
}

/// The declared packages: one per `(name, directory)` the reads declare (the first
/// declaration wins), ordered by name then directory, each anchored to the declaring
/// manifest in its own directory (`manifests` are the declaring manifests, in order)
/// when one exists, else to the manifest that declared it first.
pub fn collect_packages(reads: &[ManifestRead], manifests: &[ProjectPath]) -> (r: Vec<GraphPackage>)
    ensures
        forall|i: int, j: int| 0 <= i < j < r@.len() ==> package_key(r@[i]) != package_key(r@[j]),
        forall|i: int, j: int|
            0 <= i < j < r@.len() ==> seq_lex_lt(r@[i].name@, r@[j].name@) || (r@[i].name@ == r@[j].name@
                && seq_lex_lt(r@[i].dir@, r@[j].dir@)),
        forall|key: (Seq<char>, Seq<char>)|
            (exists|i: int| 0 <= i < r@.len() && package_key(r@[i]) == key) <==> #[trigger] first_read(
                reads@,
                key,
                reads@.len() as int,
            ) is Some,
        forall|i: int|
            0 <= i < r@.len() ==> (#[trigger] r@[i]).manifest.0@ == anchoring_manifest(
                reads@,
                manifests@,
                package_key(r@[i]),
            ),
{
    let found = first_declared_packages(reads);
    let ghost fv = found@;
    proof {
        lemma_package_order();
    }
    let precedes = (|a: &GraphPackage, b: &GraphPackage| -> (r: bool)
        ensures
            r == package_le(package_view(*a), package_view(*b)),
        { package_le_exec(a, b) });
    let sorted = sort_by_view::<GraphPackage, (Seq<char>, Seq<char>, Seq<char>), _>(
        found,
        Ghost(package_view_fn()),
        Ghost(package_le_fn()),
        precedes,
    );
    let ghost sv = sorted@.map_values(package_view_fn());
    let ghost iv = fv.map_values(package_view_fn());
    proof {
        assert(iv.no_duplicates()) by {
            assert forall|a: int, b: int| 0 <= a < iv.len() && 0 <= b < iv.len() && a != b implies iv[a] != iv[b] by {
                if a < b {
                    assert(package_key(fv[a]) != package_key(fv[b]));
                } else {
                    assert(package_key(fv[b]) != package_key(fv[a]));
                }
            }
        }
        crate::seqs::lemma_multiset_no_duplicates(iv, sv);
        crate::seqs::lemma_multiset_same_set(iv, sv);
    }
    let mut out: Vec<GraphPackage> = Vec::new();
    let mut i: usize = 0;
    while i < sorted.len()
        invariant
            i <= sorted@.len(),
            sv == sorted@.map_values(package_view_fn()),
            out@.len() == i,
            forall|q: int| 0 <= q < i ==> package_key(#[trigger] out@[q]) == package_key(sorted@[q]),
            forall|q: int|
                0 <= q < i ==> (#[trigger] out@[q]).manifest.0@ == match own_manifest(
                    manifests@,
                    sorted@[q].dir@,
                    manifests@.len() as int,
                ) {
                    Some(m) => m,
                    None => sorted@[q].manifest.0@,
                },
        decreases sorted@.len() - i,
    {
        let p = &sorted[i];
        let manifest = match own_manifest_of(manifests, p.dir.as_str()) {
            Some(m) => m,
            None => owned(p.manifest.0.as_str()),
        };
        out.push(GraphPackage { name: owned(p.name.as_str()), dir: owned(p.dir.as_str()), manifest: ProjectPath(manifest) });
        i = i + 1;
    }
    proof {
        lemma_views_match(fv, sorted@);
        lemma_keys_strict(fv, sorted@);
        lemma_collected_keys(reads@, manifests@, fv, sorted@, out@);
        assert forall|i: int, j: int| 0 <= i < j < out@.len() implies package_key(out@[i]) != package_key(out@[j]) && (
        seq_lex_lt(out@[i].name@, out@[j].name@) || (out@[i].name@ == out@[j].name@ && seq_lex_lt(out@[i].dir@, out@[j].dir@))) by {
            assert(package_key(out@[i]) == package_key(sorted@[i]));
            assert(package_key(out@[j]) == package_key(sorted@[j]));
        }
    }
    out
}


/// Whether some package of `s` has `p`'s view.
pub open spec fn view_in(p: GraphPackage, s: Seq<GraphPackage>) -> bool {
    exists|a: int| 0 <= a < s.len() && package_view(s[a]) == package_view(p)
}

/// Every sorted package's view is a first declaration's, and back.
proof fn lemma_views_match(fv: Seq<GraphPackage>, sorted: Seq<GraphPackage>)
    requires
        sorted.map_values(package_view_fn()).to_set() == fv.map_values(package_view_fn()).to_set(),
    ensures
        forall|q: int| 0 <= q < sorted.len() ==> view_in(#[trigger] sorted[q], fv),
        forall|a: int| 0 <= a < fv.len() ==> view_in(#[trigger] fv[a], sorted),
{
    let sv = sorted.map_values(package_view_fn());
    let iv = fv.map_values(package_view_fn());
    assert forall|q: int| 0 <= q < sorted.len() implies view_in(#[trigger] sorted[q], fv) by {
        assert(sv[q] == package_view(sorted[q]));
        assert(sv.to_set().contains(sv[q]));
        assert(iv.to_set().contains(sv[q]));
        assert(iv.contains(sv[q]));
        let a = choose|a: int| 0 <= a < iv.len() && iv[a] == sv[q];
        assert(iv[a] == package_view(fv[a]));
        assert(0 <= a < fv.len() && package_view(fv[a]) == package_view(sorted[q]));
    }
    assert forall|a: int| 0 <= a < fv.len() implies view_in(#[trigger] fv[a], sorted) by {
        assert(iv[a] == package_view(fv[a]));
        assert(iv.to_set().contains(iv[a]));
        assert(sv.to_set().contains(iv[a]));
        assert(sv.contains(iv[a]));
        let q = choose|q: int| 0 <= q < sv.len() && sv[q] == iv[a];
        assert(sv[q] == package_view(sorted[q]));
        assert(0 <= q < sorted.len() && package_view(sorted[q]) == package_view(fv[a]));
    }
}

/// Two sorted, unrepeated packages drawn from packages whose keys never repeat are
/// strictly ordered by key.
proof fn lemma_key_pair(fv: Seq<GraphPackage>, sorted: Seq<GraphPackage>, i: int, j: int)
    requires
        forall|a: int, b: int| 0 <= a < b < fv.len() ==> package_key(fv[a]) != package_key(fv[b]),
        forall|q: int| 0 <= q < sorted.len() ==> view_in(#[trigger] sorted[q], fv),
        ascending_by(sorted.map_values(package_view_fn()), package_le_fn()),
        sorted.map_values(package_view_fn()).no_duplicates(),
        0 <= i < j < sorted.len(),
    ensures
        package_key(sorted[i]) != package_key(sorted[j]),
        seq_lex_lt(sorted[i].name@, sorted[j].name@) || (sorted[i].name@ == sorted[j].name@ && seq_lex_lt(
            sorted[i].dir@,
            sorted[j].dir@,
        )),
{
    let sv = sorted.map_values(package_view_fn());
    assert(sv[i] == package_view(sorted[i]));
    assert(sv[j] == package_view(sorted[j]));
    assert(sv[i] != sv[j]);
    assert(package_le(sv[i], sv[j]));
    if package_key(sorted[i]) == package_key(sorted[j]) {
        assert(view_in(sorted[i], fv));
        assert(view_in(sorted[j], fv));
        let a = choose|a: int| 0 <= a < fv.len() && package_view(fv[a]) == package_view(sorted[i]);
        let b = choose|b: int| 0 <= b < fv.len() && package_view(fv[b]) == package_view(sorted[j]);
        if a < b {
            assert(package_key(fv[a]) != package_key(fv[b]));
        } else if b < a {
            assert(package_key(fv[b]) != package_key(fv[a]));
        }
        assert(false);
    }
}

/// Sorted without repeats, over packages whose keys never repeat, is strictly ordered by
/// key.
proof fn lemma_keys_strict(fv: Seq<GraphPackage>, sorted: Seq<GraphPackage>)
    requires
        forall|i: int, j: int| 0 <= i < j < fv.len() ==> package_key(fv[i]) != package_key(fv[j]),
        forall|q: int| 0 <= q < sorted.len() ==> view_in(#[trigger] sorted[q], fv),
        ascending_by(sorted.map_values(package_view_fn()), package_le_fn()),
        sorted.map_values(package_view_fn()).no_duplicates(),
    ensures
        forall|i: int, j: int|
            #![trigger package_key(sorted[i]), package_key(sorted[j])]
            0 <= i < j < sorted.len() ==> package_key(sorted[i]) != package_key(sorted[j]) && (seq_lex_lt(sorted[i].name@, sorted[j].name@) || (
            sorted[i].name@ == sorted[j].name@ && seq_lex_lt(sorted[i].dir@, sorted[j].dir@))),
{
    assert forall|i: int, j: int|
        #![trigger package_key(sorted[i]), package_key(sorted[j])]
        0 <= i < j < sorted.len() implies package_key(sorted[i]) != package_key(sorted[j]) && (seq_lex_lt(
        sorted[i].name@,
        sorted[j].name@,
    ) || (sorted[i].name@ == sorted[j].name@ && seq_lex_lt(sorted[i].dir@, sorted[j].dir@))) by {
        lemma_key_pair(fv, sorted, i, j);
    }
}

/// Collected packages hold exactly the declared keys, each anchored as the rule says.
proof fn lemma_collected_keys(
    reads: Seq<ManifestRead>,
    manifests: Seq<ProjectPath>,
    fv: Seq<GraphPackage>,
    sorted: Seq<GraphPackage>,
    out: Seq<GraphPackage>,
)
    requires
        first_declarations(fv, reads, reads.len() as int),
        forall|q: int| 0 <= q < sorted.len() ==> view_in(#[trigger] sorted[q], fv),
        forall|a: int| 0 <= a < fv.len() ==> view_in(#[trigger] fv[a], sorted),
        out.len() == sorted.len(),
        forall|q: int| 0 <= q < out.len() ==> package_key(#[trigger] out[q]) == package_key(sorted[q]),
        forall|q: int|
            0 <= q < out.len() ==> (#[trigger] out[q]).manifest.0@ == match own_manifest(manifests, sorted[q].dir@, manifests.len() as int) {
                Some(m) => m,
                None => sorted[q].manifest.0@,
            },
    ensures
        forall|key: (Seq<char>, Seq<char>)|
            (exists|i: int| 0 <= i < out.len() && package_key(out[i]) == key) <==> #[trigger] first_read(
                reads,
                key,
                reads.len() as int,
            ) is Some,
        forall|i: int| 0 <= i < out.len() ==> (#[trigger] out[i]).manifest.0@ == anchoring_manifest(reads, manifests, package_key(out[i])),
{
    assert forall|key: (Seq<char>, Seq<char>)|
        (exists|i: int| 0 <= i < out.len() && package_key(out[i]) == key) <==> #[trigger] first_read(
            reads,
            key,
            reads.len() as int,
        ) is Some by {
        if exists|i: int| 0 <= i < out.len() && package_key(out[i]) == key {
            let i = choose|i: int| 0 <= i < out.len() && package_key(out[i]) == key;
            assert(package_key(out[i]) == package_key(sorted[i]));
            let a = choose|a: int| 0 <= a < fv.len() && package_view(fv[a]) == package_view(sorted[i]);
            assert(package_key(fv[a]) == key);
        }
        if first_read(reads, key, reads.len() as int) is Some {
            let a = choose|a: int| 0 <= a < fv.len() && package_key(fv[a]) == key;
            let q = choose|q: int| 0 <= q < sorted.len() && package_view(sorted[q]) == package_view(fv[a]);
            assert(package_key(out[q]) == package_key(sorted[q]));
        }
    }
    assert forall|i: int| 0 <= i < out.len() implies (#[trigger] out[i]).manifest.0@ == anchoring_manifest(
        reads,
        manifests,
        package_key(out[i]),
    ) by {
        let a = choose|a: int| 0 <= a < fv.len() && package_view(fv[a]) == package_view(sorted[i]);
        assert(first_read(reads, package_key(fv[a]), reads.len() as int) matches Some(r) && (fv[a].manifest.0@
            == reads[r].manifest.0@));
        assert(package_key(out[i]) == package_key(sorted[i]));
    }
}

/// What the patch guard reads of a persisted file: its path, the coordinate of the
/// adapter that claimed it, and its content hash in hex.
#[derive(Debug, Clone)]
pub struct StoredFile {
    pub path: ProjectPath,
    pub adapter: String,
    pub hash_hex: String,
}

/// Whether a persisted file is still the claim `c`: the same path, the same adapter.
pub open spec fn still_claimed(s: StoredFile, files: Seq<DiscoveredFile>, coordinates: Seq<String>, c: ClaimedFile) -> bool {
    s.path.0@ == files[c.file_index as int].path.0@ && s.adapter@ == coordinates[c.adapter_index as int]@
}

/// Whether a persisted file's content moved since it was stored.
pub open spec fn content_moved(s: StoredFile, files: Seq<DiscoveredFile>, c: ClaimedFile) -> bool {
    s.hash_hex@ != hex_text(files[c.file_index as int].content_hash@)
}

/// Whether the ground is unmoved, so the persisted graph may be patched: the same
/// manifests, and the same files claimed by the same adapters, in the same order.
pub open spec fn patch_applies(
    prev_manifest_state: Seq<u8>,
    manifest_state: Seq<u8>,
    stored: Seq<StoredFile>,
    files: Seq<DiscoveredFile>,
    claims: Seq<ClaimedFile>,
    coordinates: Seq<String>,
) -> bool {
    &&& prev_manifest_state == manifest_state
    &&& stored.len() == claims.len()
    &&& forall|ix: int| 0 <= ix < claims.len() ==> still_claimed(#[trigger] stored[ix], files, coordinates, claims[ix])
}

/// The first `k` files whose content moved, each as its graph index and its discovered
/// index.
pub open spec fn moved_files(stored: Seq<StoredFile>, files: Seq<DiscoveredFile>, claims: Seq<ClaimedFile>, k: int) -> Seq<(usize, usize)>
    decreases k,
{
    if k <= 0 {
        Seq::empty()
    } else if content_moved(stored[k - 1], files, claims[k - 1]) {
        moved_files(stored, files, claims, k - 1).push(((k - 1) as usize, claims[k - 1].file_index))
    } else {
        moved_files(stored, files, claims, k - 1)
    }
}

/// Whether `after` is `stored` with every file's hash brought up to date.
pub open spec fn hashes_current(after: Seq<StoredFile>, stored: Seq<StoredFile>, files: Seq<DiscoveredFile>, claims: Seq<ClaimedFile>) -> bool {
    &&& after.len() == stored.len()
    &&& forall|ix: int|
        0 <= ix < after.len() ==> (#[trigger] after[ix]).path == stored[ix].path && after[ix].adapter == stored[ix].adapter
            && after[ix].hash_hex@ == hex_text(files[claims[ix].file_index as int].content_hash@)
}

fn placeholder_stored() -> (r: StoredFile) {
    StoredFile { path: ProjectPath(String::new()), adapter: String::new(), hash_hex: String::new() }
}

/// The guard of the surgical path: when the manifests, the file set and every claim are
/// unchanged, the persisted files with their hashes brought up to date and the files
/// whose content moved (graph index, discovered index), to be re-extracted; `None` when
/// the ground shifted and the graph must be assembled from scratch.
#[verifier::loop_isolation(false)]
pub fn patch_guard(
    prev: Vec<StoredFile>,
    prev_manifest_state: &[u8; 32],
    manifest_state: &[u8; 32],
    files: &[DiscoveredFile],
    claims: &[ClaimedFile],
    coordinates: &[String],
) -> (r: Option<(Vec<StoredFile>, Vec<(usize, usize)>)>)
    requires
        forall|q: int|
            0 <= q < claims@.len() ==> (#[trigger] claims@[q]).file_index < files@.len() && claims@[q].adapter_index
                < coordinates@.len(),
    ensures
        r is Some <==> patch_applies(prev_manifest_state@, manifest_state@, prev@, files@, claims@, coordinates@),
        r matches Some((after, changed)) ==> hashes_current(after@, prev@, files@, claims@) && changed@ == moved_files(
            prev@,
            files@,
            claims@,
            claims@.len() as int,
        ),
{
    let mut i: usize = 0;
    while i < 32
        invariant
            i <= 32,
            prev_manifest_state@.len() == 32,
            manifest_state@.len() == 32,
            forall|j: int| 0 <= j < i ==> prev_manifest_state@[j] == manifest_state@[j],
        decreases 32 - i,
    {
        if prev_manifest_state[i] != manifest_state[i] {
            proof {
                assert(prev_manifest_state@[i as int] != manifest_state@[i as int]);
                assert(prev_manifest_state@ != manifest_state@);
            }
            return None;
        }
        i = i + 1;
    }
    proof {
        assert(prev_manifest_state@ =~= manifest_state@);
    }
    if prev.len() != claims.len() {
        return None;
    }
    let ghost stored = prev@;
    let mut out = prev;
    let mut changed: Vec<(usize, usize)> = Vec::new();
    let mut ix: usize = 0;
    while ix < claims.len()
        invariant
            ix <= claims@.len() == stored.len() == out@.len(),
            forall|q: int|
                0 <= q < claims@.len() ==> (#[trigger] claims@[q]).file_index < files@.len() && claims@[q].adapter_index
                    < coordinates@.len(),
            forall|q: int| 0 <= q < ix ==> still_claimed(#[trigger] stored[q], files@, coordinates@, claims@[q]),
            forall|q: int| ix <= q < stored.len() ==> #[trigger] out@[q] == stored[q],
            forall|q: int|
                0 <= q < ix ==> (#[trigger] out@[q]).path == stored[q].path && out@[q].adapter == stored[q].adapter
                    && out@[q].hash_hex@ == hex_text(files@[claims@[q].file_index as int].content_hash@),
            changed@ == moved_files(stored, files@, claims@, ix as int),
        decreases claims@.len() - ix,
    {
        let c = &claims[ix];
        let f = &files[c.file_index];
        if !str_eq(out[ix].path.0.as_str(), f.path.0.as_str()) || !str_eq(out[ix].adapter.as_str(), coordinates[c.adapter_index].as_str()) {
            proof {
                assert(out@[ix as int] == stored[ix as int]);
                assert(!still_claimed(stored[ix as int], files@, coordinates@, claims@[ix as int]));
                assert(!patch_applies(prev_manifest_state@, manifest_state@, stored, files@, claims@, coordinates@));
            }
            return None;
        }
        let hex = hash_hex(&f.content_hash);
        if !str_eq(out[ix].hash_hex.as_str(), hex.as_str()) {
            changed.push((ix, c.file_index));
            let mut slot = placeholder_stored();
            out.set_and_swap(ix, &mut slot);
            slot.hash_hex = hex;
            out.set_and_swap(ix, &mut slot);
        }
        ix = ix + 1;
    }
    Some((out, changed))
}

/// A patched graph serves the next run verbatim: once the guard has brought every
/// hash up to date, the same ground lets the guard through again with nothing left to
/// re-extract.
pub proof fn lemma_patched_files_are_current(
    prev_manifest_state: Seq<u8>,
    manifest_state: Seq<u8>,
    stored: Seq<StoredFile>,
    after: Seq<StoredFile>,
    files: Seq<DiscoveredFile>,
    claims: Seq<ClaimedFile>,
    coordinates: Seq<String>,
)
    requires
        patch_applies(prev_manifest_state, manifest_state, stored, files, claims, coordinates),
        hashes_current(after, stored, files, claims),
    ensures
        patch_applies(prev_manifest_state, manifest_state, after, files, claims, coordinates),
        moved_files(after, files, claims, claims.len() as int).len() == 0,
{
    assert forall|ix: int| 0 <= ix < claims.len() implies still_claimed(#[trigger] after[ix], files, coordinates, claims[ix]) by {
        assert(still_claimed(stored[ix], files, coordinates, claims[ix]));
    }
    lemma_nothing_moved(after, files, claims, claims.len() as int);
}

proof fn lemma_nothing_moved(after: Seq<StoredFile>, files: Seq<DiscoveredFile>, claims: Seq<ClaimedFile>, k: int)
    requires
        0 <= k <= after.len() == claims.len(),
        forall|ix: int|
            0 <= ix < after.len() ==> (#[trigger] after[ix]).hash_hex@ == hex_text(files[claims[ix].file_index as int].content_hash@),
    ensures
        moved_files(after, files, claims, k).len() == 0,
    decreases k,
{
    if k > 0 {
        lemma_nothing_moved(after, files, claims, k - 1);
        assert(after[k - 1].hash_hex@ == hex_text(files[claims[k - 1].file_index as int].content_hash@));
    }
}

} // verus!
