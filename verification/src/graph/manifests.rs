//! Declared dependencies, as the manifest pass records them. A dependency that
//! inherits its requirement (Cargo's `workspace = true`) carries a placeholder; it takes
//! the requirement the shared pool states for its name, the pool being gathered across
//! every manifest first (a member manifest can come before the one declaring the pool),
//! the last manifest to state a name winning. With no pool entry the placeholder stands.
//! The entry points a manifest names become whole-file roots, and a production one makes
//! its file a library root at the surest confidence any manifest gave it.

use vstd::prelude::*;

use rustc_hash::FxHashMap;

use crate::fx::{
    chars_of, confidences_get, confidences_insert, pool_entries, pool_get, pool_insert, pool_new, str_ids, str_ids_get,
};
use crate::graph::{DeclaredDependency, DependencyScope};
use crate::text::owned;
use crate::vocab::{Confidence, Edge, EdgeKind, FileId, NodeRef, PackageId, ProjectPath, Provenance, RootKind, Span};

verus! {

/// One dependency a manifest declares.
#[derive(Debug, Clone)]
pub struct ManifestDependency {
    pub name: String,
    /// The requirement stated; a placeholder where `inherited`.
    pub version_req: Option<String>,
    pub scope: DependencyScope,
    /// The requirement lives in the shared pool another manifest declares.
    pub inherited: bool,
}

/// One entry of the shared requirement pool a manifest declares.
#[derive(Debug, Clone)]
pub struct WorkspaceDependency {
    pub name: String,
    pub version_req: Option<String>,
}

/// A file a manifest names as an entry point, with the kind and confidence of the root.
#[derive(Debug, Clone)]
pub struct ManifestRoot {
    pub target: ProjectPath,
    pub kind: RootKind,
    pub confidence: Confidence,
}

/// What a manifest states, as the manifest pass reads it.
#[derive(Debug, Clone)]
pub struct ManifestFacts {
    pub dependencies: Vec<ManifestDependency>,
    pub workspace_dependencies: Vec<WorkspaceDependency>,
    pub roots: Vec<ManifestRoot>,
}

/// `pool` with the first `k` of `deps` stated into it, a later statement replacing an
/// earlier one.
pub open spec fn pool_after(pool: Map<Seq<char>, Option<Seq<char>>>, deps: Seq<WorkspaceDependency>, k: int) -> Map<
    Seq<char>,
    Option<Seq<char>>,
>
    decreases k,
{
    if k <= 0 {
        pool
    } else {
        pool_after(pool, deps, k - 1).insert(deps[k - 1].name@, chars_of(deps[k - 1].version_req))
    }
}

/// The shared pool over the first `i` files' manifests, in file order.
pub open spec fn pool_of(manifests: Seq<Option<ManifestFacts>>, i: int) -> Map<Seq<char>, Option<Seq<char>>>
    decreases i,
{
    if i <= 0 {
        Map::empty()
    } else {
        match manifests[i - 1] {
            Some(f) => pool_after(pool_of(manifests, i - 1), f.workspace_dependencies@, f.workspace_dependencies@.len() as int),
            None => pool_of(manifests, i - 1),
        }
    }
}

/// The requirement a declaration records: the pool's for an inherited one the pool
/// names, the stated one otherwise.
pub open spec fn resolved_requirement(pool: Map<Seq<char>, Option<Seq<char>>>, d: ManifestDependency) -> Option<Seq<char>> {
    if d.inherited && pool.contains_key(d.name@) {
        pool[d.name@]
    } else {
        chars_of(d.version_req)
    }
}

/// A recorded declaration, by its package, manifest, name, requirement and scope.
pub open spec fn declared_view(d: DeclaredDependency) -> (PackageId, Seq<char>, Seq<char>, Option<Seq<char>>, DependencyScope) {
    (d.package, d.manifest.0@, d.name@, chars_of(d.version_req), d.scope)
}

/// The package a manifest's declarations belong to; the implicit one where none.
pub open spec fn package_or_implicit(p: Option<PackageId>) -> PackageId {
    match p {
        Some(id) => id,
        None => PackageId(0),
    }
}

/// The first `k` declarations of file `i`'s manifest, as recorded.
pub open spec fn declared_in(
    deps: Seq<ManifestDependency>,
    package: PackageId,
    manifest: Seq<char>,
    pool: Map<Seq<char>, Option<Seq<char>>>,
    k: int,
) -> Seq<(PackageId, Seq<char>, Seq<char>, Option<Seq<char>>, DependencyScope)>
    decreases k,
{
    if k <= 0 {
        Seq::empty()
    } else {
        declared_in(deps, package, manifest, pool, k - 1).push(
            (package, manifest, deps[k - 1].name@, resolved_requirement(pool, deps[k - 1]), deps[k - 1].scope),
        )
    }
}

/// The declarations of the first `i` files' manifests, in file order, then in each
/// manifest's order.
pub open spec fn declared_upto(
    manifests: Seq<Option<ManifestFacts>>,
    paths: Seq<ProjectPath>,
    packages: Seq<Option<PackageId>>,
    pool: Map<Seq<char>, Option<Seq<char>>>,
    i: int,
) -> Seq<(PackageId, Seq<char>, Seq<char>, Option<Seq<char>>, DependencyScope)>
    decreases i,
{
    if i <= 0 {
        Seq::empty()
    } else {
        declared_upto(manifests, paths, packages, pool, i - 1) + match manifests[i - 1] {
            Some(f) => declared_in(
                f.dependencies@,
                package_or_implicit(packages[i - 1]),
                paths[i - 1].0@,
                pool,
                f.dependencies@.len() as int,
            ),
            None => Seq::empty(),
        }
    }
}

fn copy_requirement(v: &Option<String>) -> (r: Option<String>)
    ensures
        chars_of(r) == chars_of(*v),
{
    match v {
        Some(s) => Some(owned(s.as_str())),
        None => None,
    }
}

/// Every dependency the files' manifests declare (`manifests[i]` is file `i`'s, if it
/// is a manifest), in file order, each under the package its manifest declares (the
/// implicit package where none) and with an inherited requirement resolved against the
/// shared pool.
pub fn declared_dependencies(
    manifests: &[Option<ManifestFacts>],
    paths: &[ProjectPath],
    packages: &[Option<PackageId>],
) -> (r: Vec<DeclaredDependency>)
    requires
        manifests@.len() <= paths@.len(),
        manifests@.len() <= packages@.len(),
    ensures
        r@.map_values(|d: DeclaredDependency| declared_view(d)) == declared_upto(
            manifests@,
            paths@,
            packages@,
            pool_of(manifests@, manifests@.len() as int),
            manifests@.len() as int,
        ),
{
    let n = manifests.len();
    let mut pool: FxHashMap<String, Option<String>> = pool_new();
    let mut i: usize = 0;
    while i < n
        invariant
            n == manifests@.len(),
            i <= n,
            pool_entries(pool) == pool_of(manifests@, i as int),
        decreases n - i,
    {
        match &manifests[i] {
            Some(f) => {
                let ghost before = pool_entries(pool);
                let mut k: usize = 0;
                while k < f.workspace_dependencies.len()
                    invariant
                        k <= f.workspace_dependencies@.len(),
                        pool_entries(pool) == pool_after(before, f.workspace_dependencies@, k as int),
                    decreases f.workspace_dependencies@.len() - k,
                {
                    let dep = &f.workspace_dependencies[k];
                    pool_insert(&mut pool, dep.name.as_str(), copy_requirement(&dep.version_req));
                    k = k + 1;
                }
            },
            None => {},
        }
        i = i + 1;
    }
    let ghost full = pool_entries(pool);
    let mut out: Vec<DeclaredDependency> = Vec::new();
    let ghost view = |d: DeclaredDependency| declared_view(d);
    let mut i: usize = 0;
    while i < n
        invariant
            n == manifests@.len(),
            n <= paths@.len(),
            n <= packages@.len(),
            i <= n,
            full == pool_entries(pool),
            full == pool_of(manifests@, n as int),
            view == (|d: DeclaredDependency| declared_view(d)),
            out@.map_values(view) == declared_upto(manifests@, paths@, packages@, full, i as int),
        decreases n - i,
    {
        let ghost prefix = out@.map_values(view);
        match &manifests[i] {
            Some(f) => {
                let package = match packages[i] {
                    Some(id) => id,
                    None => PackageId(0),
                };
                let ghost start = out@;
                let mut k: usize = 0;
                while k < f.dependencies.len()
                    invariant
                        k <= f.dependencies@.len(),
                        i < n <= paths@.len(),
                        manifests@[i as int] == Some(*f),
                        full == pool_entries(pool),
                        view == (|d: DeclaredDependency| declared_view(d)),
                        package == package_or_implicit(packages@[i as int]),
                        start.len() <= out@.len(),
                        forall|q: int| 0 <= q < start.len() ==> out@[q] == start[q],
                        out@.map_values(view) == start.map_values(view) + declared_in(
                            f.dependencies@,
                            package,
                            paths@[i as int].0@,
                            full,
                            k as int,
                        ),
                    decreases f.dependencies@.len() - k,
                {
                    let dep = &f.dependencies[k];
                    let version_req = if dep.inherited {
                        match pool_get(&pool, dep.name.as_str()) {
                            Some(v) => v,
                            None => copy_requirement(&dep.version_req),
                        }
                    } else {
                        copy_requirement(&dep.version_req)
                    };
                    let ghost prev = out@;
                    out.push(
                        DeclaredDependency {
                            package,
                            manifest: ProjectPath(owned(paths[i].0.as_str())),
                            name: owned(dep.name.as_str()),
                            version_req,
                            scope: dep.scope,
                        },
                    );
                    proof {
                        assert(out@.map_values(view) =~= prev.map_values(view).push(view(out@[out@.len() - 1])));
                        assert(start.map_values(view) + declared_in(f.dependencies@, package, paths@[i as int].0@, full, k + 1)
                            =~= (start.map_values(view) + declared_in(
                            f.dependencies@,
                            package,
                            paths@[i as int].0@,
                            full,
                            k as int,
                        )).push(view(out@[out@.len() - 1])));
                    }
                    k = k + 1;
                }
                proof {
                    assert(start.map_values(view) == prefix);
                }
            },
            None => {
                proof {
                    assert(declared_upto(manifests@, paths@, packages@, full, i + 1) =~= declared_upto(
                        manifests@,
                        paths@,
                        packages@,
                        full,
                        i as int,
                    ));
                }
            },
        }
        i = i + 1;
    }
    out
}

/// The edge manifest root `r` of file `i` becomes: a whole-file root on the file it
/// names, when that file is in the graph (`index`); nothing otherwise.
pub open spec fn root_edge_of(i: int, r: ManifestRoot, index: Map<Seq<char>, u32>) -> Seq<(EdgeKind, Confidence, Option<Span>, FileId)> {
    if index.contains_key(r.target.0@) {
        seq![(EdgeKind::Root { kind: r.kind, target: NodeRef::File(FileId(index[r.target.0@])) }, r.confidence, None::<Span>, FileId(i as u32))]
    } else {
        Seq::empty()
    }
}

/// The edges of the first `k` roots of file `i`'s manifest.
pub open spec fn roots_in(i: int, roots: Seq<ManifestRoot>, index: Map<Seq<char>, u32>, k: int) -> Seq<
    (EdgeKind, Confidence, Option<Span>, FileId),
>
    decreases k,
{
    if k <= 0 {
        Seq::empty()
    } else {
        roots_in(i, roots, index, k - 1) + root_edge_of(i, roots[k - 1], index)
    }
}

/// The root edges of the first `i` files' manifests, in file order.
pub open spec fn root_edges_upto(manifests: Seq<Option<ManifestFacts>>, index: Map<Seq<char>, u32>, i: int) -> Seq<
    (EdgeKind, Confidence, Option<Span>, FileId),
>
    decreases i,
{
    if i <= 0 {
        Seq::empty()
    } else {
        root_edges_upto(manifests, index, i - 1) + match manifests[i - 1] {
            Some(f) => roots_in(i - 1, f.roots@, index, f.roots@.len() as int),
            None => Seq::empty(),
        }
    }
}

/// `m` with file `t` a library root at least as sure as `c`.
pub open spec fn raised(m: Map<u32, Confidence>, t: u32, c: Confidence) -> Map<u32, Confidence> {
    m.insert(
        t,
        if m.contains_key(t) && m[t].spec_rank() >= c.spec_rank() {
            m[t]
        } else {
            c
        },
    )
}

/// The library roots after the first `k` of `roots`: each production root on a graph
/// file raises that file.
pub open spec fn library_after(m: Map<u32, Confidence>, roots: Seq<ManifestRoot>, index: Map<Seq<char>, u32>, k: int) -> Map<
    u32,
    Confidence,
>
    decreases k,
{
    if k <= 0 {
        m
    } else {
        let before = library_after(m, roots, index, k - 1);
        let r = roots[k - 1];
        if r.kind == RootKind::Production && index.contains_key(r.target.0@) {
            raised(before, index[r.target.0@], r.confidence)
        } else {
            before
        }
    }
}

/// The library roots after the first `i` files' manifests.
pub open spec fn library_upto(
    manifests: Seq<Option<ManifestFacts>>,
    index: Map<Seq<char>, u32>,
    m: Map<u32, Confidence>,
    i: int,
) -> Map<u32, Confidence>
    decreases i,
{
    if i <= 0 {
        m
    } else {
        match manifests[i - 1] {
            Some(f) => library_after(library_upto(manifests, index, m, i - 1), f.roots@, index, f.roots@.len() as int),
            None => library_upto(manifests, index, m, i - 1),
        }
    }
}

/// An edge by kind, confidence, span and owner.
pub open spec fn root_view(e: Edge) -> (EdgeKind, Confidence, Option<Span>, FileId) {
    (e.kind, e.confidence, e.span, e.owner)
}

/// The entry points the files' manifests name (`manifests[i]` is file `i`'s, claimed
/// by the adapter `adapters[i]`), in file order: each one on a file in the graph
/// (`file_index`, path to file) becomes a whole-file root owned by the manifest, under
/// its adapter, and a production one raises its file among the library roots to the
/// surer of the two confidences. An entry point outside the graph is passed over.
pub fn anchor_manifest_roots(
    manifests: &[Option<ManifestFacts>],
    adapters: &[String],
    file_index: &FxHashMap<String, u32>,
    edges: &mut Vec<Edge>,
    library_roots: &mut FxHashMap<u32, Confidence>,
)
    requires
        manifests@.len() <= adapters@.len(),
        manifests@.len() <= 0x1_0000_0000,
    ensures
        final(edges)@.map_values(|e: Edge| root_view(e)) == old(edges)@.map_values(|e: Edge| root_view(e)) + root_edges_upto(
            manifests@,
            str_ids(*file_index),
            manifests@.len() as int,
        ),
        forall|q: int| 0 <= q < old(edges)@.len() ==> final(edges)@[q] == old(edges)@[q],
        forall|q: int|
            old(edges)@.len() <= q < final(edges)@.len() ==> (#[trigger] final(edges)@[q]).owner.0 < manifests@.len()
                && (final(edges)@[q].source matches Provenance::Adapter(a) && a@ == adapters@[final(edges)@[q].owner.0 as int]@),
        final(library_roots)@ == library_upto(manifests@, str_ids(*file_index), old(library_roots)@, manifests@.len() as int),
{
    let ghost index = str_ids(*file_index);
    let ghost view = |e: Edge| root_view(e);
    let ghost base = edges@;
    let ghost lib0 = library_roots@;
    let n = manifests.len();
    let mut i: usize = 0;
    while i < n
        invariant
            n == manifests@.len() <= adapters@.len(),
            n <= 0x1_0000_0000,
            i <= n,
            index == str_ids(*file_index),
            view == (|e: Edge| root_view(e)),
            base == old(edges)@,
            lib0 == old(library_roots)@,
            base.len() <= edges@.len(),
            forall|q: int| 0 <= q < base.len() ==> edges@[q] == base[q],
            forall|q: int|
                base.len() <= q < edges@.len() ==> (#[trigger] edges@[q]).owner.0 < i && (edges@[q].source matches Provenance::Adapter(a)
                    && a@ == adapters@[edges@[q].owner.0 as int]@),
            edges@.map_values(view) == base.map_values(view) + root_edges_upto(manifests@, index, i as int),
            library_roots@ == library_upto(manifests@, index, lib0, i as int),
        decreases n - i,
    {
        match &manifests[i] {
            Some(f) => {
                let ghost e0 = edges@.map_values(view);
                let ghost l0 = library_roots@;
                let mut k: usize = 0;
                while k < f.roots.len()
                    invariant
                        i < n <= adapters@.len(),
                        n <= 0x1_0000_0000,
                        manifests@[i as int] == Some(*f),
                        k <= f.roots@.len(),
                        index == str_ids(*file_index),
                        view == (|e: Edge| root_view(e)),
                        base.len() <= edges@.len(),
                        forall|q: int| 0 <= q < base.len() ==> edges@[q] == base[q],
                        forall|q: int|
                            base.len() <= q < edges@.len() ==> (#[trigger] edges@[q]).owner.0 < i + 1 && (edges@[q].source matches Provenance::Adapter(a)
                                && a@ == adapters@[edges@[q].owner.0 as int]@),
                        edges@.map_values(view) == e0 + roots_in(i as int, f.roots@, index, k as int),
                        library_roots@ == library_after(l0, f.roots@, index, k as int),
                    decreases f.roots@.len() - k,
                {
                    let root = &f.roots[k];
                    match str_ids_get(file_index, root.target.0.as_str()) {
                        Some(target) => {
                            let ghost prev = edges@;
                            edges.push(
                                Edge {
                                    kind: EdgeKind::Root { kind: root.kind, target: NodeRef::File(FileId(target)) },
                                    confidence: root.confidence,
                                    source: Provenance::Adapter(owned(adapters[i].as_str())),
                                    span: None,
                                    owner: FileId(i as u32),
                                },
                            );
                            proof {
                                assert(edges@.map_values(view) =~= prev.map_values(view).push(view(edges@[edges@.len() - 1])));
                                assert(e0 + roots_in(i as int, f.roots@, index, k + 1) =~= (e0 + roots_in(
                                    i as int,
                                    f.roots@,
                                    index,
                                    k as int,
                                )).push(view(edges@[edges@.len() - 1])));
                            }
                            if root.kind == RootKind::Production {
                                let raised_to = match confidences_get(library_roots, target) {
                                    Some(held) => if held.rank() >= root.confidence.rank() {
                                        held
                                    } else {
                                        root.confidence
                                    },
                                    None => root.confidence,
                                };
                                confidences_insert(library_roots, target, raised_to);
                            }
                        },
                        None => {
                            proof {
                                assert(e0 + roots_in(i as int, f.roots@, index, k + 1) =~= e0 + roots_in(
                                    i as int,
                                    f.roots@,
                                    index,
                                    k as int,
                                ));
                            }
                        },
                    }
                    k = k + 1;
                }
                proof {
                    assert(base.map_values(view) + root_edges_upto(manifests@, index, i + 1) =~= e0 + roots_in(
                        i as int,
                        f.roots@,
                        index,
                        f.roots@.len() as int,
                    ));
                }
            },
            None => {
                proof {
                    assert(root_edges_upto(manifests@, index, i + 1) =~= root_edges_upto(manifests@, index, i as int));
                }
            },
        }
        i = i + 1;
    }
}

} // verus!
