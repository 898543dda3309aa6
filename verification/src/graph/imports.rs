//! The import half of one file's resolution, beside its program invocations. Each
//! import the adapter resolved to a file in the graph becomes an import edge (and, where
//! the namespace escaped static tracking, a wildcard over the target), binds the names
//! it imports, and may put the target under a qualifier; each one that names a
//! dependency becomes a dependency import, claimed no more strongly than the import
//! itself was recognised.

use vstd::prelude::*;

use rustc_hash::FxHashMap;

use crate::fx::{
    qualifier_entries, qualifiers_contains, qualifiers_insert, qualifiers_new, str_ids, str_ids_get, str_ids_insert,
    str_ids_new, unit_symbols, unit_table_get,
};
use crate::graph::resolve::ids_below;
use crate::text::str_eq;
use crate::text::owned;
use crate::graph::DependencyNode;
use crate::vocab::{provenance_copy, provenance_eq, Confidence, DependencyId, Edge, EdgeKind, FileId, NodeRef, Provenance, Span};

verus! {

/// A name an import binds: the name it has in the target (`None` for the default
/// export) and the local name it takes.
#[derive(Debug, Clone)]
pub struct ImportBinding {
    pub imported: Option<String>,
    pub local: String,
}

/// One import a file makes, as resolution reads it.
#[derive(Debug, Clone)]
pub struct RawImport {
    pub specifier: String,
    pub bindings: Vec<ImportBinding>,
    /// The name the import gives the target's namespace, where it names one.
    pub local_alias: Option<String>,
    /// Every top-level name of the target's unit is visible bare (Swift's `import Kit`).
    pub module_names_visible: bool,
    pub span: Span,
    /// How sure the adapter is that this is an import at all.
    pub confidence: Confidence,
    /// The namespace escaped static tracking (`ns[key]`, `ns` passed along): every
    /// symbol in the target is plausibly used.
    pub opaque_namespace_use: bool,
}

/// What the claiming adapter resolved an import to: a file by path, a dependency by
/// name, both (a workspace member outside the importer's package), or neither (the
/// standard library, or nothing).
#[derive(Debug, Clone)]
pub struct ImportResolution {
    pub file: Option<(String, Confidence)>,
    pub dependency: Option<(String, Confidence)>,
}

/// An import of a dependency: its name, the strength of the claim, where, and by which
/// file under which adapter.
#[derive(Debug, Clone)]
pub struct DependencyImport {
    pub name: String,
    pub confidence: Confidence,
    pub span: Span,
    pub file: FileId,
    pub source: Provenance,
}

/// The weaker of two confidences.
pub open spec fn weaker(a: Confidence, b: Confidence) -> Confidence {
    if a.spec_rank() <= b.spec_rank() {
        a
    } else {
        b
    }
}

/// The edges import `imp` of file `i`, resolved as `res`, becomes, by kind, confidence,
/// span and owner.
pub open spec fn import_edges_of(
    i: int,
    imp: RawImport,
    res: ImportResolution,
    index: Map<Seq<char>, u32>,
) -> Seq<(EdgeKind, Confidence, Option<Span>, FileId)> {
    match res.file {
        Some((path, confidence)) => if index.contains_key(path@) {
            let to = FileId(index[path@]);
            seq![(EdgeKind::ImportsFile { from: FileId(i as u32), to }, confidence, Some(imp.span), FileId(i as u32))] + if imp.opaque_namespace_use {
                seq![(EdgeKind::Wildcard { from: to }, Confidence::Possible, Some(imp.span), FileId(i as u32))]
            } else {
                Seq::empty()
            }
        } else {
            Seq::empty()
        },
        None => Seq::empty(),
    }
}

/// The edges of the first `k` imports.
pub open spec fn import_edges_upto(
    i: int,
    imports: Seq<RawImport>,
    resolutions: Seq<ImportResolution>,
    index: Map<Seq<char>, u32>,
    k: int,
) -> Seq<(EdgeKind, Confidence, Option<Span>, FileId)>
    decreases k,
{
    if k <= 0 {
        Seq::empty()
    } else {
        import_edges_upto(i, imports, resolutions, index, k - 1) + import_edges_of(i, imports[k - 1], resolutions[k - 1], index)
    }
}

/// The dependency imports of the first `k` imports: name, confidence, span, file.
pub open spec fn dependency_imports_upto(
    i: int,
    imports: Seq<RawImport>,
    resolutions: Seq<ImportResolution>,
    k: int,
) -> Seq<(Seq<char>, Confidence, Span, FileId)>
    decreases k,
{
    if k <= 0 {
        Seq::empty()
    } else {
        let before = dependency_imports_upto(i, imports, resolutions, k - 1);
        match resolutions[k - 1].dependency {
            Some((name, confidence)) => before.push(
                (name@, weaker(confidence, imports[k - 1].confidence), imports[k - 1].span, FileId(i as u32)),
            ),
            None => before,
        }
    }
}

/// An edge by kind, confidence, span and owner.
pub open spec fn edge_view(e: Edge) -> (EdgeKind, Confidence, Option<Span>, FileId) {
    (e.kind, e.confidence, e.span, e.owner)
}

/// A dependency import by name, confidence, span and file.
pub open spec fn dependency_view(d: DependencyImport) -> (Seq<char>, Confidence, Span, FileId) {
    (d.name@, d.confidence, d.span, d.file)
}

pub(crate) fn adapter_source(adapter_id: &str) -> (r: Provenance)
    ensures
        r matches Provenance::Adapter(a) && a@ == adapter_id@,
{
    Provenance::Adapter(owned(adapter_id))
}

/// File `i`'s imports (`imports[k]` resolved by its adapter as `resolutions[k]`), in
/// order: the import edges onto graph files (`file_index`, path to file) with their
/// wildcards, and the dependency imports, each under the adapter `adapter_id`. A file
/// target outside the graph is passed over.
pub fn import_edges(
    i: usize,
    imports: &[RawImport],
    resolutions: &[ImportResolution],
    file_index: &FxHashMap<String, u32>,
    adapter_id: &str,
) -> (r: (Vec<Edge>, Vec<DependencyImport>))
    requires
        resolutions@.len() == imports@.len(),
        i <= u32::MAX,
    ensures
        r.0@.map_values(|e: Edge| edge_view(e)) == import_edges_upto(
            i as int,
            imports@,
            resolutions@,
            str_ids(*file_index),
            imports@.len() as int,
        ),
        forall|q: int| 0 <= q < r.0@.len() ==> ((#[trigger] r.0@[q]).source matches Provenance::Adapter(a) && a@ == adapter_id@),
        r.1@.map_values(|d: DependencyImport| dependency_view(d)) == dependency_imports_upto(
            i as int,
            imports@,
            resolutions@,
            imports@.len() as int,
        ),
        forall|q: int| 0 <= q < r.1@.len() ==> ((#[trigger] r.1@[q]).source matches Provenance::Adapter(a) && a@ == adapter_id@),
{
    let ghost index = str_ids(*file_index);
    let ghost ev = |e: Edge| edge_view(e);
    let ghost dv = |d: DependencyImport| dependency_view(d);
    let file_id = FileId(i as u32);
    let mut edges: Vec<Edge> = Vec::new();
    let mut deps: Vec<DependencyImport> = Vec::new();
    let mut k: usize = 0;
    while k < imports.len()
        invariant
            k <= imports@.len() == resolutions@.len(),
            i <= u32::MAX,
            file_id == FileId(i as u32),
            index == str_ids(*file_index),
            ev == (|e: Edge| edge_view(e)),
            dv == (|d: DependencyImport| dependency_view(d)),
            edges@.map_values(ev) == import_edges_upto(i as int, imports@, resolutions@, index, k as int),
            deps@.map_values(dv) == dependency_imports_upto(i as int, imports@, resolutions@, k as int),
            forall|q: int| 0 <= q < edges@.len() ==> ((#[trigger] edges@[q]).source matches Provenance::Adapter(a) && a@ == adapter_id@),
            forall|q: int| 0 <= q < deps@.len() ==> ((#[trigger] deps@[q]).source matches Provenance::Adapter(a) && a@ == adapter_id@),
        decreases imports@.len() - k,
    {
        let imp = &imports[k];
        let res = &resolutions[k];
        let ghost e0 = edges@;
        let ghost d0 = deps@;
        match &res.file {
            Some((path, confidence)) => match str_ids_get(file_index, path.as_str()) {
                Some(to) => {
                    edges.push(
                        Edge {
                            kind: EdgeKind::ImportsFile { from: file_id, to: FileId(to) },
                            confidence: *confidence,
                            source: adapter_source(adapter_id),
                            span: Some(imp.span),
                            owner: file_id,
                        },
                    );
                    if imp.opaque_namespace_use {
                        edges.push(
                            Edge {
                                kind: EdgeKind::Wildcard { from: FileId(to) },
                                confidence: Confidence::Possible,
                                source: adapter_source(adapter_id),
                                span: Some(imp.span),
                                owner: file_id,
                            },
                        );
                    }
                    proof {
                        assert(edges@.map_values(ev) =~= e0.map_values(ev) + import_edges_of(
                            i as int,
                            imports@[k as int],
                            resolutions@[k as int],
                            index,
                        ));
                    }
                },
                None => {
                    proof {
                        assert(import_edges_of(i as int, imports@[k as int], resolutions@[k as int], index) =~= Seq::empty());
                        assert(edges@.map_values(ev) =~= e0.map_values(ev) + import_edges_of(
                            i as int,
                            imports@[k as int],
                            resolutions@[k as int],
                            index,
                        ));
                    }
                },
            },
            None => {
                proof {
                    assert(edges@.map_values(ev) =~= e0.map_values(ev) + import_edges_of(
                        i as int,
                        imports@[k as int],
                        resolutions@[k as int],
                        index,
                    ));
                }
            },
        }
        match &res.dependency {
            Some((name, confidence)) => {
                let claimed = if confidence.rank() <= imp.confidence.rank() {
                    *confidence
                } else {
                    imp.confidence
                };
                deps.push(
                    DependencyImport {
                        name: owned(name.as_str()),
                        confidence: claimed,
                        span: imp.span,
                        file: file_id,
                        source: adapter_source(adapter_id),
                    },
                );
                proof {
                    assert(deps@.map_values(dv) =~= d0.map_values(dv).push(dv(deps@[deps@.len() - 1])));
                }
            },
            None => {},
        }
        k = k + 1;
    }
    (edges, deps)
}

/// The name a binding imports: its own, or `default`.
pub open spec fn exported_name(b: ImportBinding) -> Seq<char> {
    match b.imported {
        Some(n) => n@,
        None => "default"@,
    }
}

/// The symbol `name` names in file `to`: its own declaration first, then one of its
/// unit's top-level names (a Go import names a whole package directory).
pub open spec fn binding_symbol(
    tables: Seq<FxHashMap<String, u32>>,
    units: Map<Seq<char>, Map<Seq<char>, u32>>,
    file_unit: Seq<Option<String>>,
    to: int,
    name: Seq<char>,
) -> Option<u32> {
    if str_ids(tables[to]).contains_key(name) {
        Some(str_ids(tables[to])[name])
    } else {
        match file_unit[to] {
            Some(u) => if units.contains_key(u@) && units[u@].contains_key(name) {
                Some(units[u@][name])
            } else {
                None
            },
            None => None,
        }
    }
}

/// `bound` after the first `k` bindings of an import of file `to`: each binding that
/// names a symbol binds its local name to it, a later binding replacing an earlier one.
pub open spec fn bound_after(
    bound: Map<Seq<char>, u32>,
    bindings: Seq<ImportBinding>,
    tables: Seq<FxHashMap<String, u32>>,
    units: Map<Seq<char>, Map<Seq<char>, u32>>,
    file_unit: Seq<Option<String>>,
    to: int,
    k: int,
) -> Map<Seq<char>, u32>
    decreases k,
{
    if k <= 0 {
        bound
    } else {
        let before = bound_after(bound, bindings, tables, units, file_unit, to, k - 1);
        match binding_symbol(tables, units, file_unit, to, exported_name(bindings[k - 1])) {
            Some(s) => before.insert(bindings[k - 1].local@, s),
            None => before,
        }
    }
}

/// The graph file import `res` resolved to, if any.
pub open spec fn target_of(res: ImportResolution, index: Map<Seq<char>, u32>) -> Option<u32> {
    match res.file {
        Some((path, _)) => if index.contains_key(path@) {
            Some(index[path@])
        } else {
            None
        },
        None => None,
    }
}

/// The names the first `k` imports bind.
pub open spec fn bound_upto(
    imports: Seq<RawImport>,
    resolutions: Seq<ImportResolution>,
    index: Map<Seq<char>, u32>,
    tables: Seq<FxHashMap<String, u32>>,
    units: Map<Seq<char>, Map<Seq<char>, u32>>,
    file_unit: Seq<Option<String>>,
    k: int,
) -> Map<Seq<char>, u32>
    decreases k,
{
    if k <= 0 {
        Map::empty()
    } else {
        let before = bound_upto(imports, resolutions, index, tables, units, file_unit, k - 1);
        match target_of(resolutions[k - 1], index) {
            Some(to) => bound_after(before, imports[k - 1].bindings@, tables, units, file_unit, to as int, imports[k - 1].bindings@.len() as int),
            None => before,
        }
    }
}

/// The units whose names the first `k` imports make visible bare, each once, in the
/// order first made visible.
pub open spec fn visible_upto(
    imports: Seq<RawImport>,
    resolutions: Seq<ImportResolution>,
    index: Map<Seq<char>, u32>,
    file_unit: Seq<Option<String>>,
    k: int,
) -> Seq<Seq<char>>
    decreases k,
{
    if k <= 0 {
        Seq::empty()
    } else {
        let before = visible_upto(imports, resolutions, index, file_unit, k - 1);
        match target_of(resolutions[k - 1], index) {
            Some(to) => if imports[k - 1].module_names_visible {
                match file_unit[to as int] {
                    Some(u) => if before.contains(u@) {
                        before
                    } else {
                        before.push(u@)
                    },
                    None => before,
                }
            } else {
                before
            },
            None => before,
        }
    }
}

fn contains_text(v: &Vec<String>, s: &str) -> (r: bool)
    ensures
        r == crate::text::views(v@).contains(s@),
{
    let mut k: usize = 0;
    while k < v.len()
        invariant
            k <= v@.len(),
            forall|j: int| 0 <= j < k ==> v@[j]@ != s@,
        decreases v@.len() - k,
    {
        if str_eq(v[k].as_str(), s) {
            proof {
                assert(crate::text::views(v@)[k as int] == s@);
            }
            return true;
        }
        k = k + 1;
    }
    proof {
        if crate::text::views(v@).contains(s@) {
            let w = choose|w: int| 0 <= w < crate::text::views(v@).len() && crate::text::views(v@)[w] == s@;
            assert(v@[w]@ == s@);
        }
    }
    false
}

/// The names file `i`'s imports bind (`imports[k]` resolved as `resolutions[k]`), local
/// name to symbol, and the units whose every top-level name its imports make visible
/// bare. `tables[f]` is file `f`'s own names, `units` each unit's top-level names and
/// `file_unit[f]` file `f`'s unit.
pub fn import_bindings(
    imports: &[RawImport],
    resolutions: &[ImportResolution],
    file_index: &FxHashMap<String, u32>,
    tables: &[FxHashMap<String, u32>],
    units: &FxHashMap<String, FxHashMap<String, u32>>,
    file_unit: &[Option<String>],
) -> (r: (FxHashMap<String, u32>, Vec<String>))
    requires
        resolutions@.len() == imports@.len(),
        file_unit@.len() == tables@.len(),
        ids_below(str_ids(*file_index), tables@.len()),
    ensures
        str_ids(r.0) == bound_upto(
            imports@,
            resolutions@,
            str_ids(*file_index),
            tables@,
            unit_symbols(*units),
            file_unit@,
            imports@.len() as int,
        ),
        crate::text::views(r.1@) == visible_upto(imports@, resolutions@, str_ids(*file_index), file_unit@, imports@.len() as int),
{
    let ghost index = str_ids(*file_index);
    let ghost us = unit_symbols(*units);
    let mut bound = str_ids_new();
    let mut visible: Vec<String> = Vec::new();
    proof {
        assert(str_ids(bound) =~= Map::<Seq<char>, u32>::empty());
        assert(crate::text::views(visible@) =~= Seq::<Seq<char>>::empty());
    }
    let mut k: usize = 0;
    while k < imports.len()
        invariant
            k <= imports@.len() == resolutions@.len(),
            file_unit@.len() == tables@.len(),
            index == str_ids(*file_index),
            us == unit_symbols(*units),
            ids_below(index, tables@.len()),
            str_ids(bound) == bound_upto(imports@, resolutions@, index, tables@, us, file_unit@, k as int),
            crate::text::views(visible@) == visible_upto(imports@, resolutions@, index, file_unit@, k as int),
        decreases imports@.len() - k,
    {
        let imp = &imports[k];
        let target = match &resolutions[k].file {
            Some((path, _)) => str_ids_get(file_index, path.as_str()),
            None => None,
        };
        match target {
            Some(to) => {
                proof {
                    let (path, conf) = resolutions@[k as int].file->0;
                    assert(index.contains_key(path@));
                }
                let t = to as usize;
                let ghost b0 = str_ids(bound);
                let mut j: usize = 0;
                while j < imp.bindings.len()
                    invariant
                        j <= imp.bindings@.len(),
                        t < tables@.len() == file_unit@.len(),
                        us == unit_symbols(*units),
                        str_ids(bound) == bound_after(b0, imp.bindings@, tables@, us, file_unit@, t as int, j as int),
                    decreases imp.bindings@.len() - j,
                {
                    let b = &imp.bindings[j];
                    let name: &str = match &b.imported {
                        Some(n) => n.as_str(),
                        None => "default",
                    };
                    let own = str_ids_get(&tables[t], name);
                    let found = match own {
                        Some(s) => Some(s),
                        None => match &file_unit[t] {
                            Some(u) => match unit_table_get(units, u.as_str()) {
                                Some(table) => str_ids_get(table, name),
                                None => None,
                            },
                            None => None,
                        },
                    };
                    proof {
                        assert(name@ == exported_name(imp.bindings@[j as int]));
                        assert(found == binding_symbol(tables@, us, file_unit@, t as int, name@));
                    }
                    match found {
                        Some(s) => {
                            str_ids_insert(&mut bound, b.local.as_str(), s);
                        },
                        None => {},
                    }
                    j = j + 1;
                }
                if imp.module_names_visible {
                    match &file_unit[t] {
                        Some(u) => {
                            if !contains_text(&visible, u.as_str()) {
                                let ghost v0 = visible@;
                                visible.push(owned(u.as_str()));
                                proof {
                                    assert(crate::text::views(visible@) =~= crate::text::views(v0).push(u@));
                                }
                            }
                        },
                        None => {},
                    }
                }
            },
            None => {},
        }
        k = k + 1;
    }
    (bound, visible)
}

/// Whether `::` starts at `i` in `s`.
pub open spec fn separator_at(s: Seq<char>, i: int) -> bool {
    0 <= i && i + 1 < s.len() && s[i] == ':' && s[i + 1] == ':'
}

/// Where the last `::` that ends by position `j` starts.
pub open spec fn last_separator(s: Seq<char>, j: int) -> Option<int>
    decreases j,
{
    if j < 2 {
        None
    } else if separator_at(s, j - 2) {
        Some(j - 2)
    } else {
        last_separator(s, j - 1)
    }
}

/// A path specifier's last `::` segment: the whole specifier where it has no `::`.
pub open spec fn last_path_segment(s: Seq<char>) -> Seq<char> {
    match last_separator(s, s.len() as int) {
        Some(i) => s.skip(i + 2),
        None => s,
    }
}

/// The last `::` segment of `s`, as `rsplit("::").next()` gives it.
pub fn last_segment(s: &str) -> (r: String)
    ensures
        r@ == last_path_segment(s@),
{
    let n = s.unicode_len();
    let mut j: usize = n;
    while j >= 2
        invariant
            j <= n == s@.len(),
            last_separator(s@, n as int) == last_separator(s@, j as int),
        decreases j,
    {
        if s.get_char(j - 2) == ':' && s.get_char(j - 1) == ':' {
            proof {
                assert(separator_at(s@, j - 2));
            }
            let r = s.substring_char(j, n).to_owned();
            proof {
                assert(r@ =~= s@.skip(j as int));
            }
            return r;
        }
        j = j - 1;
    }
    s.to_owned()
}

/// The qualifier import `imp` puts the target's namespace under, and whether it
/// settles resolution: the import's own alias or the target's declared unit name
/// settle; a specifier's last path segment is weaker and does not.
pub open spec fn qualifier_of(imp: RawImport, unit_names: Seq<Option<String>>, to: int) -> (Seq<char>, bool) {
    match imp.local_alias {
        Some(a) => (a@, true),
        None => match unit_names[to] {
            Some(u) => (u@, true),
            None => (last_path_segment(imp.specifier@), false),
        },
    }
}

/// The qualifier table after the first `k` imports: the first import to claim a
/// qualifier keeps it.
pub open spec fn qualifiers_upto(
    imports: Seq<RawImport>,
    resolutions: Seq<ImportResolution>,
    index: Map<Seq<char>, u32>,
    unit_names: Seq<Option<String>>,
    k: int,
) -> Map<Seq<char>, (u32, bool)>
    decreases k,
{
    if k <= 0 {
        Map::empty()
    } else {
        let before = qualifiers_upto(imports, resolutions, index, unit_names, k - 1);
        match target_of(resolutions[k - 1], index) {
            Some(to) => {
                let (q, settles) = qualifier_of(imports[k - 1], unit_names, to as int);
                if before.contains_key(q) {
                    before
                } else {
                    before.insert(q, (to, settles))
                }
            },
            None => before,
        }
    }
}

/// The qualifiers file `i`'s imports put in-repo files under (`unit_names[f]` is the
/// unit name file `f` declares), each to its file and whether it settles a member
/// miss; the first import to claim a qualifier keeps it.
pub fn import_qualifiers(
    imports: &[RawImport],
    resolutions: &[ImportResolution],
    file_index: &FxHashMap<String, u32>,
    unit_names: &[Option<String>],
) -> (r: FxHashMap<String, (u32, bool)>)
    requires
        resolutions@.len() == imports@.len(),
        ids_below(str_ids(*file_index), unit_names@.len()),
    ensures
        qualifier_entries(r) == qualifiers_upto(
            imports@,
            resolutions@,
            str_ids(*file_index),
            unit_names@,
            imports@.len() as int,
        ),
{
    let ghost index = str_ids(*file_index);
    let mut table = qualifiers_new();
    proof {
        assert(qualifier_entries(table) =~= Map::<Seq<char>, (u32, bool)>::empty());
    }
    let mut k: usize = 0;
    while k < imports.len()
        invariant
            k <= imports@.len() == resolutions@.len(),
            index == str_ids(*file_index),
            ids_below(index, unit_names@.len()),
            qualifier_entries(table) == qualifiers_upto(imports@, resolutions@, index, unit_names@, k as int),
        decreases imports@.len() - k,
    {
        let imp = &imports[k];
        let target = match &resolutions[k].file {
            Some((path, _)) => str_ids_get(file_index, path.as_str()),
            None => None,
        };
        match target {
            Some(to) => {
                proof {
                    let (path, conf) = resolutions@[k as int].file->0;
                    assert(index.contains_key(path@));
                }
                let (q, settles) = match &imp.local_alias {
                    Some(a) => (owned(a.as_str()), true),
                    None => match &unit_names[to as usize] {
                        Some(u) => (owned(u.as_str()), true),
                        None => (last_segment(imp.specifier.as_str()), false),
                    },
                };
                proof {
                    assert((q@, settles) == qualifier_of(imports@[k as int], unit_names@, to as int));
                }
                if !qualifiers_contains(&table, q.as_str()) {
                    qualifiers_insert(&mut table, q.as_str(), (to, settles));
                }
            },
            None => {},
        }
        k = k + 1;
    }
    table
}

/// The edges of the first `k` programs file `i` invokes: each a workspace executable
/// known by name (`executables`) becomes a certain invocation of its entry file.
pub open spec fn invoked_upto(i: int, names: Seq<String>, executables: Map<Seq<char>, u32>, k: int) -> Seq<
    (EdgeKind, Confidence, Option<Span>, FileId),
>
    decreases k,
{
    if k <= 0 {
        Seq::empty()
    } else {
        let before = invoked_upto(i, names, executables, k - 1);
        if executables.contains_key(names[k - 1]@) {
            before.push(
                (
                    EdgeKind::InvokesFile { from: NodeRef::File(FileId(i as u32)), to: FileId(executables[names[k - 1]@]) },
                    Confidence::Certain,
                    None::<Span>,
                    FileId(i as u32),
                ),
            )
        } else {
            before
        }
    }
}

/// File `i`'s declared invocations of programs, in order: each one naming a workspace
/// executable becomes a certain edge to that executable's entry file under the adapter
/// `adapter_id`; an unknown name emits nothing.
pub fn invoked_program_edges(
    i: usize,
    invoked: &[String],
    executables: &FxHashMap<String, u32>,
    adapter_id: &str,
) -> (r: Vec<Edge>)
    requires
        i <= u32::MAX,
    ensures
        r@.map_values(|e: Edge| edge_view(e)) == invoked_upto(i as int, invoked@, str_ids(*executables), invoked@.len() as int),
        forall|q: int| 0 <= q < r@.len() ==> ((#[trigger] r@[q]).source matches Provenance::Adapter(a) && a@ == adapter_id@),
{
    let ghost ev = |e: Edge| edge_view(e);
    let mut edges: Vec<Edge> = Vec::new();
    let mut k: usize = 0;
    while k < invoked.len()
        invariant
            k <= invoked@.len(),
            i <= u32::MAX,
            ev == (|e: Edge| edge_view(e)),
            edges@.map_values(ev) == invoked_upto(i as int, invoked@, str_ids(*executables), k as int),
            forall|q: int| 0 <= q < edges@.len() ==> ((#[trigger] edges@[q]).source matches Provenance::Adapter(a) && a@ == adapter_id@),
        decreases invoked@.len() - k,
    {
        match str_ids_get(executables, invoked[k].as_str()) {
            Some(to) => {
                let ghost e0 = edges@;
                edges.push(
                    Edge {
                        kind: EdgeKind::InvokesFile { from: NodeRef::File(FileId(i as u32)), to: FileId(to) },
                        confidence: Confidence::Certain,
                        source: adapter_source(adapter_id),
                        span: None,
                        owner: FileId(i as u32),
                    },
                );
                proof {
                    assert(edges@.map_values(ev) =~= e0.map_values(ev).push(ev(edges@[edges@.len() - 1])));
                }
            },
            None => {},
        }
        k = k + 1;
    }
    edges
}

/// The dependency names the first `k` imports name, each once, in order of first
/// appearance.
pub open spec fn dependency_names_upto(imports: Seq<DependencyImport>, k: int) -> Seq<Seq<char>>
    decreases k,
{
    if k <= 0 {
        Seq::empty()
    } else {
        let before = dependency_names_upto(imports, k - 1);
        if before.contains(imports[k - 1].name@) {
            before
        } else {
            before.push(imports[k - 1].name@)
        }
    }
}

/// The names of a list of dependency nodes.
pub open spec fn dependency_names(nodes: Seq<DependencyNode>) -> Seq<Seq<char>> {
    nodes.map_values(|d: DependencyNode| d.name@)
}

/// Whether `e` is import `d` drawn onto dependency node `to` of `nodes`.
pub open spec fn dependency_edge(e: Edge, d: DependencyImport, nodes: Seq<DependencyNode>) -> bool {
    &&& e.kind matches EdgeKind::ImportsDependency { from, to } && from == d.file && to.0 < nodes.len()
        && nodes[to.0 as int].name@ == d.name@
    &&& e.confidence == d.confidence
    &&& e.span == Some(d.span)
    &&& e.owner == d.file
    &&& provenance_eq(e.source, d.source)
}

/// One node per dependency name the imports (every file's, in file order) name, in
/// order of first appearance, and each import drawn as an edge from its file onto its
/// name's node, claimed as the import was.
pub fn dependency_nodes(imports: &[DependencyImport]) -> (r: (Vec<DependencyNode>, Vec<Edge>))
    requires
        imports@.len() <= u32::MAX,
    ensures
        dependency_names(r.0@) == dependency_names_upto(imports@, imports@.len() as int),
        r.1@.len() == imports@.len(),
        forall|k: int| 0 <= k < imports@.len() ==> dependency_edge(#[trigger] r.1@[k], imports@[k], r.0@),
{
    let mut nodes: Vec<DependencyNode> = Vec::new();
    let mut index = str_ids_new();
    let mut edges: Vec<Edge> = Vec::new();
    let mut k: usize = 0;
    while k < imports.len()
        invariant
            k <= imports@.len() <= u32::MAX,
            dependency_names(nodes@) == dependency_names_upto(imports@, k as int),
            nodes@.len() <= k,
            forall|n: Seq<char>| #[trigger] str_ids(index).contains_key(n) <==> dependency_names(nodes@).contains(n),
            forall|n: Seq<char>|
                #[trigger] str_ids(index).contains_key(n) ==> str_ids(index)[n] < nodes@.len() && nodes@[str_ids(index)[n] as int].name@ == n,
            edges@.len() == k,
            forall|q: int| 0 <= q < k ==> dependency_edge(#[trigger] edges@[q], imports@[q], nodes@),
        decreases imports@.len() - k,
    {
        let d = &imports[k];
        let ghost before = nodes@;
        let ghost old_index = str_ids(index);
        let to = match str_ids_get(&index, d.name.as_str()) {
            Some(id) => id,
            None => {
                let id = nodes.len() as u32;
                nodes.push(DependencyNode { name: owned(d.name.as_str()) });
                str_ids_insert(&mut index, d.name.as_str(), id);
                proof {
                    assert(dependency_names(nodes@) =~= dependency_names(before).push(d.name@));
                    assert forall|n: Seq<char>| #[trigger] str_ids(index).contains_key(n) <==> dependency_names(nodes@).contains(n) by {
                        assert(dependency_names(nodes@)[before.len() as int] == d.name@);
                        if n != d.name@ {
                            assert(str_ids(index).contains_key(n) == old_index.contains_key(n));
                        }
                        if dependency_names(nodes@).contains(n) {
                            let w = choose|w: int| 0 <= w < dependency_names(nodes@).len() && dependency_names(nodes@)[w] == n;
                            if w < before.len() {
                                assert(dependency_names(before)[w] == n);
                            }
                        }
                        if dependency_names(before).contains(n) {
                            let w = choose|w: int| 0 <= w < dependency_names(before).len() && dependency_names(before)[w] == n;
                            assert(dependency_names(nodes@)[w] == n);
                        }
                    }
                    assert forall|n: Seq<char>| #[trigger] str_ids(index).contains_key(n) implies str_ids(index)[n] < nodes@.len()
                        && nodes@[str_ids(index)[n] as int].name@ == n by {
                        if n != d.name@ {
                            assert(nodes@[str_ids(index)[n] as int] == before[str_ids(index)[n] as int]);
                        }
                    }
                    assert forall|q: int| 0 <= q < k implies dependency_edge(#[trigger] edges@[q], imports@[q], nodes@) by {
                        assert(dependency_edge(edges@[q], imports@[q], before));
                        if let EdgeKind::ImportsDependency { from, to } = edges@[q].kind {
                            assert(nodes@[to.0 as int] == before[to.0 as int]);
                        }
                    }
                }
                id
            },
        };
        let ghost prev_edges = edges@;
        edges.push(
            Edge {
                kind: EdgeKind::ImportsDependency { from: d.file, to: DependencyId(to) },
                confidence: d.confidence,
                source: provenance_copy(&d.source),
                span: Some(d.span),
                owner: d.file,
            },
        );
        proof {
            assert forall|q: int| 0 <= q < k + 1 implies dependency_edge(#[trigger] edges@[q], imports@[q], nodes@) by {
                if q < k {
                    assert(edges@[q] == prev_edges[q]);
                }
            }
        }
        k = k + 1;
    }
    (nodes, edges)
}

} // verus!
