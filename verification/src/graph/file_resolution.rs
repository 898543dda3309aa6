//! One file's resolution, whole: its program invocations, its imports (edges, the
//! dependency imports, the names they bind, the qualifiers and visible units they
//! give), then its references resolved against those, then its dynamic constructs,
//! in that order.

use vstd::prelude::*;

use rustc_hash::FxHashMap;

use crate::fx::{qualifier_entries, str_ids, str_lists, unit_symbols};
use crate::graph::imports::{
    bound_after, bound_upto, binding_symbol, qualifier_of, dependency_imports_upto, dependency_view, import_bindings, import_edges,
    import_edges_upto, import_qualifiers, invoked_program_edges, invoked_upto, qualifiers_upto, target_of, visible_upto,
    DependencyImport, ImportBinding, ImportResolution, RawImport,
};
use crate::graph::references::{
    all_from, dynamic_edges, dynamic_edges_upto, edge_views, reference_edges, reference_edges_upto, world_wf,
    RawDynamic, RawReference, ReferenceWorld,
};
use crate::graph::resolve::{ids_below, tables_wf, ResolveTables};
use crate::graph::FileNode;
use crate::text::views;
use crate::vocab::{Edge, Provenance, VisibilityRung};

verus! {

/// What one file's resolution reads of its own facts.
#[derive(Debug, Clone)]
pub struct FileResolutionFacts {
    /// The workspace programs the file invokes, by name.
    pub invoked_executables: Vec<String>,
    pub imports: Vec<RawImport>,
    /// What the claiming adapter resolved each import to.
    pub resolutions: Vec<ImportResolution>,
    pub references: Vec<RawReference>,
    pub dynamics: Vec<RawDynamic>,
}

/// The world a file's references resolve in: what its imports bind, the qualifiers and
/// visible units they give, and the project's tables.
pub open spec fn file_world(
    facts: FileResolutionFacts,
    index: Map<Seq<char>, u32>,
    tables: Seq<FxHashMap<String, u32>>,
    unit_names: Seq<Option<String>>,
    file_unit: Seq<Option<String>>,
    unit_tables: Map<Seq<char>, Map<Seq<char>, u32>>,
    members: Map<Seq<char>, Seq<u32>>,
    files: Seq<FileNode>,
    ladders: Seq<(String, Vec<VisibilityRung>)>,
) -> ReferenceWorld {
    let n = facts.imports@.len() as int;
    ReferenceWorld {
        bound: bound_upto(facts.imports@, facts.resolutions@, index, tables, unit_tables, file_unit, n),
        qualifiers: qualifiers_upto(facts.imports@, facts.resolutions@, index, unit_names, n),
        units: file_unit,
        unit_tables,
        members,
        visible: visible_upto(facts.imports@, facts.resolutions@, index, file_unit, n),
        files,
        ladders,
    }
}

/// Every unit table names symbols below `count`.
pub open spec fn units_below(unit_tables: Map<Seq<char>, Map<Seq<char>, u32>>, count: nat) -> bool {
    forall|u: Seq<char>| #[trigger] unit_tables.contains_key(u) ==> ids_below(unit_tables[u], count)
}

/// Every member list names symbols below `count`.
pub open spec fn members_below(members: Map<Seq<char>, Seq<u32>>, count: nat) -> bool {
    forall|k: Seq<char>, x: int|
        #![trigger members[k][x]]
        members.contains_key(k) && 0 <= x < members[k].len() ==> members[k][x] < count
}

proof fn lemma_bound_after_below(
    bound: Map<Seq<char>, u32>,
    bindings: Seq<ImportBinding>,
    tables: Seq<FxHashMap<String, u32>>,
    units: Map<Seq<char>, Map<Seq<char>, u32>>,
    file_unit: Seq<Option<String>>,
    to: int,
    k: int,
    count: nat,
)
    requires
        0 <= to < tables.len(),
        ids_below(str_ids(tables[to]), count),
        units_below(units, count),
        ids_below(bound, count),
    ensures
        ids_below(bound_after(bound, bindings, tables, units, file_unit, to, k), count),
    decreases k,
{
    if k > 0 {
        lemma_bound_after_below(bound, bindings, tables, units, file_unit, to, k - 1, count);
        let before = bound_after(bound, bindings, tables, units, file_unit, to, k - 1);
        let name = crate::graph::imports::exported_name(bindings[k - 1]);
        match binding_symbol(tables, units, file_unit, to, name) {
            Some(s) => {
                if !str_ids(tables[to]).contains_key(name) {
                    let u = file_unit[to]->0;
                    assert(units.contains_key(u@));
                    assert(ids_below(units[u@], count));
                }
                assert(s < count);
                assert forall|key: Seq<char>| #[trigger] before.insert(bindings[k - 1].local@, s).contains_key(key) implies before.insert(
                    bindings[k - 1].local@,
                    s,
                )[key] < count by {
                    if key != bindings[k - 1].local@ {
                        assert(before.contains_key(key));
                    }
                }
            },
            None => {},
        }
    }
}

proof fn lemma_bound_below(
    imports: Seq<RawImport>,
    resolutions: Seq<ImportResolution>,
    index: Map<Seq<char>, u32>,
    tables: Seq<FxHashMap<String, u32>>,
    units: Map<Seq<char>, Map<Seq<char>, u32>>,
    file_unit: Seq<Option<String>>,
    k: int,
    count: nat,
)
    requires
        ids_below(index, tables.len()),
        forall|f: int| 0 <= f < tables.len() ==> ids_below(str_ids(#[trigger] tables[f]), count),
        units_below(units, count),
    ensures
        ids_below(bound_upto(imports, resolutions, index, tables, units, file_unit, k), count),
    decreases k,
{
    if k > 0 {
        lemma_bound_below(imports, resolutions, index, tables, units, file_unit, k - 1, count);
        let before = bound_upto(imports, resolutions, index, tables, units, file_unit, k - 1);
        match target_of(resolutions[k - 1], index) {
            Some(to) => {
                let (path, _c) = resolutions[k - 1].file->0;
                assert(index.contains_key(path@));
                assert(to < tables.len());
                lemma_bound_after_below(
                    before,
                    imports[k - 1].bindings@,
                    tables,
                    units,
                    file_unit,
                    to as int,
                    imports[k - 1].bindings@.len() as int,
                    count,
                );
            },
            None => {},
        }
    }
}

proof fn lemma_qualifiers_below(
    imports: Seq<RawImport>,
    resolutions: Seq<ImportResolution>,
    index: Map<Seq<char>, u32>,
    unit_names: Seq<Option<String>>,
    k: int,
    n: nat,
)
    requires
        ids_below(index, n),
    ensures
        forall|q: Seq<char>|
            #[trigger] qualifiers_upto(imports, resolutions, index, unit_names, k).contains_key(q) ==> qualifiers_upto(
                imports,
                resolutions,
                index,
                unit_names,
                k,
            )[q].0 < n,
    decreases k,
{
    if k > 0 {
        lemma_qualifiers_below(imports, resolutions, index, unit_names, k - 1, n);
        let before = qualifiers_upto(imports, resolutions, index, unit_names, k - 1);
        let after = qualifiers_upto(imports, resolutions, index, unit_names, k);
        match target_of(resolutions[k - 1], index) {
            Some(to) => {
                let (path, _c) = resolutions[k - 1].file->0;
                assert(index.contains_key(path@));
                assert(to < n);
                let (q0, settles) = qualifier_of(imports[k - 1], unit_names, to as int);
                assert forall|q: Seq<char>| #[trigger] after.contains_key(q) implies after[q].0 < n by {
                    if before.contains_key(q0) || q != q0 {
                        assert(before.contains_key(q));
                    }
                }
            },
            None => {},
        }
    }
}

/// File `i`'s edges under adapter `adapter_id`, in order — its program invocations
/// (`executables`: program name to entry file), its import edges onto graph files
/// (`file_index`: path to file), its references, its dynamic constructs — and its
/// dependency imports. Its references resolve against the names and qualifiers its
/// imports give (`unit_names[f]` is the unit name file `f` declares, `file_unit[f]`
/// the unit it belongs to, `unit_tables` each unit's top-level names) and the
/// project's tables.
pub fn resolve_file(
    i: usize,
    facts: &FileResolutionFacts,
    file_index: &FxHashMap<String, u32>,
    executables: &FxHashMap<String, u32>,
    unit_names: &[Option<String>],
    file_unit: &[Option<String>],
    unit_tables: &FxHashMap<String, FxHashMap<String, u32>>,
    member_by_name: &FxHashMap<String, Vec<u32>>,
    files: &[FileNode],
    ladders: &Vec<(String, Vec<VisibilityRung>)>,
    t: &ResolveTables,
    adapter_id: &str,
) -> (r: (Vec<Edge>, Vec<DependencyImport>))
    requires
        tables_wf(*t),
        i < t.symbol_by_name_per_file@.len() <= u32::MAX,
        facts.resolutions@.len() == facts.imports@.len(),
        unit_names@.len() == t.symbol_by_name_per_file@.len(),
        file_unit@.len() == t.symbol_by_name_per_file@.len(),
        files@.len() == t.symbol_by_name_per_file@.len(),
        ids_below(str_ids(*file_index), t.symbol_by_name_per_file@.len()),
        units_below(unit_symbols(*unit_tables), t.symbols@.len()),
        members_below(str_lists(*member_by_name), t.symbols@.len()),
    ensures
        edge_views(r.0@) == invoked_upto(
            i as int,
            facts.invoked_executables@,
            str_ids(*executables),
            facts.invoked_executables@.len() as int,
        ) + import_edges_upto(
            i as int,
            facts.imports@,
            facts.resolutions@,
            str_ids(*file_index),
            facts.imports@.len() as int,
        ) + reference_edges_upto(
            *t,
            file_world(
                *facts,
                str_ids(*file_index),
                t.symbol_by_name_per_file@,
                unit_names@,
                file_unit@,
                unit_symbols(*unit_tables),
                str_lists(*member_by_name),
                files@,
                ladders@,
            ),
            i as int,
            facts.references@,
            facts.references@.len() as int,
        ) + dynamic_edges_upto(i as int, files@, facts.dynamics@, facts.dynamics@.len() as int),
        all_from(r.0@, adapter_id@),
        r.1@.map_values(|d: DependencyImport| dependency_view(d)) == dependency_imports_upto(
            i as int,
            facts.imports@,
            facts.resolutions@,
            facts.imports@.len() as int,
        ),
        forall|q: int| 0 <= q < r.1@.len() ==> ((#[trigger] r.1@[q]).source matches Provenance::Adapter(a) && a@ == adapter_id@),
{
    let ghost w = file_world(
        *facts,
        str_ids(*file_index),
        t.symbol_by_name_per_file@,
        unit_names@,
        file_unit@,
        unit_symbols(*unit_tables),
        str_lists(*member_by_name),
        files@,
        ladders@,
    );
    let mut edges = invoked_program_edges(i, &facts.invoked_executables, executables, adapter_id);
    let (mut imported, deps) = import_edges(i, &facts.imports, &facts.resolutions, file_index, adapter_id);
    let (bound, visible) = import_bindings(
        &facts.imports,
        &facts.resolutions,
        file_index,
        t.symbol_by_name_per_file,
        unit_tables,
        file_unit,
    );
    let qualifiers = import_qualifiers(&facts.imports, &facts.resolutions, file_index, unit_names);
    proof {
        assert forall|f: int| 0 <= f < t.symbol_by_name_per_file@.len() implies ids_below(
            str_ids(#[trigger] t.symbol_by_name_per_file@[f]),
            t.symbols@.len(),
        ) by {}
        lemma_bound_below(
            facts.imports@,
            facts.resolutions@,
            str_ids(*file_index),
            t.symbol_by_name_per_file@,
            unit_symbols(*unit_tables),
            file_unit@,
            facts.imports@.len() as int,
            t.symbols@.len(),
        );
        lemma_qualifiers_below(
            facts.imports@,
            facts.resolutions@,
            str_ids(*file_index),
            unit_names@,
            facts.imports@.len() as int,
            t.symbol_by_name_per_file@.len(),
        );
        assert(world_wf(*t, w));
    }
    let mut referenced = reference_edges(
        i,
        &facts.references,
        &bound,
        &qualifiers,
        file_unit,
        unit_tables,
        member_by_name,
        &visible,
        files,
        ladders,
        t,
        adapter_id,
    );
    let mut dynamic = dynamic_edges(i, &facts.dynamics, files, adapter_id);
    let ghost e1 = edges@;
    let ghost e2 = imported@;
    let ghost e3 = referenced@;
    let ghost e4 = dynamic@;
    edges.append(&mut imported);
    edges.append(&mut referenced);
    edges.append(&mut dynamic);
    proof {
        assert(edges@ == e1 + e2 + e3 + e4);
        assert(edge_views(e1) =~= e1.map_values(|e: Edge| crate::graph::imports::edge_view(e)));
        assert(edge_views(e2) =~= e2.map_values(|e: Edge| crate::graph::imports::edge_view(e)));
        assert(edge_views(edges@) =~= edge_views(e1) + edge_views(e2) + edge_views(e3) + edge_views(e4));
        assert forall|q: int| 0 <= q < edges@.len() implies ((#[trigger] edges@[q]).source matches Provenance::Adapter(a)
            && a@ == adapter_id@) by {
            if q < e1.len() {
                assert(edges@[q] == e1[q]);
            } else if q < e1.len() + e2.len() {
                assert(edges@[q] == e2[q - e1.len()]);
            } else if q < e1.len() + e2.len() + e3.len() {
                assert(edges@[q] == e3[q - e1.len() - e2.len()]);
            } else {
                assert(edges@[q] == e4[q - e1.len() - e2.len() - e3.len()]);
            }
        }
    }
    (edges, deps)
}

} // verus!
