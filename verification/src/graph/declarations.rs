//! One file's declarations as graph edges. Each declaration is declared by its file;
//! a constructor is kept exactly as alive as its type; a declaration inside a test
//! region is a test root; an exported declaration of a manifest-rooted file is
//! production API; a test- or tooling-role file's declarations are roots of that
//! role. In-source roots land on every declaration sharing the rooted name, and a
//! production entry point in a test or tooling file is capped to the file's role.

use vstd::prelude::*;

use rustc_hash::FxHashMap;

use crate::fx::{confidences_remove, str_ids, str_ids_get, str_lists, str_lists_get, str_lists_new, str_lists_push};
use crate::graph::surface::rung_surface_transitive;
use crate::graph::{in_test_region, span_in_test_region, FileNode, SymbolKind, SymbolMetrics, SymbolNode};
use crate::text::{join3, owned, str_eq};
use crate::vocab::{
    provenance_copy, provenance_eq, Confidence, Edge, EdgeKind, FileClass, FileId, FileRole, NodeRef,
    Provenance, RefKind, RootKind, Span, SymbolId, VisibilityLevel, VisibilityRung,
};

verus! {

/// One declaration an adapter extracted from a file.
#[derive(Debug, Clone)]
pub struct Declaration {
    pub name: String,
    pub kind: SymbolKind,
    pub span: Span,
    pub exported: bool,
    pub visibility: VisibilityLevel,
    /// The type this declaration is a member of, by name.
    pub member_of: Option<String>,
    /// The extent of the declaration's signature, where the adapter reports one.
    pub signature_span: Option<Span>,
    /// Declared inside a nested scope (a function body, a block).
    pub nested_scope: bool,
    /// Its visibility comes from its container rather than its own modifier.
    pub visibility_inherited: bool,
    /// Machinery invokes it (a trait method the language calls, a framework hook).
    pub implicitly_invoked: bool,
}

/// One callable shape's measurements, named by the symbol it belongs to.
#[derive(Debug, Clone)]
pub struct FunctionFacts {
    pub symbol: String,
    pub shape_span: Span,
    pub shape_ordinal: u16,
    pub cyclomatic: u32,
    pub loc: u32,
    pub token_count: u32,
    pub fingerprints: Vec<u64>,
    pub body_is_construction: bool,
}

/// What an in-source root names: the whole file, or every declaration of a name
/// (`Owner.member` for a member).
#[derive(Debug, Clone)]
pub enum RawRootTarget {
    WholeFile,
    Declaration(String),
}

/// An entry point the adapter found in the file's own source.
#[derive(Debug, Clone)]
pub struct RawRoot {
    pub kind: RootKind,
    pub target: RawRootTarget,
    pub confidence: Confidence,
}

/// What an adapter extracted from one file, as far as declaration emission reads it.
#[derive(Debug, Clone)]
pub struct FileFacts {
    pub declarations: Vec<Declaration>,
    /// Sub-file test regions.
    pub test_spans: Vec<Span>,
    pub functions: Vec<FunctionFacts>,
    pub roots: Vec<RawRoot>,
}

/// The edges and callable metrics one file contributes.
#[derive(Debug)]
pub struct DeclarationEmissions {
    pub edges: Vec<Edge>,
    pub metrics: Vec<(SymbolId, SymbolMetrics)>,
}

/// What tells one emitted edge from another: its kind, confidence and span.
pub open spec fn edge_shape(e: Edge) -> (EdgeKind, Confidence, Option<Span>) {
    (e.kind, e.confidence, e.span)
}

/// Whether `e` is of the adapter `adapter`'s provenance and owned by file `owner`.
pub open spec fn from_adapter(e: Edge, adapter: Seq<char>, owner: u32) -> bool {
    &&& e.owner == FileId(owner)
    &&& match e.source {
        Provenance::Adapter(s) => s@ == adapter,
        _ => false,
    }
}

/// Whether a declaration at `vis` can travel through re-exports out of its package.
pub open spec fn surface_ok(ladder: Option<&[VisibilityRung]>, vis: VisibilityLevel) -> bool {
    match ladder {
        Some(l) => vis.0 >= l@.len() || l@[vis.0 as int].surface_transitive,
        None => true,
    }
}

/// The edges declaration `decl`, symbol `symbol` of file `file`, contributes: it is
/// declared; a constructor is referenced by its container; inside a test region it is
/// a test root; exported API of a manifest-rooted file is a production root; in a
/// test-role file every declaration, in a tooling-role file every exported one, is a
/// root of the file's role.
pub open spec fn declaration_edges(
    file: u32,
    symbol: u32,
    decl: Declaration,
    bare: Map<Seq<char>, u32>,
    test_spans: Seq<Span>,
    ladder: Option<&[VisibilityRung]>,
    library_root: Option<Confidence>,
    role_root: Option<RootKind>,
) -> Seq<(EdgeKind, Confidence, Option<Span>)> {
    let sym = SymbolId(symbol);
    let span = Some(decl.span);
    let declares = seq![(EdgeKind::Declares { file: FileId(file), symbol: sym }, Confidence::Certain, span)];
    let constructor = if decl.kind == SymbolKind::Constructor && decl.member_of is Some && bare.contains_key(
        decl.member_of->0@,
    ) {
        seq![
            (
                EdgeKind::References {
                    from: NodeRef::Symbol(SymbolId(bare[decl.member_of->0@])),
                    to: sym,
                    kind: RefKind::Call,
                },
                Confidence::Certain,
                span,
            ),
        ]
    } else {
        Seq::empty()
    };
    let test_root = if in_test_region(test_spans, decl.span) {
        seq![(EdgeKind::Root { kind: RootKind::Test, target: NodeRef::Symbol(sym) }, Confidence::Certain, span)]
    } else {
        Seq::empty()
    };
    let library = if decl.exported && surface_ok(ladder, decl.visibility) && library_root is Some {
        seq![(EdgeKind::Root { kind: RootKind::Production, target: NodeRef::Symbol(sym) }, library_root->0, span)]
    } else {
        Seq::empty()
    };
    let role = if role_root is Some && (role_root->0 == RootKind::Test || decl.exported) {
        seq![(EdgeKind::Root { kind: role_root->0, target: NodeRef::Symbol(sym) }, Confidence::Probable, span)]
    } else {
        Seq::empty()
    };
    declares + constructor + test_root + library + role
}

/// The edges of the first `k` declarations, in declaration order.
pub open spec fn all_declaration_edges(
    file: u32,
    first_symbol: u32,
    facts: FileFacts,
    bare: Map<Seq<char>, u32>,
    ladder: Option<&[VisibilityRung]>,
    library_root: Option<Confidence>,
    role_root: Option<RootKind>,
    k: int,
) -> Seq<(EdgeKind, Confidence, Option<Span>)>
    decreases k,
{
    if k <= 0 {
        Seq::empty()
    } else {
        all_declaration_edges(file, first_symbol, facts, bare, ladder, library_root, role_root, k - 1)
            + declaration_edges(
            file,
            (first_symbol + k - 1) as u32,
            facts.declarations@[k - 1],
            bare,
            facts.test_spans@,
            ladder,
            library_root,
            role_root,
        )
    }
}

/// An edge of the given shape, of the adapter's provenance, owned by `file`.
fn adapter_edge(kind: EdgeKind, confidence: Confidence, span: Option<Span>, adapter_id: &str, file: u32) -> (r: Edge)
    ensures
        edge_shape(r) == (kind, confidence, span),
        from_adapter(r, adapter_id@, file),
{
    Edge { kind, confidence, source: Provenance::Adapter(owned(adapter_id)), span, owner: FileId(file) }
}

/// Appends declaration `decl`'s edges.
fn push_declaration_edges(
    edges: &mut Vec<Edge>,
    file: u32,
    symbol: u32,
    decl: &Declaration,
    adapter_id: &str,
    bare_table: &FxHashMap<String, u32>,
    test_spans: &[Span],
    ladder: Option<&[VisibilityRung]>,
    library_root: Option<Confidence>,
    role_root: Option<RootKind>,
)
    ensures
        final(edges)@.map_values(|e: Edge| edge_shape(e)) == old(edges)@.map_values(|e: Edge| edge_shape(e))
            + declaration_edges(file, symbol, *decl, str_ids(*bare_table), test_spans@, ladder, library_root, role_root),
        forall|q: int| 0 <= q < old(edges)@.len() ==> final(edges)@[q] == old(edges)@[q],
        forall|q: int|
            old(edges)@.len() <= q < final(edges)@.len() ==> from_adapter(#[trigger] final(edges)@[q], adapter_id@, file),
{
    let ghost before = edges@;
    let ghost want = declaration_edges(file, symbol, *decl, str_ids(*bare_table), test_spans@, ladder, library_root, role_root);
    let sym = SymbolId(symbol);
    let span = Some(decl.span);
    let mut added: Ghost<Seq<(EdgeKind, Confidence, Option<Span>)>> = Ghost(Seq::empty());
    edges.push(adapter_edge(EdgeKind::Declares { file: FileId(file), symbol: sym }, Confidence::Certain, span, adapter_id, file));
    proof {
        added@ = seq![(EdgeKind::Declares { file: FileId(file), symbol: sym }, Confidence::Certain, span)];
    }
    if decl.kind == SymbolKind::Constructor {
        match &decl.member_of {
            Some(owner) => {
                match str_ids_get(bare_table, owner.as_str()) {
                    Some(container) => {
                        let kind = EdgeKind::References { from: NodeRef::Symbol(SymbolId(container)), to: sym, kind: RefKind::Call };
                        edges.push(adapter_edge(kind, Confidence::Certain, span, adapter_id, file));
                        proof {
                            added@ = added@.push((kind, Confidence::Certain, span));
                        }
                    },
                    None => {},
                }
            },
            None => {},
        }
    }
    if span_in_test_region(test_spans, decl.span) {
        let kind = EdgeKind::Root { kind: RootKind::Test, target: NodeRef::Symbol(sym) };
        edges.push(adapter_edge(kind, Confidence::Certain, span, adapter_id, file));
        proof {
            added@ = added@.push((kind, Confidence::Certain, span));
        }
    }
    if decl.exported && rung_surface_transitive(ladder, decl.visibility) {
        match library_root {
            Some(confidence) => {
                let kind = EdgeKind::Root { kind: RootKind::Production, target: NodeRef::Symbol(sym) };
                edges.push(adapter_edge(kind, confidence, span, adapter_id, file));
                proof {
                    added@ = added@.push((kind, confidence, span));
                }
            },
            None => {},
        }
    }
    match role_root {
        Some(kind) => {
            if kind == RootKind::Test || decl.exported {
                let edge_kind = EdgeKind::Root { kind, target: NodeRef::Symbol(sym) };
                edges.push(adapter_edge(edge_kind, Confidence::Probable, span, adapter_id, file));
                proof {
                    added@ = added@.push((edge_kind, Confidence::Probable, span));
                }
            }
        },
        None => {},
    }
    proof {
        assert(added@ =~= want);
        assert(edges@.map_values(|e: Edge| edge_shape(e)) =~= before.map_values(|e: Edge| edge_shape(e)) + want);
    }
}

/// The key an in-source root names a declaration by: `Owner.member` for a member,
/// the bare name otherwise.
pub open spec fn declaration_key(d: Declaration) -> Seq<char> {
    match d.member_of {
        Some(owner) => owner@ + "."@ + d.name@,
        None => d.name@,
    }
}

/// The indices, in order, of the first `k` declarations keyed `name`.
pub open spec fn declarations_named(decls: Seq<Declaration>, name: Seq<char>, k: int) -> Seq<int>
    decreases k,
{
    if k <= 0 {
        Seq::empty()
    } else if declaration_key(decls[k - 1]) == name {
        declarations_named(decls, name, k - 1).push(k - 1)
    } else {
        declarations_named(decls, name, k - 1)
    }
}

/// A root's kind once the file's role has spoken: a production entry point in a test or
/// tooling file is a root of that role; any other kind stands.
pub open spec fn capped_kind(kind: RootKind, role_root: Option<RootKind>) -> RootKind {
    if kind == RootKind::Production && role_root is Some {
        role_root->0
    } else {
        kind
    }
}

/// The edges in-source root `root` of file `file` becomes: one on the file, or one on
/// each declaration the root names, spanning that symbol.
pub open spec fn raw_root_edges(
    file: u32,
    first_symbol: u32,
    root: RawRoot,
    decls: Seq<Declaration>,
    symbols: Seq<SymbolNode>,
    role_root: Option<RootKind>,
) -> Seq<(EdgeKind, Confidence, Option<Span>)> {
    let kind = capped_kind(root.kind, role_root);
    match root.target {
        RawRootTarget::WholeFile => seq![
            (EdgeKind::Root { kind, target: NodeRef::File(FileId(file)) }, root.confidence, None::<Span>),
        ],
        RawRootTarget::Declaration(name) => declarations_named(decls, name@, decls.len() as int).map_values(
            |d: int|
                (
                    EdgeKind::Root { kind, target: NodeRef::Symbol(SymbolId((first_symbol + d) as u32)) },
                    root.confidence,
                    Some(symbols[first_symbol + d].span),
                ),
        ),
    }
}

/// The edges of the first `k` in-source roots, in order.
pub open spec fn all_root_edges(
    file: u32,
    first_symbol: u32,
    facts: FileFacts,
    symbols: Seq<SymbolNode>,
    role_root: Option<RootKind>,
    k: int,
) -> Seq<(EdgeKind, Confidence, Option<Span>)>
    decreases k,
{
    if k <= 0 {
        Seq::empty()
    } else {
        all_root_edges(file, first_symbol, facts, symbols, role_root, k - 1) + raw_root_edges(
            file,
            first_symbol,
            facts.roots@[k - 1],
            facts.declarations@,
            symbols,
            role_root,
        )
    }
}

/// The key declaration `d` is named by.
fn key_of(d: &Declaration) -> (r: String)
    ensures
        r@ == declaration_key(*d),
{
    match &d.member_of {
        Some(owner) => join3(owner.as_str(), ".", d.name.as_str()),
        None => owned(d.name.as_str()),
    }
}

/// The declarations named `key` among the first `k` lie in `[0, k)`, in increasing order.
proof fn lemma_named_in_order(decls: Seq<Declaration>, key: Seq<char>, k: int)
    requires
        0 <= k <= decls.len(),
    ensures
        forall|a: int, b: int|
            0 <= a < b < declarations_named(decls, key, k).len() ==> #[trigger] declarations_named(decls, key, k)[a]
                < #[trigger] declarations_named(decls, key, k)[b],
        forall|a: int|
            0 <= a < declarations_named(decls, key, k).len() ==> 0 <= #[trigger] declarations_named(decls, key, k)[a] < k,
    decreases k,
{
    if k > 0 {
        lemma_named_in_order(decls, key, k - 1);
        let prev = declarations_named(decls, key, k - 1);
        let now = declarations_named(decls, key, k);
        if declaration_key(decls[k - 1]) == key {
            assert(now == prev.push(k - 1));
            assert forall|a: int, b: int| 0 <= a < b < now.len() implies #[trigger] now[a] < #[trigger] now[b] by {
                if b == now.len() - 1 {
                    assert(prev[a] < k - 1);
                } else {
                    assert(prev[a] < prev[b]);
                }
            }
            assert forall|a: int| 0 <= a < now.len() implies 0 <= #[trigger] now[a] < k by {
                if a < prev.len() {
                    assert(0 <= prev[a] < k - 1);
                }
            }
        } else {
            assert(now == prev);
        }
    }
}

/// Whether `index` holds, for every key, the indices of the first `k` declarations
/// named by it, in order, and no key that names none.
pub open spec fn indexes_declarations(index: Map<Seq<char>, Seq<u32>>, decls: Seq<Declaration>, k: int) -> bool {
    &&& forall|key: Seq<char>| #[trigger] index.contains_key(key) ==> declarations_named(decls, key, k).len() > 0
    &&& forall|key: Seq<char>|
        declarations_named(decls, key, k).len() > 0 ==> #[trigger] index.contains_key(key) && index[key]
            == declarations_named(decls, key, k).map_values(|d: int| d as u32)
}

/// Every declaration of a file keyed by the selector a root names it by (the bare name
/// for a free declaration, `Owner.name` for a member), with every declaration index per
/// key in order: twins are kept.
pub fn declaration_name_index(decls: &[Declaration]) -> (r: FxHashMap<String, Vec<u32>>)
    requires
        decls@.len() <= 0x1_0000_0000,
    ensures
        indexes_declarations(str_lists(r), decls@, decls@.len() as int),
{
    let mut index = str_lists_new();
    let mut d: usize = 0;
    while d < decls.len()
        invariant
            d <= decls@.len() <= 0x1_0000_0000,
            indexes_declarations(str_lists(index), decls@, d as int),
        decreases decls@.len() - d,
    {
        let key = key_of(&decls[d]);
        let ghost before = str_lists(index);
        str_lists_push(&mut index, key.as_str(), d as u32);
        proof {
            let after = str_lists(index);
            let to_u32 = |x: int| x as u32;
            assert forall|k2: Seq<char>| #[trigger] after.contains_key(k2) implies declarations_named(decls@, k2, d + 1).len() > 0 by {
                if k2 != key@ {
                    assert(before.contains_key(k2));
                    assert(declarations_named(decls@, k2, d + 1) == declarations_named(decls@, k2, d as int));
                }
            }
            assert forall|k2: Seq<char>| declarations_named(decls@, k2, d + 1).len() > 0 implies #[trigger] after.contains_key(k2)
                && after[k2] == declarations_named(decls@, k2, d + 1).map_values(to_u32) by {
                if k2 == key@ {
                    let prev = declarations_named(decls@, k2, d as int);
                    assert(declarations_named(decls@, k2, d + 1) == prev.push(d as int));
                    assert(prev.push(d as int).map_values(to_u32) =~= prev.map_values(to_u32).push(d as u32));
                    if !before.contains_key(k2) {
                        assert(prev.len() == 0);
                        assert(prev.map_values(to_u32) =~= Seq::<u32>::empty());
                    }
                } else {
                    assert(declarations_named(decls@, k2, d + 1) == declarations_named(decls@, k2, d as int));
                    assert(before.contains_key(k2));
                }
            }
        }
        d = d + 1;
    }
    index
}

/// Appends the edges of in-source root `root`, reading the declarations it names from
/// the file's name index.
fn push_root_edges(
    edges: &mut Vec<Edge>,
    file: u32,
    first_symbol: u32,
    root: &RawRoot,
    decls: &Vec<Declaration>,
    index: &FxHashMap<String, Vec<u32>>,
    symbols: &[SymbolNode],
    adapter_id: &str,
    role_root: Option<RootKind>,
)
    requires
        first_symbol + decls@.len() <= symbols@.len(),
        symbols@.len() <= 0x1_0000_0000,
        indexes_declarations(str_lists(*index), decls@, decls@.len() as int),
    ensures
        final(edges)@.map_values(|e: Edge| edge_shape(e)) == old(edges)@.map_values(|e: Edge| edge_shape(e))
            + raw_root_edges(file, first_symbol, *root, decls@, symbols@, role_root),
        forall|q: int| 0 <= q < old(edges)@.len() ==> final(edges)@[q] == old(edges)@[q],
        forall|q: int|
            old(edges)@.len() <= q < final(edges)@.len() ==> from_adapter(#[trigger] final(edges)@[q], adapter_id@, file),
{
    let ghost before = edges@;
    let kind = if root.kind == RootKind::Production {
        match role_root {
            Some(role) => role,
            None => root.kind,
        }
    } else {
        root.kind
    };
    match &root.target {
        RawRootTarget::WholeFile => {
            let edge_kind = EdgeKind::Root { kind, target: NodeRef::File(FileId(file)) };
            edges.push(adapter_edge(edge_kind, root.confidence, None, adapter_id, file));
            proof {
                assert(edges@.map_values(|e: Edge| edge_shape(e)) =~= before.map_values(|e: Edge| edge_shape(e))
                    + raw_root_edges(file, first_symbol, *root, decls@, symbols@, role_root));
            }
        },
        RawRootTarget::Declaration(name) => {
            let ghost f = |d: int|
                (
                    EdgeKind::Root { kind, target: NodeRef::Symbol(SymbolId((first_symbol + d) as u32)) },
                    root.confidence,
                    Some(symbols@[first_symbol + d].span),
                );
            let ghost named = declarations_named(decls@, name@, decls@.len() as int);
            proof {
                lemma_named_in_order(decls@, name@, decls@.len() as int);
            }
            match str_lists_get(index, name.as_str()) {
                Some(list) => {
                    let mut j: usize = 0;
                    while j < list.len()
                        invariant
                            j <= list@.len(),
                            list@ == named.map_values(|d: int| d as u32),
                            forall|a: int| 0 <= a < named.len() ==> 0 <= #[trigger] named[a] < decls@.len(),
                            first_symbol + decls@.len() <= symbols@.len(),
                            symbols@.len() <= 0x1_0000_0000,
                            f == (|d: int|
                                (
                                    EdgeKind::Root { kind, target: NodeRef::Symbol(SymbolId((first_symbol + d) as u32)) },
                                    root.confidence,
                                    Some(symbols@[first_symbol + d].span),
                                )),
                            before.len() <= edges@.len(),
                            edges@.map_values(|e: Edge| edge_shape(e)) == before.map_values(|e: Edge| edge_shape(e))
                                + named.take(j as int).map_values(f),
                            forall|q: int| 0 <= q < before.len() ==> edges@[q] == before[q],
                            forall|q: int| before.len() <= q < edges@.len() ==> from_adapter(#[trigger] edges@[q], adapter_id@, file),
                        decreases list@.len() - j,
                    {
                        let d = list[j];
                        proof {
                            assert(named[j as int] < decls@.len());
                            assert(d as int == named[j as int]);
                        }
                        let ghost prev = edges@;
                        let symbol = first_symbol + d;
                        let edge_kind = EdgeKind::Root { kind, target: NodeRef::Symbol(SymbolId(symbol)) };
                        edges.push(adapter_edge(edge_kind, root.confidence, Some(symbols[symbol as usize].span), adapter_id, file));
                        proof {
                            assert(named.take(j + 1) =~= named.take(j as int).push(named[j as int]));
                            assert(edges@.map_values(|e: Edge| edge_shape(e)) =~= prev.map_values(|e: Edge| edge_shape(e)).push(f(d as int)));
                            assert(named.take(j + 1).map_values(f) =~= named.take(j as int).map_values(f).push(f(d as int)));
                        }
                        j = j + 1;
                    }
                    proof {
                        assert(named.take(named.len() as int) =~= named);
                        assert(edges@.map_values(|e: Edge| edge_shape(e)) =~= before.map_values(|e: Edge| edge_shape(e))
                            + raw_root_edges(file, first_symbol, *root, decls@, symbols@, role_root));
                    }
                },
                None => {
                    proof {
                        assert(named.len() == 0);
                        assert(edges@.map_values(|e: Edge| edge_shape(e)) =~= before.map_values(|e: Edge| edge_shape(e))
                            + raw_root_edges(file, first_symbol, *root, decls@, symbols@, role_root));
                    }
                },
            }
        },
    }
}

/// The symbol a callable shape's name resolves to: the bare table first, then the
/// qualified member table.
pub open spec fn metric_target(bare: Map<Seq<char>, u32>, qualified: Map<Seq<char>, u32>, name: Seq<char>) -> Option<u32> {
    if bare.contains_key(name) {
        Some(bare[name])
    } else if qualified.contains_key(name) {
        Some(qualified[name])
    } else {
        None
    }
}

/// The indices, in order, of the first `k` callable shapes whose name resolves.
pub open spec fn resolved_functions(
    functions: Seq<FunctionFacts>,
    bare: Map<Seq<char>, u32>,
    qualified: Map<Seq<char>, u32>,
    k: int,
) -> Seq<int>
    decreases k,
{
    if k <= 0 {
        Seq::empty()
    } else if metric_target(bare, qualified, functions[k - 1].symbol@) is Some {
        resolved_functions(functions, bare, qualified, k - 1).push(k - 1)
    } else {
        resolved_functions(functions, bare, qualified, k - 1)
    }
}

/// Whether `m` carries exactly the measurements of `f`.
pub open spec fn metrics_of(m: SymbolMetrics, f: FunctionFacts) -> bool {
    &&& m.shape_span == f.shape_span
    &&& m.shape_ordinal == f.shape_ordinal
    &&& m.cyclomatic == f.cyclomatic
    &&& m.loc == f.loc
    &&& m.token_count == f.token_count
    &&& m.fingerprints@ == f.fingerprints@
    &&& m.body_is_construction == f.body_is_construction
}

fn copy_fingerprints(v: &Vec<u64>) -> (r: Vec<u64>)
    ensures
        r@ == v@,
{
    let mut out: Vec<u64> = Vec::new();
    let mut i: usize = 0;
    while i < v.len()
        invariant
            i <= v@.len(),
            out@ == v@.take(i as int),
        decreases v@.len() - i,
    {
        out.push(v[i]);
        i = i + 1;
        proof {
            assert(out@ =~= v@.take(i as int));
        }
    }
    proof {
        assert(v@.take(v@.len() as int) =~= v@);
    }
    out
}

/// One file's declaration edges, then its in-source roots' edges, and the metrics of
/// every callable shape whose name resolves. `library_root` is the confidence of the
/// manifest root on this file, if it is one; `role_root` the root kind its test or
/// tooling role gives it, if any. The symbols of the file's declarations are
/// `first_symbol` onward, in declaration order.
pub fn emit_file_declarations(
    i: usize,
    facts: &FileFacts,
    adapter_id: &str,
    first_symbol: u32,
    symbols: &[SymbolNode],
    bare_table: &FxHashMap<String, u32>,
    qualified_table: &FxHashMap<String, u32>,
    library_root: Option<Confidence>,
    role_root: Option<RootKind>,
    ladder: Option<&[VisibilityRung]>,
) -> (r: DeclarationEmissions)
    requires
        i <= u32::MAX,
        first_symbol + facts.declarations@.len() <= symbols@.len(),
        symbols@.len() <= 0x1_0000_0000,
    ensures
        r.edges@.map_values(|e: Edge| edge_shape(e)) == all_declaration_edges(
            i as u32,
            first_symbol,
            *facts,
            str_ids(*bare_table),
            ladder,
            library_root,
            role_root,
            facts.declarations@.len() as int,
        ) + all_root_edges(i as u32, first_symbol, *facts, symbols@, role_root, facts.roots@.len() as int),
        forall|q: int| 0 <= q < r.edges@.len() ==> from_adapter(#[trigger] r.edges@[q], adapter_id@, i as u32),
        r.metrics@.len() == resolved_functions(
            facts.functions@,
            str_ids(*bare_table),
            str_ids(*qualified_table),
            facts.functions@.len() as int,
        ).len(),
        forall|q: int|
            0 <= q < r.metrics@.len() ==> {
                let f = facts.functions@[resolved_functions(
                    facts.functions@,
                    str_ids(*bare_table),
                    str_ids(*qualified_table),
                    facts.functions@.len() as int,
                )[q]];
                &&& (#[trigger] r.metrics@[q]).0 == SymbolId(
                    metric_target(str_ids(*bare_table), str_ids(*qualified_table), f.symbol@)->0,
                )
                &&& metrics_of(r.metrics@[q].1, f)
            },
{
    let file = i as u32;
    let ghost bare = str_ids(*bare_table);
    let ghost qualified = str_ids(*qualified_table);
    let mut edges: Vec<Edge> = Vec::new();
    let mut d: usize = 0;
    while d < facts.declarations.len()
        invariant
            d <= facts.declarations@.len(),
            first_symbol + facts.declarations@.len() <= symbols@.len(),
            symbols@.len() <= 0x1_0000_0000,
            bare == str_ids(*bare_table),
            edges@.map_values(|e: Edge| edge_shape(e)) == all_declaration_edges(
                file,
                first_symbol,
                *facts,
                bare,
                ladder,
                library_root,
                role_root,
                d as int,
            ),
            forall|q: int| 0 <= q < edges@.len() ==> from_adapter(#[trigger] edges@[q], adapter_id@, file),
        decreases facts.declarations@.len() - d,
    {
        push_declaration_edges(
            &mut edges,
            file,
            first_symbol + d as u32,
            &facts.declarations[d],
            adapter_id,
            bare_table,
            facts.test_spans.as_slice(),
            ladder,
            library_root,
            role_root,
        );
        d = d + 1;
    }
    let ghost declared = edges@.map_values(|e: Edge| edge_shape(e));
    let mut metrics: Vec<(SymbolId, SymbolMetrics)> = Vec::new();
    let mut m: usize = 0;
    while m < facts.functions.len()
        invariant
            m <= facts.functions@.len(),
            bare == str_ids(*bare_table),
            qualified == str_ids(*qualified_table),
            metrics@.len() == resolved_functions(facts.functions@, bare, qualified, m as int).len(),
            forall|q: int|
                0 <= q < metrics@.len() ==> {
                    let f = facts.functions@[resolved_functions(facts.functions@, bare, qualified, m as int)[q]];
                    &&& (#[trigger] metrics@[q]).0 == SymbolId(metric_target(bare, qualified, f.symbol@)->0)
                    &&& metrics_of(metrics@[q].1, f)
                },
        decreases facts.functions@.len() - m,
    {
        let fm = &facts.functions[m];
        let resolved = match str_ids_get(bare_table, fm.symbol.as_str()) {
            Some(id) => Some(id),
            None => str_ids_get(qualified_table, fm.symbol.as_str()),
        };
        match resolved {
            Some(id) => {
                let shape = SymbolMetrics {
                    shape_span: fm.shape_span,
                    shape_ordinal: fm.shape_ordinal,
                    cyclomatic: fm.cyclomatic,
                    loc: fm.loc,
                    token_count: fm.token_count,
                    fingerprints: copy_fingerprints(&fm.fingerprints),
                    body_is_construction: fm.body_is_construction,
                };
                metrics.push((SymbolId(id), shape));
            },
            None => {},
        }
        m = m + 1;
    }
    let mut index: Option<FxHashMap<String, Vec<u32>>> = None;
    let mut k: usize = 0;
    while k < facts.roots.len()
        invariant
            k <= facts.roots@.len(),
            facts.declarations@.len() <= 0x1_0000_0000,
            index matches Some(ix) ==> indexes_declarations(str_lists(ix), facts.declarations@, facts.declarations@.len() as int),
            first_symbol + facts.declarations@.len() <= symbols@.len(),
            symbols@.len() <= 0x1_0000_0000,
            edges@.map_values(|e: Edge| edge_shape(e)) == declared + all_root_edges(
                file,
                first_symbol,
                *facts,
                symbols@,
                role_root,
                k as int,
            ),
            forall|q: int| 0 <= q < edges@.len() ==> from_adapter(#[trigger] edges@[q], adapter_id@, file),
        decreases facts.roots@.len() - k,
    {
        if index.is_none() {
            index = Some(declaration_name_index(facts.declarations.as_slice()));
        }
        match &index {
            Some(ix) => push_root_edges(&mut edges, file, first_symbol, &facts.roots[k], &facts.declarations, ix, symbols, adapter_id, role_root),
            None => {},
        }
        proof {
            assert(declared + all_root_edges(file, first_symbol, *facts, symbols@, role_root, k + 1) =~= declared
                + all_root_edges(file, first_symbol, *facts, symbols@, role_root, k as int) + raw_root_edges(
                file,
                first_symbol,
                facts.roots@[k as int],
                facts.declarations@,
                symbols@,
                role_root,
            ));
        }
        k = k + 1;
    }
    DeclarationEmissions { edges, metrics }
}

/// A file whose manifest root the role cap demoted stops being a library root, so no
/// surface promotion starts from a test or tooling entry point; every other library
/// root stands as it was.
pub fn drop_capped_library_roots(library: &mut FxHashMap<u32, Confidence>, capped: &[FileId])
    ensures
        forall|t: u32|
            #[trigger] final(library)@.contains_key(t) <==> (old(library)@.contains_key(t) && !capped@.contains(FileId(t))),
        forall|t: u32| #[trigger] final(library)@.contains_key(t) ==> final(library)@[t] == old(library)@[t],
{
    let mut k: usize = 0;
    while k < capped.len()
        invariant
            k <= capped@.len(),
            forall|t: u32|
                #[trigger] library@.contains_key(t) <==> (old(library)@.contains_key(t) && !capped@.take(k as int).contains(FileId(t))),
            forall|t: u32| #[trigger] library@.contains_key(t) ==> library@[t] == old(library)@[t],
        decreases capped@.len() - k,
    {
        let ghost before = library@;
        confidences_remove(library, capped[k].0);
        proof {
            assert(capped@.take(k + 1) =~= capped@.take(k as int).push(capped@[k as int]));
            assert forall|t: u32| #[trigger] library@.contains_key(t) <==> (old(library)@.contains_key(t)
                && !capped@.take(k + 1).contains(FileId(t))) by {
                let s = capped@.take(k as int);
                if s.push(capped@[k as int]).contains(FileId(t)) && !s.contains(FileId(t)) {
                    let w = choose|w: int| 0 <= w < s.len() + 1 && s.push(capped@[k as int])[w] == FileId(t);
                    assert(w == s.len());
                }
                if s.contains(FileId(t)) {
                    let w = choose|w: int| 0 <= w < s.len() && s[w] == FileId(t);
                    assert(s.push(capped@[k as int])[w] == FileId(t));
                }
                if t == capped@[k as int].0 {
                    assert(s.push(capped@[k as int])[s.len() as int] == FileId(t));
                }
            }
        }
        k = k + 1;
    }
    proof {
        assert(capped@.take(capped@.len() as int) =~= capped@);
    }
}

/// The root kind a file's role gives its entry points: test and tooling files are
/// roots of their role; a production file, or one with no class, gives none.
pub open spec fn role_kind(class: Option<FileClass>) -> Option<RootKind> {
    match class {
        Some(c) => match c.role {
            FileRole::Test => Some(RootKind::Test),
            FileRole::Tooling => Some(RootKind::Tooling),
            FileRole::Production => None,
        },
        None => None,
    }
}

/// An edge kind after the root-kind cap: a production root on a test or tooling file
/// takes the file's role; every other kind stands.
pub open spec fn capped_edge_kind(kind: EdgeKind, files: Seq<FileNode>) -> EdgeKind {
    match kind {
        EdgeKind::Root { kind: k, target: NodeRef::File(f) } => if k == RootKind::Production && role_kind(
            files[f.0 as int].class,
        ) is Some {
            EdgeKind::Root { kind: role_kind(files[f.0 as int].class)->0, target: NodeRef::File(f) }
        } else {
            kind
        },
        _ => kind,
    }
}

/// Whether the cap changes `kind`.
pub open spec fn is_capped(kind: EdgeKind, files: Seq<FileNode>) -> bool {
    capped_edge_kind(kind, files) != kind
}

/// The files whose production roots the cap moved, in edge order, over the first `k`
/// edges.
pub open spec fn capped_files(edges: Seq<Edge>, files: Seq<FileNode>, k: int) -> Seq<FileId>
    decreases k,
{
    if k <= 0 {
        Seq::empty()
    } else if is_capped(edges[k - 1].kind, files) {
        capped_files(edges, files, k - 1).push(edges[k - 1].kind->Root_target->File_0)
    } else {
        capped_files(edges, files, k - 1)
    }
}

/// Whether every root on a file names a file of `files`.
pub open spec fn file_roots_in(edges: Seq<Edge>, files: Seq<FileNode>) -> bool {
    forall|q: int|
        0 <= q < edges.len() ==> match #[trigger] edges[q].kind {
            EdgeKind::Root { target: NodeRef::File(f), .. } => f.0 < files.len(),
            _ => true,
        }
}

/// The root-kind cap on manifest roots: a production root whose target file is of a
/// test or tooling role takes the role's kind (the manifest says the file is an entry
/// point; its role says who consumes it). Returns the files so capped, which are no
/// longer library roots. Every other edge, and every other field, is untouched.
pub fn cap_root_kinds_by_role(edges: &mut Vec<Edge>, files: &[FileNode]) -> (r: Vec<FileId>)
    requires
        file_roots_in(old(edges)@, files@),
    ensures
        final(edges)@.len() == old(edges)@.len(),
        forall|q: int|
            0 <= q < final(edges)@.len() ==> {
                &&& (#[trigger] final(edges)@[q]).kind == capped_edge_kind(old(edges)@[q].kind, files@)
                &&& final(edges)@[q].confidence == old(edges)@[q].confidence
                &&& provenance_eq(final(edges)@[q].source, old(edges)@[q].source)
                &&& final(edges)@[q].span == old(edges)@[q].span
                &&& final(edges)@[q].owner == old(edges)@[q].owner
            },
        r@ == capped_files(old(edges)@, files@, old(edges)@.len() as int),
{
    let ghost before = edges@;
    let mut capped: Vec<FileId> = Vec::new();
    let mut i: usize = 0;
    while i < edges.len()
        invariant
            edges@.len() == before.len(),
            i <= before.len(),
            file_roots_in(before, files@),
            forall|q: int|
                0 <= q < i ==> {
                    &&& (#[trigger] edges@[q]).kind == capped_edge_kind(before[q].kind, files@)
                    &&& edges@[q].confidence == before[q].confidence
                    &&& provenance_eq(edges@[q].source, before[q].source)
                    &&& edges@[q].span == before[q].span
                    &&& edges@[q].owner == before[q].owner
                },
            forall|q: int| i <= q < before.len() ==> edges@[q] == before[q],
            capped@ == capped_files(before, files@, i as int),
        decreases before.len() - i,
    {
        let kind = edges[i].kind;
        proof {
            assert(edges@[i as int] == before[i as int]);
        }
        match kind {
            EdgeKind::Root { kind: k, target: NodeRef::File(f) } => {
                if k == RootKind::Production {
                    proof {
                        assert(f.0 < files@.len()) by {
                            assert(match before[i as int].kind {
                                EdgeKind::Root { target: NodeRef::File(f), .. } => f.0 < files@.len(),
                                _ => true,
                            });
                        }
                    }
                    let role = match files[f.0 as usize].class {
                        Some(class) => match class.role {
                            FileRole::Test => Some(RootKind::Test),
                            FileRole::Tooling => Some(RootKind::Tooling),
                            FileRole::Production => None,
                        },
                        None => None,
                    };
                    match role {
                        Some(role) => {
                            let edge = Edge {
                                kind: EdgeKind::Root { kind: role, target: NodeRef::File(f) },
                                confidence: edges[i].confidence,
                                source: provenance_copy(&edges[i].source),
                                span: edges[i].span,
                                owner: edges[i].owner,
                            };
                            edges.set(i, edge);
                            capped.push(f);
                        },
                        None => {},
                    }
                }
            },
            _ => {},
        }
        i = i + 1;
    }
    capped
}

/// Whether file `i` is a role-derived root: claimed, and of a test or tooling role.
pub open spec fn role_root_of(file: FileNode, claimed_by: Option<String>) -> Option<RootKind> {
    if claimed_by is Some {
        role_kind(file.class)
    } else {
        None
    }
}

/// The indices, in order, of the first `k` files that are role-derived roots.
pub open spec fn role_root_files(files: Seq<FileNode>, claimed_by: Seq<Option<String>>, k: int) -> Seq<int>
    decreases k,
{
    if k <= 0 {
        Seq::empty()
    } else if role_root_of(files[k - 1], claimed_by[k - 1]) is Some {
        role_root_files(files, claimed_by, k - 1).push(k - 1)
    } else {
        role_root_files(files, claimed_by, k - 1)
    }
}

/// Role-derived roots: each claimed file of a test or tooling role is a `Probable`
/// root of that role, of its claiming adapter's provenance (`claimed_by[i]` is the
/// adapter that claimed file `i`). A convention names the file; nothing declares it.
/// Returns, per file, the root kind its role gives it.
pub fn role_derived_roots(files: &[FileNode], claimed_by: &[Option<String>], edges: &mut Vec<Edge>) -> (r: Vec<
    Option<RootKind>,
>)
    requires
        claimed_by@.len() <= files@.len(),
        files@.len() <= 0x1_0000_0000,
    ensures
        r@.len() == claimed_by@.len(),
        forall|i: int| 0 <= i < r@.len() ==> #[trigger] r@[i] == role_root_of(files@[i], claimed_by@[i]),
        final(edges)@.len() == old(edges)@.len() + role_root_files(files@, claimed_by@, claimed_by@.len() as int).len(),
        forall|q: int| 0 <= q < old(edges)@.len() ==> final(edges)@[q] == old(edges)@[q],
        forall|q: int|
            0 <= q < role_root_files(files@, claimed_by@, claimed_by@.len() as int).len() ==> {
                let f = role_root_files(files@, claimed_by@, claimed_by@.len() as int)[q];
                &&& edge_shape(#[trigger] final(edges)@[old(edges)@.len() + q]) == (
                    EdgeKind::Root {
                        kind: role_root_of(files@[f], claimed_by@[f])->0,
                        target: NodeRef::File(FileId(f as u32)),
                    },
                    Confidence::Probable,
                    None::<Span>,
                )
                &&& from_adapter(final(edges)@[old(edges)@.len() + q], claimed_by@[f]->0@, f as u32)
            },
{
    let ghost before = edges@;
    let mut kinds: Vec<Option<RootKind>> = Vec::new();
    let mut i: usize = 0;
    while i < claimed_by.len()
        invariant
            i <= claimed_by@.len() <= files@.len() <= 0x1_0000_0000,
            kinds@.len() == i,
            forall|j: int| 0 <= j < i ==> #[trigger] kinds@[j] == role_root_of(files@[j], claimed_by@[j]),
            edges@.len() == before.len() + role_root_files(files@, claimed_by@, i as int).len(),
            forall|q: int| 0 <= q < before.len() ==> edges@[q] == before[q],
            forall|q: int|
                0 <= q < role_root_files(files@, claimed_by@, i as int).len() ==> {
                    let f = role_root_files(files@, claimed_by@, i as int)[q];
                    &&& edge_shape(#[trigger] edges@[before.len() + q]) == (
                        EdgeKind::Root {
                            kind: role_root_of(files@[f], claimed_by@[f])->0,
                            target: NodeRef::File(FileId(f as u32)),
                        },
                        Confidence::Probable,
                        None::<Span>,
                    )
                    &&& from_adapter(edges@[before.len() + q], claimed_by@[f]->0@, f as u32)
                },
        decreases claimed_by@.len() - i,
    {
        let mut kind: Option<RootKind> = None;
        match &claimed_by[i] {
            Some(adapter) => {
                match files[i].class {
                    Some(class) => {
                        kind = match class.role {
                            FileRole::Test => Some(RootKind::Test),
                            FileRole::Tooling => Some(RootKind::Tooling),
                            FileRole::Production => None,
                        };
                    },
                    None => {},
                }
                match kind {
                    Some(k) => {
                        let file = i as u32;
                        edges.push(
                            adapter_edge(
                                EdgeKind::Root { kind: k, target: NodeRef::File(FileId(file)) },
                                Confidence::Probable,
                                None,
                                adapter.as_str(),
                                file,
                            ),
                        );
                    },
                    None => {},
                }
            },
            None => {},
        }
        kinds.push(kind);
        i = i + 1;
    }
    kinds
}

/// The root-kind cap is idempotent: a capped kind is a root of the file's role, which
/// the cap never touches again.
pub proof fn lemma_cap_idempotent(kind: EdgeKind, files: Seq<FileNode>)
    ensures
        capped_edge_kind(capped_edge_kind(kind, files), files) == capped_edge_kind(kind, files),
{
}

/// The cap never touches a root that is not a production root: a test or tooling root is
/// real, and every other edge kind stands.
pub proof fn lemma_cap_only_moves_production_roots(kind: EdgeKind, files: Seq<FileNode>)
    requires
        !(kind matches EdgeKind::Root { kind: RootKind::Production, .. }),
    ensures
        capped_edge_kind(kind, files) == kind,
{
}

} // verus!
