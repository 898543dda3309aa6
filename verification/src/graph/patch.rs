//! The surgical patch of a persisted graph. A snapshot is patched only when nothing
//! moved the ground under resolution: the same graph semantics and plugin set, the same
//! files in the same order, a small set of content-only changes, and for each changed
//! file a declaration run that still lines up with its fresh declarations. Then the
//! changed files' own contributions are removed (every edge knows the file that owns
//! it) and their body-level facts refreshed.

use vstd::prelude::*;

use crate::graph::declarations::Declaration;
use crate::graph::key::{ascending_by, sort_by_view, total_order, DiscoveredFile, GRAPH_SCHEMA_VERSION};
use crate::graph::{FileNode, ProjectGraph, SymbolKind, SymbolNode};
use crate::text::str_eq;
use crate::vocab::{pos_le, Edge, FileId, PackageId, ProjectPath, Provenance, Span, SymbolId, VisibilityLevel};
use crate::graph::{RawSuppression, SymbolMetrics};
use crate::fx::{confidences_get, confidences_insert, confidences_new};
use rustc_hash::FxHashMap;
use crate::vocab::{Confidence, EdgeKind, NodeRef, RootKind};

verus! {

/// The indices of the first `k` files whose content changed.
pub open spec fn changed_upto(g: ProjectGraph, discovered: Seq<DiscoveredFile>, k: int) -> Seq<int>
    decreases k,
{
    if k <= 0 {
        Seq::empty()
    } else if g.files@[k - 1].content_hash@ != discovered[k - 1].content_hash@ {
        changed_upto(g, discovered, k - 1).push(k - 1)
    } else {
        changed_upto(g, discovered, k - 1)
    }
}

/// Whether the snapshot holds exactly the discovered paths, in order.
pub open spec fn same_file_set(g: ProjectGraph, discovered: Seq<DiscoveredFile>) -> bool {
    g.files@.len() == discovered.len() && forall|i: int|
        0 <= i < discovered.len() ==> (#[trigger] g.files@[i]).path.0@ == discovered[i].path.0@
}

/// The files a patch would re-extract, when a patch may be tried at all: the snapshot
/// was assembled under this graph schema and the current plugin set, holds the same
/// files in the same order (adds, removes and renames renumber file ids), and between
/// one and a twentieth of its files changed content (past that the patch's fixed costs
/// stop paying).
pub open spec fn patch_candidates(
    g: ProjectGraph,
    snapshot_schema: u32,
    snapshot_plugins: Seq<u8>,
    current_plugins: Seq<u8>,
    discovered: Seq<DiscoveredFile>,
) -> Option<Seq<int>> {
    if snapshot_schema != GRAPH_SCHEMA_VERSION || snapshot_plugins != current_plugins || !same_file_set(g, discovered) {
        None
    } else {
        let changed = changed_upto(g, discovered, discovered.len() as int);
        if changed.len() == 0 || changed.len() * 20 > g.files@.len() {
            None
        } else {
            Some(changed)
        }
    }
}

fn same_digest(a: &[u8; 32], b: &[u8; 32]) -> (r: bool)
    ensures
        r == (a@ == b@),
{
    let mut i: usize = 0;
    while i < 32
        invariant
            i <= 32,
            a@.len() == 32,
            b@.len() == 32,
            forall|j: int| 0 <= j < i ==> a@[j] == b@[j],
        decreases 32 - i,
    {
        if a[i] != b[i] {
            return false;
        }
        i = i + 1;
    }
    proof {
        assert(a@ =~= b@);
    }
    true
}

/// The guards of the patch path, cheapest first: the files to re-extract, or `None`
/// when the snapshot must be rebuilt in full.
pub fn patch_changes(
    g: &ProjectGraph,
    snapshot_schema: u32,
    snapshot_plugins: &[u8; 32],
    current_plugins: &[u8; 32],
    discovered: &[DiscoveredFile],
) -> (r: Option<Vec<usize>>)
    ensures
        match patch_candidates(*g, snapshot_schema, snapshot_plugins@, current_plugins@, discovered@) {
            Some(changed) => r matches Some(v) && v@.len() == changed.len() && forall|q: int|
                0 <= q < changed.len() ==> #[trigger] v@[q] as int == changed[q],
            None => r is None,
        },
{
    if snapshot_schema != GRAPH_SCHEMA_VERSION {
        return None;
    }
    if !same_digest(snapshot_plugins, current_plugins) {
        return None;
    }
    if g.files.len() != discovered.len() {
        return None;
    }
    let n = discovered.len();
    let mut i: usize = 0;
    while i < n
        invariant
            n == discovered@.len() == g.files@.len(),
            i <= n,
            forall|j: int| 0 <= j < i ==> (#[trigger] g.files@[j]).path.0@ == discovered@[j].path.0@,
        decreases n - i,
    {
        if !crate::text::str_eq(g.files[i].path.0.as_str(), discovered[i].path.0.as_str()) {
            return None;
        }
        i = i + 1;
    }
    let mut changed: Vec<usize> = Vec::new();
    let mut k: usize = 0;
    while k < n
        invariant
            n == discovered@.len() == g.files@.len(),
            k <= n,
            changed@.len() == changed_upto(*g, discovered@, k as int).len(),
            changed@.len() <= k,
            forall|q: int| 0 <= q < changed@.len() ==> #[trigger] changed@[q] as int == changed_upto(*g, discovered@, k as int)[q],
        decreases n - k,
    {
        if !same_digest(&g.files[k].content_hash, &discovered[k].content_hash) {
            changed.push(k);
        }
        k = k + 1;
    }
    if changed.len() == 0 {
        return None;
    }
    if (changed.len() as u128) * 20 > n as u128 {
        return None;
    }
    Some(changed)
}

/// Whether the symbols' files never decrease: each file's declarations form one run.
pub open spec fn runs_contiguous(symbols: Seq<SymbolNode>) -> bool {
    forall|i: int, j: int| 0 <= i < j < symbols.len() ==> symbols[i].file.0 <= symbols[j].file.0
}

/// Whether `[start, end)` is file `f`'s run of symbols: every symbol there is `f`'s and
/// none outside is; the empty run `(0, 0)` when `f` declares nothing.
pub open spec fn is_run_of(symbols: Seq<SymbolNode>, f: int, run: (u32, u32)) -> bool {
    let (start, end) = run;
    &&& start <= end <= symbols.len()
    &&& forall|i: int| 0 <= i < symbols.len() ==> ((#[trigger] symbols[i]).file.0 == f <==> start <= i < end)
    &&& start == end ==> start == 0
}

/// Each file's run of symbols, when the runs are contiguous (the full build lays them
/// out that way); `None` for a snapshot whose runs are not, which is stale or corrupt.
/// Every symbol's file is one of the `file_count` files.
pub fn symbol_runs(symbols: &[SymbolNode], file_count: usize) -> (r: Option<Vec<(u32, u32)>>)
    requires
        symbols@.len() < u32::MAX,
        forall|i: int| 0 <= i < symbols@.len() ==> (#[trigger] symbols@[i]).file.0 < file_count,
    ensures
        match r {
            Some(runs) => runs_contiguous(symbols@) && runs@.len() == file_count && forall|f: int|
                0 <= f < file_count ==> is_run_of(symbols@, f, #[trigger] runs@[f]),
            None => !runs_contiguous(symbols@),
        },
{
    let mut runs: Vec<(u32, u32)> = Vec::new();
    let mut f: usize = 0;
    while f < file_count
        invariant
            f <= file_count,
            runs@.len() == f,
            forall|g: int| 0 <= g < f ==> #[trigger] runs@[g] == (0u32, 0u32),
        decreases file_count - f,
    {
        runs.push((0, 0));
        f = f + 1;
    }
    let n = symbols.len();
    let mut idx: usize = 0;
    while idx < n
        invariant
            n == symbols@.len() < u32::MAX,
            idx <= n,
            runs@.len() == file_count,
            forall|i: int| 0 <= i < n ==> (#[trigger] symbols@[i]).file.0 < file_count,
            runs_contiguous(symbols@.take(idx as int)),
            forall|g: int|
                0 <= g < file_count ==> is_run_of(symbols@.take(idx as int), g, #[trigger] runs@[g]),
        decreases n - idx,
    {
        let file = symbols[idx].file.0;
        if idx > 0 && file < symbols[idx - 1].file.0 {
            proof {
                assert(!runs_contiguous(symbols@)) by {
                    assert(symbols@[idx - 1].file.0 > symbols@[idx as int].file.0);
                }
            }
            return None;
        }
        let ghost before = symbols@.take(idx as int);
        let ghost after = symbols@.take(idx + 1);
        proof {
            assert(after =~= before.push(symbols@[idx as int]));
            assert forall|i: int, j: int| 0 <= i < j < after.len() implies after[i].file.0 <= after[j].file.0 by {
                if j == idx {
                    if i < idx - 1 {
                        assert(before[i].file.0 <= before[idx - 1].file.0);
                    }
                }
            }
        }
        let (start, end) = runs[file as usize];
        if start == end {
            runs.set(file as usize, (idx as u32, idx as u32 + 1));
        } else {
            runs.set(file as usize, (start, idx as u32 + 1));
        }
        proof {
            assert forall|g: int| 0 <= g < file_count implies is_run_of(after, g, #[trigger] runs@[g]) by {
                if g == file as int {
                    let old_run = if start == end { (0u32, 0u32) } else { (start, end) };
                    assert(is_run_of(before, g, (start, end)));
                    if start != end {
                        assert(end == idx) by {
                            assert(before[end - 1].file.0 == file);
                            if end < idx {
                                assert(before[idx - 1].file.0 >= before[end - 1].file.0);
                                assert(before[idx - 1].file.0 <= file);
                                assert(before[idx - 1].file.0 != file);
                            }
                        }
                    } else {
                        assert forall|i: int| 0 <= i < before.len() implies before[i].file.0 != file by {
                            assert(!(start <= i < end));
                        }
                    }
                } else {
                    assert(is_run_of(before, g, runs@[g]));
                }
            }
        }
        idx = idx + 1;
    }
    proof {
        assert(symbols@.take(n as int) =~= symbols@);
    }
    Some(runs)
}

/// Two optional names, equal by their characters.
pub open spec fn same_name(a: Option<String>, b: Option<String>) -> bool {
    match (a, b) {
        (Some(x), Some(y)) => x@ == y@,
        (None, None) => true,
        _ => false,
    }
}

/// Whether a stored symbol still is the fresh declaration: the same name, kind,
/// export, visibility, container and scope shape. Spans may move freely.
pub open spec fn symbol_matches(s: SymbolNode, d: Declaration) -> bool {
    &&& s.name@ == d.name@
    &&& s.kind == d.kind
    &&& s.exported == d.exported
    &&& s.visibility == d.visibility
    &&& same_name(s.member_of, d.member_of)
    &&& s.nested_scope == d.nested_scope
    &&& s.visibility_inherited == d.visibility_inherited
}

fn same_optional_name(a: &Option<String>, b: &Option<String>) -> (r: bool)
    ensures
        r == same_name(*a, *b),
{
    match (a, b) {
        (Some(x), Some(y)) => str_eq(x.as_str(), y.as_str()),
        (None, None) => true,
        _ => false,
    }
}

/// Whether a changed file's run of symbols lines up one for one with its fresh
/// declarations. Symbol ids are load-bearing: what the surface signature implies is
/// verified here, never trusted.
pub fn run_matches(symbols: &[SymbolNode], run: (u32, u32), decls: &[Declaration]) -> (r: bool)
    requires
        run.0 <= run.1 <= symbols@.len(),
    ensures
        r == (run.1 - run.0 == decls@.len() && forall|d: int|
            0 <= d < decls@.len() ==> symbol_matches(#[trigger] symbols@[run.0 + d], decls@[d])),
{
    let (start, end) = run;
    if ((end - start) as usize) != decls.len() {
        return false;
    }
    let mut d: usize = 0;
    while d < decls.len()
        invariant
            start == run.0 && end == run.1,
            start <= end <= symbols@.len(),
            end - start == decls@.len(),
            d <= decls@.len(),
            forall|k: int| 0 <= k < d ==> symbol_matches(#[trigger] symbols@[start + k], decls@[k]),
        decreases decls@.len() - d,
    {
        let sym = &symbols[start as usize + d];
        let decl = &decls[d];
        if !(str_eq(sym.name.as_str(), decl.name.as_str()) && sym.kind == decl.kind && sym.exported == decl.exported
            && sym.visibility == decl.visibility && same_optional_name(&sym.member_of, &decl.member_of)
            && sym.nested_scope == decl.nested_scope && sym.visibility_inherited == decl.visibility_inherited) {
            proof {
                assert(!symbol_matches(symbols@[start + d], decls@[d as int]));
            }
            return false;
        }
        d = d + 1;
    }
    true
}

/// Whether an edge came from a plugin.
pub open spec fn is_plugin_edge(e: Edge) -> bool {
    e.source is Plugin
}

/// The test "not from a plugin".
pub open spec fn kept_after_plugins() -> spec_fn(Edge) -> bool {
    |e: Edge| !is_plugin_edge(e)
}

/// `v` without the elements `keep` rejects, in order, by moving them.
fn retain_by<T>(v: Vec<T>, keep: Ghost<spec_fn(T) -> bool>, decide: impl Fn(&T) -> bool) -> (r: Vec<T>)
    requires
        forall|e: &T| #[trigger] decide.requires((e,)),
        forall|e: &T, x: bool| decide.ensures((e,), x) ==> x == keep@(*e),
    ensures
        r@ == v@.filter(keep@),
{
    let ghost input = v@;
    let ghost f = keep@;
    let mut rest = crate::seqs::reversed(v);
    let mut out: Vec<T> = Vec::new();
    proof {
        assert(input.take(0).filter(f) =~= Seq::<T>::empty());
    }
    while rest.len() > 0
        invariant
            f == keep@,
            forall|e: &T| #[trigger] decide.requires((e,)),
            forall|e: &T, x: bool| decide.ensures((e,), x) ==> x == f(*e),
            rest@.len() <= input.len(),
            forall|k: int| 0 <= k < rest@.len() ==> #[trigger] rest@[k] == input[input.len() - 1 - k],
            out@ == input.take(input.len() - rest@.len()).filter(f),
        decreases rest@.len(),
    {
        let ghost done = input.len() - rest@.len();
        let e = rest.pop().unwrap();
        proof {
            assert(e == input[done]);
            assert(input.take(done + 1) =~= input.take(done).push(e));
            input.take(done).lemma_filter_push(e, f);
        }
        if decide(&e) {
            out.push(e);
        }
    }
    proof {
        assert(input.take(input.len() as int) =~= input);
    }
    out
}

/// Before anything reads a patched graph's edges, every plugin contribution goes: the
/// plugin-provenance edges and the wholly plugin-derived annotation sets. The plugin
/// round re-runs on the patched graph. Everything else stands.
pub fn drop_plugin_contributions(g: &mut ProjectGraph)
    ensures
        final(g).edges@ == old(g).edges@.filter(kept_after_plugins()),
        final(g).externally_consumed@.len() == 0,
        final(g).plugin_implicitly_invoked@.len() == 0,
        *final(g) == (ProjectGraph {
            edges: final(g).edges,
            externally_consumed: final(g).externally_consumed,
            plugin_implicitly_invoked: final(g).plugin_implicitly_invoked,
            ..*old(g)
        }),
{
    let mut edges: Vec<Edge> = Vec::new();
    std::mem::swap(&mut edges, &mut g.edges);
    let decide = (|e: &Edge| -> (r: bool)
        ensures
            r == !is_plugin_edge(*e),
        {
            match e.source {
                Provenance::Plugin(_) => false,
                _ => true,
            }
        });
    let kept = retain_by(edges, Ghost(kept_after_plugins()), decide);
    g.edges = kept;
    g.externally_consumed = Vec::new();
    g.plugin_implicitly_invoked = Vec::new();
}

/// Whether file `f` is one of the changed files.
pub open spec fn is_changed(changed: Seq<usize>, f: u32) -> bool {
    exists|q: int| 0 <= q < changed.len() && changed[q] == f as usize
}

/// The test "owned by an unchanged file".
pub open spec fn edge_kept(changed: Seq<usize>) -> spec_fn(Edge) -> bool {
    |e: Edge| !is_changed(changed, e.owner.0)
}

/// The test "measures a symbol of an unchanged file".
pub open spec fn metric_kept(changed: Seq<usize>, symbols: Seq<SymbolNode>) -> spec_fn((SymbolId, SymbolMetrics)) -> bool {
    |m: (SymbolId, SymbolMetrics)| !(m.0.0 < symbols.len() && is_changed(changed, symbols[m.0.0 as int].file.0))
}

/// The test "a suppression in an unchanged file".
pub open spec fn suppression_kept(changed: Seq<usize>) -> spec_fn((FileId, RawSuppression)) -> bool {
    |s: (FileId, RawSuppression)| !is_changed(changed, s.0.0)
}

/// Per file, whether it changed.
fn changed_mask(changed: &[usize], file_count: usize) -> (r: Vec<bool>)
    requires
        forall|q: int| 0 <= q < changed@.len() ==> #[trigger] changed@[q] < file_count,
    ensures
        r@.len() == file_count,
        forall|f: u32| (f < file_count && r@[f as int]) == #[trigger] is_changed(changed@, f),
{
    let mut mask: Vec<bool> = Vec::new();
    let mut i: usize = 0;
    while i < file_count
        invariant
            i <= file_count,
            mask@.len() == i,
            forall|f: int| 0 <= f < i ==> !#[trigger] mask@[f],
        decreases file_count - i,
    {
        mask.push(false);
        i = i + 1;
    }
    let mut q: usize = 0;
    while q < changed.len()
        invariant
            q <= changed@.len(),
            mask@.len() == file_count,
            forall|k: int| 0 <= k < changed@.len() ==> #[trigger] changed@[k] < file_count,
            forall|f: int| 0 <= f < file_count ==> (#[trigger] mask@[f] <==> exists|k: int| 0 <= k < q && changed@[k] == f),
        decreases changed@.len() - q,
    {
        let c = changed[q];
        mask.set(c, true);
        proof {
            assert forall|f: int| 0 <= f < file_count implies (#[trigger] mask@[f] <==> exists|k: int| 0 <= k < q + 1 && changed@[k] == f) by {
                if f == c {
                    assert(changed@[q as int] == f);
                }
            }
        }
        q = q + 1;
    }
    proof {
        assert forall|f: u32| (f < file_count && mask@[f as int]) == #[trigger] is_changed(changed@, f) by {
            if is_changed(changed@, f) {
                let k = choose|k: int| 0 <= k < changed@.len() && changed@[k] == f as usize;
                assert(changed@[k] < file_count);
            }
        }
    }
    mask
}

/// Everything the changed files own goes (exact, since every edge records the file
/// whose change invalidates it): their edges, the metrics of their symbols, their
/// suppressions. Everything else stands.
pub fn drop_changed_contributions(g: &mut ProjectGraph, changed: &[usize])
    requires
        forall|q: int| 0 <= q < changed@.len() ==> #[trigger] changed@[q] < old(g).files@.len(),
        forall|m: int| 0 <= m < old(g).function_metrics@.len() ==> (#[trigger] old(g).function_metrics@[m]).0.0 < old(g).symbols@.len(),
    ensures
        final(g).edges@ == old(g).edges@.filter(edge_kept(changed@)),
        final(g).function_metrics@ == old(g).function_metrics@.filter(metric_kept(changed@, old(g).symbols@)),
        final(g).suppressions@ == old(g).suppressions@.filter(suppression_kept(changed@)),
        *final(g) == (ProjectGraph {
            edges: final(g).edges,
            function_metrics: final(g).function_metrics,
            suppressions: final(g).suppressions,
            ..*old(g)
        }),
{
    let mask = changed_mask(changed, g.files.len());
    let ghost symbols = g.symbols@;
    let mut edges: Vec<Edge> = Vec::new();
    std::mem::swap(&mut edges, &mut g.edges);
    let keep_edge = (|e: &Edge| -> (r: bool)
        ensures
            r == !is_changed(changed@, e.owner.0),
        {
            let f = e.owner.0 as usize;
            !(f < mask.len() && mask[f])
        });
    g.edges = retain_by(edges, Ghost(edge_kept(changed@)), keep_edge);
    let mut metrics: Vec<(SymbolId, SymbolMetrics)> = Vec::new();
    std::mem::swap(&mut metrics, &mut g.function_metrics);
    let syms = &g.symbols;
    let keep_metric = (|m: &(SymbolId, SymbolMetrics)| -> (r: bool)
        ensures
            r == !(m.0.0 < syms@.len() && is_changed(changed@, syms@[m.0.0 as int].file.0)),
        {
            let id = m.0.0 as usize;
            if id < syms.len() {
                let f = syms[id].file.0 as usize;
                !(f < mask.len() && mask[f])
            } else {
                true
            }
        });
    g.function_metrics = retain_by(metrics, Ghost(metric_kept(changed@, symbols)), keep_metric);
    let mut suppressions: Vec<(FileId, RawSuppression)> = Vec::new();
    std::mem::swap(&mut suppressions, &mut g.suppressions);
    let keep_suppression = (|s: &(FileId, RawSuppression)| -> (r: bool)
        ensures
            r == !is_changed(changed@, s.0.0),
        {
            let f = s.0.0 as usize;
            !(f < mask.len() && mask[f])
        });
    g.suppressions = retain_by(suppressions, Ghost(suppression_kept(changed@)), keep_suppression);
}

/// Spans order by start, then end, each by `(line, column)`.
pub open spec fn span_le(a: Span, b: Span) -> bool {
    (a.start != b.start && pos_le(a.start, b.start)) || (a.start == b.start && pos_le(a.end, b.end))
}

/// `span_le`, as a value.
pub open spec fn span_le_fn() -> spec_fn(Span, Span) -> bool {
    |a: Span, b: Span| span_le(a, b)
}

/// A span as itself.
pub open spec fn span_view_fn() -> spec_fn(Span) -> Span {
    |s: Span| s
}

proof fn lemma_span_order()
    ensures
        total_order(span_le_fn()),
{
}

fn span_le_exec(a: &Span, b: &Span) -> (r: bool)
    ensures
        r == span_le(*a, *b),
{
    if a.start.0 != b.start.0 || a.start.1 != b.start.1 {
        crate::vocab::position_le(a.start, b.start)
    } else {
        crate::vocab::position_le(a.end, b.end)
    }
}

/// Test-region extents in order.
pub fn sorted_spans(spans: &[Span]) -> (r: Vec<Span>)
    ensures
        r@.to_multiset() == spans@.to_multiset(),
        ascending_by(r@, span_le_fn()),
{
    let mut v: Vec<Span> = Vec::new();
    let mut i: usize = 0;
    while i < spans.len()
        invariant
            i <= spans@.len(),
            v@ == spans@.take(i as int),
        decreases spans@.len() - i,
    {
        v.push(spans[i]);
        i = i + 1;
        proof {
            assert(v@ =~= spans@.take(i as int));
        }
    }
    proof {
        assert(spans@.take(spans@.len() as int) =~= spans@);
        lemma_span_order();
        assert(v@.map_values(span_view_fn()) =~= v@);
    }
    let precedes = (|a: &Span, b: &Span| -> (r: bool)
        ensures
            r == span_le(*a, *b),
        { span_le_exec(a, b) });
    let sorted = sort_by_view::<Span, Span, _>(v, Ghost(span_view_fn()), Ghost(span_le_fn()), precedes);
    proof {
        assert(sorted@.map_values(span_view_fn()) =~= sorted@);
    }
    sorted
}

fn placeholder_symbol() -> (r: SymbolNode) {
    SymbolNode {
        file: FileId(0),
        name: String::new(),
        kind: SymbolKind::Function,
        span: Span { start: (0, 0), end: (0, 0) },
        exported: false,
        visibility: VisibilityLevel(0),
        member_of: None,
        signature_span: None,
        implicitly_invoked: false,
        nested_scope: false,
        visibility_inherited: false,
        visible_in_unit: None,
        implements: None,
        markers: Vec::new(),
    }
}

fn placeholder_file() -> (r: FileNode) {
    FileNode {
        path: ProjectPath(String::new()),
        content_hash: [0u8; 32],
        language: None,
        class: None,
        package: PackageId(0),
        unit: None,
        unit_parent: None,
        test_spans: Vec::new(),
    }
}

/// A symbol with the fresh declaration's extents.
pub open spec fn respanned(s: SymbolNode, d: Declaration) -> SymbolNode {
    SymbolNode { span: d.span, signature_span: d.signature_span, ..s }
}

/// A changed file's body-level facts, refreshed in place: its content hash, the extents
/// of its declarations' symbols (`start` onward, one per fresh declaration), its
/// test-region extents (in order) and its surface signature. Spans move with every
/// edit; nothing that resolution reads changes.
pub fn refresh_changed_file(
    g: &mut ProjectGraph,
    c: usize,
    start: u32,
    decls: &[Declaration],
    test_spans: &[Span],
    content_hash: [u8; 32],
    surface_sig: [u8; 32],
)
    requires
        c < old(g).files@.len(),
        c < old(g).patch_meta@.len(),
        start + decls@.len() <= old(g).symbols@.len(),
    ensures
        final(g).files@.len() == old(g).files@.len(),
        forall|f: int| 0 <= f < final(g).files@.len() && f != c ==> #[trigger] final(g).files@[f] == old(g).files@[f],
        final(g).files@[c as int] == (FileNode {
            content_hash,
            test_spans: final(g).files@[c as int].test_spans,
            ..old(g).files@[c as int]
        }),
        final(g).files@[c as int].test_spans@.to_multiset() == test_spans@.to_multiset(),
        ascending_by(final(g).files@[c as int].test_spans@, span_le_fn()),
        final(g).symbols@.len() == old(g).symbols@.len(),
        forall|i: int|
            0 <= i < final(g).symbols@.len() ==> #[trigger] final(g).symbols@[i] == if start <= i < start + decls@.len() {
                respanned(old(g).symbols@[i], decls@[i - start])
            } else {
                old(g).symbols@[i]
            },
        final(g).patch_meta@.len() == old(g).patch_meta@.len(),
        forall|f: int| 0 <= f < final(g).patch_meta@.len() && f != c ==> #[trigger] final(g).patch_meta@[f] == old(g).patch_meta@[f],
        final(g).patch_meta@[c as int] == (crate::graph::FilePatchMeta {
            surface_sig: Some(surface_sig),
            ..old(g).patch_meta@[c as int]
        }),
        *final(g) == (ProjectGraph {
            files: final(g).files,
            symbols: final(g).symbols,
            patch_meta: final(g).patch_meta,
            ..*old(g)
        }),
{
    let ghost old_symbols = g.symbols@;
    let mut file = placeholder_file();
    g.files.set_and_swap(c, &mut file);
    file.content_hash = content_hash;
    file.test_spans = sorted_spans(test_spans);
    g.files.set_and_swap(c, &mut file);
    let mut meta = crate::graph::FilePatchMeta {
        surface_sig: None,
        unit_name: None,
        reexport_aliases: Vec::new(),
        member_types: Vec::new(),
        module_bindings: Vec::new(),
    };
    g.patch_meta.set_and_swap(c, &mut meta);
    meta.surface_sig = Some(surface_sig);
    g.patch_meta.set_and_swap(c, &mut meta);
    let ghost pre = *g;
    let n = g.symbols.len();
    let mut d: usize = 0;
    while d < decls.len()
        invariant
            n == g.symbols@.len() == old_symbols.len(),
            start + decls@.len() <= n,
            d <= decls@.len(),
            *g == (ProjectGraph { symbols: g.symbols, ..pre }),
            forall|i: int|
                0 <= i < g.symbols@.len() ==> #[trigger] g.symbols@[i] == if start <= i < start + d {
                    respanned(old_symbols[i], decls@[i - start])
                } else {
                    old_symbols[i]
                },
        decreases decls@.len() - d,
    {
        let i = start as usize + d;
        let mut sym = placeholder_symbol();
        g.symbols.set_and_swap(i, &mut sym);
        sym.span = decls[d].span;
        sym.signature_span = decls[d].signature_span;
        g.symbols.set_and_swap(i, &mut sym);
        d = d + 1;
    }
}

/// The library roots the kept edges say the changed files are, after the first `k`
/// edges: each production root on a changed file raises it to the surer confidence.
pub open spec fn kept_library_roots_upto(edges: Seq<Edge>, changed: Seq<usize>, k: int) -> Map<u32, Confidence>
    decreases k,
{
    if k <= 0 {
        Map::empty()
    } else {
        let before = kept_library_roots_upto(edges, changed, k - 1);
        let e = edges[k - 1];
        match e.kind {
            EdgeKind::Root { kind: RootKind::Production, target: NodeRef::File(f) } => if is_changed(changed, f.0) {
                crate::graph::manifests::raised(before, f.0, e.confidence)
            } else {
                before
            },
            _ => before,
        }
    }
}

/// The changed files' library roots, re-derived from the edges that survived the patch
/// (the manifest-owned ones; a changed file's own roots regenerate after): every
/// production whole-file root on a changed file, at the surest confidence among them.
pub fn kept_library_roots(edges: &[Edge], changed: &[usize], file_count: usize) -> (r: FxHashMap<u32, Confidence>)
    requires
        forall|q: int| 0 <= q < changed@.len() ==> #[trigger] changed@[q] < file_count,
    ensures
        r@ == kept_library_roots_upto(edges@, changed@, edges@.len() as int),
{
    let mask = changed_mask(changed, file_count);
    let mut roots = confidences_new();
    let mut k: usize = 0;
    while k < edges.len()
        invariant
            k <= edges@.len(),
            mask@.len() == file_count,
            forall|f: u32| (f < file_count && mask@[f as int]) == #[trigger] is_changed(changed@, f),
            roots@ == kept_library_roots_upto(edges@, changed@, k as int),
        decreases edges@.len() - k,
    {
        let e = &edges[k];
        match e.kind {
            EdgeKind::Root { kind: RootKind::Production, target: NodeRef::File(f) } => {
                let t = f.0 as usize;
                if t < mask.len() && mask[t] {
                    proof {
                        assert(is_changed(changed@, f.0));
                    }
                    let raised_to = match confidences_get(&roots, f.0) {
                        Some(held) => if held.rank() >= e.confidence.rank() {
                            held
                        } else {
                            e.confidence
                        },
                        None => e.confidence,
                    };
                    confidences_insert(&mut roots, f.0, raised_to);
                } else {
                    proof {
                        assert(!is_changed(changed@, f.0));
                    }
                }
            },
            _ => {},
        }
        k = k + 1;
    }
    roots
}

/// Whether no changed file is a manifest (`is_manifest[f]`, as the adapters claim
/// manifests): manifests feed global inputs, which no patch re-derives.
pub open spec fn no_manifest_changed(changed: Seq<int>, is_manifest: Seq<bool>) -> bool {
    forall|q: int| 0 <= q < changed.len() ==> !is_manifest[#[trigger] changed[q]]
}

/// The guards a patch passes before anything is extracted: those of `patch_changes`,
/// and no changed file a manifest. The files to re-extract, or `None` for a full
/// rebuild.
pub fn patch_plan(
    g: &ProjectGraph,
    snapshot_schema: u32,
    snapshot_plugins: &[u8; 32],
    current_plugins: &[u8; 32],
    discovered: &[DiscoveredFile],
    is_manifest: &[bool],
) -> (r: Option<Vec<usize>>)
    requires
        is_manifest@.len() == discovered@.len(),
    ensures
        match patch_candidates(*g, snapshot_schema, snapshot_plugins@, current_plugins@, discovered@) {
            Some(changed) => if no_manifest_changed(changed, is_manifest@) {
                r matches Some(v) && v@.len() == changed.len() && forall|q: int|
                    0 <= q < changed.len() ==> #[trigger] v@[q] as int == changed[q]
            } else {
                r is None
            },
            None => r is None,
        },
{
    let changed = match patch_changes(g, snapshot_schema, snapshot_plugins, current_plugins, discovered) {
        Some(c) => c,
        None => return None,
    };
    let ghost cands = patch_candidates(*g, snapshot_schema, snapshot_plugins@, current_plugins@, discovered@)->0;
    proof {
        lemma_changed_in_range(*g, discovered@, discovered@.len() as int);
    }
    let mut q: usize = 0;
    while q < changed.len()
        invariant
            q <= changed@.len() == cands.len(),
            patch_candidates(*g, snapshot_schema, snapshot_plugins@, current_plugins@, discovered@) == Some(cands),
            is_manifest@.len() == discovered@.len(),
            forall|k: int| 0 <= k < cands.len() ==> #[trigger] changed@[k] as int == cands[k],
            forall|k: int| 0 <= k < cands.len() ==> 0 <= #[trigger] cands[k] < discovered@.len(),
            forall|k: int| 0 <= k < q ==> !is_manifest@[#[trigger] cands[k]],
        decreases changed@.len() - q,
    {
        if is_manifest[changed[q]] {
            proof {
                assert(!no_manifest_changed(cands, is_manifest@)) by {
                    assert(is_manifest@[cands[q as int]]);
                }
            }
            return None;
        }
        q = q + 1;
    }
    Some(changed)
}

proof fn lemma_changed_in_range(g: ProjectGraph, discovered: Seq<DiscoveredFile>, k: int)
    requires
        0 <= k <= discovered.len(),
    ensures
        forall|q: int| 0 <= q < changed_upto(g, discovered, k).len() ==> 0 <= #[trigger] changed_upto(g, discovered, k)[q] < k,
    decreases k,
{
    if k > 0 {
        lemma_changed_in_range(g, discovered, k - 1);
        let prev = changed_upto(g, discovered, k - 1);
        let now = changed_upto(g, discovered, k);
        assert forall|q: int| 0 <= q < now.len() implies 0 <= #[trigger] now[q] < k by {
            if q < prev.len() {
                assert(now[q] == prev[q]);
            }
        }
    }
}

/// What a changed file extracts to afresh, as far as the patch reads it: its
/// declarations, its test regions and its surface signature.
#[derive(Debug, Clone)]
pub struct FreshFile {
    pub declarations: Vec<Declaration>,
    pub test_spans: Vec<Span>,
    pub surface_sig: [u8; 32],
}

/// Whether changed file `c`'s fresh extraction leaves resolution untouched: an unclaimed
/// file stays unclaimed; a claimed one keeps its stored surface signature and its run of
/// symbols lines up with its fresh declarations.
pub open spec fn aligned(g: ProjectGraph, c: int, fresh: Option<FreshFile>, run: (u32, u32)) -> bool {
    match fresh {
        None => g.files@[c].language is None,
        Some(f) => (g.patch_meta@[c].surface_sig matches Some(sig) && sig@ == f.surface_sig@) && run.1 - run.0
            == f.declarations@.len()
            && forall|d: int|
            0 <= d < f.declarations@.len() ==> symbol_matches(#[trigger] g.symbols@[run.0 + d], f.declarations@[d]),
    }
}

/// The alignment guards, once the changed files (`changed`, ascending) are extracted
/// afresh (`fresh[q]` is `changed[q]`'s; `None` where no adapter claims it): each
/// changed file aligned, and the symbols laid out in contiguous runs. The runs, or
/// `None` for a full rebuild.
pub fn patch_alignment(g: &ProjectGraph, changed: &[usize], fresh: &[Option<FreshFile>]) -> (r: Option<Vec<(u32, u32)>>)
    requires
        fresh@.len() == changed@.len(),
        g.patch_meta@.len() == g.files@.len(),
        g.symbols@.len() < u32::MAX,
        forall|q: int| 0 <= q < changed@.len() ==> #[trigger] changed@[q] < g.files@.len(),
        forall|i: int| 0 <= i < g.symbols@.len() ==> (#[trigger] g.symbols@[i]).file.0 < g.files@.len(),
    ensures
        r is Some <==> (runs_contiguous(g.symbols@) && forall|q: int|
            0 <= q < changed@.len() ==> aligned(
                *g,
                #[trigger] changed@[q] as int,
                fresh@[q],
                choose|run: (u32, u32)| is_run_of(g.symbols@, changed@[q] as int, run),
            )),
        r matches Some(runs) ==> runs@.len() == g.files@.len() && forall|f: int|
            0 <= f < g.files@.len() ==> is_run_of(g.symbols@, f, #[trigger] runs@[f]),
{
    let runs = match symbol_runs(g.symbols.as_slice(), g.files.len()) {
        Some(r) => r,
        None => return None,
    };
    proof {
        assert forall|f: int| 0 <= f < g.files@.len() implies (choose|run: (u32, u32)| is_run_of(g.symbols@, f, run)) == runs@[f] by {
            assert(is_run_of(g.symbols@, f, runs@[f]));
            let other = choose|run: (u32, u32)| is_run_of(g.symbols@, f, run);
            lemma_run_unique(g.symbols@, f, other, runs@[f]);
        }
    }
    let mut q: usize = 0;
    while q < changed.len()
        invariant
            q <= changed@.len() == fresh@.len(),
            runs@.len() == g.files@.len(),
            g.patch_meta@.len() == g.files@.len(),
            forall|k: int| 0 <= k < changed@.len() ==> #[trigger] changed@[k] < g.files@.len(),
            forall|f: int| 0 <= f < g.files@.len() ==> is_run_of(g.symbols@, f, #[trigger] runs@[f]),
            forall|f: int|
                0 <= f < g.files@.len() ==> (choose|run: (u32, u32)| is_run_of(g.symbols@, f, run)) == #[trigger] runs@[f],
            forall|k: int| 0 <= k < q ==> aligned(*g, #[trigger] changed@[k] as int, fresh@[k], runs@[changed@[k] as int]),
        decreases changed@.len() - q,
    {
        let c = changed[q];
        let ok = match &fresh[q] {
            None => g.files[c].language.is_none(),
            Some(f) => {
                let same_sig = match &g.patch_meta[c].surface_sig {
                    Some(sig) => same_digest(sig, &f.surface_sig),
                    None => false,
                };
                same_sig && run_matches(g.symbols.as_slice(), runs[c], f.declarations.as_slice())
            },
        };
        if !ok {
            proof {
                assert(!aligned(*g, changed@[q as int] as int, fresh@[q as int], runs@[c as int]));
            }
            return None;
        }
        proof {
            assert(aligned(*g, c as int, fresh@[q as int], runs@[c as int]));
        }
        q = q + 1;
    }
    Some(runs)
}

proof fn lemma_run_unique(symbols: Seq<SymbolNode>, f: int, a: (u32, u32), b: (u32, u32))
    requires
        is_run_of(symbols, f, a),
        is_run_of(symbols, f, b),
    ensures
        a == b,
{
    if a.0 < a.1 {
        assert(symbols[a.0 as int].file.0 == f);
        assert(symbols[a.1 - 1].file.0 == f);
        if b.0 < a.0 {
            assert(symbols[b.0 as int].file.0 == f);
        }
        if a.0 < b.0 {
            assert(b.0 <= a.0) by {
                if b.0 > a.0 {
                    assert(!(b.0 <= a.0 < b.1));
                }
            }
        }
        if b.1 < a.1 {
            assert(!(b.0 <= a.1 - 1 < b.1));
        }
        if a.1 < b.1 {
            assert(symbols[b.1 - 1].file.0 == f);
        }
    } else {
        if b.0 < b.1 {
            assert(symbols[b.0 as int].file.0 == f);
        }
    }
}

/// Strictly increasing file indices.
pub open spec fn strictly_ascending(s: Seq<usize>) -> bool {
    forall|i: int, j: int| 0 <= i < j < s.len() ==> s[i] < s[j]
}

/// The position of file `f` among the changed files, if it is one.
pub open spec fn changed_at(changed: Seq<usize>, f: int) -> Option<int> {
    if exists|q: int| 0 <= q < changed.len() && changed[q] == f {
        Some(choose|q: int| 0 <= q < changed.len() && changed[q] == f)
    } else {
        None
    }
}

proof fn lemma_changed_at(changed: Seq<usize>, q: int)
    requires
        strictly_ascending(changed),
        0 <= q < changed.len(),
    ensures
        changed_at(changed, changed[q] as int) == Some(q),
{
    let w = choose|w: int| 0 <= w < changed.len() && changed[w] == changed[q] as int;
    if w < q {
        assert(changed[w] < changed[q]);
    } else if q < w {
        assert(changed[q] < changed[w]);
    }
}

/// Symbol `s` once the patch has refreshed it: a symbol of a changed file that was
/// extracted afresh takes its fresh declaration's extents; every other stands.
pub open spec fn patched_symbol(
    symbols: Seq<SymbolNode>,
    changed: Seq<usize>,
    runs: Seq<(u32, u32)>,
    fresh: Seq<Option<FreshFile>>,
    s: int,
) -> SymbolNode {
    let f = symbols[s].file.0 as int;
    match changed_at(changed, f) {
        Some(q) => match fresh[q] {
            Some(ff) => respanned(symbols[s], ff.declarations@[s - runs[f].0]),
            None => symbols[s],
        },
        None => symbols[s],
    }
}

/// Whether file node `after` is `before` refreshed for a changed file: the discovered
/// content hash, and, when extracted afresh, its test regions in order.
pub open spec fn patched_file(before: FileNode, after: FileNode, hash: [u8; 32], fresh: Option<FreshFile>) -> bool {
    &&& after == (FileNode { content_hash: hash, test_spans: after.test_spans, ..before })
    &&& match fresh {
        Some(ff) => after.test_spans@.to_multiset() == ff.test_spans@.to_multiset() && ascending_by(
            after.test_spans@,
            span_le_fn(),
        ),
        None => after.test_spans == before.test_spans,
    }
}

fn placeholder_meta() -> (r: crate::graph::FilePatchMeta) {
    crate::graph::FilePatchMeta {
        surface_sig: None,
        unit_name: None,
        reexport_aliases: Vec::new(),
        member_types: Vec::new(),
        module_bindings: Vec::new(),
    }
}

/// The patch's mutations, once every guard has passed, in the order they must run:
/// first every plugin contribution goes (the plugin round re-runs on the patched
/// graph), then each changed file is refreshed (content hash; for one extracted afresh,
/// its symbols' extents, its test regions and its surface signature), then everything
/// the changed files own goes. `runs` are the symbol runs and `fresh[q]` the fresh
/// extraction of `changed[q]`, aligned as `patch_alignment` checks.
#[verifier::rlimit(50)]
pub fn refresh_patched_files(
    g: &mut ProjectGraph,
    changed: &[usize],
    runs: &[(u32, u32)],
    fresh: &[Option<FreshFile>],
    discovered: &[DiscoveredFile],
)
    requires
        fresh@.len() == changed@.len(),
        old(g).files@.len() == discovered@.len() == old(g).patch_meta@.len() == runs@.len(),
        strictly_ascending(changed@),
        forall|q: int| 0 <= q < changed@.len() ==> #[trigger] changed@[q] < old(g).files@.len(),
        forall|f: int| 0 <= f < runs@.len() ==> is_run_of(old(g).symbols@, f, #[trigger] runs@[f]),
        forall|q: int| 0 <= q < changed@.len() ==> aligned(*old(g), #[trigger] changed@[q] as int, fresh@[q], runs@[changed@[q] as int]),
        forall|m: int| 0 <= m < old(g).function_metrics@.len() ==> (#[trigger] old(g).function_metrics@[m]).0.0 < old(g).symbols@.len(),
    ensures
        final(g).edges@ == old(g).edges@.filter(kept_after_plugins()).filter(edge_kept(changed@)),
        final(g).externally_consumed@.len() == 0,
        final(g).plugin_implicitly_invoked@.len() == 0,
        final(g).function_metrics@ == old(g).function_metrics@.filter(metric_kept(changed@, old(g).symbols@)),
        final(g).suppressions@ == old(g).suppressions@.filter(suppression_kept(changed@)),
        final(g).files@.len() == old(g).files@.len(),
        forall|f: int|
            0 <= f < final(g).files@.len() ==> match changed_at(changed@, f) {
                Some(q) => patched_file(old(g).files@[f], #[trigger] final(g).files@[f], discovered@[f].content_hash, fresh@[q]),
                None => final(g).files@[f] == old(g).files@[f],
            },
        final(g).symbols@.len() == old(g).symbols@.len(),
        forall|s: int|
            0 <= s < final(g).symbols@.len() ==> #[trigger] final(g).symbols@[s] == patched_symbol(
                old(g).symbols@,
                changed@,
                runs@,
                fresh@,
                s,
            ),
        final(g).patch_meta@.len() == old(g).patch_meta@.len(),
        forall|f: int|
            0 <= f < final(g).patch_meta@.len() ==> #[trigger] final(g).patch_meta@[f] == match changed_at(changed@, f) {
                Some(q) => match fresh@[q] {
                    Some(ff) => crate::graph::FilePatchMeta { surface_sig: Some(ff.surface_sig), ..old(g).patch_meta@[f] },
                    None => old(g).patch_meta@[f],
                },
                None => old(g).patch_meta@[f],
            },
        *final(g) == (ProjectGraph {
            edges: final(g).edges,
            externally_consumed: final(g).externally_consumed,
            plugin_implicitly_invoked: final(g).plugin_implicitly_invoked,
            function_metrics: final(g).function_metrics,
            suppressions: final(g).suppressions,
            files: final(g).files,
            symbols: final(g).symbols,
            patch_meta: final(g).patch_meta,
            ..*old(g)
        }),
{
    let ghost g0 = *g;
    drop_plugin_contributions(g);
    let ghost g1 = *g;
    let mut q: usize = 0;
    while q < changed.len()
        invariant
            q <= changed@.len() == fresh@.len(),
            g0.files@.len() == discovered@.len() == g0.patch_meta@.len() == runs@.len(),
            strictly_ascending(changed@),
            forall|k: int| 0 <= k < changed@.len() ==> #[trigger] changed@[k] < g0.files@.len(),
            forall|f: int| 0 <= f < runs@.len() ==> is_run_of(g0.symbols@, f, #[trigger] runs@[f]),
            forall|k: int| 0 <= k < changed@.len() ==> aligned(g0, #[trigger] changed@[k] as int, fresh@[k], runs@[changed@[k] as int]),
            *g == (ProjectGraph { files: g.files, symbols: g.symbols, patch_meta: g.patch_meta, ..g1 }),
            g1 == (ProjectGraph {
                edges: g1.edges,
                externally_consumed: g1.externally_consumed,
                plugin_implicitly_invoked: g1.plugin_implicitly_invoked,
                ..g0
            }),
            g.files@.len() == g0.files@.len(),
            g.symbols@.len() == g0.symbols@.len(),
            g.patch_meta@.len() == g0.patch_meta@.len(),
            forall|f: int|
                0 <= f < g.files@.len() ==> match changed_at(changed@, f) {
                    Some(k) => if k < q {
                        patched_file(g0.files@[f], #[trigger] g.files@[f], discovered@[f].content_hash, fresh@[k])
                    } else {
                        g.files@[f] == g0.files@[f]
                    },
                    None => g.files@[f] == g0.files@[f],
                },
            forall|s: int|
                0 <= s < g.symbols@.len() ==> #[trigger] g.symbols@[s] == match changed_at(changed@, g0.symbols@[s].file.0 as int) {
                    Some(k) => if k < q {
                        patched_symbol(g0.symbols@, changed@, runs@, fresh@, s)
                    } else {
                        g0.symbols@[s]
                    },
                    None => g0.symbols@[s],
                },
            forall|f: int|
                0 <= f < g.patch_meta@.len() ==> #[trigger] g.patch_meta@[f] == match changed_at(changed@, f) {
                    Some(k) => if k < q {
                        match fresh@[k] {
                            Some(ff) => crate::graph::FilePatchMeta { surface_sig: Some(ff.surface_sig), ..g0.patch_meta@[f] },
                            None => g0.patch_meta@[f],
                        }
                    } else {
                        g0.patch_meta@[f]
                    },
                    None => g0.patch_meta@[f],
                },
        decreases changed@.len() - q,
    {
        let c = changed[q];
        proof {
            lemma_changed_at(changed@, q as int);
            assert(aligned(g0, c as int, fresh@[q as int], runs@[c as int]));
        }
        let ghost pre = *g;
        match &fresh[q] {
            Some(ff) => {
                let run = runs[c];
                proof {
                    assert(is_run_of(g0.symbols@, c as int, run));
                }
                refresh_changed_file(
                    g,
                    c,
                    run.0,
                    ff.declarations.as_slice(),
                    ff.test_spans.as_slice(),
                    discovered[c].content_hash,
                    ff.surface_sig,
                );
                proof {
                    assert forall|s: int| 0 <= s < g.symbols@.len() implies #[trigger] g.symbols@[s] == match changed_at(
                        changed@,
                        g0.symbols@[s].file.0 as int,
                    ) {
                        Some(k) => if k < q + 1 {
                            patched_symbol(g0.symbols@, changed@, runs@, fresh@, s)
                        } else {
                            g0.symbols@[s]
                        },
                        None => g0.symbols@[s],
                    } by {
                        let in_run = run.0 <= s < run.0 + ff.declarations@.len();
                        assert(in_run == (g0.symbols@[s].file.0 == c)) by {
                            assert(is_run_of(g0.symbols@, c as int, run));
                        }
                        if in_run {
                            assert(changed_at(changed@, c as int) == Some(q as int));
                            assert(pre.symbols@[s] == g0.symbols@[s]);
                        }
                    }
                    assert forall|f: int| 0 <= f < g.files@.len() implies match changed_at(changed@, f) {
                        Some(k) => if k < q + 1 {
                            patched_file(g0.files@[f], #[trigger] g.files@[f], discovered@[f].content_hash, fresh@[k])
                        } else {
                            g.files@[f] == g0.files@[f]
                        },
                        None => g.files@[f] == g0.files@[f],
                    } by {
                        if f == c {
                            assert(changed_at(changed@, f) == Some(q as int));
                            assert(pre.files@[f] == g0.files@[f]);
                        }
                    }
                    assert forall|f: int| 0 <= f < g.patch_meta@.len() implies #[trigger] g.patch_meta@[f] == match changed_at(
                        changed@,
                        f,
                    ) {
                        Some(k) => if k < q + 1 {
                            match fresh@[k] {
                                Some(ff2) => crate::graph::FilePatchMeta { surface_sig: Some(ff2.surface_sig), ..g0.patch_meta@[f] },
                                None => g0.patch_meta@[f],
                            }
                        } else {
                            g0.patch_meta@[f]
                        },
                        None => g0.patch_meta@[f],
                    } by {
                        if f == c {
                            assert(changed_at(changed@, f) == Some(q as int));
                            assert(pre.patch_meta@[f] == g0.patch_meta@[f]);
                        }
                    }
                }
            },
            None => {
                let mut node = placeholder_file();
                g.files.set_and_swap(c, &mut node);
                node.content_hash = discovered[c].content_hash;
                g.files.set_and_swap(c, &mut node);
                proof {
                    assert forall|f: int| 0 <= f < g.files@.len() implies match changed_at(changed@, f) {
                        Some(k) => if k < q + 1 {
                            patched_file(g0.files@[f], #[trigger] g.files@[f], discovered@[f].content_hash, fresh@[k])
                        } else {
                            g.files@[f] == g0.files@[f]
                        },
                        None => g.files@[f] == g0.files@[f],
                    } by {
                        if f == c {
                            assert(changed_at(changed@, f) == Some(q as int));
                            assert(pre.files@[f] == g0.files@[f]);
                        }
                    }
                    assert forall|s: int| 0 <= s < g.symbols@.len() implies #[trigger] g.symbols@[s] == match changed_at(
                        changed@,
                        g0.symbols@[s].file.0 as int,
                    ) {
                        Some(k) => if k < q + 1 {
                            patched_symbol(g0.symbols@, changed@, runs@, fresh@, s)
                        } else {
                            g0.symbols@[s]
                        },
                        None => g0.symbols@[s],
                    } by {
                        if g0.symbols@[s].file.0 == c {
                            assert(changed_at(changed@, c as int) == Some(q as int));
                        }
                    }
                }
            },
        }
        q = q + 1;
    }
    let ghost g2 = *g;
    proof {
        assert forall|m: int| 0 <= m < g.function_metrics@.len() implies (#[trigger] g.function_metrics@[m]).0.0 < g.symbols@.len() by {
            assert(g.function_metrics@[m] == g0.function_metrics@[m]);
        }
        assert forall|q2: int| 0 <= q2 < changed@.len() implies #[trigger] changed@[q2] < g.files@.len() by {}
    }
    drop_changed_contributions(g, changed);
    proof {
        assert(metric_kept(changed@, g2.symbols@) =~= metric_kept(changed@, g0.symbols@)) by {
            assert forall|m: (SymbolId, SymbolMetrics)| #[trigger] metric_kept(changed@, g2.symbols@)(m) == metric_kept(changed@, g0.symbols@)(m) by {
                if m.0.0 < g0.symbols@.len() {
                    let s = m.0.0 as int;
                    assert(g2.symbols@[s].file == g0.symbols@[s].file);
                }
            }
        }
        assert forall|s: int| 0 <= s < g.symbols@.len() implies #[trigger] g.symbols@[s] == patched_symbol(
            g0.symbols@,
            changed@,
            runs@,
            fresh@,
            s,
        ) by {
            assert(g.symbols@[s] == g2.symbols@[s]);
        }
    }
}

/// Each of the first `n` files' run of symbols.
pub open spec fn file_runs(symbols: Seq<SymbolNode>, n: nat) -> Seq<(u32, u32)> {
    Seq::new(n, |f: int| choose|run: (u32, u32)| is_run_of(symbols, f, run))
}

/// The patch once the changed files (`changed`, ascending, as `patch_plan` returns
/// them) are extracted afresh: when every alignment guard passes, the mutations of
/// `refresh_patched_files` run and `true` comes back; otherwise the graph is left exactly
/// as it was, for a full rebuild, and `false` comes back. No mutation precedes a guard.
pub fn apply_patch(g: &mut ProjectGraph, changed: &[usize], fresh: &[Option<FreshFile>], discovered: &[DiscoveredFile]) -> (r: bool)
    requires
        fresh@.len() == changed@.len(),
        old(g).files@.len() == discovered@.len() == old(g).patch_meta@.len(),
        old(g).symbols@.len() < u32::MAX,
        strictly_ascending(changed@),
        forall|q: int| 0 <= q < changed@.len() ==> #[trigger] changed@[q] < old(g).files@.len(),
        forall|i: int| 0 <= i < old(g).symbols@.len() ==> (#[trigger] old(g).symbols@[i]).file.0 < old(g).files@.len(),
        forall|m: int| 0 <= m < old(g).function_metrics@.len() ==> (#[trigger] old(g).function_metrics@[m]).0.0 < old(g).symbols@.len(),
    ensures
        r == (runs_contiguous(old(g).symbols@) && forall|q: int|
            0 <= q < changed@.len() ==> aligned(
                *old(g),
                #[trigger] changed@[q] as int,
                fresh@[q],
                choose|run: (u32, u32)| is_run_of(old(g).symbols@, changed@[q] as int, run),
            )),
        !r ==> *final(g) == *old(g),
        r ==> final(g).edges@ == old(g).edges@.filter(kept_after_plugins()).filter(edge_kept(changed@)),
        r ==> final(g).externally_consumed@.len() == 0 && final(g).plugin_implicitly_invoked@.len() == 0,
        r ==> final(g).function_metrics@ == old(g).function_metrics@.filter(metric_kept(changed@, old(g).symbols@)),
        r ==> final(g).suppressions@ == old(g).suppressions@.filter(suppression_kept(changed@)),
        r ==> final(g).files@.len() == old(g).files@.len() && forall|f: int|
            0 <= f < final(g).files@.len() ==> match changed_at(changed@, f) {
                Some(q) => patched_file(old(g).files@[f], #[trigger] final(g).files@[f], discovered@[f].content_hash, fresh@[q]),
                None => final(g).files@[f] == old(g).files@[f],
            },
        r ==> final(g).symbols@.len() == old(g).symbols@.len() && forall|s: int|
            0 <= s < final(g).symbols@.len() ==> #[trigger] final(g).symbols@[s] == patched_symbol(
                old(g).symbols@,
                changed@,
                file_runs(old(g).symbols@, old(g).files@.len()),
                fresh@,
                s,
            ),
{
    let runs = match patch_alignment(g, changed, fresh) {
        Some(runs) => runs,
        None => return false,
    };
    proof {
        assert forall|q: int| 0 <= q < changed@.len() implies aligned(*g, #[trigger] changed@[q] as int, fresh@[q], runs@[changed@[q] as int]) by {
            let c = changed@[q] as int;
            let other = choose|run: (u32, u32)| is_run_of(g.symbols@, c, run);
            assert(is_run_of(g.symbols@, c, runs@[c]));
            lemma_run_unique(g.symbols@, c, other, runs@[c]);
            assert(aligned(*g, c, fresh@[q], other));
        }
    }
    proof {
        assert forall|f: int| 0 <= f < runs@.len() implies runs@[f] == file_runs(g.symbols@, g.files@.len())[f] by {
            let other = choose|run: (u32, u32)| is_run_of(g.symbols@, f, run);
            assert(is_run_of(g.symbols@, f, runs@[f]));
            lemma_run_unique(g.symbols@, f, other, runs@[f]);
        }
        assert(runs@ =~= file_runs(g.symbols@, g.files@.len()));
    }
    refresh_patched_files(g, changed, runs.as_slice(), fresh, discovered);
    true
}

} // verus!
