use kndo_core::graph::patch::{apply_patch, patch_alignment, patch_plan, refresh_patched_files, FreshFile};
use kndo_core::graph::patch::kept_library_roots;
use rustc_hash::FxHashMap;
use kndo_core::graph::key::manifest_state;
use kndo_core::assembly::{hash_hex, patch_guard};
use kndo_core::graph::declarations::Declaration;
use kndo_core::graph::key::{DiscoveredFile, GRAPH_SCHEMA_VERSION};
use kndo_core::graph::patch::{
    drop_changed_contributions, drop_plugin_contributions, patch_changes, refresh_changed_file, run_matches,
    sorted_spans, symbol_runs,
};
use kndo_core::graph::{
    FileNode, FilePatchMeta, ProjectGraph, RawSuppression, SuppressionScope, SymbolKind, SymbolMetrics, SymbolNode,
};
use kndo_core::vocab::{
    Confidence, Edge, EdgeKind, FileId, NodeRef, PackageId, ProjectPath, Provenance, RootKind, Span, SymbolId,
    VisibilityLevel,
};

fn span(start: u32, end: u32) -> Span {
    Span {
        start: (start, 1),
        end: (end, 1),
    }
}

fn file(path: &str, hash: u8) -> FileNode {
    FileNode {
        path: ProjectPath(path.to_string()),
        content_hash: [hash; 32],
        language: Some("mock".to_string()),
        class: None,
        package: PackageId(0),
        unit: None,
        unit_parent: None,
        test_spans: Vec::new(),
    }
}

fn discovered(path: &str, hash: u8) -> DiscoveredFile {
    DiscoveredFile {
        path: ProjectPath(path.to_string()),
        content_hash: [hash; 32],
    }
}

fn sym(file: u32, name: &str, line: u32) -> SymbolNode {
    SymbolNode {
        file: FileId(file),
        name: name.to_string(),
        kind: SymbolKind::Function,
        span: span(line, line),
        exported: false,
        visibility: VisibilityLevel(0),
        member_of: None,
        signature_span: None,
        implicitly_invoked: false,
        nested_scope: false,
        visibility_inherited: false,
        visible_in_unit: None,
        implements: None,
        markers: Vec::new(),
    }
}

fn decl(name: &str, line: u32) -> Declaration {
    Declaration {
        name: name.to_string(),
        kind: SymbolKind::Function,
        span: span(line, line + 2),
        exported: false,
        visibility: VisibilityLevel(0),
        member_of: None,
        signature_span: Some(span(line, line)),
        nested_scope: false,
        visibility_inherited: false,
        implicitly_invoked: false,
    }
}

fn meta() -> FilePatchMeta {
    FilePatchMeta {
        surface_sig: None,
        unit_name: Some("unit".to_string()),
        reexport_aliases: Vec::new(),
        member_types: Vec::new(),
        module_bindings: Vec::new(),
    }
}

fn graph(files: Vec<FileNode>, symbols: Vec<SymbolNode>, edges: Vec<Edge>) -> ProjectGraph {
    let patch_meta = files.iter().map(|_| meta()).collect();
    ProjectGraph {
        files,
        symbols,
        dependencies: Vec::new(),
        declared_dependencies: Vec::new(),
        script_invoked_dependencies: Vec::new(),
        packages: Vec::new(),
        edges,
        suppressions: Vec::new(),
        visibility_ladders: Vec::new(),
        testable_languages: Vec::new(),
        cycle_policies: Vec::new(),
        function_metrics: Vec::new(),
        patch_meta,
        externally_consumed: Vec::new(),
        plugin_implicitly_invoked: Vec::new(),
        unresolved_imports: Vec::new(),
    }
}

fn root_edge(target: u32, source: Provenance, owner: u32) -> Edge {
    Edge {
        kind: EdgeKind::Root {
            kind: RootKind::Production,
            target: NodeRef::Symbol(SymbolId(target)),
        },
        confidence: Confidence::Certain,
        source,
        span: None,
        owner: FileId(owner),
    }
}

fn metrics(line: u32) -> SymbolMetrics {
    SymbolMetrics {
        shape_span: span(line, line),
        shape_ordinal: 0,
        cyclomatic: 1,
        loc: 1,
        token_count: 3,
        fingerprints: Vec::new(),
        body_is_construction: false,
    }
}

fn suppression(line: u32) -> RawSuppression {
    RawSuppression {
        span: span(line, line),
        category: "unused".to_string(),
        subject: None,
        reason: None,
        scope: SuppressionScope::Declaration,
    }
}

fn twenty_files(changed: &[usize]) -> (ProjectGraph, Vec<DiscoveredFile>) {
    let mut files = Vec::new();
    let mut found = Vec::new();
    for i in 0..20 {
        let path = format!("f{i}.mock");
        files.push(file(&path, 1));
        let hash = if changed.contains(&i) { 2 } else { 1 };
        found.push(discovered(&path, hash));
    }
    (graph(files, Vec::new(), Vec::new()), found)
}

#[test]
fn one_changed_file_in_twenty_is_patched() {
    let (g, found) = twenty_files(&[7]);
    let digest = [9u8; 32];
    assert_eq!(patch_changes(&g, GRAPH_SCHEMA_VERSION, &digest, &digest, &found), Some(vec![7]));
}

#[test]
fn more_than_a_twentieth_changed_refuses_the_patch() {
    let (g, found) = twenty_files(&[3, 7]);
    let digest = [9u8; 32];
    assert_eq!(patch_changes(&g, GRAPH_SCHEMA_VERSION, &digest, &digest, &found), None);
}

#[test]
fn nothing_changed_is_no_patch() {
    let (g, found) = twenty_files(&[]);
    let digest = [9u8; 32];
    assert_eq!(patch_changes(&g, GRAPH_SCHEMA_VERSION, &digest, &digest, &found), None);
}

#[test]
fn another_schema_or_plugin_set_refuses_the_patch() {
    let (g, found) = twenty_files(&[7]);
    let digest = [9u8; 32];
    let other = [8u8; 32];
    assert_eq!(patch_changes(&g, GRAPH_SCHEMA_VERSION + 1, &digest, &digest, &found), None);
    assert_eq!(patch_changes(&g, GRAPH_SCHEMA_VERSION, &digest, &other, &found), None);
}

#[test]
fn a_renamed_or_added_file_refuses_the_patch() {
    let (g, mut found) = twenty_files(&[7]);
    let digest = [9u8; 32];
    found[4] = discovered("renamed.mock", 1);
    assert_eq!(patch_changes(&g, GRAPH_SCHEMA_VERSION, &digest, &digest, &found), None);
    let (g, mut found) = twenty_files(&[7]);
    found.push(discovered("new.mock", 1));
    assert_eq!(patch_changes(&g, GRAPH_SCHEMA_VERSION, &digest, &digest, &found), None);
}

#[test]
fn symbol_runs_lay_out_each_files_declarations() {
    let symbols = vec![sym(0, "a", 1), sym(0, "b", 2), sym(2, "c", 1)];
    assert_eq!(symbol_runs(&symbols, 3), Some(vec![(0, 2), (0, 0), (2, 3)]));
}

#[test]
fn interleaved_symbol_runs_are_refused() {
    let symbols = vec![sym(0, "a", 1), sym(1, "b", 1), sym(0, "c", 2)];
    assert_eq!(symbol_runs(&symbols, 2), None);
}

#[test]
fn a_run_matches_its_fresh_declarations_whatever_their_spans() {
    let symbols = vec![sym(0, "a", 1), sym(1, "b", 1), sym(1, "c", 5)];
    let fresh = vec![decl("b", 10), decl("c", 20)];
    assert!(run_matches(&symbols, (1, 3), &fresh));
}

#[test]
fn a_renamed_or_added_declaration_breaks_the_run() {
    let symbols = vec![sym(0, "a", 1), sym(1, "b", 1), sym(1, "c", 5)];
    assert!(!run_matches(&symbols, (1, 3), &[decl("b", 1), decl("renamed", 5)]));
    assert!(!run_matches(&symbols, (1, 3), &[decl("b", 1), decl("c", 5), decl("brand_new", 9)]));
    let mut exported = decl("c", 5);
    exported.exported = true;
    assert!(!run_matches(&symbols, (1, 3), &[decl("b", 1), exported]));
}

#[test]
fn plugin_contributions_are_dropped_and_the_rest_stands() {
    let edges = vec![
        root_edge(0, Provenance::Adapter("mock".to_string()), 0),
        root_edge(1, Provenance::Plugin("marker".to_string()), 0),
        root_edge(2, Provenance::Surface, 1),
    ];
    let mut g = graph(vec![file("a.mock", 1), file("b.mock", 1)], Vec::new(), edges);
    g.externally_consumed = vec![SymbolId(1)];
    g.plugin_implicitly_invoked = vec![SymbolId(2)];
    drop_plugin_contributions(&mut g);
    assert_eq!(g.edges.len(), 2);
    assert!(matches!(&g.edges[0].source, Provenance::Adapter(a) if a == "mock"));
    assert!(matches!(g.edges[1].source, Provenance::Surface));
    assert!(g.externally_consumed.is_empty());
    assert!(g.plugin_implicitly_invoked.is_empty());
    assert_eq!(g.files.len(), 2);
}

#[test]
fn changed_files_lose_exactly_what_they_own() {
    let edges = vec![
        root_edge(0, Provenance::Adapter("mock".to_string()), 0),
        root_edge(1, Provenance::Adapter("mock".to_string()), 1),
        root_edge(2, Provenance::Adapter("mock".to_string()), 2),
    ];
    let symbols = vec![sym(0, "a", 1), sym(1, "b", 1), sym(2, "c", 1)];
    let mut g = graph(vec![file("a.mock", 1), file("b.mock", 1), file("c.mock", 1)], symbols, edges);
    g.function_metrics = vec![(SymbolId(0), metrics(1)), (SymbolId(1), metrics(2)), (SymbolId(2), metrics(3))];
    g.suppressions = vec![(FileId(1), suppression(1)), (FileId(2), suppression(2))];
    drop_changed_contributions(&mut g, &[1]);
    let owners: Vec<u32> = g.edges.iter().map(|e| e.owner.0).collect();
    assert_eq!(owners, vec![0, 2]);
    let measured: Vec<u32> = g.function_metrics.iter().map(|m| m.0 .0).collect();
    assert_eq!(measured, vec![0, 2]);
    let suppressed: Vec<u32> = g.suppressions.iter().map(|s| s.0 .0).collect();
    assert_eq!(suppressed, vec![2]);
    assert_eq!(g.symbols.len(), 3);
}

#[test]
fn test_region_extents_come_out_in_order() {
    let spans = vec![span(9, 12), span(1, 4), span(1, 2)];
    assert_eq!(sorted_spans(&spans), vec![span(1, 2), span(1, 4), span(9, 12)]);
}

#[test]
fn a_refreshed_file_moves_spans_and_nothing_else() {
    let symbols = vec![sym(0, "a", 1), sym(1, "b", 1), sym(1, "c", 5), sym(2, "d", 1)];
    let mut g = graph(vec![file("a.mock", 1), file("b.mock", 1), file("c.mock", 1)], symbols, Vec::new());
    let fresh = vec![decl("b", 3), decl("c", 8)];
    refresh_changed_file(&mut g, 1, 1, &fresh, &[span(7, 9), span(2, 3)], [5u8; 32], [6u8; 32]);
    assert_eq!(g.files[1].content_hash, [5u8; 32]);
    assert_eq!(g.files[1].test_spans, vec![span(2, 3), span(7, 9)]);
    assert_eq!(g.files[0].content_hash, [1u8; 32]);
    assert_eq!(g.symbols[1].span, span(3, 5));
    assert_eq!(g.symbols[1].signature_span, Some(span(3, 3)));
    assert_eq!(g.symbols[2].span, span(8, 10));
    assert_eq!(g.symbols[2].name, "c");
    assert_eq!(g.symbols[0].span, span(1, 1));
    assert_eq!(g.symbols[3].span, span(1, 1));
    assert_eq!(g.patch_meta[1].surface_sig, Some([6u8; 32]));
    assert_eq!(g.patch_meta[1].unit_name, Some("unit".to_string()));
    assert_eq!(g.patch_meta[0].surface_sig, None);
}

#[test]
fn the_manifest_state_digests_each_manifests_path_and_content_in_order() {
    let manifests = vec![
        ("Cargo.toml".to_string(), b"[package]".to_vec()),
        ("web/package.json".to_string(), b"{}".to_vec()),
    ];
    let mut framed: Vec<u8> = Vec::new();
    for (path, content) in &manifests {
        framed.extend_from_slice(&(path.len() as u32).to_le_bytes());
        framed.extend_from_slice(path.as_bytes());
        framed.extend_from_slice(&(content.len() as u32).to_le_bytes());
        framed.extend_from_slice(content);
    }
    assert_eq!(manifest_state(&manifests), *blake3::hash(&framed).as_bytes());
    let reordered = vec![manifests[1].clone(), manifests[0].clone()];
    assert_ne!(manifest_state(&reordered), manifest_state(&manifests));
    assert_eq!(manifest_state(&[]), *blake3::hash(&[]).as_bytes());
}

fn stored(path: &str, adapter: &str, hash: u8) -> kndo_core::assembly::StoredFile {
    kndo_core::assembly::StoredFile {
        path: ProjectPath(path.to_string()),
        adapter: adapter.to_string(),
        hash_hex: kndo_core::assembly::hash_hex(&[hash; 32]),
    }
}

fn claimed(file_index: usize, adapter_index: usize) -> kndo_core::extract::ClaimedFile {
    kndo_core::extract::ClaimedFile { file_index, adapter_index }
}

#[test]
fn the_guard_lets_a_content_edit_through_and_refreshes_its_hash() {
    let prev = vec![stored("a.mock", "mock", 1), stored("b.mock", "mock", 1)];
    let found = vec![discovered("a.mock", 1), discovered("b.mock", 2)];
    let claims = vec![claimed(0, 0), claimed(1, 0)];
    let coordinates = vec!["mock".to_string()];
    let state = [4u8; 32];
    let (after, changed) = patch_guard(prev, &state, &state, &found, &claims, &coordinates).unwrap();
    assert_eq!(changed, vec![(1, 1)]);
    assert_eq!(after[1].hash_hex, hash_hex(&[2; 32]));
    assert_eq!(after[0].hash_hex, hash_hex(&[1; 32]));
    // The patched files serve the next run verbatim.
    let (again, nothing) = patch_guard(after, &state, &state, &found, &claims, &coordinates).unwrap();
    assert!(nothing.is_empty());
    assert_eq!(again[1].hash_hex, hash_hex(&[2; 32]));
}

#[test]
fn the_guard_refuses_moved_manifests_files_or_claims() {
    let found = vec![discovered("a.mock", 1), discovered("b.mock", 2)];
    let claims = vec![claimed(0, 0), claimed(1, 0)];
    let coordinates = vec!["mock".to_string(), "other".to_string()];
    let state = [4u8; 32];
    let prev = || vec![stored("a.mock", "mock", 1), stored("b.mock", "mock", 1)];
    assert!(patch_guard(prev(), &[5u8; 32], &state, &found, &claims, &coordinates).is_none());
    assert!(patch_guard(prev(), &state, &state, &found, &claims[..1], &coordinates).is_none());
    let reclaimed = vec![claimed(0, 0), claimed(1, 1)];
    assert!(patch_guard(prev(), &state, &state, &found, &reclaimed, &coordinates).is_none());
    let renamed = vec![discovered("a.mock", 1), discovered("c.mock", 1)];
    assert!(patch_guard(prev(), &state, &state, &renamed, &claims, &coordinates).is_none());
}

fn file_root(target: u32, kind: RootKind, confidence: Confidence, owner: u32) -> Edge {
    Edge {
        kind: EdgeKind::Root {
            kind,
            target: NodeRef::File(FileId(target)),
        },
        confidence,
        source: Provenance::Adapter("mock".to_string()),
        span: None,
        owner: FileId(owner),
    }
}

#[test]
fn kept_edges_give_the_changed_files_their_surest_library_root() {
    let edges = vec![
        file_root(1, RootKind::Production, Confidence::Probable, 0),
        file_root(1, RootKind::Production, Confidence::Certain, 2),
        file_root(1, RootKind::Production, Confidence::Possible, 3),
        file_root(2, RootKind::Production, Confidence::Certain, 0),
        file_root(3, RootKind::Test, Confidence::Certain, 0),
        root_edge(0, Provenance::Adapter("mock".to_string()), 0),
    ];
    let roots: FxHashMap<u32, Confidence> = kept_library_roots(&edges, &[1, 3], 4);
    assert_eq!(roots.len(), 1);
    assert_eq!(roots.get(&1), Some(&Confidence::Certain));
}

#[test]
fn the_patch_plan_refuses_a_changed_manifest() {
    let (g, found) = twenty_files(&[7]);
    let digest = [9u8; 32];
    let mut is_manifest = vec![false; 20];
    assert_eq!(patch_plan(&g, GRAPH_SCHEMA_VERSION, &digest, &digest, &found, &is_manifest), Some(vec![7]));
    is_manifest[3] = true;
    assert_eq!(patch_plan(&g, GRAPH_SCHEMA_VERSION, &digest, &digest, &found, &is_manifest), Some(vec![7]));
    is_manifest[7] = true;
    assert_eq!(patch_plan(&g, GRAPH_SCHEMA_VERSION, &digest, &digest, &found, &is_manifest), None);
}

#[test]
fn the_alignment_guard_checks_signatures_runs_and_claims() {
    let symbols = vec![sym(0, "a", 1), sym(1, "b", 1), sym(1, "c", 5)];
    let mut g = graph(vec![file("a.mock", 1), file("b.mock", 1), file("c.mock", 1)], symbols, Vec::new());
    g.patch_meta[1].surface_sig = Some([3u8; 32]);
    g.files[2].language = None;
    let fresh = |sig: u8, names: &[&str]| {
        Some(FreshFile {
            declarations: names.iter().enumerate().map(|(i, n)| decl(n, i as u32 * 4 + 2)).collect(),
            test_spans: Vec::new(),
            surface_sig: [sig; 32],
        })
    };
    assert_eq!(patch_alignment(&g, &[1, 2], &[fresh(3, &["b", "c"]), None]), Some(vec![(0, 1), (1, 3), (0, 0)]));
    assert_eq!(patch_alignment(&g, &[1], &[fresh(4, &["b", "c"])]), None);
    assert_eq!(patch_alignment(&g, &[1], &[fresh(3, &["b"])]), None);
    assert_eq!(patch_alignment(&g, &[0], &[None]), None);
    let interleaved = graph(
        vec![file("a.mock", 1), file("b.mock", 1)],
        vec![sym(0, "a", 1), sym(1, "b", 1), sym(0, "c", 2)],
        Vec::new(),
    );
    assert_eq!(patch_alignment(&interleaved, &[], &[]), None);
}

#[test]
fn the_patch_mutations_drop_plugins_refresh_changed_files_and_drop_what_they_own() {
    let symbols = vec![sym(0, "a", 1), sym(1, "b", 1), sym(1, "c", 5), sym(2, "d", 1)];
    let edges = vec![
        root_edge(0, Provenance::Adapter("mock".to_string()), 0),
        root_edge(1, Provenance::Plugin("p".to_string()), 0),
        root_edge(2, Provenance::Adapter("mock".to_string()), 1),
        root_edge(3, Provenance::Adapter("mock".to_string()), 2),
    ];
    let mut g = graph(vec![file("a.mock", 1), file("b.mock", 1), file("c.mock", 1)], symbols, edges);
    g.function_metrics = vec![(SymbolId(1), metrics(1)), (SymbolId(3), metrics(2))];
    g.suppressions = vec![(FileId(1), suppression(1)), (FileId(0), suppression(2))];
    g.externally_consumed = vec![SymbolId(0)];
    let found = vec![discovered("a.mock", 1), discovered("b.mock", 5), discovered("c.mock", 6)];
    let fresh = vec![
        Some(FreshFile {
            declarations: vec![decl("b", 3), decl("c", 8)],
            test_spans: vec![span(9, 9), span(2, 2)],
            surface_sig: [7u8; 32],
        }),
        None,
    ];
    let runs = vec![(0, 1), (1, 3), (3, 4)];
    refresh_patched_files(&mut g, &[1, 2], &runs, &fresh, &found);
    let owners: Vec<u32> = g.edges.iter().map(|e| e.owner.0).collect();
    assert_eq!(owners, vec![0]);
    assert!(g.externally_consumed.is_empty());
    assert_eq!(g.function_metrics.len(), 0);
    assert_eq!(g.suppressions.len(), 1);
    assert_eq!(g.files[1].content_hash, [5u8; 32]);
    assert_eq!(g.files[2].content_hash, [6u8; 32]);
    assert_eq!(g.files[0].content_hash, [1u8; 32]);
    assert_eq!(g.files[1].test_spans, vec![span(2, 2), span(9, 9)]);
    assert_eq!(g.symbols[1].span, span(3, 5));
    assert_eq!(g.symbols[2].span, span(8, 10));
    assert_eq!(g.symbols[3].span, span(1, 1));
    assert_eq!(g.patch_meta[1].surface_sig, Some([7u8; 32]));
    assert_eq!(g.patch_meta[2].surface_sig, None);
}

#[test]
fn a_refused_patch_leaves_the_graph_untouched() {
    let symbols = vec![sym(0, "a", 1), sym(1, "b", 1)];
    let edges = vec![root_edge(1, Provenance::Plugin("p".to_string()), 1)];
    let mut g = graph(vec![file("a.mock", 1), file("b.mock", 1)], symbols, edges);
    g.patch_meta[1].surface_sig = Some([3u8; 32]);
    let found = vec![discovered("a.mock", 1), discovered("b.mock", 2)];
    let renamed = vec![Some(FreshFile {
        declarations: vec![decl("renamed", 1)],
        test_spans: Vec::new(),
        surface_sig: [3u8; 32],
    })];
    assert!(!apply_patch(&mut g, &[1], &renamed, &found));
    assert_eq!(g.edges.len(), 1);
    assert_eq!(g.files[1].content_hash, [1u8; 32]);
    let same = vec![Some(FreshFile {
        declarations: vec![decl("b", 4)],
        test_spans: Vec::new(),
        surface_sig: [3u8; 32],
    })];
    assert!(apply_patch(&mut g, &[1], &same, &found));
    assert!(g.edges.is_empty());
    assert_eq!(g.files[1].content_hash, [2u8; 32]);
    assert_eq!(g.symbols[1].span, span(4, 6));
}
