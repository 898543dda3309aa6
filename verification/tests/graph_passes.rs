use kndo_core::graph::plugin_round::sort_round_findings;
use kndo_core::graph::plugin_round::{
    collect_plugin_annotations, collect_plugin_edges, collect_plugin_findings, collect_plugin_roots,
    decimal, file_path_index, finding_name_tables, finding_round_diagnostic, record_dropped,
    resolve_plugin_target, ContributedEdge, ContributedFindingItem, ContributedRoot, FindingTables,
    PluginRound, PluginTarget, PluginTargetTables, DROPPED_CAP,
};
use kndo_core::graph::provenance::{label, lookup, Node, ProvenanceIndex};
use kndo_core::graph::surface::{
    member_joins_surface, propagate_surface_members, recompute_surface_closure,
    rung_surface_transitive, surface_member_index,
};
use kndo_core::graph::{
    AliasEntry, FileNode, FilePatchMeta, PackageNode, ProjectGraph, SymbolKind, SymbolNode,
};
use kndo_core::engine::{PluginSeverity, RuleDescriptor};
use kndo_core::vocab::{
    Confidence, DependencyId, DiagnosticLevel, Edge, EdgeKind, FileClass, FileId, FileOrigin,
    FileRole, NodeRef, PackageId, ProjectPath, Provenance, RefKind, RootKind, Span, SymbolId,
    VisibilityLevel, VisibilityRung, VisibilityScope,
};

fn file(path: &str, language: Option<&str>) -> FileNode {
    FileNode {
        path: ProjectPath(path.to_string()),
        content_hash: [0; 32],
        language: language.map(|l| l.to_string()),
        class: Some(FileClass {
            role: FileRole::Production,
            origin: FileOrigin::Authored,
        }),
        package: PackageId(0),
        unit: None,
        unit_parent: None,
        test_spans: Vec::new(),
    }
}

fn sym(file: u32, name: &str, vis: u8, member_of: Option<&str>, start: u32, end: u32) -> SymbolNode {
    SymbolNode {
        file: FileId(file),
        name: name.to_string(),
        kind: SymbolKind::Struct,
        span: Span {
            start: (start, 1),
            end: (end, 1),
        },
        exported: vis > 0,
        visibility: VisibilityLevel(vis),
        member_of: member_of.map(|m| m.to_string()),
        signature_span: None,
        implicitly_invoked: false,
        nested_scope: false,
        visibility_inherited: false,
        visible_in_unit: None,
        implements: None,
        markers: Vec::new(),
    }
}

fn package(name: Option<&str>, claims: &[&str]) -> PackageNode {
    PackageNode {
        manifest: None,
        name: name.map(|n| n.to_string()),
        private: false,
        declares_surface: false,
        surface: Vec::new(),
        workspace_entry: None,
        targets: Vec::new(),
        executables: Vec::new(),
        resolves_dependency_usage: false,
        manifest_claim_languages: claims.iter().map(|c| c.to_string()).collect(),
    }
}

fn mock_ladder() -> Vec<(String, Vec<VisibilityRung>)> {
    vec![(
        "mock".to_string(),
        vec![
            VisibilityRung {
                scope: VisibilityScope::Unit,
                label: "private".to_string(),
                surface_transitive: false,
            },
            VisibilityRung {
                scope: VisibilityScope::Public,
                label: "exported".to_string(),
                surface_transitive: true,
            },
        ],
    )]
}

fn graph(files: Vec<FileNode>, symbols: Vec<SymbolNode>, packages: Vec<PackageNode>, edges: Vec<Edge>) -> ProjectGraph {
    ProjectGraph {
        files,
        symbols,
        dependencies: Vec::new(),
        declared_dependencies: Vec::new(),
        script_invoked_dependencies: Vec::new(),
        packages,
        edges,
        suppressions: Vec::new(),
        visibility_ladders: mock_ladder(),
        testable_languages: Vec::new(),
        cycle_policies: Vec::new(),
        function_metrics: Vec::new(),
        patch_meta: Vec::new(),
        externally_consumed: Vec::new(),
        plugin_implicitly_invoked: Vec::new(),
        unresolved_imports: Vec::new(),
    }
}

fn root(target: NodeRef, source: Provenance) -> Edge {
    Edge {
        kind: EdgeKind::Root {
            kind: RootKind::Production,
            target,
        },
        confidence: Confidence::Certain,
        source,
        span: None,
        owner: FileId(0),
    }
}

fn surface_roots(g: &ProjectGraph) -> Vec<SymbolId> {
    g.edges
        .iter()
        .filter_map(|e| match (&e.source, &e.kind) {
            (
                Provenance::Surface,
                EdgeKind::Root {
                    target: NodeRef::Symbol(s),
                    ..
                },
            ) => Some(*s),
            _ => None,
        })
        .collect()
}

#[test]
fn surface_closure_promotes_transitive_members_of_surface_types_only() {
    let symbols = vec![
        sym(0, "Widget", 1, None, 1, 20),            // surface seed (rooted below)
        sym(0, "run", 1, Some("Widget"), 3, 5),      // exported member → surface
        sym(0, "hidden", 0, Some("Widget"), 7, 9),   // private member → never surface
        sym(0, "Orphan", 1, None, 30, 40),           // exported but unrooted → not surface
        sym(0, "gadget", 1, Some("Orphan"), 32, 34), // member of non-surface type → no
    ];
    let edges = vec![root(NodeRef::Symbol(SymbolId(0)), Provenance::Adapter("mock".to_string()))];
    let mut g = graph(vec![file("src/lib.mock", Some("mock"))], symbols, vec![], edges);

    recompute_surface_closure(&mut g);
    assert_eq!(surface_roots(&g), vec![SymbolId(1)], "only Widget.run joins the surface");

    // Idempotent: a second run reproduces, never duplicates.
    let before = g.edges.len();
    recompute_surface_closure(&mut g);
    assert_eq!(g.edges.len(), before);
}

#[test]
fn surface_closure_cascades_through_nested_containers_and_replaces_stale_edges() {
    let symbols = vec![
        sym(0, "Outer", 1, None, 1, 50),
        sym(0, "Inner", 1, Some("Outer"), 2, 20),
        sym(0, "deep", 1, Some("Inner"), 3, 4),
        sym(0, "shut", 0, Some("Inner"), 5, 6),
    ];
    let mut stale = root(NodeRef::Symbol(SymbolId(3)), Provenance::Surface);
    stale.confidence = Confidence::Possible;
    let edges = vec![stale, root(NodeRef::Symbol(SymbolId(0)), Provenance::Adapter("mock".to_string()))];
    let mut g = graph(vec![file("a.mock", Some("mock"))], symbols, vec![], edges);
    recompute_surface_closure(&mut g);
    assert_eq!(surface_roots(&g), vec![SymbolId(1), SymbolId(2)]);
    assert_eq!(g.edges.len(), 3);
    // The derived tier, the member's own span and file.
    let derived = &g.edges[1];
    assert_eq!(derived.confidence, Confidence::Probable);
    assert_eq!(derived.span, Some(Span { start: (2, 1), end: (20, 1) }));
    assert_eq!(derived.owner, FileId(0));
}

#[test]
fn no_ladder_lets_the_exported_bit_alone_decide() {
    assert!(rung_surface_transitive(None, VisibilityLevel(0)));
    let ladder = &mock_ladder()[0].1;
    assert!(!rung_surface_transitive(Some(ladder.as_slice()), VisibilityLevel(0)));
    assert!(rung_surface_transitive(Some(ladder.as_slice()), VisibilityLevel(1)));
    // An index past the ladder's end falls back to true.
    assert!(rung_surface_transitive(Some(ladder.as_slice()), VisibilityLevel(7)));
}

#[test]
fn member_index_prefers_the_enclosing_container() {
    let symbols = vec![
        sym(0, "T", 1, None, 1, 5),
        sym(0, "T", 1, None, 10, 30),
        sym(0, "m", 1, Some("T"), 12, 14),
        sym(0, "n", 1, Some("T"), 40, 41), // encloses nothing: the first candidate
    ];
    let g = graph(vec![file("a.mock", Some("mock"))], symbols, vec![], vec![]);
    let index = surface_member_index(&g);
    assert_eq!(index.get(&1), Some(&vec![2]));
    assert_eq!(index.get(&0), Some(&vec![3]));
    let mut seeds = rustc_hash::FxHashSet::default();
    seeds.insert(1u32);
    assert!(!member_joins_surface(&g, 1, &seeds));
    assert!(member_joins_surface(&g, 2, &seeds));
    assert_eq!(propagate_surface_members(&g, seeds, &index), vec![2]);
}

#[test]
fn provenance_names_the_claim_and_every_touching_edge() {
    let files = vec![file("a.mock", Some("mock")), file("b.txt", None)];
    let symbols = vec![sym(0, "x", 1, None, 1, 2)];
    let packages = vec![package(Some("p"), &["mock", "js"])];
    let edges = vec![
        Edge {
            kind: EdgeKind::References {
                from: NodeRef::File(FileId(1)),
                to: SymbolId(0),
                kind: RefKind::Read,
            },
            confidence: Confidence::Certain,
            source: Provenance::Plugin("thymeleaf".to_string()),
            span: None,
            owner: FileId(1),
        },
        Edge {
            kind: EdgeKind::ImportsDependency {
                from: FileId(0),
                to: DependencyId(4),
            },
            confidence: Confidence::Certain,
            source: Provenance::Adapter("mock".to_string()),
            span: None,
            owner: FileId(0),
        },
        root(NodeRef::Symbol(SymbolId(0)), Provenance::Surface),
    ];
    let g = graph(files, symbols, packages, edges);
    let index = ProvenanceIndex::build(&g);
    assert_eq!(index.union(&[Node::File(FileId(0))]), vec!["adapter:mock"]);
    // An unclaimed file still shows the plugin whose edge leaves it.
    assert_eq!(index.union(&[Node::File(FileId(1))]), vec!["plugin:thymeleaf"]);
    // Incoming edges count as much as outgoing ones; sorted by label.
    assert_eq!(
        index.union(&[Node::Symbol(SymbolId(0))]),
        vec!["core:surface", "plugin:thymeleaf"]
    );
    assert_eq!(index.union(&[Node::Dependency(DependencyId(4))]), vec!["adapter:mock"]);
    assert_eq!(
        index.union(&[Node::Package(PackageId(0))]),
        vec!["adapter:js", "adapter:mock"]
    );
    // A union over several nodes lists each label once.
    assert_eq!(
        index.union(&[Node::File(FileId(0)), Node::Dependency(DependencyId(4)), Node::File(FileId(1))]),
        vec!["adapter:mock", "plugin:thymeleaf"]
    );
    let none: Vec<&str> = Vec::new();
    assert_eq!(index.union(&[Node::Symbol(SymbolId(9))]), none);
}

#[test]
fn labels_spell_each_provenance() {
    assert_eq!(label(&Provenance::Adapter("rust".to_string())), "adapter:rust");
    assert_eq!(label(&Provenance::Plugin("org/x".to_string())), "plugin:org/x");
    assert_eq!(label(&Provenance::Surface), "core:surface");
}

#[test]
fn lookup_bounds_one_nodes_run() {
    let list = [(1u32, 0u16), (2, 0), (2, 3), (5, 1)];
    assert_eq!(lookup(&list, 2), &[(2, 0), (2, 3)]);
    assert_eq!(lookup(&list, 3), &[] as &[(u32, u16)]);
    assert_eq!(lookup(&list, 5), &[(5, 1)]);
}

fn target(path: &str, symbol: Option<&str>) -> PluginTarget {
    PluginTarget {
        path: ProjectPath(path.to_string()),
        symbol: symbol.map(|s| s.to_string()),
    }
}

#[test]
fn dropped_records_are_capped_with_one_elision_line() {
    let mut dropped = Vec::new();
    record_dropped(&mut dropped, "root target", &target("a.rs", Some("main")));
    record_dropped(&mut dropped, "edge source", &target("b.rs", None));
    assert_eq!(dropped[0], "root target `a.rs#main` did not resolve");
    assert_eq!(dropped[1], "edge source `b.rs` did not resolve");
    for _ in 0..40 {
        record_dropped(&mut dropped, "x", &target("c", None));
    }
    assert_eq!(dropped.len(), DROPPED_CAP + 1);
    assert_eq!(dropped[DROPPED_CAP], "(further unresolved targets elided)");
}

#[test]
fn finding_round_diagnostics_are_pathless_warnings() {
    let d = finding_round_diagnostic("m".to_string());
    assert_eq!(d.level, DiagnosticLevel::Warn);
    assert!(d.path.is_none() && d.span.is_none());
    assert_eq!(d.message, "m");
}

#[test]
fn decimal_spells_numbers() {
    assert_eq!(decimal(0), "0");
    assert_eq!(decimal(7), "7");
    assert_eq!(decimal(500), "500");
    assert_eq!(decimal(1203), "1203");
}

fn resolution_graph() -> ProjectGraph {
    let files = vec![file("a.rs", Some("mock")), file("b.rs", Some("mock"))];
    let symbols = vec![
        sym(0, "Widget", 1, None, 1, 9),
        sym(0, "run", 1, Some("Widget"), 2, 3),
        sym(1, "helper", 1, None, 1, 2),
    ];
    let mut g = graph(files, symbols, vec![package(Some("pkg"), &[])], vec![]);
    g.patch_meta = vec![
        FilePatchMeta {
            surface_sig: None,
            unit_name: None,
            reexport_aliases: vec![
                AliasEntry { name: "Alias".to_string(), symbol: SymbolId(2) },
                AliasEntry { name: "Widget".to_string(), symbol: SymbolId(2) },
            ],
            member_types: Vec::new(),
            module_bindings: Vec::new(),
        },
    ];
    g
}

#[test]
fn targets_resolve_bare_then_qualified_and_aliases_never_displace() {
    let g = resolution_graph();
    let paths = file_path_index(&g);
    let (by_name, by_qualified) = finding_name_tables(&g);
    let r = |t: PluginTarget| resolve_plugin_target(&t, &paths, &by_name, &by_qualified);
    assert_eq!(r(target("a.rs", None)), Some(NodeRef::File(FileId(0))));
    assert_eq!(r(target("a.rs", Some("Widget"))), Some(NodeRef::Symbol(SymbolId(0))));
    assert_eq!(r(target("a.rs", Some("Widget.run"))), Some(NodeRef::Symbol(SymbolId(1))));
    assert_eq!(r(target("a.rs", Some("Alias"))), Some(NodeRef::Symbol(SymbolId(2))));
    assert_eq!(r(target("b.rs", Some("Widget"))), None);
    assert_eq!(r(target("missing.rs", None)), None);
}

fn rule(name: &str) -> RuleDescriptor {
    RuleDescriptor {
        name: name.to_string(),
        severity: PluginSeverity::Warning,
        description: String::new(),
    }
}

fn item(rule: &str, t: PluginTarget) -> ContributedFindingItem {
    ContributedFindingItem {
        rule: rule.to_string(),
        target: t,
        confidence: Confidence::Probable,
        message: "msg".to_string(),
    }
}

#[test]
fn findings_are_namespaced_capped_and_undeclared_rules_reported() {
    let g = resolution_graph();
    let paths = file_path_index(&g);
    let (by_name, by_qualified) = finding_name_tables(&g);
    let tables = FindingTables {
        graph: &g,
        paths: &paths,
        by_name: &by_name,
        by_qualified: &by_qualified,
    };
    let rules = vec![rule("no-todo")];
    let mut items = vec![
        item("zeta", target("a.rs", None)),
        item("no-todo", target("a.rs", Some("Widget.run"))),
        item("alpha", target("a.rs", None)),
        item("no-todo", target("nowhere.rs", None)),
        item("zeta", target("a.rs", None)),
    ];
    for _ in 0..600 {
        items.push(item("no-todo", target("b.rs", None)));
    }
    let mut findings = Vec::new();
    let mut diagnostics = Vec::new();
    collect_plugin_findings("acme", &rules, items, &tables, &mut findings, &mut diagnostics);
    // 602 under the rule: the first 500 pass the ceiling, one of those misses.
    assert_eq!(findings.len(), 499);
    let first = &findings[0];
    assert_eq!(first.category, "plugin:acme/no-todo");
    assert_eq!(first.severity, PluginSeverity::Warning);
    assert_eq!(first.symbol.as_deref(), Some("run"));
    assert_eq!(first.subject_kind, "struct");
    assert_eq!(first.package.as_deref(), Some("pkg"));
    assert_eq!(findings[1].subject_kind, "file");
    assert_eq!(findings[1].path.0, "b.rs");
    let messages: Vec<&str> = diagnostics.iter().map(|d| d.message.as_str()).collect();
    assert_eq!(
        messages,
        vec![
            "plugin 'acme' emitted findings under undeclared rule 'alpha' \u{2014} dropped (rules must be declared via Plugin::rules)",
            "plugin 'acme' emitted findings under undeclared rule 'zeta' \u{2014} dropped (rules must be declared via Plugin::rules)",
            "plugin 'acme' rule 'no-todo' emitted 602 findings \u{2014} capped at 500, 102 dropped (the noise ceiling)",
        ]
    );
}

#[test]
fn graph_hooks_resolve_into_edges_and_record_misses() {
    let g = resolution_graph();
    let paths = file_path_index(&g);
    let (by_name, by_qualified) = finding_name_tables(&g);
    let tables = PluginTargetTables {
        symbols: &g.symbols,
        paths: &paths,
        by_name: &by_name,
        by_qualified: &by_qualified,
    };
    let mut round = PluginRound {
        edges: Vec::new(),
        externally_consumed: Vec::new(),
        implicitly_invoked: Vec::new(),
        diagnostics: Vec::new(),
        contributions: Vec::new(),
    };
    let mut dropped = Vec::new();
    let provenance = Provenance::Plugin("acme".to_string());
    let roots = vec![
        ContributedRoot {
            target: target("b.rs", Some("helper")),
            kind: RootKind::Test,
            confidence: Confidence::Certain,
        },
        ContributedRoot {
            target: target("b.rs", Some("gone")),
            kind: RootKind::Test,
            confidence: Confidence::Certain,
        },
    ];
    collect_plugin_roots(&roots, &provenance, &tables, &mut round, &mut dropped);
    assert_eq!(round.edges.len(), 1);
    assert_eq!(
        round.edges[0].kind,
        EdgeKind::Root {
            kind: RootKind::Test,
            target: NodeRef::Symbol(SymbolId(2))
        }
    );
    assert_eq!(round.edges[0].owner, FileId(1));
    assert_eq!(dropped, vec!["root target `b.rs#gone` did not resolve"]);

    let edges = vec![
        ContributedEdge {
            from: target("b.rs", None),
            to: target("a.rs", Some("Widget")),
            kind: RefKind::Call,
            confidence: Confidence::Probable,
        },
        ContributedEdge {
            from: target("a.rs", Some("Widget.run")),
            to: target("b.rs", None),
            kind: RefKind::Call,
            confidence: Confidence::Probable,
        },
        ContributedEdge {
            from: target("x.rs", None),
            to: target("b.rs", None),
            kind: RefKind::Call,
            confidence: Confidence::Probable,
        },
        ContributedEdge {
            from: target("b.rs", None),
            to: target("y.rs", None),
            kind: RefKind::Call,
            confidence: Confidence::Probable,
        },
    ];
    collect_plugin_edges(&edges, &provenance, &tables, &mut round, &mut dropped);
    assert_eq!(round.edges.len(), 3);
    assert_eq!(
        round.edges[1].kind,
        EdgeKind::References {
            from: NodeRef::File(FileId(1)),
            to: SymbolId(0),
            kind: RefKind::Call
        }
    );
    assert_eq!(
        round.edges[2].kind,
        EdgeKind::ReferencesFile {
            from: NodeRef::Symbol(SymbolId(1)),
            to: FileId(1)
        }
    );
    assert_eq!(round.edges[2].owner, FileId(0));
    assert_eq!(dropped.len(), 3);
    assert_eq!(dropped[1], "edge source `x.rs` did not resolve");
    assert_eq!(dropped[2], "edge target `y.rs` did not resolve");

    collect_plugin_annotations(
        &[target("a.rs", Some("Widget")), target("a.rs", None)],
        &[target("b.rs", Some("helper"))],
        &tables,
        &mut round,
        &mut dropped,
    );
    assert_eq!(round.externally_consumed, vec![SymbolId(0)]);
    assert_eq!(round.implicitly_invoked, vec![SymbolId(2)]);
    assert_eq!(dropped[3], "annotation target `a.rs` did not resolve");
}

use kndo_core::graph::key::{
    compute_graph_key, fold_adapter_versions, fold_discovered_files, fold_optional_content_hash,
    fold_plugin_identities, plugin_set_digest, DiscoveredFile, GRAPH_SCHEMA_VERSION,
};

#[test]
fn compute_graph_key_distinguishes_wasm_plugin_content_from_its_own_id_and_version() {
    // Same id+version, different component bytes: different keys.
    let files: [DiscoveredFile; 0] = [];
    let a = [("some-wasm-plugin".to_string(), "1.0.0".to_string(), Some([1u8; 32]))];
    let b = [("some-wasm-plugin".to_string(), "1.0.0".to_string(), Some([2u8; 32]))];
    assert_ne!(compute_graph_key(&files, &[], &a), compute_graph_key(&files, &[], &b));
    // A compiled-in plugin (no content hash) folds identically from identical descriptors.
    let c = [("some-builtin-plugin".to_string(), "1".to_string(), None)];
    let d = [("some-builtin-plugin".to_string(), "1".to_string(), None)];
    assert_eq!(compute_graph_key(&files, &[], &c), compute_graph_key(&files, &[], &d));
}

#[test]
fn the_key_is_blake3_over_the_length_prefixed_framing() {
    let files = [DiscoveredFile {
        path: ProjectPath("ab".to_string()),
        content_hash: [7u8; 32],
    }];
    let mut expected: Vec<u8> = GRAPH_SCHEMA_VERSION.to_le_bytes().to_vec();
    expected.extend_from_slice(&2u32.to_le_bytes());
    expected.extend_from_slice(b"ab");
    expected.extend_from_slice(&[7u8; 32]);
    assert_eq!(compute_graph_key(&files, &[], &[]), *blake3::hash(&expected).as_bytes());
    let mut framed = Vec::new();
    fold_discovered_files(&mut framed, &files);
    assert_eq!(framed, expected[4..].to_vec());
}

#[test]
fn adapters_and_plugins_fold_in_sorted_order_whatever_the_input_order() {
    let mut one = Vec::new();
    fold_adapter_versions(&mut one, &[("rust".to_string(), 2), ("go".to_string(), 1), ("go".to_string(), 0)]);
    let mut two = Vec::new();
    fold_adapter_versions(&mut two, &[("go".to_string(), 0), ("rust".to_string(), 2), ("go".to_string(), 1)]);
    assert_eq!(one, two);
    let mut expected = Vec::new();
    for (id, v) in [("go", 0u32), ("go", 1), ("rust", 2)] {
        expected.extend_from_slice(&(id.len() as u32).to_le_bytes());
        expected.extend_from_slice(id.as_bytes());
        expected.extend_from_slice(&v.to_le_bytes());
    }
    assert_eq!(one, expected);

    let p = |h: Option<[u8; 32]>| ("p".to_string(), "1".to_string(), h);
    let mut x = Vec::new();
    fold_plugin_identities(&mut x, &[p(Some([9; 32])), p(None), p(Some([3; 32]))]);
    let mut y = Vec::new();
    for h in [None, Some([3u8; 32]), Some([9u8; 32])] {
        y.extend_from_slice(&1u32.to_le_bytes());
        y.extend_from_slice(b"p");
        y.extend_from_slice(&1u32.to_le_bytes());
        y.extend_from_slice(b"1");
        fold_optional_content_hash(&mut y, h);
    }
    assert_eq!(x, y);
    // The tag byte keeps an absent hash apart from an all-zero one.
    let mut none = Vec::new();
    fold_optional_content_hash(&mut none, None);
    let mut zero = Vec::new();
    fold_optional_content_hash(&mut zero, Some([0; 32]));
    assert_eq!(none, vec![0u8]);
    assert_eq!(zero.len(), 33);
    assert_eq!(zero[0], 1);
}

#[test]
fn the_empty_plugin_set_is_itself_an_identity() {
    let empty = plugin_set_digest(&[]);
    assert_eq!(empty, *blake3::hash(&[]).as_bytes());
    assert_ne!(empty, plugin_set_digest(&[("p".to_string(), "1".to_string(), None)]));
}

use kndo_core::graph::plugin_round::apply_plugin_contributions;

#[test]
fn one_plugins_contributions_are_counted_by_what_resolved() {
    let g = resolution_graph();
    let paths = file_path_index(&g);
    let (by_name, by_qualified) = finding_name_tables(&g);
    let tables = PluginTargetTables {
        symbols: &g.symbols,
        paths: &paths,
        by_name: &by_name,
        by_qualified: &by_qualified,
    };
    let mut round = PluginRound {
        edges: Vec::new(),
        externally_consumed: Vec::new(),
        implicitly_invoked: Vec::new(),
        diagnostics: Vec::new(),
        contributions: Vec::new(),
    };
    let roots = vec![
        ContributedRoot {
            target: target("b.rs", Some("helper")),
            kind: RootKind::Test,
            confidence: Confidence::Certain,
        },
        ContributedRoot {
            target: target("b.rs", Some("gone")),
            kind: RootKind::Test,
            confidence: Confidence::Certain,
        },
    ];
    let edges = vec![
        ContributedEdge {
            from: target("b.rs", None),
            to: target("a.rs", Some("Widget")),
            kind: RefKind::Call,
            confidence: Confidence::Probable,
        },
        ContributedEdge {
            from: target("x.rs", None),
            to: target("b.rs", None),
            kind: RefKind::Call,
            confidence: Confidence::Probable,
        },
    ];
    apply_plugin_contributions(
        "acme",
        &roots,
        &edges,
        &[target("a.rs", Some("Widget")), target("a.rs", None)],
        &[target("b.rs", Some("helper"))],
        &tables,
        &mut round,
    );
    assert_eq!(round.edges.len(), 2);
    assert!(round
        .edges
        .iter()
        .all(|e| matches!(&e.source, Provenance::Plugin(id) if id == "acme")));
    assert_eq!(round.contributions.len(), 1);
    let c = &round.contributions[0];
    assert_eq!((c.id.as_str(), c.roots, c.edges, c.annotations), ("acme", 1, 1, 2));
    assert_eq!(
        c.dropped,
        vec![
            "root target `b.rs#gone` did not resolve",
            "edge source `x.rs` did not resolve",
            "annotation target `a.rs` did not resolve",
        ]
    );
}

use kndo_core::graph::plugin_round::{is_valid_rule_name, retain_valid_rules};

#[test]
fn an_invalidly_named_rule_is_excluded_whole_and_warned_about() {
    assert!(is_valid_rule_name("no-unused-2"));
    assert!(!is_valid_rule_name(""));
    assert!(!is_valid_rule_name("NoUnused"));
    assert!(!is_valid_rule_name("no_unused"));
    let rule = |name: &str| RuleDescriptor {
        name: name.to_string(),
        severity: PluginSeverity::Warning,
        description: format!("about {name}"),
    };
    let mut diagnostics = Vec::new();
    let kept = retain_valid_rules("acme", vec![rule("ok-rule"), rule("Bad Rule"), rule("also-ok")], &mut diagnostics);
    let names: Vec<&str> = kept.iter().map(|r| r.name.as_str()).collect();
    assert_eq!(names, vec!["ok-rule", "also-ok"]);
    assert_eq!(kept[1].description, "about also-ok");
    assert_eq!(diagnostics.len(), 1);
    assert_eq!(
        diagnostics[0].message,
        "plugin 'acme' declares invalidly named rule 'Bad Rule' (lower-kebab [a-z0-9-]+ required) \u{2014} excluded"
    );
}

fn proto(category: &str, path: &str, symbol: Option<&str>, message: &str) -> kndo_core::graph::plugin_round::ProtoFinding {
    kndo_core::graph::plugin_round::ProtoFinding {
        category: category.to_string(),
        plugin_id: "p".to_string(),
        rule: "r".to_string(),
        severity: PluginSeverity::Warning,
        confidence: Confidence::Certain,
        message: message.to_string(),
        path: ProjectPath(path.to_string()),
        symbol: symbol.map(|s| s.to_string()),
        span: None,
        subject_kind: "symbol".to_string(),
        package: None,
    }
}

#[test]
fn the_finding_round_output_is_in_canonical_order_whatever_the_plugin_order() {
    let keys = |v: &Vec<kndo_core::graph::plugin_round::ProtoFinding>| {
        v.iter()
            .map(|f| (f.category.clone(), f.path.0.clone(), f.symbol.clone(), f.message.clone()))
            .collect::<Vec<_>>()
    };
    let mut a = vec![
        proto("plugin:z/rule", "a.mock", None, "m"),
        proto("plugin:a/rule", "b.mock", Some("x"), "m"),
        proto("plugin:a/rule", "b.mock", None, "late"),
        proto("plugin:a/rule", "a.mock", Some("y"), "m"),
        proto("plugin:a/rule", "b.mock", None, "early"),
    ];
    let mut b = vec![a[4].clone(), a[2].clone(), a[0].clone(), a[3].clone(), a[1].clone()];
    sort_round_findings(&mut a);
    sort_round_findings(&mut b);
    assert_eq!(keys(&a), keys(&b));
    assert_eq!(
        keys(&a),
        vec![
            ("plugin:a/rule".to_string(), "a.mock".to_string(), Some("y".to_string()), "m".to_string()),
            ("plugin:a/rule".to_string(), "b.mock".to_string(), None, "early".to_string()),
            ("plugin:a/rule".to_string(), "b.mock".to_string(), None, "late".to_string()),
            ("plugin:a/rule".to_string(), "b.mock".to_string(), Some("x".to_string()), "m".to_string()),
            ("plugin:z/rule".to_string(), "a.mock".to_string(), None, "m".to_string()),
        ]
    );
}
