use kndo_core::graph::declarations::{
    cap_root_kinds_by_role, declaration_name_index, drop_capped_library_roots, emit_file_declarations, role_derived_roots, Declaration, FileFacts, FunctionFacts,
    RawRoot, RawRootTarget,
};
use kndo_core::graph::symbol_tables::{build_symbol_tables, declare_file_symbols, FileDeclarations};
use kndo_core::graph::{FileNode, SymbolKind, SymbolNode};
use kndo_core::vocab::{
    Confidence, Edge, EdgeKind, FileClass, FileId, FileOrigin, FileRole, NodeRef, PackageId, ProjectPath,
    Provenance, RefKind, RootKind, Span, SymbolId, VisibilityLevel, VisibilityRung, VisibilityScope,
};
use rustc_hash::FxHashMap;

fn file(path: &str, role: FileRole) -> FileNode {
    FileNode {
        path: ProjectPath(path.to_string()),
        content_hash: [0; 32],
        language: Some("mock".to_string()),
        class: Some(FileClass {
            role,
            origin: FileOrigin::Authored,
        }),
        package: PackageId(0),
        unit: None,
        unit_parent: None,
        test_spans: Vec::new(),
    }
}

fn span(start: u32, end: u32) -> Span {
    Span {
        start: (start, 1),
        end: (end, 1),
    }
}

fn decl(name: &str, kind: SymbolKind, line: u32, exported: bool, member_of: Option<&str>) -> Declaration {
    Declaration {
        name: name.to_string(),
        kind,
        span: span(line, line),
        exported,
        visibility: VisibilityLevel(if exported { 1 } else { 0 }),
        member_of: member_of.map(|m| m.to_string()),
        signature_span: None,
        nested_scope: false,
        visibility_inherited: false,
        implicitly_invoked: false,
    }
}

fn symbol(file: u32, d: &Declaration) -> SymbolNode {
    SymbolNode {
        file: FileId(file),
        name: d.name.clone(),
        kind: d.kind,
        span: d.span,
        exported: d.exported,
        visibility: d.visibility,
        member_of: d.member_of.clone(),
        signature_span: d.signature_span,
        implicitly_invoked: false,
        nested_scope: d.nested_scope,
        visibility_inherited: d.visibility_inherited,
        visible_in_unit: None,
        implements: None,
        markers: Vec::new(),
    }
}

fn facts(declarations: Vec<Declaration>, roots: Vec<RawRoot>) -> FileFacts {
    FileFacts {
        declarations,
        test_spans: Vec::new(),
        functions: Vec::new(),
        roots,
    }
}

fn declaration_root(name: &str) -> RawRoot {
    RawRoot {
        kind: RootKind::Production,
        target: RawRootTarget::Declaration(name.to_string()),
        confidence: Confidence::Certain,
    }
}

fn manifest_root(target: u32) -> Edge {
    Edge {
        kind: EdgeKind::Root {
            kind: RootKind::Production,
            target: NodeRef::File(FileId(target)),
        },
        confidence: Confidence::Certain,
        source: Provenance::Adapter("mock".to_string()),
        span: None,
        owner: FileId(0),
    }
}

fn kinds(edges: &[Edge]) -> Vec<EdgeKind> {
    edges.iter().map(|e| e.kind).collect()
}

fn root_kinds_on(edges: &[Edge], file: u32, symbols: &[u32]) -> Vec<RootKind> {
    let mut out = Vec::new();
    for edge in edges {
        if let EdgeKind::Root { kind, target } = edge.kind {
            let hits = match target {
                NodeRef::File(f) => f == FileId(file),
                NodeRef::Symbol(s) => symbols.contains(&s.0),
            };
            if hits {
                out.push(kind);
            }
        }
    }
    out
}

/// The manifest names `path` as an entry point and the file's own source roots its
/// `main`: both cap sites must move the root to the file's role.
fn assert_roots_capped(path: &str, role: FileRole, expected: RootKind) {
    let files = vec![file("manifest.mock", FileRole::Production), file(path, role)];
    let mut edges = vec![manifest_root(1)];
    let capped = cap_root_kinds_by_role(&mut edges, &files);
    assert_eq!(capped, vec![FileId(1)]);

    let claimed_by = vec![Some("mock".to_string()), Some("mock".to_string())];
    let role_roots = role_derived_roots(&files, &claimed_by, &mut edges);
    assert_eq!(role_roots, vec![None, Some(expected)]);

    let main = decl("main", SymbolKind::Function, 1, false, None);
    let symbols = vec![symbol(1, &main)];
    let file_facts = facts(vec![main], vec![declaration_root("main")]);
    let bare: FxHashMap<String, u32> = FxHashMap::default();
    let emitted = emit_file_declarations(1, &file_facts, "mock", 0, &symbols, &bare, &bare, None, role_roots[1], None);
    edges.extend(emitted.edges);

    let root_kinds = root_kinds_on(&edges, 1, &[0]);
    assert!(!root_kinds.is_empty(), "the entry-point roots must exist");
    assert!(
        root_kinds.iter().all(|k| *k == expected),
        "every root on {path} must be capped to {expected:?}, got {root_kinds:?}"
    );
}

#[test]
fn production_roots_are_capped_to_tooling_by_file_role() {
    assert_roots_capped("tool.config.mock", FileRole::Tooling, RootKind::Tooling);
}

#[test]
fn production_roots_are_capped_to_test_by_file_role() {
    assert_roots_capped("helper.test.mock", FileRole::Test, RootKind::Test);
}

#[test]
fn the_cap_leaves_production_files_and_non_production_roots_alone() {
    let files = vec![file("src/main.mock", FileRole::Production), file("t.test.mock", FileRole::Test)];
    let mut edges = vec![manifest_root(0), manifest_root(1)];
    edges[1].kind = EdgeKind::Root {
        kind: RootKind::Tooling,
        target: NodeRef::File(FileId(1)),
    };
    let before = kinds(&edges);
    let capped = cap_root_kinds_by_role(&mut edges, &files);
    assert!(capped.is_empty());
    assert_eq!(kinds(&edges), before);
}

#[test]
fn role_derived_roots_need_a_claim_and_a_non_production_role() {
    let files = vec![
        file("a.mock", FileRole::Production),
        file("b.test.mock", FileRole::Test),
        file("c.config.mock", FileRole::Tooling),
    ];
    let claimed_by = vec![Some("mock".to_string()), None, Some("cfg".to_string())];
    let mut edges = Vec::new();
    let role_roots = role_derived_roots(&files, &claimed_by, &mut edges);
    assert_eq!(role_roots, vec![None, None, Some(RootKind::Tooling)]);
    assert_eq!(edges.len(), 1);
    assert_eq!(
        edges[0].kind,
        EdgeKind::Root {
            kind: RootKind::Tooling,
            target: NodeRef::File(FileId(2)),
        }
    );
    assert_eq!(edges[0].confidence, Confidence::Probable);
    assert!(matches!(&edges[0].source, Provenance::Adapter(id) if id == "cfg"));
    assert_eq!(edges[0].owner, FileId(2));
    assert_eq!(edges[0].span, None);
}

#[test]
fn declarations_are_declared_and_constructors_follow_their_type() {
    let widget = decl("Widget", SymbolKind::Class, 1, true, None);
    let init = decl("<init>", SymbolKind::Constructor, 2, true, Some("Widget"));
    let orphan = decl("<init>", SymbolKind::Constructor, 5, true, Some("Nowhere"));
    let symbols: Vec<SymbolNode> = vec![
        symbol(0, &decl("other", SymbolKind::Function, 9, true, None)),
        symbol(3, &widget),
        symbol(3, &init),
        symbol(3, &orphan),
    ];
    let file_facts = facts(vec![widget, init, orphan], Vec::new());
    let mut bare: FxHashMap<String, u32> = FxHashMap::default();
    bare.insert("Widget".to_string(), 1);
    let qualified: FxHashMap<String, u32> = FxHashMap::default();
    let emitted = emit_file_declarations(3, &file_facts, "mock", 1, &symbols, &bare, &qualified, None, None, None);
    assert_eq!(
        kinds(&emitted.edges),
        vec![
            EdgeKind::Declares {
                file: FileId(3),
                symbol: SymbolId(1),
            },
            EdgeKind::Declares {
                file: FileId(3),
                symbol: SymbolId(2),
            },
            EdgeKind::References {
                from: NodeRef::Symbol(SymbolId(1)),
                to: SymbolId(2),
                kind: RefKind::Call,
            },
            EdgeKind::Declares {
                file: FileId(3),
                symbol: SymbolId(3),
            },
        ]
    );
    assert!(emitted.edges.iter().all(|e| e.owner == FileId(3)));
    assert!(emitted
        .edges
        .iter()
        .all(|e| matches!(&e.source, Provenance::Adapter(id) if id == "mock")));
    assert_eq!(emitted.edges[2].confidence, Confidence::Certain);
    assert_eq!(emitted.edges[2].span, Some(span(2, 2)));
}

#[test]
fn test_regions_library_roots_and_role_roots() {
    let in_test = decl("check_it", SymbolKind::Function, 10, false, None);
    let api = decl("api", SymbolKind::Function, 2, true, None);
    let internal = decl("internal", SymbolKind::Function, 3, true, None);
    let symbols = vec![symbol(0, &in_test), symbol(0, &api), symbol(0, &internal)];
    let mut file_facts = facts(vec![in_test, api, internal], Vec::new());
    file_facts.test_spans = vec![span(8, 12)];
    // Rung 1 travels through re-exports; a level past the ladder falls back to `true`.
    let ladder = vec![
        VisibilityRung {
            scope: VisibilityScope::Package,
            label: "internal".to_string(),
            surface_transitive: false,
        },
        VisibilityRung {
            scope: VisibilityScope::Public,
            label: "public".to_string(),
            surface_transitive: true,
        },
    ];
    let mut facts_internal = file_facts.clone();
    facts_internal.declarations[2].visibility = VisibilityLevel(0);
    let bare: FxHashMap<String, u32> = FxHashMap::default();
    let emitted = emit_file_declarations(
        0,
        &facts_internal,
        "mock",
        0,
        &symbols,
        &bare,
        &bare,
        Some(Confidence::Probable),
        None,
        Some(ladder.as_slice()),
    );
    let roots: Vec<(EdgeKind, Confidence)> = emitted
        .edges
        .iter()
        .filter(|e| matches!(e.kind, EdgeKind::Root { .. }))
        .map(|e| (e.kind, e.confidence))
        .collect();
    assert_eq!(
        roots,
        vec![
            (
                EdgeKind::Root {
                    kind: RootKind::Test,
                    target: NodeRef::Symbol(SymbolId(0)),
                },
                Confidence::Certain,
            ),
            (
                EdgeKind::Root {
                    kind: RootKind::Production,
                    target: NodeRef::Symbol(SymbolId(1)),
                },
                Confidence::Probable,
            ),
        ]
    );

    // A test-role file roots every declaration; a tooling-role file only exported ones.
    let emitted = emit_file_declarations(0, &file_facts, "mock", 0, &symbols, &bare, &bare, None, Some(RootKind::Test), None);
    let test_roots = root_kinds_on(&emitted.edges, 0, &[0, 1, 2]);
    assert_eq!(test_roots, vec![RootKind::Test, RootKind::Test, RootKind::Test, RootKind::Test]);
    let emitted =
        emit_file_declarations(0, &file_facts, "mock", 0, &symbols, &bare, &bare, None, Some(RootKind::Tooling), None);
    let tooling_roots: Vec<(EdgeKind, Confidence)> = emitted
        .edges
        .iter()
        .filter(|e| matches!(e.kind, EdgeKind::Root { kind: RootKind::Tooling, .. }))
        .map(|e| (e.kind, e.confidence))
        .collect();
    assert_eq!(
        tooling_roots,
        vec![
            (
                EdgeKind::Root {
                    kind: RootKind::Tooling,
                    target: NodeRef::Symbol(SymbolId(1)),
                },
                Confidence::Probable,
            ),
            (
                EdgeKind::Root {
                    kind: RootKind::Tooling,
                    target: NodeRef::Symbol(SymbolId(2)),
                },
                Confidence::Probable,
            ),
        ]
    );
}

#[test]
fn an_in_source_root_lands_on_every_twin_and_a_whole_file_root_on_the_file() {
    let first = decl("add", SymbolKind::Method, 1, true, Some("Stats"));
    let second = decl("add", SymbolKind::Method, 5, true, Some("Stats"));
    let bare_add = decl("add", SymbolKind::Function, 9, true, None);
    let symbols = vec![symbol(0, &first), symbol(0, &second), symbol(0, &bare_add)];
    let file_facts = facts(
        vec![first, second, bare_add],
        vec![
            declaration_root("Stats.add"),
            RawRoot {
                kind: RootKind::Test,
                target: RawRootTarget::WholeFile,
                confidence: Confidence::Probable,
            },
            declaration_root("missing"),
        ],
    );
    let bare: FxHashMap<String, u32> = FxHashMap::default();
    let emitted = emit_file_declarations(0, &file_facts, "mock", 0, &symbols, &bare, &bare, None, None, None);
    let roots: Vec<(EdgeKind, Option<Span>)> = emitted
        .edges
        .iter()
        .filter(|e| matches!(e.kind, EdgeKind::Root { .. }))
        .map(|e| (e.kind, e.span))
        .collect();
    assert_eq!(
        roots,
        vec![
            (
                EdgeKind::Root {
                    kind: RootKind::Production,
                    target: NodeRef::Symbol(SymbolId(0)),
                },
                Some(span(1, 1)),
            ),
            (
                EdgeKind::Root {
                    kind: RootKind::Production,
                    target: NodeRef::Symbol(SymbolId(1)),
                },
                Some(span(5, 5)),
            ),
            (
                EdgeKind::Root {
                    kind: RootKind::Test,
                    target: NodeRef::File(FileId(0)),
                },
                None,
            ),
        ]
    );
}

#[test]
fn callable_metrics_resolve_bare_names_first_then_qualified() {
    let shape = |symbol: &str, cyclomatic: u32| FunctionFacts {
        symbol: symbol.to_string(),
        shape_span: span(1, 4),
        shape_ordinal: 0,
        cyclomatic,
        loc: 4,
        token_count: 20,
        fingerprints: vec![7, 11],
        body_is_construction: false,
    };
    let mut file_facts = facts(Vec::new(), Vec::new());
    file_facts.functions = vec![shape("run", 3), shape("Widget.draw", 5), shape("nowhere", 9)];
    let mut bare: FxHashMap<String, u32> = FxHashMap::default();
    bare.insert("run".to_string(), 4);
    let mut qualified: FxHashMap<String, u32> = FxHashMap::default();
    qualified.insert("Widget.draw".to_string(), 6);
    qualified.insert("run".to_string(), 99);
    let emitted = emit_file_declarations(0, &file_facts, "mock", 0, &[], &bare, &qualified, None, None, None);
    let got: Vec<(SymbolId, u32, Vec<u64>)> = emitted
        .metrics
        .iter()
        .map(|(id, m)| (*id, m.cyclomatic, m.fingerprints.clone()))
        .collect();
    assert_eq!(got, vec![(SymbolId(4), 3, vec![7, 11]), (SymbolId(6), 5, vec![7, 11])]);
    assert!(emitted.edges.is_empty());
}

#[test]
fn declarations_become_symbols_with_declares_edges() {
    let foo = decl("foo", SymbolKind::Function, 1, true, None);
    let bar = decl("bar", SymbolKind::Function, 2, true, None);
    let symbols = vec![symbol(0, &foo), symbol(0, &bar)];
    let file_facts = facts(vec![foo, bar], Vec::new());
    let bare: FxHashMap<String, u32> = FxHashMap::default();
    let emitted = emit_file_declarations(0, &file_facts, "mock", 0, &symbols, &bare, &bare, None, None, None);
    assert_eq!(symbols[0].name.as_str(), "foo");
    let declares: Vec<&Edge> = emitted
        .edges
        .iter()
        .filter(|e| matches!(e.kind, EdgeKind::Declares { file, .. } if file == FileId(0)))
        .collect();
    assert_eq!(declares.len(), 2);
}

#[test]
fn declarations_inside_test_regions_get_derived_test_roots() {
    let prod_fn = decl("prod_fn", SymbolKind::Function, 2, true, None);
    let test_helper = decl("test_helper", SymbolKind::Function, 6, true, None);
    let symbols = vec![symbol(0, &prod_fn), symbol(0, &test_helper)];
    let mut file_facts = facts(vec![prod_fn, test_helper], Vec::new());
    file_facts.test_spans = vec![Span {
        start: (5, 0),
        end: (9, u32::MAX),
    }];
    let bare: FxHashMap<String, u32> = FxHashMap::default();
    let emitted = emit_file_declarations(0, &file_facts, "mock", 0, &symbols, &bare, &bare, None, None, None);
    let test_rooted = |s: SymbolId| {
        emitted.edges.iter().any(|e| {
            matches!(
                e.kind,
                EdgeKind::Root {
                    kind: RootKind::Test,
                    target: NodeRef::Symbol(t),
                } if t == s
            ) && e.confidence == Confidence::Certain
        })
    };
    assert!(test_rooted(SymbolId(1)), "span-contained declaration derives a Certain Test root");
    assert!(!test_rooted(SymbolId(0)));
}

#[test]
fn library_root_files_promote_their_exported_symbols_to_production_roots() {
    let public_api = decl("publicApi", SymbolKind::Function, 1, true, None);
    let helper = decl("helper", SymbolKind::Function, 2, false, None);
    let symbols = vec![symbol(0, &public_api), symbol(0, &helper)];
    let file_facts = facts(vec![public_api, helper], Vec::new());
    let bare: FxHashMap<String, u32> = FxHashMap::default();
    let emitted = emit_file_declarations(0, &file_facts, "mock", 0, &symbols, &bare, &bare, Some(Confidence::Certain), None, None);
    assert!(emitted.edges.iter().any(|e| e.kind
        == EdgeKind::Root {
            kind: RootKind::Production,
            target: NodeRef::Symbol(SymbolId(0)),
        }));
    assert!(!emitted
        .edges
        .iter()
        .any(|e| matches!(e.kind, EdgeKind::Root { target: NodeRef::Symbol(s), .. } if s == SymbolId(1))));
}

#[test]
fn capping_twice_changes_nothing_more() {
    let files = vec![file("manifest.mock", FileRole::Production), file("x.test.mock", FileRole::Test)];
    let mut edges = vec![manifest_root(1), manifest_root(0)];
    let first = cap_root_kinds_by_role(&mut edges, &files);
    assert_eq!(first, vec![FileId(1)]);
    let once = kinds(&edges);
    let second = cap_root_kinds_by_role(&mut edges, &files);
    assert!(second.is_empty());
    assert_eq!(kinds(&edges), once);
}

#[test]
fn the_name_index_keys_members_by_owner_and_keeps_twins() {
    let decls = vec![
        decl("Data", SymbolKind::Struct, 1, true, None),
        decl("from_path", SymbolKind::Method, 2, false, Some("Data")),
        decl("from_path", SymbolKind::Method, 5, false, Some("Data")),
        decl("from_path", SymbolKind::Function, 9, false, None),
    ];
    let index = declaration_name_index(&decls);
    assert_eq!(index.len(), 3);
    assert_eq!(index.get("Data"), Some(&vec![0]));
    assert_eq!(index.get("Data.from_path"), Some(&vec![1, 2]));
    assert_eq!(index.get("from_path"), Some(&vec![3]));
    assert_eq!(index.get("missing"), None);
}

#[test]
fn capped_files_leave_the_library_roots() {
    let mut library: FxHashMap<u32, Confidence> = FxHashMap::default();
    library.insert(1, Confidence::Certain);
    library.insert(2, Confidence::Probable);
    drop_capped_library_roots(&mut library, &[FileId(2), FileId(7)]);
    assert_eq!(library.len(), 1);
    assert_eq!(library.get(&1), Some(&Confidence::Certain));
}

#[test]
fn a_files_declarations_build_its_symbol_tables() {
    let decls = vec![
        decl("run", SymbolKind::Function, 1, true, None),
        decl("Thing", SymbolKind::Struct, 2, true, None),
        decl("new", SymbolKind::Method, 3, true, Some("Thing")),
        decl("new", SymbolKind::Method, 4, true, Some("Thing")),
        decl("run", SymbolKind::Function, 5, false, None),
    ];
    let earlier = decl("other", SymbolKind::Function, 1, false, None);
    let mut symbols = vec![symbol(0, &earlier), symbol(0, &earlier)];
    let mut members: FxHashMap<String, Vec<u32>> = FxHashMap::default();
    members.insert("new".to_string(), vec![0]);
    let mut units: FxHashMap<String, FxHashMap<String, u32>> = FxHashMap::default();
    let (bare, qualified, twins) = declare_file_symbols(
        1,
        &decls,
        &Some("pkg".to_string()),
        &Some("Thing".to_string()),
        &mut symbols,
        &mut members,
        &mut units,
    );
    assert_eq!(symbols.len(), 7);
    assert_eq!(symbols[2].name, "run");
    assert_eq!(symbols[4].member_of.as_deref(), Some("Thing"));
    assert!(symbols[2..].iter().all(|s| s.file == FileId(1)));
    assert_eq!(bare.len(), 3);
    assert_eq!(bare.get("run"), Some(&6));
    assert_eq!(bare.get("Thing"), Some(&3));
    assert_eq!(bare.get("default"), Some(&3));
    assert_eq!(qualified.len(), 1);
    assert_eq!(qualified.get("Thing.new"), Some(&5));
    assert_eq!(twins.get("Thing.new"), Some(&vec![4]));
    assert_eq!(members.get("new"), Some(&vec![0, 4, 5]));
    let pkg = units.get("pkg").unwrap();
    assert_eq!(pkg.len(), 2);
    assert_eq!(pkg.get("run"), Some(&6));
    assert_eq!(pkg.get("Thing"), Some(&3));
}

#[test]
fn every_files_symbols_take_the_next_ids_in_file_order() {
    let files = vec![
        Some(FileDeclarations {
            declarations: vec![
                decl("a", SymbolKind::Function, 1, true, None),
                decl("m", SymbolKind::Method, 2, true, Some("T")),
            ],
            default_alias: None,
        }),
        None,
        Some(FileDeclarations {
            declarations: vec![decl("b", SymbolKind::Function, 1, true, None), decl("m", SymbolKind::Method, 2, true, Some("U"))],
            default_alias: Some("b".to_string()),
        }),
    ];
    let units = vec![Some("u".to_string()), None, Some("u".to_string())];
    let built = build_symbol_tables(&files, &units);
    assert_eq!(built.symbols.len(), 4);
    assert_eq!(built.runs, vec![(0, 2), (0, 0), (2, 4)]);
    assert_eq!(built.symbols[2].file, FileId(2));
    assert_eq!(built.symbol_by_name_per_file[0].get("a"), Some(&0));
    assert!(built.symbol_by_name_per_file[1].is_empty());
    assert_eq!(built.symbol_by_name_per_file[2].get("b"), Some(&2));
    assert_eq!(built.symbol_by_name_per_file[2].get("default"), Some(&2));
    assert_eq!(built.symbol_by_qualified_per_file[0].get("T.m"), Some(&1));
    assert_eq!(built.symbol_by_qualified_per_file[2].get("U.m"), Some(&3));
    assert_eq!(built.member_by_name.get("m"), Some(&vec![1, 3]));
    let unit = built.symbol_by_name_per_unit.get("u").unwrap();
    assert_eq!(unit.len(), 2);
    assert_eq!(unit.get("a"), Some(&0));
    assert_eq!(unit.get("b"), Some(&2));
}
