use kndo_core::graph::references::{dynamic_edges, reference_edges, RawDynamic, RawReference};
use kndo_core::graph::file_resolution::{resolve_file, FileResolutionFacts};
use kndo_core::graph::imports::{ImportBinding, ImportResolution, RawImport};
use kndo_core::graph::reexports::reexport_aliases;
use kndo_core::graph::resolve::ResolveTables;
use kndo_core::graph::{FileNode, SymbolKind, SymbolNode};
use kndo_core::vocab::{
    Confidence, Edge, EdgeKind, FileId, NodeRef, PackageId, ProjectPath, Provenance, RefKind, Span, SymbolId,
    VisibilityLevel, VisibilityRung, VisibilityScope,
};
use rustc_hash::FxHashMap;

fn sym(file: u32, name: &str, member_of: Option<&str>, visibility: u8) -> SymbolNode {
    SymbolNode {
        file: FileId(file),
        name: name.to_string(),
        kind: if member_of.is_some() { SymbolKind::Method } else { SymbolKind::Function },
        span: Span { start: (1, 1), end: (1, 1) },
        exported: true,
        visibility: VisibilityLevel(visibility),
        member_of: member_of.map(|m| m.to_string()),
        signature_span: None,
        implicitly_invoked: false,
        nested_scope: false,
        visibility_inherited: false,
        visible_in_unit: None,
        implements: None,
        markers: Vec::new(),
    }
}

fn file(path: &str, language: &str) -> FileNode {
    FileNode {
        path: ProjectPath(path.to_string()),
        content_hash: [0; 32],
        language: Some(language.to_string()),
        class: None,
        package: PackageId(0),
        unit: None,
        unit_parent: None,
        test_spans: Vec::new(),
    }
}

fn names(entries: &[(&str, u32)]) -> FxHashMap<String, u32> {
    entries.iter().map(|(k, v)| (k.to_string(), *v)).collect()
}

fn rung(scope: VisibilityScope, label: &str) -> VisibilityRung {
    VisibilityRung { scope, label: label.to_string(), surface_transitive: true }
}

fn at(line: u32) -> Span {
    Span { start: (line, 1), end: (line, 10) }
}

fn reference(name: &str, within: Option<&str>, scope: Option<&str>, line: u32) -> RawReference {
    RawReference {
        name: name.to_string(),
        within: within.map(|w| w.to_string()),
        scope_context: scope.map(|s| s.to_string()),
        kind: RefKind::Call,
        span: at(line),
    }
}

/// Three files: `lib.rs` (0) declares `main` (0) and `helper` (1); `thing.rs` (1)
/// declares `Thing` (2) with members `from_parts` (3) and a public `run` (4), and
/// `util` (6); `run.go` (2) declares a Go member `run` (5). File 0 imports `Thing`
/// bare and `thing.rs` under the settling qualifier `thing`.
struct World {
    symbols: Vec<SymbolNode>,
    by_name: Vec<FxHashMap<String, u32>>,
    by_qualified: Vec<FxHashMap<String, u32>>,
    twins: Vec<FxHashMap<String, Vec<u32>>>,
    member_types: Vec<FxHashMap<(String, String), (String, Vec<String>)>>,
    bound: FxHashMap<String, u32>,
    qualifiers: FxHashMap<String, (u32, bool)>,
    file_unit: Vec<Option<String>>,
    unit_tables: FxHashMap<String, FxHashMap<String, u32>>,
    members: FxHashMap<String, Vec<u32>>,
    files: Vec<FileNode>,
    ladders: Vec<(String, Vec<VisibilityRung>)>,
}

fn world() -> World {
    let symbols = vec![
        sym(0, "main", None, 1),
        sym(0, "helper", None, 1),
        sym(1, "Thing", None, 1),
        sym(1, "from_parts", Some("Thing"), 1),
        sym(1, "run", Some("Thing"), 1),
        sym(2, "run", None, 1),
        sym(1, "util", None, 1),
    ];
    let mut qualifiers = FxHashMap::default();
    qualifiers.insert("thing".to_string(), (1u32, true));
    let mut members: FxHashMap<String, Vec<u32>> = FxHashMap::default();
    members.insert("run".to_string(), vec![4, 5]);
    members.insert("from_parts".to_string(), vec![3]);
    World {
        symbols,
        by_name: vec![names(&[("main", 0), ("helper", 1)]), names(&[("Thing", 2), ("util", 6)]), names(&[])],
        by_qualified: vec![names(&[]), names(&[("Thing.from_parts", 3), ("Thing.run", 4)]), names(&[])],
        twins: vec![FxHashMap::default(), FxHashMap::default(), FxHashMap::default()],
        member_types: vec![FxHashMap::default(), FxHashMap::default(), FxHashMap::default()],
        bound: names(&[("Thing", 2)]),
        qualifiers,
        file_unit: vec![None, None, Some("pkg".to_string())],
        unit_tables: FxHashMap::default(),
        members,
        files: vec![file("lib.rs", "rust"), file("thing.rs", "rust"), file("run.go", "go")],
        ladders: vec![(
            "rust".to_string(),
            vec![rung(VisibilityScope::File, "private"), rung(VisibilityScope::Public, "pub")],
        )],
    }
}

fn resolve(w: &World, references: &[RawReference], visible: &[String]) -> Vec<Edge> {
    let t = ResolveTables {
        symbols: &w.symbols,
        symbol_by_name_per_file: &w.by_name,
        symbol_by_qualified_per_file: &w.by_qualified,
        qualified_twins_per_file: &w.twins,
        member_types_per_file: &w.member_types,
    };
    reference_edges(
        0,
        references,
        &w.bound,
        &w.qualifiers,
        &w.file_unit,
        &w.unit_tables,
        &w.members,
        visible,
        &w.files,
        &w.ladders,
        &t,
        "rust",
    )
}

fn shape(edges: &[Edge]) -> Vec<(NodeRef, u32, Confidence, u32)> {
    edges
        .iter()
        .map(|e| match e.kind {
            EdgeKind::References { from, to, .. } => (from, to.0, e.confidence, e.span.unwrap().start.0),
            _ => panic!("not a reference edge"),
        })
        .collect()
}

#[test]
fn each_reference_resolves_in_ladder_order() {
    let w = world();
    let refs = vec![
        reference("helper", Some("main"), None, 1),
        reference("util", None, Some("thing"), 2),
        reference("missing", None, Some("thing"), 3),
        reference("from_parts", None, Some("Thing"), 4),
        reference("run", None, Some("receiver"), 5),
        reference("nothing", None, None, 6),
    ];
    let edges = resolve(&w, &refs, &[]);
    assert_eq!(
        shape(&edges),
        vec![
            (NodeRef::Symbol(SymbolId(0)), 1, Confidence::Certain, 1),
            (NodeRef::File(FileId(0)), 6, Confidence::Certain, 2),
            (NodeRef::File(FileId(0)), 3, Confidence::Certain, 4),
            (NodeRef::File(FileId(0)), 4, Confidence::Probable, 5),
        ]
    );
    for e in &edges {
        assert_eq!(e.owner, FileId(0));
        assert!(matches!(&e.source, Provenance::Adapter(a) if a == "rust"));
        assert!(matches!(e.kind, EdgeKind::References { kind: RefKind::Call, .. }));
    }
}

#[test]
fn an_unknown_enclosing_name_keeps_file_attribution() {
    let w = world();
    let edges = resolve(&w, &[reference("helper", Some("gone"), None, 1)], &[]);
    assert_eq!(shape(&edges), vec![(NodeRef::File(FileId(0)), 1, Confidence::Certain, 1)]);
}

#[test]
fn several_member_candidates_are_each_possible() {
    let mut w = world();
    w.symbols.push(sym(0, "run", Some("Local"), 1));
    w.members.insert("run".to_string(), vec![4, 5, 7]);
    let edges = resolve(&w, &[reference("run", None, Some("value"), 1)], &[]);
    assert_eq!(
        shape(&edges),
        vec![(NodeRef::File(FileId(0)), 4, Confidence::Possible, 1), (NodeRef::File(FileId(0)), 7, Confidence::Possible, 1)]
    );
}

#[test]
fn a_member_whose_scope_excludes_the_site_is_no_candidate() {
    let mut w = world();
    w.symbols[4].visibility = VisibilityLevel(0);
    let edges = resolve(&w, &[reference("run", None, Some("value"), 1)], &[]);
    assert!(edges.is_empty());
}

#[test]
fn a_weak_qualifier_that_finds_nothing_falls_through() {
    let mut w = world();
    w.qualifiers.insert("thing".to_string(), (1, false));
    let edges = resolve(&w, &[reference("run", None, Some("thing"), 1)], &[]);
    assert_eq!(shape(&edges), vec![(NodeRef::File(FileId(0)), 4, Confidence::Probable, 1)]);
}

#[test]
fn a_bare_name_reaches_a_visible_unit() {
    let mut w = world();
    w.unit_tables.insert("ui".to_string(), names(&[("Widget", 6)]));
    let edges = resolve(&w, &[reference("Widget", None, None, 1)], &["ui".to_string()]);
    assert_eq!(shape(&edges), vec![(NodeRef::File(FileId(0)), 6, Confidence::Certain, 1)]);
    let none = resolve(&w, &[reference("Widget", None, None, 1)], &[]);
    assert!(none.is_empty());
}

#[test]
fn a_dotted_pointer_with_no_base_is_a_member_access() {
    let w = world();
    let edges = resolve(&w, &[reference("run", None, Some("cfg.items"), 1)], &[]);
    assert_eq!(shape(&edges), vec![(NodeRef::File(FileId(0)), 4, Confidence::Probable, 1)]);
}

fn reexport(exported: &str, target: u32, local: &str) -> (String, u32, String) {
    (exported.to_string(), target, local.to_string())
}

#[test]
fn chained_barrels_resolve_whatever_their_order() {
    let tables = vec![names(&[]), names(&[]), names(&[("a", 5), ("b", 6)]), names(&[("a", 9)])];
    let reexports = vec![
        vec![reexport("a", 1, "a")],
        vec![reexport("a", 2, "a"), reexport("b", 2, "bee")],
        vec![],
        vec![reexport("a", 2, "a")],
    ];
    let aliases = reexport_aliases(&reexports, &tables);
    assert_eq!(aliases.len(), 4);
    assert_eq!(aliases[0], names(&[("a", 5)]));
    assert_eq!(aliases[1], names(&[("a", 5), ("bee", 6)]));
    assert!(aliases[2].is_empty());
    assert!(aliases[3].is_empty());
}

#[test]
fn a_reexport_cycle_never_resolves() {
    let tables = vec![names(&[]), names(&[])];
    let reexports = vec![vec![reexport("x", 1, "x")], vec![reexport("x", 0, "x")]];
    let aliases = reexport_aliases(&reexports, &tables);
    assert!(aliases.iter().all(|a| a.is_empty()));
}

#[test]
fn the_first_alias_to_resolve_keeps_a_name() {
    let tables = vec![names(&[]), names(&[]), names(&[("y", 7), ("z", 8)])];
    let reexports = vec![vec![reexport("y", 1, "x"), reexport("z", 2, "x")], vec![reexport("y", 2, "y")], vec![]];
    let aliases = reexport_aliases(&reexports, &tables);
    assert_eq!(aliases[0], names(&[("x", 8)]));
    assert_eq!(aliases[1], names(&[("y", 7)]));
}

fn dynamic_shape(edges: &[Edge]) -> Vec<(String, u32)> {
    edges
        .iter()
        .map(|e| {
            assert_eq!(e.confidence, Confidence::Possible);
            assert_eq!(e.owner, FileId(0));
            match e.kind {
                EdgeKind::ImportsFile { from, to } => {
                    assert_eq!(from, FileId(0));
                    ("imports".to_string(), to.0)
                },
                EdgeKind::Wildcard { from } => ("wildcard".to_string(), from.0),
                _ => panic!("unexpected edge"),
            }
        })
        .collect()
}

#[test]
fn a_narrowed_dynamic_import_reaches_every_file_under_its_directory() {
    let files = vec![
        file("src/a.js", "js"),
        file("src/locales/en.json", "json"),
        file("src/locales/fr.json", "json"),
        file("lib/x.js", "js"),
    ];
    let narrowed = vec![RawDynamic { narrowed_to: Some("src/locales".to_string()), span: at(3) }];
    let edges = dynamic_edges(0, &narrowed, &files, "js");
    assert_eq!(
        dynamic_shape(&edges),
        vec![
            ("imports".to_string(), 1),
            ("wildcard".to_string(), 1),
            ("imports".to_string(), 2),
            ("wildcard".to_string(), 2),
        ]
    );
    assert!(edges.iter().all(|e| e.span == Some(at(3))));
    let open = vec![
        RawDynamic { narrowed_to: None, span: at(4) },
        RawDynamic { narrowed_to: Some(String::new()), span: at(5) },
    ];
    let edges = dynamic_edges(0, &open, &files, "js");
    assert_eq!(dynamic_shape(&edges), vec![("wildcard".to_string(), 0), ("wildcard".to_string(), 0)]);
}

#[test]
fn a_file_resolves_its_imports_then_its_references_then_its_dynamics() {
    let w = world();
    let t = ResolveTables {
        symbols: &w.symbols,
        symbol_by_name_per_file: &w.by_name,
        symbol_by_qualified_per_file: &w.by_qualified,
        qualified_twins_per_file: &w.twins,
        member_types_per_file: &w.member_types,
    };
    let facts = FileResolutionFacts {
        invoked_executables: vec!["nothing".to_string()],
        imports: vec![RawImport {
            specifier: "./thing".to_string(),
            bindings: vec![ImportBinding { imported: Some("Thing".to_string()), local: "Thing".to_string() }],
            local_alias: Some("thing".to_string()),
            module_names_visible: false,
            span: at(1),
            confidence: Confidence::Certain,
            opaque_namespace_use: false,
        }],
        resolutions: vec![ImportResolution {
            file: Some(("thing.rs".to_string(), Confidence::Certain)),
            dependency: None,
        }],
        references: vec![reference("from_parts", None, Some("Thing"), 2), reference("util", None, Some("thing"), 3)],
        dynamics: vec![RawDynamic { narrowed_to: None, span: at(4) }],
    };
    let file_index = names(&[("lib.rs", 0), ("thing.rs", 1), ("run.go", 2)]);
    let executables = names(&[]);
    let (edges, deps) = resolve_file(
        0,
        &facts,
        &file_index,
        &executables,
        &[None, None, None],
        &w.file_unit,
        &w.unit_tables,
        &w.members,
        &w.files,
        &w.ladders,
        &t,
        "rust",
    );
    assert!(deps.is_empty());
    let kinds: Vec<(EdgeKind, Confidence)> = edges.iter().map(|e| (e.kind, e.confidence)).collect();
    assert_eq!(
        kinds,
        vec![
            (EdgeKind::ImportsFile { from: FileId(0), to: FileId(1) }, Confidence::Certain),
            (
                EdgeKind::References { from: NodeRef::File(FileId(0)), to: SymbolId(3), kind: RefKind::Call },
                Confidence::Certain
            ),
            (
                EdgeKind::References { from: NodeRef::File(FileId(0)), to: SymbolId(6), kind: RefKind::Call },
                Confidence::Certain
            ),
            (EdgeKind::Wildcard { from: FileId(0) }, Confidence::Possible),
        ]
    );
}
