use kndo_core::graph::imports::{
    dependency_nodes, import_bindings, import_edges, import_qualifiers, invoked_program_edges, last_segment, DependencyImport,
    ImportBinding, ImportResolution, RawImport,
};
use kndo_core::vocab::{Confidence, EdgeKind, FileId, Provenance, Span};
use rustc_hash::FxHashMap;

fn span(line: u32) -> Span {
    Span {
        start: (line, 1),
        end: (line, 20),
    }
}

fn import(line: u32, confidence: Confidence, opaque: bool) -> RawImport {
    RawImport {
        specifier: "x".to_string(),
        bindings: Vec::new(),
        local_alias: None,
        module_names_visible: false,
        span: span(line),
        confidence,
        opaque_namespace_use: opaque,
    }
}

#[test]
fn imports_become_file_edges_wildcards_and_capped_dependency_claims() {
    let mut index: FxHashMap<String, u32> = FxHashMap::default();
    index.insert("src/util.ts".to_string(), 4);
    let imports = vec![
        import(1, Confidence::Certain, false),
        import(2, Confidence::Certain, true),
        import(3, Confidence::Possible, false),
        import(4, Confidence::Certain, false),
        import(5, Confidence::Certain, false),
    ];
    let resolutions = vec![
        ImportResolution { file: Some(("src/util.ts".to_string(), Confidence::Certain)), dependency: None },
        ImportResolution { file: Some(("src/util.ts".to_string(), Confidence::Probable)), dependency: None },
        ImportResolution { file: None, dependency: Some(("react".to_string(), Confidence::Certain)) },
        ImportResolution { file: Some(("outside.ts".to_string(), Confidence::Certain)), dependency: None },
        ImportResolution {
            file: Some(("src/util.ts".to_string(), Confidence::Certain)),
            dependency: Some(("@ws/util".to_string(), Confidence::Probable)),
        },
    ];
    let (edges, deps) = import_edges(2, &imports, &resolutions, &index, "js-ts");
    let kinds: Vec<(String, Confidence, u32)> = edges
        .iter()
        .map(|e| match &e.kind {
            EdgeKind::ImportsFile { from, to } => (format!("import {}->{}", from.0, to.0), e.confidence, e.span.unwrap().start.0),
            EdgeKind::Wildcard { from } => (format!("wildcard {}", from.0), e.confidence, e.span.unwrap().start.0),
            _ => panic!("unexpected edge"),
        })
        .collect();
    assert_eq!(
        kinds,
        vec![
            ("import 2->4".to_string(), Confidence::Certain, 1),
            ("import 2->4".to_string(), Confidence::Probable, 2),
            ("wildcard 4".to_string(), Confidence::Possible, 2),
            ("import 2->4".to_string(), Confidence::Certain, 5),
        ]
    );
    assert!(edges.iter().all(|e| e.owner.0 == 2 && matches!(&e.source, Provenance::Adapter(a) if a == "js-ts")));
    let claims: Vec<(&str, Confidence, u32)> = deps.iter().map(|d| (d.name.as_str(), d.confidence, d.span.start.0)).collect();
    assert_eq!(claims, vec![("react", Confidence::Possible, 3), ("@ws/util", Confidence::Probable, 5)]);
}

fn table(entries: &[(&str, u32)]) -> FxHashMap<String, u32> {
    entries.iter().map(|(n, s)| (n.to_string(), *s)).collect()
}

fn binding(imported: Option<&str>, local: &str) -> ImportBinding {
    ImportBinding {
        imported: imported.map(|n| n.to_string()),
        local: local.to_string(),
    }
}

#[test]
fn bindings_resolve_in_the_target_then_in_its_unit_and_units_become_visible_once() {
    let mut index: FxHashMap<String, u32> = FxHashMap::default();
    index.insert("a.go".to_string(), 0);
    index.insert("b.go".to_string(), 1);
    let tables = vec![table(&[("default", 7), ("Run", 8)]), table(&[])];
    let mut units: FxHashMap<String, FxHashMap<String, u32>> = FxHashMap::default();
    units.insert("pkg".to_string(), table(&[("Helper", 9)]));
    let file_unit = vec![None, Some("pkg".to_string())];
    let mut first = import(1, Confidence::Certain, false);
    first.bindings = vec![binding(None, "main"), binding(Some("Run"), "run"), binding(Some("Gone"), "gone")];
    let mut second = import(2, Confidence::Certain, false);
    second.bindings = vec![binding(Some("Helper"), "helper"), binding(Some("Run"), "run")];
    second.module_names_visible = true;
    let mut third = import(3, Confidence::Certain, false);
    third.module_names_visible = true;
    let res = |p: &str| ImportResolution { file: Some((p.to_string(), Confidence::Certain)), dependency: None };
    let (bound, visible) =
        import_bindings(&[first, second, third], &[res("a.go"), res("b.go"), res("b.go")], &index, &tables, &units, &file_unit);
    let mut names: Vec<(String, u32)> = bound.into_iter().collect();
    names.sort();
    assert_eq!(names, vec![("helper".to_string(), 9), ("main".to_string(), 7), ("run".to_string(), 8)]);
    assert_eq!(visible, vec!["pkg".to_string()]);
}

#[test]
fn qualifiers_come_from_the_alias_the_unit_name_or_the_last_path_segment_first_wins() {
    let mut index: FxHashMap<String, u32> = FxHashMap::default();
    index.insert("yaml.go".to_string(), 0);
    index.insert("discovery.rs".to_string(), 1);
    index.insert("other.rs".to_string(), 2);
    let unit_names = vec![Some("yaml".to_string()), None, None];
    let mut aliased = import(1, Confidence::Certain, false);
    aliased.local_alias = Some("y".to_string());
    let by_unit = import(2, Confidence::Certain, false);
    let mut by_path = import(3, Confidence::Certain, false);
    by_path.specifier = "crate::discovery".to_string();
    let mut clash = import(4, Confidence::Certain, false);
    clash.specifier = "crate::discovery".to_string();
    let res = |p: &str| ImportResolution { file: Some((p.to_string(), Confidence::Certain)), dependency: None };
    let table = import_qualifiers(
        &[aliased, by_unit, by_path, clash],
        &[res("yaml.go"), res("yaml.go"), res("discovery.rs"), res("other.rs")],
        &index,
        &unit_names,
    );
    let mut entries: Vec<(String, (u32, bool))> = table.into_iter().collect();
    entries.sort();
    assert_eq!(
        entries,
        vec![
            ("discovery".to_string(), (1, false)),
            ("y".to_string(), (0, true)),
            ("yaml".to_string(), (0, true)),
        ]
    );
    assert_eq!(last_segment("a::b::c"), "c");
    assert_eq!(last_segment("a:::b"), "b");
    assert_eq!(last_segment("plain"), "plain");
}

#[test]
fn a_declared_invocation_of_a_workspace_executable_is_a_certain_edge() {
    let mut executables: FxHashMap<String, u32> = FxHashMap::default();
    executables.insert("xtask".to_string(), 5);
    let edges = invoked_program_edges(1, &["xtask".to_string(), "unknown".to_string()], &executables, "rust");
    assert_eq!(edges.len(), 1);
    assert!(matches!(edges[0].kind, EdgeKind::InvokesFile { to, .. } if to.0 == 5));
    assert_eq!(edges[0].confidence, Confidence::Certain);
    assert_eq!(edges[0].owner.0, 1);
}

fn dep(name: &str, file: u32, confidence: Confidence, line: u32) -> DependencyImport {
    DependencyImport {
        name: name.to_string(),
        confidence,
        span: span(line),
        file: FileId(file),
        source: Provenance::Adapter("js-ts".to_string()),
    }
}

#[test]
fn every_dependency_name_gets_one_node_in_order_of_first_appearance() {
    let imports = vec![
        dep("react", 0, Confidence::Certain, 1),
        dep("lodash", 0, Confidence::Possible, 2),
        dep("react", 3, Confidence::Certain, 5),
    ];
    let (nodes, edges) = dependency_nodes(&imports);
    let names: Vec<&str> = nodes.iter().map(|n| n.name.as_str()).collect();
    assert_eq!(names, vec!["react", "lodash"]);
    let drawn: Vec<(u32, u32, Confidence, u32)> = edges
        .iter()
        .map(|e| match e.kind {
            EdgeKind::ImportsDependency { from, to } => {
                assert_eq!(e.owner, from);
                (from.0, to.0, e.confidence, e.span.unwrap().start.0)
            },
            _ => panic!("not a dependency import"),
        })
        .collect();
    assert_eq!(
        drawn,
        vec![(0, 0, Confidence::Certain, 1), (0, 1, Confidence::Possible, 2), (3, 0, Confidence::Certain, 5)]
    );
    assert!(edges.iter().all(|e| matches!(&e.source, Provenance::Adapter(a) if a == "js-ts")));
}
