use kndo_core::graph::manifests::{
    anchor_manifest_roots, declared_dependencies, ManifestDependency, ManifestFacts, ManifestRoot, WorkspaceDependency,
};
use kndo_core::vocab::{Confidence, EdgeKind, NodeRef, Provenance, RootKind};
use rustc_hash::FxHashMap;
use kndo_core::graph::DependencyScope;
use kndo_core::vocab::{PackageId, ProjectPath};

fn dep(name: &str, req: Option<&str>, scope: DependencyScope, inherited: bool) -> ManifestDependency {
    ManifestDependency {
        name: name.to_string(),
        version_req: req.map(|r| r.to_string()),
        scope,
        inherited,
    }
}

fn pool(entries: &[(&str, &str)]) -> Vec<WorkspaceDependency> {
    entries
        .iter()
        .map(|(n, r)| WorkspaceDependency {
            name: n.to_string(),
            version_req: Some(r.to_string()),
        })
        .collect()
}

#[test]
fn inherited_requirements_resolve_against_the_last_pool_entry_across_manifests() {
    let manifests = vec![
        Some(ManifestFacts {
            dependencies: vec![
                dep("serde", Some("*"), DependencyScope::Prod, true),
                dep("log", Some("0.4"), DependencyScope::Dev, false),
                dep("orphan", Some("*"), DependencyScope::Prod, true),
            ],
            workspace_dependencies: Vec::new(),
            roots: Vec::new(),
        }),
        None,
        Some(ManifestFacts {
            dependencies: Vec::new(),
            workspace_dependencies: pool(&[("serde", "1.0")]),
            roots: Vec::new(),
        }),
        Some(ManifestFacts {
            dependencies: vec![dep("serde", Some("1.0.100"), DependencyScope::Prod, false)],
            workspace_dependencies: pool(&[("serde", "2.0")]),
            roots: Vec::new(),
        }),
    ];
    let paths: Vec<ProjectPath> = ["member/Cargo.toml", "src/lib.rs", "Cargo.toml", "tools/Cargo.toml"]
        .iter()
        .map(|p| ProjectPath(p.to_string()))
        .collect();
    let packages = vec![Some(PackageId(2)), None, Some(PackageId(1)), None];
    let declared = declared_dependencies(&manifests, &paths, &packages);
    let seen: Vec<(u32, &str, &str, Option<&str>)> = declared
        .iter()
        .map(|d| (d.package.0, d.manifest.0.as_str(), d.name.as_str(), d.version_req.as_deref()))
        .collect();
    assert_eq!(
        seen,
        vec![
            (2, "member/Cargo.toml", "serde", Some("2.0")),
            (2, "member/Cargo.toml", "log", Some("0.4")),
            (2, "member/Cargo.toml", "orphan", Some("*")),
            (0, "tools/Cargo.toml", "serde", Some("1.0.100")),
        ]
    );
    assert_eq!(declared[1].scope, DependencyScope::Dev);
}

fn root(target: &str, kind: RootKind, confidence: Confidence) -> ManifestRoot {
    ManifestRoot {
        target: ProjectPath(target.to_string()),
        kind,
        confidence,
    }
}

#[test]
fn manifest_entry_points_become_file_roots_and_production_ones_library_roots() {
    let manifests = vec![
        Some(ManifestFacts {
            dependencies: Vec::new(),
            workspace_dependencies: Vec::new(),
            roots: vec![
                root("src/main.rs", RootKind::Production, Confidence::Probable),
                root("gone.rs", RootKind::Production, Confidence::Certain),
                root("tests/it.rs", RootKind::Test, Confidence::Certain),
            ],
        }),
        None,
        Some(ManifestFacts {
            dependencies: Vec::new(),
            workspace_dependencies: Vec::new(),
            roots: vec![root("src/main.rs", RootKind::Production, Confidence::Certain)],
        }),
    ];
    let adapters = vec!["rust".to_string(), "".to_string(), "js".to_string()];
    let mut index: FxHashMap<String, u32> = FxHashMap::default();
    index.insert("src/main.rs".to_string(), 1);
    index.insert("tests/it.rs".to_string(), 3);
    let mut edges = Vec::new();
    let mut library: FxHashMap<u32, Confidence> = FxHashMap::default();
    anchor_manifest_roots(&manifests, &adapters, &index, &mut edges, &mut library);
    let seen: Vec<(u32, RootKind, u32, Confidence)> = edges
        .iter()
        .map(|e| match &e.kind {
            EdgeKind::Root {
                kind,
                target: NodeRef::File(f),
            } => (e.owner.0, *kind, f.0, e.confidence),
            _ => panic!("not a file root"),
        })
        .collect();
    assert_eq!(
        seen,
        vec![
            (0, RootKind::Production, 1, Confidence::Probable),
            (0, RootKind::Test, 3, Confidence::Certain),
            (2, RootKind::Production, 1, Confidence::Certain),
        ]
    );
    assert!(matches!(&edges[2].source, Provenance::Adapter(a) if a == "js"));
    assert!(edges.iter().all(|e| e.span.is_none()));
    assert_eq!(library.len(), 1);
    assert_eq!(library.get(&1), Some(&Confidence::Certain));
}
