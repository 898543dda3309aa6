use kndo_core::engine::rebase_moves;
use kndo_core::graph::{FileNode, PackageNode, ProjectGraph};
use kndo_core::vocab::{PackageId, ProjectPath};

fn file(path: &str) -> FileNode {
    FileNode {
        path: ProjectPath(path.to_string()),
        content_hash: [0; 32],
        language: None,
        class: None,
        package: PackageId(0),
        unit: None,
        unit_parent: None,
        test_spans: Vec::new(),
    }
}

fn package(manifest: Option<&str>, name: Option<&str>) -> PackageNode {
    PackageNode {
        manifest: manifest.map(|m| ProjectPath(m.to_string())),
        name: name.map(|n| n.to_string()),
        private: false,
        declares_surface: false,
        surface: Vec::new(),
        workspace_entry: None,
        targets: Vec::new(),
        executables: Vec::new(),
        resolves_dependency_usage: false,
        manifest_claim_languages: Vec::new(),
    }
}

fn graph(files: Vec<FileNode>, packages: Vec<PackageNode>) -> ProjectGraph {
    ProjectGraph {
        files,
        symbols: Vec::new(),
        dependencies: Vec::new(),
        declared_dependencies: Vec::new(),
        script_invoked_dependencies: Vec::new(),
        packages,
        edges: Vec::new(),
        suppressions: Vec::new(),
        visibility_ladders: Vec::new(),
        testable_languages: Vec::new(),
        cycle_policies: Vec::new(),
        function_metrics: Vec::new(),
        patch_meta: Vec::new(),
        externally_consumed: Vec::new(),
        plugin_implicitly_invoked: Vec::new(),
        unresolved_imports: Vec::new(),
    }
}

fn keys(items: &[&str]) -> Vec<String> {
    items.iter().map(|s| s.to_string()).collect()
}

#[test]
fn rebase_by_packages_moves_only_unmatched_keys_with_a_unique_target() {
    let g = graph(
        vec![file("pkg/a.go"), file("github.com/x/y/pkg/b.go")],
        vec![package(Some("go.mod"), Some("github.com/x/y"))],
    );
    let moves = rebase_moves(
        &keys(&[
            "github.com/x/y/pkg/a.go",     // unmatched, unique target -> moves
            "github.com/x/y/pkg/b.go",     // matches the graph verbatim -> stays
            "github.com/other/z/pkg/c.go", // no mapping applies -> stays
        ]),
        &g,
    );
    assert_eq!(moves, vec![("github.com/x/y/pkg/a.go".to_string(), "pkg/a.go".to_string())]);
}

#[test]
fn a_nested_manifest_maps_onto_its_directory() {
    let g = graph(
        vec![file("services/api/src/main.rs")],
        vec![package(Some("services/api/Cargo.toml"), Some("api"))],
    );
    let moves = rebase_moves(&keys(&["api/src/main.rs", "api/src/gone.rs"]), &g);
    assert_eq!(moves, vec![("api/src/main.rs".to_string(), "services/api/src/main.rs".to_string())]);
}

#[test]
fn two_mappings_that_both_hit_leave_the_key_alone() {
    let g = graph(
        vec![file("a/x.go"), file("b/x.go")],
        vec![package(Some("a/go.mod"), Some("m")), package(Some("b/go.mod"), Some("m"))],
    );
    assert!(rebase_moves(&keys(&["m/x.go"]), &g).is_empty());
}

#[test]
fn packages_without_a_name_or_manifest_map_nothing() {
    let g = graph(vec![file("x.go")], vec![package(None, Some("m")), package(Some("go.mod"), None)]);
    assert!(rebase_moves(&keys(&["m/x.go"]), &g).is_empty());
    assert!(rebase_moves(&[], &g).is_empty());
}
