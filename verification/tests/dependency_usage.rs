use kndo_core::graph::DependencyScope;
use kndo_core::ownership::{
    import_suffix, importer_table, judged_declarations, FileImports, Graph, GraphPackage, ManifestDeclarations,
};
use kndo_core::vocab::ProjectPath;

fn package(name: &str, dir: &str, manifest: &str) -> GraphPackage {
    GraphPackage {
        name: name.to_string(),
        dir: dir.to_string(),
        manifest: ProjectPath(manifest.to_string()),
    }
}

fn strings(items: &[&str]) -> Vec<String> {
    items.iter().map(|s| s.to_string()).collect()
}

#[test]
fn a_manifest_declares_the_first_package_it_anchors() {
    let graph = Graph {
        packages: vec![
            package("root", "", "Cargo.toml"),
            package("a", "crates/a", "crates/a/Cargo.toml"),
            package("a-again", "crates/a", "crates/a/Cargo.toml"),
        ],
    };
    assert_eq!(graph.package_declared_by("crates/a/Cargo.toml"), Some(1));
    assert_eq!(graph.package_declared_by("Cargo.toml"), Some(0));
    assert_eq!(graph.package_declared_by("crates/b/Cargo.toml"), None);
}

#[test]
fn a_manifest_owns_its_packages_files_or_its_directory() {
    let graph = Graph {
        packages: vec![package("root", "", "Cargo.toml"), package("a", "crates/a", "crates/a/Cargo.toml")],
    };
    let paths = strings(&["src/main.rs", "crates/a/src/lib.rs", "crates/a/tests/t.rs", "tools/x.rs"]);
    let root = ManifestDeclarations {
        manifest: ProjectPath("Cargo.toml".to_string()),
        package: Some(0),
    };
    assert_eq!(root.owned_files(&graph, &paths), vec![0, 3]);
    let nested = ManifestDeclarations {
        manifest: ProjectPath("crates/a/Cargo.toml".to_string()),
        package: Some(1),
    };
    assert_eq!(nested.owned_files(&graph, &paths), vec![1, 2]);
    // A manifest that declares no package owns by its own directory.
    let tools = ManifestDeclarations {
        manifest: ProjectPath("tools/requirements.txt".to_string()),
        package: None,
    };
    assert_eq!(tools.owned_files(&graph, &paths), vec![3]);
}

#[test]
fn only_production_or_unscoped_declarations_are_usage_claims() {
    let scopes = vec![Some(DependencyScope::Prod), Some(DependencyScope::Dev), None, Some(DependencyScope::Peer)];
    assert_eq!(judged_declarations(true, false, &scopes), vec![true, false, false, false]);
    assert_eq!(judged_declarations(true, true, &scopes), vec![true, false, true, false]);
    assert_eq!(judged_declarations(false, true, &scopes), vec![false, false, false, false]);
}

#[test]
fn an_import_suffix_is_the_file_names_lowercased_extension() {
    assert_eq!(import_suffix("web/styles/Main.CSS"), Some("css".to_string()));
    assert_eq!(import_suffix("a.b/file"), None);
    assert_eq!(import_suffix("archive.tar.gz"), Some("gz".to_string()));
    assert_eq!(import_suffix("dir/.bashrc"), Some("bashrc".to_string()));
    assert_eq!(import_suffix("Makefile"), None);
    assert_eq!(import_suffix("x/trailing."), Some(String::new()));
}

fn imports(adapter: &str, suffix: Option<&str>, packages: &[&str]) -> FileImports {
    FileImports {
        adapter: adapter.to_string(),
        suffix: suffix.map(|s| s.to_string()),
        packages: packages.iter().map(|p| p.to_string()).collect(),
    }
}

#[test]
fn importers_are_indexed_by_adapter_and_by_suffix() {
    let files = vec![
        imports("js-ts", Some("ts"), &["react", "react", "lodash"]),
        imports("css", Some("css"), &["tailwindcss"]),
        imports("js-ts", Some("tsx"), &["react"]),
        imports("rust", Some("rs"), &["serde"]),
    ];
    let by_adapter = importer_table(&files, "js-ts", false);
    assert_eq!(by_adapter.len(), 2);
    assert_eq!(by_adapter.get("react"), Some(&vec![0, 2]));
    assert_eq!(by_adapter.get("lodash"), Some(&vec![0]));
    assert!(by_adapter.get("tailwindcss").is_none());
    let by_suffix = importer_table(&files, "css", true);
    assert_eq!(by_suffix.len(), 1);
    assert_eq!(by_suffix.get("tailwindcss"), Some(&vec![1]));
    assert!(importer_table(&files, "go", false).is_empty());
}
