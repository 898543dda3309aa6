use kndo_core::graph::assemble::{
    core_dirname, executable_name_index, hop_type_name, manifest_targets, package_owns,
    projection_index, promote_package_relative_test_roles, scope_contains_site, split_projection,
};
use kndo_core::graph::plugin_round::file_path_index;
use kndo_core::graph::{FileNode, PackageNode, ProjectGraph};
use kndo_core::ownership::{Graph, GraphPackage, ManifestDeclarations};
use kndo_core::vocab::{
    ExecutableTarget, FileClass, FileOrigin, FileRole, PackageId, ProjectPath, VisibilityScope,
};

fn file(path: &str, package: u32, role: Option<FileRole>) -> FileNode {
    FileNode {
        path: ProjectPath(path.to_string()),
        content_hash: [0; 32],
        language: Some("mock".to_string()),
        class: role.map(|role| FileClass {
            role,
            origin: FileOrigin::Authored,
        }),
        package: PackageId(package),
        unit: None,
        unit_parent: None,
        test_spans: Vec::new(),
    }
}

fn package(manifest: Option<&str>, executables: Vec<(&str, &str)>) -> PackageNode {
    PackageNode {
        manifest: manifest.map(|m| ProjectPath(m.to_string())),
        name: None,
        private: false,
        declares_surface: false,
        surface: Vec::new(),
        workspace_entry: None,
        targets: Vec::new(),
        executables: executables
            .into_iter()
            .map(|(name, entry)| ExecutableTarget {
                name: name.to_string(),
                entry: ProjectPath(entry.to_string()),
            })
            .collect(),
        resolves_dependency_usage: false,
        manifest_claim_languages: Vec::new(),
    }
}

fn graph_of(files: Vec<FileNode>, packages: Vec<PackageNode>) -> ProjectGraph {
    ProjectGraph {
        files,
        symbols: Vec::new(),
        dependencies: Vec::new(),
        declared_dependencies: Vec::new(),
        script_invoked_dependencies: Vec::new(),
        packages,
        edges: Vec::new(),
        suppressions: Vec::new(),
        visibility_ladders: Vec::new(),
        testable_languages: Vec::new(),
        cycle_policies: Vec::new(),
        function_metrics: Vec::new(),
        patch_meta: Vec::new(),
        externally_consumed: Vec::new(),
        plugin_implicitly_invoked: Vec::new(),
        unresolved_imports: Vec::new(),
    }
}

#[test]
fn ownership_is_the_deepest_directory_and_the_earlier_package_on_a_tie() {
    let pkg = |name: &str, dir: &str, manifest: &str| GraphPackage {
        name: name.to_string(),
        dir: dir.to_string(),
        manifest: ProjectPath(manifest.to_string()),
    };
    let graph = Graph {
        packages: vec![
            pkg("root", "", "settings.gradle.kts"),
            pkg("com.example:snippet", "docs/snippet", "docs/snippet/pom.xml"),
            pkg("snippet", "docs/snippet", "docs/snippet/pom.xml"),
        ],
    };
    let owner = |p: &str| {
        graph
            .package_of(p)
            .map(|i| graph.packages[i as usize].name.clone())
    };
    assert_eq!(owner("src/main.kt").as_deref(), Some("root"));
    assert_eq!(
        owner("docs/snippet/src/Main.kt").as_deref(),
        Some("com.example:snippet"),
        "the deepest directory wins, and the earlier package breaks the tie"
    );
    let nested_only = Graph {
        packages: vec![pkg("a", "a", "a/m")],
    };
    assert_eq!(nested_only.package_of("b/x.rs"), None);
    assert_eq!(nested_only.package_of("ab/x.rs"), None);
}

#[test]
fn a_manifest_owns_by_its_package_or_else_by_its_directory() {
    let declared = ManifestDeclarations {
        manifest: ProjectPath("svc/Cargo.toml".to_string()),
        package: Some(2),
    };
    assert!(declared.owns("anything", Some(2)));
    assert!(!declared.owns("svc/x.rs", Some(1)));
    assert!(!declared.owns("svc/x.rs", None));
    let bare = ManifestDeclarations {
        manifest: ProjectPath("svc/Cargo.toml".to_string()),
        package: None,
    };
    assert!(bare.owns("svc/src/x.rs", None));
    assert!(!bare.owns("svcx/a.rs", None));
    let root = ManifestDeclarations {
        manifest: ProjectPath("Cargo.toml".to_string()),
        package: None,
    };
    assert!(root.owns("deep/down/x.rs", None));
}

#[test]
fn dirnames_and_directory_governance() {
    assert_eq!(core_dirname("a/b/c.rs"), "a/b");
    assert_eq!(core_dirname("c.rs"), "");
    assert_eq!(core_dirname("/x"), "");
    assert!(package_owns("", "anything"));
    assert!(package_owns("a/b", "a/b"));
    assert!(package_owns("a/b", "a/b/c"));
    assert!(!package_owns("a/b", "a/bc"));
    assert!(!package_owns("a/b", "a"));
}

#[test]
fn scopes_nest_from_file_to_public() {
    let files = vec![file("a.rs", 0, None), file("b.rs", 0, None), file("c.rs", 1, None)];
    let units = vec![Some("u".to_string()), Some("u".to_string()), None];
    assert!(scope_contains_site(VisibilityScope::File, 0, 0, &units, &files));
    assert!(!scope_contains_site(VisibilityScope::File, 0, 1, &units, &files));
    assert!(scope_contains_site(VisibilityScope::Unit, 0, 1, &units, &files));
    assert!(!scope_contains_site(VisibilityScope::Unit, 0, 2, &units, &files));
    assert!(scope_contains_site(VisibilityScope::Package, 0, 1, &units, &files));
    assert!(!scope_contains_site(VisibilityScope::Package, 0, 2, &units, &files));
    assert!(scope_contains_site(VisibilityScope::Public, 0, 2, &units, &files));
}

#[test]
fn executables_index_by_name_first_declaration_wins() {
    let files = vec![file("bin/a.rs", 0, None), file("bin/b.rs", 1, None)];
    let packages = vec![
        package(None, vec![("tool", "bin/a.rs"), ("ghost", "nowhere.rs")]),
        package(None, vec![("tool", "bin/b.rs"), ("other", "bin/b.rs")]),
    ];
    let g = graph_of(files, packages);
    let paths = file_path_index(&g);
    let index = executable_name_index(&g.packages, &paths);
    assert_eq!(index.get("tool"), Some(&0));
    assert_eq!(index.get("other"), Some(&1));
    assert_eq!(index.get("ghost"), None);
}

#[test]
fn manifest_targets_keep_the_first_of_each_path() {
    let p = |s: &str| ProjectPath(s.to_string());
    let targets = manifest_targets(&[p("src/main.rs"), p("src/bin.rs")], &[p("src/lib.rs"), p("src/main.rs")]);
    let names: Vec<&str> = targets.iter().map(|t| t.0.as_str()).collect();
    assert_eq!(names, vec!["src/main.rs", "src/bin.rs", "src/lib.rs"]);
}

#[test]
fn package_relative_test_dirs_promote_production_files_only() {
    let packages = vec![package(None, vec![]), package(Some("svc/Cargo.toml"), vec![])];
    let mut files = vec![
        file("tests/it.rs", 0, Some(FileRole::Production)),
        file("svc/tests/x.rs", 1, Some(FileRole::Production)),
        file("svc/src/tests/y.rs", 1, Some(FileRole::Production)),
        file("svc/tests/z.rs", 1, Some(FileRole::Tooling)),
        file("svc/tests", 1, Some(FileRole::Production)),
        file("tests/w.rs", 0, None),
    ];
    let dirs = Some(vec!["tests".to_string()]);
    let test_dirs = vec![dirs.clone(), dirs.clone(), dirs.clone(), dirs.clone(), dirs.clone(), dirs];
    promote_package_relative_test_roles(&mut files, &packages, &test_dirs);
    let roles: Vec<Option<FileRole>> = files.iter().map(|f| f.class.map(|c| c.role)).collect();
    assert_eq!(
        roles,
        vec![
            Some(FileRole::Test),
            Some(FileRole::Test),
            Some(FileRole::Production),
            Some(FileRole::Tooling),
            Some(FileRole::Production),
            None,
        ]
    );
}

#[test]
fn projection_markers_select_type_parameters() {
    assert_eq!(split_projection("items"), ("items", None));
    assert_eq!(split_projection("items?"), ("items", Some(0)));
    assert_eq!(split_projection("items?2"), ("items", Some(2)));
    assert_eq!(split_projection("items?x"), ("items?x", None));
    assert_eq!(projection_index(""), Some(0));
    assert_eq!(projection_index("17"), Some(17));
    assert_eq!(projection_index("-1"), None);
    let fact = ("Vec".to_string(), vec!["Item".to_string(), "Alloc".to_string()]);
    assert_eq!(hop_type_name(&fact, None).map(|s| s.as_str()), Some("Vec"));
    assert_eq!(hop_type_name(&fact, Some(1)).map(|s| s.as_str()), Some("Alloc"));
    assert_eq!(hop_type_name(&fact, Some(5)), None);
}
