use kndo_core::engine::touched_paths;
use kndo_core::extract::{
    claim, claimant_of_suffix, glob_set, ignore_set, matching_pairs, unread_region_message, ClaimedFile,
};
use kndo_core::graph::key::DiscoveredFile;
use kndo_core::graph::{FileNode, ProjectGraph};
use kndo_core::vocab::{FileClass, FileOrigin, FileRole, PackageId, ProjectPath};

fn discovered(path: &str) -> DiscoveredFile {
    DiscoveredFile {
        path: ProjectPath(path.to_string()),
        content_hash: [0; 32],
    }
}

fn strings(items: &[&str]) -> Vec<String> {
    items.iter().map(|s| s.to_string()).collect()
}

fn claimed(file_index: usize, adapter_index: usize) -> ClaimedFile {
    ClaimedFile {
        file_index,
        adapter_index,
    }
}

#[test]
fn the_first_adapter_whose_claims_match_owns_the_file() {
    let files = vec![discovered("src/main.rs"), discovered("app/main.go"), discovered("README.md")];
    let claims = vec![strings(&["**/*.rs"]), strings(&["**/*.go", "**/*.rs"])];
    let ignores = vec![Vec::new(), Vec::new()];
    let project = glob_set(&[], false);
    let out = claim(&files, &claims, &ignores, &project);
    assert_eq!(out, vec![claimed(0, 0), claimed(1, 1)]);
}

#[test]
fn an_adapter_ignore_passes_the_file_to_the_next_adapter_or_leaves_it_unclaimed() {
    let files = vec![discovered("pkg/_gen.go"), discovered("_build/main.go"), discovered("pkg/a.go")];
    let claims = vec![strings(&["**/*.go"])];
    let ignores = vec![strings(&["**/_*.go"])];
    let project = glob_set(&[], false);
    let out = claim(&files, &claims, &ignores, &project);
    // `*` stays inside one segment: a directory beginning with `_` is not ignored.
    assert_eq!(out, vec![claimed(1, 0), claimed(2, 0)]);

    let claims = vec![strings(&["**/*.go"]), strings(&["**/*.go"])];
    let ignores = vec![strings(&["**/_*.go"]), Vec::new()];
    let out = claim(&files, &claims, &ignores, &project);
    assert_eq!(out, vec![claimed(0, 1), claimed(1, 0), claimed(2, 0)]);
}

#[test]
fn a_project_ignore_leaves_the_file_unclaimed_by_every_adapter() {
    let files = vec![discovered("vendor/x.rs"), discovered("src/lib.rs")];
    let claims = vec![strings(&["**/*.rs"])];
    let ignores = vec![Vec::new()];
    let project = ignore_set(&strings(&["vendor/**"]));
    let out = claim(&files, &claims, &ignores, &project);
    assert_eq!(out, vec![claimed(1, 0)]);
}

#[test]
fn an_unparsable_claim_glob_is_skipped_not_fatal() {
    let files = vec![discovered("a.rs"), discovered("b.txt")];
    let claims = vec![strings(&["[", "*.rs"])];
    let ignores = vec![Vec::new()];
    let project = glob_set(&[], false);
    let out = claim(&files, &claims, &ignores, &project);
    assert_eq!(out, vec![claimed(0, 0)]);
}

#[test]
fn no_adapters_claim_nothing() {
    let files = vec![discovered("a.rs")];
    let project = glob_set(&[], false);
    assert!(claim(&files, &[], &[], &project).is_empty());
}

#[test]
fn the_first_registered_extension_claims_a_suffix() {
    let suffixes = vec![strings(&["rs"]), strings(&["ts", "tsx"]), strings(&["tsx"])];
    assert_eq!(claimant_of_suffix(&suffixes, "tsx"), Some(1));
    assert_eq!(claimant_of_suffix(&suffixes, "rs"), Some(0));
    assert_eq!(claimant_of_suffix(&suffixes, "py"), None);
    assert_eq!(claimant_of_suffix(&[], "rs"), None);
}

#[test]
fn an_unread_region_is_reported_with_its_language_and_offsets() {
    assert_eq!(
        unread_region_message("sql", 12, 40),
        "no extension claims `sql` files \u{2014} the embedded region at 12..40 is left unread"
    );
}

fn node(path: &str, hash: u8) -> FileNode {
    FileNode {
        path: ProjectPath(path.to_string()),
        content_hash: [hash; 32],
        language: None,
        class: Some(FileClass {
            role: FileRole::Production,
            origin: FileOrigin::Authored,
        }),
        package: PackageId(0),
        unit: None,
        unit_parent: None,
        test_spans: Vec::new(),
    }
}

fn graph_of(files: Vec<FileNode>) -> ProjectGraph {
    ProjectGraph {
        files,
        symbols: Vec::new(),
        dependencies: Vec::new(),
        declared_dependencies: Vec::new(),
        script_invoked_dependencies: Vec::new(),
        packages: Vec::new(),
        edges: Vec::new(),
        suppressions: Vec::new(),
        visibility_ladders: Vec::new(),
        testable_languages: Vec::new(),
        cycle_policies: Vec::new(),
        function_metrics: Vec::new(),
        patch_meta: Vec::new(),
        externally_consumed: Vec::new(),
        plugin_implicitly_invoked: Vec::new(),
        unresolved_imports: Vec::new(),
    }
}

#[test]
fn touched_paths_are_the_added_modified_and_removed_files() {
    let before = graph_of(vec![node("same.rs", 1), node("changed.rs", 2), node("gone.rs", 3)]);
    let after = graph_of(vec![node("new.rs", 4), node("same.rs", 1), node("changed.rs", 5)]);
    let mut touched = touched_paths(&before, &after);
    touched.sort();
    assert_eq!(touched, strings(&["changed.rs", "gone.rs", "new.rs"]));
}

#[test]
fn an_unchanged_graph_touches_nothing() {
    let g = graph_of(vec![node("a.rs", 1), node("b.rs", 2)]);
    assert!(touched_paths(&g, &g).is_empty());
}

#[test]
fn matching_pairs_are_in_file_order_then_adapter_order() {
    let files = vec![discovered("Cargo.toml"), discovered("web/package.json"), discovered("node_modules/x/package.json")];
    let globs = vec![strings(&["**/package.json"]), Vec::new(), strings(&["Cargo.toml", "**/Cargo.toml"])];
    let ignores = vec![strings(&["node_modules/**"]), Vec::new(), Vec::new()];
    let pairs = matching_pairs(&files, &globs, &ignores);
    assert_eq!(pairs, vec![(0, 2), (1, 0)]);
}

#[test]
fn an_adapter_declaring_no_globs_takes_nothing() {
    let files = vec![discovered("a.toml")];
    let globs = vec![Vec::new(), strings(&["*.toml"]), strings(&["*.toml"])];
    let ignores = vec![Vec::new(), Vec::new(), Vec::new()];
    assert_eq!(matching_pairs(&files, &globs, &ignores), vec![(0, 1), (0, 2)]);
}
