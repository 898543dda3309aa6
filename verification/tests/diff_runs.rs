use kndo_core::engine::{
    adapter_run_infos, base_failure_context, claimed_file_count, git_failure, is_report_glob, sort_report_matches,
    RunMode, RunResult, INDEX_UNREADABLE, NOT_A_REPOSITORY,
};
use kndo_core::gitutil::GitError;
use kndo_core::graph::{FileNode, ProjectGraph};
use kndo_core::vocab::{DiagnosticLevel, PackageId, ProjectPath};

fn node(path: &str, language: Option<&str>) -> FileNode {
    FileNode {
        path: ProjectPath(path.to_string()),
        content_hash: [0; 32],
        language: language.map(|l| l.to_string()),
        class: None,
        package: PackageId(0),
        unit: None,
        unit_parent: None,
        test_spans: Vec::new(),
    }
}

fn graph_of(files: Vec<FileNode>) -> ProjectGraph {
    ProjectGraph {
        files,
        symbols: Vec::new(),
        dependencies: Vec::new(),
        declared_dependencies: Vec::new(),
        script_invoked_dependencies: Vec::new(),
        packages: Vec::new(),
        edges: Vec::new(),
        suppressions: Vec::new(),
        visibility_ladders: Vec::new(),
        testable_languages: Vec::new(),
        cycle_policies: Vec::new(),
        function_metrics: Vec::new(),
        patch_meta: Vec::new(),
        externally_consumed: Vec::new(),
        plugin_implicitly_invoked: Vec::new(),
        unresolved_imports: Vec::new(),
    }
}

#[test]
fn a_diff_base_that_does_not_resolve_is_named_with_the_fetch_hint() {
    let mode = RunMode::Diff {
        base: "origin/main".to_string(),
    };
    assert_eq!(
        base_failure_context(&mode),
        "the diff base `origin/main` does not resolve \u{2014} check the ref name, or fetch it first (`git fetch origin origin/main`)"
    );
    assert_eq!(
        base_failure_context(&RunMode::Staged),
        "HEAD does not resolve \u{2014} the repository may have no commits yet; commit once, or drop --staged for a full scan"
    );
}

#[test]
fn a_git_failure_is_one_error_diagnostic_and_nothing_else() {
    let r = git_failure(NOT_A_REPOSITORY, &GitError("fatal: not a git repository".to_string()));
    assert_eq!(r.diagnostics.len(), 1);
    assert_eq!(r.diagnostics[0].level, DiagnosticLevel::Error);
    assert!(r.diagnostics[0].path.is_none());
    assert_eq!(
        r.diagnostics[0].message,
        "--staged/--diff need a git repository \u{2014} run inside one, or drop the flag for a full scan (fatal: not a git repository)"
    );
    assert!(r.findings.is_empty() && r.fixed.is_empty() && r.adapters.is_empty());
    assert_eq!(r.files_discovered, 0);
    let r = git_failure(INDEX_UNREADABLE, &GitError("boom".to_string()));
    assert_eq!(
        r.diagnostics[0].message,
        "cannot snapshot the git index for --staged \u{2014} check repository permissions (boom)"
    );
}

#[test]
fn a_default_run_result_reports_nothing() {
    let r = RunResult::default();
    assert!(r.diagnostics.is_empty() && r.findings.is_empty() && r.timings.is_empty());
    assert_eq!(r.cache_status(), "cold");
}

#[test]
fn adapters_report_the_files_of_their_language() {
    let g = graph_of(vec![node("a.rs", Some("rust")), node("b.go", Some("go")), node("c.rs", Some("rust")), node("d.txt", None)]);
    let infos = adapter_run_infos(&["rust".to_string(), "go".to_string(), "py".to_string()], &g);
    let got: Vec<(String, usize)> = infos.iter().map(|i| (i.id.clone(), i.files)).collect();
    assert_eq!(got, vec![("rust".to_string(), 2), ("go".to_string(), 1), ("py".to_string(), 0)]);
    assert_eq!(claimed_file_count(&g), 3);
}

#[test]
fn a_report_path_is_a_glob_only_when_it_holds_a_glob_character() {
    assert!(is_report_glob("packages/*/coverage/lcov.info"));
    assert!(is_report_glob("cov?.info"));
    assert!(is_report_glob("[ab]/lcov.info"));
    assert!(!is_report_glob("packages/a/coverage/lcov.info"));
    assert!(!is_report_glob(""));
}

#[test]
fn report_matches_are_ordered_by_relative_path() {
    let sorted = sort_report_matches(vec![
        ("/r/packages/b/coverage/lcov.info".to_string(), "packages/b/coverage/lcov.info".to_string()),
        ("/r/packages/a/coverage/lcov.info".to_string(), "packages/a/coverage/lcov.info".to_string()),
        ("/r/a.info".to_string(), "a.info".to_string()),
    ]);
    let rels: Vec<&str> = sorted.iter().map(|(_, rel)| rel.as_str()).collect();
    assert_eq!(rels, vec!["a.info", "packages/a/coverage/lcov.info", "packages/b/coverage/lcov.info"]);
    assert_eq!(sorted[1].0, "/r/packages/a/coverage/lcov.info");
}
