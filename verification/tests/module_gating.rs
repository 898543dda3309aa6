use kndo_core::graph::gating::{demote_test_gated_modules, ModuleLink};
use kndo_core::graph::FileNode;
use kndo_core::vocab::{FileClass, FileOrigin, FileRole, PackageId, ProjectPath, Span};

fn span(start: u32, end: u32) -> Span {
    Span {
        start: (start, 1),
        end: (end, 1),
    }
}

fn file(path: &str, role: Option<FileRole>, test_spans: Vec<Span>) -> FileNode {
    FileNode {
        path: ProjectPath(path.to_string()),
        content_hash: [0; 32],
        language: Some("rust".to_string()),
        class: role.map(|role| FileClass {
            role,
            origin: FileOrigin::Authored,
        }),
        package: PackageId(0),
        unit: None,
        unit_parent: None,
        test_spans,
    }
}

fn link(target: u32, line: u32) -> ModuleLink {
    ModuleLink {
        target,
        span: span(line, line),
    }
}

fn roles(files: &[FileNode]) -> Vec<Option<FileRole>> {
    files.iter().map(|f| f.class.map(|c| c.role)).collect()
}

#[test]
fn a_module_linked_only_from_a_test_region_becomes_a_test_file() {
    let mut files = vec![
        file("src/lib.rs", Some(FileRole::Production), vec![span(10, 20)]),
        file("src/tests.rs", Some(FileRole::Production), Vec::new()),
        file("src/util.rs", Some(FileRole::Production), Vec::new()),
        file("src/both.rs", Some(FileRole::Production), Vec::new()),
        file("src/unclaimed.rs", None, Vec::new()),
    ];
    // lib.rs: `mod util;` at line 2, `mod both;` at 3 and, inside its test module,
    // `mod tests;`, `mod both;` and `mod unclaimed;`.
    let links = vec![vec![link(2, 2), link(3, 3), link(1, 12), link(3, 13), link(4, 14)]];
    demote_test_gated_modules(&mut files, &links);
    assert_eq!(
        roles(&files),
        vec![
            Some(FileRole::Production),
            Some(FileRole::Test),
            Some(FileRole::Production),
            Some(FileRole::Production),
            None,
        ]
    );
    assert_eq!(files[1].path.0, "src/tests.rs");
}

#[test]
fn without_test_regions_nothing_is_demoted() {
    let mut files = vec![
        file("src/lib.rs", Some(FileRole::Production), Vec::new()),
        file("src/tests.rs", Some(FileRole::Production), Vec::new()),
    ];
    demote_test_gated_modules(&mut files, &[vec![link(1, 12)]]);
    assert_eq!(roles(&files), vec![Some(FileRole::Production), Some(FileRole::Production)]);
}
