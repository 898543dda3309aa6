use kndo_core::assembly::{collect_packages, hash_hex, sorted_paths, DeclaredPackage, ManifestRead};
use kndo_core::vocab::ProjectPath;

fn read(manifest: &str, packages: &[(&str, &str)]) -> ManifestRead {
    ManifestRead {
        manifest: ProjectPath(manifest.to_string()),
        packages: packages
            .iter()
            .map(|(name, dir)| DeclaredPackage {
                name: name.to_string(),
                dir: dir.to_string(),
            })
            .collect(),
    }
}

fn path(p: &str) -> ProjectPath {
    ProjectPath(p.to_string())
}

#[test]
fn a_content_hash_is_recorded_in_lower_case_hex() {
    let mut hash = [0u8; 32];
    hash[0] = 0xab;
    hash[1] = 0x01;
    hash[31] = 0xff;
    let hex = hash_hex(&hash);
    assert_eq!(hex.len(), 64);
    assert!(hex.starts_with("ab01"));
    assert!(hex.ends_with("00ff"));
    assert_eq!(hash_hex(&[0x5a; 32]), "5a".repeat(32));
}

#[test]
fn discovered_paths_are_listed_in_order() {
    let sorted = sorted_paths(vec!["src/b.rs".to_string(), "Cargo.toml".to_string(), "src/a.rs".to_string(), "src".to_string()]);
    assert_eq!(sorted, vec!["Cargo.toml", "src", "src/a.rs", "src/b.rs"]);
}

#[test]
fn packages_are_name_sorted_once_per_directory_the_first_declaration_winning() {
    let reads = vec![
        read("settings.gradle", &[("core", "core"), ("app", "app"), ("core", "android/core")]),
        read("core/build.gradle", &[("core", "core")]),
    ];
    let manifests = vec![path("core/build.gradle"), path("settings.gradle")];
    let packages = collect_packages(&reads, &manifests);
    let got: Vec<(&str, &str, &str)> = packages
        .iter()
        .map(|p| (p.name.as_str(), p.dir.as_str(), p.manifest.0.as_str()))
        .collect();
    assert_eq!(
        got,
        vec![
            ("app", "app", "settings.gradle"),
            ("core", "android/core", "settings.gradle"),
            // A declaring manifest in the package's own directory anchors it.
            ("core", "core", "core/build.gradle"),
        ]
    );
}

#[test]
fn a_root_package_is_anchored_to_the_root_manifest() {
    let reads = vec![read("workspace.toml", &[("root", "")]), read("Cargo.toml", &[("root", "")])];
    let packages = collect_packages(&reads, &[path("Cargo.toml")]);
    assert_eq!(packages.len(), 1);
    assert_eq!(packages[0].manifest.0, "Cargo.toml");
    assert!(collect_packages(&[], &[]).is_empty());
}
