use painpkg::depmap::DependencyMap;
use painpkg::error::PkgError;
use painpkg::manifest::{project_name, Manifest};
use painpkg::package::{is_source_file, Package, PackageSource};
use painpkg::registry_metadata::RegistryPackageMetadata;

fn deps_of(m: &DependencyMap) -> Vec<(String, String)> {
    (0..m.len())
        .map(|i| (m.name_at(i).clone(), m.requirement_at(i).clone()))
        .collect()
}

#[test]
fn new_manifest_has_defaults() {
    let m = Manifest::new("demo");
    assert_eq!(m.name, "demo");
    assert_eq!(m.version, "0.1.0");
    assert_eq!(m.description, None);
    assert_eq!(m.authors, vec!["Pain Team".to_string()]);
    assert_eq!(m.license, Some("MIT OR Apache-2.0".to_string()));
    assert!(m.dependencies.is_empty());
    assert!(m.dev_dependencies.is_empty());
}

#[test]
fn add_dependency_then_duplicate_fails() {
    let mut m = Manifest::new("demo");
    assert!(m.add_dependency("pain-math", "^1.0").is_ok());
    assert_eq!(m.dependencies.get("pain-math"), Some(&"^1.0".to_string()));
    let again = m.add_dependency("pain-math", "2.0.0");
    assert!(matches!(again, Err(PkgError::DependencyExists(ref n)) if n == "pain-math"));
    assert_eq!(m.dependencies.get("pain-math"), Some(&"^1.0".to_string()));
    assert_eq!(m.dependencies.len(), 1);
}

#[test]
fn add_dev_dependency_then_duplicate_fails() {
    let mut m = Manifest::new("demo");
    assert!(m.add_dev_dependency("pain-test", "*").is_ok());
    assert!(m.dependencies.is_empty());
    let again = m.add_dev_dependency("pain-test", "*");
    assert!(matches!(again, Err(PkgError::DevDependencyExists(ref n)) if n == "pain-test"));
    // the same name may still go to the normal dependencies
    assert!(m.add_dependency("pain-test", "1.0.0").is_ok());
}

#[test]
fn remove_dependency_prefers_normal_table() {
    let mut m = Manifest::new("demo");
    m.add_dependency("x", "1").unwrap();
    m.add_dev_dependency("x", "2").unwrap();
    m.remove_dependency("x").unwrap();
    assert!(!m.dependencies.contains_key("x"));
    assert!(m.dev_dependencies.contains_key("x"));
    m.remove_dependency("x").unwrap();
    assert!(!m.dev_dependencies.contains_key("x"));
    let missing = m.remove_dependency("x");
    assert!(matches!(missing, Err(PkgError::DependencyNotFound(ref n)) if n == "x"));
}

#[test]
fn remove_after_add_restores_table() {
    let mut m = Manifest::new("demo");
    m.add_dependency("a", "1.0.0").unwrap();
    let before = deps_of(&m.dependencies);
    m.add_dependency("b", "^2").unwrap();
    m.remove_dependency("b").unwrap();
    assert_eq!(deps_of(&m.dependencies), before);
}

#[test]
fn validate_reports_each_error() {
    let mut m = Manifest::new("demo");
    assert!(m.validate().is_ok());
    m.version = "1.0".to_string();
    assert!(matches!(m.validate(), Err(PkgError::InvalidVersion(ref t, _)) if t == "1.0"));
    m.version = String::new();
    assert!(matches!(m.validate(), Err(PkgError::EmptyVersion)));
    m.name = String::new();
    assert!(matches!(m.validate(), Err(PkgError::EmptyName)));
}

#[test]
fn add_requested_defaults_to_star() {
    let mut m = Manifest::new("demo");
    assert_eq!(m.add_requested("a", None, false).unwrap(), "*");
    assert_eq!(m.add_requested("b", Some("^1.2"), true).unwrap(), "^1.2");
    assert_eq!(m.dependencies.get("a"), Some(&"*".to_string()));
    assert_eq!(m.dev_dependencies.get("b"), Some(&"^1.2".to_string()));
    assert!(m.add_requested("a", Some("2"), false).is_err());
}

#[test]
fn project_name_falls_back() {
    assert_eq!(project_name(Some("given".to_string()), Some("dir")), "given");
    assert_eq!(project_name(None, Some("dir")), "dir");
    assert_eq!(project_name(None, None), "my-project");
}

#[test]
fn source_files_are_pain_files() {
    assert!(is_source_file(true, Some("pain")));
    assert!(!is_source_file(false, Some("pain")));
    assert!(!is_source_file(true, Some("rs")));
    assert!(!is_source_file(true, None));
}

#[test]
fn package_from_manifest_parses_version() {
    let mut m = Manifest::new("demo");
    m.add_dependency("a", "^1").unwrap();
    let p = Package::from_manifest(&m, PackageSource::Local("/tmp/demo".to_string()), "/tmp/demo".to_string())
        .unwrap();
    assert_eq!(p.name, "demo");
    assert_eq!(p.version.to_text(), "0.1.0");
    assert_eq!(p.version.major(), 0);
    assert_eq!(p.version.minor(), 1);
    assert_eq!(p.dependencies.get("a"), Some(&"^1".to_string()));
    assert_eq!(p.path, "/tmp/demo");
    m.version = "not a version".to_string();
    let bad = Package::from_manifest(&m, PackageSource::Registry("main".to_string()), String::new());
    assert!(matches!(bad, Err(PkgError::InvalidVersion(ref t, _)) if t == "not a version"));
}

#[test]
fn registry_metadata_from_manifest_copies_fields() {
    let mut deps = DependencyMap::new();
    deps.insert("a", "^1");
    let md = RegistryPackageMetadata::from_manifest(
        "pkg",
        "1.2.3",
        Some("desc"),
        "https://example.com/pkg.git",
        None,
        &vec!["Ann".to_string()],
        &deps,
    );
    assert_eq!(md.name, "pkg");
    assert_eq!(md.version, "1.2.3");
    assert_eq!(md.description, Some("desc".to_string()));
    assert_eq!(md.repository, "https://example.com/pkg.git");
    assert_eq!(md.license, None);
    assert_eq!(md.authors, vec!["Ann".to_string()]);
    assert_eq!(md.dependencies.get("a"), Some(&"^1".to_string()));
    assert_eq!(md.readme, None);
}

#[test]
fn dependency_map_insert_replaces() {
    let mut d = DependencyMap::new();
    d.insert("a", "1");
    d.insert("b", "2");
    d.insert("a", "3");
    assert_eq!(deps_of(&d), vec![("a".to_string(), "3".to_string()), ("b".to_string(), "2".to_string())]);
    assert_eq!(d.remove("a"), Some("3".to_string()));
    assert_eq!(d.remove("a"), None);
    assert_eq!(d.len(), 1);
}
