use painpkg::depmap::DependencyMap;
use painpkg::package::{Package, PackageSource};
use painpkg::registry::{
    find_package, git_cache_dir_name, index_file_content, index_path_components,
    latest_version_entry, match_search_entry, metadata_path_components, package_from_metadata,
    select_versions, versions_step, keep_named, index_records, search_packages, PackageCache, VersionsSource, VersionsStep,
};
use painpkg::registry_metadata::RegistryPackageMetadata;
use painpkg::version::{Semver, SemverReq};
use sha2::Digest;

fn strings(v: &[&str]) -> Vec<String> {
    v.iter().map(|s| s.to_string()).collect()
}

fn pkg(name: &str, version: &str) -> Package {
    Package {
        name: name.to_string(),
        version: Semver::parse(version).unwrap(),
        description: None,
        authors: Vec::new(),
        license: None,
        dependencies: DependencyMap::new(),
        source: PackageSource::Local(String::new()),
        path: String::new(),
    }
}

#[test]
fn index_path_is_hierarchical() {
    assert_eq!(index_path_components("pain-math"), strings(&["index", "p", "a", "pa", "pain-math"]));
    assert_eq!(index_path_components("abc"), strings(&["index", "a", "b", "ab", "abc"]));
    assert_eq!(index_path_components("a"), strings(&["index", "a", "a"]));
    assert_eq!(index_path_components(""), strings(&["index", ""]));
}

#[test]
fn metadata_path_layout() {
    assert_eq!(metadata_path_components("pain-math", "1.2.0"), strings(&["packages", "pain-math", "1.2.0.toml"]));
}

#[test]
fn select_versions_sorts_newest_first() {
    let stems = strings(&["1.0.0", "notes", "2.0.0", "1.10.0", "1.2", "1.9.0"]);
    assert_eq!(select_versions(&stems), strings(&["2.0.0", "1.10.0", "1.9.0", "1.0.0"]));
    assert!(select_versions(&strings(&["x"])).is_empty());
}

#[test]
fn latest_version_entry_picks_newest() {
    assert_eq!(latest_version_entry(&strings(&["0.1.0", "tmp", "0.10.0", "0.9.9"])), Some(2));
    assert_eq!(latest_version_entry(&strings(&["1.0.0-rc.1", "1.0.0"])), Some(1));
    assert_eq!(latest_version_entry(&strings(&["a", "b"])), None);
}

#[test]
fn package_from_metadata_uses_git_tag() {
    let mut deps = DependencyMap::new();
    deps.insert("x", "^1");
    let md = RegistryPackageMetadata::from_manifest("m", "1.2.0", None, "https://h/m.git", Some("MIT"), &Vec::new(), &deps);
    let p = package_from_metadata(&md, "1.2.0").unwrap();
    assert_eq!(p.name, "m");
    assert_eq!(p.version.to_text(), "1.2.0");
    assert!(matches!(p.source, PackageSource::Git { ref url, rev: Some(ref r) } if url == "https://h/m.git" && r == "v1.2.0"));
    assert_eq!(p.path, "");
    assert_eq!(p.license, Some("MIT".to_string()));
    assert!(package_from_metadata(&md, "oops").is_err());
}

#[test]
fn find_package_takes_first_match() {
    let ps = vec![pkg("a", "2.0.0"), pkg("a", "1.1.0"), pkg("a", "1.0.0")];
    let r = find_package(&ps, &SemverReq::parse("^1").unwrap()).unwrap();
    assert_eq!(r.version.to_text(), "1.1.0");
    assert!(find_package(&ps, &SemverReq::parse("^3").unwrap()).is_none());
}

#[test]
fn index_file_adds_and_sorts() {
    assert_eq!(index_file_content(None, "1.0.0"), "1.0.0\n");
    assert_eq!(index_file_content(Some("1.0.0\n0.9.0\n"), "1.1.0"), "0.9.0\n1.0.0\n1.1.0\n");
    assert_eq!(index_file_content(Some("1.0.0\r\n0.9.0"), "1.0.0"), "1.0.0\n0.9.0\n");
    let once = index_file_content(Some("0.2.0\n"), "0.1.0");
    assert_eq!(index_file_content(Some(&once), "0.1.0"), once);
}

#[test]
fn search_matches_name_or_description() {
    let versions = strings(&["2.0.0", "1.0.0"]);
    let descs = vec![Some(Some("Fast MATH".to_string())), Some(None)];
    let hit = match_search_entry("Pain", "pain-math", &versions, &descs).unwrap();
    assert_eq!(hit, ("pain-math".to_string(), "2.0.0".to_string(), Some("Fast MATH".to_string())));
    let by_desc = match_search_entry("math", "fastlib", &versions, &descs).unwrap();
    assert_eq!(by_desc.1, "2.0.0");
    assert!(match_search_entry("xyz", "fastlib", &versions, &descs).is_none());
    // name matches, but the newest version's metadata could not be loaded
    assert!(match_search_entry("fast", "fastlib", &versions, &vec![None, Some(None)]).is_none());
    let later = vec![None, Some(Some("a math helper".to_string()))];
    assert_eq!(match_search_entry("MATH", "lib", &versions, &later).unwrap().1, "1.0.0");
}

#[test]
fn git_cache_dir_is_hash_prefix() {
    let url = "https://example.com/pain/x.git";
    let expected = hex::encode(sha2::Sha256::digest(url.as_bytes()));
    let dir = git_cache_dir_name(url);
    assert_eq!(dir, expected[..16]);
    assert_eq!(dir.len(), 16);
    assert_ne!(dir, git_cache_dir_name("https://example.com/pain/y.git"));
}

#[test]
fn cache_read_after_write() {
    let mut c = PackageCache::new();
    assert!(c.get("a").is_none());
    c.insert("a", vec![pkg("a", "1.0.0")]);
    c.insert("b", vec![]);
    c.insert("a", vec![pkg("a", "2.0.0"), pkg("a", "1.0.0")]);
    let got = c.get("a").unwrap();
    assert_eq!(got.len(), 2);
    assert_eq!(got[0].version.to_text(), "2.0.0");
    assert_eq!(c.get("b").unwrap().len(), 0);
}

#[test]
fn versions_lookup_falls_through_sources() {
    assert!(matches!(
        versions_step(&VersionsSource::Github, 2),
        VersionsStep::Take { record: false }
    ));
    assert!(matches!(
        versions_step(&VersionsSource::Github, 0),
        VersionsStep::Ask(VersionsSource::LocalIndex)
    ));
    assert!(matches!(
        versions_step(&VersionsSource::LocalIndex, 1),
        VersionsStep::Take { record: false }
    ));
    assert!(matches!(
        versions_step(&VersionsSource::LocalIndex, 0),
        VersionsStep::Ask(VersionsSource::LocalScan)
    ));
    assert!(matches!(
        versions_step(&VersionsSource::LocalScan, 0),
        VersionsStep::Take { record: true }
    ));
}

#[test]
fn search_ignores_ascii_case() {
    let versions = strings(&["3.0.0", "2.0.0", "1.0.0"]);
    let descs = vec![
        Some(Some("Plotting".to_string())),
        Some(Some("Vector Math tools".to_string())),
        Some(Some("math".to_string())),
    ];
    for (name, query) in [("geo", "math"), ("Pain-Geo", "geo"), ("other", "nothing")] {
        let lower = match_search_entry(query, name, &versions, &descs);
        let upper = match_search_entry(&query.to_ascii_uppercase(), name, &versions, &descs);
        assert_eq!(lower, upper);
    }
    assert_eq!(match_search_entry("MATH", "geo", &versions, &descs).unwrap().1, "2.0.0");
}

#[test]
fn local_scan_keeps_named_packages() {
    let found = vec![pkg("a", "1.0.0"), pkg("b", "1.0.0"), pkg("a", "2.0.0")];
    let kept = keep_named(&found, "a");
    let shown: Vec<String> = kept.iter().map(|p| format!("{}@{}", p.name, p.version.to_text())).collect();
    assert_eq!(shown, vec!["a@1.0.0".to_string(), "a@2.0.0".to_string()]);
    assert!(keep_named(&found, "c").is_empty());
}

#[test]
fn index_records_relative_paths() {
    let mut inside = pkg("pain-math", "1.2.0");
    inside.path = "/reg/pain-math/1.2.0".to_string();
    let mut outside = pkg("other", "0.1.0");
    outside.path = "/elsewhere/other".to_string();
    let recs = index_records(&vec![inside, outside], "/reg");
    assert_eq!(
        recs,
        vec![
            ("1.2.0".to_string(), "pain-math/1.2.0".to_string()),
            ("0.1.0".to_string(), "/elsewhere/other".to_string()),
        ]
    );
}

#[test]
fn registry_search_ignores_ascii_case() {
    let sources = vec![
        ("geo".to_string(), strings(&["2.0.0", "1.0.0"]), vec![Some(Some("Vector Math".to_string())), Some(None)]),
        ("mathlib".to_string(), strings(&["1.0.0"]), vec![Some(None)]),
        ("text".to_string(), strings(&["1.0.0"]), vec![Some(Some("strings".to_string()))]),
    ];
    let lower = search_packages("math", &sources);
    let upper = search_packages("MATH", &sources);
    assert_eq!(lower, upper);
    assert_eq!(
        lower,
        vec![
            ("geo".to_string(), "2.0.0".to_string(), Some("Vector Math".to_string())),
            ("mathlib".to_string(), "1.0.0".to_string(), None),
        ]
    );
}
