use painpkg::depmap::DependencyMap;
use painpkg::error::PkgError;
use painpkg::manifest::Manifest;
use painpkg::package::{Package, PackageSource};
use painpkg::resolver::{
    classify_source, find_compatible_version, parse_version_req, Lookup, Resolution,
};
use painpkg::version::{Semver, SemverReq};

fn pkg(name: &str, version: &str, deps: &[(&str, &str)]) -> Package {
    let mut d = DependencyMap::new();
    for (n, r) in deps {
        d.insert(n, r);
    }
    Package {
        name: name.to_string(),
        version: Semver::parse(version).unwrap(),
        description: None,
        authors: Vec::new(),
        license: None,
        dependencies: d,
        source: PackageSource::Registry("main".to_string()),
        path: String::new(),
    }
}

#[test]
fn semver_parse_and_compare() {
    let a = Semver::parse("1.5.0").unwrap();
    let b = Semver::parse("1.19.0").unwrap();
    let pre = Semver::parse("1.19.0-alpha.1").unwrap();
    assert_eq!(a.compare(&b), -1);
    assert_eq!(b.compare(&a), 1);
    assert_eq!(b.compare(&b.clone()), 0);
    assert_eq!(pre.compare(&b), -1);
    assert_eq!(pre.pre(), "alpha.1");
    assert_eq!(pre.to_text(), "1.19.0-alpha.1");
    assert!(Semver::parse("1.0").is_err());
}

#[test]
fn star_matches_releases_only() {
    let star = SemverReq::star();
    assert_eq!(star.text(), "*");
    assert!(star.matches(&Semver::parse("0.0.1").unwrap()));
    assert!(!star.matches(&Semver::parse("1.0.0-beta").unwrap()));
}

#[test]
fn parse_version_req_cases() {
    assert_eq!(parse_version_req("*").unwrap().text(), "*");
    assert_eq!(parse_version_req("").unwrap().text(), "*");
    assert_eq!(parse_version_req("   ").unwrap().text(), "*");
    assert_eq!(parse_version_req("file://../local").unwrap().text(), "*");
    assert_eq!(parse_version_req("git://example.com/x.git").unwrap().text(), "*");
    assert_eq!(parse_version_req("git+https://example.com/x.git").unwrap().text(), "*");
    let exact = parse_version_req(" 1.2.3 ").unwrap();
    assert_eq!(exact.text(), "=1.2.3");
    assert!(exact.matches(&Semver::parse("1.2.3").unwrap()));
    assert!(!exact.matches(&Semver::parse("1.2.4").unwrap()));
    let caret = parse_version_req("^1.2").unwrap();
    assert_eq!(caret.text(), "^1.2");
    assert!(caret.matches(&Semver::parse("1.9.0").unwrap()));
    assert!(!caret.matches(&Semver::parse("2.0.0").unwrap()));
    let bad = parse_version_req("not-a-version");
    assert!(matches!(bad, Err(PkgError::InvalidRequirement(ref t, _)) if t == "not-a-version"));
}

#[test]
fn classify_sources() {
    assert!(matches!(classify_source(&None), Lookup::Registry));
    assert!(matches!(classify_source(&Some("^1".to_string())), Lookup::Registry));
    assert!(matches!(classify_source(&Some("file://../x".to_string())), Lookup::File(ref p) if p == "../x"));
    assert!(matches!(classify_source(&Some("git://h/x.git".to_string())), Lookup::Git(ref u) if u == "h/x.git"));
    assert!(matches!(classify_source(&Some("git+https://h/x.git".to_string())), Lookup::Git(ref u) if u == "https://h/x.git"));
}

#[test]
fn find_compatible_version_picks_newest_match() {
    let all = vec![pkg("a", "1.0.0", &[]), pkg("a", "2.0.0", &[]), pkg("a", "1.4.0", &[])];
    let reqs = vec![SemverReq::parse("^1").unwrap()];
    let chosen = find_compatible_version("a", &reqs, &all).unwrap();
    assert_eq!(chosen.version.to_text(), "1.4.0");
    let none = find_compatible_version("a", &vec![SemverReq::parse(">=3").unwrap()], &all);
    assert!(matches!(none, Err(PkgError::NoCompatibleVersion(ref n, ref t)) if n == "a" && t == &vec![">=3".to_string()]));
    let empty = find_compatible_version("a", &reqs, &Vec::new());
    assert!(matches!(empty, Err(PkgError::PackageNotFound(ref n)) if n == "a"));
}

#[test]
fn resolution_breadth_first() {
    let mut m = Manifest::new("app");
    m.add_dependency("a", "^1.0").unwrap();
    let mut st = Resolution::start(&m).unwrap();
    let r1 = st.next_request().unwrap();
    assert_eq!(r1.name, "a");
    assert_eq!(r1.depth, 0);
    assert!(matches!(r1.lookup, Lookup::Registry));
    let cands = vec![pkg("a", "1.0.0", &[("b", "^2")]), pkg("a", "1.5.0", &[("b", "^2")]), pkg("a", "2.0.0", &[])];
    st.accept_candidates(&cands).unwrap();
    let r2 = st.next_request().unwrap();
    assert_eq!(r2.name, "b");
    assert_eq!(r2.depth, 1);
    st.accept_candidates(&vec![pkg("b", "2.1.0", &[]), pkg("b", "3.0.0", &[])]).unwrap();
    assert!(st.next_request().is_none());
    assert!(st.is_done());
    let out = st.finish();
    assert_eq!(out.len(), 2);
    assert_eq!(out[0].package.name, "a");
    assert_eq!(out[0].package.version.to_text(), "1.5.0");
    assert_eq!(out[0].depth, 0);
    assert_eq!(out[1].package.name, "b");
    assert_eq!(out[1].package.version.to_text(), "2.1.0");
    assert_eq!(out[1].depth, 1);
}

#[test]
fn resolution_reports_version_conflict() {
    let mut m = Manifest::new("app");
    m.add_dependency("a", "1.0.0").unwrap();
    m.add_dependency("b", "*").unwrap();
    let mut st = Resolution::start(&m).unwrap();
    let r1 = st.next_request().unwrap();
    assert_eq!(r1.name, "a");
    st.accept_candidates(&vec![pkg("a", "1.0.0", &[])]).unwrap();
    let r2 = st.next_request().unwrap();
    assert_eq!(r2.name, "b");
    let res = st.accept_candidates(&vec![pkg("b", "1.0.0", &[("a", "^2")])]);
    assert!(matches!(res, Err(PkgError::VersionConflict(ref who, ref dep, ref req, ref v))
        if who == "b" && dep == "a" && req == "^2" && v == "1.0.0"));
}

#[test]
fn resolution_checks_loaded_source() {
    let mut m = Manifest::new("app");
    m.add_dependency("local", "file://../local").unwrap();
    let mut st = Resolution::start(&m).unwrap();
    let r = st.next_request().unwrap();
    assert!(matches!(r.lookup, Lookup::File(ref p) if p == "../local"));
    st.accept_loaded(pkg("local", "0.3.0", &[])).unwrap();
    assert!(st.next_request().is_none());
    let out = st.finish();
    assert_eq!(out[0].package.version.to_text(), "0.3.0");
}

#[test]
fn resolution_rejects_prerelease_from_source() {
    let mut m = Manifest::new("app");
    m.add_dependency("local", "git+https://h/x.git").unwrap();
    let mut st = Resolution::start(&m).unwrap();
    let r = st.next_request().unwrap();
    assert!(matches!(r.lookup, Lookup::Git(ref u) if u == "https://h/x.git"));
    let res = st.accept_loaded(pkg("local", "1.0.0-rc.1", &[]));
    assert!(matches!(res, Err(PkgError::SourceVersionMismatch(ref n, ref src, ref v, ref reqs))
        if n == "local" && src == "git://https://h/x.git" && v == "1.0.0-rc.1"
            && reqs == &vec!["*".to_string()]));
}

#[test]
fn resolution_start_rejects_bad_requirement() {
    let mut m = Manifest::new("app");
    m.add_dependency("a", ">>1").unwrap();
    assert!(matches!(Resolution::start(&m), Err(PkgError::InvalidRequirement(ref t, _)) if t == ">>1"));
}

#[test]
fn resolution_skips_already_resolved_names() {
    let mut m = Manifest::new("app");
    m.add_dependency("a", "*").unwrap();
    m.add_dependency("b", "*").unwrap();
    let mut st = Resolution::start(&m).unwrap();
    let r = st.next_request().unwrap();
    assert_eq!(r.name, "a");
    st.accept_candidates(&vec![pkg("a", "1.0.0", &[("b", "^1")])]).unwrap();
    let r = st.next_request().unwrap();
    assert_eq!(r.name, "b");
    assert_eq!(r.depth, 0);
    st.accept_candidates(&vec![pkg("b", "1.2.0", &[])]).unwrap();
    // the queued entry for `b` at depth 1 is skipped
    assert!(st.next_request().is_none());
    let out = st.finish();
    assert_eq!(out.len(), 2);
    assert_eq!(out[1].depth, 0);
}

#[test]
fn requirement_display_is_normalised() {
    assert_eq!(SemverReq::parse("1.0").unwrap().to_text(), "^1.0");
    assert_eq!(SemverReq::parse(">= 1.2, < 2").unwrap().to_text(), ">=1.2, <2");
    assert_eq!(SemverReq::star().to_text(), "*");
    assert_eq!(parse_version_req("1.2.3").unwrap().to_text(), "=1.2.3");
}

#[test]
fn version_conflict_shows_normalised_requirement() {
    let mut m = Manifest::new("app");
    m.add_dependency("a", "1.0.0").unwrap();
    m.add_dependency("b", "*").unwrap();
    let mut st = Resolution::start(&m).unwrap();
    st.next_request().unwrap();
    st.accept_candidates(&vec![pkg("a", "1.0.0", &[])]).unwrap();
    st.next_request().unwrap();
    let res = st.accept_candidates(&vec![pkg("b", "1.0.0", &[("a", " 2.0 ")])]);
    assert!(matches!(res, Err(PkgError::VersionConflict(_, _, ref req, _)) if req == "^2.0"));
}

#[test]
fn resolution_depth_is_shortest_distance() {
    let mut m = Manifest::new("app");
    m.add_dependency("a", "*").unwrap();
    m.add_dependency("b", "*").unwrap();
    let mut st = Resolution::start(&m).unwrap();
    let mut seen = Vec::new();
    while let Some(req) = st.next_request() {
        seen.push((req.name.clone(), req.depth));
        let cands = match req.name.as_str() {
            "a" => vec![pkg("a", "1.0.0", &[("b", "*"), ("c", "*")])],
            "b" => vec![pkg("b", "1.0.0", &[("c", "*")])],
            _ => vec![pkg("c", "1.0.0", &[])],
        };
        st.accept_candidates(&cands).unwrap();
    }
    assert_eq!(
        seen,
        vec![("a".to_string(), 0), ("b".to_string(), 0), ("c".to_string(), 1)]
    );
    let out = st.finish();
    let depths: Vec<(String, usize)> = out.iter().map(|r| (r.package.name.clone(), r.depth)).collect();
    assert_eq!(depths, vec![("a".to_string(), 0), ("b".to_string(), 0), ("c".to_string(), 1)]);
}
