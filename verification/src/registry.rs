//! Registry bookkeeping: where index and metadata files lie, which versions a
//! registry directory holds, packages built from registry metadata, the
//! per-package index file, search matching, the cache of known packages, and
//! the directory a git source is cached in.

use vstd::prelude::*;
use vstd::string::*;
use crate::error::PkgError;
use crate::package::{Package, PackageModel, PackageSource, SourceModel};
use crate::registry_metadata::RegistryPackageMetadata;
use crate::text::{
    ascii_lower,
    clone_opt,
    clone_texts,
    contains_text,
    has_infix,
    is_ascii_text,
    joined_lines,
    join_lines,
    lines_of,
    lowercase,
    opt_view,
    owned,
    sort_texts,
    split_lines,
    texts_sorted,
    to_lowercase,
    views,
};
use crate::version::{
    Semver,
    SemverReq,
    VersionModel,
    is_newest_first,
    lists,
    models_of,
    order_newest_first,
    semver_parse,
    semver_req_matches,
    version_text,
};

verus! {

/// `index`
pub open spec fn index_dir() -> Seq<char> {
    seq!['i', 'n', 'd', 'e', 'x']
}

/// `packages`
pub open spec fn packages_dir() -> Seq<char> {
    seq!['p', 'a', 'c', 'k', 'a', 'g', 'e', 's']
}

/// `.toml`
pub open spec fn toml_ext() -> Seq<char> {
    seq!['.', 't', 'o', 'm', 'l']
}

/// The path, component by component, of a package's index file in the
/// registry: `index`, then the name's first character, its second character
/// and its first two characters (each only when the name is that long), then
/// the name; for `pain-math`: `index/p/a/pa/pain-math`.
pub open spec fn index_components(name: Seq<char>) -> Seq<Seq<char>> {
    seq![index_dir()] + (if name.len() >= 1 {
        seq![name.take(1)]
    } else {
        Seq::empty()
    }) + (if name.len() >= 2 {
        seq![name.subrange(1, 2), name.take(2)]
    } else {
        Seq::empty()
    }) + seq![name]
}

/// The path components of a package's index file (see `index_components`).
pub fn index_path_components(name: &str) -> (r: Vec<String>)
    ensures
        views(r@) == index_components(name@),
{
    proof {
        reveal_strlit("index");
    }
    assert("index"@ =~= index_dir());
    let n = name.unicode_len();
    let mut out: Vec<String> = Vec::new();
    out.push(owned("index"));
    assert(views(out@) =~= seq![index_dir()]);
    let ghost acc1 = views(out@);
    if n >= 1 {
        out.push(owned(name.substring_char(0, 1)));
    }
    assert(views(out@) =~= acc1 + (if name@.len() >= 1 {
        seq![name@.take(1)]
    } else {
        Seq::empty()
    }));
    let ghost acc2 = views(out@);
    if n >= 2 {
        out.push(owned(name.substring_char(1, 2)));
        out.push(owned(name.substring_char(0, 2)));
    }
    assert(views(out@) =~= acc2 + (if name@.len() >= 2 {
        seq![name@.subrange(1, 2), name@.take(2)]
    } else {
        Seq::empty()
    }));
    let ghost acc3 = views(out@);
    out.push(owned(name));
    assert(views(out@) =~= acc3 + seq![name@]);
    out
}

/// The path components of the metadata file of one version of a package:
/// `packages/{name}/{version}.toml`.
pub fn metadata_path_components(name: &str, version: &str) -> (r: Vec<String>)
    ensures
        views(r@) == seq![packages_dir(), name@, version@ + toml_ext()],
{
    proof {
        reveal_strlit("packages");
        reveal_strlit(".toml");
    }
    assert("packages"@ =~= packages_dir());
    assert(".toml"@ =~= toml_ext());
    let mut file = owned(version);
    file.append(".toml");
    let mut out: Vec<String> = Vec::new();
    out.push(owned("packages"));
    out.push(owned(name));
    out.push(file);
    assert(views(out@) =~= seq![packages_dir(), name@, version@ + toml_ext()]);
    out
}

/// The texts among `s` that parse as versions, in order.
pub open spec fn parseable(s: Seq<Seq<char>>) -> Seq<Seq<char>>
    decreases s.len(),
{
    if s.len() == 0 {
        Seq::empty()
    } else if semver_parse(s.last()) is Some {
        parseable(s.drop_last()).push(s.last())
    } else {
        parseable(s.drop_last())
    }
}

/// The models of texts that all parse as versions.
pub open spec fn parsed_models(s: Seq<Seq<char>>) -> Seq<VersionModel> {
    s.map_values(|t: Seq<char>| semver_parse(t).unwrap())
}

/// `r` lists the entries of `items` in the order `order` gives, where
/// `order` lists them newest version first (stably).
pub open spec fn arranged_newest_first<T>(items: Seq<T>, ms: Seq<VersionModel>, r: Seq<T>) -> bool {
    exists|order: Seq<usize>|
        #[trigger] is_newest_first(ms, order) && r.len() == order.len() && forall|a: int|
            0 <= a < r.len() ==> r[a] == items[order[a] as int]
}

/// The stems among `s` that name versions, in order.
pub open spec fn version_stems(s: Seq<Seq<char>>) -> Seq<Seq<char>> {
    s.filter(|t: Seq<char>| semver_parse(t) is Some)
}

proof fn lemma_parseable_stems(s: Seq<Seq<char>>)
    ensures
        parseable(s) == version_stems(s),
        forall|i: int|
            0 <= i < parseable(s).len() ==> semver_parse(#[trigger] parseable(s)[i]) is Some
                && s.contains(parseable(s)[i]),
        forall|i: int| 0 <= i < s.len() && semver_parse(s[i]) is Some ==> parseable(s).contains(#[trigger] s[i]),
    decreases s.len(),
{
    reveal(Seq::filter);
    if s.len() > 0 {
        let t = s.drop_last();
        lemma_parseable_stems(t);
        let p = parseable(s);
        assert forall|i: int| 0 <= i < p.len() implies semver_parse(#[trigger] p[i]) is Some
            && s.contains(p[i]) by {
            if i < parseable(t).len() {
                assert(p[i] == parseable(t)[i]);
                let w = choose|w: int| 0 <= w < t.len() && t[w] == p[i];
                assert(s[w] == t[w]);
            } else {
                assert(s[s.len() - 1] == p[i]);
            }
        }
        assert forall|i: int| 0 <= i < s.len() && semver_parse(s[i]) is Some implies p.contains(#[trigger] s[i]) by {
            if i < t.len() {
                assert(t[i] == s[i]);
                let w = choose|w: int| 0 <= w < parseable(t).len() && parseable(t)[w] == s[i];
                assert(p[w] == s[i]);
            } else {
                assert(p[p.len() - 1] == s[i]);
            }
        }
    }
}

/// The versions listed for a package are exactly the stems that parse as
/// versions, whatever their numbers: each such stem is listed, everything
/// listed is such a stem, and as many are listed as there are such stems.
pub proof fn lemma_selected_versions(stems: Seq<Seq<char>>, r: Seq<Seq<char>>)
    requires
        arranged_newest_first(parseable(stems), parsed_models(parseable(stems)), r),
    ensures
        r.len() == version_stems(stems).len(),
        forall|i: int| 0 <= i < stems.len() && semver_parse(stems[i]) is Some ==> r.contains(#[trigger] stems[i]),
        forall|j: int| 0 <= j < r.len() ==> semver_parse(#[trigger] r[j]) is Some && stems.contains(r[j]),
{
    let items = parseable(stems);
    lemma_parseable_stems(stems);
    let ms = parsed_models(items);
    let order = choose|order: Seq<usize>|
        #[trigger] is_newest_first(ms, order) && r.len() == order.len() && forall|a: int|
            0 <= a < r.len() ==> r[a] == items[order[a] as int];
    assert forall|i: int| 0 <= i < stems.len() && semver_parse(stems[i]) is Some implies r.contains(
        #[trigger] stems[i],
    ) by {
        assert(items.contains(stems[i]));
        let x = choose|x: int| 0 <= x < items.len() && items[x] == stems[i];
        assert(lists(order, x));
        let a = choose|a: int| 0 <= a < order.len() && order[a] == x;
        assert(r[a] == stems[i]);
    }
    assert forall|j: int| 0 <= j < r.len() implies semver_parse(#[trigger] r[j]) is Some && stems.contains(
        r[j],
    ) by {
        let k = order[j] as int;
        assert(order[j] < ms.len());
        assert(r[j] == items[k]);
        assert(semver_parse(items[k]) is Some);
    }
}

/// The file stems that name versions, newest version first (as the registry
/// lists the versions of a package; equal versions keep their order).
pub fn select_versions(stems: &Vec<String>) -> (r: Vec<String>)
    ensures
        arranged_newest_first(
            parseable(views(stems@)),
            parsed_models(parseable(views(stems@))),
            views(r@),
        ),
        r@.len() == version_stems(views(stems@)).len(),
        forall|i: int|
            0 <= i < stems@.len() && semver_parse(stems@[i]@) is Some ==> views(r@).contains(
                #[trigger] stems@[i]@,
            ),
        forall|j: int|
            0 <= j < r@.len() ==> semver_parse(#[trigger] r@[j]@) is Some && views(stems@).contains(
                r@[j]@,
            ),
{
    let mut kept: Vec<String> = Vec::new();
    let mut parsed: Vec<Semver> = Vec::new();
    let mut i: usize = 0;
    while i < stems.len()
        invariant
            i <= stems.len(),
            views(kept@) == parseable(views(stems@).take(i as int)),
            models_of(parsed@) == parsed_models(views(kept@)),
        decreases stems.len() - i,
    {
        let ghost before = views(stems@).take(i as int);
        assert(views(stems@).take(i + 1).drop_last() =~= before);
        match Semver::parse(stems[i].as_str()) {
            Ok(v) => {
                let ghost k0 = views(kept@);
                let ghost p0 = models_of(parsed@);
                kept.push(stems[i].clone());
                parsed.push(v);
                assert(views(kept@) =~= k0.push(stems@[i as int]@));
                assert(models_of(parsed@) =~= p0.push(v.model()));
                assert(parsed_models(views(kept@)) =~= parsed_models(k0).push(
                    semver_parse(stems@[i as int]@).unwrap(),
                ));
            },
            Err(_) => {},
        }
        i = i + 1;
    }
    assert(views(stems@).take(stems.len() as int) =~= views(stems@));
    let order = order_newest_first(&parsed);
    let mut out: Vec<String> = Vec::new();
    let mut j: usize = 0;
    while j < order.len()
        invariant
            is_newest_first(models_of(parsed@), order@),
            order@.len() == kept@.len(),
            j <= order.len(),
            out@.len() == j,
            forall|a: int| 0 <= a < j ==> (#[trigger] views(out@)[a]) == views(kept@)[order@[a] as int],
        decreases order.len() - j,
    {
        let k = order[j];
        let ghost o0 = views(out@);
        out.push(kept[k].clone());
        assert(views(out@) =~= o0.push(views(kept@)[k as int]));
        j = j + 1;
    }
    assert(is_newest_first(parsed_models(parseable(views(stems@))), order@));
    proof {
        lemma_selected_versions(views(stems@), views(out@));
        assert forall|i: int|
            0 <= i < stems@.len() && semver_parse(stems@[i]@) is Some implies views(out@).contains(
            #[trigger] stems@[i]@,
        ) by {
            assert(views(stems@)[i] == stems@[i]@);
        }
        assert forall|j: int| 0 <= j < out@.len() implies semver_parse(#[trigger] out@[j]@) is Some
            && views(stems@).contains(out@[j]@) by {
            assert(views(out@)[j] == out@[j]@);
        }
    }
    out
}

/// The texts among `names` that parse as versions, with their positions.
pub open spec fn parseable_at(names: Seq<Seq<char>>, i: int) -> bool {
    0 <= i < names.len() && semver_parse(names[i]) is Some
}

/// The index of the entry of `names` that parses as the newest version (the
/// first such entry among equal versions); `None` when no entry parses.
pub fn latest_version_entry(names: &Vec<String>) -> (r: Option<usize>)
    ensures
        r is None <==> forall|i: int| 0 <= i < names@.len() ==> !#[trigger] parseable_at(views(names@), i),
        r matches Some(k) ==> parseable_at(views(names@), k as int) && forall|i: int|
            #[trigger] parseable_at(views(names@), i) && i != k ==> (crate::version::semver_order(
                semver_parse(names@[k as int]@).unwrap(),
                semver_parse(names@[i]@).unwrap(),
            ) > 0 || (crate::version::semver_order(
                semver_parse(names@[k as int]@).unwrap(),
                semver_parse(names@[i]@).unwrap(),
            ) == 0 && k < i)),
{
    let mut best: Option<(usize, Semver)> = None;
    let mut i: usize = 0;
    while i < names.len()
        invariant
            i <= names.len(),
            best is None ==> forall|m: int| 0 <= m < i ==> !#[trigger] parseable_at(views(names@), m),
            best matches Some(b) ==> {
                &&& b.0 < i
                &&& parseable_at(views(names@), b.0 as int)
                &&& semver_parse(names@[b.0 as int]@) == Some(b.1.model())
                &&& forall|m: int|
                    0 <= m < i && #[trigger] parseable_at(views(names@), m) && m != b.0 ==> (
                    crate::version::semver_order(b.1.model(), semver_parse(names@[m]@).unwrap()) > 0
                        || (crate::version::semver_order(
                        b.1.model(),
                        semver_parse(names@[m]@).unwrap(),
                    ) == 0 && b.0 < m))
            },
        decreases names.len() - i,
    {
        assert(views(names@)[i as int] == names@[i as int]@);
        match Semver::parse(names[i].as_str()) {
            Ok(v) => {
                let newer = match &best {
                    None => true,
                    Some(b) => v.compare(&b.1) > 0,
                };
                if newer {
                    proof {
                        if let Some(b) = best {
                            assert forall|m: int|
                                0 <= m < i + 1 && #[trigger] parseable_at(views(names@), m) && m != i
                                    implies crate::version::semver_order(
                                v.model(),
                                semver_parse(names@[m]@).unwrap(),
                            ) > 0 by {
                                assert(views(names@)[m] == names@[m]@);
                                if m != b.0 {
                                    assert(crate::version::semver_order(
                                        b.1.model(),
                                        semver_parse(names@[m]@).unwrap(),
                                    ) >= 0);
                                }
                            }
                        }
                    }
                    best = Some((i, v));
                } else {
                    proof {
                        let b = best->0;
                        assert(crate::version::semver_order(b.1.model(), v.model()) >= 0);
                    }
                }
            },
            Err(_) => {},
        }
        i = i + 1;
    }
    match best {
        Some(b) => Some(b.0),
        None => None,
    }
}

/// Builds the package that registry metadata describes for one of its
/// version files: fetched from the metadata's repository at tag `v{version}`,
/// not yet installed (empty path). Fails when `version` is not a version.
pub fn package_from_metadata(metadata: &RegistryPackageMetadata, version: &str) -> (r: Result<
    Package,
    PkgError,
>)
    requires
        metadata.dependencies.wf(),
    ensures
        r is Ok <==> semver_parse(version@) is Some,
        r matches Err(e) ==> (e matches PkgError::InvalidVersion(t, _) && t@ == version@),
        r matches Ok(p) ==> {
            &&& p.wf()
            &&& p.name@ == metadata.name@
            &&& semver_parse(version@) == Some(p.version.model())
            &&& opt_view(p.description) == opt_view(metadata.description)
            &&& views(p.authors@) == views(metadata.authors@)
            &&& opt_view(p.license) == opt_view(metadata.license)
            &&& p.dependencies.pairs() == metadata.dependencies.pairs()
            &&& p.source.model() == SourceModel::Git(
                metadata.repository@,
                Some(seq!['v'] + version@),
            )
            &&& p.path@ == Seq::<char>::empty()
        },
{
    let parsed = match Semver::parse(version) {
        Ok(v) => v,
        Err(e) => {
            return Err(PkgError::InvalidVersion(owned(version), e));
        },
    };
    proof {
        reveal_strlit("v");
        reveal_strlit("");
    }
    let mut rev = owned("v");
    rev.append(version);
    assert(rev@ =~= seq!['v'] + version@);
    let p = Package {
        name: metadata.name.clone(),
        version: parsed,
        description: clone_opt(&metadata.description),
        authors: clone_texts(&metadata.authors),
        license: clone_opt(&metadata.license),
        dependencies: metadata.dependencies.clone(),
        source: PackageSource::Git { url: metadata.repository.clone(), rev: Some(rev) },
        path: owned(""),
    };
    assert(p.path@ =~= Seq::<char>::empty());
    Ok(p)
}

/// The first of `packages` (in order) whose version meets the requirement.
pub fn find_package(packages: &Vec<Package>, version_req: &SemverReq) -> (r: Option<Package>)
    ensures
        r is None <==> forall|i: int|
            0 <= i < packages@.len() ==> !semver_req_matches(
                version_req.model(),
                #[trigger] packages@[i].version.model(),
            ),
        r matches Some(p) ==> exists|k: int|
            0 <= k < packages@.len() && p.model() == #[trigger] packages@[k].model()
                && semver_req_matches(version_req.model(), packages@[k].version.model()) && forall|i: int|
                0 <= i < k ==> !semver_req_matches(
                    version_req.model(),
                    #[trigger] packages@[i].version.model(),
                ),
{
    let mut i: usize = 0;
    while i < packages.len()
        invariant
            i <= packages.len(),
            forall|m: int|
                0 <= m < i ==> !semver_req_matches(
                    version_req.model(),
                    #[trigger] packages@[m].version.model(),
                ),
        decreases packages.len() - i,
    {
        if version_req.matches(&packages[i].version) {
            let p = packages[i].clone();
            assert(p.model() == packages@[i as int].model());
            return Some(p);
        }
        i = i + 1;
    }
    None
}

/// Whether a list of strings holds `x`.
pub fn texts_contain(v: &Vec<String>, x: &str) -> (r: bool)
    ensures
        r == views(v@).contains(x@),
{
    let key = owned(x);
    let mut i: usize = 0;
    while i < v.len()
        invariant
            i <= v.len(),
            key@ == x@,
            forall|j: int| 0 <= j < i ==> #[trigger] views(v@)[j] != x@,
        decreases v.len() - i,
    {
        if v[i] == key {
            assert(views(v@)[i as int] == x@);
            return true;
        }
        i = i + 1;
    }
    false
}

/// The lines of an index file's current contents (none when there is no file).
pub open spec fn index_lines(existing: Option<Seq<char>>) -> Seq<Seq<char>> {
    match existing {
        Some(c) => lines_of(c),
        None => Seq::empty(),
    }
}

/// `out` is the new contents of an index file whose current contents are
/// `existing` (none when there is no file) after publishing `v`: when `v` is
/// already one of the lines, the lines are kept as they are; else `v` is added
/// and all lines are sorted. Each line is followed by a line break.
pub open spec fn index_update(existing: Option<Seq<char>>, v: Seq<char>, out: Seq<char>) -> bool {
    let e = index_lines(existing);
    if e.contains(v) {
        out == joined_lines(e)
    } else {
        exists|s: Seq<Seq<char>>|
            #[trigger] texts_sorted(s) && s.to_multiset() == e.push(v).to_multiset() && out
                == joined_lines(s)
    }
}

/// The new contents of a package's index file (one version per line) after
/// publishing `version_line` (see `index_update`).
pub fn index_file_content(existing: Option<&str>, version_line: &str) -> (r: String)
    ensures
        index_update(crate::text::opt_str_view(existing), version_line@, r@),
{
    let entries = match existing {
        Some(c) => split_lines(c),
        None => Vec::new(),
    };
    assert(views(entries@) =~= index_lines(crate::text::opt_str_view(existing)));
    if texts_contain(&entries, version_line) {
        join_lines(&entries)
    } else {
        let mut grown = entries;
        let ghost e0 = views(grown@);
        grown.push(owned(version_line));
        assert(views(grown@) =~= e0.push(version_line@));
        let sorted = sort_texts(grown);
        join_lines(&sorted)
    }
}

/// One search result: package name, version, description.
pub type SearchHit = (String, String, Option<String>);

/// The loaded description of version `i`: `None` when its metadata could
/// not be loaded.
pub open spec fn loaded_description(ds: Seq<Option<Option<String>>>, i: int) -> Option<Option<Seq<char>>> {
    match ds[i] {
        Some(d) => Some(opt_view(d)),
        None => None,
    }
}

/// Version `i`'s loaded description contains the lower-cased query
/// (case-insensitively).
pub open spec fn description_matches(ds: Seq<Option<Option<String>>>, i: int, q: Seq<char>) -> bool {
    match loaded_description(ds, i) {
        Some(Some(d)) => has_infix(lowercase(d), q),
        _ => false,
    }
}

/// The plain model of a search result.
pub open spec fn hit_view(r: Option<SearchHit>) -> Option<(Seq<char>, Seq<char>, Option<Seq<char>>)> {
    match r {
        Some(hit) => Some((hit.0@, hit.1@, opt_view(hit.2))),
        None => None,
    }
}

/// `r` is how a registry package named `name` answers a search whose
/// lower-cased query is `lq`, given its versions newest first and what the
/// metadata of each says (see `match_search_entry`).
pub open spec fn search_answer(
    lq: Seq<char>,
    name: Seq<char>,
    versions: Seq<String>,
    ds: Seq<Option<Option<String>>>,
    r: Option<SearchHit>,
) -> bool {
    &&& has_infix(lowercase(name), lq) ==> {
        &&& r is Some <==> (versions.len() > 0 && ds[0] is Some)
        &&& r matches Some(hit) ==> hit.0@ == name && hit.1@ == versions[0]@ && Some(
            opt_view(hit.2),
        ) == loaded_description(ds, 0)
    }
    &&& !has_infix(lowercase(name), lq) ==> {
        &&& r is Some <==> exists|i: int|
            0 <= i < versions.len() && #[trigger] description_matches(ds, i, lq)
        &&& r matches Some(hit) ==> exists|i: int|
            0 <= i < versions.len() && #[trigger] description_matches(ds, i, lq) && (forall|j: int|
                0 <= j < i ==> !#[trigger] description_matches(ds, j, lq)) && hit.0@ == name
                && hit.1@ == versions[i]@ && Some(opt_view(hit.2)) == loaded_description(ds, i)
    }
}

/// A package whose lower-cased name holds the lower-cased query anywhere
/// (at any position, not only at the start) answers with its newest version
/// exactly when that version's metadata loads, giving that version's
/// description.
pub proof fn lemma_name_match_answers_newest(
    lq: Seq<char>,
    name: Seq<char>,
    versions: Seq<String>,
    ds: Seq<Option<Option<String>>>,
    r: Option<SearchHit>,
    at: int,
)
    requires
        search_answer(lq, name, versions, ds, r),
        0 <= at,
        at + lq.len() <= lowercase(name).len(),
        lowercase(name).subrange(at, at + lq.len()) == lq,
    ensures
        r is Some <==> (versions.len() > 0 && ds[0] is Some),
        r matches Some(hit) ==> hit.0@ == name && hit.1@ == versions[0]@ && (ds[0] matches Some(
            d,
        ) && opt_view(hit.2) == opt_view(d)),
{
    assert(crate::text::occurs_at(lowercase(name), lq, at));
}

/// A package whose lower-cased name does not hold the lower-cased query
/// answers with the first version whose loaded description holds it, lower-
/// cased, at some position, and with no version when none does.
pub proof fn lemma_description_match(
    lq: Seq<char>,
    name: Seq<char>,
    versions: Seq<String>,
    ds: Seq<Option<Option<String>>>,
    r: Option<SearchHit>,
)
    requires
        search_answer(lq, name, versions, ds, r),
        versions.len() == ds.len(),
        forall|at: int|
            0 <= at && at + lq.len() <= lowercase(name).len() ==> #[trigger] lowercase(name).subrange(
                at,
                at + lq.len(),
            ) != lq,
    ensures
        r is None ==> forall|i: int, d: String, at: int|
            #![trigger ds[i], lowercase(d@).subrange(at, at + lq.len())]
            0 <= i < ds.len() && ds[i] == Some(Some(d)) && 0 <= at && at + lq.len() <= lowercase(
                d@,
            ).len() ==> lowercase(d@).subrange(at, at + lq.len()) != lq,
        r matches Some(hit) ==> exists|i: int, d: String|
            #![trigger ds[i], d@]
            0 <= i < ds.len() && ds[i] == Some(Some(d)) && hit.0@ == name && hit.1@ == versions[i]@
                && opt_view(hit.2) == Some(d@) && (exists|at: int|
                0 <= at && at + lq.len() <= lowercase(d@).len() && #[trigger] lowercase(d@).subrange(
                    at,
                    at + lq.len(),
                ) == lq) && forall|j: int, e: String, at: int|
                #![trigger ds[j], lowercase(e@).subrange(at, at + lq.len())]
                0 <= j < i && ds[j] == Some(Some(e)) && 0 <= at && at + lq.len() <= lowercase(
                    e@,
                ).len() ==> lowercase(e@).subrange(at, at + lq.len()) != lq,
{
    assert(!has_infix(lowercase(name), lq)) by {
        if has_infix(lowercase(name), lq) {
            let at = choose|at: int| #[trigger] crate::text::occurs_at(lowercase(name), lq, at);
            assert(lowercase(name).subrange(at, at + lq.len()) != lq);
        }
    }
    assert forall|i: int, d: String, at: int|
        #![trigger ds[i], lowercase(d@).subrange(at, at + lq.len())]
        0 <= i < ds.len() && ds[i] == Some(Some(d)) && 0 <= at && at + lq.len() <= lowercase(d@).len()
            && lowercase(d@).subrange(at, at + lq.len()) == lq implies description_matches(
        ds,
        i,
        lq,
    ) by {
        assert(crate::text::occurs_at(lowercase(d@), lq, at));
    }
    if let Some(hit) = r {
        let i = choose|i: int|
            0 <= i < versions.len() && #[trigger] description_matches(ds, i, lq) && (forall|j: int|
                0 <= j < i ==> !#[trigger] description_matches(ds, j, lq)) && hit.0@ == name
                && hit.1@ == versions[i]@ && Some(opt_view(hit.2)) == loaded_description(ds, i);
        let d = ds[i]->0->0;
        let at = choose|at: int| #[trigger] crate::text::occurs_at(lowercase(d@), lq, at);
        assert(lowercase(d@).subrange(at, at + lq.len()) == lq);
        assert(ds[i] == Some(Some(d)));
    }
}

/// Decides whether one registry package answers a search. `versions` are its
/// versions newest first and `descriptions[i]` what the metadata of
/// `versions[i]` says (`None` when it could not be loaded). A package whose
/// name contains the query (ignoring case) answers with its newest version,
/// if that version's metadata loads; any other answers with the first
/// version whose description contains the query (ignoring case).
pub fn match_search_entry(
    query: &str,
    package_name: &str,
    versions: &Vec<String>,
    descriptions: &Vec<Option<Option<String>>>,
) -> (r: Option<SearchHit>)
    requires
        versions@.len() == descriptions@.len(),
    ensures
        search_answer(lowercase(query@), package_name@, versions@, descriptions@, r),
        is_ascii_text(query@) ==> lowercase(query@) == ascii_lower(query@),
        forall|at: int|
            0 <= at && at + lowercase(query@).len() <= lowercase(package_name@).len()
                && #[trigger] lowercase(package_name@).subrange(at, at + lowercase(query@).len())
                == lowercase(query@) ==> (r is Some <==> (versions@.len() > 0 && descriptions@[0] is Some))
                && (r matches Some(hit) ==> hit.0@ == package_name@ && hit.1@ == versions@[0]@),
{
    let query_lower = to_lowercase(query);
    let name_lower = to_lowercase(package_name);
    proof {
        let ln = lowercase(package_name@);
        let lq = lowercase(query@);
        assert forall|at: int|
            0 <= at && at + lq.len() <= ln.len() && #[trigger] ln.subrange(at, at + lq.len()) == lq implies has_infix(
            ln,
            lq,
        ) by {
            assert(crate::text::occurs_at(ln, lq, at));
        }
    }
    if contains_text(name_lower.as_str(), query_lower.as_str()) {
        if versions.len() > 0 {
            match &descriptions[0] {
                Some(d) => {
                    return Some((owned(package_name), versions[0].clone(), clone_opt(d)));
                },
                None => {
                    return None;
                },
            }
        }
        return None;
    }
    let mut i: usize = 0;
    while i < versions.len()
        invariant
            versions@.len() == descriptions@.len(),
            i <= versions.len(),
            query_lower@ == lowercase(query@),
            is_ascii_text(query@) ==> lowercase(query@) == ascii_lower(query@),
            !has_infix(lowercase(package_name@), lowercase(query@)),
            forall|at: int|
                0 <= at && at + lowercase(query@).len() <= lowercase(package_name@).len()
                    && #[trigger] lowercase(package_name@).subrange(at, at + lowercase(query@).len())
                    == lowercase(query@) ==> has_infix(lowercase(package_name@), lowercase(query@)),
            forall|j: int| 0 <= j < i ==> !#[trigger] description_matches(descriptions@, j, query_lower@),
        decreases versions.len() - i,
    {
        match &descriptions[i] {
            Some(Some(desc)) => {
                let desc_lower = to_lowercase(desc.as_str());
                if contains_text(desc_lower.as_str(), query_lower.as_str()) {
                    assert(description_matches(descriptions@, i as int, query_lower@));
                    return Some((owned(package_name), versions[i].clone(), Some(desc.clone())));
                }
            },
            _ => {},
        }
        i = i + 1;
    }
    None
}

/// A search ignores the case of ASCII letters in the query: two ASCII
/// queries with the same lower-case form (such as a query and its upper-case
/// form) get the same answer from each registry package.
pub proof fn lemma_search_ignores_case(
    q1: Seq<char>,
    q2: Seq<char>,
    name: Seq<char>,
    versions: Seq<String>,
    ds: Seq<Option<Option<String>>>,
    r1: Option<SearchHit>,
    r2: Option<SearchHit>,
)
    requires
        is_ascii_text(q1),
        is_ascii_text(q2),
        ascii_lower(q1) == ascii_lower(q2),
        search_answer(lowercase(q1), name, versions, ds, r1),
        is_ascii_text(q1) ==> lowercase(q1) == ascii_lower(q1),
        search_answer(lowercase(q2), name, versions, ds, r2),
        is_ascii_text(q2) ==> lowercase(q2) == ascii_lower(q2),
    ensures
        hit_view(r1) == hit_view(r2),
{
    let lq = lowercase(q1);
    assert(lowercase(q2) == lq);
    if !has_infix(lowercase(name), lq) {
        if r1 is Some {
            let h1 = r1->0;
            let h2 = r2->0;
            let i1 = choose|i: int|
                0 <= i < versions.len() && #[trigger] description_matches(ds, i, lq) && (forall|j: int|
                    0 <= j < i ==> !#[trigger] description_matches(ds, j, lq)) && h1.0@ == name
                    && h1.1@ == versions[i]@ && Some(opt_view(h1.2)) == loaded_description(ds, i);
            let i2 = choose|i: int|
                0 <= i < versions.len() && #[trigger] description_matches(ds, i, lq) && (forall|j: int|
                    0 <= j < i ==> !#[trigger] description_matches(ds, j, lq)) && h2.0@ == name
                    && h2.1@ == versions[i]@ && Some(opt_view(h2.2)) == loaded_description(ds, i);
            assert(i1 == i2) by {
                if i1 < i2 {
                    assert(!description_matches(ds, i1, lq));
                }
                if i2 < i1 {
                    assert(!description_matches(ds, i2, lq));
                }
            }
        }
    }
}

/// One registry package as a search sees it: its name, its versions newest
/// first, and what the metadata of each version says (`None` when it could
/// not be loaded).
pub type SearchSource = (String, Vec<String>, Vec<Option<Option<String>>>);

/// The plain models of the hits among `answers`, in order.
pub open spec fn hits_of(answers: Seq<Option<SearchHit>>) -> Seq<(Seq<char>, Seq<char>, Option<Seq<char>>)>
    decreases answers.len(),
{
    if answers.len() == 0 {
        Seq::empty()
    } else {
        hits_of(answers.drop_last()) + match hit_view(answers.last()) {
            Some(h) => seq![h],
            None => Seq::empty(),
        }
    }
}

/// `answers` holds, for each registry package of `sources`, how it answers
/// a search whose lower-cased query is `lq`.
pub open spec fn search_results(lq: Seq<char>, sources: Seq<SearchSource>, answers: Seq<Option<SearchHit>>) -> bool {
    &&& answers.len() == sources.len()
    &&& forall|i: int|
        0 <= i < sources.len() ==> #[trigger] search_answer(
            lq,
            sources[i].0@,
            sources[i].1@,
            sources[i].2@,
            answers[i],
        )
}

/// The plain models of a list of hits.
pub open spec fn hit_views(hits: Seq<SearchHit>) -> Seq<(Seq<char>, Seq<char>, Option<Seq<char>>)> {
    hits.map_values(|h: SearchHit| (h.0@, h.1@, opt_view(h.2)))
}

/// Searches the registry packages of `sources` in order: the hits of those
/// that answer (see `match_search_entry`).
pub fn search_packages(query: &str, sources: &Vec<SearchSource>) -> (r: Vec<SearchHit>)
    requires
        forall|i: int| 0 <= i < sources@.len() ==> (#[trigger] sources@[i]).1@.len() == sources@[i].2@.len(),
    ensures
        exists|answers: Seq<Option<SearchHit>>|
            #[trigger] search_results(lowercase(query@), sources@, answers) && hit_views(r@) == hits_of(
                answers,
            ),
        is_ascii_text(query@) ==> lowercase(query@) == ascii_lower(query@),
{
    // The query is lower-cased here too, so that what lower-casing does to
    // an ASCII query is known even when there is no package to search.
    let lowered = to_lowercase(query);
    let mut out: Vec<SearchHit> = Vec::new();
    let ghost mut answers: Seq<Option<SearchHit>> = Seq::empty();
    let mut i: usize = 0;
    while i < sources.len()
        invariant
            i <= sources.len(),
            lowered@ == lowercase(query@),
            is_ascii_text(query@) ==> lowercase(query@) == ascii_lower(query@),
            forall|j: int| 0 <= j < sources@.len() ==> (#[trigger] sources@[j]).1@.len() == sources@[j].2@.len(),
            answers.len() == i,
            forall|j: int|
                0 <= j < i ==> #[trigger] search_answer(
                    lowercase(query@),
                    sources@[j].0@,
                    sources@[j].1@,
                    sources@[j].2@,
                    answers[j],
                ),
            hit_views(out@) == hits_of(answers),
        decreases sources.len() - i,
    {
        let src = &sources[i];
        let a = match_search_entry(query, src.0.as_str(), &src.1, &src.2);
        let ghost before = answers;
        proof {
            answers = answers.push(a);
        }
        assert(answers.drop_last() =~= before);
        match a {
            Some(hit) => {
                let ghost h0 = hit_views(out@);
                out.push(hit);
                assert(hit_views(out@) =~= h0.push((hit.0@, hit.1@, opt_view(hit.2))));
                assert(hits_of(answers) =~= hits_of(before) + seq![(hit.0@, hit.1@, opt_view(hit.2))]);
            },
            None => {
                assert(hits_of(answers) =~= hits_of(before) + Seq::empty());
            },
        }
        i = i + 1;
    }
    assert(search_results(lowercase(query@), sources@, answers));
    out
}

/// Answers that agree package by package have the same hits.
proof fn lemma_hits_agree(a1: Seq<Option<SearchHit>>, a2: Seq<Option<SearchHit>>)
    requires
        a1.len() == a2.len(),
        forall|i: int| 0 <= i < a1.len() ==> hit_view(#[trigger] a1[i]) == hit_view(a2[i]),
    ensures
        hits_of(a1) == hits_of(a2),
    decreases a1.len(),
{
    if a1.len() > 0 {
        lemma_hits_agree(a1.drop_last(), a2.drop_last());
        assert(hit_view(a1[a1.len() - 1]) == hit_view(a2[a2.len() - 1]));
    }
}

/// A registry search ignores the case of ASCII letters in the query: two
/// ASCII queries with the same lower-case form (such as a query and its
/// upper-case form) find the same hits, in the same order.
pub proof fn lemma_registry_search_ignores_case(
    q1: Seq<char>,
    q2: Seq<char>,
    sources: Seq<SearchSource>,
    answers1: Seq<Option<SearchHit>>,
    answers2: Seq<Option<SearchHit>>,
)
    requires
        is_ascii_text(q1),
        is_ascii_text(q2),
        ascii_lower(q1) == ascii_lower(q2),
        search_results(lowercase(q1), sources, answers1),
        is_ascii_text(q1) ==> lowercase(q1) == ascii_lower(q1),
        search_results(lowercase(q2), sources, answers2),
        is_ascii_text(q2) ==> lowercase(q2) == ascii_lower(q2),
    ensures
        hits_of(answers1) == hits_of(answers2),
{
    assert forall|i: int| 0 <= i < answers1.len() implies hit_view(#[trigger] answers1[i]) == hit_view(
        answers2[i],
    ) by {
        assert(search_answer(lowercase(q1), sources[i].0@, sources[i].1@, sources[i].2@, answers1[i]));
        assert(search_answer(lowercase(q2), sources[i].0@, sources[i].1@, sources[i].2@, answers2[i]));
        lemma_search_ignores_case(q1, q2, sources[i].0@, sources[i].1@, sources[i].2@, answers1[i], answers2[i]);
    }
    lemma_hits_agree(answers1, answers2);
}

/// What `sha2::Sha256` gives as the digest of some bytes.
pub uninterp spec fn sha256(data: Seq<u8>) -> Seq<u8>;

/// The SHA-256 digest of `data`, by `sha2::Digest::digest` on `Sha256` (the
/// one-call form of `new`, `update` and `finalize`): a name for the bytes,
/// which are 32 (the output size of SHA-256).
#[verifier::external_body]
fn sha256_digest(data: &[u8]) -> (r: Vec<u8>)
    ensures
        r@ == sha256(data@),
        r@.len() == 32,
{
    <sha2::Sha256 as sha2::Digest>::digest(data).to_vec()
}

/// The lower-case hexadecimal digit of `d < 16`.
pub open spec fn hex_digit(d: int) -> char {
    if d < 10 {
        ((48 + d) as u32) as char
    } else {
        ((87 + d) as u32) as char
    }
}

/// Lower-case hexadecimal text of some bytes, two digits per byte.
pub open spec fn hex_lower(data: Seq<u8>) -> Seq<char>
    decreases data.len(),
{
    if data.len() == 0 {
        Seq::empty()
    } else {
        hex_lower(data.drop_last()) + seq![
            hex_digit(data.last() as int / 16),
            hex_digit(data.last() as int % 16),
        ]
    }
}

/// Hex text is twice as long as the bytes, and made of lower-case hex digits.
pub proof fn lemma_hex_lower(data: Seq<u8>)
    ensures
        hex_lower(data).len() == 2 * data.len(),
        forall|i: int| 0 <= i < hex_lower(data).len() ==> #[trigger] is_hex_digit(hex_lower(data)[i]),
    decreases data.len(),
{
    if data.len() > 0 {
        lemma_hex_lower(data.drop_last());
        let pre = hex_lower(data.drop_last());
        let b = data.last() as int;
        assert forall|i: int| 0 <= i < hex_lower(data).len() implies #[trigger] is_hex_digit(hex_lower(data)[i]) by {
            if i < pre.len() {
                assert(hex_lower(data)[i] == pre[i]);
            } else {
                assert(0 <= b / 16 < 16);
                assert(0 <= b % 16 < 16);
            }
        }
    }
}

/// `c` is one of `0`-`9`, `a`-`f`.
pub open spec fn is_hex_digit(c: char) -> bool {
    ('0' <= c && c <= '9') || ('a' <= c && c <= 'f')
}

/// `hex::encode`: the bytes as lower-case hexadecimal text, as the crate
/// documents it (two digits per byte, lower case).
#[verifier::external_body]
fn hex_encode(data: &[u8]) -> (r: String)
    ensures
        r@ == hex_lower(data@),
{
    hex::encode(data)
}

/// The directory name a git source is cached under: the first 16 characters
/// of the lower-case hex SHA-256 digest of the URL's bytes.
pub fn git_cache_dir_name(url: &str) -> (r: String)
    ensures
        r@ == hex_lower(sha256(url.spec_bytes())).take(16),
        r@.len() == 16,
        forall|i: int| 0 <= i < 16 ==> #[trigger] is_hex_digit(r@[i]),
{
    let digest = sha256_digest(url.as_bytes());
    let text = hex_encode(digest.as_slice());
    proof {
        lemma_hex_lower(digest@);
    }
    let r = owned(text.as_str().substring_char(0, 16));
    assert(r@ =~= hex_lower(sha256(url.spec_bytes())).take(16));
    r
}

/// The models of a list of packages.
pub open spec fn package_models(ps: Seq<Package>) -> Seq<PackageModel> {
    ps.map_values(|p: Package| p.model())
}

/// A copy of a list of packages.
pub fn clone_packages(v: &Vec<Package>) -> (r: Vec<Package>)
    ensures
        package_models(r@) == package_models(v@),
{
    let mut out: Vec<Package> = Vec::new();
    let mut i: usize = 0;
    while i < v.len()
        invariant
            i <= v.len(),
            package_models(out@) == package_models(v@).take(i as int),
        decreases v.len() - i,
    {
        let ghost before = package_models(out@);
        out.push(v[i].clone());
        assert(package_models(out@) =~= before.push(v@[i as int].model()));
        assert(package_models(v@).take(i + 1) =~= package_models(v@).take(i as int).push(
            v@[i as int].model(),
        ));
        i = i + 1;
    }
    assert(package_models(v@).take(v.len() as int) =~= package_models(v@));
    out
}

/// The places where the versions of a package are looked for, in turn.
pub enum VersionsSource {
    /// The GitHub registry's metadata files.
    Github,
    /// The local registry's index file.
    LocalIndex,
    /// The package directories of the local registry and of the nearby
    /// `packages` directories.
    LocalScan,
}

/// What looking up the versions of a package does next.
pub enum VersionsStep {
    /// Take the versions just found (and cache them); when `record`, also
    /// write them to the local index.
    Take { record: bool },
    /// Ask the next place.
    Ask(VersionsSource),
}

/// Decides what follows once `source` answered with `found` versions (a
/// failed answer counts as none): the GitHub registry and then the local
/// index are taken when they know at least one version; else the next place
/// is asked; what the scan of local directories finds is taken, even when it
/// is nothing, and written to the local index.
pub fn versions_step(source: &VersionsSource, found: usize) -> (r: VersionsStep)
    ensures
        match source {
            VersionsSource::Github => if found > 0 {
                r == VersionsStep::Take { record: false }
            } else {
                r == VersionsStep::Ask(VersionsSource::LocalIndex)
            },
            VersionsSource::LocalIndex => if found > 0 {
                r == VersionsStep::Take { record: false }
            } else {
                r == VersionsStep::Ask(VersionsSource::LocalScan)
            },
            VersionsSource::LocalScan => r == VersionsStep::Take { record: true },
        },
{
    match source {
        VersionsSource::Github => {
            if found > 0 {
                VersionsStep::Take { record: false }
            } else {
                VersionsStep::Ask(VersionsSource::LocalIndex)
            }
        },
        VersionsSource::LocalIndex => {
            if found > 0 {
                VersionsStep::Take { record: false }
            } else {
                VersionsStep::Ask(VersionsSource::LocalScan)
            }
        },
        VersionsSource::LocalScan => VersionsStep::Take { record: true },
    }
}

/// The packages among `ps` with name `n`, in order.
pub open spec fn named_only(ps: Seq<PackageModel>, n: Seq<char>) -> Seq<PackageModel>
    decreases ps.len(),
{
    if ps.len() == 0 {
        Seq::empty()
    } else {
        named_only(ps.drop_last(), n) + (if ps.last().0 == n {
            seq![ps.last()]
        } else {
            Seq::empty()
        })
    }
}

/// The packages kept when looking for name `n` are exactly those found with
/// that very name: every kept package has name `n` and was found, and every
/// package found with name `n` is kept.
pub proof fn lemma_kept_named(ps: Seq<PackageModel>, n: Seq<char>, r: Seq<PackageModel>)
    requires
        r == named_only(ps, n),
    ensures
        forall|i: int| 0 <= i < r.len() ==> (#[trigger] r[i]).0 == n && ps.contains(r[i]),
        forall|j: int| 0 <= j < ps.len() && (#[trigger] ps[j]).0 == n ==> r.contains(ps[j]),
    decreases ps.len(),
{
    if ps.len() > 0 {
        let t = ps.drop_last();
        let rt = named_only(t, n);
        lemma_kept_named(t, n, rt);
        assert forall|i: int| 0 <= i < r.len() implies (#[trigger] r[i]).0 == n && ps.contains(r[i]) by {
            if i < rt.len() {
                assert(r[i] == rt[i]);
                let w = choose|w: int| 0 <= w < t.len() && t[w] == rt[i];
                assert(ps[w] == t[w]);
            } else {
                assert(ps[ps.len() - 1] == r[i]);
            }
        }
        assert forall|j: int| 0 <= j < ps.len() && (#[trigger] ps[j]).0 == n implies r.contains(ps[j]) by {
            if j < t.len() {
                assert(t[j] == ps[j]);
                let w = choose|w: int| 0 <= w < rt.len() && rt[w] == ps[j];
                assert(r[w] == ps[j]);
            } else {
                assert(r[r.len() - 1] == ps[j]);
            }
        }
    }
}

/// The packages found by scanning local directories that carry the name
/// looked for, in the order found.
pub fn keep_named(found: &Vec<Package>, name: &str) -> (r: Vec<Package>)
    ensures
        package_models(r@) == named_only(package_models(found@), name@),
        forall|i: int| 0 <= i < r@.len() ==> (#[trigger] r@[i]).name@ == name@,
        forall|j: int|
            0 <= j < found@.len() && (#[trigger] found@[j]).name@ == name@ ==> package_models(
                r@,
            ).contains(found@[j].model()),
{
    let key = owned(name);
    let mut out: Vec<Package> = Vec::new();
    let mut i: usize = 0;
    while i < found.len()
        invariant
            i <= found.len(),
            key@ == name@,
            package_models(out@) == named_only(package_models(found@).take(i as int), name@),
        decreases found.len() - i,
    {
        let ghost before = package_models(out@);
        let ghost pre = package_models(found@).take(i as int);
        let ghost post = package_models(found@).take(i + 1);
        assert(post.drop_last() =~= pre);
        assert(post.last() == found@[i as int].model());
        if found[i].name == key {
            out.push(found[i].clone());
            assert(package_models(out@) =~= before.push(found@[i as int].model()));
            assert(named_only(post, name@) =~= named_only(pre, name@) + seq![post.last()]);
        } else {
            assert(named_only(post, name@) =~= named_only(pre, name@) + Seq::empty());
        }
        i = i + 1;
    }
    assert(package_models(found@).take(found.len() as int) =~= package_models(found@));
    proof {
        lemma_kept_named(package_models(found@), name@, package_models(out@));
        assert forall|i: int| 0 <= i < out@.len() implies (#[trigger] out@[i]).name@ == name@ by {
            assert(package_models(out@)[i] == out@[i].model());
        }
        assert forall|j: int|
            0 <= j < found@.len() && (#[trigger] found@[j]).name@ == name@ implies package_models(
            out@,
        ).contains(found@[j].model()) by {
            assert(package_models(found@)[j] == found@[j].model());
        }
    }
    out
}

/// What `std::path::Path::strip_prefix` leaves of `path` below `base`
/// (`None` when `base` is not a prefix of it, component by component).
pub uninterp spec fn strip_path_prefix(path: Seq<char>, base: Seq<char>) -> Option<Seq<char>>;

/// `Path::strip_prefix`, the remainder shown as text: a name for the
/// result, which depends on the two paths alone. Both paths come from
/// texts, so showing the remainder loses nothing.
#[verifier::external_body]
fn path_below(path: &str, base: &str) -> (r: Option<String>)
    ensures
        match r {
            Some(rel) => strip_path_prefix(path@, base@) == Some(rel@),
            None => strip_path_prefix(path@, base@) is None,
        },
{
    match std::path::Path::new(path).strip_prefix(base) {
        Ok(rel) => Some(rel.to_string_lossy().to_string()),
        Err(_) => None,
    }
}

/// Where the local index records a package: its directory below the
/// registry when it lies there, else its directory as it is.
pub open spec fn recorded_path(path: Seq<char>, registry: Seq<char>) -> Seq<char> {
    match strip_path_prefix(path, registry) {
        Some(rel) => rel,
        None => path,
    }
}

/// The local index's entries for a package's versions: for each package, its
/// version text and where it lies (see `recorded_path`).
pub fn index_records(packages: &Vec<Package>, registry: &str) -> (r: Vec<(String, String)>)
    ensures
        r@.len() == packages@.len(),
        forall|i: int|
            0 <= i < r@.len() ==> (#[trigger] r@[i]).0@ == version_text(
                packages@[i].version.model(),
            ) && r@[i].1@ == recorded_path(packages@[i].path@, registry@),
{
    let mut out: Vec<(String, String)> = Vec::new();
    let mut i: usize = 0;
    while i < packages.len()
        invariant
            i <= packages.len(),
            out@.len() == i,
            forall|j: int|
                0 <= j < i ==> (#[trigger] out@[j]).0@ == version_text(
                    packages@[j].version.model(),
                ) && out@[j].1@ == recorded_path(packages@[j].path@, registry@),
        decreases packages.len() - i,
    {
        let p = &packages[i];
        let place = match path_below(p.path.as_str(), registry) {
            Some(rel) => rel,
            None => p.path.clone(),
        };
        out.push((p.version.to_text(), place));
        i = i + 1;
    }
    out
}

/// The packages already found for each name, so that a registry looks a
/// name up once.
pub struct PackageCache {
    entries: Vec<(String, Vec<Package>)>,
    known: Ghost<Map<Seq<char>, Seq<PackageModel>>>,
}

impl PackageCache {
    /// The cached packages of each name.
    pub closed spec fn view(&self) -> Map<Seq<char>, Seq<PackageModel>> {
        self.known@
    }

    /// The entries and the map agree, and no name occurs twice.
    pub closed spec fn wf(&self) -> bool {
        let e = self.entries@;
        &&& forall|i: int, j: int| 0 <= i < j < e.len() ==> #[trigger] e[i].0@ != #[trigger] e[j].0@
        &&& forall|i: int|
            0 <= i < e.len() ==> #[trigger] self.known@.contains_key(e[i].0@) && self.known@[e[i].0@]
                == package_models(e[i].1@)
        &&& forall|n: Seq<char>| #[trigger]
            self.known@.contains_key(n) ==> exists|i: int| 0 <= i < e.len() && e[i].0@ == n
    }

    /// An empty cache.
    pub fn new() -> (r: PackageCache)
        ensures
            r.wf(),
            r@ == Map::<Seq<char>, Seq<PackageModel>>::empty(),
    {
        PackageCache { entries: Vec::new(), known: Ghost(Map::empty()) }
    }

    fn position(&self, name: &str) -> (r: Option<usize>)
        requires
            self.wf(),
        ensures
            r matches Some(i) ==> i < self.entries@.len() && self.entries@[i as int].0@ == name@,
            r is None ==> !self@.contains_key(name@),
    {
        let key = owned(name);
        let mut i: usize = 0;
        while i < self.entries.len()
            invariant
                i <= self.entries.len(),
                key@ == name@,
                forall|j: int| 0 <= j < i ==> #[trigger] self.entries@[j].0@ != name@,
            decreases self.entries.len() - i,
        {
            if self.entries[i].0 == key {
                return Some(i);
            }
            i = i + 1;
        }
        proof {
            if self.known@.contains_key(name@) {
                let j = choose|j: int| 0 <= j < self.entries@.len() && self.entries@[j].0@ == name@;
                assert(self.entries@[j].0@ != name@);
            }
        }
        None
    }

    /// A copy of the packages cached for `name`, if any.
    pub fn get(&self, name: &str) -> (r: Option<Vec<Package>>)
        requires
            self.wf(),
        ensures
            r is Some == self@.contains_key(name@),
            r matches Some(ps) ==> package_models(ps@) == self@[name@],
    {
        match self.position(name) {
            Some(i) => {
                let ghost e = self.entries@;
                assert(self.wf());
                assert(self.known@.contains_key(e[i as int].0@));
                Some(clone_packages(&self.entries[i].1))
            },
            None => None,
        }
    }

    /// Caches `packages` for `name`, replacing what was cached for it.
    pub fn insert(&mut self, name: &str, packages: Vec<Package>)
        requires
            old(self).wf(),
        ensures
            final(self).wf(),
            final(self)@ == old(self)@.insert(name@, package_models(packages@)),
    {
        let ghost pm = package_models(packages@);
        let ghost e0 = self.entries@;
        match self.position(name) {
            Some(i) => {
                self.entries.set(i, (owned(name), packages));
                self.known = Ghost(self.known@.insert(name@, pm));
                let ghost e = self.entries@;
                assert forall|a: int, b: int| 0 <= a < b < e.len() implies #[trigger] e[a].0@ != #[trigger] e[b].0@ by {
                    assert(e0[a].0@ != e0[b].0@);
                }
                assert forall|a: int| 0 <= a < e.len() implies #[trigger] self.known@.contains_key(e[a].0@)
                    && self.known@[e[a].0@] == package_models(e[a].1@) by {
                    if a != i {
                        assert(e0[a].0@ != e0[i as int].0@);
                        assert(old(self).known@.contains_key(e0[a].0@));
                    }
                }
                assert forall|n: Seq<char>| #[trigger] self.known@.contains_key(n) implies exists|a: int|
                    0 <= a < e.len() && e[a].0@ == n by {
                    if n == name@ {
                        assert(e[i as int].0@ == n);
                    } else {
                        let a = choose|a: int| 0 <= a < e0.len() && e0[a].0@ == n;
                        assert(e[a].0@ == n);
                    }
                }
            },
            None => {
                self.entries.push((owned(name), packages));
                self.known = Ghost(self.known@.insert(name@, pm));
                let ghost e = self.entries@;
                assert forall|a: int, b: int| 0 <= a < b < e.len() implies #[trigger] e[a].0@ != #[trigger] e[b].0@ by {
                    if b == e0.len() {
                        assert(old(self).known@.contains_key(e0[a].0@));
                    } else {
                        assert(e0[a].0@ != e0[b].0@);
                    }
                }
                assert forall|a: int| 0 <= a < e.len() implies #[trigger] self.known@.contains_key(e[a].0@)
                    && self.known@[e[a].0@] == package_models(e[a].1@) by {
                    if a < e0.len() {
                        assert(old(self).known@.contains_key(e0[a].0@));
                    }
                }
                assert forall|n: Seq<char>| #[trigger] self.known@.contains_key(n) implies exists|a: int|
                    0 <= a < e.len() && e[a].0@ == n by {
                    if n == name@ {
                        assert(e[e0.len() as int].0@ == n);
                    } else {
                        let a = choose|a: int| 0 <= a < e0.len() && e0[a].0@ == n;
                        assert(e[a].0@ == n);
                    }
                }
            },
        }
    }
}

/// Reading the cache after caching packages for a name gives those packages;
/// every other name reads as before.
pub proof fn lemma_cache_read_after_write(
    before: PackageCache,
    after: PackageCache,
    name: Seq<char>,
    packages: Seq<PackageModel>,
)
    requires
        after@ == before@.insert(name, packages),
    ensures
        after@.contains_key(name),
        after@[name] == packages,
        forall|other: Seq<char>|
            other != name ==> (#[trigger] after@.contains_key(other) == before@.contains_key(other)
                && (before@.contains_key(other) ==> after@[other] == before@[other])),
{
}

/// Publishing a version that the index file already lists leaves the file as
/// it was: the contents written when `v` is published are written again when
/// it is published a second time (for plain lines, as versions are).
pub proof fn lemma_republish_keeps_index(
    existing: Option<Seq<char>>,
    v: Seq<char>,
    first: Seq<char>,
    second: Seq<char>,
)
    requires
        crate::text::plain_line(v),
        forall|i: int|
            0 <= i < index_lines(existing).len() ==> #[trigger] crate::text::plain_line(
                index_lines(existing)[i],
            ),
        index_update(existing, v, first),
        index_update(Some(first), v, second),
    ensures
        second == first,
{
    broadcast use vstd::seq_lib::group_to_multiset_ensures;
    let e = index_lines(existing);
    if e.contains(v) {
        crate::text::lemma_lines_of_joined(e);
        assert(index_lines(Some(first)) == e);
    } else {
        let s = choose|s: Seq<Seq<char>>|
            #[trigger] texts_sorted(s) && s.to_multiset() == e.push(v).to_multiset() && first
                == joined_lines(s);
        assert forall|i: int| 0 <= i < s.len() implies #[trigger] crate::text::plain_line(s[i]) by {
            assert(s.contains(s[i]));
            assert(s.to_multiset().count(s[i]) > 0);
            assert(e.push(v).contains(s[i]));
            let w = choose|w: int| 0 <= w < e.push(v).len() && e.push(v)[w] == s[i];
            if w < e.len() {
                assert(e.push(v)[w] == e[w]);
            }
        }
        crate::text::lemma_lines_of_joined(s);
        assert(e.push(v)[e.len() as int] == v);
        assert(e.push(v).contains(v));
        assert(s.to_multiset().count(v) > 0);
        assert(s.contains(v));
        assert(index_lines(Some(first)) == s);
    }
}

} // verus!
