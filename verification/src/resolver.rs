//! Dependency resolution: requirement texts, choosing versions, and the
//! breadth-first resolution of a manifest's dependencies.
//!
//! Resolution alternates decisions with lookups that read the disk or the
//! network. `Resolution` holds the decisions: it says which package to look up
//! next (`next_request`), takes what the lookup found (`accept_loaded`,
//! `accept_candidates`), and gives the resolved packages at the end
//! (`finish`). The caller performs the lookups.

use vstd::prelude::*;
use crate::error::PkgError;
use crate::package::Package;
use crate::text::{owned, starts_with, strip_prefix, trim, trimmed, views};
use crate::version::{
    Semver,
    SemverReq,
    VersionModel,
    comes_before,
    is_newest_first,
    models_of,
    order_newest_first,
    semver_parse,
    semver_req_display,
    semver_req_matches,
    semver_req_parses,
    version_text,
};

verus! {

/// `file://`
pub open spec fn file_scheme() -> Seq<char> {
    seq!['f', 'i', 'l', 'e', ':', '/', '/']
}

/// `git://`
pub open spec fn git_scheme() -> Seq<char> {
    seq!['g', 'i', 't', ':', '/', '/']
}

/// `git+`
pub open spec fn git_plus_scheme() -> Seq<char> {
    seq!['g', 'i', 't', '+']
}

/// Whether a dependency's requirement text names a source rather than versions.
pub open spec fn is_source_spec(s: Seq<char>) -> bool {
    file_scheme().is_prefix_of(s) || git_scheme().is_prefix_of(s) || git_plus_scheme().is_prefix_of(
        s,
    )
}

/// The requirement text that a dependency's text stands for: `*` for a
/// source, for an empty or `*` text, the exact requirement `=V` for a text
/// that is a version `V`, else the trimmed text itself.
pub open spec fn effective_requirement(s: Seq<char>) -> Seq<char> {
    let t = if is_source_spec(s) {
        seq!['*']
    } else {
        trimmed(s)
    };
    if t == seq!['*'] || t.len() == 0 {
        seq!['*']
    } else if semver_parse(t) is Some {
        seq!['='] + version_text(semver_parse(t).unwrap())
    } else {
        t
    }
}

/// What requirement a dependency's text stands for, case by case: `*` for a
/// source, an empty text or `*`; exactly `=V` for a text that is a plain
/// version `V`; and otherwise the text as written, only trimmed (so that
/// `~1.2.3` stays a tilde requirement and `>=1.0.0` stays inclusive).
pub proof fn lemma_requirement_as_written(s: Seq<char>, q: Seq<char>)
    requires
        q == effective_requirement(s),
    ensures
        is_source_spec(s) || trimmed(s) == seq!['*'] || trimmed(s).len() == 0 ==> q == seq!['*'],
        !is_source_spec(s) && trimmed(s) != seq!['*'] && trimmed(s).len() > 0 && semver_parse(
            trimmed(s),
        ) is Some ==> q == seq!['='] + version_text(semver_parse(trimmed(s)).unwrap()),
        !is_source_spec(s) && trimmed(s) != seq!['*'] && trimmed(s).len() > 0 && semver_parse(
            trimmed(s),
        ) is None ==> q == trimmed(s),
{
}

/// Turns a dependency's requirement text into a version requirement. Source
/// texts (`file://`, `git://`, `git+`) stand for `*`, as do empty texts; a
/// plain version `V` stands for exactly `=V`; anything else is parsed as a
/// requirement after trimming whitespace.
pub fn parse_version_req(version_str: &str) -> (r: Result<SemverReq, PkgError>)
    ensures
        r is Ok <==> semver_req_parses(effective_requirement(version_str@)),
        r matches Ok(q) ==> q.model() == effective_requirement(version_str@),
        r matches Err(e) ==> (e matches PkgError::InvalidRequirement(t, _) && t@
            == effective_requirement(version_str@)),
        effective_requirement(version_str@) == seq!['*'] ==> (r matches Ok(q) && forall|v: VersionModel|
            #[trigger] semver_req_matches(q.model(), v) <==> v.3.len() == 0),
        is_source_spec(version_str@) || trimmed(version_str@) == seq!['*'] || trimmed(
            version_str@,
        ).len() == 0 ==> (r matches Ok(q) && q.model() == seq!['*']),
        !is_source_spec(version_str@) && trimmed(version_str@) != seq!['*'] && trimmed(
            version_str@,
        ).len() > 0 && semver_parse(trimmed(version_str@)) is Some ==> (r matches Ok(q)
            ==> q.model() == seq!['='] + version_text(semver_parse(trimmed(version_str@)).unwrap())),
        !is_source_spec(version_str@) && trimmed(version_str@) != seq!['*'] && trimmed(
            version_str@,
        ).len() > 0 && semver_parse(trimmed(version_str@)) is None ==> {
            &&& r is Ok <==> semver_req_parses(trimmed(version_str@))
            &&& r matches Ok(q) ==> q.model() == trimmed(version_str@)
            &&& r matches Err(e) ==> (e matches PkgError::InvalidRequirement(t, _) && t@ == trimmed(
                version_str@,
            ))
        },
{
    proof {
        reveal_strlit("file://");
        reveal_strlit("git://");
        reveal_strlit("git+");
        reveal_strlit("*");
        reveal_strlit("=");
    }
    assert("file://"@ == file_scheme());
    assert("git://"@ == git_scheme());
    assert("git+"@ == git_plus_scheme());
    let is_source = starts_with(version_str, "file://") || starts_with(version_str, "git://")
        || starts_with(version_str, "git+");
    let text = if is_source {
        owned("*")
    } else {
        trim(version_str)
    };
    assert(text@ == (if is_source_spec(version_str@) {
        seq!['*']
    } else {
        trimmed(version_str@)
    }));
    let star = owned("*");
    assert(star@ =~= seq!['*']);
    if text == star || text.as_str().unicode_len() == 0 {
        let q = SemverReq::star();
        assert(effective_requirement(version_str@) == seq!['*']);
        return Ok(q);
    }
    assert(effective_requirement(version_str@) != seq!['*']) by {
        if semver_parse(text@) is Some {
            assert((seq!['='] + version_text(semver_parse(text@).unwrap()))[0] == '=');
        }
    }
    assert(text@ != seq!['*'] && text@.len() != 0);
    let req_text = match Semver::parse(text.as_str()) {
        Ok(v) => {
            let mut exact = owned("=");
            let shown = v.to_text();
            exact.append(shown.as_str());
            assert(exact@ =~= seq!['='] + version_text(v.model()));
            exact
        },
        Err(_) => text,
    };
    match SemverReq::parse(req_text.as_str()) {
        Ok(q) => Ok(q),
        Err(e) => Err(PkgError::InvalidRequirement(req_text, e)),
    }
}

/// The texts of a list of requirements.
pub open spec fn req_models(reqs: Seq<SemverReq>) -> Seq<Seq<char>> {
    reqs.map_values(|q: SemverReq| q.model())
}

/// Every requirement matches the version.
pub open spec fn satisfies_all(reqs: Seq<Seq<char>>, v: VersionModel) -> bool {
    forall|i: int| 0 <= i < reqs.len() ==> #[trigger] semver_req_matches(reqs[i], v)
}

/// Whether every requirement matches the version.
pub fn matches_all(reqs: &Vec<SemverReq>, v: &Semver) -> (r: bool)
    ensures
        r == satisfies_all(req_models(reqs@), v.model()),
{
    let mut i: usize = 0;
    while i < reqs.len()
        invariant
            i <= reqs.len(),
            forall|j: int| 0 <= j < i ==> #[trigger] semver_req_matches(req_models(reqs@)[j], v.model()),
        decreases reqs.len() - i,
    {
        if !reqs[i].matches(v) {
            assert(!semver_req_matches(req_models(reqs@)[i as int], v.model()));
            return false;
        }
        i = i + 1;
    }
    true
}

/// The texts of a list of requirements, as owned strings.
pub fn requirement_texts(reqs: &Vec<SemverReq>) -> (r: Vec<String>)
    ensures
        views(r@) == req_models(reqs@),
{
    let mut out: Vec<String> = Vec::new();
    let mut i: usize = 0;
    while i < reqs.len()
        invariant
            i <= reqs.len(),
            views(out@) == req_models(reqs@).take(i as int),
        decreases reqs.len() - i,
    {
        let ghost before = views(out@);
        out.push(reqs[i].text().clone());
        assert(views(out@) =~= before.push(reqs@[i as int].model()));
        assert(req_models(reqs@).take(i + 1) =~= req_models(reqs@).take(i as int).push(
            reqs@[i as int].model(),
        ));
        i = i + 1;
    }
    assert(req_models(reqs@).take(reqs.len() as int) =~= req_models(reqs@));
    out
}

/// The versions of a list of packages.
pub open spec fn package_versions(ps: Seq<Package>) -> Seq<VersionModel> {
    ps.map_values(|p: Package| p.version.model())
}

/// Package `k` of `ps` is the newest one whose version meets every
/// requirement; among equal versions, the first listed.
pub open spec fn is_newest_compatible(ps: Seq<Package>, reqs: Seq<Seq<char>>, k: int) -> bool {
    &&& 0 <= k < ps.len()
    &&& satisfies_all(reqs, ps[k].version.model())
    &&& forall|m: int|
        0 <= m < ps.len() && m != k && satisfies_all(reqs, ps[m].version.model()) ==> comes_before(
            package_versions(ps),
            k as usize,
            m as usize,
        )
}

/// Chooses, among the known versions of a package, the newest that meets
/// every requirement (among equal versions, the first listed). Fails when no
/// version is known, or when none meets all requirements.
pub fn find_compatible_version(name: &str, version_reqs: &Vec<SemverReq>, all_packages: &Vec<
    Package,
>) -> (r: Result<Package, PkgError>)
    ensures
        all_packages@.len() == 0 ==> (r matches Err(PkgError::PackageNotFound(n)) && n@ == name@),
        all_packages@.len() > 0 ==> (r is Ok <==> exists|m: int|
            0 <= m < all_packages@.len() && satisfies_all(
                req_models(version_reqs@),
                #[trigger] all_packages@[m].version.model(),
            )),
        r matches Ok(p) ==> exists|k: int|
            is_newest_compatible(all_packages@, req_models(version_reqs@), k) && p.model()
                == #[trigger] all_packages@[k].model(),
        all_packages@.len() > 0 && r is Err ==> (r matches Err(
            PkgError::NoCompatibleVersion(n, texts),
        ) && n@ == name@ && views(texts@) == req_models(version_reqs@)),
{
    let n = all_packages.len();
    if n == 0 {
        return Err(PkgError::PackageNotFound(owned(name)));
    }
    let mut versions: Vec<Semver> = Vec::new();
    let mut i: usize = 0;
    while i < n
        invariant
            n == all_packages.len(),
            i <= n,
            models_of(versions@) == package_versions(all_packages@).take(i as int),
        decreases n - i,
    {
        let ghost before = models_of(versions@);
        versions.push(all_packages[i].version.clone());
        assert(models_of(versions@) =~= before.push(all_packages@[i as int].version.model()));
        assert(package_versions(all_packages@).take(i + 1) =~= package_versions(all_packages@).take(
            i as int,
        ).push(all_packages@[i as int].version.model()));
        i = i + 1;
    }
    assert(package_versions(all_packages@).take(n as int) =~= package_versions(all_packages@));
    let order = order_newest_first(&versions);
    let ghost ms = package_versions(all_packages@);
    let ghost rm = req_models(version_reqs@);
    let mut j: usize = 0;
    while j < n
        invariant
            n == all_packages.len(),
            ms == package_versions(all_packages@),
            rm == req_models(version_reqs@),
            is_newest_first(ms, order@),
            j <= n,
            forall|a: int| 0 <= a < j ==> !satisfies_all(rm, #[trigger] ms[order@[a] as int]),
        decreases n - j,
    {
        let k = order[j];
        assert(ms[k as int] == all_packages@[k as int].version.model());
        if matches_all(version_reqs, &all_packages[k].version) {
            let p = all_packages[k].clone();
            assert forall|m: int|
                0 <= m < all_packages@.len() && m != k && satisfies_all(
                    rm,
                    all_packages@[m].version.model(),
                ) implies comes_before(ms, k, m as usize) by {
                assert(crate::version::lists(order@, m));
                let b = choose|b: int| 0 <= b < order@.len() && order@[b] == m;
                assert(ms[m] == all_packages@[m].version.model());
                if b < j {
                    assert(!satisfies_all(rm, ms[order@[b] as int]));
                }
                assert(b != j);
                assert(comes_before(ms, order@[j as int], order@[b]));
            }
            assert(is_newest_compatible(all_packages@, rm, k as int));
            return Ok(p);
        }
        j = j + 1;
    }
    assert forall|m: int| 0 <= m < all_packages@.len() implies !satisfies_all(
        rm,
        #[trigger] all_packages@[m].version.model(),
    ) by {
        assert(crate::version::lists(order@, m));
        let b = choose|b: int| 0 <= b < order@.len() && order@[b] == m;
        assert(ms[m] == all_packages@[m].version.model());
        assert(!satisfies_all(rm, ms[order@[b] as int]));
    }
    Err(PkgError::NoCompatibleVersion(owned(name), requirement_texts(version_reqs)))
}

/// A package chosen by resolution, with its distance from the manifest
/// (0 for the manifest's own dependencies).
pub struct ResolvedPackage {
    pub package: Package,
    pub depth: usize,
}

impl ResolvedPackage {
    /// The resolved package's version.
    pub open spec fn version(&self) -> VersionModel {
        self.package.version.model()
    }

    /// The resolved package's dependency entries.
    pub open spec fn deps(&self) -> Seq<(Seq<char>, Seq<char>)> {
        self.package.dependencies.pairs()
    }
}

/// How to find the package a request is about.
pub enum Lookup {
    /// Load the package from a local directory.
    File(String),
    /// Fetch the package from a git repository.
    Git(String),
    /// Ask the registry for every known version.
    Registry,
}

/// The plain model of a lookup.
pub enum LookupModel {
    File(Seq<char>),
    Git(Seq<char>),
    Registry,
}

impl Lookup {
    /// The plain model of this lookup.
    pub open spec fn model(&self) -> LookupModel {
        match self {
            Lookup::File(p) => LookupModel::File(p@),
            Lookup::Git(u) => LookupModel::Git(u@),
            Lookup::Registry => LookupModel::Registry,
        }
    }
}

/// The lookup that a dependency's source text calls for: a `file://` path, a
/// `git://` or `git+` repository, or else the registry.
pub open spec fn lookup_for(spec: Option<Seq<char>>) -> LookupModel {
    match spec {
        None => LookupModel::Registry,
        Some(s) => if file_scheme().is_prefix_of(s) {
            LookupModel::File(s.skip(file_scheme().len() as int))
        } else if git_scheme().is_prefix_of(s) {
            LookupModel::Git(s.skip(git_scheme().len() as int))
        } else if git_plus_scheme().is_prefix_of(s) {
            LookupModel::Git(s.skip(git_plus_scheme().len() as int))
        } else {
            LookupModel::Registry
        },
    }
}

/// The lookup that a dependency's source text calls for.
pub fn classify_source(spec: &Option<String>) -> (r: Lookup)
    ensures
        r.model() == lookup_for(crate::text::opt_view(*spec)),
{
    proof {
        reveal_strlit("file://");
        reveal_strlit("git://");
        reveal_strlit("git+");
    }
    assert("file://"@ == file_scheme());
    assert("git://"@ == git_scheme());
    assert("git+"@ == git_plus_scheme());
    match spec {
        None => Lookup::Registry,
        Some(s) => {
            if let Some(path) = strip_prefix(s.as_str(), "file://") {
                Lookup::File(path)
            } else if let Some(url) = strip_prefix(s.as_str(), "git://") {
                Lookup::Git(url)
            } else if let Some(url) = strip_prefix(s.as_str(), "git+") {
                Lookup::Git(url)
            } else {
                Lookup::Registry
            }
        },
    }
}

/// A package waiting to be resolved.
struct QueueItem {
    name: String,
    depth: usize,
    source_spec: Option<String>,
}

/// What resolution asks its caller to look up next.
pub struct Request {
    pub name: String,
    pub depth: usize,
    pub lookup: Lookup,
}

/// The texts of the requirements on `n` include `t`.
pub open spec fn required(reqs: Map<Seq<char>, Seq<Seq<char>>>, n: Seq<char>, t: Seq<char>) -> bool {
    reqs.contains_key(n) && reqs[n].contains(t)
}

/// `n` is among the resolved names.
pub open spec fn is_resolved(names: Seq<Seq<char>>, n: Seq<char>) -> bool {
    exists|i: int| 0 <= i < names.len() && #[trigger] names[i] == n
}

spec fn queued(q: Seq<QueueItem>, n: Seq<char>) -> bool {
    exists|i: int| 0 <= i < q.len() && #[trigger] q[i].name@ == n
}

/// A queued name, with its depth and (for the manifest's own dependencies)
/// its requirement text.
pub type QueuedModel = (Seq<char>, usize, Option<Seq<char>>);

spec fn queue_model(q: Seq<QueueItem>) -> Seq<QueuedModel> {
    q.map_values(|it: QueueItem| (it.name@, it.depth, crate::text::opt_view(it.source_spec)))
}

/// The queue that resolution starts with: each of the manifest's
/// dependencies at depth 0, with its requirement text as source.
pub open spec fn root_queue(roots: Seq<(Seq<char>, Seq<char>)>) -> Seq<QueuedModel> {
    roots.map_values(|e: (Seq<char>, Seq<char>)| (e.0, 0usize, Some(e.1)))
}

/// The requirements after recording one more requirement text, `s`'s
/// effective requirement on name `n`.
pub open spec fn add_requirement_to(
    reqs: Map<Seq<char>, Seq<Seq<char>>>,
    n: Seq<char>,
    s: Seq<char>,
) -> Map<Seq<char>, Seq<Seq<char>>> {
    reqs.insert(
        n,
        (if reqs.contains_key(n) {
            reqs[n]
        } else {
            Seq::empty()
        }).push(effective_requirement(s)),
    )
}

/// The requirements after recording those of each entry of `deps`, in order.
pub open spec fn added_requirements(
    reqs: Map<Seq<char>, Seq<Seq<char>>>,
    deps: Seq<(Seq<char>, Seq<char>)>,
) -> Map<Seq<char>, Seq<Seq<char>>>
    decreases deps.len(),
{
    if deps.len() == 0 {
        reqs
    } else {
        add_requirement_to(added_requirements(reqs, deps.drop_last()), deps.last().0, deps.last().1)
    }
}

/// The names queued for a resolved package's dependency entries: each
/// entry not yet resolved, one level deeper, in order.
pub open spec fn queued_deps(names: Seq<Seq<char>>, deps: Seq<(Seq<char>, Seq<char>)>, d: int) -> Seq<
    QueuedModel,
>
    decreases deps.len(),
{
    if deps.len() == 0 {
        Seq::empty()
    } else {
        queued_deps(names, deps.drop_last(), d) + (if is_resolved(names, deps.last().0) {
            Seq::empty()
        } else {
            seq![(deps.last().0, (d + 1) as usize, None::<Seq<char>>)]
        })
    }
}

/// The position of the first queued name not resolved yet (the queue's
/// length when there is none).
pub open spec fn first_unresolved(q: Seq<QueuedModel>, names: Seq<Seq<char>>) -> int
    decreases q.len(),
{
    if q.len() == 0 {
        0
    } else if !is_resolved(names, q[0].0) {
        0
    } else {
        1 + first_unresolved(q.drop_first(), names)
    }
}

/// Some entry of `deps` names `n`.
pub open spec fn names_entry(deps: Seq<(Seq<char>, Seq<char>)>, n: Seq<char>) -> bool {
    exists|k: int| 0 <= k < deps.len() && #[trigger] deps[k].0 == n
}

/// Package `j` of `rs` lies one level above `depth` and has a dependency
/// entry naming `n`.
pub open spec fn spawns(rs: Seq<ResolvedPackage>, j: int, n: Seq<char>, depth: int) -> bool {
    0 <= j < rs.len() && rs[j].depth + 1 == depth && names_entry(rs[j].deps(), n)
}

/// A name at `depth` comes from the manifest (depth 0) or from a dependency
/// entry of a package resolved one level above.
pub open spec fn origin_ok(
    roots: Seq<(Seq<char>, Seq<char>)>,
    rs: Seq<ResolvedPackage>,
    n: Seq<char>,
    depth: int,
) -> bool {
    if depth == 0 {
        names_entry(roots, n)
    } else {
        exists|j: int| #[trigger] spawns(rs, j, n, depth)
    }
}

/// Name `n` is resolved at a depth of at most `b`.
pub open spec fn resolved_within(ns: Seq<Seq<char>>, rs: Seq<ResolvedPackage>, n: Seq<char>, b: int) -> bool {
    exists|i: int| 0 <= i < rs.len() && 0 <= i < ns.len() && #[trigger] ns[i] == n && rs[i].depth <= b
}

/// Name `n` is resolved, queued or being looked up at a depth of at most `b`.
spec fn reached(
    ns: Seq<Seq<char>>,
    rs: Seq<ResolvedPackage>,
    q: Seq<QueueItem>,
    pending: Option<QueueItem>,
    n: Seq<char>,
    b: int,
) -> bool {
    ||| exists|i: int| 0 <= i < rs.len() && 0 <= i < ns.len() && #[trigger] ns[i] == n && rs[i].depth <= b
    ||| exists|a: int| 0 <= a < q.len() && #[trigger] q[a].name@ == n && q[a].depth <= b
    ||| (pending matches Some(p) && p.name@ == n && p.depth <= b)
}

/// A longer list of resolved packages keeps the origins of names.
proof fn lemma_origin_grows(
    roots: Seq<(Seq<char>, Seq<char>)>,
    rs: Seq<ResolvedPackage>,
    rs2: Seq<ResolvedPackage>,
    n: Seq<char>,
    depth: int,
)
    requires
        origin_ok(roots, rs, n, depth),
        rs.len() <= rs2.len(),
        forall|j: int| 0 <= j < rs.len() ==> rs2[j] == rs[j],
    ensures
        origin_ok(roots, rs2, n, depth),
{
    if depth != 0 {
        let j = choose|j: int| #[trigger] spawns(rs, j, n, depth);
        assert(rs2[j] == rs[j]);
        assert(spawns(rs2, j, n, depth));
    }
}

spec fn table_inv(tm: Seq<(Seq<char>, Seq<Seq<char>>)>, reqs: Map<Seq<char>, Seq<Seq<char>>>) -> bool {
    &&& forall|i: int, j: int| 0 <= i < j < tm.len() ==> #[trigger] tm[i].0 != #[trigger] tm[j].0
    &&& forall|i: int|
        0 <= i < tm.len() ==> #[trigger] reqs.contains_key(tm[i].0) && reqs[tm[i].0] == tm[i].1
    &&& forall|n: Seq<char>| #[trigger]
        reqs.contains_key(n) ==> exists|i: int| 0 <= i < tm.len() && tm[i].0 == n
}

spec fn table_model(t: Seq<(String, Vec<SemverReq>)>) -> Seq<(Seq<char>, Seq<Seq<char>>)> {
    t.map_values(|e: (String, Vec<SemverReq>)| (e.0@, req_models(e.1@)))
}

/// The state of a breadth-first resolution: the requirements gathered so far
/// for each name, the packages resolved so far (in the order resolved), the
/// names still to resolve, and the one being looked up.
pub struct Resolution {
    table: Vec<(String, Vec<SemverReq>)>,
    reqs: Ghost<Map<Seq<char>, Seq<Seq<char>>>>,
    roots: Ghost<Seq<(Seq<char>, Seq<char>)>>,
    keys: Vec<String>,
    resolved: Vec<ResolvedPackage>,
    queue: std::collections::VecDeque<QueueItem>,
    pending: Option<QueueItem>,
}

impl Resolution {
    /// The requirement texts gathered for each name.
    pub closed spec fn requirements(&self) -> Map<Seq<char>, Seq<Seq<char>>> {
        self.reqs@
    }

    /// The manifest's dependency entries that resolution started from.
    pub closed spec fn roots(&self) -> Seq<(Seq<char>, Seq<char>)> {
        self.roots@
    }

    /// The packages resolved so far, in the order resolved.
    pub closed spec fn resolved_packages(&self) -> Seq<ResolvedPackage> {
        self.resolved@
    }

    /// The names the packages were resolved under (the names asked for),
    /// in the same order.
    pub closed spec fn resolved_names(&self) -> Seq<Seq<char>> {
        views(self.keys@)
    }

    /// The name, depth and lookup of the package being looked up, if any.
    pub closed spec fn pending_request(&self) -> Option<(Seq<char>, usize, LookupModel)> {
        match self.pending {
            Some(p) => Some((p.name@, p.depth, lookup_for(crate::text::opt_view(p.source_spec)))),
            None => None,
        }
    }

    /// The names waiting to be resolved, in order.
    pub closed spec fn queue_items(&self) -> Seq<QueuedModel> {
        queue_model(self.queue@)
    }

    /// The name of the package being looked up.
    pub closed spec fn pending_name(&self) -> Seq<char> {
        self.pending->0.name@
    }

    /// How the package being looked up is to be found.
    pub closed spec fn pending_lookup(&self) -> LookupModel {
        lookup_for(crate::text::opt_view(self.pending->0.source_spec))
    }

    /// Nothing is left to look up.
    pub closed spec fn done(&self) -> bool {
        self.queue@.len() == 0 && self.pending is None
    }

    closed spec fn table_ok(&self) -> bool {
        table_inv(table_model(self.table@), self.reqs@)
    }

    closed spec fn resolved_ok(&self) -> bool {
        let rs = self.resolved@;
        let ns = views(self.keys@);
        &&& ns.len() == rs.len()
        &&& forall|i: int, j: int| 0 <= i < j < ns.len() ==> #[trigger] ns[i] != #[trigger] ns[j]
        &&& forall|i: int| 0 <= i < rs.len() ==> (#[trigger] rs[i]).package.wf()
        &&& forall|i: int|
            0 <= i < rs.len() ==> self.reqs@.contains_key(#[trigger] ns[i]) && satisfies_all(
                self.reqs@[ns[i]],
                rs[i].version(),
            )
    }

    closed spec fn deps_ok(&self, limit: int) -> bool {
        let rs = self.resolved@;
        &&& forall|i: int, k: int|
            0 <= i < rs.len() && 0 <= k < rs[i].deps().len() && (i < rs.len() - 1 || k < limit)
                ==> required(
                self.reqs@,
                #[trigger] rs[i].deps()[k].0,
                effective_requirement(rs[i].deps()[k].1),
            )
        &&& forall|k: int|
            0 <= k < self.roots@.len() ==> required(
                self.reqs@,
                #[trigger] self.roots@[k].0,
                effective_requirement(self.roots@[k].1),
            )
    }

    closed spec fn names_ok(&self) -> bool {
        let q = self.queue@;
        &&& forall|a: int| 0 <= a < q.len() ==> self.reqs@.contains_key(#[trigger] q[a].name@)
        &&& self.pending matches Some(p) ==> self.reqs@.contains_key(p.name@) && !is_resolved(
            views(self.keys@),
            p.name@,
        )
        &&& forall|n: Seq<char>| #[trigger]
            self.reqs@.contains_key(n) ==> is_resolved(views(self.keys@), n) || queued(q, n) || (
            self.pending matches Some(p) && p.name@ == n)
    }

    closed spec fn depth_ok(&self) -> bool {
        let rs = self.resolved@;
        let q = self.queue@;
        &&& forall|i: int, j: int| 0 <= i < j < rs.len() ==> #[trigger] rs[i].depth <= #[trigger] rs[j].depth
        &&& forall|a: int, b: int| 0 <= a < b < q.len() ==> #[trigger] q[a].depth <= #[trigger] q[b].depth
        &&& forall|i: int, a: int| 0 <= i < rs.len() && 0 <= a < q.len() ==> #[trigger] rs[i].depth <= #[trigger] q[a].depth
        &&& forall|a: int| 0 <= a < q.len() ==> #[trigger] q[a].depth <= rs.len()
        &&& self.pending is None ==> forall|a: int| 0 <= a < q.len() ==> #[trigger] q[a].depth <= q[0].depth + 1
        &&& self.pending matches Some(p) ==> {
            &&& p.depth <= rs.len()
            &&& forall|i: int| 0 <= i < rs.len() ==> #[trigger] rs[i].depth <= p.depth
            &&& forall|a: int| 0 <= a < q.len() ==> p.depth <= #[trigger] q[a].depth <= p.depth + 1
        }
    }

    closed spec fn bfs_ok(&self, limit: int) -> bool {
        let rs = self.resolved@;
        let ns = views(self.keys@);
        let q = self.queue@;
        let roots = self.roots@;
        &&& forall|i: int|
            #![trigger rs[i]]
            0 <= i < rs.len() ==> origin_ok(roots, rs, ns[i], rs[i].depth as int)
        &&& forall|a: int|
            #![trigger q[a]]
            0 <= a < q.len() ==> origin_ok(roots, rs, q[a].name@, q[a].depth as int)
        &&& self.pending matches Some(p) ==> origin_ok(roots, rs, p.name@, p.depth as int)
        &&& forall|k: int|
            #![trigger roots[k]]
            0 <= k < roots.len() ==> reached(ns, rs, q, self.pending, roots[k].0, 0)
        &&& forall|i: int, kk: int|
            #![trigger rs[i].deps()[kk]]
            0 <= i < rs.len() && 0 <= kk < rs[i].deps().len() && (i < rs.len() - 1 || kk < limit)
                ==> reached(ns, rs, q, self.pending, rs[i].deps()[kk].0, rs[i].depth + 1)
    }

    /// The state's invariant.
    pub closed spec fn wf(&self) -> bool {
        &&& self.table_ok()
        &&& self.resolved_ok()
        &&& self.deps_ok(
            if self.resolved@.len() > 0 {
                self.resolved@.last().deps().len() as int
            } else {
                0
            },
        )
        &&& self.names_ok()
        &&& self.depth_ok()
        &&& self.bfs_ok(
            if self.resolved@.len() > 0 {
                self.resolved@.last().deps().len() as int
            } else {
                0
            },
        )
    }

    /// Whether a package is being looked up.
    pub fn is_waiting(&self) -> (r: bool)
        ensures
            r == (self.pending_request() is Some),
    {
        self.pending.is_some()
    }

    /// Whether nothing is left to look up.
    pub fn is_done(&self) -> (r: bool)
        ensures
            r == self.done(),
    {
        self.pending.is_none() && self.queue.len() == 0
    }

    /// The index of the resolved package named `name`, if any.
    fn find_resolved(&self, name: &str) -> (r: Option<usize>)
        ensures
            r matches Some(i) ==> i < self.keys@.len() && views(self.keys@)[i as int] == name@,
            r is None ==> !is_resolved(views(self.keys@), name@),
    {
        let key = owned(name);
        let mut i: usize = 0;
        while i < self.keys.len()
            invariant
                i <= self.keys.len(),
                key@ == name@,
                forall|j: int| 0 <= j < i ==> #[trigger] views(self.keys@)[j] != name@,
            decreases self.keys.len() - i,
        {
            if self.keys[i] == key {
                return Some(i);
            }
            i = i + 1;
        }
        None
    }

    /// The index of `name` in the requirement table, if any.
    fn find_entry(&self, name: &str) -> (r: Option<usize>)
        requires
            self.table_ok(),
        ensures
            r matches Some(i) ==> i < self.table@.len() && table_model(self.table@)[i as int].0
                == name@,
            r is None ==> !self.reqs@.contains_key(name@),
    {
        let key = owned(name);
        let mut i: usize = 0;
        while i < self.table.len()
            invariant
                i <= self.table.len(),
                key@ == name@,
                forall|j: int| 0 <= j < i ==> #[trigger] table_model(self.table@)[j].0 != name@,
            decreases self.table.len() - i,
        {
            if self.table[i].0 == key {
                return Some(i);
            }
            i = i + 1;
        }
        None
    }

    /// Records one more requirement on `name`.
    #[verifier::spinoff_prover]
    #[verifier::rlimit(40)]
    fn add_requirement(&mut self, name: &str, q: SemverReq)
        requires
            old(self).table_ok(),
        ensures
            final(self).table_ok(),
            final(self).reqs@ == old(self).reqs@.insert(
                name@,
                (if old(self).reqs@.contains_key(name@) {
                    old(self).reqs@[name@]
                } else {
                    Seq::empty()
                }).push(q.model()),
            ),
            final(self).roots == old(self).roots,
            final(self).keys == old(self).keys,
            final(self).resolved == old(self).resolved,
            final(self).queue == old(self).queue,
            final(self).pending == old(self).pending,
    {
        let ghost qm = q.model();
        let ghost before = table_model(self.table@);
        match self.find_entry(name) {
            Some(i) => {
                let (n, mut list) = self.table.remove(i);
                let ghost old_list = req_models(list@);
                list.push(q);
                assert(req_models(list@) =~= old_list.push(qm));
                self.table.insert(i, (n, list));
                assert(table_model(self.table@) =~= before.update(i as int, (name@, old_list.push(qm))));
                self.reqs = Ghost(self.reqs@.insert(name@, old_list.push(qm)));
                let ghost tm = table_model(self.table@);
                let ghost rq = self.reqs@;
                assert forall|n2: Seq<char>| #[trigger] rq.contains_key(n2) implies exists|j: int|
                    0 <= j < tm.len() && tm[j].0 == n2 by {
                    if n2 != name@ {
                        let j = choose|j: int| 0 <= j < before.len() && before[j].0 == n2;
                        assert(tm[j].0 == n2);
                    } else {
                        assert(tm[i as int].0 == n2);
                    }
                }
                assert forall|a: int, b: int| 0 <= a < b < tm.len() implies #[trigger] tm[a].0
                    != #[trigger] tm[b].0 by {
                    assert(before[a].0 != before[b].0);
                }
                assert forall|a: int| 0 <= a < tm.len() implies #[trigger] rq.contains_key(
                    tm[a].0,
                ) && rq[tm[a].0] == tm[a].1 by {
                    if a != i {
                        assert(before[a].0 != before[i as int].0);
                        assert(old(self).reqs@.contains_key(before[a].0));
                        assert(old(self).reqs@[before[a].0] == before[a].1);
                    }
                }
                assert(table_inv(tm, rq));
            },
            None => {
                let mut list: Vec<SemverReq> = Vec::new();
                list.push(q);
                assert(req_models(list@) =~= Seq::<Seq<char>>::empty().push(qm));
                self.table.push((owned(name), list));
                assert(table_model(self.table@) =~= before.push((name@, Seq::<Seq<char>>::empty().push(qm))));
                self.reqs = Ghost(self.reqs@.insert(name@, Seq::<Seq<char>>::empty().push(qm)));
                let ghost tm = table_model(self.table@);
                let ghost rq = self.reqs@;
                assert forall|n2: Seq<char>| #[trigger] rq.contains_key(n2) implies exists|j: int|
                    0 <= j < tm.len() && tm[j].0 == n2 by {
                    if n2 != name@ {
                        let j = choose|j: int| 0 <= j < before.len() && before[j].0 == n2;
                        assert(tm[j].0 == n2);
                    } else {
                        assert(tm[before.len() as int].0 == n2);
                    }
                }
                assert forall|a: int, b: int| 0 <= a < b < tm.len() implies #[trigger] tm[a].0
                    != #[trigger] tm[b].0 by {
                    if b == before.len() {
                        assert(old(self).reqs@.contains_key(before[a].0));
                    } else {
                        assert(before[a].0 != before[b].0);
                    }
                }
                assert forall|a: int| 0 <= a < tm.len() implies #[trigger] rq.contains_key(
                    tm[a].0,
                ) && rq[tm[a].0] == tm[a].1 by {
                    if a < before.len() {
                        assert(old(self).reqs@.contains_key(before[a].0));
                    }
                }
                assert(table_inv(tm, rq));
            },
        }
    }
}

proof fn lemma_satisfies_push(s: Seq<Seq<char>>, t: Seq<char>, v: VersionModel)
    requires
        satisfies_all(s, v),
        semver_req_matches(t, v),
    ensures
        satisfies_all(s.push(t), v),
{
    assert forall|i: int| 0 <= i < s.push(t).len() implies #[trigger] semver_req_matches(
        s.push(t)[i],
        v,
    ) by {
        if i < s.len() {
            assert(s.push(t)[i] == s[i]);
        }
    }
}

impl Resolution {
    /// Starts resolving a manifest's dependencies: each one's requirement is
    /// recorded and its name queued at depth 0, with its text as source.
    /// Fails on the first dependency (in table order) whose requirement text
    /// does not parse.
    pub fn start(manifest: &crate::manifest::Manifest) -> (r: Result<Resolution, PkgError>)
        requires
            manifest.wf(),
        ensures
            r is Ok <==> forall|k: int|
                0 <= k < manifest.dependencies.pairs().len() ==> #[trigger] semver_req_parses(
                    effective_requirement(manifest.dependencies.pairs()[k].1),
                ),
            r matches Ok(st) ==> {
                &&& st.wf()
                &&& st.roots() == manifest.dependencies.pairs()
                &&& st.resolved_packages().len() == 0
                &&& st.resolved_names().len() == 0
                &&& st.pending_request() is None
                &&& st.requirements() == added_requirements(
                    Map::empty(),
                    manifest.dependencies.pairs(),
                )
                &&& st.queue_items() == root_queue(manifest.dependencies.pairs())
            },
            r matches Err(e) ==> exists|k: int|
                0 <= k < manifest.dependencies.pairs().len() && !semver_req_parses(
                    effective_requirement(#[trigger] manifest.dependencies.pairs()[k].1),
                ) && (forall|j: int|
                    0 <= j < k ==> semver_req_parses(
                        effective_requirement(#[trigger] manifest.dependencies.pairs()[j].1),
                    )) && (e matches PkgError::InvalidRequirement(t, _) && t@ == effective_requirement(
                    manifest.dependencies.pairs()[k].1,
                )),
    {
        let deps = &manifest.dependencies;
        let ghost roots = deps.pairs();
        let mut st = Resolution {
            table: Vec::new(),
            reqs: Ghost(Map::empty()),
            roots: Ghost(roots),
            keys: Vec::new(),
            resolved: Vec::new(),
            queue: std::collections::VecDeque::new(),
            pending: None,
        };
        assert(table_model(st.table@) =~= Seq::empty());
        assert(roots.take(0) =~= Seq::empty());
        assert(queue_model(st.queue@) =~= root_queue(roots.take(0)));
        let n = deps.len();
        let mut i: usize = 0;
        while i < n
            invariant
                n == roots.len(),
                roots == deps.pairs(),
                roots == manifest.dependencies.pairs(),
                i <= n,
                st.table_ok(),
                st.roots@ == roots,
                st.resolved@.len() == 0,
                st.keys@.len() == 0,
                st.pending is None,
                forall|a: int| 0 <= a < st.queue@.len() ==> (#[trigger] st.queue@[a]).depth == 0,
                forall|a: int| 0 <= a < st.queue@.len() ==> st.reqs@.contains_key(#[trigger] st.queue@[a].name@),
                forall|m: Seq<char>| #[trigger] st.reqs@.contains_key(m) ==> queued(st.queue@, m),
                forall|k: int| 0 <= k < i ==> required(
                    st.reqs@,
                    #[trigger] roots[k].0,
                    effective_requirement(roots[k].1),
                ),
                forall|k: int| 0 <= k < i ==> #[trigger] semver_req_parses(
                    effective_requirement(roots[k].1),
                ),
                st.reqs@ == added_requirements(Map::empty(), roots.take(i as int)),
                queue_model(st.queue@) == root_queue(roots.take(i as int)),
            decreases n - i,
        {
            let name = deps.name_at(i);
            let spec = deps.requirement_at(i);
            let q = match parse_version_req(spec.as_str()) {
                Ok(q) => q,
                Err(e) => {
                    assert(spec@ == roots[i as int].1);
                    assert(!semver_req_parses(effective_requirement(manifest.dependencies.pairs()[i as int].1)));
                    return Err(e);
                },
            };
            let ghost t = q.model();
            let ghost reqs0 = st.reqs@;
            let ghost q0 = st.queue@;
            st.add_requirement(name.as_str(), q);
            let ghost s1 = st;
            assert(s1.table_ok());
            st.queue.push_back(QueueItem { name: name.clone(), depth: 0, source_spec: Some(spec.clone()) });
            assert(st.table == s1.table && st.reqs == s1.reqs);
            assert(roots.take(i + 1).drop_last() =~= roots.take(i as int));
            assert(roots.take(i + 1).last() == roots[i as int]);
            assert(st.reqs@ =~= added_requirements(Map::empty(), roots.take(i + 1)));
            assert(st.queue@ == q0.push(st.queue@[q0.len() as int]));
            assert(queue_model(st.queue@) =~= queue_model(q0).push((name@, 0usize, Some(spec@))));
            assert(root_queue(roots.take(i + 1)) =~= root_queue(roots.take(i as int)).push(
                (name@, 0usize, Some(spec@)),
            ));
            assert(queue_model(st.queue@) =~= root_queue(roots.take(i + 1)));
            assert(st.table_ok());
            assert(st.queue@[q0.len() as int].name@ == name@);
            assert forall|k: int| 0 <= k < i + 1 implies required(
                st.reqs@,
                #[trigger] roots[k].0,
                effective_requirement(roots[k].1),
            ) by {
                if k < i {
                    assert(required(reqs0, roots[k].0, effective_requirement(roots[k].1)));
                    let s0 = reqs0[roots[k].0];
                    let w = choose|w: int| 0 <= w < s0.len() && s0[w] == effective_requirement(roots[k].1);
                    if roots[k].0 == name@ {
                        assert(st.reqs@[roots[k].0][w] == s0[w]);
                    }
                } else {
                    let s1 = st.reqs@[name@];
                    assert(s1[s1.len() - 1] == t);
                }
            }
            assert forall|m: Seq<char>| #[trigger] st.reqs@.contains_key(m) implies queued(st.queue@, m) by {
                if m == name@ {
                    assert(st.queue@[q0.len() as int].name@ == m);
                } else {
                    assert(reqs0.contains_key(m));
                    let a = choose|a: int| 0 <= a < q0.len() && #[trigger] q0[a].name@ == m;
                    assert(st.queue@[a] == q0[a]);
                }
            }
            assert forall|a: int| 0 <= a < st.queue@.len() implies st.reqs@.contains_key(#[trigger] st.queue@[a].name@) by {
                if a < q0.len() {
                    assert(st.queue@[a] == q0[a]);
                    assert(reqs0.contains_key(q0[a].name@));
                }
            }
            i = i + 1;
        }
        assert(views(st.keys@) =~= Seq::empty());
        assert(roots.take(n as int) =~= roots);
        assert(st.deps_ok(0));
        assert(st.depth_ok());
        assert(st.bfs_ok(0)) by {
            let q = st.queue@;
            assert forall|a: int| 0 <= a < q.len() implies q[a].name@ == roots[a].0 && q[a].depth
                == 0 by {
                assert(queue_model(q)[a] == root_queue(roots)[a]);
            }
            assert forall|a: int|
                #![trigger q[a]]
                0 <= a < q.len() implies origin_ok(roots, st.resolved@, q[a].name@, q[a].depth as int) by {
                assert(roots[a].0 == q[a].name@);
            }
            assert forall|k: int|
                #![trigger roots[k]]
                0 <= k < roots.len() implies reached(
                views(st.keys@),
                st.resolved@,
                q,
                st.pending,
                roots[k].0,
                0,
            ) by {
                assert(q[k].name@ == roots[k].0);
            }
        }
        Ok(st)
    }

    /// Takes the next queued package that is not resolved yet and says how to
    /// look it up; `None` when nothing is left.
    #[verifier::spinoff_prover]
    #[verifier::rlimit(40)]
    pub fn next_request(&mut self) -> (r: Option<Request>)
        requires
            old(self).wf(),
            old(self).pending_request() is None,
        ensures
            final(self).wf(),
            final(self).roots() == old(self).roots(),
            final(self).requirements() == old(self).requirements(),
            final(self).resolved_packages() == old(self).resolved_packages(),
            final(self).resolved_names() == old(self).resolved_names(),
            r is None <==> final(self).done(),
            r is None ==> first_unresolved(old(self).queue_items(), old(self).resolved_names())
                == old(self).queue_items().len(),
            r matches Some(q) ==> {
                let k = first_unresolved(old(self).queue_items(), old(self).resolved_names());
                &&& 0 <= k < old(self).queue_items().len()
                &&& q.name@ == old(self).queue_items()[k].0
                &&& q.depth == old(self).queue_items()[k].1
                &&& q.lookup.model() == lookup_for(old(self).queue_items()[k].2)
                &&& final(self).queue_items() == old(self).queue_items().skip(k + 1)
                &&& final(self).pending_request() == Some((q.name@, q.depth, q.lookup.model()))
                &&& old(self).requirements().contains_key(q.name@)
                &&& !is_resolved(old(self).resolved_names(), q.name@)
            },
    {
        let ghost oq = queue_model(self.queue@);
        let ghost names = views(self.keys@);
        let ghost mut c: int = 0;
        assert(oq.skip(0) =~= oq);
        loop
            invariant
                self.wf(),
                self.pending is None,
                self.roots == old(self).roots,
                self.reqs == old(self).reqs,
                self.resolved == old(self).resolved,
                self.keys == old(self).keys,
                oq == queue_model(old(self).queue@),
                names == views(old(self).keys@),
                0 <= c <= oq.len(),
                queue_model(self.queue@) == oq.skip(c),
                first_unresolved(oq, names) == c + first_unresolved(queue_model(self.queue@), names),
            decreases self.queue@.len(),
        {
            let ghost q0 = self.queue@;
            let ghost s0 = *self;
            assert(s0.table_ok());
            match self.queue.pop_front() {
                None => {
                    assert(queue_model(q0) =~= Seq::empty());
                    return None;
                },
                Some(item) => {
                    assert(self.queue@ =~= q0.subrange(1, q0.len() as int));
                    assert forall|a: int| 0 <= a < self.queue@.len() implies self.queue@[a] == q0[a + 1] by {}
                    assert(self.reqs@.contains_key(q0[0].name@));
                    assert(queue_model(q0)[0] == oq[c]);
                    assert(queue_model(self.queue@) =~= queue_model(q0).drop_first());
                    assert(oq.skip(c).drop_first() =~= oq.skip(c + 1));
                    assert(queue_model(self.queue@) == oq.skip(c + 1));
                    if self.find_resolved(item.name.as_str()).is_some() {
                        proof {
                            c = c + 1;
                        }
                        assert forall|m: Seq<char>| #[trigger] self.reqs@.contains_key(m) implies is_resolved(views(self.keys@), m) || queued(self.queue@, m) by {
                            if !is_resolved(views(self.keys@), m) {
                                let a = choose|a: int| 0 <= a < q0.len() && #[trigger] q0[a].name@ == m;
                                if a > 0 {
                                    assert(self.queue@[a - 1].name@ == m);
                                }
                            }
                        }
                        assert(self.names_ok());
                        assert(self.depth_ok());
                        proof {
                            self.lemma_pop_keeps_bfs(s0, if self.resolved@.len() > 0 {
                                self.resolved@.last().deps().len() as int
                            } else {
                                0
                            });
                        }
                    } else {
                        assert(first_unresolved(queue_model(q0), names) == 0);
                        let req = Request {
                            name: item.name.clone(),
                            depth: item.depth,
                            lookup: classify_source(&item.source_spec),
                        };
                        self.pending = Some(item);
                        assert forall|m: Seq<char>| #[trigger] self.reqs@.contains_key(m) implies is_resolved(views(self.keys@), m) || queued(self.queue@, m) || (self.pending matches Some(p) && p.name@ == m) by {
                            if !is_resolved(views(self.keys@), m) && m != q0[0].name@ {
                                let a = choose|a: int| 0 <= a < q0.len() && #[trigger] q0[a].name@ == m;
                                assert(a > 0);
                                assert(self.queue@[a - 1].name@ == m);
                            }
                        }
                        assert(self.names_ok());
                        assert(self.depth_ok());
                        proof {
                            self.lemma_pop_keeps_bfs(s0, if self.resolved@.len() > 0 {
                                self.resolved@.last().deps().len() as int
                            } else {
                                0
                            });
                        }
                        assert(self.table == s0.table);
                        assert(self.reqs == s0.reqs);
                        assert(self.table_ok());
                        assert(self.resolved_ok());
                        assert(self.deps_ok(
                            if self.resolved@.len() > 0 {
                                self.resolved@.last().deps().len() as int
                            } else {
                                0
                            },
                        ));
                        return Some(req);
                    }
                },
            }
        }
    }
}

impl Resolution {
    /// Taking the first queued name, either to look it up or because it is
    /// resolved already, keeps what is known of origins and depths.
    proof fn lemma_pop_keeps_bfs(&self, s0: Resolution, lim: int)
        requires
            s0.bfs_ok(lim),
            s0.depth_ok(),
            views(s0.keys@).len() == s0.resolved@.len(),
            s0.pending is None,
            self.resolved == s0.resolved,
            self.keys == s0.keys,
            self.roots == s0.roots,
            s0.queue@.len() > 0,
            self.queue@ == s0.queue@.drop_first(),
            self.pending == Some(s0.queue@[0]) || (self.pending is None && is_resolved(
                views(s0.keys@),
                s0.queue@[0].name@,
            )),
        ensures
            self.bfs_ok(lim),
    {
        let rs = self.resolved@;
        let ns = views(self.keys@);
        let q0 = s0.queue@;
        let q = self.queue@;
        assert forall|n: Seq<char>, b: int| reached(ns, rs, q0, None, n, b) implies #[trigger] reached(
            ns,
            rs,
            q,
            self.pending,
            n,
            b,
        ) by {
            if !(exists|i: int| 0 <= i < rs.len() && 0 <= i < ns.len() && #[trigger] ns[i] == n && rs[i].depth <= b) {
                let a = choose|a: int| 0 <= a < q0.len() && #[trigger] q0[a].name@ == n && q0[a].depth <= b;
                if a > 0 {
                    assert(q[a - 1] == q0[a]);
                } else if self.pending is None {
                    let i = choose|i: int| 0 <= i < ns.len() && #[trigger] ns[i] == n;
                    assert(rs[i].depth <= q0[0].depth);
                    assert(0 <= i < rs.len() && 0 <= i < ns.len() && ns[i] == n && rs[i].depth <= b);
                }
            }
        }
        assert forall|a: int|
            #![trigger q[a]]
            0 <= a < q.len() implies origin_ok(self.roots@, rs, q[a].name@, q[a].depth as int) by {
            assert(q[a] == q0[a + 1]);
        }
        assert(self.pending matches Some(p) ==> origin_ok(self.roots@, rs, p.name@, p.depth as int));
        assert forall|k: int|
            #![trigger self.roots@[k]]
            0 <= k < self.roots@.len() implies reached(ns, rs, q, self.pending, self.roots@[k].0, 0) by {
            assert(reached(ns, rs, q0, None, self.roots@[k].0, 0));
        }
        assert forall|i: int, kk: int|
            #![trigger rs[i].deps()[kk]]
            0 <= i < rs.len() && 0 <= kk < rs[i].deps().len() && (i < rs.len() - 1 || kk < lim)
                implies reached(ns, rs, q, self.pending, rs[i].deps()[kk].0, rs[i].depth + 1) by {
            assert(reached(ns, rs, q0, None, rs[i].deps()[kk].0, rs[i].depth + 1));
        }
    }
}

impl Resolution {
    /// Recording the pending name as resolved keeps what is known of origins
    /// and depths (none of its dependency entries handled yet).
    proof fn lemma_record_keeps_bfs(&self, s0: Resolution)
        requires
            s0.bfs_ok(
                if s0.resolved@.len() > 0 {
                    s0.resolved@.last().deps().len() as int
                } else {
                    0
                },
            ),
            views(s0.keys@).len() == s0.resolved@.len(),
            s0.pending is Some,
            self.pending is None,
            self.roots == s0.roots,
            self.queue == s0.queue,
            self.resolved@.len() == s0.resolved@.len() + 1,
            forall|j: int| 0 <= j < s0.resolved@.len() ==> self.resolved@[j] == s0.resolved@[j],
            self.resolved@.last().depth == s0.pending->0.depth,
            views(self.keys@) == views(s0.keys@).push(s0.pending->0.name@),
        ensures
            self.bfs_ok(0),
    {
        let rs0 = s0.resolved@;
        let ns0 = views(s0.keys@);
        let rs = self.resolved@;
        let ns = views(self.keys@);
        let q = self.queue@;
        let p = s0.pending->0;
        let roots = self.roots@;
        assert forall|n: Seq<char>, b: int| reached(ns0, rs0, q, s0.pending, n, b) implies #[trigger] reached(
            ns,
            rs,
            q,
            None,
            n,
            b,
        ) by {
            if exists|i: int| 0 <= i < rs0.len() && 0 <= i < ns0.len() && #[trigger] ns0[i] == n && rs0[i].depth <= b {
                let i = choose|i: int| 0 <= i < rs0.len() && 0 <= i < ns0.len() && #[trigger] ns0[i] == n && rs0[i].depth <= b;
                assert(ns[i] == ns0[i]);
                assert(rs[i] == rs0[i]);
            } else if !(exists|a: int| 0 <= a < q.len() && #[trigger] q[a].name@ == n && q[a].depth <= b) {
                let l = rs0.len() as int;
                assert(ns[l] == n);
                assert(rs[l].depth <= b);
            }
        }
        assert forall|i: int|
            #![trigger rs[i]]
            0 <= i < rs.len() implies origin_ok(roots, rs, ns[i], rs[i].depth as int) by {
            if i < rs0.len() {
                assert(rs[i] == rs0[i]);
                assert(ns[i] == ns0[i]);
                assert(origin_ok(roots, rs0, ns0[i], rs0[i].depth as int));
                lemma_origin_grows(roots, rs0, rs, ns[i], rs[i].depth as int);
            } else {
                lemma_origin_grows(roots, rs0, rs, p.name@, p.depth as int);
            }
        }
        assert forall|a: int|
            #![trigger q[a]]
            0 <= a < q.len() implies origin_ok(roots, rs, q[a].name@, q[a].depth as int) by {
            lemma_origin_grows(roots, rs0, rs, q[a].name@, q[a].depth as int);
        }
        assert forall|k: int|
            #![trigger roots[k]]
            0 <= k < roots.len() implies reached(ns, rs, q, None, roots[k].0, 0) by {
            assert(reached(ns0, rs0, q, s0.pending, roots[k].0, 0));
        }
        assert forall|i: int, kk: int|
            #![trigger rs[i].deps()[kk]]
            0 <= i < rs.len() && 0 <= kk < rs[i].deps().len() && (i < rs.len() - 1 || kk < 0)
                implies reached(ns, rs, q, None, rs[i].deps()[kk].0, rs[i].depth + 1) by {
            assert(rs[i] == rs0[i]);
            assert(rs0[i].deps()[kk] == rs[i].deps()[kk]);
            assert(reached(ns0, rs0, q, s0.pending, rs0[i].deps()[kk].0, rs0[i].depth + 1));
        }
    }
}

impl Resolution {
    /// Handling dependency entry `k` of the last resolved package (queuing
    /// its name one level deeper unless it is resolved) keeps what is known
    /// of origins and depths, now for the first `k + 1` entries.
    #[verifier::spinoff_prover]
    #[verifier::rlimit(40)]
    proof fn lemma_step_keeps_bfs(&self, s1: Resolution, dn: Seq<char>, k: int, d: usize, pushed: bool)
        requires
            s1.bfs_ok(k),
            s1.resolved_ok(),
            s1.depth_ok(),
            s1.pending is None,
            self.keys == s1.keys,
            self.resolved == s1.resolved,
            self.roots == s1.roots,
            self.pending is None,
            s1.resolved@.len() > 0,
            0 <= k < s1.resolved@.last().deps().len(),
            s1.resolved@.last().deps()[k].0 == dn,
            s1.resolved@.last().depth == d,
            pushed ==> {
                &&& self.queue@.len() == s1.queue@.len() + 1
                &&& forall|a: int| 0 <= a < s1.queue@.len() ==> self.queue@[a] == s1.queue@[a]
                &&& self.queue@.last().name@ == dn
                &&& self.queue@.last().depth == d + 1
            },
            !pushed ==> self.queue == s1.queue && is_resolved(views(s1.keys@), dn),
        ensures
            self.bfs_ok(k + 1),
    {
        let rs = self.resolved@;
        let ns = views(self.keys@);
        let q1 = s1.queue@;
        let q = self.queue@;
        let roots = self.roots@;
        let l = rs.len() - 1;
        assert forall|n: Seq<char>, b: int| reached(ns, rs, q1, None, n, b) implies #[trigger] reached(
            ns,
            rs,
            q,
            None,
            n,
            b,
        ) by {
            if !(exists|i: int| 0 <= i < rs.len() && 0 <= i < ns.len() && #[trigger] ns[i] == n && rs[i].depth <= b) {
                let a = choose|a: int| 0 <= a < q1.len() && #[trigger] q1[a].name@ == n && q1[a].depth <= b;
                assert(q[a] == q1[a]);
            }
        }
        assert forall|a: int|
            #![trigger q[a]]
            0 <= a < q.len() implies origin_ok(roots, rs, q[a].name@, q[a].depth as int) by {
            if a < q1.len() {
                assert(q[a] == q1[a]);
            } else {
                assert(rs[l].deps()[k].0 == dn);
                assert(names_entry(rs[l].deps(), dn));
                assert(spawns(rs, l, dn, q[a].depth as int));
            }
        }
        assert forall|kk: int|
            #![trigger roots[kk]]
            0 <= kk < roots.len() implies reached(ns, rs, q, None, roots[kk].0, 0) by {
            assert(reached(ns, rs, q1, None, roots[kk].0, 0));
        }
        assert forall|i: int, kk: int|
            #![trigger rs[i].deps()[kk]]
            0 <= i < rs.len() && 0 <= kk < rs[i].deps().len() && (i < rs.len() - 1 || kk < k + 1)
                implies reached(ns, rs, q, None, rs[i].deps()[kk].0, rs[i].depth + 1) by {
            if i == l && kk == k {
                if pushed {
                    let a = q.len() - 1;
                    assert(q[a].name@ == dn && q[a].depth <= rs[i].depth + 1);
                } else {
                    let j = choose|j: int| 0 <= j < ns.len() && #[trigger] ns[j] == dn;
                    if j < l {
                        assert(rs[j].depth <= rs[l].depth);
                    }
                    assert(0 <= j < rs.len() && 0 <= j < ns.len() && ns[j] == dn && rs[j].depth
                        <= rs[i].depth + 1);
                }
            } else {
                assert(reached(ns, rs, q1, None, rs[i].deps()[kk].0, rs[i].depth + 1));
            }
        }
    }
}

/// The dependency entry `dep` of a package being resolved cannot be
/// accepted: its requirement text does not parse, or a package already
/// resolved under its name does not meet its requirement.
pub open spec fn dep_conflict(
    names: Seq<Seq<char>>,
    rs: Seq<ResolvedPackage>,
    dep: (Seq<char>, Seq<char>),
) -> bool {
    ||| !semver_req_parses(effective_requirement(dep.1))
    ||| exists|j: int|
        0 <= j < names.len() && #[trigger] names[j] == dep.0 && !semver_req_matches(
            effective_requirement(dep.1),
            rs[j].version(),
        )
}

/// How entry `dep` of a package's dependency entries makes resolution fail,
/// given the names and packages resolved once the package is added.
pub open spec fn conflict_reported(
    e: PkgError,
    requester: Seq<char>,
    names: Seq<Seq<char>>,
    rs: Seq<ResolvedPackage>,
    dep: (Seq<char>, Seq<char>),
) -> bool {
    let t = effective_requirement(dep.1);
    match e {
        PkgError::InvalidRequirement(shown, _) => !semver_req_parses(t) && shown@ == t,
        PkgError::VersionConflict(a, b, c, v) => {
            &&& semver_req_parses(t)
            &&& a@ == requester
            &&& b@ == dep.0
            &&& c@ == semver_req_display(t)
            &&& exists|j: int|
                0 <= j < names.len() && #[trigger] names[j] == dep.0 && !semver_req_matches(
                    t,
                    rs[j].version(),
                ) && v@ == version_text(rs[j].version())
        },
        _ => false,
    }
}

/// How resolution fails on a package's dependency entries, given the names
/// and packages resolved once it is added: on the first entry (in order)
/// that conflicts.
pub open spec fn conflict_error(
    e: PkgError,
    requester: Seq<char>,
    names: Seq<Seq<char>>,
    rs: Seq<ResolvedPackage>,
    deps: Seq<(Seq<char>, Seq<char>)>,
) -> bool {
    exists|k: int|
        0 <= k < deps.len() && #[trigger] dep_conflict(names, rs, deps[k]) && (forall|j: int|
            0 <= j < k ==> !#[trigger] dep_conflict(names, rs, deps[j])) && conflict_reported(
            e,
            requester,
            names,
            rs,
            deps[k],
        )
}

impl Resolution {
    /// Records `package` as resolved for the pending name, then gathers the
    /// requirements of its dependencies: a dependency already resolved must
    /// be met by its version, any other is queued one level deeper.
    #[verifier::spinoff_prover]
    #[verifier::rlimit(40)]
    fn record(&mut self, package: Package) -> (r: Result<(), PkgError>)
        requires
            old(self).wf(),
            old(self).pending is Some,
            package.wf(),
            satisfies_all(old(self).reqs@[old(self).pending->0.name@], package.version.model()),
        ensures
            final(self).roots@ == old(self).roots@,
            r is Ok ==> final(self).wf() && final(self).pending is None,
            r is Ok ==> final(self).resolved@ == old(self).resolved@.push(
                ResolvedPackage { package: package, depth: old(self).pending->0.depth },
            ),
            r is Ok ==> views(final(self).keys@) == views(old(self).keys@).push(
                old(self).pending->0.name@,
            ),
            r is Ok ==> final(self).reqs@ == added_requirements(
                old(self).reqs@,
                package.dependencies.pairs(),
            ),
            r is Ok ==> queue_model(final(self).queue@) == queue_model(old(self).queue@) + queued_deps(
                views(old(self).keys@).push(old(self).pending->0.name@),
                package.dependencies.pairs(),
                old(self).pending->0.depth as int,
            ),
            r is Ok <==> forall|k: int|
                0 <= k < package.dependencies.pairs().len() ==> !dep_conflict(
                    views(old(self).keys@).push(old(self).pending->0.name@),
                    old(self).resolved@.push(
                        ResolvedPackage { package: package, depth: old(self).pending->0.depth },
                    ),
                    #[trigger] package.dependencies.pairs()[k],
                ),
            r matches Err(e) ==> conflict_error(
                e,
                old(self).pending->0.name@,
                views(old(self).keys@).push(old(self).pending->0.name@),
                old(self).resolved@.push(
                    ResolvedPackage { package: package, depth: old(self).pending->0.depth },
                ),
                package.dependencies.pairs(),
            ),
    {
        let ghost roots0 = self.roots@;
        let item = self.pending.take().unwrap();
        assert(self.roots@ == roots0);
        let ghost p = item;
        let d = item.depth;
        let deps = package.dependencies.clone();
        let ghost s0 = *old(self);
        let ghost rp = ResolvedPackage { package: package, depth: d };
        let ghost names1 = views(s0.keys@).push(p.name@);
        let ghost rs1 = s0.resolved@.push(rp);
        self.keys.push(item.name.clone());
        self.resolved.push(ResolvedPackage { package, depth: d });
        assert(views(self.keys@) =~= names1);
        assert(self.resolved@ == rs1);
        assert(self.roots@ == roots0);
        let total = self.resolved.len();
        // the state with the package recorded and none of its dependencies handled
        assert(self.table_ok()) by {
            assert(self.table == s0.table && self.reqs == s0.reqs);
        }
        assert(self.resolved_ok()) by {
            assert(s0.resolved_ok());
            assert forall|i: int, j: int| 0 <= i < j < names1.len() implies #[trigger] names1[i]
                != #[trigger] names1[j] by {
                if j == names1.len() - 1 {
                    assert(views(s0.keys@)[i] == names1[i]);
                } else {
                    assert(views(s0.keys@)[i] != views(s0.keys@)[j]);
                }
            }
            assert forall|i: int| 0 <= i < rs1.len() implies self.reqs@.contains_key(
                #[trigger] names1[i],
            ) && satisfies_all(self.reqs@[names1[i]], rs1[i].version()) by {
                if i < s0.resolved@.len() {
                    assert(names1[i] == views(s0.keys@)[i]);
                    assert(self.reqs@.contains_key(views(s0.keys@)[i]));
                }
            }
            assert forall|i: int| 0 <= i < rs1.len() implies (#[trigger] rs1[i]).package.wf() by {
                if i < s0.resolved@.len() {
                    assert(s0.resolved@[i] == rs1[i]);
                }
            }
        }
        assert(self.deps_ok(0)) by {
            let lim0 = if s0.resolved@.len() > 0 {
                s0.resolved@.last().deps().len() as int
            } else {
                0
            };
            assert(s0.deps_ok(lim0));
            assert forall|i: int, k: int|
                0 <= i < rs1.len() && 0 <= k < rs1[i].deps().len() && (i < rs1.len() - 1 || k < 0)
                    implies required(
                self.reqs@,
                #[trigger] rs1[i].deps()[k].0,
                effective_requirement(rs1[i].deps()[k].1),
            ) by {
                assert(rs1[i] == s0.resolved@[i]);
                assert(s0.resolved@[i].deps()[k] == rs1[i].deps()[k]);
            }
        }
        assert(self.names_ok()) by {
            assert(s0.names_ok());
            assert forall|n: Seq<char>| #[trigger] self.reqs@.contains_key(n) implies is_resolved(
                views(self.keys@),
                n,
            ) || queued(self.queue@, n) || (self.pending matches Some(pp) && pp.name@ == n) by {
                if n == p.name@ {
                    assert(names1[names1.len() - 1] == n);
                } else if is_resolved(views(s0.keys@), n) {
                    let j = choose|j: int| 0 <= j < views(s0.keys@).len() && #[trigger] views(s0.keys@)[j] == n;
                    assert(names1[j] == n);
                }
            }
        }
        assert(self.depth_ok()) by {
            assert(s0.depth_ok());
            let q = self.queue@;
            assert forall|i: int, j: int| 0 <= i < j < rs1.len() implies #[trigger] rs1[i].depth
                <= #[trigger] rs1[j].depth by {
                if j < rs1.len() - 1 {
                    assert(s0.resolved@[i].depth <= s0.resolved@[j].depth);
                } else {
                    assert(s0.resolved@[i].depth <= d);
                }
            }
            assert forall|i: int, a: int| 0 <= i < rs1.len() && 0 <= a < q.len() implies #[trigger] rs1[i].depth
                <= #[trigger] q[a].depth by {
                if i < rs1.len() - 1 {
                    assert(s0.resolved@[i].depth <= q[a].depth);
                } else {
                    assert(d <= q[a].depth);
                }
            }
            assert forall|a: int| 0 <= a < q.len() implies #[trigger] q[a].depth <= q[0].depth + 1 by {
                assert(d <= q[0].depth);
                assert(q[a].depth <= d + 1);
            }
            assert forall|a: int| 0 <= a < q.len() implies #[trigger] q[a].depth <= rs1.len() by {
                assert(q[a].depth <= s0.resolved@.len());
            }
        }
        proof {
            self.lemma_record_keeps_bfs(s0);
        }
        let n = deps.len();
        let mut i: usize = 0;
        assert(deps.pairs() == rp.deps());
        assert(self.roots == s0.roots);
        assert(rs1.last() == rp);
        assert(deps.pairs().take(0) =~= Seq::empty());
        assert(queue_model(self.queue@) =~= queue_model(s0.queue@) + Seq::empty());
        while i < n
            invariant
                n == deps.pairs().len(),
                deps.pairs() == rp.deps(),
                rp.package == package,
                rp.depth == d,
                p == old(self).pending->0,
                item == p,
                names1 == views(old(self).keys@).push(old(self).pending->0.name@),
                rs1 == old(self).resolved@.push(rp),
                rp == (ResolvedPackage { package: package, depth: old(self).pending->0.depth }),
                deps.wf(),
                i <= n,
                d == p.depth,
                d <= s0.resolved@.len(),
                self.pending is None,
                self.roots == s0.roots,
                self.roots@ == roots0,
                roots0 == old(self).roots@,
                views(self.keys@) == names1,
                self.resolved@ == rs1,
                total == rs1.len(),
                rs1.len() == s0.resolved@.len() + 1,
                names1.len() == rs1.len(),
                rs1.last() == rp,
                self.table_ok(),
                self.resolved_ok(),
                self.deps_ok(i as int),
                self.bfs_ok(i as int),
                self.names_ok(),
                self.depth_ok(),
                forall|a: int| 0 <= a < self.queue@.len() ==> d <= #[trigger] self.queue@[a].depth <= d + 1,
                forall|k: int| 0 <= k < i ==> !dep_conflict(names1, rs1, #[trigger] deps.pairs()[k]),
                self.reqs@ == added_requirements(s0.reqs@, deps.pairs().take(i as int)),
                queue_model(self.queue@) == queue_model(s0.queue@) + queued_deps(
                    names1,
                    deps.pairs().take(i as int),
                    d as int,
                ),
            decreases n - i,
        {
            let dn = deps.name_at(i);
            let spec = deps.requirement_at(i);
            let ghost dep = deps.pairs()[i as int];
            let q = match parse_version_req(spec.as_str()) {
                Ok(q) => q,
                Err(e) => {
                    assert(dep_conflict(names1, rs1, dep));
                    assert(package.dependencies.pairs()[i as int] == dep);
                    assert(!semver_req_parses(effective_requirement(deps.pairs()[i as int].1)));
                    assert(self.roots@ == roots0);
                    assert(self.roots@ == old(self).roots@);
                    return Err(e);
                },
            };
            let ghost t = q.model();
            let ghost s1 = *self;
            self.add_requirement(dn.as_str(), q.clone());
            let ghost s2 = *self;
            let ghost pre = deps.pairs().take(i as int);
            let ghost post = deps.pairs().take(i + 1);
            assert(post.drop_last() =~= pre);
            assert(post.last() == dep);
            assert(self.reqs@ =~= added_requirements(s0.reqs@, post));
            match self.find_resolved(dn.as_str()) {
                Some(j) => {
                    if !q.matches(&self.resolved[j].package.version) {
                        let shown = self.resolved[j].package.version.to_text();
                        let req_shown = q.to_text();
                        assert(dep_conflict(names1, rs1, dep));
                        assert(package.dependencies.pairs()[i as int] == dep);
                        assert(names1[j as int] == dep.0);
                        assert(rs1[j as int] == self.resolved@[j as int]);
                        assert(self.roots@ == roots0);
                        assert(package.dependencies.pairs()[i as int].0 == dn@);
                        assert(q.model() == effective_requirement(package.dependencies.pairs()[i as int].1));
                        assert(semver_req_parses(q.model()));
                        assert(!semver_req_matches(q.model(), rs1[j as int].version()));
                        assert(shown@ == version_text(rs1[j as int].version()));
                        assert(item.name@ == old(self).pending->0.name@);
                        return Err(
                            PkgError::VersionConflict(
                                item.name.clone(),
                                dn.clone(),
                                req_shown,
                                shown,
                            ),
                        );
                    }
                    assert(!dep_conflict(names1, rs1, dep)) by {
                        if exists|j2: int|
                            0 <= j2 < names1.len() && #[trigger] names1[j2] == dep.0 && !semver_req_matches(
                                effective_requirement(dep.1),
                                rs1[j2].version(),
                            ) {
                            let j2 = choose|j2: int|
                                0 <= j2 < names1.len() && #[trigger] names1[j2] == dep.0 && !semver_req_matches(
                                    effective_requirement(dep.1),
                                    rs1[j2].version(),
                                );
                            assert(j2 == j);
                        }
                    }
                    proof {
                        self.lemma_requirement_step(s1, dn@, t, i as int, d, false);
                        assert(is_resolved(views(s1.keys@), dn@)) by {
                            assert(views(s1.keys@)[j as int] == dn@);
                        }
                        self.lemma_step_keeps_bfs(s1, dn@, i as int, d, false);
                        assert(is_resolved(names1, dep.0));
                        assert(queued_deps(names1, post, d as int) =~= queued_deps(names1, pre, d as int));
                    }
                },
                None => {
                    assert(!dep_conflict(names1, rs1, dep));
                    self.queue.push_back(QueueItem { name: dn.clone(), depth: d + 1, source_spec: None });
                    proof {
                        self.lemma_requirement_step(s1, dn@, t, i as int, d, true);
                        self.lemma_step_keeps_bfs(s1, dn@, i as int, d, true);
                        assert(queued_deps(names1, post, d as int) =~= queued_deps(names1, pre, d as int)
                            + seq![(dep.0, (d + 1) as usize, None::<Seq<char>>)]);
                        assert(queue_model(self.queue@) =~= queue_model(s1.queue@).push(
                            (dep.0, (d + 1) as usize, None::<Seq<char>>),
                        ));
                        assert(queue_model(self.queue@) =~= queue_model(s0.queue@) + queued_deps(
                            names1,
                            post,
                            d as int,
                        ));
                    }
                },
            }
            i = i + 1;
        }
        assert(deps.pairs().take(n as int) =~= deps.pairs());
        Ok(())
    }
}

impl Resolution {
    /// One dependency entry of the last resolved package handled: its
    /// requirement was added and, unless its name is resolved (and then met),
    /// the name was queued one level deeper.
    proof fn lemma_requirement_step(
        &self,
        s1: Resolution,
        dn: Seq<char>,
        t: Seq<char>,
        k: int,
        d: usize,
        pushed: bool,
    )
        requires
            s1.table_ok(),
            s1.resolved_ok(),
            s1.deps_ok(k),
            s1.names_ok(),
            s1.depth_ok(),
            s1.pending is None,
            forall|a: int| 0 <= a < s1.queue@.len() ==> d <= #[trigger] s1.queue@[a].depth <= d + 1,
            self.table_ok(),
            self.reqs@ == s1.reqs@.insert(
                dn,
                (if s1.reqs@.contains_key(dn) {
                    s1.reqs@[dn]
                } else {
                    Seq::empty()
                }).push(t),
            ),
            self.keys == s1.keys,
            self.resolved == s1.resolved,
            self.roots == s1.roots,
            self.pending is None,
            s1.resolved@.len() > 0,
            0 <= k < s1.resolved@.last().deps().len(),
            s1.resolved@.last().deps()[k].0 == dn,
            t == effective_requirement(s1.resolved@.last().deps()[k].1),
            s1.resolved@.last().depth == d,
            d + 1 <= s1.resolved@.len(),
            pushed ==> {
                &&& self.queue@.len() == s1.queue@.len() + 1
                &&& forall|a: int| 0 <= a < s1.queue@.len() ==> self.queue@[a] == s1.queue@[a]
                &&& self.queue@.last().name@ == dn
                &&& self.queue@.last().depth == d + 1
                &&& !is_resolved(views(s1.keys@), dn)
            },
            !pushed ==> {
                &&& self.queue == s1.queue
                &&& exists|j: int|
                    0 <= j < views(s1.keys@).len() && views(s1.keys@)[j] == dn && semver_req_matches(
                        t,
                        s1.resolved@[j].version(),
                    )
            },
        ensures
            self.table_ok(),
            self.resolved_ok(),
            self.deps_ok(k + 1),
            self.names_ok(),
            self.depth_ok(),
            forall|a: int| 0 <= a < self.queue@.len() ==> d <= #[trigger] self.queue@[a].depth <= d + 1,
    {
        let ns = views(self.keys@);
        let rs = self.resolved@;
        let old_list = if s1.reqs@.contains_key(dn) {
            s1.reqs@[dn]
        } else {
            Seq::empty()
        };
        assert forall|n: Seq<char>, x: Seq<char>| required(s1.reqs@, n, x) implies #[trigger] required(
            self.reqs@,
            n,
            x,
        ) by {
            let w = choose|w: int| 0 <= w < s1.reqs@[n].len() && s1.reqs@[n][w] == x;
            if n == dn {
                assert(self.reqs@[n][w] == x);
            }
        }
        assert(self.resolved_ok()) by {
            assert forall|i: int| 0 <= i < rs.len() implies self.reqs@.contains_key(#[trigger] ns[i])
                && satisfies_all(self.reqs@[ns[i]], rs[i].version()) by {
                assert(s1.reqs@.contains_key(ns[i]));
                if ns[i] == dn {
                    if pushed {
                        assert(is_resolved(views(s1.keys@), dn));
                    } else {
                        let j = choose|j: int|
                            0 <= j < views(s1.keys@).len() && views(s1.keys@)[j] == dn
                                && semver_req_matches(t, s1.resolved@[j].version());
                        if j != i {
                            assert(ns[i] != ns[j]);
                        }
                        lemma_satisfies_push(s1.reqs@[dn], t, rs[i].version());
                    }
                }
            }
        }
        assert(self.deps_ok(k + 1)) by {
            assert forall|i: int, kk: int|
                0 <= i < rs.len() && 0 <= kk < rs[i].deps().len() && (i < rs.len() - 1 || kk < k + 1)
                    implies required(
                self.reqs@,
                #[trigger] rs[i].deps()[kk].0,
                effective_requirement(rs[i].deps()[kk].1),
            ) by {
                if i == rs.len() - 1 && kk == k {
                    let sl = self.reqs@[dn];
                    assert(sl[sl.len() - 1] == t);
                } else {
                    assert(required(s1.reqs@, rs[i].deps()[kk].0, effective_requirement(rs[i].deps()[kk].1)));
                }
            }
            assert forall|kk: int| 0 <= kk < self.roots@.len() implies required(
                self.reqs@,
                #[trigger] self.roots@[kk].0,
                effective_requirement(self.roots@[kk].1),
            ) by {
                assert(required(s1.reqs@, s1.roots@[kk].0, effective_requirement(s1.roots@[kk].1)));
            }
        }
        assert(self.names_ok()) by {
            let q = self.queue@;
            assert forall|a: int| 0 <= a < q.len() implies self.reqs@.contains_key(#[trigger] q[a].name@) by {
                if a < s1.queue@.len() {
                    assert(q[a] == s1.queue@[a]);
                    assert(s1.reqs@.contains_key(s1.queue@[a].name@));
                }
            }
            assert forall|n: Seq<char>| #[trigger] self.reqs@.contains_key(n) implies is_resolved(
                ns,
                n,
            ) || queued(q, n) || (self.pending matches Some(pp) && pp.name@ == n) by {
                if n == dn {
                    if pushed {
                        assert(q[q.len() - 1].name@ == n);
                    } else {
                        let j = choose|j: int|
                            0 <= j < views(s1.keys@).len() && views(s1.keys@)[j] == dn
                                && semver_req_matches(t, s1.resolved@[j].version());
                        assert(ns[j] == n);
                    }
                } else {
                    assert(s1.reqs@.contains_key(n));
                    if queued(s1.queue@, n) {
                        let a = choose|a: int| 0 <= a < s1.queue@.len() && #[trigger] s1.queue@[a].name@ == n;
                        assert(q[a] == s1.queue@[a]);
                    }
                }
            }
        }
        assert(self.depth_ok()) by {
            let q = self.queue@;
            let q1 = s1.queue@;
            assert forall|a: int| 0 <= a < q.len() implies d <= #[trigger] q[a].depth <= d + 1 by {
                if a < q1.len() {
                    assert(q[a] == q1[a]);
                }
            }
            assert forall|a: int, b: int| 0 <= a < b < q.len() implies #[trigger] q[a].depth
                <= #[trigger] q[b].depth by {
                if b < q1.len() {
                    assert(q[a] == q1[a] && q[b] == q1[b]);
                    assert(q1[a].depth <= q1[b].depth);
                } else {
                    assert(q[a].depth <= d + 1);
                }
            }
            assert forall|i: int, a: int| 0 <= i < rs.len() && 0 <= a < q.len() implies #[trigger] rs[i].depth
                <= #[trigger] q[a].depth by {
                if a < q1.len() {
                    assert(q[a] == q1[a]);
                    assert(rs[i].depth <= q1[a].depth);
                } else {
                    if i < rs.len() - 1 {
                        assert(rs[i].depth <= rs[rs.len() - 1].depth);
                    }
                }
            }
            assert forall|a: int| 0 <= a < q.len() implies #[trigger] q[a].depth <= rs.len() by {
                if a < q1.len() {
                    assert(q[a] == q1[a]);
                    assert(q1[a].depth <= rs.len());
                }
            }
            assert forall|a: int| 0 <= a < q.len() implies #[trigger] q[a].depth <= q[0].depth + 1 by {
                assert(d <= q[0].depth);
            }
        }
    }
}

/// Dependency entry `dep` is met: a package was resolved under its name and
/// its version meets the entry's requirement.
pub open spec fn resolved_meets(
    names: Seq<Seq<char>>,
    rs: Seq<ResolvedPackage>,
    dep: (Seq<char>, Seq<char>),
) -> bool {
    exists|j: int|
        0 <= j < rs.len() && 0 <= j < names.len() && #[trigger] names[j] == dep.0 && semver_req_matches(
            effective_requirement(dep.1),
            rs[j].version(),
        )
}

/// How a lookup's source is shown in messages: `file://PATH` or `git://URL`.
pub open spec fn source_text(lookup: LookupModel) -> Seq<char> {
    match lookup {
        LookupModel::File(p) => file_scheme() + p,
        LookupModel::Git(u) => git_scheme() + u,
        LookupModel::Registry => Seq::empty(),
    }
}

/// What accepting `package` for the pending request ends in, once its
/// requirements are met: it is recorded (with the requirements of its
/// dependency entries added, and those not resolved yet queued one level
/// deeper), or one of its dependency entries conflicts.
pub open spec fn recorded(old_s: Resolution, new_s: Resolution, package: Package, r: Result<(), PkgError>) -> bool {
    let (n, d, _) = old_s.pending_request()->0;
    let names = old_s.resolved_names().push(n);
    let rs = old_s.resolved_packages().push(ResolvedPackage { package: package, depth: d });
    &&& r is Ok <==> forall|k: int|
        0 <= k < package.dependencies.pairs().len() ==> !dep_conflict(
            names,
            rs,
            #[trigger] package.dependencies.pairs()[k],
        )
    &&& r is Ok ==> {
        &&& new_s.wf()
        &&& new_s.pending_request() is None
        &&& new_s.roots() == old_s.roots()
        &&& new_s.resolved_names() == names
        &&& new_s.resolved_packages() == rs
        &&& new_s.requirements() == added_requirements(
            old_s.requirements(),
            package.dependencies.pairs(),
        )
        &&& new_s.queue_items() == old_s.queue_items() + queued_deps(
            names,
            package.dependencies.pairs(),
            d as int,
        )
    }
    &&& r matches Err(e) ==> conflict_error(e, n, names, rs, package.dependencies.pairs())
}

impl Resolution {
    /// Accepts the package loaded for the pending request (from a `file://`
    /// path or a git repository). It must meet every requirement gathered for
    /// the name; then it is recorded.
    pub fn accept_loaded(&mut self, package: Package) -> (r: Result<(), PkgError>)
        requires
            old(self).wf(),
            old(self).pending_request() is Some,
            package.wf(),
        ensures
            !satisfies_all(
                old(self).requirements()[old(self).pending_name()],
                package.version.model(),
            ) ==> (r matches Err(PkgError::SourceVersionMismatch(n, src, v, texts)) && n@
                == old(self).pending_name() && src@ == source_text(old(self).pending_lookup())
                && v@ == version_text(package.version.model()) && views(texts@) == old(
                self,
            ).requirements()[old(self).pending_name()]),
            satisfies_all(
                old(self).requirements()[old(self).pending_name()],
                package.version.model(),
            ) ==> recorded(*old(self), *final(self), package, r),
    {
        let ghost s0 = *self;
        let item = match &self.pending {
            Some(item) => item,
            None => {
                return Ok(());
            },
        };
        let entry = self.find_entry(item.name.as_str());
        let ok = match entry {
            Some(i) => {
                assert(self.reqs@[item.name@] == table_model(self.table@)[i as int].1);
                matches_all(&self.table[i].1, &package.version)
            },
            None => false,
        };
        if !ok {
            let lookup = classify_source(&item.source_spec);
            proof {
                reveal_strlit("file://");
                reveal_strlit("git://");
            }
            let mut src = String::new();
            match &lookup {
                Lookup::File(path) => {
                    src.append("file://");
                    src.append(path.as_str());
                },
                Lookup::Git(url) => {
                    src.append("git://");
                    src.append(url.as_str());
                },
                Lookup::Registry => {},
            }
            assert(src@ =~= source_text(lookup.model()));
            let texts = match entry {
                Some(i) => {
                    assert(self.reqs@[item.name@] == table_model(self.table@)[i as int].1);
                    requirement_texts(&self.table[i].1)
                },
                None => Vec::new(),
            };
            return Err(
                PkgError::SourceVersionMismatch(item.name.clone(), src, package.version.to_text(), texts),
            );
        }
        self.record(package)
    }

    /// Accepts the versions the registry knows of the pending request's
    /// package: the newest that meets every requirement gathered for the name
    /// is chosen (see `find_compatible_version`) and recorded.
    pub fn accept_candidates(&mut self, candidates: &Vec<Package>) -> (r: Result<(), PkgError>)
        requires
            old(self).wf(),
            old(self).pending_request() is Some,
            forall|m: int| 0 <= m < candidates@.len() ==> (#[trigger] candidates@[m]).wf(),
        ensures
            candidates@.len() == 0 ==> (r matches Err(PkgError::PackageNotFound(n)) && n@ == old(self).pending_name()),
            candidates@.len() > 0 && (forall|m: int|
                0 <= m < candidates@.len() ==> !satisfies_all(
                    old(self).requirements()[old(self).pending_name()],
                    #[trigger] candidates@[m].version.model(),
                )) ==> (r matches Err(PkgError::NoCompatibleVersion(n, texts)) && n@ == old(self).pending_name() && views(texts@) == old(self).requirements()[old(self).pending_name()]),
            (exists|m: int|
                0 <= m < candidates@.len() && satisfies_all(
                    old(self).requirements()[old(self).pending_name()],
                    #[trigger] candidates@[m].version.model(),
                )) ==> exists|k: int, chosen: Package|
                #![trigger recorded(*old(self), *final(self), chosen, r), candidates@[k]]
                is_newest_compatible(
                    candidates@,
                    old(self).requirements()[old(self).pending_name()],
                    k,
                ) && chosen.model() == candidates@[k].model() && recorded(
                    *old(self),
                    *final(self),
                    chosen,
                    r,
                ),
    {
        let ghost s0 = *self;
        let item = match &self.pending {
            Some(item) => item,
            None => {
                return Ok(());
            },
        };
        let entry = self.find_entry(item.name.as_str());
        let i = match entry {
            Some(i) => i,
            None => {
                return Ok(());
            },
        };
        assert(self.reqs@[item.name@] == table_model(self.table@)[i as int].1);
        let chosen = match find_compatible_version(item.name.as_str(), &self.table[i].1, candidates) {
            Ok(p) => p,
            Err(e) => {
                return Err(e);
            },
        };
        let ghost k = choose|k: int|
            is_newest_compatible(candidates@, req_models(self.table@[i as int].1@), k)
                && chosen.model() == #[trigger] candidates@[k].model();
        assert(chosen.wf()) by {
            assert(candidates@[k].wf());
        }
        let r = self.record(chosen);
        assert(recorded(s0, *self, chosen, r));
        r
    }

    /// The laws that hold of a finished resolution.
    proof fn lemma_finished(&self)
        requires
            self.wf(),
            self.done(),
        ensures
            self.resolved_names().len() == self.resolved_packages().len(),
            forall|i: int, j: int|
                0 <= i < j < self.resolved_packages().len() ==> #[trigger] self.resolved_names()[i]
                    != #[trigger] self.resolved_names()[j],
            forall|i: int, j: int| 0 <= i < j < self.resolved_packages().len() ==> #[trigger] self.resolved_packages()[i].depth <= #[trigger] self.resolved_packages()[j].depth,
            forall|i: int|
                0 <= i < self.resolved_packages().len() ==> satisfies_all(
                    self.requirements()[#[trigger] self.resolved_names()[i]],
                    self.resolved_packages()[i].version(),
                ),
            forall|k: int|
                0 <= k < self.roots().len() ==> resolved_meets(
                    self.resolved_names(),
                    self.resolved_packages(),
                    #[trigger] self.roots()[k],
                ),
            forall|i: int, kk: int|
                0 <= i < self.resolved_packages().len() && 0 <= kk < self.resolved_packages()[i].deps().len()
                    ==> resolved_meets(
                    self.resolved_names(),
                    self.resolved_packages(),
                    #[trigger] self.resolved_packages()[i].deps()[kk],
                ),
            forall|k: int|
                0 <= k < self.roots().len() ==> resolved_within(
                    self.resolved_names(),
                    self.resolved_packages(),
                    #[trigger] self.roots()[k].0,
                    0,
                ),
            forall|i: int|
                0 <= i < self.resolved_packages().len() ==> origin_ok(
                    self.roots(),
                    self.resolved_packages(),
                    self.resolved_names()[i],
                    #[trigger] self.resolved_packages()[i].depth as int,
                ),
            forall|i: int, kk: int|
                0 <= i < self.resolved_packages().len() && 0 <= kk < self.resolved_packages()[i].deps().len()
                    ==> resolved_within(
                    self.resolved_names(),
                    self.resolved_packages(),
                    #[trigger] self.resolved_packages()[i].deps()[kk].0,
                    self.resolved_packages()[i].depth + 1,
                ),
    {
        let ghost ns = views(self.keys@);
        let ghost rs = self.resolved_packages();
        let ghost reqs = self.reqs@;
        assert forall|n: Seq<char>, t: Seq<char>| required(reqs, n, t) implies exists|j: int|
            0 <= j < rs.len() && #[trigger] ns[j] == n && semver_req_matches(t, rs[j].version()) by {
            assert(is_resolved(ns, n) || queued(self.queue@, n));
            let j = choose|j: int| 0 <= j < ns.len() && #[trigger] ns[j] == n;
            let w = choose|w: int| 0 <= w < reqs[n].len() && reqs[n][w] == t;
            assert(satisfies_all(reqs[ns[j]], rs[j].version()));
            assert(semver_req_matches(reqs[n][w], rs[j].version()));
        }
        assert forall|k: int| 0 <= k < self.roots().len() implies resolved_meets(
            self.resolved_names(),
            self.resolved_packages(),
            #[trigger] self.roots()[k],
        ) by {
            let n = self.roots@[k].0;
            let t = effective_requirement(self.roots@[k].1);
            assert(required(reqs, n, t));
            let j = choose|j: int| 0 <= j < rs.len() && #[trigger] ns[j] == n && semver_req_matches(t, rs[j].version());
            assert(self.resolved_names()[j] == n);
        }
        assert forall|i: int, kk: int| 0 <= i < self.resolved_packages().len() && 0 <= kk < self.resolved_packages()[i].deps().len() implies resolved_meets(
            self.resolved_names(),
            self.resolved_packages(),
            #[trigger] self.resolved_packages()[i].deps()[kk],
        ) by {
            let n = rs[i].deps()[kk].0;
            let t = effective_requirement(rs[i].deps()[kk].1);
            assert(required(reqs, n, t));
            let j = choose|j: int| 0 <= j < rs.len() && #[trigger] ns[j] == n && semver_req_matches(t, rs[j].version());
            assert(self.resolved_names()[j] == n);
        }
        let ghost q = self.queue@;
        let ghost roots = self.roots@;
        assert forall|n: Seq<char>, b: int| reached(ns, rs, q, self.pending, n, b) implies #[trigger] resolved_within(
            ns,
            rs,
            n,
            b,
        ) by {}
        assert forall|k: int| 0 <= k < roots.len() implies resolved_within(
            ns,
            rs,
            #[trigger] roots[k].0,
            0,
        ) by {
            assert(reached(ns, rs, q, self.pending, roots[k].0, 0));
        }
        assert forall|i: int, kk: int|
            0 <= i < rs.len() && 0 <= kk < rs[i].deps().len() implies resolved_within(
            ns,
            rs,
            #[trigger] rs[i].deps()[kk].0,
            rs[i].depth + 1,
        ) by {
            assert(reached(ns, rs, q, self.pending, rs[i].deps()[kk].0, rs[i].depth + 1));
        }
        assert forall|i: int| 0 <= i < rs.len() implies origin_ok(
            roots,
            rs,
            ns[i],
            #[trigger] rs[i].depth as int,
        ) by {
            assert(origin_ok(roots, rs, ns[i], rs[i].depth as int));
        }
    }

    /// The packages resolved, in the order resolved, once nothing is left to
    /// look up. Each was resolved under a distinct name and meets every
    /// requirement gathered for its name; the manifest's dependencies, and the
    /// dependencies of every resolved package, are all resolved with versions
    /// that meet their requirements; depths never decrease along the list.
    /// Each depth is the breadth-first distance from the manifest: its
    /// dependencies are resolved at depth 0, every package at a greater depth
    /// is a dependency of a package one level above, and every dependency of
    /// a package is resolved at most one level below it.
    pub fn finish(self) -> (r: Vec<ResolvedPackage>)
        requires
            self.wf(),
            self.done(),
        ensures
            r@ == self.resolved_packages(),
            self.resolved_names().len() == self.resolved_packages().len(),
            forall|i: int, j: int|
                0 <= i < j < self.resolved_packages().len() ==> #[trigger] self.resolved_names()[i]
                    != #[trigger] self.resolved_names()[j],
            forall|i: int, j: int| 0 <= i < j < self.resolved_packages().len() ==> #[trigger] self.resolved_packages()[i].depth <= #[trigger] self.resolved_packages()[j].depth,
            forall|i: int|
                0 <= i < self.resolved_packages().len() ==> satisfies_all(
                    self.requirements()[#[trigger] self.resolved_names()[i]],
                    self.resolved_packages()[i].version(),
                ),
            forall|k: int|
                0 <= k < self.roots().len() ==> resolved_meets(
                    self.resolved_names(),
                    self.resolved_packages(),
                    #[trigger] self.roots()[k],
                ),
            forall|i: int, kk: int|
                0 <= i < self.resolved_packages().len() && 0 <= kk < self.resolved_packages()[i].deps().len()
                    ==> resolved_meets(
                    self.resolved_names(),
                    self.resolved_packages(),
                    #[trigger] self.resolved_packages()[i].deps()[kk],
                ),
            forall|k: int|
                0 <= k < self.roots().len() ==> resolved_within(
                    self.resolved_names(),
                    self.resolved_packages(),
                    #[trigger] self.roots()[k].0,
                    0,
                ),
            forall|i: int|
                0 <= i < self.resolved_packages().len() ==> origin_ok(
                    self.roots(),
                    self.resolved_packages(),
                    self.resolved_names()[i],
                    #[trigger] self.resolved_packages()[i].depth as int,
                ),
            forall|i: int, kk: int|
                0 <= i < self.resolved_packages().len() && 0 <= kk < self.resolved_packages()[i].deps().len()
                    ==> resolved_within(
                    self.resolved_names(),
                    self.resolved_packages(),
                    #[trigger] self.resolved_packages()[i].deps()[kk].0,
                    self.resolved_packages()[i].depth + 1,
                ),
    {
        proof {
            self.lemma_finished();
        }
        self.resolved
    }
}

} // verus!
