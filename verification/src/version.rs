//! Semantic versions and version requirements, backed by the `semver` crate.
//!
//! A `Semver` keeps the plain fields that the logic reads next to the
//! `semver::Version` it was parsed into; the two are only ever built together,
//! by `Semver::parse`.

use vstd::prelude::*;

verus! {

/// `semver::Version`, carried opaquely next to its plain fields.
#[verifier::external_type_specification]
#[verifier::external_body]
pub struct ExSemverVersion(semver::Version);

/// `semver::VersionReq`, carried opaquely next to the text it was parsed from.
#[verifier::external_type_specification]
#[verifier::external_body]
pub struct ExSemverVersionReq(semver::VersionReq);

/// `semver::Error`, the error of the `semver` parsers.
#[verifier::external_type_specification]
#[verifier::external_body]
pub struct ExSemverError(semver::Error);

/// The plain model of a version: major, minor, patch, pre-release, build metadata.
pub type VersionModel = (u64, u64, u64, Seq<char>, Seq<char>);

/// What `semver::Version::parse` gives for a text: `None` when it refuses it.
pub uninterp spec fn semver_parse(text: Seq<char>) -> Option<VersionModel>;

/// The ordering (-1, 0 or 1) that `semver::Version`'s `Ord` gives to two versions.
pub uninterp spec fn semver_order(a: VersionModel, b: VersionModel) -> int;

/// Whether `semver::VersionReq::parse` accepts a text.
pub uninterp spec fn semver_req_parses(text: Seq<char>) -> bool;

/// Whether the requirement parsed from `req` matches a version, as
/// `semver::VersionReq::matches` decides it.
pub uninterp spec fn semver_req_matches(req: Seq<char>, v: VersionModel) -> bool;

/// The text that `semver::VersionReq`'s `Display` shows for the requirement
/// parsed from `req` (its comparators, normalised, joined by `, `).
pub uninterp spec fn semver_req_display(req: Seq<char>) -> Seq<char>;

/// Three-way comparison of two integers.
pub open spec fn three_way(a: int, b: int) -> int {
    if a < b {
        -1
    } else if a > b {
        1
    } else {
        0
    }
}

/// The order of the numeric triples (major, minor, patch), which decides the
/// order of two versions whose triples differ.
pub open spec fn triple_order(a: VersionModel, b: VersionModel) -> int {
    if a.0 != b.0 {
        three_way(a.0 as int, b.0 as int)
    } else if a.1 != b.1 {
        three_way(a.1 as int, b.1 as int)
    } else {
        three_way(a.2 as int, b.2 as int)
    }
}

/// Whether two versions share major, minor and patch.
pub open spec fn same_triple(a: VersionModel, b: VersionModel) -> bool {
    a.0 == b.0 && a.1 == b.1 && a.2 == b.2
}

/// The decimal digit of `d`, for `d < 10`.
pub open spec fn digit_char(d: nat) -> char {
    ((48 + d) as u32) as char
}

/// The decimal text of a natural number, without leading zeros.
pub open spec fn decimal(n: nat) -> Seq<char>
    decreases n,
{
    if n < 10 {
        seq![digit_char(n)]
    } else {
        decimal(n / 10).push(digit_char(n % 10))
    }
}

/// `MAJOR.MINOR.PATCH`, then `-PRE` if there is a pre-release and `+BUILD` if
/// there is build metadata: the text that `semver::Version` displays.
pub open spec fn version_text(v: VersionModel) -> Seq<char> {
    decimal(v.0 as nat) + seq!['.'] + decimal(v.1 as nat) + seq!['.'] + decimal(v.2 as nat)
        + (if v.3.len() > 0 { seq!['-'] + v.3 } else { Seq::empty() })
        + (if v.4.len() > 0 { seq!['+'] + v.4 } else { Seq::empty() })
}

/// A parsed semantic version.
pub struct Semver {
    major: u64,
    minor: u64,
    patch: u64,
    pre: String,
    build: String,
    raw: semver::Version,
}

/// A clone of a `semver::Version` is the same version.
pub assume_specification[ <semver::Version as Clone>::clone ](v: &semver::Version) -> (r:
    semver::Version)
    ensures
        r == *v,
;

/// A clone of a `semver::VersionReq` is the same requirement.
pub assume_specification[ <semver::VersionReq as Clone>::clone ](v: &semver::VersionReq) -> (r:
    semver::VersionReq)
    ensures
        r == *v,
;

impl Semver {
    /// The plain model of this version.
    pub closed spec fn model(&self) -> VersionModel {
        (self.major, self.minor, self.patch, self.pre@, self.build@)
    }

    /// Parses a version (as `semver::Version::parse` does).
    pub fn parse(text: &str) -> (r: Result<Semver, semver::Error>)
        ensures
            r is Ok <==> semver_parse(text@) is Some,
            r matches Ok(v) ==> semver_parse(text@) == Some(v.model()),
    {
        parse_version_raw(text)
    }

    /// The major number.
    pub fn major(&self) -> (r: u64)
        ensures
            r == self.model().0,
    {
        self.major
    }

    /// The minor number.
    pub fn minor(&self) -> (r: u64)
        ensures
            r == self.model().1,
    {
        self.minor
    }

    /// The patch number.
    pub fn patch(&self) -> (r: u64)
        ensures
            r == self.model().2,
    {
        self.patch
    }

    /// The pre-release text (empty when there is none).
    pub fn pre(&self) -> (r: &String)
        ensures
            r@ == self.model().3,
    {
        &self.pre
    }

    /// The build metadata text (empty when there is none).
    pub fn build(&self) -> (r: &String)
        ensures
            r@ == self.model().4,
    {
        &self.build
    }

    /// The displayed text of the version: `MAJOR.MINOR.PATCH[-PRE][+BUILD]`.
    pub fn to_text(&self) -> (r: String)
        ensures
            r@ == version_text(self.model()),
    {
        display_version_raw(self)
    }

    /// Compares two versions (-1, 0 or 1), as `semver::Version`'s `Ord` does.
    /// Beside the value, the laws of a total order hold (see `compare_versions_raw`).
    pub fn compare(&self, other: &Semver) -> (r: i8)
        ensures
            r == semver_order(self.model(), other.model()),
            -1 <= r <= 1,
            !same_triple(self.model(), other.model()) ==> r == triple_order(
                self.model(),
                other.model(),
            ),
            same_triple(self.model(), other.model()) && self.model().3.len() == 0
                && other.model().3.len() > 0 ==> r == 1,
            semver_order(other.model(), self.model()) == -r,
            (r == 0) == (self.model() == other.model()),
            forall|c: VersionModel| #![trigger semver_order(other.model(), c)]
                r >= 0 && semver_order(other.model(), c) >= 0 ==> semver_order(self.model(), c) >= 0,
            forall|c: VersionModel| #![trigger semver_order(other.model(), c)]
                r > 0 && semver_order(other.model(), c) >= 0 ==> semver_order(self.model(), c) > 0,
            forall|c: VersionModel| #![trigger semver_order(other.model(), c)]
                r <= 0 && semver_order(other.model(), c) <= 0 ==> semver_order(self.model(), c) <= 0,
            forall|c: VersionModel| #![trigger semver_order(other.model(), c)]
                r < 0 && semver_order(other.model(), c) <= 0 ==> semver_order(self.model(), c) < 0,
    {
        compare_versions_raw(self, other)
    }
}

/// Compares two versions with `semver::Version`'s `Ord` (-1, 0 or 1).
/// What the crate documents of that order is stated: versions whose
/// (major, minor, patch) differ are ordered by that triple; with equal
/// triples a pre-release is less than the release; and the order is a
/// total order (reversing the arguments reverses the result, only equal
/// versions compare equal, and it is transitive). How two pre-releases, or
/// two build metadata, compare is left to the name `semver_order`.
#[verifier::external_body]
fn compare_versions_raw(a: &Semver, b: &Semver) -> (r: i8)
    ensures
        r == semver_order(a.model(), b.model()),
        -1 <= r <= 1,
        !same_triple(a.model(), b.model()) ==> r == triple_order(
            a.model(),
            b.model(),
        ),
        same_triple(a.model(), b.model()) && a.model().3.len() == 0
            && b.model().3.len() > 0 ==> r == 1,
        semver_order(b.model(), a.model()) == -r,
        (r == 0) == (a.model() == b.model()),
        forall|c: VersionModel| #![trigger semver_order(b.model(), c)]
            r >= 0 && semver_order(b.model(), c) >= 0 ==> semver_order(a.model(), c) >= 0,
        forall|c: VersionModel| #![trigger semver_order(b.model(), c)]
            r > 0 && semver_order(b.model(), c) >= 0 ==> semver_order(a.model(), c) > 0,
        forall|c: VersionModel| #![trigger semver_order(b.model(), c)]
            r <= 0 && semver_order(b.model(), c) <= 0 ==> semver_order(a.model(), c) <= 0,
        forall|c: VersionModel| #![trigger semver_order(b.model(), c)]
            r < 0 && semver_order(b.model(), c) <= 0 ==> semver_order(a.model(), c) < 0,
{
    match a.raw.cmp(&b.raw) {
        std::cmp::Ordering::Less => -1,
        std::cmp::Ordering::Equal => 0,
        std::cmp::Ordering::Greater => 1,
    }
}

/// `semver::Version::parse`; the plain fields are read from the parsed value.
#[verifier::external_body]
fn parse_version_raw(text: &str) -> (r: Result<Semver, semver::Error>)
    ensures
        r is Ok <==> semver_parse(text@) is Some,
        r matches Ok(v) ==> semver_parse(text@) == Some(v.model()),
{
    match semver::Version::parse(text) {
        Ok(raw) => Ok(
            Semver {
                major: raw.major,
                minor: raw.minor,
                patch: raw.patch,
                pre: raw.pre.as_str().to_string(),
                build: raw.build.as_str().to_string(),
                raw,
            },
        ),
        Err(e) => Err(e),
    }
}

/// `Display` of `semver::Version` (through `to_string`): major, minor and
/// patch in decimal separated by dots, then `-` and the pre-release if there
/// is one, then `+` and the build metadata if there is some.
#[verifier::external_body]
fn display_version_raw(v: &Semver) -> (r: String)
    ensures
        r@ == version_text(v.model()),
{
    v.raw.to_string()
}

impl Clone for Semver {
    fn clone(&self) -> (r: Self)
        ensures
            r.model() == self.model(),
    {
        Semver {
            major: self.major,
            minor: self.minor,
            patch: self.patch,
            pre: self.pre.clone(),
            build: self.build.clone(),
            raw: self.raw.clone(),
        }
    }
}

/// A parsed version requirement, such as `^1.2` or `>=1.0, <2.0`.
pub struct SemverReq {
    text: String,
    raw: semver::VersionReq,
}

impl SemverReq {
    /// The text the requirement was parsed from.
    pub closed spec fn model(&self) -> Seq<char> {
        self.text@
    }

    /// Parses a requirement (as `semver::VersionReq::parse` does).
    pub fn parse(text: &str) -> (r: Result<SemverReq, semver::Error>)
        ensures
            r is Ok <==> semver_req_parses(text@),
            r matches Ok(q) ==> q.model() == text@,
    {
        parse_req_raw(text)
    }

    /// The requirement written `*`: it matches exactly the versions without a
    /// pre-release.
    pub fn star() -> (r: SemverReq)
        ensures
            r.model() == seq!['*'],
            semver_req_parses(r.model()),
            forall|v: VersionModel| #[trigger] semver_req_matches(r.model(), v) <==> v.3.len() == 0,
    {
        star_req_raw()
    }

    /// The text of the requirement.
    pub fn text(&self) -> (r: &String)
        ensures
            r@ == self.model(),
    {
        &self.text
    }

    /// The requirement as `semver` displays it (`1.0` shows as `^1.0`).
    pub fn to_text(&self) -> (r: String)
        ensures
            r@ == semver_req_display(self.model()),
    {
        display_req_raw(self)
    }

    /// Whether the requirement matches a version.
    pub fn matches(&self, v: &Semver) -> (r: bool)
        ensures
            r == semver_req_matches(self.model(), v.model()),
    {
        req_matches_raw(self, v)
    }
}

/// `semver::VersionReq::parse`; the text is kept with the parsed value.
#[verifier::external_body]
fn parse_req_raw(text: &str) -> (r: Result<SemverReq, semver::Error>)
    ensures
        r is Ok <==> semver_req_parses(text@),
        r matches Ok(q) ==> q.model() == text@,
{
    match semver::VersionReq::parse(text) {
        Ok(raw) => Ok(SemverReq { text: text.to_string(), raw }),
        Err(e) => Err(e),
    }
}

/// `semver::VersionReq::STAR`, with the text `*`. The crate documents it as
/// what `*` parses to, and as matching exactly the versions without a
/// pre-release (it is `>=0.0.0`, and no comparator of it names a pre-release).
#[verifier::external_body]
fn star_req_raw() -> (r: SemverReq)
    ensures
        r.model() == seq!['*'],
        semver_req_parses(r.model()),
        forall|v: VersionModel| #[trigger] semver_req_matches(r.model(), v) <==> v.3.len() == 0,
{
    SemverReq { text: "*".to_string(), raw: semver::VersionReq::STAR }
}

/// `Display` of `semver::VersionReq` (through `to_string`): a name for the
/// text, which depends on the parsed requirement alone.
#[verifier::external_body]
fn display_req_raw(q: &SemverReq) -> (r: String)
    ensures
        r@ == semver_req_display(q.model()),
{
    q.raw.to_string()
}

/// `semver::VersionReq::matches`.
#[verifier::external_body]
fn req_matches_raw(q: &SemverReq, v: &Semver) -> (r: bool)
    ensures
        r == semver_req_matches(q.model(), v.model()),
{
    q.raw.matches(&v.raw)
}

impl Clone for SemverReq {
    fn clone(&self) -> (r: Self)
        ensures
            r.model() == self.model(),
    {
        SemverReq { text: self.text.clone(), raw: self.raw.clone() }
    }
}

/// The models of a sequence of versions.
pub open spec fn models_of(vs: Seq<Semver>) -> Seq<VersionModel> {
    vs.map_values(|v: Semver| v.model())
}

/// Index `i` comes before index `j` when the versions are listed newest first,
/// equal versions keeping their order in the list.
pub open spec fn comes_before(ms: Seq<VersionModel>, i: usize, j: usize) -> bool {
    semver_order(ms[i as int], ms[j as int]) > 0 || (semver_order(ms[i as int], ms[j as int])
        == 0 && i < j)
}

/// Index `x` occurs in `order`.
pub open spec fn lists(order: Seq<usize>, x: int) -> bool {
    exists|a: int| 0 <= a < order.len() && order[a] == x
}

/// `order` lists every index of `ms` once, newest version first, equal
/// versions in their order in the list (the order of a stable sort by `Ord`,
/// reversed).
pub open spec fn is_newest_first(ms: Seq<VersionModel>, order: Seq<usize>) -> bool {
    &&& order.len() == ms.len()
    &&& forall|a: int| 0 <= a < order.len() ==> #[trigger] order[a] < ms.len()
    &&& forall|x: int| 0 <= x < ms.len() ==> #[trigger] lists(order, x)
    &&& forall|a: int, b: int| 0 <= a < b < order.len() ==> order[a] != order[b]
    &&& forall|a: int, b: int|
        0 <= a < b < order.len() ==> #[trigger] comes_before(ms, order[a], order[b])
}

/// Sorts indices of `ms` newest first: the order lists indices below `n` once each.
pub open spec fn is_partial_newest_first(ms: Seq<VersionModel>, order: Seq<usize>, n: int) -> bool {
    &&& order.len() == n
    &&& forall|a: int| 0 <= a < order.len() ==> #[trigger] order[a] < n
    &&& forall|x: int| 0 <= x < n ==> #[trigger] lists(order, x)
    &&& forall|a: int, b: int| 0 <= a < b < order.len() ==> order[a] != order[b]
    &&& forall|a: int, b: int|
        0 <= a < b < order.len() ==> #[trigger] comes_before(ms, order[a], order[b])
}

/// The indices of `vs`, newest version first; equal versions keep their
/// order (a stable insertion sort by `Semver::compare`, descending).
pub fn order_newest_first(vs: &Vec<Semver>) -> (order: Vec<usize>)
    ensures
        is_newest_first(models_of(vs@), order@),
{
    let ghost ms = models_of(vs@);
    let n = vs.len();
    let mut order: Vec<usize> = Vec::new();
    let mut i: usize = 0;
    while i < n
        invariant
            n == vs.len(),
            ms == models_of(vs@),
            ms.len() == n,
            i <= n,
            is_partial_newest_first(ms, order@, i as int),
        decreases n - i,
    {
        let mut k: usize = 0;
        let mut found = false;
        while k < order.len() && !found
            invariant
                n == vs.len(),
                ms == models_of(vs@),
                ms.len() == n,
                i < n,
                is_partial_newest_first(ms, order@, i as int),
                k <= order.len(),
                forall|p: int| 0 <= p < k ==> #[trigger] comes_before(ms, order@[p], i),
                found ==> k < order.len(),
                found ==> forall|m: int|
                    k <= m < order.len() ==> #[trigger] comes_before(ms, i, order@[m]),
            decreases order.len() - k + (if found { 0int } else { 1int }),
        {
            let j = order[k];
            let c = vs[i].compare(&vs[j]);
            assert(vs@[i as int].model() == ms[i as int]);
            assert(vs@[j as int].model() == ms[j as int]);
            if c > 0 {
                assert forall|m: int| k <= m < order.len() implies #[trigger] comes_before(
                    ms,
                    i,
                    order@[m],
                ) by {
                    if m > k {
                        assert(comes_before(ms, order@[k as int], order@[m]));
                    }
                }
                found = true;
            } else {
                assert(comes_before(ms, order@[k as int], i));
                k = k + 1;
            }
        }
        let ghost old_order = order@;
        order.insert(k, i);
        assert(order@ == old_order.insert(k as int, i));
        assert forall|a: int, b: int| 0 <= a < b < order@.len() implies #[trigger] comes_before(
            ms,
            order@[a],
            order@[b],
        ) by {
            if b < k {
                assert(comes_before(ms, old_order[a], old_order[b]));
            } else if b == k {
                assert(comes_before(ms, old_order[a], i));
            } else if a < k {
                assert(comes_before(ms, old_order[a], old_order[b - 1]));
            } else if a == k {
                assert(comes_before(ms, i, old_order[b - 1]));
            } else {
                assert(comes_before(ms, old_order[a - 1], old_order[b - 1]));
            }
        }
        assert forall|a: int, b: int| 0 <= a < b < order@.len() implies order@[a] != order@[b] by {
            if a != k && b != k {
                let a0 = if a < k { a } else { a - 1 };
                let b0 = if b < k { b } else { b - 1 };
                assert(old_order[a0] != old_order[b0]);
            } else if a == k {
                assert(old_order[b - 1] < i);
            } else {
                assert(old_order[a] < i);
            }
        }
        assert forall|x: int| 0 <= x < i + 1 implies #[trigger] lists(order@, x) by {
            if x == i {
                assert(order@[k as int] == x);
            } else {
                assert(lists(old_order, x));
                let a = choose|a: int| 0 <= a < old_order.len() && old_order[a] == x;
                if a < k {
                    assert(order@[a] == x);
                } else {
                    assert(order@[a + 1] == x);
                }
            }
        }
        assert forall|a: int| 0 <= a < order@.len() implies #[trigger] order@[a] < i + 1 by {
            if a < k {
                assert(old_order[a] < i);
            } else if a > k {
                assert(old_order[a - 1] < i);
            }
        }
        i = i + 1;
    }
    order
}

} // verus!
