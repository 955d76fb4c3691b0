//! Text helpers over `&str`: prefixes, infixes, trimming, line splitting and
//! the lexicographic order of strings.

use vstd::prelude::*;
use vstd::string::*;

verus! {

/// Whether a character has the Unicode `White_Space` property (what
/// `char::is_whitespace` tests): tab through carriage return, space, next
/// line, no-break space, ogham space mark, the spaces U+2000 to U+200A, line
/// and paragraph separators, narrow no-break space, medium mathematical space
/// and ideographic space.
pub open spec fn char_is_whitespace(c: char) -> bool {
    let n = c as u32;
    ||| 9 <= n <= 13
    ||| n == 32
    ||| n == 0x85
    ||| n == 0xA0
    ||| n == 0x1680
    ||| 0x2000 <= n <= 0x200A
    ||| n == 0x2028
    ||| n == 0x2029
    ||| n == 0x202F
    ||| n == 0x205F
    ||| n == 0x3000
}

/// Whether a character is whitespace (as `char::is_whitespace`).
pub fn is_whitespace(c: char) -> (r: bool)
    ensures
        r == char_is_whitespace(c),
{
    let n = c as u32;
    (9 <= n && n <= 13) || n == 32 || n == 0x85 || n == 0xA0 || n == 0x1680 || (0x2000 <= n && n
        <= 0x200A) || n == 0x2028 || n == 0x2029 || n == 0x202F || n == 0x205F || n == 0x3000
}

/// What `str::to_lowercase` gives for a text (Unicode lower-casing).
pub uninterp spec fn lowercase(s: Seq<char>) -> Seq<char>;

/// Every character of `s` is ASCII.
pub open spec fn is_ascii_text(s: Seq<char>) -> bool {
    forall|i: int| 0 <= i < s.len() ==> (#[trigger] s[i] as u32) < 128
}

/// `c` with `A`-`Z` turned into `a`-`z`.
pub open spec fn ascii_lower_char(c: char) -> char {
    if 'A' <= c && c <= 'Z' {
        ((c as u32) + 32) as char
    } else {
        c
    }
}

/// `c` with `a`-`z` turned into `A`-`Z`.
pub open spec fn ascii_upper_char(c: char) -> char {
    if 'a' <= c && c <= 'z' {
        ((c as u32) - 32) as char
    } else {
        c
    }
}

/// `s` with its ASCII letters in lower case.
pub open spec fn ascii_lower(s: Seq<char>) -> Seq<char> {
    s.map_values(|c: char| ascii_lower_char(c))
}

/// `s` with its ASCII letters in upper case (as `str::to_ascii_uppercase`).
pub open spec fn ascii_upper(s: Seq<char>) -> Seq<char> {
    s.map_values(|c: char| ascii_upper_char(c))
}

/// Upper-casing an ASCII text keeps it ASCII and changes nothing of its
/// lower-case form.
pub proof fn lemma_ascii_upper(s: Seq<char>)
    requires
        is_ascii_text(s),
    ensures
        is_ascii_text(ascii_upper(s)),
        ascii_lower(ascii_upper(s)) == ascii_lower(s),
{
    assert(ascii_lower(ascii_upper(s)) =~= ascii_lower(s));
}

/// `str::to_lowercase`. For an ASCII text the documentation's Unicode
/// lower-casing is the ASCII one: `A`-`Z` become `a`-`z` and every other
/// character stays (as `str::to_ascii_lowercase` gives); beyond ASCII the
/// result is only named.
#[verifier::external_body]
pub(crate) fn to_lowercase(s: &str) -> (r: String)
    ensures
        r@ == lowercase(s@),
        is_ascii_text(s@) ==> r@ == ascii_lower(s@),
{
    s.to_lowercase()
}

/// A fresh `String` holding the text of `s`.
pub fn owned(s: &str) -> (r: String)
    ensures
        r@ == s@,
{
    String::from_str(s)
}

/// Whether the characters of `s` from index `at` on begin with `part`.
pub open spec fn occurs_at(s: Seq<char>, part: Seq<char>, at: int) -> bool {
    0 <= at && at + part.len() <= s.len() && s.subrange(at, at + part.len()) == part
}

/// Whether `part` occurs somewhere in `s` (as `str::contains` with a `&str`).
pub open spec fn has_infix(s: Seq<char>, part: Seq<char>) -> bool {
    exists|at: int| #[trigger] occurs_at(s, part, at)
}

/// Whether `part` occurs in `s` at index `at`.
pub fn matches_at(s: &str, part: &str, at: usize) -> (r: bool)
    ensures
        r == occurs_at(s@, part@, at as int),
{
    let n = s.unicode_len();
    let m = part.unicode_len();
    if at > n || m > n - at {
        return false;
    }
    let mut j: usize = 0;
    while j < m
        invariant
            n == s@.len(),
            m == part@.len(),
            at + m <= n,
            j <= m,
            forall|k: int| 0 <= k < j ==> s@[at + k] == part@[k],
        decreases m - j,
    {
        if s.get_char(at + j) != part.get_char(j) {
            assert(s@.subrange(at as int, at + m)[j as int] != part@[j as int]);
            return false;
        }
        j = j + 1;
    }
    assert(s@.subrange(at as int, at + m) =~= part@);
    true
}

/// Whether `s` begins with `prefix` (as `str::starts_with` with a `&str`).
pub fn starts_with(s: &str, prefix: &str) -> (r: bool)
    ensures
        r == prefix@.is_prefix_of(s@),
{
    let r = matches_at(s, prefix, 0);
    proof {
        if r {
            assert(s@.subrange(0, prefix@.len() as int) == prefix@);
        } else if prefix@.is_prefix_of(s@) {
            assert(occurs_at(s@, prefix@, 0));
        }
    }
    r
}

/// `s` without `prefix`, when it begins with it (as `str::strip_prefix`).
pub fn strip_prefix(s: &str, prefix: &str) -> (r: Option<String>)
    ensures
        r is Some <==> prefix@.is_prefix_of(s@),
        r matches Some(t) ==> t@ == s@.skip(prefix@.len() as int),
{
    if starts_with(s, prefix) {
        let n = s.unicode_len();
        let m = prefix.unicode_len();
        let rest = s.substring_char(m, n);
        assert(s@.subrange(m as int, n as int) =~= s@.skip(m as int));
        Some(owned(rest))
    } else {
        None
    }
}

/// Whether `part` occurs in `s` (as `str::contains` with a `&str`).
pub fn contains_text(s: &str, part: &str) -> (r: bool)
    ensures
        r == has_infix(s@, part@),
{
    let n = s.unicode_len();
    let m = part.unicode_len();
    if m > n {
        assert(!has_infix(s@, part@));
        return false;
    }
    if m == 0 {
        assert(s@.subrange(0, 0) =~= part@);
        assert(occurs_at(s@, part@, 0));
        return true;
    }
    let mut at: usize = 0;
    while at <= n - m
        invariant
            n == s@.len(),
            m == part@.len(),
            1 <= m <= n,
            at <= n - m + 1,
            forall|k: int| 0 <= k < at ==> !occurs_at(s@, part@, k),
        decreases n - m + 1 - at,
    {
        if matches_at(s, part, at) {
            return true;
        }
        at = at + 1;
    }
    assert forall|k: int| !occurs_at(s@, part@, k) by {
        if 0 <= k < at {
        }
    }
    false
}

/// `s` without its leading whitespace.
pub open spec fn trim_start(s: Seq<char>) -> Seq<char>
    decreases s.len(),
{
    if s.len() > 0 && char_is_whitespace(s[0]) {
        trim_start(s.drop_first())
    } else {
        s
    }
}

/// `s` without its trailing whitespace.
pub open spec fn trim_end(s: Seq<char>) -> Seq<char>
    decreases s.len(),
{
    if s.len() > 0 && char_is_whitespace(s.last()) {
        trim_end(s.drop_last())
    } else {
        s
    }
}

/// `s` without leading and trailing whitespace (as `str::trim`).
pub open spec fn trimmed(s: Seq<char>) -> Seq<char> {
    trim_end(trim_start(s))
}

/// Index of the first character of `s` that is not whitespace, from `a` on.
fn skip_leading_whitespace(s: &str, n: usize) -> (a: usize)
    requires
        n == s@.len(),
    ensures
        a <= n,
        trim_start(s@) == s@.subrange(a as int, n as int),
{
    let mut a: usize = 0;
    assert(s@.subrange(0, n as int) =~= s@);
    loop
        invariant
            n == s@.len(),
            a <= n,
            trim_start(s@) == trim_start(s@.subrange(a as int, n as int)),
        decreases n - a,
    {
        if a == n {
            return a;
        }
        let c = s.get_char(a);
        let ghost t = s@.subrange(a as int, n as int);
        assert(t[0] == c);
        if !is_whitespace(c) {
            return a;
        }
        assert(t.drop_first() =~= s@.subrange(a + 1, n as int));
        a = a + 1;
    }
}

/// End of `s@[a..b]` without its trailing whitespace.
fn skip_trailing_whitespace(s: &str, a: usize, n: usize) -> (b: usize)
    requires
        n == s@.len(),
        a <= n,
    ensures
        a <= b <= n,
        trim_end(s@.subrange(a as int, n as int)) == s@.subrange(a as int, b as int),
{
    let mut b: usize = n;
    loop
        invariant
            n == s@.len(),
            a <= b <= n,
            trim_end(s@.subrange(a as int, n as int)) == trim_end(s@.subrange(a as int, b as int)),
        decreases b,
    {
        if b == a {
            return b;
        }
        let c = s.get_char(b - 1);
        let ghost t = s@.subrange(a as int, b as int);
        assert(t.last() == c);
        if !is_whitespace(c) {
            return b;
        }
        assert(t.drop_last() =~= s@.subrange(a as int, b - 1));
        b = b - 1;
    }
}

/// `s` without leading and trailing whitespace (as `str::trim`).
pub fn trim(s: &str) -> (r: String)
    ensures
        r@ == trimmed(s@),
{
    let n = s.unicode_len();
    let a = skip_leading_whitespace(s, n);
    let b = skip_trailing_whitespace(s, a, n);
    owned(s.substring_char(a, b))
}

/// Index of the first `'\n'` in `s`, or its length when there is none.
pub open spec fn newline_index(s: Seq<char>) -> int
    decreases s.len(),
{
    if s.len() == 0 {
        0
    } else if s[0] == '\n' {
        0
    } else {
        1 + newline_index(s.drop_first())
    }
}

pub proof fn lemma_newline_index_bounds(s: Seq<char>)
    ensures
        0 <= newline_index(s) <= s.len(),
        newline_index(s) < s.len() ==> s[newline_index(s)] == '\n',
        forall|k: int| 0 <= k < newline_index(s) ==> s[k] != '\n',
    decreases s.len(),
{
    if s.len() > 0 && s[0] != '\n' {
        lemma_newline_index_bounds(s.drop_first());
        assert forall|k: int| 0 <= k < newline_index(s) implies s[k] != '\n' by {
            if k > 0 {
                assert(s[k] == s.drop_first()[k - 1]);
            }
        }
    }
}

proof fn lemma_newline_index_at(s: Seq<char>, j: int)
    requires
        0 <= j <= s.len(),
        j < s.len() ==> s[j] == '\n',
        forall|k: int| 0 <= k < j ==> s[k] != '\n',
    ensures
        newline_index(s) == j,
    decreases s.len(),
{
    if s.len() > 0 && j > 0 {
        lemma_newline_index_at(s.drop_first(), j - 1);
    }
}

/// A line without the `'\r'` that ends it, if one does.
pub open spec fn without_cr(line: Seq<char>) -> Seq<char> {
    if line.len() > 0 && line.last() == '\r' {
        line.drop_last()
    } else {
        line
    }
}

/// The lines of a text, as `str::lines` gives them: split at each `'\n'`, a
/// `'\r'` just before the `'\n'` dropped, and no empty last line after a final
/// `'\n'`.
pub open spec fn lines_of(s: Seq<char>) -> Seq<Seq<char>>
    decreases s.len(),
{
    if s.len() == 0 {
        Seq::empty()
    } else {
        let k = newline_index(s);
        proof {
            lemma_newline_index_bounds(s);
        }
        if k < s.len() {
            seq![without_cr(s.take(k))] + lines_of(s.skip(k + 1))
        } else {
            seq![s]
        }
    }
}

/// The views of a sequence of strings.
pub open spec fn views(v: Seq<String>) -> Seq<Seq<char>> {
    v.map_values(|s: String| s@)
}

/// The lines of a text (as `str::lines`), each as a `String`.
pub fn split_lines(s: &str) -> (r: Vec<String>)
    ensures
        views(r@) == lines_of(s@),
{
    let n = s.unicode_len();
    let mut out: Vec<String> = Vec::new();
    let mut start: usize = 0;
    let mut i: usize = 0;
    assert(s@.skip(0) =~= s@);
    assert(views(out@) + lines_of(s@) =~= lines_of(s@));
    while i < n
        invariant
            n == s@.len(),
            start <= i <= n,
            forall|k: int| start <= k < i ==> s@[k] != '\n',
            lines_of(s@) == views(out@) + lines_of(s@.skip(start as int)),
        decreases n - i,
    {
        if s.get_char(i) == '\n' {
            let ghost rest = s@.skip(start as int);
            proof {
                lemma_newline_index_at(rest, i - start);
                assert(rest.take(i - start) =~= s@.subrange(start as int, i as int));
                assert(rest.skip(i - start + 1) =~= s@.skip(i + 1));
            }
            let mut end = i;
            if end > start && s.get_char(end - 1) == '\r' {
                end = end - 1;
            }
            let line = owned(s.substring_char(start, end));
            assert(line@ == without_cr(rest.take(i - start)));
            let ghost before = out@;
            out.push(line);
            assert(views(out@) =~= views(before).push(line@));
            assert(views(out@) + lines_of(s@.skip(i + 1)) =~= views(before) + lines_of(rest));
            start = i + 1;
        }
        i = i + 1;
    }
    if start < n {
        let ghost rest = s@.skip(start as int);
        proof {
            lemma_newline_index_at(rest, rest.len() as int);
            assert(rest =~= s@.subrange(start as int, n as int));
        }
        let line = owned(s.substring_char(start, n));
        let ghost before = out@;
        out.push(line);
        assert(views(out@) =~= views(before).push(line@));
        assert(views(out@) =~= views(before) + lines_of(rest));
    } else {
        assert(s@.skip(start as int) =~= Seq::<char>::empty());
        assert(views(out@) =~= views(out@) + lines_of(s@.skip(start as int)));
    }
    out
}

/// The order of `String`s: lexicographic by character (for UTF-8 text the
/// same as the byte order that `Ord` for `str` uses).
pub open spec fn text_less(a: Seq<char>, b: Seq<char>) -> bool
    decreases a.len(),
{
    if a.len() == 0 {
        b.len() > 0
    } else if b.len() == 0 {
        false
    } else if a[0] != b[0] {
        (a[0] as int) < (b[0] as int)
    } else {
        text_less(a.drop_first(), b.drop_first())
    }
}

/// No text is less than itself.
pub proof fn lemma_text_less_irreflexive(a: Seq<char>)
    ensures
        !text_less(a, a),
    decreases a.len(),
{
    if a.len() > 0 {
        lemma_text_less_irreflexive(a.drop_first());
    }
}

/// `text_less` is transitive.
pub proof fn lemma_text_less_transitive(a: Seq<char>, b: Seq<char>, c: Seq<char>)
    requires
        text_less(a, b),
        text_less(b, c),
    ensures
        text_less(a, c),
    decreases a.len(),
{
    if a.len() > 0 && b.len() > 0 && c.len() > 0 && a[0] == b[0] && b[0] == c[0] {
        lemma_text_less_transitive(a.drop_first(), b.drop_first(), c.drop_first());
    }
}

/// Of two different texts, one is less than the other.
pub proof fn lemma_text_less_total(a: Seq<char>, b: Seq<char>)
    requires
        a != b,
    ensures
        text_less(a, b) || text_less(b, a),
    decreases a.len(),
{
    if a.len() > 0 && b.len() > 0 {
        if a[0] == b[0] {
            if a.drop_first() == b.drop_first() {
                assert(a =~= seq![a[0]] + a.drop_first());
                assert(b =~= seq![b[0]] + b.drop_first());
            }
            lemma_text_less_total(a.drop_first(), b.drop_first());
        } else {
            assert((a[0] as int) != (b[0] as int));
        }
    } else if a.len() == 0 && b.len() == 0 {
        assert(a =~= b);
    }
}

/// Whether `a` sorts before `b` as strings (`a < b`).
pub fn text_lt(a: &str, b: &str) -> (r: bool)
    ensures
        r == text_less(a@, b@),
{
    let n = a.unicode_len();
    let m = b.unicode_len();
    let mut i: usize = 0;
    assert(a@.skip(0) =~= a@);
    assert(b@.skip(0) =~= b@);
    loop
        invariant
            n == a@.len(),
            m == b@.len(),
            i <= n,
            i <= m,
            text_less(a@, b@) == text_less(a@.skip(i as int), b@.skip(i as int)),
        decreases n - i,
    {
        if i == n {
            return i < m;
        }
        if i == m {
            return false;
        }
        let x = a.get_char(i);
        let y = b.get_char(i);
        assert(a@.skip(i as int)[0] == x);
        assert(b@.skip(i as int)[0] == y);
        if x != y {
            return (x as u32) < (y as u32);
        }
        assert(a@.skip(i as int).drop_first() =~= a@.skip(i + 1));
        assert(b@.skip(i as int).drop_first() =~= b@.skip(i + 1));
        i = i + 1;
    }
}

/// `s` is sorted as strings: no later entry sorts before an earlier one.
pub open spec fn texts_sorted(s: Seq<Seq<char>>) -> bool {
    forall|i: int, j: int| 0 <= i < j < s.len() ==> !text_less(#[trigger] s[j], #[trigger] s[i])
}

proof fn lemma_insert_to_multiset<A>(s: Seq<A>, k: int, x: A)
    requires
        0 <= k <= s.len(),
    ensures
        s.insert(k, x).to_multiset() =~= s.to_multiset().insert(x),
{
    broadcast use vstd::seq_lib::group_to_multiset_ensures;
    broadcast use vstd::multiset::group_multiset_axioms;
    let t = s.insert(k, x);
    assert(t.remove(k) =~= s);
    assert(t[k] == x);
    assert(t.contains(x));
    assert(t.to_multiset().count(x) > 0);
}

/// The strings of `v` in ascending order (a stable insertion sort by
/// `text_lt`, as `slice::sort` orders `String`s).
pub fn sort_texts(v: Vec<String>) -> (r: Vec<String>)
    ensures
        texts_sorted(views(r@)),
        views(r@).to_multiset() == views(v@).to_multiset(),
{
    broadcast use vstd::seq_lib::group_to_multiset_ensures;
    let n = v.len();
    let mut out: Vec<String> = Vec::new();
    let mut i: usize = 0;
    assert(views(v@).take(0) =~= views(out@));
    while i < n
        invariant
            n == v.len(),
            i <= n,
            texts_sorted(views(out@)),
            views(out@).to_multiset() == views(v@).take(i as int).to_multiset(),
        decreases n - i,
    {
        let x = v[i].clone();
        assert(x@ == views(v@)[i as int]);
        let mut k: usize = 0;
        let mut found = false;
        while k < out.len() && !found
            invariant
                texts_sorted(views(out@)),
                k <= out.len(),
                forall|p: int| 0 <= p < k ==> !text_less(x@, #[trigger] views(out@)[p]),
                found ==> k < out.len() && text_less(x@, views(out@)[k as int]),
            decreases out.len() - k + (if found { 0int } else { 1int }),
        {
            if text_lt(x.as_str(), out[k].as_str()) {
                found = true;
            } else {
                k = k + 1;
            }
        }
        let ghost before = views(out@);
        out.insert(k, x);
        let ghost after = views(out@);
        assert(after =~= before.insert(k as int, x@));
        assert forall|a: int, b: int| 0 <= a < b < after.len() implies !text_less(
            #[trigger] after[b],
            #[trigger] after[a],
        ) by {
            if b < k {
                assert(!text_less(before[b], before[a]));
            } else if b == k {
                assert(!text_less(x@, before[a]));
            } else if a < k {
                assert(!text_less(before[b - 1], before[a]));
            } else if a == k {
                if text_less(before[b - 1], x@) {
                    lemma_text_less_transitive(before[b - 1], x@, before[k as int]);
                    if b - 1 == k {
                        lemma_text_less_irreflexive(x@);
                        lemma_text_less_irreflexive(before[k as int]);
                    } else {
                        assert(!text_less(before[b - 1], before[k as int]));
                    }
                }
            } else {
                assert(!text_less(before[b - 1], before[a - 1]));
            }
        }
        proof {
            lemma_insert_to_multiset(before, k as int, x@);
            assert(views(v@).take(i + 1) =~= views(v@).take(i as int).push(x@));
            assert(views(out@).to_multiset() =~= views(v@).take(i as int).to_multiset().insert(x@));
            views(v@).take(i as int).to_multiset_ensures();
            assert(views(v@).take(i as int).push(x@).to_multiset() =~= views(v@).take(
                i as int,
            ).to_multiset().insert(x@));
        }
        i = i + 1;
    }
    assert(views(v@).take(n as int) =~= views(v@));
    out
}

/// The text made of each entry followed by `'\n'`.
pub open spec fn joined_lines(s: Seq<Seq<char>>) -> Seq<char>
    decreases s.len(),
{
    if s.len() == 0 {
        Seq::empty()
    } else {
        joined_lines(s.drop_last()) + s.last() + seq!['\n']
    }
}

/// Each entry followed by a line break, concatenated (what
/// `entries.join("\n") + "\n"` gives for a non-empty list).
pub fn join_lines(entries: &Vec<String>) -> (r: String)
    ensures
        r@ == joined_lines(views(entries@)),
{
    let mut out = String::new();
    let mut i: usize = 0;
    while i < entries.len()
        invariant
            i <= entries.len(),
            out@ == joined_lines(views(entries@).take(i as int)),
        decreases entries.len() - i,
    {
        assert(views(entries@).take(i + 1).drop_last() =~= views(entries@).take(i as int));
        out.append(entries[i].as_str());
        out.append("\n");
        proof {
            reveal_strlit("\n");
        }
        i = i + 1;
    }
    assert(views(entries@).take(entries.len() as int) =~= views(entries@));
    out
}

/// The view of an optional string.
pub open spec fn opt_view(o: Option<String>) -> Option<Seq<char>> {
    match o {
        Some(s) => Some(s@),
        None => None,
    }
}

/// A copy of an optional string.
pub fn clone_opt(o: &Option<String>) -> (r: Option<String>)
    ensures
        opt_view(r) == opt_view(*o),
{
    match o {
        Some(s) => Some(s.clone()),
        None => None,
    }
}

/// An optional `&str` as an owned optional string.
pub fn owned_opt(o: Option<&str>) -> (r: Option<String>)
    ensures
        r is Some == o is Some,
        r matches Some(s) ==> s@ == o.unwrap()@,
{
    match o {
        Some(s) => Some(owned(s)),
        None => None,
    }
}

/// A copy of a list of strings.
pub fn clone_texts(v: &Vec<String>) -> (r: Vec<String>)
    ensures
        views(r@) == views(v@),
{
    let mut out: Vec<String> = Vec::new();
    let mut i: usize = 0;
    while i < v.len()
        invariant
            i <= v.len(),
            views(out@) == views(v@).take(i as int),
        decreases v.len() - i,
    {
        let ghost before = views(out@);
        out.push(v[i].clone());
        assert(views(out@) =~= before.push(v@[i as int]@));
        assert(views(v@).take(i + 1) =~= views(v@).take(i as int).push(v@[i as int]@));
        i = i + 1;
    }
    assert(views(v@).take(v.len() as int) =~= views(v@));
    out
}

/// The view of an optional `&str`.
pub open spec fn opt_str_view(o: Option<&str>) -> Option<Seq<char>> {
    match o {
        Some(s) => Some(s@),
        None => None,
    }
}

/// A line that `str::lines` gives back as it is: no `'\n'` in it, and no
/// `'\r'` at its end.
pub open spec fn plain_line(l: Seq<char>) -> bool {
    (forall|i: int| 0 <= i < l.len() ==> l[i] != '\n') && !(l.len() > 0 && l.last() == '\r')
}

proof fn lemma_joined_cons(a: Seq<char>, t: Seq<Seq<char>>)
    ensures
        joined_lines(seq![a] + t) == a + seq!['\n'] + joined_lines(t),
    decreases t.len(),
{
    if t.len() == 0 {
        assert(seq![a] + t =~= seq![a]);
        assert(seq![a].drop_last() =~= Seq::<Seq<char>>::empty());
        assert(joined_lines(Seq::<Seq<char>>::empty()) == Seq::<char>::empty());
        assert(seq![a].last() == a);
        assert(joined_lines(seq![a]) == joined_lines(seq![a].drop_last()) + a + seq!['\n']);
        assert(joined_lines(seq![a]) =~= a + seq!['\n']);
    } else {
        lemma_joined_cons(a, t.drop_last());
        assert((seq![a] + t).drop_last() =~= seq![a] + t.drop_last());
        assert((seq![a] + t).last() == t.last());
        assert(joined_lines(seq![a] + t) =~= a + seq!['\n'] + joined_lines(t));
    }
}

/// Splitting joined plain lines gives the lines back.
pub proof fn lemma_lines_of_joined(s: Seq<Seq<char>>)
    requires
        forall|i: int| 0 <= i < s.len() ==> #[trigger] plain_line(s[i]),
    ensures
        lines_of(joined_lines(s)) == s,
    decreases s.len(),
{
    if s.len() == 0 {
        assert(joined_lines(s) =~= Seq::<char>::empty());
        assert(lines_of(joined_lines(s)) =~= s);
    } else {
        let a = s[0];
        let t = s.drop_first();
        assert(s =~= seq![a] + t);
        lemma_joined_cons(a, t);
        let j = joined_lines(s);
        assert(j == a + seq!['\n'] + joined_lines(t));
        assert(plain_line(a));
        assert forall|i: int| 0 <= i < t.len() implies #[trigger] plain_line(t[i]) by {
            assert(t[i] == s[i + 1]);
        }
        lemma_lines_of_joined(t);
        assert forall|k: int| 0 <= k < a.len() implies j[k] != '\n' by {
            assert(j[k] == a[k]);
        }
        assert(j[a.len() as int] == '\n');
        lemma_newline_index_at(j, a.len() as int);
        assert(j.take(a.len() as int) =~= a);
        assert(j.skip(a.len() as int + 1) =~= joined_lines(t));
        assert(without_cr(a) == a);
        assert(lines_of(j) =~= seq![a] + lines_of(joined_lines(t)));
    }
}

} // verus!
