//! A table from package names to version requirement texts, as manifests and
//! registry metadata list their dependencies. Entries keep the order in which
//! they were added, and no name occurs twice.

use vstd::prelude::*;
use crate::text::owned;

verus! {

/// The map that a list of (name, requirement) entries stands for: a later
/// entry for a name replaces an earlier one.
pub open spec fn map_of(s: Seq<(Seq<char>, Seq<char>)>) -> Map<Seq<char>, Seq<char>>
    decreases s.len(),
{
    if s.len() == 0 {
        Map::empty()
    } else {
        map_of(s.drop_last()).insert(s.last().0, s.last().1)
    }
}

/// No name occurs twice among the entries.
pub open spec fn unique_names(s: Seq<(Seq<char>, Seq<char>)>) -> bool {
    forall|i: int, j: int| 0 <= i < j < s.len() ==> #[trigger] s[i].0 != #[trigger] s[j].0
}

/// The names that occur among the entries are the domain of the map, and with
/// unique names each entry gives its name's value.
pub proof fn lemma_map_of(s: Seq<(Seq<char>, Seq<char>)>)
    ensures
        map_of(s).dom().finite(),
        forall|k: Seq<char>|
            #[trigger] map_of(s).contains_key(k) <==> exists|i: int| 0 <= i < s.len() && s[i].0 == k,
        unique_names(s) ==> forall|i: int|
            0 <= i < s.len() ==> #[trigger] map_of(s)[s[i].0] == s[i].1,
    decreases s.len(),
{
    if s.len() > 0 {
        let t = s.drop_last();
        lemma_map_of(t);
        assert forall|k: Seq<char>| #[trigger]
            map_of(s).contains_key(k) <==> exists|i: int| 0 <= i < s.len() && s[i].0 == k by {
            if map_of(s).contains_key(k) && k != s.last().0 {
                let i = choose|i: int| 0 <= i < t.len() && t[i].0 == k;
                assert(s[i].0 == k);
            }
            if exists|i: int| 0 <= i < s.len() && s[i].0 == k {
                let i = choose|i: int| 0 <= i < s.len() && s[i].0 == k;
                if i < t.len() {
                    assert(t[i].0 == k);
                }
            }
        }
        if unique_names(s) {
            assert(unique_names(t));
            assert forall|i: int| 0 <= i < s.len() implies #[trigger] map_of(s)[s[i].0]
                == s[i].1 by {
                if i < t.len() {
                    assert(t[i] == s[i]);
                    assert(s[i].0 != s[s.len() - 1].0);
                }
            }
        }
    }
}

/// Removing the entry at index `i` removes its name from the map.
pub proof fn lemma_map_of_remove(s: Seq<(Seq<char>, Seq<char>)>, i: int)
    requires
        unique_names(s),
        0 <= i < s.len(),
    ensures
        unique_names(s.remove(i)),
        map_of(s.remove(i)) == map_of(s).remove(s[i].0),
{
    let r = s.remove(i);
    assert(unique_names(r)) by {
        assert forall|a: int, b: int| 0 <= a < b < r.len() implies #[trigger] r[a].0
            != #[trigger] r[b].0 by {
            let a0 = if a < i { a } else { a + 1 };
            let b0 = if b < i { b } else { b + 1 };
            assert(r[a] == s[a0]);
            assert(r[b] == s[b0]);
        }
    }
    lemma_map_of(s);
    lemma_map_of(r);
    assert forall|k: Seq<char>| #[trigger] map_of(r).contains_key(k) <==> map_of(s).remove(
        s[i].0,
    ).contains_key(k) by {
        if map_of(r).contains_key(k) {
            let j = choose|j: int| 0 <= j < r.len() && r[j].0 == k;
            let j0 = if j < i { j } else { j + 1 };
            assert(r[j] == s[j0]);
        }
        if map_of(s).remove(s[i].0).contains_key(k) {
            let j = choose|j: int| 0 <= j < s.len() && s[j].0 == k;
            assert(j != i);
            if j < i {
                assert(r[j] == s[j]);
            } else {
                assert(r[j - 1] == s[j]);
            }
        }
    }
    assert forall|k: Seq<char>| #[trigger] map_of(r).contains_key(k) implies map_of(r)[k] == map_of(
        s,
    )[k] by {
        let j = choose|j: int| 0 <= j < r.len() && r[j].0 == k;
        let j0 = if j < i { j } else { j + 1 };
        assert(r[j] == s[j0]);
    }
    assert(map_of(r) =~= map_of(s).remove(s[i].0));
}

/// Dependency names mapped to version requirement texts, in the order added.
pub struct DependencyMap {
    entries: Vec<(String, String)>,
}

impl DependencyMap {
    /// The entries, name and requirement, in order.
    pub closed spec fn pairs(&self) -> Seq<(Seq<char>, Seq<char>)> {
        self.entries@.map_values(|e: (String, String)| (e.0@, e.1@))
    }

    /// The table as a map from names to requirement texts.
    pub open spec fn view(&self) -> Map<Seq<char>, Seq<char>> {
        map_of(self.pairs())
    }

    /// No name occurs twice.
    pub open spec fn wf(&self) -> bool {
        unique_names(self.pairs())
    }

    /// What the entries say of the map: its domain is finite, and each entry
    /// gives the value of its name.
    pub proof fn lemma_view(&self)
        requires
            self.wf(),
        ensures
            self@.dom().finite(),
            forall|i: int| 0 <= i < self.pairs().len() ==> #[trigger] self@[self.pairs()[i].0] == self.pairs()[i].1,
            forall|i: int| 0 <= i < self.pairs().len() ==> #[trigger] self@.contains_key(self.pairs()[i].0),
            forall|k: Seq<char>|
                #[trigger] self@.contains_key(k) <==> exists|i: int|
                    0 <= i < self.pairs().len() && self.pairs()[i].0 == k,
            self@.len() == self.pairs().len(),
    {
        lemma_map_of(self.pairs());
        lemma_unique_len(self.pairs());
    }

    /// An empty table.
    pub fn new() -> (r: DependencyMap)
        ensures
            r.wf(),
            r@ == Map::<Seq<char>, Seq<char>>::empty(),
            r.pairs().len() == 0,
    {
        let r = DependencyMap { entries: Vec::new() };
        assert(r.pairs() =~= Seq::empty());
        r
    }

    /// The number of entries.
    pub fn len(&self) -> (r: usize)
        ensures
            r == self.pairs().len(),
    {
        self.entries.len()
    }

    /// Whether the table has no entry.
    pub fn is_empty(&self) -> (r: bool)
        ensures
            r == (self.pairs().len() == 0),
    {
        self.entries.len() == 0
    }

    /// The name of entry `i`.
    pub fn name_at(&self, i: usize) -> (r: &String)
        requires
            i < self.pairs().len(),
        ensures
            r@ == self.pairs()[i as int].0,
    {
        &self.entries[i].0
    }

    /// The requirement text of entry `i`.
    pub fn requirement_at(&self, i: usize) -> (r: &String)
        requires
            i < self.pairs().len(),
        ensures
            r@ == self.pairs()[i as int].1,
    {
        &self.entries[i].1
    }

    /// The index of the entry for `name`, if there is one.
    pub fn position(&self, name: &str) -> (r: Option<usize>)
        ensures
            r matches Some(i) ==> i < self.pairs().len() && self.pairs()[i as int].0 == name@,
            r is None ==> forall|i: int|
                0 <= i < self.pairs().len() ==> #[trigger] self.pairs()[i].0 != name@,
    {
        let key = owned(name);
        let mut i: usize = 0;
        while i < self.entries.len()
            invariant
                i <= self.entries.len(),
                key@ == name@,
                forall|j: int| 0 <= j < i ==> #[trigger] self.pairs()[j].0 != name@,
            decreases self.entries.len() - i,
        {
            if self.entries[i].0 == key {
                return Some(i);
            }
            i = i + 1;
        }
        None
    }

    /// Whether the table has an entry for `name`.
    pub fn contains_key(&self, name: &str) -> (r: bool)
        requires
            self.wf(),
        ensures
            r == self@.contains_key(name@),
    {
        proof {
            self.lemma_view();
        }
        self.position(name).is_some()
    }

    /// The requirement text for `name`, if there is an entry for it.
    pub fn get(&self, name: &str) -> (r: Option<&String>)
        requires
            self.wf(),
        ensures
            r is Some == self@.contains_key(name@),
            r matches Some(v) ==> v@ == self@[name@],
    {
        proof {
            self.lemma_view();
        }
        match self.position(name) {
            Some(i) => Some(&self.entries[i].1),
            None => None,
        }
    }

    /// Adds an entry for a name that has none; it comes last.
    pub fn push_new(&mut self, name: &str, requirement: &str)
        requires
            old(self).wf(),
            !old(self)@.contains_key(name@),
        ensures
            final(self).wf(),
            final(self)@ == old(self)@.insert(name@, requirement@),
            final(self).pairs() == old(self).pairs().push((name@, requirement@)),
    {
        proof {
            old(self).lemma_view();
        }
        let ghost before = self.pairs();
        self.entries.push((owned(name), owned(requirement)));
        assert(self.pairs() =~= before.push((name@, requirement@)));
        assert(self.pairs().drop_last() =~= before);
        assert forall|i: int, j: int| 0 <= i < j < self.pairs().len() implies #[trigger] self.pairs()[i].0
            != #[trigger] self.pairs()[j].0 by {
            if j == before.len() {
                assert(before[i].0 != name@);
            } else {
                assert(before[i].0 != before[j].0);
            }
        }
    }

    /// Sets the requirement for `name`: the entry is replaced in place if
    /// there is one, else added last (as `HashMap::insert` sets a value).
    pub fn insert(&mut self, name: &str, requirement: &str)
        requires
            old(self).wf(),
        ensures
            final(self).wf(),
            final(self)@ == old(self)@.insert(name@, requirement@),
            !old(self)@.contains_key(name@) ==> final(self).pairs() == old(self).pairs().push(
                (name@, requirement@),
            ),
            old(self)@.contains_key(name@) ==> exists|i: int|
                0 <= i < old(self).pairs().len() && #[trigger] old(self).pairs()[i].0 == name@
                    && final(self).pairs() == old(self).pairs().update(i, (name@, requirement@)),
    {
        match self.position(name) {
            Some(i) => {
                proof {
                    old(self).lemma_view();
                }
                let ghost before = self.pairs();
                self.entries.set(i, (owned(name), owned(requirement)));
                assert(self.pairs() =~= before.update(i as int, (name@, requirement@)));
                assert forall|a: int, b: int| 0 <= a < b < self.pairs().len() implies #[trigger] self.pairs()[a].0
                    != #[trigger] self.pairs()[b].0 by {
                    assert(before[a].0 != before[b].0);
                }
                proof {
                    self.lemma_view();
                }
                assert forall|k: Seq<char>| #[trigger] self@.contains_key(k) <==> old(self)@.insert(
                    name@,
                    requirement@,
                ).contains_key(k) by {
                    if self@.contains_key(k) {
                        let j = choose|j: int| 0 <= j < self.pairs().len() && self.pairs()[j].0 == k;
                        if j != i {
                            assert(before[j].0 == k);
                        }
                    }
                    if old(self)@.contains_key(k) {
                        let j = choose|j: int| 0 <= j < before.len() && before[j].0 == k;
                        assert(self.pairs()[j].0 == k);
                    }
                }
                assert forall|k: Seq<char>| #[trigger] self@.contains_key(k) implies self@[k]
                    == old(self)@.insert(name@, requirement@)[k] by {
                    let j = choose|j: int| 0 <= j < self.pairs().len() && self.pairs()[j].0 == k;
                    if j != i {
                        assert(before[j] == self.pairs()[j]);
                    }
                }
                assert(self@ =~= old(self)@.insert(name@, requirement@));
                assert(before[i as int].0 == name@);
            },
            None => {
                proof {
                    old(self).lemma_view();
                }
                self.push_new(name, requirement);
            },
        }
    }

    /// Removes the entry for `name` and gives back its requirement text, or
    /// `None` when there is none (the table is then unchanged).
    pub fn remove(&mut self, name: &str) -> (r: Option<String>)
        requires
            old(self).wf(),
        ensures
            final(self).wf(),
            final(self)@ == old(self)@.remove(name@),
            r is Some == old(self)@.contains_key(name@),
            r matches Some(v) ==> v@ == old(self)@[name@],
            r is None ==> final(self).pairs() == old(self).pairs(),
            r is Some ==> exists|i: int|
                0 <= i < old(self).pairs().len() && #[trigger] old(self).pairs()[i].0 == name@
                    && final(self).pairs() == old(self).pairs().remove(i),
    {
        proof {
            old(self).lemma_view();
        }
        match self.position(name) {
            Some(i) => {
                let ghost before = self.pairs();
                let (_, v) = self.entries.remove(i);
                assert(self.pairs() =~= before.remove(i as int));
                proof {
                    lemma_map_of_remove(before, i as int);
                }
                Some(v)
            },
            None => {
                assert(old(self)@.remove(name@) =~= old(self)@);
                None
            },
        }
    }
}

/// With unique names, the map has as many keys as there are entries.
pub proof fn lemma_unique_len(s: Seq<(Seq<char>, Seq<char>)>)
    requires
        unique_names(s),
    ensures
        map_of(s).len() == s.len(),
    decreases s.len(),
{
    if s.len() > 0 {
        let t = s.drop_last();
        assert(unique_names(t));
        lemma_unique_len(t);
        lemma_map_of(t);
        assert(!map_of(t).contains_key(s.last().0)) by {
            if map_of(t).contains_key(s.last().0) {
                let i = choose|i: int| 0 <= i < t.len() && t[i].0 == s.last().0;
                assert(s[i].0 == s[s.len() - 1].0);
            }
        }
    }
}

impl Clone for DependencyMap {
    fn clone(&self) -> (r: Self)
        ensures
            r.pairs() == self.pairs(),
    {
        let mut entries: Vec<(String, String)> = Vec::new();
        let mut i: usize = 0;
        while i < self.entries.len()
            invariant
                i <= self.entries.len(),
                entries@.map_values(|e: (String, String)| (e.0@, e.1@)) == self.pairs().take(
                    i as int,
                ),
            decreases self.entries.len() - i,
        {
            let ghost before = entries@.map_values(|e: (String, String)| (e.0@, e.1@));
            entries.push((self.entries[i].0.clone(), self.entries[i].1.clone()));
            assert(entries@.map_values(|e: (String, String)| (e.0@, e.1@)) =~= before.push(
                self.pairs()[i as int],
            ));
            assert(self.pairs().take(i + 1) =~= self.pairs().take(i as int).push(
                self.pairs()[i as int],
            ));
            i = i + 1;
        }
        assert(self.pairs().take(i as int) =~= self.pairs());
        DependencyMap { entries }
    }
}

} // verus!
