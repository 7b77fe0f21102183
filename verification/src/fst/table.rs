//! Name-keyed tables of compiled machines (class tables, map tables, slot
//! caches).

use vstd::prelude::*;

use super::backend::{first_index, lemma_first_index};
use super::machine::{copy_fst, Fst};
use crate::text::str_eq;

verus! {

/// Machines by name. A name maps to the machine of its first entry;
/// [`FstTable::insert`] keeps names unique.
#[derive(Debug, Clone)]
pub struct FstTable {
    pub entries: Vec<(String, Fst)>,
}

impl FstTable {
    /// The names, in entry order.
    pub open spec fn keys(&self) -> Seq<Seq<char>> {
        self.entries@.map_values(|e: (String, Fst)| e.0@)
    }

    /// The machine stored under `name`, if any.
    pub open spec fn spec_get(&self, name: Seq<char>) -> Option<Fst> {
        match first_index(self.keys(), name) {
            Some(i) => Some(self.entries@[i].1),
            None => None,
        }
    }

    /// Every stored machine is well formed.
    pub open spec fn wf(&self) -> bool {
        forall|i: int| 0 <= i < self.entries@.len() ==> (#[trigger] self.entries@[i]).1.wf()
    }

    /// Stored machines are well formed.
    pub proof fn lemma_get_wf(&self, name: Seq<char>)
        requires
            self.wf(),
        ensures
            self.spec_get(name) matches Some(f) ==> f.wf(),
    {
        lemma_first_index(self.keys(), name);
    }

    /// The empty table.
    pub fn new() -> (t: Self)
        ensures
            t.wf(),
            t.entries@.len() == 0,
            forall|n: Seq<char>| t.spec_get(n) is None,
    {
        FstTable { entries: Vec::new() }
    }

    /// Index of the first entry named `name`.
    fn find(&self, name: &str) -> (r: Option<usize>)
        ensures
            match r {
                Some(i) => first_index(self.keys(), name@) == Some(i as int) && (i as int) < self.entries@.len(),
                None => first_index(self.keys(), name@) is None,
            },
    {
        proof {
            lemma_first_index(self.keys(), name@);
        }
        let mut i: usize = 0;
        while i < self.entries.len()
            invariant
                i <= self.entries@.len(),
                self.keys().len() == self.entries@.len(),
                forall|j: int| 0 <= j < i ==> self.keys()[j] != name@,
                match first_index(self.keys(), name@) {
                    Some(k) => 0 <= k < self.keys().len() && self.keys()[k] == name@
                        && forall|j: int| 0 <= j < k ==> self.keys()[j] != name@,
                    None => forall|j: int| 0 <= j < self.keys().len() ==> self.keys()[j] != name@,
                },
            decreases self.entries@.len() - i,
        {
            if str_eq(self.entries[i].0.as_str(), name) {
                assert(self.keys()[i as int] == name@);
                return Some(i);
            }
            assert(self.keys()[i as int] == self.entries@[i as int].0@);
            i = i + 1;
        }
        None
    }

    /// The machine stored under `name`.
    pub fn get(&self, name: &str) -> (r: Option<&Fst>)
        ensures
            match self.spec_get(name@) {
                Some(f) => r is Some && *r->0 == f,
                None => r is None,
            },
    {
        match self.find(name) {
            Some(i) => Some(&self.entries[i].1),
            None => None,
        }
    }

    /// Whether some entry is named `name`.
    pub fn contains_key(&self, name: &str) -> (b: bool)
        ensures
            b == self.spec_get(name@) is Some,
    {
        self.find(name).is_some()
    }

    /// Store `f` under `name`, replacing the machine stored there before.
    pub fn insert(&mut self, name: String, f: Fst)
        requires
            old(self).wf(),
            f.wf(),
        ensures
            final(self).wf(),
            final(self).spec_get(name@) == Some(f),
            forall|n: Seq<char>| n != name@ ==> #[trigger] final(self).spec_get(n) == old(self).spec_get(n),
    {
        let ghost k0 = self.keys();
        proof {
            lemma_first_index(k0, name@);
        }
        match self.find(name.as_str()) {
            Some(i) => {
                self.entries.set(i, (name, f));
                proof {
                    assert(self.keys() =~= k0);
                    assert(self.spec_get(name@) == Some(f));
                    assert forall|n: Seq<char>| n != name@ implies #[trigger] self.spec_get(n) == old(self).spec_get(n) by {
                        lemma_first_index(k0, n);
                        assert(first_index(self.keys(), n) == first_index(k0, n));
                        if first_index(k0, n) is Some {
                            let j = first_index(k0, n)->0;
                            assert(k0[j] == n);
                            assert(k0[i as int] == name@);
                            assert(j != i);
                            assert(self.entries@[j] == old(self).entries@[j]);
                            assert(self.spec_get(n) == Some(self.entries@[j].1));
                            assert(old(self).spec_get(n) == Some(old(self).entries@[j].1));
                        }
                    }
                }
            },
            None => {
                self.entries.push((name, f));
                proof {
                    assert(self.keys() =~= k0.push(name@));
                    assert forall|n: Seq<char>| n != name@ implies #[trigger] self.spec_get(n) == old(self).spec_get(n) by {
                        lemma_first_index_push_other(k0, name@, n);
                        lemma_first_index(k0, n);
                        if first_index(k0, n) is Some {
                            let j = first_index(k0, n)->0;
                            assert(self.entries@[j] == old(self).entries@[j]);
                        }
                    }
                    lemma_first_index_push_new(k0, name@);
                }
            },
        }
    }
}

pub(crate) proof fn lemma_first_index_push_other(names: Seq<Seq<char>>, m: Seq<char>, n: Seq<char>)
    requires
        m != n,
    ensures
        first_index(names.push(m), n) == first_index(names, n),
{
    assert(names.push(m).drop_last() == names);
}

pub(crate) proof fn lemma_first_index_push_new(names: Seq<Seq<char>>, m: Seq<char>)
    requires
        first_index(names, m) is None,
    ensures
        first_index(names.push(m), m) == Some(names.len() as int),
{
    assert(names.push(m).drop_last() == names);
}

/// Member symbols of classes, by class name.
#[derive(Debug, Clone)]
pub struct ClassMembers {
    pub entries: Vec<(String, Vec<String>)>,
}

impl ClassMembers {
    /// The names, in entry order.
    pub open spec fn keys(&self) -> Seq<Seq<char>> {
        self.entries@.map_values(|e: (String, Vec<String>)| e.0@)
    }

    /// The members stored under `name`, if any.
    pub open spec fn spec_get(&self, name: Seq<char>) -> Option<Seq<String>> {
        match first_index(self.keys(), name) {
            Some(i) => Some(self.entries@[i].1@),
            None => None,
        }
    }

    /// The empty table.
    pub fn new() -> (t: Self)
        ensures
            forall|n: Seq<char>| t.spec_get(n) is None,
    {
        ClassMembers { entries: Vec::new() }
    }

    /// The members stored under `name`.
    pub fn get(&self, name: &str) -> (r: Option<&Vec<String>>)
        ensures
            match self.spec_get(name@) {
                Some(m) => r is Some && r->0@ == m,
                None => r is None,
            },
    {
        proof {
            lemma_first_index(self.keys(), name@);
        }
        let mut i: usize = 0;
        while i < self.entries.len()
            invariant
                i <= self.entries@.len(),
                self.keys().len() == self.entries@.len(),
                forall|j: int| 0 <= j < i ==> self.keys()[j] != name@,
                match first_index(self.keys(), name@) {
                    Some(k) => 0 <= k < self.keys().len() && self.keys()[k] == name@
                        && forall|j: int| 0 <= j < k ==> self.keys()[j] != name@,
                    None => forall|j: int| 0 <= j < self.keys().len() ==> self.keys()[j] != name@,
                },
            decreases self.entries@.len() - i,
        {
            if str_eq(self.entries[i].0.as_str(), name) {
                assert(self.keys()[i as int] == name@);
                return Some(&self.entries[i].1);
            }
            assert(self.keys()[i as int] == self.entries@[i as int].0@);
            i = i + 1;
        }
        None
    }

    /// Store `members` under `name`, replacing what was stored there.
    pub fn insert(&mut self, name: String, members: Vec<String>)
        ensures
            final(self).spec_get(name@) == Some(members@),
            forall|n: Seq<char>| n != name@ ==> #[trigger] final(self).spec_get(n) == old(self).spec_get(n),
    {
        let ghost k0 = self.keys();
        proof {
            lemma_first_index(k0, name@);
        }
        let mut i: usize = 0;
        while i < self.entries.len()
            invariant
                i <= self.entries@.len(),
                self.entries@ == old(self).entries@,
                k0 == self.keys(),
                forall|j: int| 0 <= j < i ==> k0[j] != name@,
                match first_index(k0, name@) {
                    Some(k) => 0 <= k < k0.len() && k0[k] == name@ && forall|j: int| 0 <= j < k ==> k0[j] != name@,
                    None => forall|j: int| 0 <= j < k0.len() ==> k0[j] != name@,
                },
            decreases self.entries@.len() - i,
        {
            if str_eq(self.entries[i].0.as_str(), name.as_str()) {
                assert(k0[i as int] == name@);
                self.entries.set(i, (name, members));
                proof {
                    assert(self.keys() =~= k0);
                    assert forall|n: Seq<char>| n != name@ implies #[trigger] self.spec_get(n) == old(self).spec_get(n) by {
                        lemma_first_index(k0, n);
                        if first_index(k0, n) is Some {
                            let j = first_index(k0, n)->0;
                            assert(k0[j] == n);
                            assert(self.entries@[j] == old(self).entries@[j]);
                        }
                    }
                }
                return;
            }
            assert(k0[i as int] == self.entries@[i as int].0@);
            i = i + 1;
        }
        self.entries.push((name, members));
        proof {
            assert(self.keys() =~= k0.push(name@));
            lemma_first_index_push_new(k0, name@);
            assert forall|n: Seq<char>| n != name@ implies #[trigger] self.spec_get(n) == old(self).spec_get(n) by {
                lemma_first_index_push_other(k0, name@, n);
                lemma_first_index(k0, n);
                if first_index(k0, n) is Some {
                    let j = first_index(k0, n)->0;
                    assert(self.entries@[j] == old(self).entries@[j]);
                }
            }
        }
    }
}

} // verus!
