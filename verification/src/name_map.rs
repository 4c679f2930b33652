//! A map from names to values that is kept sorted by name.

use vstd::prelude::*;
use crate::names::{
    lemma_name_lt_total, lemma_name_lt_transitive, lemma_strictly_sorted_distinct, name_equal,
    name_less, name_lt, strictly_sorted,
};

verus! {

/// One entry of a [`NameMap`].
pub struct NameEntry<V> {
    pub name: String,
    pub value: V,
}

/// A map keyed by name. Its entries are held in the order of their names, so
/// that walking it gives the same sequence whatever the order of insertion.
pub struct NameMap<V> {
    pub entries: Vec<NameEntry<V>>,
}

impl<V> NameMap<V> {
    /// The names of the entries, in the order in which they are held.
    pub open spec fn names(&self) -> Seq<Seq<char>> {
        Seq::new(self.entries@.len(), |i: int| self.entries@[i].name@)
    }

    /// The invariant: names strictly increase, so none occurs twice.
    pub open spec fn wf(&self) -> bool {
        strictly_sorted(self.names())
    }

    pub open spec fn contains_name(&self, name: Seq<char>) -> bool {
        exists|i: int| 0 <= i < self.entries@.len() && self.entries@[i].name@ == name
    }

    /// The place of `name` among the entries, where there is one.
    pub open spec fn index_of(&self, name: Seq<char>) -> int {
        choose|i: int| 0 <= i < self.entries@.len() && self.entries@[i].name@ == name
    }

    /// The value stored under `name`.
    pub open spec fn value_of(&self, name: Seq<char>) -> Option<V> {
        if self.contains_name(name) {
            Some(self.entries@[self.index_of(name)].value)
        } else {
            None
        }
    }

    /// In a well-formed map the entry at `i` is the one found under its name.
    pub proof fn lemma_index_of(&self, i: int)
        requires
            self.wf(),
            0 <= i < self.entries@.len(),
        ensures
            self.contains_name(self.entries@[i].name@),
            self.index_of(self.entries@[i].name@) == i,
            self.value_of(self.entries@[i].name@) == Some(self.entries@[i].value),
    {
        let name = self.entries@[i].name@;
        let j = self.index_of(name);
        assert(self.names()[i] == self.names()[j]);
        lemma_strictly_sorted_distinct(self.names(), i, j);
    }

    pub fn new() -> (map: Self)
        ensures
            map.wf(),
            map.entries@.len() == 0,
    {
        NameMap { entries: Vec::new() }
    }

    pub fn len(&self) -> (n: usize)
        ensures
            n == self.entries@.len(),
    {
        self.entries.len()
    }

    /// The place of `name` among the entries.
    pub fn find(&self, name: &str) -> (found: Option<usize>)
        ensures
            match found {
                Some(i) => i < self.entries@.len() && self.entries@[i as int].name@ == name@
                    && forall|j: int| 0 <= j < i ==> self.entries@[j].name@ != name@,
                None => !self.contains_name(name@),
            },
    {
        let mut i: usize = 0;
        while i < self.entries.len()
            invariant
                i <= self.entries@.len(),
                forall|j: int| 0 <= j < i ==> self.entries@[j].name@ != name@,
            decreases self.entries@.len() - i,
        {
            if name_equal(self.entries[i].name.as_str(), name) {
                return Some(i);
            }
            i += 1;
        }
        None
    }

    /// The value stored under `name`.
    pub fn get(&self, name: &str) -> (value: Option<&V>)
        requires
            self.wf(),
        ensures
            match value {
                Some(v) => self.value_of(name@) == Some(*v),
                None => self.value_of(name@) is None,
            },
    {
        match self.find(name) {
            Some(i) => {
                proof {
                    self.lemma_index_of(i as int);
                }
                Some(&self.entries[i].value)
            },
            None => None,
        }
    }

    /// Stores `value` under `name`, in place of what was stored there before.
    pub fn insert(&mut self, name: String, value: V)
        requires
            old(self).wf(),
        ensures
            final(self).wf(),
            forall|k: Seq<char>|
                #![trigger final(self).contains_name(k)]
                final(self).contains_name(k) == (k == name@ || old(self).contains_name(k)),
            forall|k: Seq<char>|
                #![trigger final(self).value_of(k)]
                final(self).value_of(k) == if k == name@ {
                    Some(value)
                } else {
                    old(self).value_of(k)
                },
    {
        let ghost before = *self;
        let mut p: usize = 0;
        while p < self.entries.len() && name_less(self.entries[p].name.as_str(), name.as_str())
            invariant
                *self == before,
                p <= self.entries@.len(),
                forall|i: int| 0 <= i < p ==> name_lt(#[trigger] self.entries@[i].name@, name@),
            decreases self.entries@.len() - p,
        {
            p += 1;
        }
        let replace = p < self.entries.len() && name_equal(
            self.entries[p].name.as_str(),
            name.as_str(),
        );
        let ghost key = name@;
        if replace {
            self.entries.set(p, NameEntry { name, value });
            assert(self.names() =~= before.names());
        } else {
            self.entries.insert(p, NameEntry { name, value });
            assert(self.names() =~= before.names().insert(p as int, key));
            assert forall|i: int, j: int| 0 <= i < j < self.names().len() implies name_lt(
                self.names()[i],
                self.names()[j],
            ) by {
                if j == p {
                    assert(self.names()[i] == before.entries@[i].name@);
                } else if i == p {
                    let q = p as int;
                    assert(self.names()[j] == before.names()[j - 1]);
                    if !name_lt(key, before.names()[q]) {
                        lemma_name_lt_total(key, before.names()[q]);
                    }
                    if j - 1 > q {
                        assert(name_lt(before.names()[q], before.names()[j - 1]));
                        lemma_name_lt_transitive(key, before.names()[q], before.names()[j - 1]);
                    }
                } else {
                    let i0 = if i < p { i } else { i - 1 };
                    let j0 = if j < p { j } else { j - 1 };
                    assert(self.names()[i] == before.names()[i0]);
                    assert(self.names()[j] == before.names()[j0]);
                    assert(name_lt(before.names()[i0], before.names()[j0]));
                }
            }
        }
        proof {
            let after = *self;
            let q = p as int;
            assert(after.entries@[q].name@ == key);
            assert(after.entries@[q].value == value);
            after.lemma_index_of(q);
            assert forall|k: Seq<char>| k != key implies (#[trigger] after.contains_name(k))
                == before.contains_name(k) && after.value_of(k) == before.value_of(k) by {
                if before.contains_name(k) {
                    let i = before.index_of(k);
                    let i1 = if replace || i < q { i } else { i + 1 };
                    assert(after.entries@[i1] == before.entries@[i]);
                    after.lemma_index_of(i1);
                }
                if after.contains_name(k) {
                    let i = after.index_of(k);
                    let i0 = if replace || i < q { i } else { i - 1 };
                    assert(after.entries@[i] == before.entries@[i0]);
                    before.lemma_index_of(i0);
                    after.lemma_index_of(i);
                }
            }
        }
    }

    /// Whether the invariant holds of the entries as they stand.
    pub fn is_sorted(&self) -> (ok: bool)
        ensures
            ok == self.wf(),
    {
        let mut k: usize = 1;
        while k < self.entries.len()
            invariant
                1 <= k,
                forall|i: int, j: int|
                    0 <= i < j < k && j < self.entries@.len() ==> name_lt(
                        self.names()[i],
                        self.names()[j],
                    ),
            decreases self.entries@.len() - k,
        {
            if !name_less(self.entries[k - 1].name.as_str(), self.entries[k].name.as_str()) {
                assert(!name_lt(self.names()[k - 1], self.names()[k as int]));
                return false;
            }
            assert forall|i: int, j: int| 0 <= i < j < k + 1 implies name_lt(
                self.names()[i],
                self.names()[j],
            ) by {
                if j == k && i < k - 1 {
                    lemma_name_lt_transitive(
                        self.names()[i],
                        self.names()[k - 1],
                        self.names()[k as int],
                    );
                }
            }
            k += 1;
        }
        true
    }
}

} // verus!
