//! Small associative containers keyed by node- or way-id strings.
//!
//! Ids are opaque strings. Lookups compare string contents, and the
//! containers keep their entries in insertion order so that every
//! operation of the library is deterministic.
use vstd::prelude::*;

verus! {

/// Whether some string of `s` has contents `id`.
pub open spec fn seq_has_id(s: Seq<String>, id: Seq<char>) -> bool {
    exists|i: int| 0 <= i < s.len() && s[i]@ == id
}

/// The position of the string with contents `id`, if any.
pub open spec fn id_index(s: Seq<String>, id: Seq<char>) -> int {
    choose|i: int| 0 <= i < s.len() && s[i]@ == id
}

/// Whether the strings of `s` are pairwise distinct by contents.
pub open spec fn distinct_ids(s: Seq<String>) -> bool {
    forall|i: int, j: int| 0 <= i < j < s.len() ==> s[i]@ != s[j]@
}

/// A set of id strings, kept in insertion order without duplicates.
pub struct IdSet {
    pub items: Vec<String>,
}

impl IdSet {
    pub open spec fn wf(&self) -> bool {
        distinct_ids(self.items@)
    }

    /// The mathematical set of id contents this holds.
    pub open spec fn spec_has(&self, id: Seq<char>) -> bool {
        seq_has_id(self.items@, id)
    }

    pub open spec fn spec_len(&self) -> nat {
        self.items@.len()
    }

    pub fn new() -> (r: IdSet)
        ensures
            r.wf(),
            r.spec_len() == 0,
            forall|id: Seq<char>| !r.spec_has(id),
    {
        IdSet { items: Vec::new() }
    }

    pub fn contains(&self, id: &String) -> (r: bool)
        ensures
            r == self.spec_has(id@),
    {
        let mut i: usize = 0;
        while i < self.items.len()
            invariant
                0 <= i <= self.items@.len(),
                forall|j: int| 0 <= j < i ==> self.items@[j]@ != id@,
            decreases self.items@.len() - i,
        {
            if self.items[i] == *id {
                return true;
            }
            i = i + 1;
        }
        false
    }

    /// Adds `id` if it is not yet present.
    pub fn insert(&mut self, id: String)
        requires
            old(self).wf(),
        ensures
            final(self).wf(),
            final(self).spec_has(id@),
            forall|id2: Seq<char>|
                id2 != id@ ==> final(self).spec_has(id2) == old(self).spec_has(id2),
            old(self).spec_has(id@) ==> *final(self) == *old(self),
            !old(self).spec_has(id@) ==> final(self).items@ == old(self).items@.push(id),
    {
        if !self.contains(&id) {
            self.items.push(id);
            proof {
                assert(self.items@[old(self).items@.len() as int]@ == id@);
                assert forall|id2: Seq<char>| id2 != id@ && old(self).spec_has(id2) implies self
                    .spec_has(id2) by {
                    let i = choose|i: int|
                        0 <= i < old(self).items@.len() && old(self).items@[i]@ == id2;
                    assert(self.items@[i]@ == id2);
                }
                assert forall|id2: Seq<char>| id2 != id@ && self.spec_has(id2) implies old(
                    self,
                ).spec_has(id2) by {
                    let i = choose|i: int| 0 <= i < self.items@.len() && self.items@[i]@ == id2;
                    assert(old(self).items@[i]@ == id2);
                }
            }
        }
    }

    pub fn len(&self) -> (r: usize)
        ensures
            r == self.spec_len(),
    {
        self.items.len()
    }

    /// The id at position `i`, in insertion order.
    pub fn at(&self, i: usize) -> (r: &String)
        requires
            i < self.spec_len(),
        ensures
            r == self.items@[i as int],
    {
        &self.items[i]
    }
}

/// Whether some entry of `s` has key contents `id`.
pub open spec fn seq_has_key<V>(s: Seq<(String, V)>, id: Seq<char>) -> bool {
    exists|i: int| 0 <= i < s.len() && s[i].0@ == id
}

/// The position of the entry with key contents `id`, if any.
pub open spec fn key_index<V>(s: Seq<(String, V)>, id: Seq<char>) -> int {
    choose|i: int| 0 <= i < s.len() && s[i].0@ == id
}

/// The value stored under key contents `id`.
pub open spec fn seq_key_value<V>(s: Seq<(String, V)>, id: Seq<char>) -> V {
    s[key_index(s, id)].1
}

/// Whether the entry keys of `s` are pairwise distinct by contents.
pub open spec fn distinct_keys<V>(s: Seq<(String, V)>) -> bool {
    forall|i: int, j: int| 0 <= i < j < s.len() ==> s[i].0@ != s[j].0@
}

/// A map from id strings to values, kept in insertion order with
/// pairwise-distinct keys.
pub struct IdMap<V> {
    pub entries: Vec<(String, V)>,
}

impl<V> IdMap<V> {
    pub open spec fn wf(&self) -> bool {
        distinct_keys(self.entries@)
    }

    pub open spec fn spec_has(&self, id: Seq<char>) -> bool {
        seq_has_key(self.entries@, id)
    }

    pub open spec fn spec_get(&self, id: Seq<char>) -> V {
        seq_key_value(self.entries@, id)
    }

    pub open spec fn spec_len(&self) -> nat {
        self.entries@.len()
    }

    pub fn new() -> (r: IdMap<V>)
        ensures
            r.wf(),
            r.spec_len() == 0,
            forall|id: Seq<char>| !r.spec_has(id),
    {
        IdMap { entries: Vec::new() }
    }

    /// The position of the entry for `id`, if the map holds one.
    pub fn find(&self, id: &String) -> (r: Option<usize>)
        requires
            self.wf(),
        ensures
            match r {
                Some(i) => i < self.spec_len() && self.entries@[i as int].0@ == id@
                    && self.spec_has(id@) && self.spec_get(id@) == self.entries@[i as int].1,
                None => !self.spec_has(id@),
            },
    {
        let mut i: usize = 0;
        while i < self.entries.len()
            invariant
                self.wf(),
                0 <= i <= self.entries@.len(),
                forall|j: int| 0 <= j < i ==> self.entries@[j].0@ != id@,
            decreases self.entries@.len() - i,
        {
            if self.entries[i].0 == *id {
                proof {
                    assert(self.entries@[i as int].0@ == id@);
                    let k = key_index(self.entries@, id@);
                    assert(0 <= k < self.entries@.len() && self.entries@[k].0@ == id@);
                    assert(k == i as int);
                }
                return Some(i);
            }
            i = i + 1;
        }
        None
    }

    pub fn contains_key(&self, id: &String) -> (r: bool)
        requires
            self.wf(),
        ensures
            r == self.spec_has(id@),
    {
        self.find(id).is_some()
    }

    /// Stores `v` under `id`, replacing any earlier value.
    pub fn insert(&mut self, id: String, v: V)
        requires
            old(self).wf(),
        ensures
            final(self).wf(),
            final(self).spec_has(id@),
            final(self).spec_get(id@) == v,
            forall|id2: Seq<char>|
                id2 != id@ ==> final(self).spec_has(id2) == old(self).spec_has(id2),
            forall|id2: Seq<char>|
                id2 != id@ && old(self).spec_has(id2) ==> final(self).spec_get(id2) == old(
                    self,
                ).spec_get(id2),
            final(self).spec_len() == if old(self).spec_has(id@) {
                old(self).spec_len()
            } else {
                old(self).spec_len() + 1
            },
            !old(self).spec_has(id@) ==> final(self).entries@ == old(self).entries@.push((id, v)),
    {
        let found = self.find(&id);
        match found {
            Some(i) => {
                self.entries.set(i, (id, v));
                proof {
                    lemma_same_keys_same_lookup(old(self).entries@, self.entries@, i as int);
                    let k = key_index(self.entries@, self.entries@[i as int].0@);
                    assert(k == i as int);
                }
            },
            None => {
                self.entries.push((id, v));
                proof {
                    let n = old(self).entries@.len() as int;
                    assert(self.entries@[n].0@ == id@);
                    let k = key_index(self.entries@, id@);
                    assert(k == n);
                    assert forall|id2: Seq<char>|
                        id2 != id@ && old(self).spec_has(id2) implies self.spec_has(id2)
                        && self.spec_get(id2) == old(self).spec_get(id2) by {
                        let i = choose|i: int|
                            0 <= i < old(self).entries@.len() && old(self).entries@[i].0@ == id2;
                        assert(self.entries@[i].0@ == id2);
                        let k1 = key_index(old(self).entries@, id2);
                        let k2 = key_index(self.entries@, id2);
                        assert(old(self).entries@[k1].0@ == id2);
                        assert(self.entries@[k2].0@ == id2);
                        assert(k2 < n);
                        assert(k1 == k2);
                    }
                    assert forall|id2: Seq<char>|
                        id2 != id@ && self.spec_has(id2) implies old(self).spec_has(id2) by {
                        let i = choose|i: int|
                            0 <= i < self.entries@.len() && self.entries@[i].0@ == id2;
                        assert(i < n);
                        assert(old(self).entries@[i].0@ == id2);
                    }
                }
            },
        }
    }

    /// Removes the entry for `id` and returns its value, keeping the
    /// order of the other entries.
    pub fn remove(&mut self, id: &String) -> (r: Option<V>)
        requires
            old(self).wf(),
        ensures
            final(self).wf(),
            !final(self).spec_has(id@),
            match r {
                Some(v) => old(self).spec_has(id@) && v == old(self).spec_get(id@)
                    && final(self).spec_len() == old(self).spec_len() - 1,
                None => !old(self).spec_has(id@) && *final(self) == *old(self),
            },
            forall|id2: Seq<char>|
                id2 != id@ ==> final(self).spec_has(id2) == old(self).spec_has(id2),
            forall|id2: Seq<char>|
                id2 != id@ && old(self).spec_has(id2) ==> final(self).spec_get(id2) == old(
                    self,
                ).spec_get(id2),
    {
        let found = self.find(id);
        match found {
            Some(i) => {
                let (_k, v) = self.entries.remove(i);
                proof {
                    let n = self.entries@.len() as int;
                    let gi = i as int;
                    assert forall|id2: Seq<char>|
                        id2 != id@ && old(self).spec_has(id2) implies self.spec_has(id2)
                        && self.spec_get(id2) == old(self).spec_get(id2) by {
                        let j = choose|j: int|
                            0 <= j < old(self).entries@.len() && old(self).entries@[j].0@ == id2;
                        if j < gi {
                            assert(self.entries@[j].0@ == id2);
                        } else {
                            assert(self.entries@[j - 1].0@ == id2);
                        }
                        let k1 = key_index(old(self).entries@, id2);
                        let k2 = key_index(self.entries@, id2);
                        assert(old(self).entries@[k1].0@ == id2);
                        assert(self.entries@[k2].0@ == id2);
                        if k2 < gi {
                            assert(old(self).entries@[k2].0@ == id2);
                            assert(k1 == k2);
                        } else {
                            assert(old(self).entries@[k2 + 1].0@ == id2);
                            assert(k1 == k2 + 1);
                        }
                    }
                    assert forall|id2: Seq<char>| self.spec_has(id2) implies id2 == id@ || old(
                        self,
                    ).spec_has(id2) by {
                        let j = choose|j: int|
                            0 <= j < self.entries@.len() && self.entries@[j].0@ == id2;
                        if j < gi {
                            assert(old(self).entries@[j].0@ == id2);
                        } else {
                            assert(old(self).entries@[j + 1].0@ == id2);
                        }
                    }
                    assert(!self.spec_has(id@)) by {
                        if self.spec_has(id@) {
                            let j = choose|j: int|
                                0 <= j < self.entries@.len() && self.entries@[j].0@ == id@;
                            if j < gi {
                                assert(old(self).entries@[j].0@ == id@);
                            } else {
                                assert(old(self).entries@[j + 1].0@ == id@);
                            }
                        }
                    }
                }
                Some(v)
            },
            None => None,
        }
    }

    pub fn len(&self) -> (r: usize)
        ensures
            r == self.spec_len(),
    {
        self.entries.len()
    }

    /// The entry at position `i`, in insertion order.
    pub fn at(&self, i: usize) -> (r: &(String, V))
        requires
            i < self.spec_len(),
        ensures
            r == &self.entries@[i as int],
    {
        &self.entries[i]
    }
}

impl IdMap<String> {
    /// A copy of a tag map, entry for entry.
    pub fn clone_tags(&self) -> (r: IdMap<String>)
        ensures
            r.entries@ == self.entries@,
    {
        let mut entries: Vec<(String, String)> = Vec::new();
        let mut i: usize = 0;
        while i < self.entries.len()
            invariant
                0 <= i <= self.entries@.len(),
                entries@ == self.entries@.subrange(0, i as int),
            decreases self.entries@.len() - i,
        {
            entries.push((self.entries[i].0.clone(), self.entries[i].1.clone()));
            proof {
                assert(entries@ =~= self.entries@.subrange(0, i + 1));
            }
            i = i + 1;
        }
        proof {
            assert(entries@ =~= self.entries@);
        }
        IdMap { entries }
    }
}

/// Two entry sequences of equal length whose keys agree position by
/// position resolve every key at the same position.
proof fn lemma_same_keys_same_lookup<V>(s1: Seq<(String, V)>, s2: Seq<(String, V)>, i: int)
    requires
        distinct_keys(s1),
        s1.len() == s2.len(),
        0 <= i < s1.len(),
        forall|j: int| 0 <= j < s1.len() && j != i ==> s1[j] == s2[j],
        s1[i].0@ == s2[i].0@,
    ensures
        distinct_keys(s2),
        forall|id: Seq<char>| seq_has_key(s1, id) == seq_has_key(s2, id),
        forall|id: Seq<char>|
            seq_has_key(s1, id) && id != s1[i].0@ ==> seq_key_value(s1, id) == seq_key_value(
                s2,
                id,
            ),
{
    assert(forall|j: int| 0 <= j < s1.len() ==> s1[j].0@ == s2[j].0@);
    assert forall|id: Seq<char>| seq_has_key(s1, id) == seq_has_key(s2, id) by {
        if seq_has_key(s1, id) {
            let j = choose|j: int| 0 <= j < s1.len() && s1[j].0@ == id;
            assert(s2[j].0@ == id);
        }
        if seq_has_key(s2, id) {
            let j = choose|j: int| 0 <= j < s2.len() && s2[j].0@ == id;
            assert(s1[j].0@ == id);
        }
    }
    assert forall|id: Seq<char>|
        seq_has_key(s1, id) && id != s1[i].0@ implies seq_key_value(s1, id) == seq_key_value(
        s2,
        id,
    ) by {
        let k1 = key_index(s1, id);
        let k2 = key_index(s2, id);
        assert(0 <= k1 < s1.len() && s1[k1].0@ == id);
        assert(seq_has_key(s2, id));
        assert(0 <= k2 < s2.len() && s2[k2].0@ == id);
        assert(s1[k2].0@ == id);
        assert(k1 == k2);
        assert(k1 != i);
    }
}

} // verus!
