//! A small association table keyed by strings.
//!
//! Port bundles and the coordinator's registries are keyed by names. The table
//! keeps its entries in a vector in which no key occurs twice, and is viewed as
//! a map from the text of a key to the view of its value.

use vstd::prelude::*;

verus! {

/// One key with its value.
struct Entry<T> {
    key: String,
    val: T,
}

/// A finite map from strings to values of type `T`.
pub struct Table<T> {
    entries: Vec<Entry<T>>,
}

impl<T: View> View for Table<T> {
    type V = Map<Seq<char>, T::V>;

    closed spec fn view(&self) -> Map<Seq<char>, T::V> {
        Map::new(|k: Seq<char>| self.has(k), |k: Seq<char>| self.entries[self.slot(k)].val@)
    }
}

impl<T: View> Table<T> {
    /// No key occurs twice.
    pub closed spec fn wf(&self) -> bool {
        forall|i: int, j: int|
            0 <= i < j < self.entries.len() ==> (#[trigger] self.entries[i]).key@ != (
            #[trigger] self.entries[j]).key@
    }

    /// The stored values themselves, in no particular order. Holders of
    /// values with an invariant of their own state it over this sequence.
    pub closed spec fn values(&self) -> Seq<T> {
        Seq::new(self.entries.len() as nat, |i: int| self.entries[i].val)
    }

    spec fn has(&self, k: Seq<char>) -> bool {
        exists|i: int| 0 <= i < self.entries.len() && (#[trigger] self.entries[i]).key@ == k
    }

    spec fn slot(&self, k: Seq<char>) -> int {
        choose|i: int| 0 <= i < self.entries.len() && (#[trigger] self.entries[i]).key@ == k
    }

    /// The entry at position `i` is what the map holds under that entry's key.
    proof fn lemma_entry(&self, i: int)
        requires
            self.wf(),
            0 <= i < self.entries.len(),
        ensures
            self.has(self.entries[i].key@),
            self.slot(self.entries[i].key@) == i,
            self@.contains_key(self.entries[i].key@),
            self@[self.entries[i].key@] == self.entries[i].val@,
    {
        let k = self.entries[i].key@;
        assert(self.has(k));
        let j = self.slot(k);
        assert(0 <= j < self.entries.len() && self.entries[j].key@ == k);
        if j < i {
            assert(self.entries[j].key@ != self.entries[i].key@);
        } else if i < j {
            assert(self.entries[i].key@ != self.entries[j].key@);
        }
    }

    /// A key that the map holds sits at its slot.
    proof fn lemma_slot(&self, k: Seq<char>)
        requires
            self.has(k),
        ensures
            0 <= self.slot(k) < self.entries.len(),
            self.entries[self.slot(k)].key@ == k,
    {
    }

    /// The empty table.
    pub fn new() -> (t: Self)
        ensures
            t.wf(),
            t@ == Map::<Seq<char>, T::V>::empty(),
            t.values().len() == 0,
    {
        let t = Table { entries: Vec::new() };
        assert(t@ =~= Map::<Seq<char>, T::V>::empty());
        t
    }

    /// Position of `key` among the entries, if it is there.
    fn find(&self, key: &String) -> (r: Option<usize>)
        ensures
            match r {
                Some(i) => i < self.entries.len() && self.entries[i as int].key@ == key@,
                None => !self.has(key@),
            },
    {
        let mut i: usize = 0;
        while i < self.entries.len()
            invariant
                i <= self.entries.len(),
                forall|j: int| 0 <= j < i ==> (#[trigger] self.entries[j]).key@ != key@,
            decreases self.entries.len() - i,
        {
            if self.entries[i].key == *key {
                return Some(i);
            }
            i += 1;
        }
        None
    }

    /// Whether the table holds nothing.
    pub fn is_empty(&self) -> (b: bool)
        ensures
            b == self@.dom().is_empty(),
    {
        if self.entries.len() == 0 {
            assert(self@.dom() =~= Set::<Seq<char>>::empty());
            true
        } else {
            assert(self.has(self.entries[0].key@));
            assert(self@.dom().contains(self.entries[0].key@));
            false
        }
    }

    /// Whether the table holds `key`.
    pub fn contains_key(&self, key: &str) -> (b: bool)
        ensures
            b == self@.contains_key(key@),
    {
        let k = key.to_owned();
        self.find(&k).is_some()
    }

    /// The value stored under `key`.
    pub fn get(&self, key: &str) -> (r: Option<&T>)
        requires
            self.wf(),
        ensures
            match r {
                Some(v) => self@.contains_key(key@) && v@ == self@[key@] && self.values().contains(*v),
                None => !self@.contains_key(key@),
            },
    {
        let k = key.to_owned();
        match self.find(&k) {
            Some(i) => {
                proof {
                    self.lemma_entry(i as int);
                    assert(self.values()[i as int] == self.entries[i as int].val);
                }
                Some(&self.entries[i].val)
            },
            None => None,
        }
    }

    /// Stores `val` under `key`, replacing what was stored there before.
    pub fn insert(&mut self, key: String, val: T)
        requires
            old(self).wf(),
        ensures
            final(self).wf(),
            final(self)@ == old(self)@.insert(key@, val@),
            forall|x: T| #[trigger]
                final(self).values().contains(x) ==> x == val || old(self).values().contains(x),
    {
        let ghost before = *self;
        match self.find(&key) {
            Some(i) => {
                self.entries[i].val = val;
                proof {
                    let after = *self;
                    assert(after.entries.len() == before.entries.len());
                    assert(forall|j: int|
                        0 <= j < after.entries.len() ==> (#[trigger] after.entries[j]).key@
                            == before.entries[j].key@);
                    assert(after.wf());
                    assert forall|q: Seq<char>| after.has(q) == before.has(q) by {
                        if before.has(q) {
                            before.lemma_slot(q);
                            assert(after.entries[before.slot(q)].key@ == q);
                        }
                        if after.has(q) {
                            after.lemma_slot(q);
                            assert(before.entries[after.slot(q)].key@ == q);
                        }
                    }
                    assert forall|q: Seq<char>| after.has(q) implies after@[q] == before@.insert(
                        key@,
                        val@,
                    )[q] by {
                        after.lemma_slot(q);
                        let s = after.slot(q);
                        after.lemma_entry(s);
                        before.lemma_entry(s);
                    }
                    assert(after@ =~= before@.insert(key@, val@));
                    assert forall|x: T| #[trigger] after.values().contains(x) implies x == val
                        || before.values().contains(x) by {
                        let j = choose|j: int|
                            0 <= j < after.values().len() && after.values()[j] == x;
                        if j != i {
                            assert(before.values()[j] == x);
                        }
                    }
                }
            },
            None => {
                self.entries.push(Entry { key, val });
                proof {
                    let after = *self;
                    let n = before.entries.len() as int;
                    assert(forall|j: int|
                        0 <= j < n ==> (#[trigger] after.entries[j]) == before.entries[j]);
                    assert(after.entries[n].key@ == key@);
                    assert(after.wf());
                    assert forall|q: Seq<char>| after.has(q) == (before.has(q) || q == key@) by {
                        if before.has(q) {
                            before.lemma_slot(q);
                            assert(after.entries[before.slot(q)].key@ == q);
                        }
                        if q == key@ {
                            assert(after.entries[n].key@ == q);
                        }
                        if after.has(q) {
                            after.lemma_slot(q);
                            let s = after.slot(q);
                            if s < n {
                                assert(before.entries[s].key@ == q);
                            }
                        }
                    }
                    assert forall|q: Seq<char>| after.has(q) implies after@[q] == before@.insert(
                        key@,
                        val@,
                    )[q] by {
                        after.lemma_slot(q);
                        let s = after.slot(q);
                        after.lemma_entry(s);
                        if s < n {
                            before.lemma_entry(s);
                        }
                    }
                    assert(after@ =~= before@.insert(key@, val@));
                    assert forall|x: T| #[trigger] after.values().contains(x) implies x == val
                        || before.values().contains(x) by {
                        let j = choose|j: int|
                            0 <= j < after.values().len() && after.values()[j] == x;
                        if j < n {
                            assert(before.values()[j] == x);
                        }
                    }
                }
            },
        }
    }

    /// Takes `key` and its value out of the table.
    pub fn remove(&mut self, key: &str) -> (r: Option<T>)
        requires
            old(self).wf(),
        ensures
            final(self).wf(),
            final(self)@ == old(self)@.remove(key@),
            match r {
                Some(v) => old(self)@.contains_key(key@) && v@ == old(self)@[key@] && old(
                    self,
                ).values().contains(v),
                None => !old(self)@.contains_key(key@),
            },
            forall|x: T| #[trigger] final(self).values().contains(x) ==> old(self).values().contains(x),
    {
        let ghost before = *self;
        let k = key.to_owned();
        match self.find(&k) {
            Some(i) => {
                let e = self.entries.remove(i);
                proof {
                    let after = *self;
                    before.lemma_entry(i as int);
                    assert(forall|j: int|
                        0 <= j < i ==> (#[trigger] after.entries[j]) == before.entries[j]);
                    assert(forall|j: int|
                        i <= j < after.entries.len() ==> (#[trigger] after.entries[j])
                            == before.entries[j + 1]);
                    assert(after.wf()) by {
                        assert forall|a: int, b: int|
                            0 <= a < b < after.entries.len() implies (
                        #[trigger] after.entries[a]).key@ != (#[trigger] after.entries[b]).key@ by {
                            let a0 = if a < i { a } else { a + 1 };
                            let b0 = if b < i { b } else { b + 1 };
                            assert(before.entries[a0].key@ != before.entries[b0].key@);
                        }
                    }
                    assert forall|q: Seq<char>| after.has(q) == (before.has(q) && q != key@) by {
                        if before.has(q) && q != key@ {
                            before.lemma_slot(q);
                            let s = before.slot(q);
                            let s1 = if s < i { s } else { s - 1 };
                            assert(after.entries[s1].key@ == q);
                        }
                        if after.has(q) {
                            after.lemma_slot(q);
                            let s = after.slot(q);
                            let s0 = if s < i { s } else { s + 1 };
                            assert(before.entries[s0].key@ == q);
                            if s0 < i {
                                assert(before.entries[s0].key@ != before.entries[i as int].key@);
                            } else {
                                assert(before.entries[i as int].key@ != before.entries[s0].key@);
                            }
                        }
                    }
                    assert forall|q: Seq<char>| after.has(q) implies after@[q] == before@.remove(
                        key@,
                    )[q] by {
                        after.lemma_slot(q);
                        let s = after.slot(q);
                        after.lemma_entry(s);
                        let s0 = if s < i { s } else { s + 1 };
                        before.lemma_entry(s0);
                    }
                    assert(after@ =~= before@.remove(key@));
                    assert(before.values()[i as int] == e.val);
                    assert forall|x: T| #[trigger] after.values().contains(x) implies before.values().contains(
                        x,
                    ) by {
                        let j = choose|j: int|
                            0 <= j < after.values().len() && after.values()[j] == x;
                        let j0 = if j < i { j } else { j + 1 };
                        assert(before.values()[j0] == x);
                    }
                }
                Some(e.val)
            },
            None => {
                assert(self@ =~= before@.remove(key@));
                None
            },
        }
    }
}

} // verus!
