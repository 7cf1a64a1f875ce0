//! An ordered-by-insertion key/value table keyed by byte strings, viewed as a `Map`.
use vstd::prelude::*;
use crate::bytes::bytes_eq;

verus! {

/// A table from byte-string keys to values; each key appears at most once.
pub struct Table<V> {
    entries: Vec<(Vec<u8>, V)>,
    contents: Ghost<Map<Seq<u8>, V>>,
}

impl<V> Table<V> {
    /// Keys are unique and the entries hold exactly the contents.
    pub closed spec fn wf(&self) -> bool {
        &&& forall|i: int, j: int|
            0 <= i < j < self.entries@.len() ==> (#[trigger] self.entries@[i]).0@ != (
            #[trigger] self.entries@[j]).0@
        &&& forall|i: int|
            0 <= i < self.entries@.len() ==> self.contents@.contains_key(
                (#[trigger] self.entries@[i]).0@,
            ) && self.contents@[self.entries@[i].0@] == self.entries@[i].1
        &&& forall|k: Seq<u8>|
            #[trigger] self.contents@.contains_key(k) ==> exists|i: int|
                0 <= i < self.entries@.len() && (#[trigger] self.entries@[i]).0@ == k
    }

    /// The table's contents.
    pub closed spec fn map(&self) -> Map<Seq<u8>, V> {
        self.contents@
    }

    /// The key stored at position `i`.
    pub closed spec fn key_at(&self, i: int) -> Seq<u8> {
        self.entries@[i].0@
    }

    pub closed spec fn size(&self) -> nat {
        self.entries@.len()
    }

    pub fn new() -> (r: Table<V>)
        ensures
            r.wf(),
            r.map() == Map::<Seq<u8>, V>::empty(),
            r.size() == 0,
    {
        Table { entries: Vec::new(), contents: Ghost(Map::empty()) }
    }

    /// Every position holds a distinct key of the table, and every key has a position.
    pub proof fn lemma_positions(&self)
        requires
            self.wf(),
        ensures
            forall|i: int| 0 <= i < self.size() ==> self.map().contains_key(#[trigger] self.key_at(i)),
            forall|i: int, j: int|
                0 <= i < j < self.size() ==> #[trigger] self.key_at(i) != #[trigger] self.key_at(j),
            forall|k: Seq<u8>|
                #[trigger] self.map().contains_key(k) ==> exists|i: int|
                    0 <= i < self.size() && #[trigger] self.key_at(i) == k,
            self.map().dom().finite(),
            self.map().dom().len() == self.size(),
    {
        assert forall|i: int| 0 <= i < self.size() implies self.map().contains_key(
            #[trigger] self.key_at(i),
        ) by {
            assert(self.entries@[i].0@ == self.key_at(i));
        }
        assert forall|k: Seq<u8>| #[trigger] self.map().contains_key(k) implies exists|i: int|
            0 <= i < self.size() && #[trigger] self.key_at(i) == k by {
            let i = choose|i: int| 0 <= i < self.entries@.len() && (#[trigger] self.entries@[i]).0@ == k;
            assert(self.key_at(i) == k);
        }
        let keys = Seq::new(self.size(), |i: int| self.key_at(i));
        assert(keys.no_duplicates());
        keys.unique_seq_to_set();
        assert(keys.to_set() =~= self.map().dom()) by {
            assert forall|k: Seq<u8>| keys.to_set().contains(k) implies self.map().contains_key(k) by {
                let i = choose|i: int| 0 <= i < keys.len() && keys[i] == k;
            }
            assert forall|k: Seq<u8>| self.map().contains_key(k) implies keys.to_set().contains(k) by {
                let i = choose|i: int| 0 <= i < self.size() && #[trigger] self.key_at(i) == k;
                assert(keys[i] == k);
            }
        }
    }

    fn find(&self, k: &[u8]) -> (r: Option<usize>)
        requires
            self.wf(),
        ensures
            r matches Some(i) ==> i < self.entries@.len() && self.entries@[i as int].0@ == k@,
            r is None ==> !self.contents@.contains_key(k@),
    {
        let mut i: usize = 0;
        while i < self.entries.len()
            invariant
                i <= self.entries@.len(),
                forall|j: int| 0 <= j < i ==> (#[trigger] self.entries@[j]).0@ != k@,
            decreases self.entries@.len() - i,
        {
            if bytes_eq(self.entries[i].0.as_slice(), k) {
                return Some(i);
            }
            i = i + 1;
        }
        None
    }

    pub fn get(&self, k: &[u8]) -> (r: Option<&V>)
        requires
            self.wf(),
        ensures
            r is Some <==> self.map().contains_key(k@),
            r matches Some(v) ==> *v == self.map()[k@],
    {
        match self.find(k) {
            Some(i) => Some(&self.entries[i].1),
            None => None,
        }
    }

    pub fn contains(&self, k: &[u8]) -> (r: bool)
        requires
            self.wf(),
        ensures
            r == self.map().contains_key(k@),
    {
        self.find(k).is_some()
    }

    pub fn insert(&mut self, k: Vec<u8>, v: V)
        requires
            old(self).wf(),
        ensures
            final(self).wf(),
            final(self).map() == old(self).map().insert(k@, v),
    {
        let ghost old_entries = self.entries@;
        let ghost old_map = self.contents@;
        let ghost m = self.contents@.insert(k@, v);
        match self.find(k.as_slice()) {
            Some(i) => {
                self.entries.set(i, (k, v));
                self.contents = Ghost(m);
                proof {
                    let es = self.entries@;
                    assert forall|a: int| 0 <= a < es.len() && a != i implies (#[trigger] es[a])
                        == old_entries[a] by {}
                    assert forall|a: int, b: int| 0 <= a < b < es.len() implies (
                    #[trigger] es[a]).0@ != (#[trigger] es[b]).0@ by {
                        assert(old_entries[a].0@ != old_entries[b].0@);
                        assert(es[a].0@ == old_entries[a].0@);
                        assert(es[b].0@ == old_entries[b].0@);
                    }
                    assert forall|a: int| 0 <= a < es.len() implies m.contains_key(
                        (#[trigger] es[a]).0@,
                    ) && m[es[a].0@] == es[a].1 by {
                        if a != i {
                            assert(old_entries[a].0@ != old_entries[i as int].0@);
                        }
                    }
                    assert forall|key: Seq<u8>| #[trigger] m.contains_key(key) implies exists|a: int|
                        0 <= a < es.len() && (#[trigger] es[a]).0@ == key by {
                        if key != k@ {
                            let a = choose|a: int|
                                0 <= a < old_entries.len() && (#[trigger] old_entries[a]).0@ == key;
                            assert(es[a].0@ == key);
                        } else {
                            assert(es[i as int].0@ == key);
                        }
                    }
                }
            },
            None => {
                self.entries.push((k, v));
                self.contents = Ghost(m);
                proof {
                    let es = self.entries@;
                    let n = old_entries.len() as int;
                    assert forall|a: int| 0 <= a < n implies (#[trigger] es[a]) == old_entries[a] by {}
                    assert forall|a: int, b: int| 0 <= a < b < es.len() implies (
                    #[trigger] es[a]).0@ != (#[trigger] es[b]).0@ by {
                        if b < n {
                            assert(old_entries[a].0@ != old_entries[b].0@);
                        } else {
                            assert(old_map.contains_key(old_entries[a].0@));
                        }
                    }
                    assert forall|a: int| 0 <= a < es.len() implies m.contains_key(
                        (#[trigger] es[a]).0@,
                    ) && m[es[a].0@] == es[a].1 by {
                        if a < n {
                            assert(old_map.contains_key(old_entries[a].0@));
                        }
                    }
                    assert forall|key: Seq<u8>| #[trigger] m.contains_key(key) implies exists|a: int|
                        0 <= a < es.len() && (#[trigger] es[a]).0@ == key by {
                        if key != k@ {
                            let a = choose|a: int|
                                0 <= a < old_entries.len() && (#[trigger] old_entries[a]).0@ == key;
                            assert(es[a].0@ == key);
                        } else {
                            assert(es[n].0@ == key);
                        }
                    }
                }
            },
        }
    }

    pub fn remove(&mut self, k: &[u8])
        requires
            old(self).wf(),
        ensures
            final(self).wf(),
            final(self).map() == old(self).map().remove(k@),
    {
        let ghost old_entries = self.entries@;
        let ghost m = self.contents@.remove(k@);
        match self.find(k) {
            Some(i) => {
                self.entries.remove(i);
                self.contents = Ghost(m);
                proof {
                    let es = self.entries@;
                    assert forall|a: int| 0 <= a < es.len() implies (#[trigger] es[a])
                        == old_entries[if a < i { a } else { a + 1 }] by {}
                    assert forall|a: int, b: int| 0 <= a < b < es.len() implies (
                    #[trigger] es[a]).0@ != (#[trigger] es[b]).0@ by {
                        let a1 = if a < i { a } else { a + 1 };
                        let b1 = if b < i { b } else { b + 1 };
                        assert(old_entries[a1] == es[a]);
                        assert(old_entries[b1] == es[b]);
                        assert(old_entries[a1].0@ != old_entries[b1].0@);
                    }
                    assert forall|a: int| 0 <= a < es.len() implies m.contains_key(
                        (#[trigger] es[a]).0@,
                    ) && m[es[a].0@] == es[a].1 by {
                        let a1 = if a < i { a } else { a + 1 };
                        assert(old_entries[a1] == es[a]);
                        assert(old_entries[a1].0@ != old_entries[i as int].0@);
                    }
                    assert forall|key: Seq<u8>| #[trigger] m.contains_key(key) implies exists|a: int|
                        0 <= a < es.len() && (#[trigger] es[a]).0@ == key by {
                        let b = choose|b: int|
                            0 <= b < old_entries.len() && (#[trigger] old_entries[b]).0@ == key;
                        let a = if b < i { b } else { b - 1 };
                        assert(es[a] == old_entries[b]);
                    }
                }
            },
            None => {
                assert(m =~= self.contents@);
            },
        }
    }

    /// The key and value at position `i`.
    pub fn entry(&self, i: usize) -> (r: (&Vec<u8>, &V))
        requires
            self.wf(),
            i < self.size(),
        ensures
            r.0@ == self.key_at(i as int),
            *r.1 == self.map()[self.key_at(i as int)],
    {
        (&self.entries[i].0, &self.entries[i].1)
    }

    pub fn len(&self) -> (r: usize)
        requires
            self.wf(),
        ensures
            r == self.size(),
    {
        self.entries.len()
    }
}

} // verus!
