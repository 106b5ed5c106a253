use vstd::prelude::*;

use crate::lfs_id::{ContentKey, LfsId};

verus! {

/// Values by identifier, each identifier at most once, kept in a vector.
pub struct Table<V> {
    entries: Vec<(LfsId, V)>,
    model: Ghost<Map<ContentKey, V>>,
}

impl<V> Table<V> {
    /// The value held under each identifier.
    pub closed spec fn map(&self) -> Map<ContentKey, V> {
        self.model@
    }

    pub closed spec fn inv(&self) -> bool {
        &&& forall|i: int|
            0 <= i < self.entries@.len() ==> #[trigger] self.model@.contains_key(
                self.entries@[i].0@,
            ) && self.model@[self.entries@[i].0@] == self.entries@[i].1
        &&& forall|k: ContentKey| #[trigger]
            self.model@.contains_key(k) ==> exists|i: int|
                0 <= i < self.entries@.len() && #[trigger] self.entries@[i].0@ == k
        &&& forall|i: int, j: int|
            0 <= i < self.entries@.len() && 0 <= j < self.entries@.len() && i != j
                ==> #[trigger] self.entries@[i].0@ != #[trigger] self.entries@[j].0@
    }

    pub fn new() -> (r: Table<V>)
        ensures
            r.inv(),
            r.map() == Map::<ContentKey, V>::empty(),
    {
        Table { entries: Vec::new(), model: Ghost(Map::empty()) }
    }

    fn position(&self, key: &LfsId) -> (r: Option<usize>)
        requires
            self.inv(),
        ensures
            match r {
                Some(i) => i < self.entries@.len() && self.entries@[i as int].0@ == key@,
                None => !self.map().contains_key(key@),
            },
    {
        let mut i: usize = 0;
        while i < self.entries.len()
            invariant
                self.inv(),
                0 <= i <= self.entries@.len(),
                forall|j: int| 0 <= j < i ==> self.entries@[j].0@ != key@,
            decreases self.entries@.len() - i,
        {
            if self.entries[i].0.same_as(key) {
                return Some(i);
            }
            i = i + 1;
        }
        None
    }

    /// The value under `key`, if any.
    pub fn get(&self, key: &LfsId) -> (r: Option<&V>)
        requires
            self.inv(),
        ensures
            match r {
                Some(v) => self.map().contains_key(key@) && *v == self.map()[key@],
                None => !self.map().contains_key(key@),
            },
    {
        match self.position(key) {
            Some(i) => {
                assert(self.model@.contains_key(self.entries@[i as int].0@));
                Some(&self.entries[i].1)
            },
            None => None,
        }
    }

    /// Puts `value` under `key`, in place of what was there.
    pub fn insert(&mut self, key: LfsId, value: V)
        requires
            old(self).inv(),
        ensures
            final(self).inv(),
            final(self).map() == old(self).map().insert(key@, value),
    {
        let ghost old_entries = self.entries@;
        let ghost k0 = key@;
        let ghost v0 = value;
        match self.position(&key) {
            Some(i) => {
                self.entries.set(i, (key, value));
                self.model = Ghost(self.model@.insert(k0, v0));
                assert forall|k: ContentKey| #[trigger]
                    self.model@.contains_key(k) implies exists|j: int|
                        0 <= j < self.entries@.len() && #[trigger] self.entries@[j].0@ == k by {
                    if k != k0 {
                        let j = choose|j: int|
                            0 <= j < old_entries.len() && #[trigger] old_entries[j].0@ == k;
                        assert(self.entries@[j].0@ == k);
                    } else {
                        assert(self.entries@[i as int].0@ == k);
                    }
                }
            },
            None => {
                self.entries.push((key, value));
                self.model = Ghost(self.model@.insert(k0, v0));
                let ghost last = (self.entries@.len() - 1) as int;
                assert(self.entries@[last].0@ == k0);
                assert forall|k: ContentKey| #[trigger]
                    self.model@.contains_key(k) implies exists|j: int|
                        0 <= j < self.entries@.len() && #[trigger] self.entries@[j].0@ == k by {
                    if k != k0 {
                        let j = choose|j: int|
                            0 <= j < old_entries.len() && #[trigger] old_entries[j].0@ == k;
                        assert(self.entries@[j].0@ == k);
                    } else {
                        assert(self.entries@[last].0@ == k);
                    }
                }
            },
        }
    }

    /// Takes the value under `key` out, if there is one.
    pub fn remove(&mut self, key: &LfsId) -> (r: Option<V>)
        requires
            old(self).inv(),
        ensures
            final(self).inv(),
            final(self).map() == old(self).map().remove(key@),
            match r {
                Some(v) => old(self).map().contains_key(key@) && v == old(self).map()[key@],
                None => !old(self).map().contains_key(key@),
            },
    {
        let ghost old_entries = self.entries@;
        let ghost old_model = self.model@;
        match self.position(key) {
            Some(i) => {
                assert(old_model.contains_key(old_entries[i as int].0@));
                let (_, v) = self.entries.remove(i);
                self.model = Ghost(self.model@.remove(key@));
                assert forall|j: int| 0 <= j < self.entries@.len() implies #[trigger]
                    self.model@.contains_key(self.entries@[j].0@) && self.model@[self.entries@[j].0@]
                        == self.entries@[j].1 by {
                    let j2 = if j < i { j } else { j + 1 };
                    assert(self.entries@[j] == old_entries[j2]);
                    assert(old_entries[j2].0@ != old_entries[i as int].0@);
                    assert(old_model.contains_key(old_entries[j2].0@));
                }
                assert forall|k: ContentKey| #[trigger]
                    self.model@.contains_key(k) implies exists|j: int|
                        0 <= j < self.entries@.len() && #[trigger] self.entries@[j].0@ == k by {
                    assert(old_model.contains_key(k));
                    let j = choose|j: int|
                        0 <= j < old_entries.len() && #[trigger] old_entries[j].0@ == k;
                    if j < i {
                        assert(self.entries@[j].0@ == k);
                    } else {
                        assert(j != i);
                        assert(self.entries@[j - 1] == old_entries[j]);
                        assert(self.entries@[j - 1].0@ == k);
                    }
                }
                assert forall|a: int, b: int|
                    0 <= a < self.entries@.len() && 0 <= b < self.entries@.len() && a
                        != b implies #[trigger] self.entries@[a].0@ != #[trigger] self.entries@[b].0@ by {
                    let a2 = if a < i { a } else { a + 1 };
                    let b2 = if b < i { b } else { b + 1 };
                    assert(self.entries@[a] == old_entries[a2]);
                    assert(self.entries@[b] == old_entries[b2]);
                }
                Some(v)
            },
            None => {
                assert(self.model@.remove(key@) =~= self.model@);
                None
            },
        }
    }
}

} // verus!
