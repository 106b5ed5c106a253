use vstd::prelude::*;

use crate::cache::Cache;
use crate::lfs_id::{copy_bytes, ContentKey, LfsId};
use crate::table::Table;

verus! {

/// An unbounded store in memory.
pub struct InMemoryCache {
    entries: Table<Vec<u8>>,
}

impl InMemoryCache {
    pub fn new() -> (r: InMemoryCache)
        ensures
            r.inv(),
            r.contents() == Map::<ContentKey, Seq<u8>>::empty(),
    {
        let r = InMemoryCache { entries: Table::new() };
        assert(r.contents() =~= Map::<ContentKey, Seq<u8>>::empty());
        r
    }
}

impl Cache for InMemoryCache {
    closed spec fn contents(&self) -> Map<ContentKey, Seq<u8>> {
        self.entries.map().map_values(|v: Vec<u8>| v@)
    }

    closed spec fn inv(&self) -> bool {
        self.entries.inv()
    }

    open spec fn accepts(&self, key: ContentKey, data: Seq<u8>) -> bool {
        true
    }

    open spec fn serves(&self, key: ContentKey) -> bool {
        true
    }

    fn contains(&self, key: &LfsId) -> (r: Result<bool, ()>) {
        Ok(self.entries.get(key).is_some())
    }

    fn get(&mut self, key: &LfsId) -> (r: Result<Vec<u8>, ()>)
        ensures
            final(self).contents() == old(self).contents(),
            r is Ok <==> old(self).contents().contains_key(key@),
    {
        match self.entries.get(key) {
            Some(v) => Ok(copy_bytes(v)),
            None => Err(()),
        }
    }

    fn insert(&mut self, key: &LfsId, data: &Vec<u8>) -> (r: Result<(), ()>)
        ensures
            final(self).contents() == old(self).contents().insert(key@, data@),
    {
        let value = copy_bytes(data);
        self.entries.insert(key.clone(), value);
        assert(self.contents() =~= old(self).contents().insert(key@, data@));
        Ok(())
    }

    fn drop(&mut self, key: &LfsId) -> (r: Result<(), ()>)
        ensures
            final(self).contents() == old(self).contents().remove(key@),
            r is Ok <==> old(self).contents().contains_key(key@),
    {
        let removed = self.entries.remove(key);
        assert(self.contents() =~= old(self).contents().remove(key@));
        match removed {
            Some(_) => Ok(()),
            None => Err(()),
        }
    }
}

/// Inserting the same data twice under one identifier leaves the store as
/// one insert does, holding that data.
pub proof fn lemma_insert_twice(
    m: Map<ContentKey, Seq<u8>>,
    key: ContentKey,
    data: Seq<u8>,
)
    ensures
        m.insert(key, data).insert(key, data) == m.insert(key, data),
        m.insert(key, data).insert(key, data)[key] == data,
{
    assert(m.insert(key, data).insert(key, data) =~= m.insert(key, data));
}

} // verus!
