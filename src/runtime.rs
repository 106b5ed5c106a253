use vstd::prelude::*;

use crate::cache::{holds_after_insert, Cache};
use crate::lfs_id::{decodes_to, ContentKey, LfsId};

verus! {

/// A cache addressed by serialised identifiers, as a runtime that treats them
/// as opaque bytes hands them over. Bytes that are no identifier fail.
pub struct RuntimeCacheInterfaceWrapper<C> {
    pub cache: C,
}

impl<C: Cache> RuntimeCacheInterfaceWrapper<C> {
    pub fn from(cache: C) -> (r: RuntimeCacheInterfaceWrapper<C>)
        ensures
            r.cache == cache,
    {
        RuntimeCacheInterfaceWrapper { cache }
    }

    pub fn contains(&self, key: &[u8]) -> (r: Result<bool, ()>)
        requires
            self.cache.inv(),
        ensures
            (forall|k: ContentKey| !decodes_to(key@, k)) ==> r is Err,
            forall|k: ContentKey| #[trigger]
                decodes_to(key@, k) ==> r == Ok::<bool, ()>(self.cache.contents().contains_key(k)),
    {
        match LfsId::decode(key) {
            Ok(id) => {
                proof { lemma_one_key(key@, id@); }
                self.cache.contains(&id)
            },
            Err(_) => Err(()),
        }
    }

    pub fn get(&mut self, key: &[u8]) -> (r: Result<Vec<u8>, ()>)
        requires
            old(self).cache.inv(),
        ensures
            final(self).cache.inv(),
            final(self).cache.contents().submap_of(old(self).cache.contents()),
            (forall|k: ContentKey| !decodes_to(key@, k)) ==> r is Err,
            forall|k: ContentKey| #[trigger]
                decodes_to(key@, k) ==> {
                    &&& r matches Ok(d) ==> old(self).cache.contents().contains_key(k) && d@ == old(
                        self,
                    ).cache.contents()[k]
                    &&& !old(self).cache.contents().contains_key(k) ==> r is Err
                },
    {
        match LfsId::decode(key) {
            Ok(id) => {
                proof { lemma_one_key(key@, id@); }
                self.cache.get(&id)
            },
            Err(_) => Err(()),
        }
    }

    pub fn insert(&mut self, key: &[u8], data: &Vec<u8>) -> (r: Result<(), ()>)
        requires
            old(self).cache.inv(),
        ensures
            final(self).cache.inv(),
            (forall|k: ContentKey| !decodes_to(key@, k)) ==> r is Err && final(self).cache
                == old(self).cache,
            forall|k: ContentKey| #[trigger]
                decodes_to(key@, k) ==> {
                    &&& final(self).cache.contents().submap_of(
                        old(self).cache.contents().insert(k, data@),
                    )
                    &&& r is Ok ==> holds_after_insert(
                        old(self).cache.contents(),
                        final(self).cache.contents(),
                        k,
                        data@,
                    )
                    &&& old(self).cache.accepts(k, data@) ==> r is Ok
                },
    {
        match LfsId::decode(key) {
            Ok(id) => {
                proof { lemma_one_key(key@, id@); }
                self.cache.insert(&id, data)
            },
            Err(_) => Err(()),
        }
    }

    pub fn drop(&mut self, key: &[u8]) -> (r: Result<(), ()>)
        requires
            old(self).cache.inv(),
        ensures
            final(self).cache.inv(),
            (forall|k: ContentKey| !decodes_to(key@, k)) ==> r is Err && final(self).cache
                == old(self).cache,
            forall|k: ContentKey| #[trigger]
                decodes_to(key@, k) ==> {
                    &&& final(self).cache.contents().submap_of(
                        old(self).cache.contents().remove(k),
                    )
                    &&& r is Ok ==> old(self).cache.contents().contains_key(k)
                    &&& !old(self).cache.contents().contains_key(k) ==> r is Err
                },
    {
        match LfsId::decode(key) {
            Ok(id) => {
                proof { lemma_one_key(key@, id@); }
                self.cache.drop(&id)
            },
            Err(_) => Err(()),
        }
    }
}

proof fn lemma_one_key(bytes: Seq<u8>, k: ContentKey)
    requires
        decodes_to(bytes, k),
    ensures
        forall|k2: ContentKey| #[trigger] decodes_to(bytes, k2) ==> k2 == k,
{
    assert forall|k2: ContentKey| #[trigger] decodes_to(bytes, k2) implies k2 == k by {
        crate::lfs_id::lemma_encoding_injective(k, k2);
    }
}

} // verus!
