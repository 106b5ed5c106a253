use vstd::prelude::*;

use crate::cache::Cache;
use crate::lfs_id::{copy_bytes, ContentKey, LfsId};

verus! {

#[verifier::external_type_specification]
#[verifier::external_body]
#[verifier::reject_recursive_types(K)]
#[verifier::reject_recursive_types(V)]
#[verifier::reject_recursive_types(S)]
pub struct ExLruCache<K, V, S>(lru::LruCache<K, V, S>);

/// The entries an `lru::LruCache` holds, by identifier.
pub uninterp spec fn lru_entries(c: lru::LruCache<LfsId, Vec<u8>, std::collections::hash_map::RandomState>) -> Map<ContentKey, Seq<u8>>;

/// The capacity an `lru::LruCache` was made with.
pub uninterp spec fn lru_capacity(c: lru::LruCache<LfsId, Vec<u8>, std::collections::hash_map::RandomState>) -> nat;

/// The identifiers an `lru::LruCache` holds, most recently used first.
pub uninterp spec fn lru_recency(c: lru::LruCache<LfsId, Vec<u8>, std::collections::hash_map::RandomState>) -> Seq<ContentKey>;

/// `order` without `k`.
pub open spec fn without(order: Seq<ContentKey>, k: ContentKey) -> Seq<ContentKey> {
    order.filter(|x: ContentKey| x != k)
}

/// The entries and the recency order list the same identifiers, each once, and
/// there are no more of them than the capacity.
pub open spec fn lru_shape(entries: Map<ContentKey, Seq<u8>>, order: Seq<ContentKey>, cap: nat) -> bool {
    &&& entries.dom().finite()
    &&& order.no_duplicates()
    &&& order.to_set() == entries.dom()
    &&& order.len() == entries.len()
    &&& entries.len() <= cap
}

/// Relies on lru::LruCache::with_hasher: an empty cache of the given capacity.
#[verifier::external_body]
fn lru_new(cap: usize) -> (r: lru::LruCache<LfsId, Vec<u8>, std::collections::hash_map::RandomState>)
    requires
        cap > 0,
    ensures
        lru_entries(r).dom() == Set::<ContentKey>::empty(),
        lru_recency(r).len() == 0,
        lru_capacity(r) == cap,
{
    lru::LruCache::with_hasher(
        std::num::NonZeroUsize::new(cap).unwrap(),
        std::collections::hash_map::RandomState::new(),
    )
}

/// Relies on lru::LruCache::contains: a lookup that leaves the cache as it is.
#[verifier::external_body]
fn lru_contains(c: &lru::LruCache<LfsId, Vec<u8>, std::collections::hash_map::RandomState>, key: &LfsId) -> (r: bool)
    ensures
        r == lru_entries(*c).contains_key(key@),
{
    c.contains(key)
}

/// Relies on lru::LruCache::get: the value under the key, which becomes the
/// most recently used; the entries stay as they are.
#[verifier::external_body]
fn lru_get(c: &mut lru::LruCache<LfsId, Vec<u8>, std::collections::hash_map::RandomState>, key: &LfsId) -> (r: Option<Vec<u8>>)
    ensures
        lru_entries(*final(c)) == lru_entries(*old(c)),
        lru_capacity(*final(c)) == lru_capacity(*old(c)),
        lru_recency(*final(c)) == if lru_entries(*old(c)).contains_key(key@) {
            seq![key@] + without(lru_recency(*old(c)), key@)
        } else {
            lru_recency(*old(c))
        },
        lru_shape(lru_entries(*final(c)), lru_recency(*final(c)), lru_capacity(*final(c))),
        match r {
            Some(v) => lru_entries(*old(c)).contains_key(key@) && v@ == lru_entries(
                *old(c),
            )[key@],
            None => !lru_entries(*old(c)).contains_key(key@),
        },
{
    c.get(key).cloned()
}

/// Relies on lru::LruCache::put: the key then holds the value and is the most
/// recently used; a new key in a full cache pushes out the least recently used
/// entry, and nothing else leaves.
#[verifier::external_body]
fn lru_put(c: &mut lru::LruCache<LfsId, Vec<u8>, std::collections::hash_map::RandomState>, key: LfsId, value: Vec<u8>)
    ensures
        lru_capacity(*final(c)) == lru_capacity(*old(c)),
        lru_shape(lru_entries(*final(c)), lru_recency(*final(c)), lru_capacity(*final(c))),
        lru_entries(*old(c)).contains_key(key@) ==> lru_entries(*final(c)) == lru_entries(
            *old(c),
        ).insert(key@, value@) && lru_recency(*final(c)) == seq![key@] + without(
            lru_recency(*old(c)),
            key@,
        ),
        !lru_entries(*old(c)).contains_key(key@) && lru_entries(*old(c)).len() < lru_capacity(
            *old(c),
        ) ==> lru_entries(*final(c)) == lru_entries(*old(c)).insert(key@, value@) && lru_recency(
            *final(c),
        ) == seq![key@] + lru_recency(*old(c)),
        !lru_entries(*old(c)).contains_key(key@) && lru_entries(*old(c)).len() >= lru_capacity(
            *old(c),
        ) ==> lru_entries(*final(c)) == lru_entries(*old(c)).remove(
            lru_recency(*old(c)).last(),
        ).insert(key@, value@) && lru_recency(*final(c)) == seq![key@] + lru_recency(
            *old(c),
        ).drop_last(),
{
    c.put(key, value);
}

/// Relies on lru::LruCache::pop: the entry under the key leaves, if there was one.
#[verifier::external_body]
fn lru_pop(c: &mut lru::LruCache<LfsId, Vec<u8>, std::collections::hash_map::RandomState>, key: &LfsId) -> (r: bool)
    ensures
        lru_capacity(*final(c)) == lru_capacity(*old(c)),
        lru_entries(*final(c)) == lru_entries(*old(c)).remove(key@),
        lru_recency(*final(c)) == without(lru_recency(*old(c)), key@),
        lru_shape(lru_entries(*final(c)), lru_recency(*final(c)), lru_capacity(*final(c))),
        r == lru_entries(*old(c)).contains_key(key@),
{
    c.pop(key).is_some()
}

/// A store in memory of bounded size that lets the least recently used entry
/// go when a new one comes in and it is full. One of capacity zero holds nothing.
pub struct LruMemoryCache {
    inner: Option<lru::LruCache<LfsId, Vec<u8>, std::collections::hash_map::RandomState>>,
}

impl LruMemoryCache {
    pub fn new(cap: usize) -> (r: LruMemoryCache)
        ensures
            r.inv(),
            r.contents() == Map::<ContentKey, Seq<u8>>::empty(),
            r.recency() == Seq::<ContentKey>::empty(),
            r.capacity() == cap,
    {
        if cap == 0 {
            let r = LruMemoryCache { inner: None };
            assert(r.contents() =~= Map::<ContentKey, Seq<u8>>::empty());
            r
        } else {
            let c = lru_new(cap);
            let r = LruMemoryCache { inner: Some(c) };
            assert(lru_entries(c) =~= Map::<ContentKey, Seq<u8>>::empty());
            assert(lru_recency(c) =~= Seq::<ContentKey>::empty());
            assert(lru_recency(c).to_set() =~= Set::<ContentKey>::empty());
            r
        }
    }

    /// The identifiers it holds, most recently used first.
    pub closed spec fn recency(&self) -> Seq<ContentKey> {
        match self.inner {
            Some(c) => lru_recency(c),
            None => Seq::empty(),
        }
    }

    /// How many entries it holds at most.
    pub closed spec fn capacity(&self) -> nat {
        match self.inner {
            Some(c) => lru_capacity(c),
            None => 0,
        }
    }
}

impl Cache for LruMemoryCache {
    closed spec fn contents(&self) -> Map<ContentKey, Seq<u8>> {
        match self.inner {
            Some(c) => lru_entries(c),
            None => Map::empty(),
        }
    }

    closed spec fn inv(&self) -> bool {
        &&& self.inner is Some ==> self.capacity() > 0
        &&& self.inner matches Some(c) ==> lru_shape(lru_entries(c), lru_recency(c), lru_capacity(c))
    }

    closed spec fn accepts(&self, key: ContentKey, data: Seq<u8>) -> bool {
        self.capacity() > 0
    }

    open spec fn serves(&self, key: ContentKey) -> bool {
        true
    }

    fn contains(&self, key: &LfsId) -> (r: Result<bool, ()>) {
        match &self.inner {
            Some(c) => Ok(lru_contains(c, key)),
            None => Ok(false),
        }
    }

    /// Also makes `key` the most recently used entry.
    fn get(&mut self, key: &LfsId) -> (r: Result<Vec<u8>, ()>)
        ensures
            final(self).contents() == old(self).contents(),
            final(self).capacity() == old(self).capacity(),
            final(self).recency() == if old(self).contents().contains_key(key@) {
                seq![key@] + without(old(self).recency(), key@)
            } else {
                old(self).recency()
            },
            r is Ok <==> old(self).contents().contains_key(key@),
    {
        match &mut self.inner {
            Some(c) => match lru_get(c, key) {
                Some(v) => Ok(v),
                None => Err(()),
            },
            None => Err(()),
        }
    }

    /// Fails only where the capacity is zero. The key becomes the most recently
    /// used; a new key in a full cache pushes out the least recently used entry.
    fn insert(&mut self, key: &LfsId, data: &Vec<u8>) -> (r: Result<(), ()>)
        ensures
            final(self).capacity() == old(self).capacity(),
            r is Ok <==> old(self).capacity() > 0,
            final(self).contents().len() <= final(self).capacity(),
            r is Err ==> final(self).contents() == old(self).contents(),
            r is Ok && old(self).contents().contains_key(key@) ==> final(self).contents() == old(
                self,
            ).contents().insert(key@, data@) && final(self).recency() == seq![key@] + without(
                old(self).recency(),
                key@,
            ),
            r is Ok && !old(self).contents().contains_key(key@) && old(self).contents().len() < old(
                self,
            ).capacity() ==> final(self).contents() == old(self).contents().insert(key@, data@)
                && final(self).recency() == seq![key@] + old(self).recency(),
            r is Ok && !old(self).contents().contains_key(key@) && old(self).contents().len() >= old(
                self,
            ).capacity() ==> final(self).contents() == old(self).contents().remove(
                old(self).recency().last(),
            ).insert(key@, data@) && final(self).recency() == seq![key@] + old(
                self,
            ).recency().drop_last(),
    {
        match &mut self.inner {
            Some(c) => {
                lru_put(c, key.clone(), copy_bytes(data));
                Ok(())
            },
            None => Err(()),
        }
    }

    fn drop(&mut self, key: &LfsId) -> (r: Result<(), ()>)
        ensures
            final(self).contents() == old(self).contents().remove(key@),
            final(self).capacity() == old(self).capacity(),
            final(self).recency() == without(old(self).recency(), key@),
            r is Ok <==> old(self).contents().contains_key(key@),
    {
        match &mut self.inner {
            Some(c) => if lru_pop(c, key) {
                Ok(())
            } else {
                Err(())
            },
            None => Err(()),
        }
    }
}

} // verus!
