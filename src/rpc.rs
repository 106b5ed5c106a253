use vstd::prelude::*;

use crate::cache::{holds_after_insert, Cache};
use crate::lfs_id::{key_for, ContentKey, LfsId};

verus! {

/// Why a remote call failed.
#[derive(Clone, Copy, Debug, PartialEq, Eq, Structural)]
pub enum RpcError {
    KeyNotFound,
    DataNotStored,
}

/// The remote calls on a cache: fetch by identifier, and upload.
pub struct LfsRpc<C> {
    cache: C,
}

impl<C: Cache> LfsRpc<C> {
    pub closed spec fn cache(&self) -> C {
        self.cache
    }

    pub fn new(cache: C) -> (r: LfsRpc<C>)
        ensures
            r.cache() == cache,
    {
        LfsRpc { cache }
    }

    /// The data of `id`: inline identifiers carry it, the rest come from the cache.
    pub fn get(&mut self, id: LfsId) -> (r: Result<Vec<u8>, RpcError>)
        requires
            old(self).cache().inv(),
        ensures
            final(self).cache().inv(),
            final(self).cache().contents().submap_of(old(self).cache().contents()),
            id@ matches ContentKey::Inline(b) ==> (r matches Ok(d) && d@ == b),
            id@ is Digest ==> match r {
                Ok(d) => old(self).cache().contents().contains_key(id@) && d@ == old(
                    self,
                ).cache().contents()[id@],
                Err(e) => e == RpcError::KeyNotFound,
            },
            id@ is Digest && !old(self).cache().contents().contains_key(id@) ==> r is Err,
    {
        if let LfsId::Raw(data) = id {
            return Ok(data);
        }
        match self.cache.get(&id) {
            Ok(d) => Ok(d),
            Err(()) => Err(RpcError::KeyNotFound),
        }
    }

    /// Stores `data` and returns its identifier.
    pub fn upload(&mut self, data: Vec<u8>) -> (r: Result<LfsId, RpcError>)
        requires
            old(self).cache().inv(),
        ensures
            final(self).cache().inv(),
            match r {
                Ok(id) => id@ == key_for(data@) && holds_after_insert(
                    old(self).cache().contents(),
                    final(self).cache().contents(),
                    id@,
                    data@,
                ),
                Err(e) => e == RpcError::DataNotStored,
            },
            old(self).cache().accepts(key_for(data@), data@) ==> r is Ok,
    {
        match self.cache.store(&data) {
            Ok(id) => Ok(id),
            Err(()) => Err(RpcError::DataNotStored),
        }
    }
}

} // verus!
