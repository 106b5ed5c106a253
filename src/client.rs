use vstd::prelude::*;

use crate::cache::{Cache, FrontedCache};
use crate::config::LfsConfig;
use crate::lfs_id::ContentKey;
use crate::lru_cache::LruMemoryCache;
use crate::rpc::LfsRpc;

verus! {

/// A node's cache: a bounded in-memory tier in front of a back tier.
pub struct DefaultClient<B> {
    cache: FrontedCache<LruMemoryCache, B>,
}

impl<B: Cache> DefaultClient<B> {
    pub closed spec fn cache_spec(&self) -> FrontedCache<LruMemoryCache, B> {
        self.cache
    }

    /// The client's cache.
    pub fn cache(&self) -> (r: &FrontedCache<LruMemoryCache, B>)
        ensures
            *r == self.cache_spec(),
    {
        &self.cache
    }

    /// An empty in-memory tier of the configured size in front of `back`.
    pub fn from_config(cfg: &LfsConfig, back: B) -> (r: Result<DefaultClient<B>, String>)
        requires
            back.inv(),
        ensures
            r matches Ok(c) && c.cache_spec().back == back && c.cache_spec().inv()
                && c.cache_spec().front.contents() == Map::<ContentKey, Seq<u8>>::empty()
                && c.cache_spec().front.capacity() == cfg.cache.mem_limit,
    {
        let front = LruMemoryCache::new(cfg.cache.mem_limit);
        Ok(DefaultClient { cache: FrontedCache::new(front, back) })
    }

    /// The remote calls, served from this client's cache.
    pub fn make_rpc(self) -> (r: LfsRpc<FrontedCache<LruMemoryCache, B>>)
        ensures
            r.cache() == self.cache_spec(),
    {
        LfsRpc::new(self.cache)
    }
}

} // verus!
