use vstd::prelude::*;

verus! {

/// Entries the in-memory tier holds by default.
pub const DEFAULT_MEM_LIMIT: usize = 1024;

/// Where the cache keeps its data and how much it keeps in memory.
pub struct CacheConfig {
    /// The directory of the disk tier.
    pub path: String,
    /// Entries the in-memory tier holds at most.
    pub mem_limit: usize,
}

pub struct LfsConfig {
    pub cache: CacheConfig,
}

impl Default for CacheConfig {
    fn default() -> (r: CacheConfig)
        ensures
            r.path@ == "./lfs"@,
            r.mem_limit == DEFAULT_MEM_LIMIT,
    {
        CacheConfig { path: "./lfs".to_owned(), mem_limit: DEFAULT_MEM_LIMIT }
    }
}

impl Default for LfsConfig {
    fn default() -> (r: LfsConfig)
        ensures
            r.cache.path@ == "./lfs"@,
            r.cache.mem_limit == DEFAULT_MEM_LIMIT,
    {
        LfsConfig { cache: CacheConfig::default() }
    }
}

} // verus!
