use lfs::cache::Cache;
use lfs::client::DefaultClient;
use lfs::config::{CacheConfig, LfsConfig, DEFAULT_MEM_LIMIT};
use lfs::disk::{DiskCacheError, SimpleDiskCache};
use lfs::lfs_id::LfsId;
use lfs::lru_cache::LruMemoryCache;
use lfs::memory::InMemoryCache;
use lfs::rpc::{LfsRpc, RpcError};

#[test]
fn rpc_get_and_upload() {
    let mut rpc = LfsRpc::new(InMemoryCache::new());
    assert_eq!(rpc.get(LfsId::Raw(vec![1, 2])), Ok(vec![1, 2]));
    assert_eq!(rpc.get(LfsId::Sha2([0; 32])), Err(RpcError::KeyNotFound));
    let data = vec![3u8; 50];
    let id = rpc.upload(data.clone()).unwrap();
    assert!(id == LfsId::for_data(&data).unwrap());
    assert_eq!(rpc.get(id), Ok(data));
    let mut full = LfsRpc::new(LruMemoryCache::new(0));
    assert_eq!(full.upload(vec![1]), Err(RpcError::DataNotStored));
}

#[test]
fn default_config() {
    let c = LfsConfig::default();
    assert_eq!(c.cache.path, "./lfs");
    assert_eq!(c.cache.mem_limit, 1024);
    assert_eq!(CacheConfig::default().mem_limit, DEFAULT_MEM_LIMIT);
}

#[test]
fn client_from_config() {
    let mut cfg = LfsConfig::default();
    cfg.cache.mem_limit = 1;
    let client = DefaultClient::from_config(&cfg, InMemoryCache::new()).unwrap();
    assert_eq!(client.cache().contains(&LfsId::Raw(vec![1])), Ok(false));
    let mut rpc = client.make_rpc();
    let a = rpc.upload(vec![1u8; 40]).unwrap();
    let b = rpc.upload(vec![2u8; 40]).unwrap();
    assert_eq!(rpc.get(a), Ok(vec![1u8; 40]));
    assert_eq!(rpc.get(b), Ok(vec![2u8; 40]));
}

#[test]
fn disk_cache_names_files() {
    assert!(matches!(
        SimpleDiskCache::new("/nowhere".to_string(), false),
        Err(DiskCacheError::NotADirectory(p)) if p == "/nowhere"
    ));
    let d = SimpleDiskCache::new("/tmp/lfs".to_string(), true).unwrap();
    assert_eq!(d.path(), "/tmp/lfs");
    assert_eq!(d.file_name(&LfsId::Raw(vec![1, 2, 3])), "AAwBAgM=");
}
