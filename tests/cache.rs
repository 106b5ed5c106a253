use lfs::cache::{Cache, FrontedCache};
use lfs::lfs_id::LfsId;
use lfs::lru_cache::LruMemoryCache;
use lfs::memory::InMemoryCache;
use lfs::multi::MultiCache;
use lfs::runtime::RuntimeCacheInterfaceWrapper;

fn id(n: u8) -> LfsId {
    LfsId::Sha2([n; 32])
}

#[test]
fn memory_insert_get_drop() {
    let mut c = InMemoryCache::new();
    assert_eq!(c.contains(&id(1)), Ok(false));
    assert!(c.get(&id(1)).is_err());
    assert!(c.drop(&id(1)).is_err());
    assert_eq!(c.insert(&id(1), &vec![1, 2]), Ok(()));
    assert_eq!(c.contains(&id(1)), Ok(true));
    assert_eq!(c.get(&id(1)), Ok(vec![1, 2]));
    assert_eq!(c.insert(&id(1), &vec![3]), Ok(()));
    assert_eq!(c.get(&id(1)), Ok(vec![3]));
    assert_eq!(c.drop(&id(1)), Ok(()));
    assert_eq!(c.contains(&id(1)), Ok(false));
    assert!(c.drop(&id(1)).is_err());
}

#[test]
fn memory_insert_twice_is_harmless() {
    let mut c = InMemoryCache::new();
    let data = vec![4u8; 40];
    assert_eq!(c.insert(&id(2), &data), Ok(()));
    assert_eq!(c.insert(&id(2), &data), Ok(()));
    assert_eq!(c.get(&id(2)), Ok(data));
}

#[test]
fn lru_insert_twice_is_harmless() {
    let mut c = LruMemoryCache::new(4);
    let data = vec![4u8; 40];
    assert_eq!(c.insert(&id(2), &data), Ok(()));
    assert_eq!(c.insert(&id(2), &data), Ok(()));
    assert_eq!(c.get(&id(2)), Ok(data));
}

#[test]
fn store_returns_identifier() {
    let mut c = InMemoryCache::new();
    let small = vec![1u8, 2, 3];
    let k = c.store(&small).unwrap();
    assert!(k == LfsId::Raw(small.clone()));
    let big = vec![5u8; 33];
    let k2 = c.store(&big).unwrap();
    assert!(k2 == LfsId::for_data(&big).unwrap());
    assert_eq!(c.get(&k2), Ok(big));
}

#[test]
fn lru_evicts_least_recently_used() {
    let mut c = LruMemoryCache::new(2);
    c.insert(&id(1), &vec![1]).unwrap();
    c.insert(&id(2), &vec![2]).unwrap();
    assert_eq!(c.get(&id(1)), Ok(vec![1]));
    c.insert(&id(3), &vec![3]).unwrap();
    assert_eq!(c.contains(&id(2)), Ok(false));
    assert_eq!(c.contains(&id(1)), Ok(true));
    assert_eq!(c.contains(&id(3)), Ok(true));
    assert_eq!(c.drop(&id(1)), Ok(()));
    assert!(c.drop(&id(1)).is_err());
}

#[test]
fn lru_of_capacity_zero_holds_nothing() {
    let mut c = LruMemoryCache::new(0);
    assert!(c.insert(&id(1), &vec![1]).is_err());
    assert_eq!(c.contains(&id(1)), Ok(false));
}

#[test]
fn fronted_get_fills_front() {
    let mut back = InMemoryCache::new();
    back.insert(&id(1), &vec![9, 9]).unwrap();
    let mut f = FrontedCache::new(LruMemoryCache::new(8), back);
    assert_eq!(f.front.contains(&id(1)), Ok(false));
    assert_eq!(f.contains(&id(1)), Ok(true));
    assert_eq!(f.get(&id(1)), Ok(vec![9, 9]));
    assert_eq!(f.front.contains(&id(1)), Ok(true));
    assert_eq!(f.front.get(&id(1)), Ok(vec![9, 9]));
}

#[test]
fn fronted_insert_and_drop_reach_both_tiers() {
    let mut f = FrontedCache::new(InMemoryCache::new(), InMemoryCache::new());
    f.insert(&id(1), &vec![1]).unwrap();
    assert_eq!(f.front.contains(&id(1)), Ok(true));
    assert_eq!(f.back.contains(&id(1)), Ok(true));
    assert_eq!(f.drop(&id(1)), Ok(()));
    assert_eq!(f.contains(&id(1)), Ok(false));
    assert!(f.drop(&id(1)).is_err());
    assert!(f.get(&id(1)).is_err());
}

#[test]
fn fronted_insert_fails_only_with_back() {
    let mut f = FrontedCache::new(LruMemoryCache::new(0), InMemoryCache::new());
    assert_eq!(f.insert(&id(1), &vec![1]), Ok(()));
    let mut g = FrontedCache::new(InMemoryCache::new(), LruMemoryCache::new(0));
    assert!(g.insert(&id(1), &vec![1]).is_err());
}

#[test]
fn runtime_wrapper_decodes_references() {
    let mut w = RuntimeCacheInterfaceWrapper::from(InMemoryCache::new());
    let key = id(4).encode();
    assert_eq!(w.contains(&key), Ok(false));
    assert_eq!(w.insert(&key, &vec![4]), Ok(()));
    assert_eq!(w.contains(&key), Ok(true));
    assert_eq!(w.get(&key), Ok(vec![4]));
    assert!(w.contains(&[99, 1]).is_err());
    assert!(w.insert(&[], &vec![1]).is_err());
    assert_eq!(w.drop(&key), Ok(()));
    assert!(w.get(&key).is_err());
}

#[test]
fn multi_probes_in_order_and_backfills() {
    let mut t0 = InMemoryCache::new();
    let mut t2 = InMemoryCache::new();
    t2.insert(&id(1), &vec![1, 1]).unwrap();
    t0.insert(&id(2), &vec![2]).unwrap();
    let mut m = MultiCache::new(vec![t0, InMemoryCache::new(), t2]);
    assert_eq!(m.contains(&id(1)), Ok(true));
    assert_eq!(m.tiers[0].contains(&id(1)), Ok(false));
    assert_eq!(m.get(&id(1)), Ok(vec![1, 1]));
    assert_eq!(m.tiers[0].get(&id(1)), Ok(vec![1, 1]));
    assert_eq!(m.tiers[1].get(&id(1)), Ok(vec![1, 1]));
    assert_eq!(m.get(&id(2)), Ok(vec![2]));
    assert_eq!(m.tiers[1].contains(&id(2)), Ok(false));
    assert!(m.get(&id(3)).is_err());
    assert_eq!(m.contains(&id(3)), Ok(false));
}

#[test]
fn multi_insert_needs_one_tier() {
    let mut m = MultiCache::new(vec![LruMemoryCache::new(0), LruMemoryCache::new(2)]);
    assert_eq!(m.insert(&id(1), &vec![1]), Ok(()));
    assert_eq!(m.tiers[0].contains(&id(1)), Ok(false));
    assert_eq!(m.get(&id(1)), Ok(vec![1]));
    let mut none = MultiCache::new(vec![LruMemoryCache::new(0)]);
    assert!(none.insert(&id(1), &vec![1]).is_err());
    let mut empty: MultiCache<InMemoryCache> = MultiCache::new(vec![]);
    assert!(empty.insert(&id(1), &vec![1]).is_err());
    assert_eq!(m.drop(&id(1)), Ok(()));
    assert!(m.drop(&id(1)).is_err());
}
