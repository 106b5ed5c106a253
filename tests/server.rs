use lfs::cache::Cache;
use lfs::guard::{is_allowed, KeyGuard};
use lfs::lfs_id::LfsId;
use lfs::memory::InMemoryCache;
use lfs::server::{serve, HelloWorld, LfsServer, NextResolveStep, Outcome, PathResolver, Resolver};

#[test]
fn end_to_end_upload_and_lookup() {
    let mut cache = InMemoryCache::new();
    let data: Vec<u8> = (0..33u8).collect();
    let id = cache.store(&data).unwrap();
    assert!(id.is_digest());
    let mut server = LfsServer::new(cache, PathResolver);
    let locator = format!("/{}", id.to_url_safe_text());
    match server.call(&locator, None) {
        Outcome::Hit(d, k) => {
            assert_eq!(d, data);
            assert!(k == id);
        }
        _ => panic!("expected a hit"),
    }
    let tag = id.to_url_safe_text();
    assert!(matches!(server.call(&locator, Some(tag.as_str())), Outcome::NotModified));
    let other = LfsId::Sha2([1; 32]);
    let missing = format!("/{}", other.to_url_safe_text());
    assert!(matches!(server.call(&missing, None), Outcome::Miss));
    assert!(matches!(server.call("/garbage!", None), Outcome::Miss));
    assert!(matches!(server.call("", None), Outcome::Miss));
    // a validator for another identifier does not count
    let other_tag = other.to_url_safe_text();
    assert!(matches!(server.call(&locator, Some(other_tag.as_str())), Outcome::Hit(_, _)));
}

#[test]
fn first_held_candidate_wins() {
    let mut cache = InMemoryCache::new();
    cache.insert(&LfsId::Sha2([2; 32]), &vec![2]).unwrap();
    cache.insert(&LfsId::Sha2([3; 32]), &vec![3]).unwrap();
    let cands = vec![LfsId::Sha2([1; 32]), LfsId::Sha2([3; 32]), LfsId::Sha2([2; 32])];
    match serve(&mut cache, &cands, None) {
        Outcome::Hit(d, k) => {
            assert_eq!(d, vec![3]);
            assert!(k == LfsId::Sha2([3; 32]));
        }
        _ => panic!("expected a hit"),
    }
    assert!(matches!(serve(&mut cache, &vec![], None), Outcome::Miss));
}

#[test]
fn path_resolver_strips_leading_byte() {
    let id = LfsId::Raw(vec![1, 2, 3]);
    let r = PathResolver.resolve("/AAwBAgM");
    assert_eq!(r.len(), 1);
    assert!(r[0] == id);
    assert!(PathResolver.resolve("AAwBAgM").is_empty());
    assert!(PathResolver.resolve("").is_empty());
}

#[test]
fn hello_world_serves_data() {
    let mut cache = InMemoryCache::new();
    let id = cache.store(&vec![1, 2, 3]).unwrap();
    let mut h = HelloWorld::new(cache);
    assert_eq!(h.call(&format!("/{}", id.to_url_safe_text())), Some(vec![1, 2, 3]));
    let big = LfsId::for_data(&vec![1u8; 40]).unwrap();
    h.cache.insert(&big, &vec![1u8; 40]).unwrap();
    assert_eq!(h.call(&format!("/{}", big.to_url_safe_text())), Some(vec![1u8; 40]));
    assert!(h.call("/nope").is_none());
}

#[test]
fn resolve_steps_in_order() {
    let mut s = NextResolveStep::UserData;
    let mut seen = vec![s];
    while s != NextResolveStep::End {
        s = s.next();
        seen.push(s);
    }
    assert_eq!(
        seen,
        vec![
            NextResolveStep::UserData,
            NextResolveStep::RootData,
            NextResolveStep::Glob,
            NextResolveStep::NotFound,
            NextResolveStep::End
        ]
    );
    assert_eq!(NextResolveStep::End.next(), NextResolveStep::End);
}

#[test]
fn key_guards() {
    let user = [KeyGuard::DefaultUserKeys];
    assert!(is_allowed(&user, b"avatar"));
    assert!(is_allowed(&user, b"backdrop"));
    assert!(!is_allowed(&user, b"avatars"));
    let home = [KeyGuard::Homepage];
    assert!(is_allowed(&home, b""));
    assert!(is_allowed(&home, b"index.html"));
    assert!(is_allowed(&home, b"css/site.css"));
    assert!(is_allowed(&home, b"fonts/a.woff2"));
    assert!(is_allowed(&home, b"docs/"));
    assert!(is_allowed(&home, b"img/js"));
    assert!(!is_allowed(&home, b"/index.html"));
    assert!(!is_allowed(&home, b"a/../b.html"));
    assert!(!is_allowed(&home, b".."));
    assert!(is_allowed(&home, b"a/..b.html"));
    assert!(!is_allowed(&home, b"run.exe"));
    assert!(!is_allowed(&[], b"avatar"));
    let both = [KeyGuard::DefaultUserKeys, KeyGuard::Homepage];
    assert!(is_allowed(&both, b"avatar"));
    assert!(is_allowed(&both, b"x.png"));
}
