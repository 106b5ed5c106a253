use lfs::cache::Cache;
use lfs::guard::KeyGuard;
use lfs::ledger::{offchain, LedgerError, LfsOffchainEvent, Origin, ResolutionLedger};
use lfs::lfs_id::LfsId;
use lfs::memory::InMemoryCache;
use lfs::server::{LfsServer, Outcome, Resolver};
use lfs::user_data::{UserData, UserDataCall, UserDataError, UserDataResolver, ROOT_ACCOUNT};

const REPORTER: u64 = 100;

fn id(n: u8) -> LfsId {
    LfsId::Blake2([n; 32])
}

fn queries(ledger: &ResolutionLedger<UserDataCall>) -> usize {
    ledger.ocw_events().iter().filter(|e| matches!(e, LfsOffchainEvent::Query(_))).count()
}

fn change(who: u64, key: &[u8], nonce: u32, reference: &LfsId) -> UserDataCall {
    UserDataCall::DataChanged { who, key: key.to_vec(), nonce, reference: reference.encode() }
}

#[test]
fn resolution_lifecycle() {
    let mut l: ResolutionLedger<UserDataCall> = ResolutionLedger::new(5, vec![REPORTER]);
    let mut ud = UserData::new();
    let guards = [KeyGuard::DefaultUserKeys];
    let r = id(1).encode();
    assert_eq!(ud.update(&mut l, &guards, Origin::Signed(7), b"avatar".to_vec(), r.clone()), Ok(()));
    assert_eq!(queries(&l), 1);
    assert_eq!(ud.update(&mut l, &guards, Origin::Signed(8), b"avatar".to_vec(), r.clone()), Ok(()));
    assert_eq!(queries(&l), 1);
    assert_eq!(ud.user_data(7, b"avatar"), None);
    assert_eq!(ud.nonce(7, b"avatar"), Some(1));
    l.respond(&id(1), REPORTER, &mut ud);
    assert_eq!(ud.user_data(7, b"avatar"), Some(r.clone()));
    assert_eq!(ud.user_data(8, b"avatar"), Some(r.clone()));
    assert!(matches!(l.ocw_events().last(), Some(LfsOffchainEvent::Resolved(k)) if *k == id(1)));
    l.drop(&id(1));
    assert!(!matches!(l.ocw_events().last(), Some(LfsOffchainEvent::Dropped(_))));
    l.drop(&id(1));
    assert!(matches!(l.ocw_events().last(), Some(LfsOffchainEvent::Dropped(k)) if *k == id(1)));
    let n = l.ocw_events().len();
    l.drop(&id(1));
    assert_eq!(l.ocw_events().len(), n);
    // gone: a new query starts over
    assert_eq!(ud.update(&mut l, &guards, Origin::Signed(9), b"profile".to_vec(), r.clone()), Ok(()));
    assert_eq!(queries(&l), 2);
}

#[test]
fn unauthorized_respond_is_ignored() {
    let mut l: ResolutionLedger<UserDataCall> = ResolutionLedger::new(1, vec![REPORTER]);
    let mut ud = UserData::new();
    let r = id(2).encode();
    ud.update(&mut l, &[], Origin::Root, b"x".to_vec(), r.clone()).unwrap();
    let n = l.ocw_events().len();
    l.respond(&id(2), 55, &mut ud);
    assert_eq!(ud.user_data(ROOT_ACCOUNT, b"x"), None);
    assert_eq!(l.ocw_events().len(), n);
    // still pending: another request adds a listener without a new event
    ud.update(&mut l, &[], Origin::Root, b"y".to_vec(), r.clone()).unwrap();
    assert_eq!(queries(&l), 1);
    l.respond(&id(2), REPORTER, &mut ud);
    assert_eq!(ud.user_data(ROOT_ACCOUNT, b"x"), Some(r.clone()));
    assert_eq!(ud.user_data(ROOT_ACCOUNT, b"y"), Some(r));
}

#[test]
fn all_listeners_rejected_removes_entry() {
    let mut l: ResolutionLedger<UserDataCall> = ResolutionLedger::new(1, vec![REPORTER]);
    let mut ud = UserData::new();
    // a follow-up that runs as a signed identity is refused by the store
    l.query(id(3), (change(1, b"k", 1, &id(3)), Some(1)), &mut ud);
    l.respond(&id(3), REPORTER, &mut ud);
    assert!(!l.ocw_events().iter().any(|e| matches!(e, LfsOffchainEvent::Resolved(_))));
    l.query(id(3), (change(1, b"k", 1, &id(3)), Some(1)), &mut ud);
    assert_eq!(queries(&l), 2);
}

#[test]
fn superseded_update_gives_reference_back() {
    let mut l: ResolutionLedger<UserDataCall> = ResolutionLedger::new(1, vec![REPORTER]);
    let mut ud = UserData::new();
    ud.update(&mut l, &[], Origin::Root, b"page".to_vec(), id(4).encode()).unwrap();
    ud.update(&mut l, &[], Origin::Root, b"page".to_vec(), id(5).encode()).unwrap();
    assert_eq!(ud.nonce(ROOT_ACCOUNT, b"page"), Some(2));
    l.respond(&id(4), REPORTER, &mut ud);
    assert_eq!(ud.user_data(ROOT_ACCOUNT, b"page"), None);
    assert_eq!(ud.take_released(), vec![id(4).encode()]);
    l.respond(&id(5), REPORTER, &mut ud);
    assert_eq!(ud.user_data(ROOT_ACCOUNT, b"page"), Some(id(5).encode()));
    assert!(ud.take_released().is_empty());
    // a later change releases the reference it replaces
    ud.update(&mut l, &[], Origin::Root, b"page".to_vec(), id(6).encode()).unwrap();
    l.respond(&id(6), REPORTER, &mut ud);
    assert_eq!(ud.take_released(), vec![id(5).encode()]);
}

#[test]
fn update_errors() {
    let mut l: ResolutionLedger<UserDataCall> = ResolutionLedger::new(1, vec![REPORTER]);
    let mut ud = UserData::new();
    let home = [KeyGuard::Homepage];
    assert_eq!(
        ud.update(&mut l, &home, Origin::Signed(1), b"../etc".to_vec(), id(1).encode()),
        Err(UserDataError::KeyNotAllowed)
    );
    assert_eq!(
        ud.update(&mut l, &home, Origin::Signed(1), b"a.html".to_vec(), vec![42, 1]),
        Err(UserDataError::BadReference)
    );
    assert!(l.ocw_events().is_empty());
    assert_eq!(ud.nonce(1, b"a.html"), None);
}

#[test]
fn respond_to_unknown_and_repeated_confirmation() {
    let mut l: ResolutionLedger<UserDataCall> = ResolutionLedger::new(1, vec![REPORTER]);
    let mut ud = UserData::new();
    l.respond(&id(4), REPORTER, &mut ud);
    assert!(l.ocw_events().is_empty());
    ud.update(&mut l, &[], Origin::Root, b"a".to_vec(), id(4).encode()).unwrap();
    l.respond(&id(4), REPORTER, &mut ud);
    l.on_initialize(2);
    assert!(l.ocw_events().is_empty());
    l.respond(&id(4), REPORTER, &mut ud);
    assert!(l.ocw_events().is_empty());
    l.drop(&id(4));
    assert!(matches!(l.ocw_events().last(), Some(LfsOffchainEvent::Dropped(_))));
}

#[test]
fn authority_management() {
    let mut l: ResolutionLedger<UserDataCall> = ResolutionLedger::new(1, vec![]);
    assert!(!l.is_authority(9));
    assert_eq!(l.add_authority(Origin::Signed(1), 9), Err(LedgerError::BadOrigin));
    assert!(!l.is_authority(9));
    assert_eq!(l.add_authority(Origin::Root, 9), Ok(()));
    assert_eq!(l.add_authority(Origin::Root, 9), Ok(()));
    assert!(l.is_authority(9));
    assert_eq!(l.drop_authority(Origin::Signed(9), 9), Err(LedgerError::BadOrigin));
    assert_eq!(l.drop_authority(Origin::Root, 9), Ok(()));
    assert!(!l.is_authority(9));
}

#[test]
fn worker_answers_held_queries() {
    let mut l: ResolutionLedger<UserDataCall> = ResolutionLedger::new(1, vec![REPORTER]);
    let mut ud = UserData::new();
    let mut cache = InMemoryCache::new();
    cache.insert(&id(6), &vec![6]).unwrap();
    ud.update(&mut l, &[], Origin::Root, b"a".to_vec(), id(5).encode()).unwrap();
    ud.update(&mut l, &[], Origin::Root, b"b".to_vec(), id(6).encode()).unwrap();
    let found = offchain(l.ocw_events(), &cache);
    assert_eq!(found.len(), 1);
    assert!(found[0] == id(6));
    for k in found {
        l.respond(&k, REPORTER, &mut ud);
    }
    assert_eq!(ud.user_data(ROOT_ACCOUNT, b"b"), Some(id(6).encode()));
    assert_eq!(ud.user_data(ROOT_ACCOUNT, b"a"), None);
}

fn confirmed(ud: &mut UserData, l: &mut ResolutionLedger<UserDataCall>, origin: Origin, key: &[u8], target: &LfsId) {
    ud.update(l, &[KeyGuard::DefaultUserKeys, KeyGuard::Homepage], origin, key.to_vec(), target.encode()).unwrap();
    l.respond(target, REPORTER, ud);
}

#[test]
fn user_data_resolver_steps() {
    let mut l: ResolutionLedger<UserDataCall> = ResolutionLedger::new(1, vec![REPORTER]);
    let mut ud = UserData::new();
    confirmed(&mut ud, &mut l, Origin::Signed(7), b"avatar", &id(1));
    confirmed(&mut ud, &mut l, Origin::Root, b"about.html", &id(2));
    confirmed(&mut ud, &mut l, Origin::Root, b".*", &id(3));
    confirmed(&mut ud, &mut l, Origin::Root, b"_404", &id(4));
    let r = UserDataResolver::new(&ud);
    let c = r.resolve("/7/avatar");
    assert_eq!(c.len(), 3);
    assert!(c[0] == id(1) && c[1] == id(3) && c[2] == id(4));
    let c = r.resolve("/about.html");
    assert_eq!(c.len(), 3);
    assert!(c[0] == id(2) && c[1] == id(3) && c[2] == id(4));
    let c = r.resolve("/alice/avatar");
    assert_eq!(c.len(), 2);
    assert!(c[0] == id(3));
    let c = r.resolve("/99999999999999999999/avatar");
    assert_eq!(c.len(), 2);
}

#[test]
fn user_data_resolver_serves_first_held() {
    let mut l: ResolutionLedger<UserDataCall> = ResolutionLedger::new(1, vec![REPORTER]);
    let mut ud = UserData::new();
    let page = LfsId::for_data(&vec![7u8; 64]).unwrap();
    let missing = LfsId::Sha3([9; 32]);
    confirmed(&mut ud, &mut l, Origin::Root, b"index.html", &missing);
    confirmed(&mut ud, &mut l, Origin::Root, b"_404", &page);
    let mut cache = InMemoryCache::new();
    cache.insert(&page, &vec![7u8; 64]).unwrap();
    let mut server = LfsServer::new(cache, UserDataResolver::new(&ud));
    match server.call("/index.html", None) {
        Outcome::Hit(d, k) => {
            assert_eq!(d, vec![7u8; 64]);
            assert!(k == page);
        }
        _ => panic!("expected the not-found page"),
    }
}

#[test]
fn authority_id_picks_first_local_authority() {
    let l: ResolutionLedger<UserDataCall> = ResolutionLedger::new(1, vec![5, 6, 7]);
    assert_eq!(l.authority_id(&[7, 6]), Some(6));
    assert_eq!(l.authority_id(&[1, 2]), None);
    assert_eq!(l.authority_id(&[]), None);
}
