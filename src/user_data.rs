use vstd::prelude::*;

use crate::guard::{guard_allows, is_allowed, KeyGuard, SLASH};
use crate::ledger::{query_result, AccountId, Dispatch, Origin, ResolutionLedger};
use crate::lfs_id::{copy_bytes, decodes_to, ContentKey, LfsId};
use crate::server::{keys_of, NextResolveStep, Resolver};

verus! {

/// The account that administrative updates are filed under.
pub const ROOT_ACCOUNT: AccountId = 0;

/// The follow-up action of an update: point an entry at a reference once the
/// reference is confirmed, unless a later update superseded it.
pub enum UserDataCall {
    DataChanged { who: AccountId, key: Vec<u8>, nonce: u32, reference: Vec<u8> },
}

/// Why an update was refused.
#[derive(Clone, Copy, Debug, PartialEq, Eq, Structural)]
pub enum UserDataError {
    /// No guard accepts the entry name.
    KeyNotAllowed,
    /// The reference is not a serialised identifier.
    BadReference,
    /// The entry has been updated as often as a nonce can count.
    NonceExhausted,
}

/// The account an update by `origin` is filed under.
pub open spec fn account_of(origin: Origin) -> AccountId {
    match origin {
        Origin::Signed(a) => a,
        Origin::Root => ROOT_ACCOUNT,
    }
}

/// The administrative identity may use any name; others one that a guard accepts.
pub open spec fn update_allowed(guards: Seq<KeyGuard>, origin: Origin, key: Seq<u8>) -> bool {
    origin == Origin::Root || exists|i: int|
        0 <= i < guards.len() && guard_allows(#[trigger] guards[i], key)
}

/// The nonce of `(who, key)` cannot count another update.
pub open spec fn nonce_spent(s: UserDataView, who: AccountId, key: Seq<u8>) -> bool {
    s.0.contains_key((who, key)) && s.0[(who, key)].0 == u32::MAX
}

/// The nonce the next update of `(who, key)` gets.
pub open spec fn next_nonce(s: UserDataView, who: AccountId, key: Seq<u8>) -> u32 {
    if s.0.contains_key((who, key)) {
        (s.0[(who, key)].0 + 1) as u32
    } else {
        1
    }
}

/// The store with the nonce of `(who, key)` moved on, its reference kept.
pub open spec fn with_nonce(s: UserDataView, who: AccountId, key: Seq<u8>) -> UserDataView {
    let kept = if s.0.contains_key((who, key)) {
        s.0[(who, key)].1
    } else {
        None
    };
    (s.0.insert((who, key), (next_nonce(s, who, key), kept)), s.1)
}

/// `call` asks to point `(who, key)` at `reference` under `nonce`.
pub open spec fn is_change(
    call: UserDataCall,
    who: AccountId,
    key: Seq<u8>,
    nonce: u32,
    reference: Seq<u8>,
) -> bool {
    match call {
        UserDataCall::DataChanged { who: w, key: k, nonce: n, reference: r } => w == who && k@ == key
            && n == nonce && r@ == reference,
    }
}

/// One named entry of one account.
pub struct UserRecord {
    pub who: AccountId,
    pub key: Vec<u8>,
    /// The number of the latest update asked for.
    pub nonce: u32,
    /// The confirmed reference the entry points at.
    pub reference: Option<Vec<u8>>,
}

/// What a record stands for: its place, and its nonce and reference.
pub open spec fn record_view(r: UserRecord) -> ((AccountId, Seq<u8>), (u32, Option<Seq<u8>>)) {
    (
        (r.who, r.key@),
        (
            r.nonce,
            match r.reference {
                Some(v) => Some(v@),
                None => None,
            },
        ),
    )
}

/// Per-account named entries that point at content references.
pub struct UserData {
    records: Vec<UserRecord>,
    model: Ghost<Map<(AccountId, Seq<u8>), (u32, Option<Seq<u8>>)>>,
    /// References this store stopped using, for the ledger to release.
    released: Vec<Vec<u8>>,
}

/// The entries, and the references given up, oldest first.
pub type UserDataView = (Map<(AccountId, Seq<u8>), (u32, Option<Seq<u8>>)>, Seq<Seq<u8>>);

impl View for UserData {
    type V = UserDataView;

    closed spec fn view(&self) -> UserDataView {
        (self.model@, self.released@.map_values(|v: Vec<u8>| v@))
    }
}

/// `data_changed` as the administrative identity: with the current nonce the
/// entry takes the reference and its old one is given up; with a stale nonce
/// the new reference itself is given up.
pub open spec fn data_changed(
    s: UserDataView,
    who: AccountId,
    key: Seq<u8>,
    nonce: u32,
    reference: Seq<u8>,
) -> UserDataView {
    let (records, released) = s;
    if records.contains_key((who, key)) && records[(who, key)].0 == nonce {
        let old = records[(who, key)].1;
        (
            records.insert((who, key), (nonce, Some(reference))),
            match old {
                Some(r) => released.push(r),
                None => released,
            },
        )
    } else {
        (records, released.push(reference))
    }
}

impl Dispatch<UserDataCall> for UserData {
    closed spec fn inv(&self) -> bool {
        self.wf()
    }

    open spec fn accepts(s: UserDataView, action: UserDataCall, origin: Origin) -> bool {
        origin == Origin::Root
    }

    open spec fn after(s: UserDataView, action: UserDataCall, origin: Origin) -> UserDataView {
        match action {
            UserDataCall::DataChanged { who, key, nonce, reference } => if origin == Origin::Root {
                data_changed(s, who, key@, nonce, reference@)
            } else {
                s
            },
        }
    }

    fn dispatch(&mut self, action: &UserDataCall, origin: Origin) -> (r: bool) {
        if origin != Origin::Root {
            return false;
        }
        match action {
            UserDataCall::DataChanged { who, key, nonce, reference } => {
                let ghost before = self@;
                match self.position(*who, key.as_slice()) {
                    Some(i) => {
                        assert(self.model@.contains_key(record_view(self.records@[i as int]).0));
                        if self.records[i].nonce == *nonce {
                            let old = match &self.records[i].reference {
                                Some(v) => Some(copy_bytes(v)),
                                None => None,
                            };
                            self.set_record(i, *who, copy_bytes(key), *nonce, Some(copy_bytes(reference)));
                            match old {
                                Some(v) => self.release(v),
                                None => {},
                            }
                        } else {
                            self.release(copy_bytes(reference));
                        }
                    },
                    None => {
                        self.release(copy_bytes(reference));
                    },
                }
                true
            },
        }
    }
}

impl UserData {
    pub closed spec fn wf(&self) -> bool {
        &&& forall|i: int|
            0 <= i < self.records@.len() ==> #[trigger] self.model@.contains_key(
                record_view(self.records@[i]).0,
            ) && self.model@[record_view(self.records@[i]).0] == record_view(self.records@[i]).1
        &&& forall|k: (AccountId, Seq<u8>)| #[trigger]
            self.model@.contains_key(k) ==> exists|i: int|
                0 <= i < self.records@.len() && #[trigger] record_view(self.records@[i]).0 == k
        &&& forall|i: int, j: int|
            0 <= i < self.records@.len() && 0 <= j < self.records@.len() && i != j
                ==> #[trigger] record_view(self.records@[i]).0 != #[trigger] record_view(
                self.records@[j],
            ).0
    }

    pub fn new() -> (r: UserData)
        ensures
            r.wf(),
            r@.0 == Map::<(AccountId, Seq<u8>), (u32, Option<Seq<u8>>)>::empty(),
            r@.1 == Seq::<Seq<u8>>::empty(),
    {
        let r = UserData { records: Vec::new(), model: Ghost(Map::empty()), released: Vec::new() };
        assert(r@.1 =~= Seq::<Seq<u8>>::empty());
        r
    }

    fn position(&self, who: AccountId, key: &[u8]) -> (r: Option<usize>)
        requires
            self.wf(),
        ensures
            match r {
                Some(i) => i < self.records@.len() && record_view(self.records@[i as int]).0 == (
                    who,
                    key@,
                ),
                None => !self@.0.contains_key((who, key@)),
            },
    {
        let mut i: usize = 0;
        while i < self.records.len()
            invariant
                self.wf(),
                0 <= i <= self.records@.len(),
                forall|j: int| 0 <= j < i ==> record_view(self.records@[j]).0 != (who, key@),
            decreases self.records@.len() - i,
        {
            if self.records[i].who == who && crate::lfs_id::same_bytes(
                self.records[i].key.as_slice(),
                key,
            ) {
                return Some(i);
            }
            i = i + 1;
        }
        None
    }

    fn release(&mut self, reference: Vec<u8>)
        requires
            old(self).wf(),
        ensures
            final(self).wf(),
            final(self)@ == (old(self)@.0, old(self)@.1.push(reference@)),
            final(self).records == old(self).records,
            final(self).model == old(self).model,
    {
        let ghost before = *self;
        self.released.push(reference);
        proof { lemma_wf_same(&before, self); }
        assert(self.released@.map_values(|v: Vec<u8>| v@) =~= old(self).released@.map_values(
            |v: Vec<u8>| v@,
        ).push(reference@));
    }

    /// Replaces the record at `i`, which is the one of `(who, key)`.
    fn set_record(
        &mut self,
        i: usize,
        who: AccountId,
        key: Vec<u8>,
        nonce: u32,
        reference: Option<Vec<u8>>,
    )
        requires
            i < old(self).records@.len(),
            record_view(old(self).records@[i as int]).0 == (who, key@),
            old(self).wf(),
        ensures
            final(self).wf(),
            final(self)@ == (
                old(self)@.0.insert(
                    (who, key@),
                    (
                        nonce,
                        match reference {
                            Some(v) => Some(v@),
                            None => None,
                        },
                    ),
                ),
                old(self)@.1,
            ),
    {
        let ghost old_records = self.records@;
        let rec = UserRecord { who, key, nonce, reference };
        let ghost rv = record_view(rec);
        self.records.set(i, rec);
        self.model = Ghost(self.model@.insert(rv.0, rv.1));
        assert forall|k: (AccountId, Seq<u8>)| #[trigger]
            self.model@.contains_key(k) implies exists|a: int|
                0 <= a < self.records@.len() && #[trigger] record_view(self.records@[a]).0 == k by {
            if k != rv.0 {
                let a = choose|a: int|
                    0 <= a < old_records.len() && #[trigger] record_view(old_records[a]).0 == k;
                assert(record_view(self.records@[a]).0 == k);
            } else {
                assert(record_view(self.records@[i as int]).0 == k);
            }
        }
    }

    /// Adds a record for `(who, key)`, which has none.
    fn add_record(&mut self, who: AccountId, key: Vec<u8>, nonce: u32)
        requires
            old(self).wf(),
            !old(self)@.0.contains_key((who, key@)),
        ensures
            final(self).wf(),
            final(self)@ == (old(self)@.0.insert((who, key@), (nonce, None)), old(self)@.1),
    {
        let ghost old_records = self.records@;
        let rec = UserRecord { who, key, nonce, reference: None };
        let ghost rv = record_view(rec);
        self.records.push(rec);
        self.model = Ghost(self.model@.insert(rv.0, rv.1));
        let ghost last = (self.records@.len() - 1) as int;
        assert(record_view(self.records@[last]).0 == rv.0);
        assert forall|a: int| 0 <= a < self.records@.len() implies #[trigger]
            self.model@.contains_key(record_view(self.records@[a]).0) && self.model@[record_view(
            self.records@[a],
        ).0] == record_view(self.records@[a]).1 by {
            if a != last {
                assert(self.records@[a] == old_records[a]);
                assert(old(self).model@.contains_key(record_view(old_records[a]).0));
                assert(record_view(old_records[a]).0 != rv.0);
            }
        }
        assert forall|k: (AccountId, Seq<u8>)| #[trigger]
            self.model@.contains_key(k) implies exists|a: int|
                0 <= a < self.records@.len() && #[trigger] record_view(self.records@[a]).0 == k by {
            if k != rv.0 {
                let a = choose|a: int|
                    0 <= a < old_records.len() && #[trigger] record_view(old_records[a]).0 == k;
                assert(record_view(self.records@[a]).0 == k);
            } else {
                assert(record_view(self.records@[last]).0 == k);
            }
        }
        assert forall|a: int, b: int|
            0 <= a < self.records@.len() && 0 <= b < self.records@.len() && a
                != b implies #[trigger] record_view(self.records@[a]).0 != #[trigger] record_view(
            self.records@[b],
        ).0 by {
            if a == last {
                assert(self.model@.contains_key(record_view(self.records@[b]).0) || b == last);
                assert(old(self).model@.contains_key(record_view(old_records[b]).0));
            } else if b == last {
                assert(old(self).model@.contains_key(record_view(old_records[a]).0));
            }
        }
    }

    /// The nonce of the latest update of `(who, key)`, if any was asked for.
    pub fn nonce(&self, who: AccountId, key: &[u8]) -> (r: Option<u32>)
        requires
            self.wf(),
        ensures
            r == (if self@.0.contains_key((who, key@)) {
                Some(self@.0[(who, key@)].0)
            } else {
                None
            }),
    {
        match self.position(who, key) {
            Some(i) => {
                assert(self.model@.contains_key(record_view(self.records@[i as int]).0));
                Some(self.records[i].nonce)
            },
            None => None,
        }
    }

    /// The confirmed reference that `(who, key)` points at.
    pub fn user_data(&self, who: AccountId, key: &[u8]) -> (r: Option<Vec<u8>>)
        requires
            self.wf(),
        ensures
            match r {
                Some(v) => self@.0.contains_key((who, key@)) && self@.0[(who, key@)].1 == Some(v@),
                None => !self@.0.contains_key((who, key@)) || self@.0[(who, key@)].1 is None,
            },
    {
        match self.position(who, key) {
            Some(i) => {
                assert(self.model@.contains_key(record_view(self.records@[i as int]).0));
                match &self.records[i].reference {
                    Some(v) => Some(copy_bytes(v)),
                    None => None,
                }
            },
            None => None,
        }
    }

    /// The references given up since the last call, oldest first; the ledger
    /// should drop each.
    pub fn take_released(&mut self) -> (r: Vec<Vec<u8>>)
        ensures
            r@.map_values(|v: Vec<u8>| v@) == old(self)@.1,
            final(self)@ == (old(self)@.0, Seq::<Seq<u8>>::empty()),
            old(self).wf() ==> final(self).wf(),
    {
        let ghost before = *self;
        let r = self.released.split_off(0);
        proof {
            if before.wf() {
                lemma_wf_same(&before, self);
            }
        }
        assert(r@ =~= old(self).released@);
        assert(self.released@.map_values(|v: Vec<u8>| v@) =~= Seq::<Seq<u8>>::empty());
        r
    }

    /// Asks to point the entry `key` of the caller at `reference`: the entry's
    /// nonce goes up by one and the ledger is queried for the reference, with a
    /// change under that nonce as the follow-up. A signed caller may only use
    /// names that one of `guards` accepts; the administrative identity updates
    /// the entries of `ROOT_ACCOUNT` under any name.
    pub fn update(
        &mut self,
        ledger: &mut ResolutionLedger<UserDataCall>,
        guards: &[KeyGuard],
        origin: Origin,
        key: Vec<u8>,
        reference: Vec<u8>,
    ) -> (r: Result<(), UserDataError>)
        requires
            old(self).wf(),
            old(ledger).inv(),
        ensures
            final(self).wf(),
            final(ledger).inv(),
            (r == Err::<(), UserDataError>(UserDataError::KeyNotAllowed)) == !update_allowed(
                guards@,
                origin,
                key@,
            ),
            (r == Err::<(), UserDataError>(UserDataError::BadReference)) == (update_allowed(
                guards@,
                origin,
                key@,
            ) && forall|k: ContentKey| !decodes_to(reference@, k)),
            (r == Err::<(), UserDataError>(UserDataError::NonceExhausted)) == (update_allowed(
                guards@,
                origin,
                key@,
            ) && (exists|k: ContentKey| decodes_to(reference@, k)) && nonce_spent(
                old(self)@,
                account_of(origin),
                key@,
            )),
            r is Err ==> final(self)@ == old(self)@ && final(ledger).state() == old(ledger).state(),
            r is Ok ==> exists|k: ContentKey, call: UserDataCall|
                #[trigger] decodes_to(reference@, k) && #[trigger] is_change(
                    call,
                    account_of(origin),
                    key@,
                    next_nonce(old(self)@, account_of(origin), key@),
                    reference@,
                ) && (final(ledger).state(), final(self)@) == query_result::<UserDataCall, UserData>(
                    old(ledger).state(),
                    old(ledger).now(),
                    k,
                    (call, None),
                    with_nonce(old(self)@, account_of(origin), key@),
                ),
            final(ledger).authorities() == old(ledger).authorities(),
            final(ledger).now() == old(ledger).now(),
    {
        let who = match origin {
            Origin::Signed(a) => {
                if !is_allowed(guards, key.as_slice()) {
                    return Err(UserDataError::KeyNotAllowed);
                }
                a
            },
            Origin::Root => ROOT_ACCOUNT,
        };
        let id = match LfsId::decode(reference.as_slice()) {
            Ok(id) => id,
            Err(_) => return Err(UserDataError::BadReference),
        };
        proof {
            assert forall|k: ContentKey| decodes_to(reference@, k) implies k == id@ by {
                crate::lfs_id::lemma_encoding_injective(k, id@);
            }
        }
        let current = self.nonce(who, key.as_slice());
        let nonce = match current {
            Some(n) => n,
            None => 0,
        };
        if nonce == u32::MAX {
            return Err(UserDataError::NonceExhausted);
        }
        let next = nonce + 1;
        match self.position(who, key.as_slice()) {
            Some(i) => {
                assert(self.model@.contains_key(record_view(self.records@[i as int]).0));
                let kept = match &self.records[i].reference {
                    Some(v) => Some(copy_bytes(v)),
                    None => None,
                };
                self.set_record(i, who, copy_bytes(&key), next, kept);
            },
            None => {
                self.add_record(who, copy_bytes(&key), next);
            },
        }
        let ghost s1 = self@;
        let ghost key_v = key@;
        let ghost ref_v = reference@;
        let ghost old_ledger = ledger.state();
        let ghost known = old(self)@.0.contains_key((who, key_v));
        assert(s1 == (
            old(self)@.0.insert(
                (who, key_v),
                (
                    next,
                    if known {
                        old(self)@.0[(who, key_v)].1
                    } else {
                        None
                    },
                ),
            ),
            old(self)@.1,
        ));
        let call = UserDataCall::DataChanged { who, key, nonce: next, reference };
        let ghost call_g = call;
        assert(next == next_nonce(old(self)@, who, key_v));
        assert(s1 == with_nonce(old(self)@, who, key_v));
        assert(is_change(call_g, who, key_v, next_nonce(old(self)@, who, key_v), ref_v));
        ledger.query(id, (call, None), self);
        assert(decodes_to(ref_v, id@));
        assert((ledger.state(), self@) == query_result::<UserDataCall, UserData>(
            old_ledger,
            ledger.now(),
            id@,
            (call_g, None),
            with_nonce(old(self)@, who, key_v),
        ));
        assert(exists|k: ContentKey, call: UserDataCall|
            #[trigger] decodes_to(ref_v, k) && #[trigger] is_change(
                call,
                who,
                key_v,
                next_nonce(old(self)@, who, key_v),
                ref_v,
            ) && (ledger.state(), self@) == query_result::<UserDataCall, UserData>(
                old_ledger,
                ledger.now(),
                k,
                (call, None),
                with_nonce(old(self)@, who, key_v),
            ));
        Ok(())
    }
}

proof fn lemma_wf_same(a: &UserData, b: &UserData)
    requires
        a.wf(),
        a.records@ == b.records@,
        a.model@ == b.model@,
    ensures
        b.wf(),
{
    assert forall|i: int| 0 <= i < b.records@.len() implies #[trigger] b.model@.contains_key(
        record_view(b.records@[i]).0,
    ) && b.model@[record_view(b.records@[i]).0] == record_view(b.records@[i]).1 by {
        assert(a.model@.contains_key(record_view(a.records@[i]).0));
    }
    assert forall|k: (AccountId, Seq<u8>)| #[trigger] b.model@.contains_key(k) implies exists|i: int|
        0 <= i < b.records@.len() && #[trigger] record_view(b.records@[i]).0 == k by {
        assert(a.model@.contains_key(k));
    }
}

/// The value of a string of decimal digits.
pub open spec fn decimal_value(s: Seq<u8>) -> int
    decreases s.len(),
{
    if s.len() == 0 {
        0
    } else {
        decimal_value(s.drop_last()) * 10 + (s.last() - 48)
    }
}

/// `s` is a non-empty string of decimal digits whose value fits an account number.
pub open spec fn is_account_text(s: Seq<u8>) -> bool {
    &&& 0 < s.len()
    &&& forall|i: int| 0 <= i < s.len() ==> 48 <= #[trigger] s[i] <= 57
    &&& decimal_value(s) <= u64::MAX
}

/// The account a path segment names by its number.
fn parse_account(s: &[u8]) -> (r: Option<AccountId>)
    ensures
        match r {
            Some(a) => is_account_text(s@) && a == decimal_value(s@),
            None => !is_account_text(s@),
        },
{
    if s.len() == 0 {
        return None;
    }
    let mut v: u64 = 0;
    let mut i: usize = 0;
    while i < s.len()
        invariant
            0 <= i <= s@.len(),
            forall|j: int| 0 <= j < i ==> 48 <= #[trigger] s@[j] <= 57,
            v == decimal_value(s@.subrange(0, i as int)),
        decreases s@.len() - i,
    {
        let c = s[i];
        assert(s@.subrange(0, i + 1).drop_last() =~= s@.subrange(0, i as int));
        if c < 48 || c > 57 {
            assert(!(48 <= s@[i as int] <= 57));
            return None;
        }
        let digit = (c - 48) as u64;
        if v > (u64::MAX - digit) / 10 {
            proof {
                assert(decimal_value(s@.subrange(0, i + 1)) == v * 10 + digit) by (nonlinear_arith)
                    requires
                        decimal_value(s@.subrange(0, i + 1)) == decimal_value(s@.subrange(0, i as int)) * 10 + digit,
                        v == decimal_value(s@.subrange(0, i as int)),
                ;
                assert(v * 10 + digit > u64::MAX) by (nonlinear_arith)
                    requires
                        v > (u64::MAX - digit) / 10,
                        digit <= 9,
                ;
                if forall|j: int| 0 <= j < s@.len() ==> 48 <= #[trigger] s@[j] <= 57 {
                    lemma_decimal_grows(s@, i as int + 1);
                }
            }
            return None;
        }
        proof {
            assert(v * 10 + digit <= u64::MAX) by (nonlinear_arith)
                requires
                    v <= (u64::MAX - digit) / 10,
                    digit <= 9,
            ;
        }
        v = v * 10 + digit;
        i = i + 1;
    }
    assert(s@.subrange(0, s@.len() as int) =~= s@);
    Some(v)
}

/// Every longer prefix of digits has at least the value of a shorter one.
proof fn lemma_decimal_grows(s: Seq<u8>, n: int)
    requires
        0 <= n <= s.len(),
        forall|i: int| 0 <= i < s.len() ==> 48 <= #[trigger] s[i] <= 57,
    ensures
        decimal_value(s.subrange(0, n)) <= decimal_value(s),
    decreases s.len() - n,
{
    if n < s.len() {
        lemma_decimal_grows(s, n + 1);
        let p = s.subrange(0, n + 1);
        assert(p.drop_last() =~= s.subrange(0, n));
        lemma_decimal_nonneg(s.subrange(0, n));
        assert(decimal_value(p) >= decimal_value(s.subrange(0, n))) by (nonlinear_arith)
            requires
                decimal_value(p) == decimal_value(s.subrange(0, n)) * 10 + (p.last() - 48),
                p.last() >= 48,
                decimal_value(s.subrange(0, n)) >= 0,
        {
        }
    } else {
        assert(s.subrange(0, n) =~= s);
    }
}

proof fn lemma_decimal_nonneg(s: Seq<u8>)
    requires
        forall|i: int| 0 <= i < s.len() ==> 48 <= #[trigger] s[i] <= 57,
    ensures
        decimal_value(s) >= 0,
    decreases s.len(),
{
    if s.len() > 0 {
        lemma_decimal_nonneg(s.drop_last());
    }
}

/// The identifier that the entry `key` of `who` points at, as a list of at
/// most one: empty where there is no entry, no confirmed reference, or the
/// reference is not a serialised identifier.
pub open spec fn pointed_id(s: UserDataView, who: AccountId, key: Seq<u8>) -> Seq<ContentKey> {
    if s.0.contains_key((who, key)) && s.0[(who, key)].1 is Some && exists|k: ContentKey|
        decodes_to(s.0[(who, key)].1->Some_0, k) {
        seq![choose|k: ContentKey| decodes_to(s.0[(who, key)].1->Some_0, k)]
    } else {
        Seq::empty()
    }
}

/// Where the first `/` of `q` is; its length where it has none.
pub open spec fn slash_at(q: Seq<u8>) -> int
    decreases q.len(),
{
    if q.len() == 0 {
        0
    } else if q[0] == SLASH {
        0
    } else {
        1 + slash_at(q.drop_first())
    }
}

/// The locator without one leading `/`.
pub open spec fn strip_slash(p: Seq<u8>) -> Seq<u8> {
    if p.len() > 0 && p[0] == SLASH {
        p.drop_first()
    } else {
        p
    }
}

/// What a locator is looked up as at one step: the first segment names the
/// account (by number) and the rest is its entry; then the root account's entry
/// under the whole path (without its first byte), under `.*`, and under `_404`.
pub open spec fn step_ids(s: UserDataView, p: Seq<u8>, step: NextResolveStep) -> Seq<ContentKey> {
    match step {
        NextResolveStep::UserData => {
            let q = strip_slash(p);
            let c = slash_at(q);
            let user = q.subrange(0, c);
            let rest = if c < q.len() {
                q.subrange(c + 1, q.len() as int)
            } else {
                Seq::empty()
            };
            if is_account_text(user) {
                pointed_id(s, decimal_value(user) as u64, rest)
            } else {
                Seq::empty()
            }
        },
        NextResolveStep::RootData => if p.len() == 0 {
            Seq::empty()
        } else {
            pointed_id(s, ROOT_ACCOUNT, p.drop_first())
        },
        NextResolveStep::Glob => pointed_id(s, ROOT_ACCOUNT, seq![46u8, 42u8]),
        NextResolveStep::NotFound => pointed_id(s, ROOT_ACCOUNT, seq![95u8, 52u8, 48u8, 52u8]),
        NextResolveStep::End => Seq::empty(),
    }
}

pub open spec fn step_rank(step: NextResolveStep) -> nat {
    match step {
        NextResolveStep::UserData => 4,
        NextResolveStep::RootData => 3,
        NextResolveStep::Glob => 2,
        NextResolveStep::NotFound => 1,
        NextResolveStep::End => 0,
    }
}

pub open spec fn next_step(step: NextResolveStep) -> NextResolveStep {
    match step {
        NextResolveStep::UserData => NextResolveStep::RootData,
        NextResolveStep::RootData => NextResolveStep::Glob,
        NextResolveStep::Glob => NextResolveStep::NotFound,
        _ => NextResolveStep::End,
    }
}

/// The identifiers found from `step` on, in order.
pub open spec fn ids_from(s: UserDataView, p: Seq<u8>, step: NextResolveStep) -> Seq<ContentKey>
    decreases step_rank(step),
{
    if step == NextResolveStep::End {
        Seq::empty()
    } else {
        step_ids(s, p, step) + ids_from(s, p, next_step(step))
    }
}

/// Resolves paths through the entries of a user-data store.
pub struct UserDataResolver<'a> {
    pub data: &'a UserData,
}

impl<'a> UserDataResolver<'a> {
    pub fn new(data: &'a UserData) -> (r: UserDataResolver<'a>)
        ensures
            r.data == data,
    {
        UserDataResolver { data }
    }

    fn lookup(&self, who: AccountId, key: &[u8]) -> (r: Vec<LfsId>)
        requires
            self.data.wf(),
        ensures
            keys_of(r@) == pointed_id(self.data@, who, key@),
    {
        let mut out: Vec<LfsId> = Vec::new();
        if let Some(reference) = self.data.user_data(who, key) {
            if let Ok(id) = LfsId::decode(reference.as_slice()) {
                proof {
                    let stored = self.data@.0[(who, key@)].1->Some_0;
                    assert(stored == reference@);
                    assert(decodes_to(stored, id@));
                    let k = choose|k: ContentKey| decodes_to(stored, k);
                    crate::lfs_id::lemma_encoding_injective(k, id@);
                }
                out.push(id);
                assert(keys_of(out@) =~= pointed_id(self.data@, who, key@));
                return out;
            }
        }
        assert(keys_of(out@) =~= pointed_id(self.data@, who, key@));
        out
    }

    /// What one step finds for the locator `p`, so that a caller can go step by
    /// step (`NextResolveStep::next`) and stop at the first identifier it takes.
    pub fn step_lookup(&self, p: &[u8], step: NextResolveStep) -> (r: Vec<LfsId>)
        requires
            self.data.wf(),
        ensures
            keys_of(r@) == step_ids(self.data@, p@, step),
    {
        match step {
            NextResolveStep::UserData => {
                let q = if p.len() > 0 && p[0] == SLASH {
                    let (_, q) = p.split_at(1);
                    q
                } else {
                    p
                };
                assert(q@ =~= strip_slash(p@));
                let c = first_slash(q);
                let (user, tail) = q.split_at(c);
                let rest = if c < q.len() {
                    let (_, rest) = tail.split_at(1);
                    rest
                } else {
                    tail
                };
                assert(user@ =~= q@.subrange(0, c as int));
                if c < q.len() {
                    assert(rest@ =~= q@.subrange(c + 1, q@.len() as int));
                } else {
                    assert(rest@ =~= Seq::<u8>::empty());
                }
                match parse_account(user) {
                    Some(who) => self.lookup(who, rest),
                    None => Vec::new(),
                }
            },
            NextResolveStep::RootData => {
                if p.len() == 0 {
                    let out: Vec<LfsId> = Vec::new();
                    assert(keys_of(out@) =~= Seq::<ContentKey>::empty());
                    return out;
                }
                let (_, rest) = p.split_at(1);
                assert(rest@ =~= p@.drop_first());
                self.lookup(ROOT_ACCOUNT, rest)
            },
            NextResolveStep::Glob => {
                let glob: [u8; 2] = [46u8, 42u8];
                assert(glob@ == seq![46u8, 42u8]);
                self.lookup(ROOT_ACCOUNT, glob.as_slice())
            },
            NextResolveStep::NotFound => {
                let page: [u8; 4] = [95u8, 52u8, 48u8, 52u8];
                assert(page@ == seq![95u8, 52u8, 48u8, 52u8]);
                self.lookup(ROOT_ACCOUNT, page.as_slice())
            },
            NextResolveStep::End => {
                let out: Vec<LfsId> = Vec::new();
                assert(keys_of(out@) =~= Seq::<ContentKey>::empty());
                out
            },
        }
    }
}

/// Where the first `/` of `q` is; its length where it has none.
fn first_slash(q: &[u8]) -> (r: usize)
    ensures
        r == slash_at(q@),
        r <= q@.len(),
{
    let mut i: usize = 0;
    assert(q@.subrange(0, q@.len() as int) =~= q@);
    while i < q.len()
        invariant
            0 <= i <= q@.len(),
            slash_at(q@) == i + slash_at(q@.subrange(i as int, q@.len() as int)),
        decreases q@.len() - i,
    {
        let ghost rest = q@.subrange(i as int, q@.len() as int);
        if q[i] == SLASH {
            return i;
        }
        assert(rest.drop_first() =~= q@.subrange(i + 1, q@.len() as int));
        i = i + 1;
    }
    i
}

impl<'a> Resolver for UserDataResolver<'a> {
    closed spec fn inv(&self) -> bool {
        self.data.wf()
    }

    open spec fn candidates(&self, locator: Seq<u8>) -> Seq<ContentKey> {
        ids_from(self.data@, locator, NextResolveStep::UserData)
    }

    /// Tries the steps in order and keeps what each finds.
    fn resolve(&self, locator: &str) -> (r: Vec<LfsId>) {
        let p = locator.as_bytes();
        let mut out: Vec<LfsId> = Vec::new();
        let mut step = NextResolveStep::UserData;
        while step != NextResolveStep::End
            invariant
                self.data.wf(),
                keys_of(out@) + ids_from(self.data@, p@, step) == ids_from(
                    self.data@,
                    p@,
                    NextResolveStep::UserData,
                ),
            decreases step_rank(step),
        {
            let found = self.step_lookup(p, step);
            let ghost before = out@;
            let mut i: usize = 0;
            while i < found.len()
                invariant
                    0 <= i <= found@.len(),
                    keys_of(out@) == keys_of(before) + keys_of(found@).subrange(0, i as int),
                decreases found@.len() - i,
            {
                let ghost prev = out@;
                let next = found[i].clone();
                out.push(next);
                assert(keys_of(out@) =~= keys_of(prev).push(found@[i as int]@));
                assert(keys_of(found@).subrange(0, i + 1) =~= keys_of(found@).subrange(0, i as int).push(
                    found@[i as int]@,
                ));
                assert(keys_of(out@) =~= keys_of(before) + keys_of(found@).subrange(0, i + 1));
                i = i + 1;
            }
            assert(keys_of(found@).subrange(0, found@.len() as int) =~= keys_of(found@));
            assert(keys_of(out@) + ids_from(self.data@, p@, next_step(step)) =~= keys_of(before)
                + ids_from(self.data@, p@, step));
            step = step.next();
        }
        out
    }
}

} // verus!
