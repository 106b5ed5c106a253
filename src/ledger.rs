use vstd::prelude::*;

use crate::cache::Cache;
use crate::lfs_id::{ContentKey, LfsId};
use crate::table::Table;

verus! {

/// Who acts.
pub type AccountId = u64;

/// Logical time: the number of the current cycle.
pub type BlockNumber = u64;

/// On whose behalf a follow-up action runs.
#[derive(Clone, Copy, Debug, PartialEq, Eq, Structural)]
pub enum Origin {
    /// The administrative identity.
    Root,
    Signed(AccountId),
}

/// Why an administrative call was refused.
#[derive(Clone, Copy, Debug, PartialEq, Eq, Structural)]
pub enum LedgerError {
    /// Only the administrative identity may make this call.
    BadOrigin,
}

/// The follow-up actions of one deployment, and how they are applied.
///
/// Whether an action is accepted, and what applying it changes, depend on the
/// dispatcher's state alone, so a later action may fail because of what an
/// earlier one changed.
pub trait Dispatch<A>: View + Sized {
    /// The dispatcher's internal consistency.
    spec fn inv(&self) -> bool;

    /// Applying `action` as `origin` is accepted in the state `s`.
    spec fn accepts(s: Self::V, action: A, origin: Origin) -> bool;

    /// The state after applying `action` as `origin` in the state `s`.
    spec fn after(s: Self::V, action: A, origin: Origin) -> Self::V;

    fn dispatch(&mut self, action: &A, origin: Origin) -> (r: bool)
        requires
            old(self).inv(),
        ensures
            final(self).inv(),
            r == Self::accepts(old(self)@, *action, origin),
            final(self)@ == Self::after(old(self)@, *action, origin),
    ;
}

/// The acting identity of a listener: its own, or the administrative one.
pub open spec fn origin_of(who: Option<AccountId>) -> Origin {
    match who {
        Some(a) => Origin::Signed(a),
        None => Origin::Root,
    }
}

/// Dispatches every listener in order: the dispatcher afterwards, and how many
/// were accepted.
pub open spec fn dispatch_all<A, D: Dispatch<A>>(
    d: D::V,
    listeners: Seq<(A, Option<AccountId>)>,
) -> (D::V, nat)
    decreases listeners.len(),
{
    if listeners.len() == 0 {
        (d, 0)
    } else {
        let (d0, n) = dispatch_all::<A, D>(d, listeners.drop_last());
        let (action, who) = listeners.last();
        let o = origin_of(who);
        (D::after(d0, action, o), if D::accepts(d0, action, o) {
            n + 1
        } else {
            n
        })
    }
}

proof fn lemma_dispatch_all_bound<A, D: Dispatch<A>>(
    d: D::V,
    listeners: Seq<(A, Option<AccountId>)>,
)
    ensures
        dispatch_all::<A, D>(d, listeners).1 <= listeners.len(),
    decreases listeners.len(),
{
    if listeners.len() > 0 {
        lemma_dispatch_all_bound::<A, D>(d, listeners.drop_last());
    }
}

/// The state of one tracked identifier.
pub enum LfsEntryState<A> {
    /// Asked for and not yet confirmed.
    Pending {
        since: BlockNumber,
        /// The follow-up actions to run once confirmed, in registration order.
        listeners: Vec<(A, Option<AccountId>)>,
    },
    /// Confirmed present, and held by `ref_count` users.
    Resolved { since: BlockNumber, latest: BlockNumber, ref_count: u32 },
}

pub enum EntryView<A> {
    Pending { since: BlockNumber, listeners: Seq<(A, Option<AccountId>)> },
    Resolved { since: BlockNumber, latest: BlockNumber, ref_count: u32 },
}

impl<A> View for LfsEntryState<A> {
    type V = EntryView<A>;

    open spec fn view(&self) -> EntryView<A> {
        match self {
            LfsEntryState::Pending { since, listeners } => EntryView::Pending {
                since: *since,
                listeners: listeners@,
            },
            LfsEntryState::Resolved { since, latest, ref_count } => EntryView::Resolved {
                since: *since,
                latest: *latest,
                ref_count: *ref_count,
            },
        }
    }
}

/// What the ledger reports to the background worker.
pub enum LfsOffchainEvent {
    /// An identifier is asked for.
    Query(LfsId),
    /// An identifier was confirmed present.
    Resolved(LfsId),
    /// The last user of an identifier let go of it.
    Dropped(LfsId),
}

pub enum EventView {
    Query(ContentKey),
    Resolved(ContentKey),
    Dropped(ContentKey),
}

impl View for LfsOffchainEvent {
    type V = EventView;

    open spec fn view(&self) -> EventView {
        match self {
            LfsOffchainEvent::Query(k) => EventView::Query(k@),
            LfsOffchainEvent::Resolved(k) => EventView::Resolved(k@),
            LfsOffchainEvent::Dropped(k) => EventView::Dropped(k@),
        }
    }
}

pub open spec fn event_views(events: Seq<LfsOffchainEvent>) -> Seq<EventView> {
    events.map_values(|e: LfsOffchainEvent| e@)
}

/// Pending entries have listeners, and no more than a count can hold; resolved
/// ones are held at least once.
pub open spec fn entry_ok<A>(e: EntryView<A>) -> bool {
    match e {
        EntryView::Pending { listeners, .. } => 0 < listeners.len() <= u32::MAX,
        EntryView::Resolved { ref_count, .. } => ref_count >= 1,
    }
}

/// The ledger's state as its operations see it: the entries and the log.
pub type LedgerView<A> = (Map<ContentKey, EntryView<A>>, Seq<EventView>);

/// `query(key, callback)` at time `now`: the new state and dispatcher.
pub open spec fn query_result<A, D: Dispatch<A>>(
    s: LedgerView<A>,
    now: BlockNumber,
    key: ContentKey,
    callback: (A, Option<AccountId>),
    d: D::V,
) -> (LedgerView<A>, D::V) {
    let (entries, events) = s;
    if !entries.contains_key(key) {
        (
            (
                entries.insert(key, EntryView::Pending { since: now, listeners: seq![callback] }),
                events.push(EventView::Query(key)),
            ),
            d,
        )
    } else {
        match entries[key] {
            EntryView::Pending { since, listeners } => if listeners.len() < u32::MAX {
                (
                    (
                        entries.insert(
                            key,
                            EntryView::Pending { since, listeners: listeners.push(callback) },
                        ),
                        events,
                    ),
                    d,
                )
            } else {
                (s, d)
            },
            EntryView::Resolved { since, latest, ref_count } => {
                let o = origin_of(callback.1);
                if ref_count < u32::MAX {
                    if D::accepts(d, callback.0, o) {
                        (
                            (
                                entries.insert(
                                    key,
                                    EntryView::Resolved {
                                        since,
                                        latest,
                                        ref_count: (ref_count + 1) as u32,
                                    },
                                ),
                                events,
                            ),
                            D::after(d, callback.0, o),
                        )
                    } else {
                        (s, D::after(d, callback.0, o))
                    }
                } else {
                    (s, d)
                }
            },
        }
    }
}

/// `respond(key)` at time `now` by a reporter that is an authority or not.
pub open spec fn respond_result<A, D: Dispatch<A>>(
    s: LedgerView<A>,
    now: BlockNumber,
    authorized: bool,
    key: ContentKey,
    d: D::V,
) -> (LedgerView<A>, D::V) {
    let (entries, events) = s;
    if !authorized || !entries.contains_key(key) {
        (s, d)
    } else {
        match entries[key] {
            EntryView::Pending { listeners, .. } => {
                let (d1, n) = dispatch_all::<A, D>(d, listeners);
                if n == 0 {
                    ((entries.remove(key), events), d1)
                } else {
                    (
                        (
                            entries.insert(
                                key,
                                EntryView::Resolved { since: now, latest: now, ref_count: n as u32 },
                            ),
                            events.push(EventView::Resolved(key)),
                        ),
                        d1,
                    )
                }
            },
            EntryView::Resolved { since, ref_count, .. } => (
                (
                    entries.insert(key, EntryView::Resolved { since, latest: now, ref_count }),
                    events,
                ),
                d,
            ),
        }
    }
}

/// `drop(key)`.
pub open spec fn drop_result<A>(s: LedgerView<A>, key: ContentKey) -> LedgerView<A> {
    let (entries, events) = s;
    match entries.get(key) {
        Some(EntryView::Resolved { since, latest, ref_count }) => if ref_count == 1 {
            (entries.remove(key), events.push(EventView::Dropped(key)))
        } else {
            (
                entries.insert(
                    key,
                    EntryView::Resolved { since, latest, ref_count: (ref_count - 1) as u32 },
                ),
                events,
            )
        },
        _ => s,
    }
}

/// Tracks which identifiers are asked for, which are confirmed present and by
/// how many users they are held, and logs what a background worker must know.
pub struct ResolutionLedger<A> {
    entries: Table<LfsEntryState<A>>,
    events: Vec<LfsOffchainEvent>,
    authorities: Vec<AccountId>,
    now: BlockNumber,
}

impl<A> ResolutionLedger<A> {
    /// The state of each tracked identifier.
    pub closed spec fn entries(&self) -> Map<ContentKey, EntryView<A>> {
        self.entries.map().map_values(|e: LfsEntryState<A>| e@)
    }

    /// The events of the current cycle, oldest first.
    pub closed spec fn events(&self) -> Seq<EventView> {
        event_views(self.events@)
    }

    pub open spec fn state(&self) -> LedgerView<A> {
        (self.entries(), self.events())
    }

    /// The identities that may confirm identifiers.
    pub closed spec fn authorities(&self) -> Seq<AccountId> {
        self.authorities@
    }

    pub closed spec fn now(&self) -> BlockNumber {
        self.now
    }

    pub closed spec fn inv(&self) -> bool {
        &&& self.entries.inv()
        &&& forall|k: ContentKey| #[trigger]
            self.entries().contains_key(k) ==> entry_ok(self.entries()[k])
    }

    pub open spec fn is_authority_spec(&self, who: AccountId) -> bool {
        self.authorities().contains(who)
    }

    /// An empty ledger at cycle `now`, with the given reporters.
    pub fn new(now: BlockNumber, authorities: Vec<AccountId>) -> (r: ResolutionLedger<A>)
        ensures
            r.inv(),
            r.entries() == Map::<ContentKey, EntryView<A>>::empty(),
            r.events() == Seq::<EventView>::empty(),
            r.authorities() == authorities@,
            r.now() == now,
    {
        let r = ResolutionLedger { entries: Table::new(), events: Vec::new(), authorities, now };
        assert(r.entries() =~= Map::<ContentKey, EntryView<A>>::empty());
        assert(r.events() =~= Seq::<EventView>::empty());
        r
    }

    /// Whether `who` may confirm identifiers.
    pub fn is_authority(&self, who: AccountId) -> (r: bool)
        ensures
            r == self.is_authority_spec(who),
    {
        let mut i: usize = 0;
        while i < self.authorities.len()
            invariant
                0 <= i <= self.authorities@.len(),
                forall|j: int| 0 <= j < i ==> self.authorities@[j] != who,
            decreases self.authorities@.len() - i,
        {
            if self.authorities[i] == who {
                assert(self.authorities@[i as int] == who);
                return true;
            }
            i = i + 1;
        }
        false
    }

    proof fn lemma_inv_kept(&self, later: &Self)
        requires
            self.inv(),
            later.entries == self.entries,
        ensures
            later.inv(),
            later.entries() == self.entries(),
    {
        assert(later.entries() == self.entries());
        assert forall|k: ContentKey| #[trigger] later.entries().contains_key(k) implies entry_ok(
            later.entries()[k],
        ) by {
            assert(self.entries().contains_key(k));
        }
    }

    fn log(&mut self, event: LfsOffchainEvent)
        ensures
            final(self).events() == old(self).events().push(event@),
            final(self).entries == old(self).entries,
            final(self).authorities == old(self).authorities,
            final(self).now == old(self).now,
    {
        self.events.push(event);
        assert(event_views(self.events@) =~= event_views(old(self).events@).push(event@));
    }

    proof fn lemma_entries_insert(
        &self,
        later: &Self,
        key: ContentKey,
        value: LfsEntryState<A>,
    )
        requires
            later.entries.map() == self.entries.map().remove(key).insert(key, value),
        ensures
            later.entries() == self.entries().insert(key, value@),
    {
        assert(later.entries() =~= self.entries().insert(key, value@));
    }

    proof fn lemma_entries_remove(&self, later: &Self, key: ContentKey)
        requires
            later.entries.map() == self.entries.map().remove(key),
        ensures
            later.entries() == self.entries().remove(key),
    {
        assert(later.entries() =~= self.entries().remove(key));
    }

    /// Registers interest in `key`: a fresh identifier becomes pending and is
    /// logged as asked for; a pending one gains the listener; a confirmed one
    /// runs the callback at once and counts one more user if it is accepted.
    /// A pending entry with `u32::MAX` listeners, or a confirmed one with
    /// `u32::MAX` users, takes no more.
    pub fn query<D: Dispatch<A>>(&mut self, key: LfsId, callback: (A, Option<AccountId>), d: &mut D)
        requires
            old(self).inv(),
            old(d).inv(),
        ensures
            final(self).inv(),
            final(d).inv(),
            final(self).authorities() == old(self).authorities(),
            final(self).now() == old(self).now(),
            (final(self).state(), final(d)@) == query_result::<A, D>(
                old(self).state(),
                old(self).now(),
                key@,
                callback,
                old(d)@,
            ),
    {
        let ghost before = *self;
        let ghost k = key@;
        match self.entries.remove(&key) {
            None => {
                let mut listeners: Vec<(A, Option<AccountId>)> = Vec::new();
                listeners.push(callback);
                let entry = LfsEntryState::Pending { since: self.now, listeners };
                let ghost ev = entry@;
                self.entries.insert(key.clone(), entry);
                proof { before.lemma_entries_insert(self, k, entry); }
                self.log(LfsOffchainEvent::Query(key));
                assert(ev == EntryView::Pending { since: before.now(), listeners: seq![callback] });
            },
            Some(LfsEntryState::Pending { since, mut listeners }) => {
                if listeners.len() < u32::MAX as usize {
                    listeners.push(callback);
                }
                let entry = LfsEntryState::Pending { since, listeners };
                self.entries.insert(key, entry);
                proof {
                    before.lemma_entries_insert(self, k, entry);
                    assert(before.entries().insert(k, before.entries()[k]) =~= before.entries());
                }
            },
            Some(LfsEntryState::Resolved { since, latest, ref_count }) => {
                let mut count = ref_count;
                if ref_count < u32::MAX {
                    let origin = match callback.1 {
                        Some(who) => Origin::Signed(who),
                        None => Origin::Root,
                    };
                    if d.dispatch(&callback.0, origin) {
                        count = ref_count + 1;
                    }
                }
                let entry = LfsEntryState::Resolved { since, latest, ref_count: count };
                self.entries.insert(key, entry);
                proof {
                    before.lemma_entries_insert(self, k, entry);
                    assert(before.entries().insert(k, before.entries()[k]) =~= before.entries());
                }
            },
        }
    }

    /// A confirmation from `reporter` that `key` is present. Ignored unless the
    /// reporter is an authority. A pending entry runs its listeners in
    /// registration order; the accepted ones become its users, and with none the
    /// entry goes away. A confirmed entry records the time of the confirmation.
    pub fn respond<D: Dispatch<A>>(&mut self, key: &LfsId, reporter: AccountId, d: &mut D)
        requires
            old(self).inv(),
            old(d).inv(),
        ensures
            final(self).inv(),
            final(d).inv(),
            final(self).authorities() == old(self).authorities(),
            final(self).now() == old(self).now(),
            (final(self).state(), final(d)@) == respond_result::<A, D>(
                old(self).state(),
                old(self).now(),
                old(self).is_authority_spec(reporter),
                key@,
                old(d)@,
            ),
    {
        if !self.is_authority(reporter) {
            return;
        }
        let ghost before = *self;
        let ghost k = key@;
        match self.entries.remove(key) {
            None => {
                assert(self.entries() =~= before.entries());
            },
            Some(LfsEntryState::Pending { since, listeners }) => {
                assert(before.entries().contains_key(k));
                let ghost d0 = d@;
                let mut count: u32 = 0;
                let mut i: usize = 0;
                while i < listeners.len()
                    invariant
                        0 <= i <= listeners@.len(),
                        listeners@.len() <= u32::MAX,
                        d.inv(),
                        (d@, count as nat) == dispatch_all::<A, D>(d0, listeners@.subrange(0, i as int)),
                    decreases listeners@.len() - i,
                {
                    proof { lemma_dispatch_all_bound::<A, D>(d0, listeners@.subrange(0, i as int)); }
                    let origin = match listeners[i].1 {
                        Some(who) => Origin::Signed(who),
                        None => Origin::Root,
                    };
                    let ok = d.dispatch(&listeners[i].0, origin);
                    if ok {
                        count = count + 1;
                    }
                    assert(listeners@.subrange(0, i + 1).drop_last() =~= listeners@.subrange(
                        0,
                        i as int,
                    ));
                    i = i + 1;
                }
                assert(listeners@.subrange(0, listeners@.len() as int) =~= listeners@);
                if count == 0 {
                    proof { before.lemma_entries_remove(self, k); }
                } else {
                    let entry = LfsEntryState::Resolved {
                        since: self.now,
                        latest: self.now,
                        ref_count: count,
                    };
                    self.entries.insert(key.clone(), entry);
                    proof { before.lemma_entries_insert(self, k, entry); }
                    self.log(LfsOffchainEvent::Resolved(key.clone()));
                }
            },
            Some(LfsEntryState::Resolved { since, latest, ref_count }) => {
                let entry = LfsEntryState::Resolved { since, latest: self.now, ref_count };
                self.entries.insert(key.clone(), entry);
                proof { before.lemma_entries_insert(self, k, entry); }
            },
        }
    }

    /// One user of `key` lets go of it; the last one removes the entry and logs
    /// it as dropped. Anything but a confirmed entry is left as it is.
    pub fn drop(&mut self, key: &LfsId)
        requires
            old(self).inv(),
        ensures
            final(self).inv(),
            final(self).authorities() == old(self).authorities(),
            final(self).now() == old(self).now(),
            final(self).state() == drop_result(old(self).state(), key@),
    {
        let ghost before = *self;
        let ghost k = key@;
        match self.entries.remove(key) {
            None => {
                assert(self.entries() =~= before.entries());
            },
            Some(LfsEntryState::Resolved { since, latest, ref_count }) => {
                assert(before.entries().contains_key(k));
                if ref_count <= 1 {
                    proof { before.lemma_entries_remove(self, k); }
                    self.log(LfsOffchainEvent::Dropped(key.clone()));
                } else {
                    let entry = LfsEntryState::Resolved { since, latest, ref_count: ref_count - 1 };
                    self.entries.insert(key.clone(), entry);
                    proof { before.lemma_entries_insert(self, k, entry); }
                }
            },
            Some(entry) => {
                self.entries.insert(key.clone(), entry);
                proof {
                    before.lemma_entries_insert(self, k, entry);
                    assert(before.entries().insert(k, before.entries()[k]) =~= before.entries());
                }
            },
        }
    }

    /// The first authority, in the order they were added, that `local_keys`
    /// can sign for: the identity this node confirms identifiers as.
    pub fn authority_id(&self, local_keys: &[AccountId]) -> (r: Option<AccountId>)
        ensures
            match r {
                Some(a) => exists|i: int|
                    0 <= i < self.authorities().len() && #[trigger] self.authorities()[i] == a
                        && local_keys@.contains(a) && forall|j: int|
                        0 <= j < i ==> !local_keys@.contains(#[trigger] self.authorities()[j]),
                None => forall|i: int|
                    0 <= i < self.authorities().len() ==> !local_keys@.contains(
                        #[trigger] self.authorities()[i],
                    ),
            },
    {
        let mut i: usize = 0;
        while i < self.authorities.len()
            invariant
                0 <= i <= self.authorities@.len(),
                forall|j: int| 0 <= j < i ==> !local_keys@.contains(#[trigger] self.authorities@[j]),
            decreases self.authorities@.len() - i,
        {
            let a = self.authorities[i];
            let mut k: usize = 0;
            while k < local_keys.len()
                invariant
                    0 <= k <= local_keys@.len(),
                    0 <= i < self.authorities@.len(),
                    a == self.authorities@[i as int],
                    forall|j: int| 0 <= j < i ==> !local_keys@.contains(#[trigger] self.authorities@[j]),
                    forall|m: int| 0 <= m < k ==> local_keys@[m] != a,
                decreases local_keys@.len() - k,
            {
                if local_keys[k] == a {
                    assert(local_keys@[k as int] == a);
                    assert(self.authorities()[i as int] == a);
                    return Some(a);
                }
                k = k + 1;
            }
            assert(!local_keys@.contains(a));
            i = i + 1;
        }
        None
    }

    /// Starts cycle `now`: the log of the previous cycle is cleared.
    pub fn on_initialize(&mut self, now: BlockNumber)
        requires
            old(self).inv(),
        ensures
            final(self).inv(),
            final(self).entries() == old(self).entries(),
            final(self).authorities() == old(self).authorities(),
            final(self).events() == Seq::<EventView>::empty(),
            final(self).now() == now,
    {
        let ghost before = *self;
        self.events = Vec::new();
        self.now = now;
        proof { before.lemma_inv_kept(self); }
        assert(self.events() =~= Seq::<EventView>::empty());
    }

    /// The events of the current cycle, oldest first.
    pub fn ocw_events(&self) -> (r: &Vec<LfsOffchainEvent>)
        ensures
            event_views(r@) == self.events(),
    {
        &self.events
    }

    /// Lets `who` confirm identifiers; only the administrative identity may.
    pub fn add_authority(&mut self, origin: Origin, who: AccountId) -> (r: Result<(), LedgerError>)
        requires
            old(self).inv(),
        ensures
            final(self).inv(),
            final(self).entries() == old(self).entries(),
            final(self).events() == old(self).events(),
            final(self).now() == old(self).now(),
            r is Ok <==> origin == Origin::Root,
            r is Ok ==> final(self).authorities() == if old(self).is_authority_spec(who) {
                old(self).authorities()
            } else {
                old(self).authorities().push(who)
            },
            r is Err ==> final(self).authorities() == old(self).authorities(),
    {
        if origin != Origin::Root {
            return Err(LedgerError::BadOrigin);
        }
        let ghost before = *self;
        if !self.is_authority(who) {
            self.authorities.push(who);
        }
        proof { before.lemma_inv_kept(self); }
        Ok(())
    }

    /// Takes the right to confirm away from `who`; only the administrative
    /// identity may.
    pub fn drop_authority(&mut self, origin: Origin, who: AccountId) -> (r: Result<(), LedgerError>)
        requires
            old(self).inv(),
        ensures
            final(self).inv(),
            final(self).entries() == old(self).entries(),
            final(self).events() == old(self).events(),
            final(self).now() == old(self).now(),
            r is Ok <==> origin == Origin::Root,
            r is Ok ==> final(self).authorities() == old(self).authorities().filter(others(who)),
            r is Err ==> final(self).authorities() == old(self).authorities(),
    {
        if origin != Origin::Root {
            return Err(LedgerError::BadOrigin);
        }
        let mut kept: Vec<AccountId> = Vec::new();
        let mut i: usize = 0;
        while i < self.authorities.len()
            invariant
                0 <= i <= self.authorities@.len(),
                kept@ == self.authorities@.subrange(0, i as int).filter(others(who)),
            decreases self.authorities@.len() - i,
        {
            let a = self.authorities[i];
            proof {
                let f = others(who);
                assert(self.authorities@.subrange(0, i + 1).drop_last() =~= self.authorities@.subrange(
                    0,
                    i as int,
                ));
                self.authorities@.subrange(0, i as int).lemma_filter_push(a, f);
                assert(self.authorities@.subrange(0, i + 1) =~= self.authorities@.subrange(
                    0,
                    i as int,
                ).push(a));
            }
            if a != who {
                kept.push(a);
            }
            i = i + 1;
        }
        assert(self.authorities@.subrange(0, self.authorities@.len() as int)
            =~= self.authorities@);
        let ghost before = *self;
        self.authorities = kept;
        proof { before.lemma_inv_kept(self); }
        Ok(())
    }
}

/// Every identity but `who`.
pub open spec fn others(who: AccountId) -> spec_fn(AccountId) -> bool {
    |a: AccountId| a != who
}

/// The identifiers that `events` asks for, oldest first.
pub open spec fn queried(events: Seq<EventView>) -> Seq<ContentKey>
    decreases events.len(),
{
    if events.len() == 0 {
        Seq::empty()
    } else {
        let rest = queried(events.drop_last());
        match events.last() {
            EventView::Query(k) => rest.push(k),
            _ => rest,
        }
    }
}

/// The identifiers that `events` asks for and `held` holds, oldest first.
pub open spec fn answerable(events: Seq<EventView>, held: Set<ContentKey>) -> Seq<ContentKey> {
    queried(events).filter(|k: ContentKey| held.contains(k))
}

/// The background worker's pass over one cycle's log: the identifiers asked
/// for that the local cache holds, each to be confirmed by this node.
pub fn offchain<C: Cache>(events: &Vec<LfsOffchainEvent>, cache: &C) -> (r: Vec<LfsId>)
    requires
        cache.inv(),
    ensures
        r@.map_values(|k: LfsId| k@) == answerable(event_views(events@), cache.contents().dom()),
{
    let ghost held = cache.contents().dom();
    let ghost f = |k: ContentKey| held.contains(k);
    let mut found: Vec<LfsId> = Vec::new();
    let mut i: usize = 0;
    while i < events.len()
        invariant
            0 <= i <= events@.len(),
            cache.inv(),
            held == cache.contents().dom(),
            f == (|k: ContentKey| held.contains(k)),
            found@.map_values(|k: LfsId| k@) == answerable(
                event_views(events@.subrange(0, i as int)),
                held,
            ),
        decreases events@.len() - i,
    {
        let ghost pre = event_views(events@.subrange(0, i as int));
        let ghost post = event_views(events@.subrange(0, i + 1));
        assert(post.drop_last() =~= pre);
        assert(post.last() == events@[i as int]@);
        match &events[i] {
            LfsOffchainEvent::Query(k) => {
                proof { queried(pre).lemma_filter_push(k@, f); }
                let here = cache.contains(k);
                if let Ok(true) = here {
                    let ghost before = found@;
                    found.push(k.clone());
                    assert(found@.map_values(|k: LfsId| k@) =~= before.map_values(|k: LfsId| k@).push(
                        k@,
                    ));
                }
            },
            _ => {},
        }
        i = i + 1;
    }
    assert(events@.subrange(0, events@.len() as int) =~= events@);
    found
}

/// The lifecycle of one identifier: the first query of an absent identifier
/// logs one `Query`; a second query before any confirmation logs nothing more
/// and joins the listeners; an authorised confirmation runs both callbacks in
/// order and, both accepted, leaves two users; two drops remove the entry
/// (logging `Dropped`), and a third drop changes nothing.
pub proof fn lemma_lifecycle<A, D: Dispatch<A>>(
    s0: LedgerView<A>,
    now: BlockNumber,
    key: ContentKey,
    cb1: (A, Option<AccountId>),
    cb2: (A, Option<AccountId>),
    d0: D::V,
)
    requires
        !s0.0.contains_key(key),
        D::accepts(d0, cb1.0, origin_of(cb1.1)),
        D::accepts(D::after(d0, cb1.0, origin_of(cb1.1)), cb2.0, origin_of(cb2.1)),
    ensures
        ({
            let (s1, d1) = query_result::<A, D>(s0, now, key, cb1, d0);
            let (s2, d2) = query_result::<A, D>(s1, now, key, cb2, d1);
            let (s3, d3) = respond_result::<A, D>(s2, now, true, key, d2);
            let s4 = drop_result(s3, key);
            let s5 = drop_result(s4, key);
            let s6 = drop_result(s5, key);
            &&& s1.1 == s0.1.push(EventView::Query(key))
            &&& s2.1 == s1.1
            &&& s2.0[key] == EntryView::<A>::Pending { since: now, listeners: seq![cb1, cb2] }
            &&& d2 == d0
            &&& d3 == D::after(D::after(d0, cb1.0, origin_of(cb1.1)), cb2.0, origin_of(cb2.1))
            &&& s3.0[key] == EntryView::<A>::Resolved { since: now, latest: now, ref_count: 2 }
            &&& s3.1 == s2.1.push(EventView::Resolved(key))
            &&& s4.0[key] == EntryView::<A>::Resolved { since: now, latest: now, ref_count: 1 }
            &&& !s5.0.contains_key(key)
            &&& s5.1 == s4.1.push(EventView::Dropped(key))
            &&& s6 == s5
        }),
{
    let (s1, d1) = query_result::<A, D>(s0, now, key, cb1, d0);
    let (s2, d2) = query_result::<A, D>(s1, now, key, cb2, d1);
    assert(s1.0[key] == EntryView::<A>::Pending { since: now, listeners: seq![cb1] });
    assert(seq![cb1].push(cb2) =~= seq![cb1, cb2]);
    let ls = seq![cb1, cb2];
    assert(ls.drop_last() =~= seq![cb1]);
    assert(ls.drop_last().drop_last() =~= Seq::<(A, Option<AccountId>)>::empty());
    let (d3, n) = dispatch_all::<A, D>(d0, ls);
    assert(dispatch_all::<A, D>(d0, ls.drop_last().drop_last()) == (d0, 0nat));
    assert(dispatch_all::<A, D>(d0, ls.drop_last()) == (D::after(d0, cb1.0, origin_of(cb1.1)), 1nat));
    assert(n == 2);
    let (s3, _) = respond_result::<A, D>(s2, now, true, key, d2);
    let s4 = drop_result(s3, key);
    assert(s4.0.contains_key(key));
    let s5 = drop_result(s4, key);
    assert(s5.0.get(key) is None);
}

/// A query of an identifier that is already pending logs no new `Query`, runs
/// no callback, and only appends the listener.
pub proof fn lemma_query_pending<A, D: Dispatch<A>>(
    s: LedgerView<A>,
    now: BlockNumber,
    key: ContentKey,
    callback: (A, Option<AccountId>),
    d: D::V,
)
    requires
        s.0.contains_key(key),
        s.0[key] is Pending,
        s.0[key]->Pending_listeners.len() < u32::MAX,
    ensures
        ({
            let (s1, d1) = query_result::<A, D>(s, now, key, callback, d);
            &&& s1.1 == s.1
            &&& d1 == d
            &&& s1.0 == s.0.insert(
                key,
                EntryView::Pending {
                    since: s.0[key]->Pending_since,
                    listeners: s.0[key]->Pending_listeners.push(callback),
                },
            )
        }),
{
}

/// A confirmation by a reporter that is not an authority changes nothing.
pub proof fn lemma_unauthorized_respond<A, D: Dispatch<A>>(
    s: LedgerView<A>,
    now: BlockNumber,
    key: ContentKey,
    d: D::V,
)
    ensures
        respond_result::<A, D>(s, now, false, key, d) == (s, d),
{
}

} // verus!
