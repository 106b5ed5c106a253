use vstd::prelude::*;

use crate::lfs_id::{key_for, ContentKey, LfsId};

verus! {

/// `later` holds `key ↦ data` and nothing that `earlier` did not hold besides.
pub open spec fn holds_after_insert(
    earlier: Map<ContentKey, Seq<u8>>,
    later: Map<ContentKey, Seq<u8>>,
    key: ContentKey,
    data: Seq<u8>,
) -> bool {
    later.contains_key(key) && later[key] == data && later.submap_of(earlier.insert(key, data))
}

/// The two tiers agree on every identifier that both hold.
pub open spec fn coherent(a: Map<ContentKey, Seq<u8>>, b: Map<ContentKey, Seq<u8>>) -> bool {
    forall|k: ContentKey| #[trigger] a.contains_key(k) && b.contains_key(k) ==> a[k] == b[k]
}

/// What a front tier over a back tier serves: the front's entry where it has
/// one, else the back's.
pub open spec fn overlay(
    front: Map<ContentKey, Seq<u8>>,
    back: Map<ContentKey, Seq<u8>>,
) -> Map<ContentKey, Seq<u8>> {
    back.union_prefer_right(front)
}

/// Shrinking both tiers keeps them coherent and shrinks what they serve together.
pub proof fn lemma_overlay_shrinks(
    f0: Map<ContentKey, Seq<u8>>,
    b0: Map<ContentKey, Seq<u8>>,
    f1: Map<ContentKey, Seq<u8>>,
    b1: Map<ContentKey, Seq<u8>>,
)
    requires
        coherent(f0, b0),
        f1.submap_of(f0),
        b1.submap_of(b0),
    ensures
        coherent(f1, b1),
        overlay(f1, b1).submap_of(overlay(f0, b0)),
{
    assert forall|k: ContentKey| #[trigger] f1.contains_key(k) && b1.contains_key(k) implies f1[k]
        == b1[k] by {
        assert(f0.contains_key(k) && b0.contains_key(k));
    }
    assert forall|k: ContentKey| #[trigger] overlay(f1, b1).contains_key(k) implies overlay(
        f0,
        b0,
    ).contains_key(k) && overlay(f1, b1)[k] == overlay(f0, b0)[k] by {
        if f1.contains_key(k) {
            assert(f0.contains_key(k));
        } else {
            assert(b1.contains_key(k));
            assert(b0.contains_key(k));
            if f0.contains_key(k) {
                assert(f0[k] == b0[k]);
            }
        }
    }
}

/// Both tiers taking `key ↦ data` keeps them coherent.
pub proof fn lemma_overlay_insert(
    f: Map<ContentKey, Seq<u8>>,
    b: Map<ContentKey, Seq<u8>>,
    key: ContentKey,
    data: Seq<u8>,
)
    requires
        coherent(f, b),
    ensures
        coherent(f.insert(key, data), b.insert(key, data)),
        overlay(f.insert(key, data), b.insert(key, data)) == overlay(f, b).insert(key, data),
        coherent(f.remove(key), b.remove(key)),
        overlay(f.remove(key), b.remove(key)) == overlay(f, b).remove(key),
{
    assert(overlay(f.insert(key, data), b.insert(key, data)) =~= overlay(f, b).insert(key, data));
    assert(overlay(f.remove(key), b.remove(key)) =~= overlay(f, b).remove(key));
}

/// Copying an entry of the back into the front keeps the tiers coherent and
/// adds nothing to what they serve together.
pub proof fn lemma_fill_front(
    f0: Map<ContentKey, Seq<u8>>,
    b0: Map<ContentKey, Seq<u8>>,
    f1: Map<ContentKey, Seq<u8>>,
    b1: Map<ContentKey, Seq<u8>>,
    key: ContentKey,
    data: Seq<u8>,
)
    requires
        coherent(f0, b0),
        f1.submap_of(f0),
        b1.submap_of(b0),
        b1.contains_key(key),
        b1[key] == data,
    ensures
        coherent(f1.insert(key, data), b1),
        overlay(f1.insert(key, data), b1).submap_of(overlay(f0, b0)),
{
    lemma_overlay_shrinks(f0, b0, f1, b1);
    assert(b0.contains_key(key) && b0[key] == data);
    if f0.contains_key(key) {
        assert(f0[key] == b0[key]);
    }
    assert forall|k: ContentKey| #[trigger] overlay(f1.insert(key, data), b1).contains_key(
        k,
    ) implies overlay(f0, b0).contains_key(k) && overlay(f1.insert(key, data), b1)[k] == overlay(
        f0,
        b0,
    )[k] by {
        if k != key {
            assert(overlay(f1, b1).contains_key(k));
        } else {
            assert(overlay(f1.insert(key, data), b1)[k] == data);
            assert(overlay(f0, b0).contains_key(k));
            assert(overlay(f0, b0)[k] == data);
        }
    }
}

/// A store of content by identifier.
///
/// A tier may forget entries on its own (an eviction) but never makes one up:
/// whatever it serves was inserted under that identifier. Reads may evict too,
/// where a read fills a faster tier.
pub trait Cache: Sized {
    /// What the store serves, by identifier.
    spec fn contents(&self) -> Map<ContentKey, Seq<u8>>;

    /// The store's internal consistency.
    spec fn inv(&self) -> bool;

    /// An insert of `data` under `key` is sure to succeed.
    spec fn accepts(&self, key: ContentKey, data: Seq<u8>) -> bool;

    /// A read of `key` is sure to succeed while the store holds it.
    spec fn serves(&self, key: ContentKey) -> bool;

    /// Whether the store holds `key`.
    fn contains(&self, key: &LfsId) -> (r: Result<bool, ()>)
        requires
            self.inv(),
        ensures
            r == Ok::<bool, ()>(self.contents().contains_key(key@)),
    ;

    /// The data held under `key`; fails where there is none, and succeeds
    /// where the store holds it and serves it.
    fn get(&mut self, key: &LfsId) -> (r: Result<Vec<u8>, ()>)
        requires
            old(self).inv(),
        ensures
            final(self).inv(),
            old(self).serves(key@) && old(self).contents().contains_key(key@) ==> r is Ok,
            final(self).contents().submap_of(old(self).contents()),
            r matches Ok(d) ==> old(self).contents().contains_key(key@) && d@ == old(
                self,
            ).contents()[key@] && final(self).contents().contains_key(key@),
            !old(self).contents().contains_key(key@) ==> r is Err,
            forall|k: ContentKey, d: Seq<u8>| #[trigger]
                final(self).accepts(k, d) == old(self).accepts(k, d),
    ;

    /// Stores `data` under `key`; storing the same data again is harmless.
    fn insert(&mut self, key: &LfsId, data: &Vec<u8>) -> (r: Result<(), ()>)
        requires
            old(self).inv(),
        ensures
            final(self).inv(),
            final(self).contents().submap_of(old(self).contents().insert(key@, data@)),
            r is Ok ==> holds_after_insert(
                old(self).contents(),
                final(self).contents(),
                key@,
                data@,
            ),
            old(self).accepts(key@, data@) ==> r is Ok,
            forall|k: ContentKey, d: Seq<u8>| #[trigger]
                final(self).accepts(k, d) == old(self).accepts(k, d),
    ;

    /// Stores `data` under its own identifier and returns that identifier.
    fn store(&mut self, data: &Vec<u8>) -> (r: Result<LfsId, ()>)
        requires
            old(self).inv(),
        ensures
            final(self).inv(),
            final(self).contents().submap_of(old(self).contents().insert(key_for(data@), data@)),
            r matches Ok(id) ==> id@ == key_for(data@) && id.is_valid() && holds_after_insert(
                old(self).contents(),
                final(self).contents(),
                key_for(data@),
                data@,
            ),
            old(self).accepts(key_for(data@), data@) ==> r is Ok,
    {
        let key = LfsId::for_data(data)?;
        match self.insert(&key, data) {
            Ok(()) => Ok(key),
            Err(()) => Err(()),
        }
    }

    /// Lets go of `key`; fails where the store did not hold it.
    fn drop(&mut self, key: &LfsId) -> (r: Result<(), ()>)
        requires
            old(self).inv(),
        ensures
            final(self).inv(),
            final(self).contents().submap_of(old(self).contents().remove(key@)),
            r is Ok ==> old(self).contents().contains_key(key@),
            !old(self).contents().contains_key(key@) ==> r is Err,
            forall|k: ContentKey, d: Seq<u8>| #[trigger]
                final(self).accepts(k, d) == old(self).accepts(k, d),
    ;
}

/// Two tiers: a fast front that keeps copies, over an authoritative back.
pub struct FrontedCache<F, B> {
    pub front: F,
    pub back: B,
}

impl<F: Cache, B: Cache> FrontedCache<F, B> {
    /// Puts `front` before `back`. The front keeps copies of the back's
    /// entries, so the two must agree on whatever both hold; a fresh, empty
    /// front agrees with any back.
    pub fn new(front: F, back: B) -> (r: FrontedCache<F, B>)
        requires
            front.inv(),
            back.inv(),
            coherent(front.contents(), back.contents()),
        ensures
            r.front == front,
            r.back == back,
            r.inv(),
    {
        FrontedCache { front, back }
    }
}

impl<F: Cache, B: Cache> Cache for FrontedCache<F, B> {
    open spec fn contents(&self) -> Map<ContentKey, Seq<u8>> {
        overlay(self.front.contents(), self.back.contents())
    }

    open spec fn inv(&self) -> bool {
        &&& self.front.inv()
        &&& self.back.inv()
        &&& coherent(self.front.contents(), self.back.contents())
    }

    open spec fn accepts(&self, key: ContentKey, data: Seq<u8>) -> bool {
        self.back.accepts(key, data)
    }

    open spec fn serves(&self, key: ContentKey) -> bool {
        self.front.serves(key) && self.back.serves(key)
    }

    /// Held in the front, or else in the back.
    fn contains(&self, key: &LfsId) -> (r: Result<bool, ()>) {
        match self.front.contains(key) {
            Ok(true) => Ok(true),
            _ => self.back.contains(key),
        }
    }

    /// From the front where it has the entry; else from the back, and then the
    /// front is given a copy, if it takes one.
    fn get(&mut self, key: &LfsId) -> (r: Result<Vec<u8>, ()>)
        ensures
            (old(self).front.serves(key@) && old(self).front.contents().contains_key(key@))
                || (old(self).back.serves(key@) && old(self).back.contents().contains_key(key@))
                ==> (r matches Ok(d) && d@ == old(self).contents()[key@]),
            old(self).front.serves(key@) && old(self).front.contents().contains_key(key@)
                ==> final(self).back == old(self).back,
            r matches Ok(d) && !old(self).front.contents().contains_key(key@) && old(
                self,
            ).front.accepts(key@, d@) ==> final(self).front.contents().contains_key(key@),
    {
        let ghost f0 = self.front.contents();
        let ghost b0 = self.back.contents();
        match self.front.get(key) {
            Ok(d) => {
                proof { lemma_overlay_shrinks(f0, b0, self.front.contents(), b0); }
                Ok(d)
            },
            Err(()) => {
                let ghost f1 = self.front.contents();
                match self.back.get(key) {
                    Ok(d) => {
                        let ghost b1 = self.back.contents();
                        proof {
                            lemma_overlay_shrinks(f0, b0, f1, b1);
                            if f0.contains_key(key@) {
                                assert(f0[key@] == b0[key@]);
                            }
                        }
                        let _ = self.front.insert(key, &d);
                        proof {
                            let f2 = self.front.contents();
                            lemma_fill_front(f0, b0, f1, b1, key@, d@);
                            lemma_overlay_shrinks(f1.insert(key@, d@), b1, f2, b1);
                            assert forall|k: ContentKey| #[trigger]
                                overlay(f2, b1).contains_key(k) implies overlay(f0, b0).contains_key(
                                k,
                            ) && overlay(f2, b1)[k] == overlay(f0, b0)[k] by {
                                assert(overlay(f1.insert(key@, d@), b1).contains_key(k));
                            }
                        }
                        Ok(d)
                    },
                    Err(()) => {
                        proof { lemma_overlay_shrinks(f0, b0, f1, self.back.contents()); }
                        Err(())
                    },
                }
            },
        }
    }

    /// Into the front if it takes it, then into the back, whose answer counts.
    fn insert(&mut self, key: &LfsId, data: &Vec<u8>) -> (r: Result<(), ()>)
        ensures
            final(self).front.contents().submap_of(old(self).front.contents().insert(key@, data@)),
            old(self).front.accepts(key@, data@) ==> holds_after_insert(
                old(self).front.contents(),
                final(self).front.contents(),
                key@,
                data@,
            ),
            r is Ok ==> holds_after_insert(
                old(self).back.contents(),
                final(self).back.contents(),
                key@,
                data@,
            ),
    {
        let ghost f0 = self.front.contents();
        let ghost b0 = self.back.contents();
        let _ = self.front.insert(key, data);
        let r = self.back.insert(key, data);
        proof {
            lemma_overlay_insert(f0, b0, key@, data@);
            lemma_overlay_shrinks(
                f0.insert(key@, data@),
                b0.insert(key@, data@),
                self.front.contents(),
                self.back.contents(),
            );
        }
        r
    }

    /// Out of the front if it can, then out of the back, whose answer counts.
    fn drop(&mut self, key: &LfsId) -> (r: Result<(), ()>)
        ensures
            final(self).front.contents().submap_of(old(self).front.contents().remove(key@)),
            final(self).back.contents().submap_of(old(self).back.contents().remove(key@)),
    {
        let ghost f0 = self.front.contents();
        let ghost b0 = self.back.contents();
        let _ = self.front.drop(key);
        let r = self.back.drop(key);
        proof {
            lemma_overlay_insert(f0, b0, key@, Seq::empty());
            lemma_overlay_shrinks(
                f0.remove(key@),
                b0.remove(key@),
                self.front.contents(),
                self.back.contents(),
            );
        }
        r
    }
}

} // verus!
