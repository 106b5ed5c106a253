use vstd::prelude::*;

use crate::cache::{coherent, Cache};
use crate::lfs_id::{ContentKey, LfsId};

verus! {

broadcast use vstd::map_lib::lemma_submap_of_trans;

/// The two states of a store take the same writes.
pub open spec fn same_acceptance<C: Cache>(a: C, b: C) -> bool {
    forall|k: ContentKey, d: Seq<u8>| #[trigger] a.accepts(k, d) == b.accepts(k, d)
}

/// Some tier takes a write of `d` under `k`.
pub open spec fn some_accepts<C: Cache>(tiers: Seq<C>, k: ContentKey, d: Seq<u8>) -> bool {
    exists|i: int| 0 <= i < tiers.len() && (#[trigger] tiers[i]).accepts(k, d)
}

/// Some tier holds `k`.
pub open spec fn held_somewhere<C: Cache>(tiers: Seq<C>, k: ContentKey) -> bool {
    exists|i: int| 0 <= i < tiers.len() && #[trigger] tiers[i].contents().contains_key(k)
}

/// Every two tiers agree on what both hold.
pub open spec fn all_coherent<C: Cache>(tiers: Seq<C>) -> bool {
    forall|i: int, j: int|
        0 <= i < tiers.len() && 0 <= j < tiers.len() ==> coherent(
            #[trigger] tiers[i].contents(),
            #[trigger] tiers[j].contents(),
        )
}

/// What the tiers serve together.
pub open spec fn union_of<C: Cache>(tiers: Seq<C>) -> Map<ContentKey, Seq<u8>> {
    Map::new(
        |k: ContentKey| held_somewhere(tiers, k),
        |k: ContentKey|
            {
                let i = choose|i: int| 0 <= i < tiers.len() && #[trigger] tiers[i].contents().contains_key(k);
                tiers[i].contents()[k]
            },
    )
}

/// Where the tiers are coherent, any tier holding `k` gives what they serve under `k`.
pub proof fn lemma_union_value<C: Cache>(tiers: Seq<C>, k: ContentKey, i: int)
    requires
        all_coherent(tiers),
        0 <= i < tiers.len(),
        tiers[i].contents().contains_key(k),
    ensures
        union_of(tiers).contains_key(k),
        union_of(tiers)[k] == tiers[i].contents()[k],
{
    assert(held_somewhere(tiers, k));
    let j = choose|j: int| 0 <= j < tiers.len() && #[trigger] tiers[j].contents().contains_key(k);
    assert(coherent(tiers[i].contents(), tiers[j].contents()));
}

/// Tiers that each hold at most what they held plus `k ↦ d` stay coherent and
/// serve at most what they served plus `k ↦ d`.
pub proof fn lemma_union_insert<C: Cache>(t0: Seq<C>, t1: Seq<C>, k: ContentKey, d: Seq<u8>)
    requires
        all_coherent(t0),
        t1.len() == t0.len(),
        forall|x: int|
            0 <= x < t0.len() ==> (#[trigger] t1[x]).contents().submap_of(
                t0[x].contents().insert(k, d),
            ),
    ensures
        all_coherent(t1),
        union_of(t1).submap_of(union_of(t0).insert(k, d)),
{
    assert forall|i: int, j: int|
        0 <= i < t1.len() && 0 <= j < t1.len() implies coherent(
        #[trigger] t1[i].contents(),
        #[trigger] t1[j].contents(),
    ) by {
        assert(coherent(t0[i].contents(), t0[j].contents()));
        assert forall|q: ContentKey| #[trigger]
            t1[i].contents().contains_key(q) && t1[j].contents().contains_key(
                q,
            ) implies t1[i].contents()[q] == t1[j].contents()[q] by {
            assert(t0[i].contents().insert(k, d).contains_key(q));
            assert(t0[j].contents().insert(k, d).contains_key(q));
        }
    }
    assert forall|q: ContentKey| #[trigger] union_of(t1).contains_key(q) implies union_of(
        t0,
    ).insert(k, d).contains_key(q) && union_of(t1)[q] == union_of(t0).insert(k, d)[q] by {
        let i = choose|i: int| 0 <= i < t1.len() && #[trigger] t1[i].contents().contains_key(q);
        lemma_union_value(t1, q, i);
        assert(t0[i].contents().insert(k, d).contains_key(q));
        if q != k {
            lemma_union_value(t0, q, i);
        }
    }
}

/// Tiers that each hold at most what they held stay coherent and serve at
/// most what they served.
pub proof fn lemma_union_shrinks<C: Cache>(t0: Seq<C>, t1: Seq<C>)
    requires
        all_coherent(t0),
        t1.len() == t0.len(),
        forall|x: int| 0 <= x < t0.len() ==> (#[trigger] t1[x]).contents().submap_of(t0[x].contents()),
    ensures
        all_coherent(t1),
        union_of(t1).submap_of(union_of(t0)),
{
    assert forall|i: int, j: int|
        0 <= i < t1.len() && 0 <= j < t1.len() implies coherent(
        #[trigger] t1[i].contents(),
        #[trigger] t1[j].contents(),
    ) by {
        assert(coherent(t0[i].contents(), t0[j].contents()));
        assert forall|q: ContentKey| #[trigger]
            t1[i].contents().contains_key(q) && t1[j].contents().contains_key(
                q,
            ) implies t1[i].contents()[q] == t1[j].contents()[q] by {
            assert(t0[i].contents().contains_key(q));
            assert(t0[j].contents().contains_key(q));
        }
    }
    assert forall|q: ContentKey| #[trigger] union_of(t1).contains_key(q) implies union_of(
        t0,
    ).contains_key(q) && union_of(t1)[q] == union_of(t0)[q] by {
        let i = choose|i: int| 0 <= i < t1.len() && #[trigger] t1[i].contents().contains_key(q);
        lemma_union_value(t1, q, i);
        assert(t0[i].contents().contains_key(q));
        lemma_union_value(t0, q, i);
    }
}

proof fn lemma_insert_mono(
    a: Map<ContentKey, Seq<u8>>,
    b: Map<ContentKey, Seq<u8>>,
    k: ContentKey,
    d: Seq<u8>,
)
    requires
        a.submap_of(b.insert(k, d)),
    ensures
        a.insert(k, d).submap_of(b.insert(k, d)),
{
    assert forall|q: ContentKey| #[trigger] a.insert(k, d).contains_key(q) implies b.insert(
        k,
        d,
    ).contains_key(q) && a.insert(k, d)[q] == b.insert(k, d)[q] by {
        if q != k {
            assert(a.contains_key(q));
        }
    }
}

proof fn lemma_remove_sub(m: Map<ContentKey, Seq<u8>>, k: ContentKey)
    ensures
        m.remove(k).submap_of(m),
{
}

/// The writes the tiers take, together.
pub proof fn lemma_same_acceptance<C: Cache>(t0: Seq<C>, t1: Seq<C>)
    requires
        t1.len() == t0.len(),
        forall|x: int| 0 <= x < t0.len() ==> same_acceptance(#[trigger] t1[x], t0[x]),
    ensures
        forall|k: ContentKey, d: Seq<u8>| #[trigger] some_accepts(t1, k, d) == some_accepts(t0, k, d),
{
    assert forall|k: ContentKey, d: Seq<u8>| #[trigger] some_accepts(t1, k, d) == some_accepts(t0, k, d) by {
        if exists|i: int| 0 <= i < t1.len() && (#[trigger] t1[i]).accepts(k, d) {
            let i = choose|i: int| 0 <= i < t1.len() && (#[trigger] t1[i]).accepts(k, d);
            assert(same_acceptance(t1[i], t0[i]));
            assert(t0[i].accepts(k, d));
        }
        if exists|i: int| 0 <= i < t0.len() && (#[trigger] t0[i]).accepts(k, d) {
            let i = choose|i: int| 0 <= i < t0.len() && (#[trigger] t0[i]).accepts(k, d);
            assert(same_acceptance(t1[i], t0[i]));
            assert(t1[i].accepts(k, d));
        }
    }
}

/// Several tiers probed in order: what one of them holds is served, a hit
/// fills the tiers before it, and a write counts where any tier takes it.
pub struct MultiCache<C> {
    pub tiers: Vec<C>,
}

impl<C: Cache> MultiCache<C> {
    /// The tiers, fastest first. Each tier keeps copies of the same content, so
    /// any two must agree on what both hold; tiers that start empty always do.
    pub fn new(tiers: Vec<C>) -> (r: MultiCache<C>)
        requires
            forall|i: int| 0 <= i < tiers@.len() ==> (#[trigger] tiers@[i]).inv(),
            all_coherent(tiers@),
        ensures
            r.tiers@ == tiers@,
            r.inv(),
    {
        MultiCache { tiers }
    }
}

impl<C: Cache> Cache for MultiCache<C> {
    open spec fn contents(&self) -> Map<ContentKey, Seq<u8>> {
        union_of(self.tiers@)
    }

    open spec fn inv(&self) -> bool {
        &&& forall|i: int| 0 <= i < self.tiers@.len() ==> (#[trigger] self.tiers@[i]).inv()
        &&& all_coherent(self.tiers@)
    }

    open spec fn accepts(&self, key: ContentKey, data: Seq<u8>) -> bool {
        some_accepts(self.tiers@, key, data)
    }

    open spec fn serves(&self, key: ContentKey) -> bool {
        forall|i: int| 0 <= i < self.tiers@.len() ==> (#[trigger] self.tiers@[i]).serves(key)
    }

    fn contains(&self, key: &LfsId) -> (r: Result<bool, ()>) {
        let mut i: usize = 0;
        while i < self.tiers.len()
            invariant
                0 <= i <= self.tiers@.len(),
                self.inv(),
                forall|j: int| 0 <= j < i ==> !(#[trigger] self.tiers@[j]).contents().contains_key(key@),
            decreases self.tiers@.len() - i,
        {
            if let Ok(true) = self.tiers[i].contains(key) {
                assert(held_somewhere(self.tiers@, key@));
                return Ok(true);
            }
            i = i + 1;
        }
        Ok(false)
    }

    /// The first tier that has the entry answers; every tier before it is
    /// given a copy, if it takes one.
    fn get(&mut self, key: &LfsId) -> (r: Result<Vec<u8>, ()>)
        ensures
            (exists|h: int|
                0 <= h < old(self).tiers@.len() && (#[trigger] old(self).tiers@[h]).serves(key@)
                    && old(self).tiers@[h].contents().contains_key(key@)) ==> (r matches Ok(d) && d@
                == old(self).contents()[key@]),
            r matches Ok(d) ==> exists|h: int|
                0 <= h < old(self).tiers@.len() && #[trigger] old(self).tiers@[h].contents().contains_key(key@)
                    && forall|x: int|
                    0 <= x < h && old(self).tiers@[x].accepts(key@, d@) ==> (#[trigger] final(self).tiers@[x]).contents().contains_key(key@)
                        && final(self).tiers@[x].contents()[key@] == d@,
    {
        let ghost t0 = self.tiers@;
        let n = self.tiers.len();
        let mut i: usize = 0;
        while i < n
            invariant
                n == self.tiers@.len() == t0.len(),
                0 <= i <= n,
                forall|x: int| 0 <= x < n ==> (#[trigger] self.tiers@[x]).inv(),
                forall|x: int|
                    0 <= x < n ==> (#[trigger] self.tiers@[x]).contents().submap_of(t0[x].contents()),
                forall|x: int| 0 <= x < n ==> same_acceptance(#[trigger] self.tiers@[x], t0[x]),
                forall|x: int| i <= x < n ==> self.tiers@[x] == t0[x],
                all_coherent(t0),
                t0 == old(self).tiers@,
                forall|x: int|
                    0 <= x < i ==> !((#[trigger] t0[x]).serves(key@) && t0[x].contents().contains_key(
                        key@,
                    )),
            decreases n - i,
        {
            match self.tiers[i].get(key) {
                Ok(d) => {
                    proof {
                        lemma_union_value(t0, key@, i as int);
                        assert forall|x: int| 0 <= x < n implies (#[trigger] self.tiers@[x]).contents().submap_of(
                            t0[x].contents().insert(key@, d@),
                        ) by {
                            if t0[x].contents().contains_key(key@) {
                                lemma_union_value(t0, key@, x);
                            }
                            assert(t0[x].contents().submap_of(t0[x].contents().insert(key@, d@)));
                        }
                    }
                    let mut j: usize = 0;
                    while j < i
                        invariant
                            n == self.tiers@.len() == t0.len(),
                            0 <= j <= i < n,
                            forall|x: int| 0 <= x < n ==> (#[trigger] self.tiers@[x]).inv(),
                            forall|x: int|
                                0 <= x < n ==> (#[trigger] self.tiers@[x]).contents().submap_of(
                                    t0[x].contents().insert(key@, d@),
                                ),
                            forall|x: int| 0 <= x < n ==> same_acceptance(#[trigger] self.tiers@[x], t0[x]),
                            self.tiers@[i as int].contents().contains_key(key@),
                            self.tiers@[i as int].contents()[key@] == d@,
                            union_of(t0).contains_key(key@),
                            union_of(t0)[key@] == d@,
                            all_coherent(t0),
                            t0 == old(self).tiers@,
                            t0[i as int].contents().contains_key(key@),
                            forall|x: int|
                                0 <= x < j && t0[x].accepts(key@, d@) ==> (#[trigger] self.tiers@[x]).contents().contains_key(key@)
                                    && self.tiers@[x].contents()[key@] == d@,
                        decreases i - j,
                    {
                        let ghost before = self.tiers@;
                        let _ = self.tiers[j].insert(key, &d);
                        proof {
                            assert forall|x: int| 0 <= x < n implies (#[trigger] self.tiers@[x]).contents().submap_of(
                                t0[x].contents().insert(key@, d@),
                            ) by {
                                if x != j {
                                    assert(self.tiers@[x] == before[x]);
                                } else {
                                    lemma_insert_mono(before[x].contents(), t0[x].contents(), key@, d@);
                                }
                            }
                            assert forall|x: int| 0 <= x < n implies same_acceptance(#[trigger] self.tiers@[x], t0[x]) by {
                                if x != j {
                                    assert(self.tiers@[x] == before[x]);
                                } else {
                                    assert(same_acceptance(before[x], t0[x]));
                                }
                            }
                            assert(self.tiers@[i as int] == before[i as int]);
                            assert forall|x: int|
                                0 <= x < j + 1 && t0[x].accepts(key@, d@) implies (#[trigger] self.tiers@[x]).contents().contains_key(key@)
                                    && self.tiers@[x].contents()[key@] == d@ by {
                                if x != j {
                                    assert(self.tiers@[x] == before[x]);
                                } else {
                                    assert(same_acceptance(before[x], t0[x]));
                                    assert(before[x].accepts(key@, d@));
                                }
                            }
                        }
                        j = j + 1;
                    }
                    proof {
                        lemma_union_insert(t0, self.tiers@, key@, d@);
                        assert(union_of(t0).insert(key@, d@) =~= union_of(t0));
                        assert(union_of(self.tiers@).submap_of(union_of(t0)));
                        lemma_union_value(self.tiers@, key@, i as int);
                        lemma_same_acceptance(t0, self.tiers@);
                        assert(t0[i as int].contents().contains_key(key@));
                    }
                    return Ok(d);
                },
                Err(()) => {},
            }
            i = i + 1;
        }
        proof {
            lemma_union_shrinks(t0, self.tiers@);
            lemma_same_acceptance(t0, self.tiers@);
            if union_of(t0).contains_key(key@) {
                let x = choose|x: int| 0 <= x < t0.len() && #[trigger] t0[x].contents().contains_key(key@);
                assert(t0[x].contents().contains_key(key@));
            }
        }
        Err(())
    }

    /// Into every tier; it fails only where no tier takes it.
    fn insert(&mut self, key: &LfsId, data: &Vec<u8>) -> (r: Result<(), ()>) {
        let ghost t0 = self.tiers@;
        let n = self.tiers.len();
        let mut stored = false;
        let ghost mut w: int = 0;
        let mut i: usize = 0;
        while i < n
            invariant
                n == self.tiers@.len() == t0.len(),
                0 <= i <= n,
                forall|x: int| 0 <= x < n ==> (#[trigger] self.tiers@[x]).inv(),
                forall|x: int|
                    0 <= x < i ==> (#[trigger] self.tiers@[x]).contents().submap_of(
                        t0[x].contents().insert(key@, data@),
                    ),
                forall|x: int| i <= x < n ==> self.tiers@[x] == t0[x],
                forall|x: int| 0 <= x < n ==> same_acceptance(#[trigger] self.tiers@[x], t0[x]),
                forall|x: int| 0 <= x < i && t0[x].accepts(key@, data@) ==> #[trigger] self.tiers@[x].contents().contains_key(key@),
                stored ==> 0 <= w < i && self.tiers@[w].contents().contains_key(key@)
                    && self.tiers@[w].contents()[key@] == data@,
                !stored ==> forall|x: int| 0 <= x < i ==> !(#[trigger] t0[x]).accepts(key@, data@),
                all_coherent(t0),
            decreases n - i,
        {
            let ghost before = self.tiers@;
            if self.tiers[i].insert(key, data).is_ok() {
                stored = true;
                proof { w = i as int; }
            }
            proof {
                assert forall|x: int| 0 <= x < n implies same_acceptance(#[trigger] self.tiers@[x], t0[x]) by {
                    if x != i {
                        assert(self.tiers@[x] == before[x]);
                    } else {
                        assert(same_acceptance(before[x], t0[x]));
                    }
                }
                assert forall|x: int| 0 <= x < i + 1 && t0[x].accepts(key@, data@) implies #[trigger] self.tiers@[x].contents().contains_key(key@) by {
                    if x != i {
                        assert(self.tiers@[x] == before[x]);
                    }
                }
            }
            i = i + 1;
        }
        proof {
            assert forall|x: int| 0 <= x < n implies (#[trigger] self.tiers@[x]).contents().submap_of(
                t0[x].contents().insert(key@, data@),
            ) by {}
            lemma_union_insert(t0, self.tiers@, key@, data@);
            if stored {
                lemma_union_value(self.tiers@, key@, w);
            }
            lemma_same_acceptance(t0, self.tiers@);
        }
        if stored {
            Ok(())
        } else {
            Err(())
        }
    }

    /// Out of every tier; it fails only where no tier held it.
    fn drop(&mut self, key: &LfsId) -> (r: Result<(), ()>) {
        let ghost t0 = self.tiers@;
        let n = self.tiers.len();
        let mut dropped = false;
        let ghost mut w: int = 0;
        let mut i: usize = 0;
        while i < n
            invariant
                n == self.tiers@.len() == t0.len(),
                0 <= i <= n,
                forall|x: int| 0 <= x < n ==> (#[trigger] self.tiers@[x]).inv(),
                forall|x: int|
                    0 <= x < i ==> (#[trigger] self.tiers@[x]).contents().submap_of(
                        t0[x].contents().remove(key@),
                    ),
                forall|x: int| i <= x < n ==> self.tiers@[x] == t0[x],
                forall|x: int| 0 <= x < n ==> same_acceptance(#[trigger] self.tiers@[x], t0[x]),
                dropped ==> 0 <= w < i && t0[w].contents().contains_key(key@),
                all_coherent(t0),
            decreases n - i,
        {
            let ghost before = self.tiers@;
            if self.tiers[i].drop(key).is_ok() {
                dropped = true;
                proof { w = i as int; }
            }
            proof {
                assert forall|x: int| 0 <= x < n implies same_acceptance(#[trigger] self.tiers@[x], t0[x]) by {
                    if x != i {
                        assert(self.tiers@[x] == before[x]);
                    } else {
                        assert(same_acceptance(before[x], t0[x]));
                    }
                }
            }
            i = i + 1;
        }
        proof {
            assert forall|x: int| 0 <= x < n implies (#[trigger] self.tiers@[x]).contents().submap_of(
                t0[x].contents(),
            ) by {
                assert(self.tiers@[x].contents().submap_of(t0[x].contents().remove(key@)));
                lemma_remove_sub(t0[x].contents(), key@);
            }
            lemma_union_shrinks(t0, self.tiers@);
            assert forall|q: ContentKey| #[trigger] union_of(self.tiers@).contains_key(q) implies union_of(t0).remove(key@).contains_key(q) && union_of(self.tiers@)[q] == union_of(t0).remove(key@)[q] by {
                let x = choose|x: int| 0 <= x < n && #[trigger] self.tiers@[x].contents().contains_key(q);
                assert(self.tiers@[x].contents().submap_of(t0[x].contents().remove(key@)));
                assert(t0[x].contents().remove(key@).contains_key(q));
            }
            if dropped {
                assert(held_somewhere(t0, key@));
            }
            lemma_same_acceptance(t0, self.tiers@);
        }
        if dropped {
            Ok(())
        } else {
            Err(())
        }
    }
}

} // verus!
