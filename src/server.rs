use vstd::prelude::*;
use vstd::utf8::encode_utf8;

use crate::cache::Cache;
use crate::lfs_id::{text_names, text_names_no_id, ContentKey, LfsId};

verus! {

/// The views of a list of identifiers.
pub open spec fn keys_of(ids: Seq<LfsId>) -> Seq<ContentKey> {
    ids.map_values(|id: LfsId| id@)
}

/// Turns a request locator into the identifiers to look for, in order.
pub trait Resolver {
    /// The resolver's internal consistency.
    spec fn inv(&self) -> bool;

    /// The identifiers to look for under `locator`, in order.
    spec fn candidates(&self, locator: Seq<u8>) -> Seq<ContentKey>;

    fn resolve(&self, locator: &str) -> (r: Vec<LfsId>)
        requires
            self.inv(),
        ensures
            keys_of(r@) == self.candidates(encode_utf8(locator@)),
    ;
}

/// The identifier that the URL-safe text `text` names, if any.
pub open spec fn named_id(text: Seq<u8>) -> Seq<ContentKey> {
    if text_names_no_id(text) {
        Seq::empty()
    } else {
        seq![choose|k: ContentKey| text_names(text, k)]
    }
}

/// The locator without its first byte (the leading `/` of a path) is one
/// identifier in URL-safe text.
pub struct PathResolver;

impl Resolver for PathResolver {
    open spec fn inv(&self) -> bool {
        true
    }

    open spec fn candidates(&self, locator: Seq<u8>) -> Seq<ContentKey> {
        if locator.len() == 0 {
            Seq::empty()
        } else {
            named_id(locator.drop_first())
        }
    }

    fn resolve(&self, locator: &str) -> (r: Vec<LfsId>) {
        let bytes = locator.as_bytes();
        let mut found: Vec<LfsId> = Vec::new();
        if bytes.len() == 0 {
            assert(keys_of(found@) =~= Seq::<ContentKey>::empty());
            return found;
        }
        let (_, rest) = bytes.split_at(1);
        assert(rest@ =~= bytes@.drop_first());
        match LfsId::from_url_safe_bytes(rest) {
            Some(id) => {
                proof {
                    let k = choose|k: ContentKey| text_names(rest@, k);
                    lemma_text_names_unique(rest@, k, id@);
                }
                found.push(id);
                assert(keys_of(found@) =~= named_id(rest@));
            },
            None => {
                assert(keys_of(found@) =~= Seq::<ContentKey>::empty());
            },
        }
        found
    }
}

/// A path made of `/` and the URL-safe text of an identifier resolves to that
/// identifier alone.
pub proof fn lemma_path_names_id(k: ContentKey, text: Seq<u8>)
    requires
        text_names(text, k),
    ensures
        PathResolver.candidates(seq![47u8] + text) == seq![k],
{
    let p = seq![47u8] + text;
    assert(p.drop_first() =~= text);
    assert(!text_names_no_id(text));
    let c = choose|c: ContentKey| text_names(text, c);
    lemma_text_names_unique(text, k, c);
}

/// A text names at most one identifier.
pub proof fn lemma_text_names_unique(text: Seq<u8>, a: ContentKey, b: ContentKey)
    requires
        text_names(text, a),
        text_names(text, b),
    ensures
        a == b,
{
    crate::lfs_id::lemma_encoding_injective(a, b);
}

/// The answer to a request.
pub enum Outcome {
    /// The data, and the identifier it was found under.
    Hit(Vec<u8>, LfsId),
    /// The identifier found is the one the client already has.
    NotModified,
    /// None of the identifiers is held.
    Miss,
    /// The cache holds the identifier found but could not read it.
    InternalError,
}

/// `i` is the first position in `c` whose identifier `held` contains.
pub open spec fn first_held(c: Seq<ContentKey>, held: Set<ContentKey>, i: int) -> bool {
    &&& 0 <= i < c.len()
    &&& held.contains(c[i])
    &&& forall|j: int| 0 <= j < i ==> !held.contains(#[trigger] c[j])
}

/// Serves a request whose locator resolved to `candidates`: the first
/// candidate the cache holds is the answer (not modified where it is the one
/// in `if_none_match`); with none held, a miss.
pub fn serve<C: Cache>(
    cache: &mut C,
    candidates: &Vec<LfsId>,
    if_none_match: Option<&LfsId>,
) -> (r: Outcome)
    requires
        old(cache).inv(),
    ensures
        final(cache).inv(),
        final(cache).contents().submap_of(old(cache).contents()),
        (forall|i: int|
            0 <= i < candidates@.len() ==> !old(cache).contents().contains_key(
                #[trigger] candidates@[i]@,
            )) ==> r is Miss && final(cache).contents() == old(cache).contents(),
        forall|i: int| #[trigger]
            first_held(keys_of(candidates@), old(cache).contents().dom(), i) ==> {
                let k = candidates@[i]@;
                let unchanged = if_none_match matches Some(m) && m@ == k;
                match r {
                    Outcome::NotModified => unchanged,
                    Outcome::Hit(d, id) => !unchanged && id@ == k && d@
                        == old(cache).contents()[k],
                    Outcome::InternalError => !unchanged && !old(cache).serves(k),
                    Outcome::Miss => false,
                }
            },
{
    let ghost held = old(cache).contents().dom();
    let ghost c = keys_of(candidates@);
    let mut i: usize = 0;
    while i < candidates.len()
        invariant
            0 <= i <= candidates@.len(),
            cache.inv(),
            *cache == *old(cache),
            held == cache.contents().dom(),
            c == keys_of(candidates@),
            forall|j: int| 0 <= j < i ==> !held.contains(#[trigger] c[j]),
        decreases candidates@.len() - i,
    {
        let present = cache.contains(&candidates[i]);
        if let Ok(true) = present {
            assert(first_held(c, held, i as int));
            assert forall|x: int| #[trigger] first_held(c, held, x) implies x == i by {
                if x < i {
                    assert(!held.contains(c[x]));
                } else if x > i {
                    assert(!held.contains(c[i as int]));
                }
            }
            let key = &candidates[i];
            if let Some(m) = if_none_match {
                if m.same_as(key) {
                    return Outcome::NotModified;
                }
            }
            return match cache.get(key) {
                Ok(data) => Outcome::Hit(data, key.clone()),
                Err(()) => Outcome::InternalError,
            };
        }
        assert(!held.contains(c[i as int]));
        i = i + 1;
    }
    assert forall|x: int| #[trigger] first_held(c, held, x) implies false by {
        assert(!held.contains(c[x]));
    }
    Outcome::Miss
}

/// Answers requests from a cache, resolving locators with a resolver.
pub struct LfsServer<C, R> {
    pub cache: C,
    pub resolver: R,
}

impl<C: Cache, R: Resolver> LfsServer<C, R> {
    pub fn new(cache: C, resolver: R) -> (r: LfsServer<C, R>)
        ensures
            r.cache == cache,
            r.resolver == resolver,
    {
        LfsServer { cache, resolver }
    }

    /// Answers a request for `locator`; `if_none_match` is the identifier, in
    /// URL-safe text, that the client already holds, if any.
    pub fn call(&mut self, locator: &str, if_none_match: Option<&str>) -> (r: Outcome)
        requires
            old(self).cache.inv(),
            old(self).resolver.inv(),
        ensures
            final(self).cache.inv(),
            final(self).resolver == old(self).resolver,
            final(self).cache.contents().submap_of(old(self).cache.contents()),
            ({
                let c = old(self).resolver.candidates(encode_utf8(locator@));
                let held = old(self).cache.contents().dom();
                &&& (forall|i: int| 0 <= i < c.len() ==> !held.contains(#[trigger] c[i]))
                    ==> r is Miss
                &&& forall|i: int| #[trigger]
                    first_held(c, held, i) ==> {
                        let unchanged = if_none_match matches Some(t) && text_names(
                            encode_utf8(t@),
                            c[i],
                        );
                        match r {
                            Outcome::NotModified => unchanged,
                            Outcome::Hit(d, id) => !unchanged && id@ == c[i] && d@
                                == old(self).cache.contents()[c[i]],
                            Outcome::InternalError => !unchanged && !old(self).cache.serves(c[i]),
                            Outcome::Miss => false,
                        }
                    }
            }),
    {
        let candidates = self.resolver.resolve(locator);
        let known = match if_none_match {
            Some(t) => LfsId::from_url_safe_text(t),
            None => None,
        };
        proof {
            let c = keys_of(candidates@);
            assert forall|i: int| 0 <= i < candidates@.len() implies #[trigger] candidates@[i]@
                == c[i] by {}
            if let Some(t) = if_none_match {
                assert forall|k: ContentKey| text_names(encode_utf8(t@), k) implies (known matches Some(
                    m,
                ) && m@ == k) by {
                    if let Some(m) = known {
                        lemma_text_names_unique(encode_utf8(t@), k, m@);
                    }
                }
            }
        }
        serve(&mut self.cache, &candidates, known.as_ref())
    }
}

/// The order in which a locator is looked up in per-user data: the user's own
/// entry, the site root's entry, the root's catch-all, the root's not-found page.
#[derive(Clone, Copy, Debug, PartialEq, Eq, Structural)]
pub enum NextResolveStep {
    UserData,
    RootData,
    Glob,
    NotFound,
    End,
}

impl NextResolveStep {
    pub fn next(&self) -> (r: NextResolveStep)
        ensures
            r == match *self {
                NextResolveStep::UserData => NextResolveStep::RootData,
                NextResolveStep::RootData => NextResolveStep::Glob,
                NextResolveStep::Glob => NextResolveStep::NotFound,
                _ => NextResolveStep::End,
            },
    {
        match self {
            NextResolveStep::UserData => NextResolveStep::RootData,
            NextResolveStep::RootData => NextResolveStep::Glob,
            NextResolveStep::Glob => NextResolveStep::NotFound,
            NextResolveStep::NotFound => NextResolveStep::End,
            NextResolveStep::End => NextResolveStep::End,
        }
    }
}

/// Answers a path with the data of the one identifier it names, if the cache
/// has it.
pub struct HelloWorld<C> {
    pub cache: C,
}

impl<C: Cache> HelloWorld<C> {
    pub fn new(cache: C) -> (r: HelloWorld<C>)
        ensures
            r.cache == cache,
    {
        HelloWorld { cache }
    }

    /// The data for `path`, or `None` for a not-found answer.
    pub fn call(&mut self, path: &str) -> (r: Option<Vec<u8>>)
        requires
            old(self).cache.inv(),
        ensures
            final(self).cache.inv(),
            final(self).cache.contents().submap_of(old(self).cache.contents()),
            ({
                let c = PathResolver.candidates(encode_utf8(path@));
                &&& c.len() == 0 ==> r is None
                &&& c.len() == 1 ==> match r {
                    Some(d) => old(self).cache.contents().contains_key(c[0]) && d@ == old(
                        self,
                    ).cache.contents()[c[0]],
                    None => !old(self).cache.contents().contains_key(c[0]) || !old(
                        self,
                    ).cache.serves(c[0]),
                }
                &&& c.len() == 1 && !old(self).cache.contents().contains_key(c[0]) ==> r is None
            }),
    {
        let ids = PathResolver.resolve(path);
        if ids.len() == 0 {
            return None;
        }
        assert(ids@[0]@ == keys_of(ids@)[0]);
        match self.cache.get(&ids[0]) {
            Ok(d) => Some(d),
            Err(()) => None,
        }
    }
}

} // verus!
