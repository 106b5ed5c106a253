use vstd::prelude::*;

verus! {

pub const SLASH: u8 = 47;
pub const DOT: u8 = 46;

/// The bytes of `s` after its last `c`; all of `s` where it has none.
pub open spec fn tail_after(s: Seq<u8>, c: u8) -> Seq<u8>
    decreases s.len(),
{
    if s.len() == 0 {
        s
    } else if s.last() == c {
        Seq::empty()
    } else {
        tail_after(s.drop_last(), c).push(s.last())
    }
}

/// Some `/`-separated segment of `k` is `..`.
pub open spec fn has_parent_segment(k: Seq<u8>) -> bool {
    exists|i: int|
        0 <= i && i + 2 <= k.len() && #[trigger] k[i] == DOT && k[i + 1] == DOT && (i == 0 || k[i
            - 1] == SLASH) && (i + 2 == k.len() || k[i + 2] == SLASH)
}

/// File extensions a homepage may serve.
pub open spec fn web_extension(e: Seq<u8>) -> bool {
    e == seq![99u8, 115u8, 115u8] || e == seq![106u8, 115u8] || e == seq![104u8, 116u8, 109u8, 108u8]
        || e == seq![112u8, 110u8, 103u8] || e == seq![106u8, 112u8, 103u8] || e == seq![
        115u8,
        118u8,
        103u8,
    ] || e == seq![103u8, 105u8, 102u8] || e == seq![116u8, 120u8, 116u8] || e == seq![114u8, 116u8, 102u8]
        || e == seq![109u8, 100u8] || e == seq![97u8, 100u8, 111u8, 99u8] || e == seq![
        101u8,
        111u8,
        116u8,
    ] || e == seq![116u8, 116u8, 102u8] || e == seq![119u8, 111u8, 102u8, 102u8] || e == seq![
        119u8,
        111u8,
        102u8,
        102u8,
        50u8,
    ]
}

/// Entry names every user may set.
pub open spec fn user_key(k: Seq<u8>) -> bool {
    k == seq![115u8, 101u8, 116u8, 116u8, 105u8, 110u8, 103u8, 115u8] || k == seq![
        97u8,
        118u8,
        97u8,
        116u8,
        97u8,
        114u8,
    ] || k == seq![112u8, 114u8, 111u8, 102u8, 105u8, 108u8, 101u8] || k == seq![
        99u8,
        111u8,
        108u8,
        111u8,
        114u8,
        115u8,
    ] || k == seq![98u8, 97u8, 99u8, 107u8, 100u8, 114u8, 111u8, 112u8]
}

/// Relative paths of web files, without `..` segments: the empty path, a
/// directory (ending in `/`), or a file whose extension is a web one.
pub open spec fn homepage_key(k: Seq<u8>) -> bool {
    if k.len() == 0 {
        true
    } else if k[0] == SLASH || has_parent_segment(k) {
        false
    } else if k.last() == SLASH {
        true
    } else {
        web_extension(tail_after(tail_after(k, SLASH), DOT))
    }
}

/// A rule on which entry names are accepted.
#[derive(Clone, Copy, Debug, PartialEq, Eq, Structural)]
pub enum KeyGuard {
    /// The fixed set of per-user settings.
    DefaultUserKeys,
    /// Paths of a static website.
    Homepage,
}

pub open spec fn guard_allows(g: KeyGuard, k: Seq<u8>) -> bool {
    match g {
        KeyGuard::DefaultUserKeys => user_key(k),
        KeyGuard::Homepage => homepage_key(k),
    }
}

fn is_lit(e: &[u8], lit: &[u8]) -> (r: bool)
    ensures
        r == (e@ == lit@),
{
    if e.len() != lit.len() {
        return false;
    }
    let mut i: usize = 0;
    while i < e.len()
        invariant
            e@.len() == lit@.len(),
            0 <= i <= e@.len(),
            e@.subrange(0, i as int) == lit@.subrange(0, i as int),
        decreases e@.len() - i,
    {
        if e[i] != lit[i] {
            assert(e@[i as int] != lit@[i as int]);
            return false;
        }
        assert(e@.subrange(0, i + 1) == e@.subrange(0, i as int).push(e@[i as int]));
        assert(lit@.subrange(0, i + 1) == lit@.subrange(0, i as int).push(lit@[i as int]));
        i = i + 1;
    }
    assert(e@ == e@.subrange(0, e@.len() as int));
    assert(lit@ == lit@.subrange(0, lit@.len() as int));
    true
}

fn is_web_extension(e: &[u8]) -> (r: bool)
    ensures
        r == web_extension(e@),
{
    let css: [u8; 3] = [99u8, 115u8, 115u8];
    let js: [u8; 2] = [106u8, 115u8];
    let html: [u8; 4] = [104u8, 116u8, 109u8, 108u8];
    let png: [u8; 3] = [112u8, 110u8, 103u8];
    let jpg: [u8; 3] = [106u8, 112u8, 103u8];
    let svg: [u8; 3] = [115u8, 118u8, 103u8];
    let gif: [u8; 3] = [103u8, 105u8, 102u8];
    let txt: [u8; 3] = [116u8, 120u8, 116u8];
    let rtf: [u8; 3] = [114u8, 116u8, 102u8];
    let md: [u8; 2] = [109u8, 100u8];
    let adoc: [u8; 4] = [97u8, 100u8, 111u8, 99u8];
    let eot: [u8; 3] = [101u8, 111u8, 116u8];
    let ttf: [u8; 3] = [116u8, 116u8, 102u8];
    let woff: [u8; 4] = [119u8, 111u8, 102u8, 102u8];
    let woff2: [u8; 5] = [119u8, 111u8, 102u8, 102u8, 50u8];
    assert(css@ == seq![99u8, 115u8, 115u8]);
    assert(js@ == seq![106u8, 115u8]);
    assert(html@ == seq![104u8, 116u8, 109u8, 108u8]);
    assert(png@ == seq![112u8, 110u8, 103u8]);
    assert(jpg@ == seq![106u8, 112u8, 103u8]);
    assert(svg@ == seq![115u8, 118u8, 103u8]);
    assert(gif@ == seq![103u8, 105u8, 102u8]);
    assert(txt@ == seq![116u8, 120u8, 116u8]);
    assert(rtf@ == seq![114u8, 116u8, 102u8]);
    assert(md@ == seq![109u8, 100u8]);
    assert(adoc@ == seq![97u8, 100u8, 111u8, 99u8]);
    assert(eot@ == seq![101u8, 111u8, 116u8]);
    assert(ttf@ == seq![116u8, 116u8, 102u8]);
    assert(woff@ == seq![119u8, 111u8, 102u8, 102u8]);
    assert(woff2@ == seq![119u8, 111u8, 102u8, 102u8, 50u8]);
    is_lit(e, css.as_slice()) || is_lit(e, js.as_slice()) || is_lit(e, html.as_slice()) || is_lit(
        e,
        png.as_slice(),
    ) || is_lit(e, jpg.as_slice()) || is_lit(e, svg.as_slice()) || is_lit(e, gif.as_slice())
        || is_lit(e, txt.as_slice()) || is_lit(e, rtf.as_slice()) || is_lit(e, md.as_slice())
        || is_lit(e, adoc.as_slice()) || is_lit(e, eot.as_slice()) || is_lit(e, ttf.as_slice())
        || is_lit(e, woff.as_slice()) || is_lit(e, woff2.as_slice())
}

/// Whether `key` is one of the per-user setting names.
pub fn is_user_key(key: &[u8]) -> (r: bool)
    ensures
        r == user_key(key@),
{
    let settings: [u8; 8] = [115u8, 101u8, 116u8, 116u8, 105u8, 110u8, 103u8, 115u8];
    let avatar: [u8; 6] = [97u8, 118u8, 97u8, 116u8, 97u8, 114u8];
    let profile: [u8; 7] = [112u8, 114u8, 111u8, 102u8, 105u8, 108u8, 101u8];
    let colors: [u8; 6] = [99u8, 111u8, 108u8, 111u8, 114u8, 115u8];
    let backdrop: [u8; 8] = [98u8, 97u8, 99u8, 107u8, 100u8, 114u8, 111u8, 112u8];
    assert(settings@ == seq![115u8, 101u8, 116u8, 116u8, 105u8, 110u8, 103u8, 115u8]);
    assert(avatar@ == seq![97u8, 118u8, 97u8, 116u8, 97u8, 114u8]);
    assert(profile@ == seq![112u8, 114u8, 111u8, 102u8, 105u8, 108u8, 101u8]);
    assert(colors@ == seq![99u8, 111u8, 108u8, 111u8, 114u8, 115u8]);
    assert(backdrop@ == seq![98u8, 97u8, 99u8, 107u8, 100u8, 114u8, 111u8, 112u8]);
    is_lit(key, settings.as_slice()) || is_lit(key, avatar.as_slice()) || is_lit(
        key,
        profile.as_slice(),
    ) || is_lit(key, colors.as_slice()) || is_lit(key, backdrop.as_slice())
}

/// Where the bytes after the last `c` in `s[from..]` start.
fn tail_start(s: &[u8], from: usize, c: u8) -> (p: usize)
    requires
        from <= s@.len(),
    ensures
        from <= p <= s@.len(),
        s@.subrange(p as int, s@.len() as int) == tail_after(
            s@.subrange(from as int, s@.len() as int),
            c,
        ),
{
    let n = s.len();
    let mut i: usize = n;
    while i > from
        invariant
            n == s@.len(),
            from <= i <= n,
            tail_after(s@.subrange(from as int, n as int), c) == tail_after(
                s@.subrange(from as int, i as int),
                c,
            ) + s@.subrange(i as int, n as int),
        decreases i,
    {
        let ghost pre = s@.subrange(from as int, i as int);
        assert(pre.drop_last() =~= s@.subrange(from as int, i - 1));
        if s[i - 1] == c {
            assert(tail_after(pre, c) =~= Seq::<u8>::empty());
            assert(s@.subrange(i as int, n as int) =~= Seq::<u8>::empty() + s@.subrange(
                i as int,
                n as int,
            ));
            return i;
        }
        assert(s@.subrange(i - 1, n as int) =~= seq![s@[i - 1]] + s@.subrange(i as int, n as int));
        assert(tail_after(pre, c) == tail_after(s@.subrange(from as int, i - 1), c).push(s@[i - 1]));
        assert(tail_after(s@.subrange(from as int, i - 1), c).push(s@[i - 1]) + s@.subrange(
            i as int,
            n as int,
        ) =~= tail_after(s@.subrange(from as int, i - 1), c) + s@.subrange(i - 1, n as int));
        i = i - 1;
    }
    assert(s@.subrange(from as int, from as int) =~= Seq::<u8>::empty());
    assert(tail_after(Seq::<u8>::empty(), c) =~= Seq::<u8>::empty());
    assert(Seq::<u8>::empty() + s@.subrange(from as int, n as int) =~= s@.subrange(
        from as int,
        n as int,
    ));
    from
}

/// Whether `key` is an acceptable path of a static website.
pub fn is_homepage_key(key: &[u8]) -> (r: bool)
    ensures
        r == homepage_key(key@),
{
    let n = key.len();
    if n == 0 {
        return true;
    }
    if key[0] == SLASH {
        return false;
    }
    let mut i: usize = 0;
    while n >= 2 && i <= n - 2
        invariant
            n == key@.len(),
            n > 0,
            i <= n,
            forall|j: int|
                0 <= j < i && j + 2 <= n ==> !(#[trigger] key@[j] == DOT && key@[j + 1] == DOT && (j
                    == 0 || key@[j - 1] == SLASH) && (j + 2 == n || key@[j + 2] == SLASH)),
        decreases n - i,
    {
        if key[i] == DOT && key[i + 1] == DOT && (i == 0 || key[i - 1] == SLASH) && (i + 2 == n
            || key[i + 2] == SLASH) {
            return false;
        }
        i = i + 1;
    }
    assert(!has_parent_segment(key@));
    if key[n - 1] == SLASH {
        return true;
    }
    let seg = tail_start(key, 0, SLASH);
    let ext = tail_start(key, seg, DOT);
    assert(key@.subrange(0, n as int) =~= key@);
    let (_, e) = key.split_at(ext);
    assert(e@ =~= key@.subrange(ext as int, n as int));
    is_web_extension(e)
}

impl KeyGuard {
    /// Whether this rule accepts `key`.
    pub fn is_allowed(&self, key: &[u8]) -> (r: bool)
        ensures
            r == guard_allows(*self, key@),
    {
        match self {
            KeyGuard::DefaultUserKeys => is_user_key(key),
            KeyGuard::Homepage => is_homepage_key(key),
        }
    }
}

/// Whether any of `guards` accepts `key`; none accept where there are none.
pub fn is_allowed(guards: &[KeyGuard], key: &[u8]) -> (r: bool)
    ensures
        r == exists|i: int| 0 <= i < guards@.len() && guard_allows(#[trigger] guards@[i], key@),
{
    let mut i: usize = 0;
    while i < guards.len()
        invariant
            0 <= i <= guards@.len(),
            forall|j: int| 0 <= j < i ==> !guard_allows(#[trigger] guards@[j], key@),
        decreases guards@.len() - i,
    {
        if guards[i].is_allowed(key) {
            return true;
        }
        i = i + 1;
    }
    false
}

} // verus!
