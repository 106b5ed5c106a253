use vstd::prelude::*;
use vstd::utf8::encode_utf8;

verus! {

/// Payloads of at most this many bytes are stored inline in their identifier.
pub const RAW_LIMIT: usize = 32;

/// The tag byte of each variant in the serialised form.
pub const TAG_RAW: u8 = 0;
pub const TAG_BLAKE2: u8 = 10;
pub const TAG_BLAKE3: u8 = 11;
pub const TAG_SHA2: u8 = 20;
pub const TAG_SHA3: u8 = 21;

/// What Blake2b-256 gives for the bytes `data`.
pub uninterp spec fn blake2_256_of(data: Seq<u8>) -> Seq<u8>;

/// What SHA2-256 gives for the bytes `data`.
pub uninterp spec fn sha2_256_of(data: Seq<u8>) -> Seq<u8>;

/// What Keccak-256 gives for the bytes `data`.
pub uninterp spec fn keccak_256_of(data: Seq<u8>) -> Seq<u8>;

/// What BLAKE3 (unkeyed, 32-byte output) gives for the bytes `data`.
pub uninterp spec fn blake3_of(data: Seq<u8>) -> Seq<u8>;

/// Relies on sp_crypto_hashing::blake2_256: a Blake2b digest of 32 bytes.
#[verifier::external_body]
fn hash_blake2(data: &[u8]) -> (r: [u8; 32])
    ensures
        r@ == blake2_256_of(data@),
{
    sp_crypto_hashing::blake2_256(data)
}

/// Relies on sp_crypto_hashing::sha2_256: a SHA2-256 digest.
#[verifier::external_body]
fn hash_sha2(data: &[u8]) -> (r: [u8; 32])
    ensures
        r@ == sha2_256_of(data@),
{
    sp_crypto_hashing::sha2_256(data)
}

/// Relies on sp_crypto_hashing::keccak_256: a Keccak-256 digest.
#[verifier::external_body]
fn hash_keccak(data: &[u8]) -> (r: [u8; 32])
    ensures
        r@ == keccak_256_of(data@),
{
    sp_crypto_hashing::keccak_256(data)
}

/// Relies on blake3::hash and Hash::as_bytes: the 32-byte BLAKE3 digest.
#[verifier::external_body]
fn hash_blake3(data: &[u8]) -> (r: [u8; 32])
    ensures
        r@ == blake3_of(data@),
{
    *blake3::hash(data).as_bytes()
}

/// The digest algorithms an identifier can name.
#[derive(Clone, Copy, Debug, PartialEq, Eq, Structural, Hash)]
pub enum Algorithm {
    Blake2,
    Blake3,
    Sha2,
    Sha3,
}

/// What an identifier stands for: inline bytes, or a digest under an algorithm.
pub enum ContentKey {
    Inline(Seq<u8>),
    Digest(Algorithm, Seq<u8>),
}

/// Identifier of a piece of content: small payloads inline, larger ones by digest.
/// The algorithm is part of the identity: equal digest bytes under two
/// algorithms are two different identifiers.
#[derive(Debug, Hash)]
pub enum LfsId {
    /// The payload itself, for payloads of at most `RAW_LIMIT` bytes.
    Raw(Vec<u8>),
    Blake2([u8; 32]),
    Blake3([u8; 32]),
    Sha2([u8; 32]),
    Sha3([u8; 32]),
}

impl View for LfsId {
    type V = ContentKey;

    open spec fn view(&self) -> ContentKey {
        match self {
            LfsId::Raw(b) => ContentKey::Inline(b@),
            LfsId::Blake2(h) => ContentKey::Digest(Algorithm::Blake2, h@),
            LfsId::Blake3(h) => ContentKey::Digest(Algorithm::Blake3, h@),
            LfsId::Sha2(h) => ContentKey::Digest(Algorithm::Sha2, h@),
            LfsId::Sha3(h) => ContentKey::Digest(Algorithm::Sha3, h@),
        }
    }
}

/// Whether the two byte strings are equal.
pub fn same_bytes(a: &[u8], b: &[u8]) -> (r: bool)
    ensures
        r == (a@ == b@),
{
    bytes_eq(a, b)
}

fn bytes_eq(a: &[u8], b: &[u8]) -> (r: bool)
    ensures
        r == (a@ == b@),
{
    if a.len() != b.len() {
        return false;
    }
    let mut i: usize = 0;
    while i < a.len()
        invariant
            a@.len() == b@.len(),
            0 <= i <= a@.len(),
            a@.subrange(0, i as int) == b@.subrange(0, i as int),
        decreases a@.len() - i,
    {
        if a[i] != b[i] {
            assert(a@[i as int] != b@[i as int]);
            return false;
        }
        assert(a@.subrange(0, i + 1) == a@.subrange(0, i as int).push(a@[i as int]));
        assert(b@.subrange(0, i + 1) == b@.subrange(0, i as int).push(b@[i as int]));
        i = i + 1;
    }
    assert(a@ == a@.subrange(0, a@.len() as int));
    assert(b@ == b@.subrange(0, b@.len() as int));
    true
}

impl LfsId {
    /// Whether the two identifiers name the same content the same way.
    pub fn same_as(&self, other: &LfsId) -> (r: bool)
        ensures
            r == (self@ == other@),
    {
        match (self, other) {
            (LfsId::Raw(s), LfsId::Raw(o)) => bytes_eq(s.as_slice(), o.as_slice()),
            (LfsId::Blake2(s), LfsId::Blake2(o)) => bytes_eq(s.as_slice(), o.as_slice()),
            (LfsId::Blake3(s), LfsId::Blake3(o)) => bytes_eq(s.as_slice(), o.as_slice()),
            (LfsId::Sha2(s), LfsId::Sha2(o)) => bytes_eq(s.as_slice(), o.as_slice()),
            (LfsId::Sha3(s), LfsId::Sha3(o)) => bytes_eq(s.as_slice(), o.as_slice()),
            _ => false,
        }
    }
}

impl PartialEq for LfsId {
    fn eq(&self, other: &LfsId) -> (r: bool) {
        self.same_as(other)
    }
}

impl Eq for LfsId {
}

impl vstd::std_specs::cmp::PartialEqSpecImpl for LfsId {
    open spec fn obeys_eq_spec() -> bool {
        true
    }

    open spec fn eq_spec(&self, other: &LfsId) -> bool {
        self@ == other@
    }
}


impl Clone for LfsId {
    fn clone(&self) -> (r: LfsId)
        ensures
            r@ == self@,
    {
        match self {
            LfsId::Raw(b) => LfsId::Raw(copy_bytes(b)),
            LfsId::Blake2(h) => LfsId::Blake2(*h),
            LfsId::Blake3(h) => LfsId::Blake3(*h),
            LfsId::Sha2(h) => LfsId::Sha2(*h),
            LfsId::Sha3(h) => LfsId::Sha3(*h),
        }
    }
}

/// A fresh vector holding the same bytes.
pub fn copy_bytes(b: &Vec<u8>) -> (r: Vec<u8>)
    ensures
        r@ == b@,
{
    let mut r: Vec<u8> = Vec::with_capacity(b.len());
    let mut i: usize = 0;
    while i < b.len()
        invariant
            0 <= i <= b@.len(),
            r@ == b@.subrange(0, i as int),
        decreases b@.len() - i,
    {
        r.push(b[i]);
        assert(b@.subrange(0, i + 1) == b@.subrange(0, i as int).push(b@[i as int]));
        i = i + 1;
    }
    assert(b@ == b@.subrange(0, b@.len() as int));
    r
}

/// Why a byte string is not the serialised form of an identifier.
#[derive(Clone, Copy, Debug, PartialEq, Eq, Structural)]
pub enum DecodeError {
    /// The first byte names no variant.
    UnknownTag,
    /// The tag is known, but the bytes after it do not have the length it asks for.
    LengthMismatch,
}

pub open spec fn algorithm_tag(a: Algorithm) -> u8 {
    match a {
        Algorithm::Blake2 => TAG_BLAKE2,
        Algorithm::Blake3 => TAG_BLAKE3,
        Algorithm::Sha2 => TAG_SHA2,
        Algorithm::Sha3 => TAG_SHA3,
    }
}

pub open spec fn is_known_tag(t: u8) -> bool {
    t == TAG_RAW || t == TAG_BLAKE2 || t == TAG_BLAKE3 || t == TAG_SHA2 || t == TAG_SHA3
}

/// Inline payloads stay within the limit; digests are 32 bytes.
pub open spec fn key_is_valid(k: ContentKey) -> bool {
    match k {
        ContentKey::Inline(b) => b.len() <= RAW_LIMIT,
        ContentKey::Digest(_, h) => h.len() == 32,
    }
}

/// The serialised form: a tag byte, then for inline payloads a length byte
/// (the length times four) and the payload, for digests the 32 digest bytes.
pub open spec fn encoding_of(k: ContentKey) -> Seq<u8> {
    match k {
        ContentKey::Inline(b) => seq![TAG_RAW, (b.len() * 4) as u8] + b,
        ContentKey::Digest(a, h) => seq![algorithm_tag(a)] + h,
    }
}

/// `bytes` is the serialised form of the valid identifier `k`.
pub open spec fn decodes_to(bytes: Seq<u8>, k: ContentKey) -> bool {
    key_is_valid(k) && encoding_of(k) == bytes
}

/// The digest that `a` gives for `data`.
pub open spec fn digest_of(a: Algorithm, data: Seq<u8>) -> Seq<u8> {
    match a {
        Algorithm::Blake2 => blake2_256_of(data),
        Algorithm::Blake3 => blake3_of(data),
        Algorithm::Sha2 => sha2_256_of(data),
        Algorithm::Sha3 => keccak_256_of(data),
    }
}

/// The algorithm used for payloads too large to inline.
pub open spec fn default_algorithm() -> Algorithm {
    Algorithm::Blake3
}

/// The identifier of `data`: the data itself up to `RAW_LIMIT` bytes, else its
/// digest under the default algorithm.
pub open spec fn key_for(data: Seq<u8>) -> ContentKey {
    if data.len() <= RAW_LIMIT {
        ContentKey::Inline(data)
    } else {
        ContentKey::Digest(default_algorithm(), digest_of(default_algorithm(), data))
    }
}

/// What the URL-safe base64 encoding (with padding) of `b` reads.
pub uninterp spec fn url_safe_encoded(b: Seq<u8>) -> Seq<char>;

/// What URL-safe base64 decoding of the text bytes `s` gives, padding
/// optional; `None` where it fails.
pub uninterp spec fn url_safe_decoded(s: Seq<u8>) -> Option<Seq<u8>>;

/// Relies on base64::encode_config with URL_SAFE, which never fails, pads to
/// four characters for every started group of three bytes, and writes text
/// that base64::decode_config with URL_SAFE reads back as the input.
#[verifier::external_body]
fn b64_encode(b: &[u8]) -> (r: String)
    ensures
        r@ == url_safe_encoded(b@),
        r@.len() == 4 * ((b@.len() + 2) / 3),
        url_safe_decoded(encode_utf8(r@)) == Some(b@),
{
    base64::encode_config(b, base64::URL_SAFE)
}

/// Relies on base64::decode_config with URL_SAFE, which accepts input without padding.
#[verifier::external_body]
fn b64_decode(s: &[u8]) -> (r: Option<Vec<u8>>)
    ensures
        match r {
            Some(v) => url_safe_decoded(s@) == Some(v@),
            None => url_safe_decoded(s@) is None,
        },
{
    base64::decode_config(s, base64::URL_SAFE).ok()
}

/// The serialised form determines the identifier.
pub proof fn lemma_encoding_injective(k1: ContentKey, k2: ContentKey)
    requires
        key_is_valid(k1),
        key_is_valid(k2),
        encoding_of(k1) == encoding_of(k2),
    ensures
        k1 == k2,
{
    let e = encoding_of(k1);
    match k1 {
        ContentKey::Inline(b1) => {
            match k2 {
                ContentKey::Inline(b2) => {
                    assert(e[1] == (b1.len() * 4) as u8);
                    assert(e[1] == (b2.len() * 4) as u8);
                    assert(b1.len() == b2.len());
                    assert(b1 =~= e.subrange(2, e.len() as int));
                    assert(b2 =~= e.subrange(2, e.len() as int));
                },
                ContentKey::Digest(a2, _) => {
                    assert(e[0] == TAG_RAW);
                    assert(e[0] == algorithm_tag(a2));
                },
            }
        },
        ContentKey::Digest(a1, h1) => {
            match k2 {
                ContentKey::Inline(_) => {
                    assert(e[0] == algorithm_tag(a1));
                },
                ContentKey::Digest(a2, h2) => {
                    assert(e[0] == algorithm_tag(a1));
                    assert(e[0] == algorithm_tag(a2));
                    assert(h1 =~= e.subrange(1, e.len() as int));
                    assert(h2 =~= e.subrange(1, e.len() as int));
                },
            }
        },
    }
}

/// 32 bytes of `bytes` from `start` on.
fn digest_at(bytes: &[u8], start: usize) -> (r: [u8; 32])
    requires
        start + 32 <= bytes@.len(),
    ensures
        r@ == bytes@.subrange(start as int, start + 32),
{
    let n = bytes.len();
    let mut r: [u8; 32] = [0u8; 32];
    let mut i: usize = 0;
    while i < 32
        invariant
            n == bytes@.len(),
            start + 32 <= n,
            0 <= i <= 32,
            r@.len() == 32,
            r@.subrange(0, i as int) == bytes@.subrange(start as int, start + i),
        decreases 32 - i,
    {
        r[i] = bytes[start + i];
        assert(r@.subrange(0, i + 1) =~= bytes@.subrange(start as int, start + i + 1));
        i = i + 1;
    }
    assert(r@ =~= r@.subrange(0, 32));
    r
}

impl LfsId {
    /// At most `RAW_LIMIT` bytes inline; identifiers outside this bound are
    /// never produced here and cannot be serialised.
    pub open spec fn is_valid(&self) -> bool {
        key_is_valid(self@)
    }

    /// The identifier of `data` under the default digest algorithm.
    pub fn default(data: &Vec<u8>) -> (r: LfsId)
        ensures
            r@ == ContentKey::Digest(default_algorithm(), digest_of(default_algorithm(), data@)),
    {
        LfsId::blake3(data)
    }

    pub fn blake2(data: &Vec<u8>) -> (r: LfsId)
        ensures
            r@ == ContentKey::Digest(Algorithm::Blake2, blake2_256_of(data@)),
    {
        LfsId::Blake2(hash_blake2(data.as_slice()))
    }

    pub fn sha2(data: &Vec<u8>) -> (r: LfsId)
        ensures
            r@ == ContentKey::Digest(Algorithm::Sha2, sha2_256_of(data@)),
    {
        LfsId::Sha2(hash_sha2(data.as_slice()))
    }

    pub fn sha3(data: &Vec<u8>) -> (r: LfsId)
        ensures
            r@ == ContentKey::Digest(Algorithm::Sha3, keccak_256_of(data@)),
    {
        LfsId::Sha3(hash_keccak(data.as_slice()))
    }

    pub fn blake3(data: &Vec<u8>) -> (r: LfsId)
        ensures
            r@ == ContentKey::Digest(Algorithm::Blake3, blake3_of(data@)),
    {
        LfsId::Blake3(hash_blake3(data.as_slice()))
    }

    /// The identifier of `data`; it never fails.
    pub fn for_data(data: &Vec<u8>) -> (r: Result<LfsId, ()>)
        ensures
            r matches Ok(id) && id@ == key_for(data@) && id.is_valid(),
    {
        if data.len() <= RAW_LIMIT {
            Ok(LfsId::Raw(copy_bytes(data)))
        } else {
            Ok(LfsId::default(data))
        }
    }

    /// Whether this identifier names its content by a digest.
    pub fn is_digest(&self) -> (r: bool)
        ensures
            r == (self@ is Digest),
    {
        match self {
            LfsId::Raw(_) => false,
            _ => true,
        }
    }

    /// The serialised form.
    pub fn encode(&self) -> (r: Vec<u8>)
        requires
            self.is_valid(),
        ensures
            r@ == encoding_of(self@),
    {
        let mut out: Vec<u8> = Vec::new();
        match self {
            LfsId::Raw(b) => {
                out.push(TAG_RAW);
                out.push((b.len() * 4) as u8);
                let mut i: usize = 0;
                while i < b.len()
                    invariant
                        0 <= i <= b@.len(),
                        b@.len() <= RAW_LIMIT,
                        out@ == seq![TAG_RAW, (b@.len() * 4) as u8] + b@.subrange(0, i as int),
                    decreases b@.len() - i,
                {
                    out.push(b[i]);
                    assert(b@.subrange(0, i + 1) == b@.subrange(0, i as int).push(b@[i as int]));
                    i = i + 1;
                }
                assert(b@ == b@.subrange(0, b@.len() as int));
            },
            LfsId::Blake2(h) => {
                out.push(TAG_BLAKE2);
                push_digest(&mut out, h);
            },
            LfsId::Blake3(h) => {
                out.push(TAG_BLAKE3);
                push_digest(&mut out, h);
            },
            LfsId::Sha2(h) => {
                out.push(TAG_SHA2);
                push_digest(&mut out, h);
            },
            LfsId::Sha3(h) => {
                out.push(TAG_SHA3);
                push_digest(&mut out, h);
            },
        }
        out
    }

    /// Reads the serialised form back; anything that is not exactly the
    /// serialised form of a valid identifier is refused.
    pub fn decode(bytes: &[u8]) -> (r: Result<LfsId, DecodeError>)
        ensures
            match r {
                Ok(id) => decodes_to(bytes@, id@) && id.is_valid(),
                Err(e) => (forall|k: ContentKey| !decodes_to(bytes@, k)) && (e
                    == DecodeError::UnknownTag <==> (bytes@.len() > 0 && !is_known_tag(
                    bytes@[0],
                ))),
            },
    {
        if bytes.len() == 0 {
            return Err(DecodeError::LengthMismatch);
        }
        let tag = bytes[0];
        if tag == TAG_RAW {
            if bytes.len() < 2 {
                proof { lemma_no_short_encoding(bytes@); }
                return Err(DecodeError::LengthMismatch);
            }
            let marker = bytes[1];
            let len = (marker / 4) as usize;
            if marker % 4 != 0 || len > RAW_LIMIT || bytes.len() != len + 2 {
                proof { lemma_raw_mismatch(bytes@); }
                return Err(DecodeError::LengthMismatch);
            }
            let mut payload: Vec<u8> = Vec::new();
            let mut i: usize = 2;
            while i < bytes.len()
                invariant
                    2 <= i <= bytes@.len(),
                    payload@ == bytes@.subrange(2, i as int),
                decreases bytes@.len() - i,
            {
                payload.push(bytes[i]);
                assert(bytes@.subrange(2, i + 1) == bytes@.subrange(2, i as int).push(
                    bytes@[i as int],
                ));
                i = i + 1;
            }
            let id = LfsId::Raw(payload);
            assert(encoding_of(id@) =~= bytes@);
            return Ok(id);
        }
        if !(tag == TAG_BLAKE2 || tag == TAG_BLAKE3 || tag == TAG_SHA2 || tag == TAG_SHA3) {
            assert forall|k: ContentKey| !decodes_to(bytes@, k) by {
                if decodes_to(bytes@, k) {
                    assert(encoding_of(k)[0] == bytes@[0]);
                }
            }
            return Err(DecodeError::UnknownTag);
        }
        if bytes.len() != 33 {
            assert forall|k: ContentKey| !decodes_to(bytes@, k) by {
                if decodes_to(bytes@, k) {
                    assert(encoding_of(k)[0] == bytes@[0]);
                }
            }
            return Err(DecodeError::LengthMismatch);
        }
        let h = digest_at(bytes, 1);
        let id = if tag == TAG_BLAKE2 {
            LfsId::Blake2(h)
        } else if tag == TAG_BLAKE3 {
            LfsId::Blake3(h)
        } else if tag == TAG_SHA2 {
            LfsId::Sha2(h)
        } else {
            LfsId::Sha3(h)
        };
        assert(encoding_of(id@) =~= bytes@);
        Ok(id)
    }

    /// The serialised form, in URL-safe base64.
    pub fn to_url_safe_text(&self) -> (r: String)
        requires
            self.is_valid(),
        ensures
            r@ == url_safe_encoded(encoding_of(self@)),
            text_names(encode_utf8(r@), self@),
    {
        let bytes = self.encode();
        b64_encode(bytes.as_slice())
    }

    /// Reads an identifier from URL-safe base64 text; `None` wherever the text
    /// is not base64 or the bytes are not a serialised identifier.
    pub fn from_url_safe_text(text: &str) -> (r: Option<LfsId>)
        ensures
            r is None <==> text_names_no_id(encode_utf8(text@)),
            r matches Some(id) ==> text_names(encode_utf8(text@), id@),
    {
        LfsId::from_url_safe_bytes(text.as_bytes())
    }

    /// As `from_url_safe_text`, on the bytes of the text.
    pub fn from_url_safe_bytes(text: &[u8]) -> (r: Option<LfsId>)
        ensures
            r is None <==> text_names_no_id(text@),
            r matches Some(id) ==> text_names(text@, id@),
    {
        match b64_decode(text) {
            None => None,
            Some(bytes) => match LfsId::decode(bytes.as_slice()) {
                Ok(id) => {
                    assert(text_names(text@, id@));
                    Some(id)
                },
                Err(_) => None,
            },
        }
    }
}

/// `text` is the URL-safe base64 form of the serialised `k`.
pub open spec fn text_names(text: Seq<u8>, k: ContentKey) -> bool {
    match url_safe_decoded(text) {
        Some(b) => decodes_to(b, k),
        None => false,
    }
}

/// `text` names no identifier at all.
pub open spec fn text_names_no_id(text: Seq<u8>) -> bool {
    forall|k: ContentKey| !text_names(text, k)
}

proof fn lemma_no_short_encoding(bytes: Seq<u8>)
    requires
        bytes.len() < 2,
    ensures
        forall|k: ContentKey| !decodes_to(bytes, k),
{
    assert forall|k: ContentKey| !decodes_to(bytes, k) by {
        if decodes_to(bytes, k) {
            assert(encoding_of(k).len() >= 2);
        }
    }
}

proof fn lemma_raw_mismatch(bytes: Seq<u8>)
    requires
        bytes.len() >= 2,
        bytes[0] == TAG_RAW,
        bytes[1] % 4 != 0 || bytes[1] / 4 > RAW_LIMIT || bytes.len() != bytes[1] / 4 + 2,
    ensures
        forall|k: ContentKey| !decodes_to(bytes, k),
{
    assert forall|k: ContentKey| !decodes_to(bytes, k) by {
        if decodes_to(bytes, k) {
            assert(encoding_of(k)[0] == bytes[0]);
            match k {
                ContentKey::Inline(b) => {
                    assert(encoding_of(k)[1] == (b.len() * 4) as u8);
                    assert(bytes[1] == b.len() * 4);
                },
                ContentKey::Digest(a, _) => {
                    assert(algorithm_tag(a) == bytes[0]);
                },
            }
        }
    }
}

fn push_digest(out: &mut Vec<u8>, h: &[u8; 32])
    ensures
        final(out)@ == old(out)@ + h@,
{
    let mut i: usize = 0;
    let ghost start = out@;
    while i < 32
        invariant
            0 <= i <= 32,
            h@.len() == 32,
            out@ == start + h@.subrange(0, i as int),
        decreases 32 - i,
    {
        out.push(h[i]);
        assert(h@.subrange(0, i + 1) == h@.subrange(0, i as int).push(h@[i as int]));
        i = i + 1;
    }
    assert(h@ == h@.subrange(0, 32));
}

/// Data of at most `RAW_LIMIT` bytes is its own identifier; larger data is
/// named by a digest under the default algorithm. Equal data always gets equal
/// identifiers.
pub proof fn lemma_for_data_shape(data: Seq<u8>, same: Seq<u8>)
    requires
        same == data,
    ensures
        data.len() <= RAW_LIMIT ==> key_for(data) == ContentKey::Inline(data),
        data.len() > RAW_LIMIT ==> key_for(data) == ContentKey::Digest(
            default_algorithm(),
            digest_of(default_algorithm(), data),
        ),
        key_for(data) == key_for(same),
{
}

/// Decoding the serialised form of a valid identifier gives that identifier
/// and no other; cutting the form short, or giving it an unknown tag, makes it
/// decode to nothing.
pub proof fn lemma_round_trip(k: ContentKey, cut: int, tag: u8)
    requires
        key_is_valid(k),
        0 <= cut < encoding_of(k).len(),
        !is_known_tag(tag),
    ensures
        decodes_to(encoding_of(k), k),
        forall|k2: ContentKey| decodes_to(encoding_of(k), k2) ==> k2 == k,
        forall|k2: ContentKey| !decodes_to(encoding_of(k).subrange(0, cut), k2),
        forall|k2: ContentKey| !decodes_to(encoding_of(k).update(0, tag), k2),
{
    let e = encoding_of(k);
    assert forall|k2: ContentKey| decodes_to(e, k2) implies k2 == k by {
        lemma_encoding_injective(k, k2);
    }
    assert forall|k2: ContentKey| !decodes_to(e.subrange(0, cut), k2) by {
        let p = e.subrange(0, cut);
        if decodes_to(p, k2) {
            let e2 = encoding_of(k2);
            assert(e2.len() == cut);
            if cut >= 1 {
                assert(e2[0] == e[0]);
            }
            match k {
                ContentKey::Inline(b) => {
                    assert(cut >= 2);
                    assert(e2[1] == e[1]);
                    match k2 {
                        ContentKey::Inline(b2) => {
                            assert((b2.len() * 4) as u8 == (b.len() * 4) as u8);
                            assert(b2.len() == b.len());
                        },
                        ContentKey::Digest(a2, _) => {
                            assert(algorithm_tag(a2) == TAG_RAW);
                        },
                    }
                },
                ContentKey::Digest(a, _) => {
                    match k2 {
                        ContentKey::Inline(_) => {
                            assert(algorithm_tag(a) == TAG_RAW);
                        },
                        ContentKey::Digest(_, _) => {},
                    }
                },
            }
        }
    }
    assert forall|k2: ContentKey| !decodes_to(e.update(0, tag), k2) by {
        if decodes_to(e.update(0, tag), k2) {
            assert(encoding_of(k2)[0] == tag);
        }
    }
}

/// The URL-safe text of an identifier reads back as that identifier and no
/// other: distinct identifiers have distinct texts.
pub proof fn lemma_text_round_trip(k: ContentKey, other: ContentKey, text: Seq<u8>)
    requires
        text_names(text, k),
    ensures
        !text_names_no_id(text),
        text_names(text, other) ==> other == k,
{
    if text_names(text, other) {
        lemma_encoding_injective(k, other);
    }
}

} // verus!
