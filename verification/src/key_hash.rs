//! The key hash of an encoded key, and the hash for the transport's tables.
use crate::encode::HEADER_SIZE;
use crate::key::KeyScheme;
use vstd::prelude::*;

verus! {

/// The number of bytes of a key hash.
pub const KEY_HASH_SIZE: usize = 16;

/// The MD5 digest of `bytes`, as the crate md5 computes it.
pub uninterp spec fn md5_digest(bytes: Seq<u8>) -> Seq<u8>;

/// The 32-bit MurmurHash3 of `bytes` under `seed`, as the crate murmur3
/// computes it.
pub uninterp spec fn murmur3_32_of(bytes: Seq<u8>, seed: u32) -> u32;

/// `md5::compute` of the crate md5: the sixteen bytes of the digest of
/// `bytes`. It is a function of the bytes alone.
#[verifier::external_body]
fn md5_of(bytes: &[u8]) -> (digest: [u8; 16])
    ensures
        digest@ == md5_digest(bytes@),
{
    md5::compute(bytes).0
}

/// `murmur3::murmur3_32` of the crate murmur3, reading from a byte slice:
/// the hash of `bytes` under `seed`, a function of the two alone. The crate
/// fails only where a read fails, which a read from a slice does not. It
/// counts the bytes in a `u32`, which `requires` keeps from overflowing.
#[verifier::external_body]
fn murmur3_32(bytes: &[u8], seed: u32) -> (hash: Option<u32>)
    requires
        bytes@.len() <= u32::MAX,
    ensures
        hash == Some(murmur3_32_of(bytes@, seed)),
{
    let mut source = bytes;
    murmur3::murmur3_32(&mut source, seed).ok()
}

/// The hash by which the transport sorts a sample into its tables: the
/// MurmurHash3 of the encoded key under seed 0. An input that the hasher
/// cannot count hashes to 0.
pub fn hash(key_cdr: &[u8]) -> (r: u32)
    ensures
        key_cdr@.len() <= u32::MAX ==> r == murmur3_32_of(key_cdr@, 0),
        key_cdr@.len() > u32::MAX ==> r == 0,
{
    if key_cdr.len() > 0xFFFF_FFFF {
        return 0;
    }
    match murmur3_32(key_cdr, 0) {
        Some(h) => h,
        None => 0,
    }
}

/// An encoded key without its header.
pub open spec fn body_of(key_cdr: Seq<u8>) -> Seq<u8> {
    if key_cdr.len() <= HEADER_SIZE {
        Seq::empty()
    } else {
        key_cdr.skip(HEADER_SIZE as int)
    }
}

/// The first sixteen bytes of `body`, filled up with zero bytes.
pub open spec fn raw_token(body: Seq<u8>) -> Seq<u8> {
    Seq::new(
        KEY_HASH_SIZE as nat,
        |i: int|
            if i < body.len() {
                body[i]
            } else {
                0u8
            },
    )
}

/// The key hash of an encoded key under a scheme: the key itself without its
/// header, cut or filled up to sixteen bytes, or the MD5 digest of the whole
/// encoded key.
pub open spec fn key_token(key_cdr: Seq<u8>, scheme: KeyScheme) -> Seq<u8> {
    match scheme {
        KeyScheme::Raw => raw_token(body_of(key_cdr)),
        KeyScheme::Reduced => md5_digest(key_cdr),
    }
}

/// The key hash that a cell holds.
#[derive(Debug, Clone, Copy)]
pub enum KeyHash {
    /// No key hash.
    Absent,
    /// The four bytes of a header, then the sixteen bytes of the hash.
    CdrKey([u8; 20]),
    /// The sixteen bytes of the hash.
    RawKey([u8; 16]),
}

impl KeyHash {
    /// The bytes that the cell holds.
    pub open spec fn bytes(self) -> Seq<u8> {
        match self {
            KeyHash::Absent => Seq::empty(),
            KeyHash::CdrKey(k) => k@,
            KeyHash::RawKey(k) => k@,
        }
    }

    /// The sixteen bytes of the hash, or none.
    pub open spec fn token(self) -> Seq<u8> {
        match self {
            KeyHash::Absent => Seq::empty(),
            KeyHash::CdrKey(k) => k@.skip(HEADER_SIZE as int),
            KeyHash::RawKey(k) => k@,
        }
    }

    /// The bytes that the cell holds.
    pub fn get_key_hash(&self) -> (r: &[u8])
        ensures
            r@ == self.bytes(),
    {
        match self {
            KeyHash::Absent => {
                let none: &[u8] = &[];
                none
            },
            KeyHash::CdrKey(cdr_key_hash) => cdr_key_hash.as_slice(),
            KeyHash::RawKey(raw_key_hash) => raw_key_hash.as_slice(),
        }
    }

    /// The number of bytes that the cell holds.
    pub fn key_length(&self) -> (r: usize)
        ensures
            r == self.bytes().len(),
    {
        match self {
            KeyHash::CdrKey(k) => 20,
            KeyHash::RawKey(k) => 16,
            _ => 0,
        }
    }
}

impl Default for KeyHash {
    fn default() -> (r: Self)
        ensures
            r == KeyHash::Absent,
    {
        KeyHash::Absent
    }
}

/// The first sixteen bytes of `key`, filled up with zero bytes.
fn raw_key(key: &[u8]) -> (r: [u8; 16])
    ensures
        r@ == raw_token(key@),
{
    let mut raw = [0u8; 16];
    let mut i: usize = 0;
    while i < 16 && i < key.len()
        invariant
            i <= 16,
            i <= key@.len(),
            forall|j: int| 0 <= j < i ==> raw@[j] == key@[j],
            forall|j: int| i <= j < 16 ==> raw@[j] == 0,
        decreases 16 - i,
    {
        raw[i] = key[i];
        i += 1;
    }
    assert(raw@ == raw_token(key@));
    raw
}

/// The key hash of an iceoryx chunk, as the chunk's header holds it.
pub fn copy_raw_key_hash(key: &[u8]) -> (r: KeyHash)
    ensures
        r is RawKey,
        r.bytes() == raw_token(key@),
        r.token() == raw_token(key@),
{
    KeyHash::RawKey(raw_key(key))
}

/// The key hash of a key that is known by its hash alone: behind four zero
/// bytes, the sixteen bytes of the hash.
pub fn from_token(token: &[u8; 16]) -> (r: KeyHash)
    ensures
        r is CdrKey,
        r.bytes() == seq![0u8, 0u8, 0u8, 0u8] + token@,
        r.token() == token@,
{
    let all = with_header(token);
    assert(all@.skip(HEADER_SIZE as int) == token@);
    KeyHash::CdrKey(all)
}

/// Behind four zero bytes, the sixteen bytes of `token`.
fn with_header(token: &[u8; 16]) -> (r: [u8; 20])
    ensures
        r@ == seq![0u8, 0u8, 0u8, 0u8] + token@,
{
    let mut all = [0u8; 20];
    let mut i: usize = 0;
    while i < 16
        invariant
            i <= 16,
            forall|j: int| 0 <= j < 4 ==> all@[j] == 0,
            forall|j: int| 0 <= j < i ==> all@[4 + j] == token@[j],
        decreases 16 - i,
    {
        all[4 + i] = token[i];
        i += 1;
    }
    assert(all@ == seq![0u8, 0u8, 0u8, 0u8] + token@) by {
        let glued = seq![0u8, 0u8, 0u8, 0u8] + token@;
        assert(glued.len() == 20);
        assert forall|j: int| 0 <= j < 20 implies all@[j] == glued[j] by {
            if j >= 4 {
                assert(all@[4 + (j - 4)] == token@[j - 4]);
            }
        }
    }
    all
}

/// The key hash of an encoded key, header included, under a scheme. Under
/// `Raw` it is the key itself behind its header, cut or filled up to sixteen
/// bytes; under `Reduced` the MD5 digest of the whole encoded key.
pub fn compute_key_hash(key_cdr: &[u8], scheme: KeyScheme) -> (r: KeyHash)
    ensures
        r is CdrKey,
        r.bytes() == seq![0u8, 0u8, 0u8, 0u8] + key_token(key_cdr@, scheme),
        r.token() == key_token(key_cdr@, scheme),
{
    let token = match scheme {
        KeyScheme::Reduced => md5_of(key_cdr),
        KeyScheme::Raw => {
            if key_cdr.len() <= HEADER_SIZE {
                let none: [u8; 0] = [];
                assert(none@ == body_of(key_cdr@));
                raw_key(none.as_slice())
            } else {
                let body = slice_from(key_cdr, HEADER_SIZE);
                raw_key(body)
            }
        },
    };
    let all = with_header(&token);
    assert(all@.skip(HEADER_SIZE as int) == token@);
    KeyHash::CdrKey(all)
}

/// The slice behind the first `from` items.
fn slice_from(slice: &[u8], from: usize) -> (r: &[u8])
    requires
        from <= slice@.len(),
    ensures
        r@ == slice@.skip(from as int),
{
    let (_, rest) = slice.split_at(from);
    assert(rest@ == slice@.skip(from as int));
    rest
}

/// Writes the sixteen bytes of the hash to `out`. A cell without a key hash
/// leaves `out` as it is.
pub fn get_keyhash(key_hash: &KeyHash, out: &mut [u8; 16])
    ensures
        key_hash is Absent ==> final(out)@ == old(out)@,
        !(key_hash is Absent) ==> final(out)@ == key_hash.token(),
{
    match key_hash {
        KeyHash::Absent => {},
        KeyHash::CdrKey(k) => {
            let mut i: usize = 0;
            while i < 16
                invariant
                    i <= 16,
                    forall|j: int| 0 <= j < i ==> out@[j] == k@[4 + j],
                decreases 16 - i,
            {
                out[i] = k[4 + i];
                i += 1;
            }
            assert(out@ == k@.skip(4));
        },
        KeyHash::RawKey(k) => {
            let mut i: usize = 0;
            while i < 16
                invariant
                    i <= 16,
                    forall|j: int| 0 <= j < i ==> out@[j] == k@[j],
                decreases 16 - i,
            {
                out[i] = k[i];
                i += 1;
            }
            assert(out@ == k@);
        },
    }
}

/// Whether two cells belong to one instance: whether their key hashes are
/// the same bytes. No value is looked at.
pub fn eqkey(a: &KeyHash, b: &KeyHash) -> (r: bool)
    ensures
        r == (a.token() == b.token()),
{
    let mut left = [0u8; 16];
    let mut right = [0u8; 16];
    get_keyhash(a, &mut left);
    get_keyhash(b, &mut right);
    let a_none = matches!(a, KeyHash::Absent);
    let b_none = matches!(b, KeyHash::Absent);
    if a_none || b_none {
        assert(a is Absent ==> a.token().len() == 0);
        assert(!(a is Absent) ==> a.token().len() == 16);
        assert(b is Absent ==> b.token().len() == 0);
        assert(!(b is Absent) ==> b.token().len() == 16);
        if a_none && b_none {
            assert(a.token() == b.token());
        }
        return a_none && b_none;
    }
    let mut i: usize = 0;
    while i < 16
        invariant
            i <= 16,
            left@ == a.token(),
            right@ == b.token(),
            forall|j: int| 0 <= j < i ==> left@[j] == right@[j],
        decreases 16 - i,
    {
        if left[i] != right[i] {
            return false;
        }
        i += 1;
    }
    assert(left@ == right@);
    true
}

} // verus!
