//! The envelope that carries an encrypted payload, and the AES-256-GCM
//! cipher that fills it.
use crate::bits::{le_bytes, le_value, lemma_le_bytes};
use crate::error::SteganoError;
use aes_gcm::aead::Aead;
use aes_gcm::{Aes256Gcm, Key, KeyInit, Nonce};
use rand::RngCore;
use vstd::prelude::*;

verus! {

/// Size of a key, in bytes.
pub const KEY_LEN: usize = 32;

/// Size of a nonce, in bytes.
pub const NONCE_LEN: usize = 12;

/// Largest plaintext, in bytes, that AES-256-GCM accepts.
pub const GCM_MAX_PLAINTEXT: u64 = 0x10_0000_0000;

/// `aes_gcm::Error`, the cipher's opaque failure, carried only to be mapped.
#[verifier::external_type_specification]
#[verifier::external_body]
pub struct ExAeadError(aes_gcm::Error);

/// The ciphertext, authentication tag appended, that AES-256-GCM produces
/// for a key, a nonce and a plaintext.
pub uninterp spec fn aes_gcm_ciphertext(key: Seq<u8>, nonce: Seq<u8>, plaintext: Seq<u8>) -> Seq<
    u8,
>;

/// Relies on `Aead::encrypt` of `aes_gcm::Aes256Gcm`: it refuses a plaintext
/// longer than 2^36 bytes and otherwise returns the ciphertext followed by
/// the 16-byte tag, which key, nonce and plaintext determine.
#[verifier::external_body]
fn gcm_encrypt(key: &[u8; 32], nonce: &[u8; 12], plaintext: &[u8]) -> (r: Result<
    Vec<u8>,
    aes_gcm::Error,
>)
    ensures
        r is Ok <==> plaintext@.len() <= GCM_MAX_PLAINTEXT,
        r is Ok ==> r->Ok_0@ == aes_gcm_ciphertext(key@, nonce@, plaintext@),
        r is Ok ==> r->Ok_0@.len() == plaintext@.len() + 16,
{
    let cipher = Aes256Gcm::new(Key::<Aes256Gcm>::from_slice(key));
    cipher.encrypt(Nonce::from_slice(nonce), plaintext)
}

/// Relies on `Aead::decrypt` of `aes_gcm::Aes256Gcm`: a ciphertext that
/// encryption produced under the same key and nonce decrypts to its plaintext,
/// and a plaintext is returned only once the tag recomputed over the
/// ciphertext matches, that is only for a ciphertext that encrypting it gives.
#[verifier::external_body]
fn gcm_decrypt(key: &[u8; 32], nonce: &[u8; 12], ciphertext: &[u8]) -> (r: Result<
    Vec<u8>,
    aes_gcm::Error,
>)
    ensures
        forall|p: Seq<u8>|
            p.len() <= GCM_MAX_PLAINTEXT && #[trigger] aes_gcm_ciphertext(key@, nonce@, p)
                == ciphertext@ ==> r is Ok && r->Ok_0@ == p,
        r is Ok ==> aes_gcm_ciphertext(key@, nonce@, r->Ok_0@) == ciphertext@,
{
    let cipher = Aes256Gcm::new(Key::<Aes256Gcm>::from_slice(key));
    cipher.decrypt(Nonce::from_slice(nonce), ciphertext)
}

/// Relies on `rand::rng()` and `RngCore::fill_bytes`: a buffer of `n` bytes
/// is filled; nothing is promised of its contents.
#[verifier::external_body]
fn random_bytes(n: usize) -> (r: Vec<u8>)
    ensures
        r@.len() == n,
{
    let mut buf = vec![0u8; n];
    rand::rng().fill_bytes(&mut buf);
    buf
}

/// The envelope for a nonce and a ciphertext: the little-endian 32-bit
/// length of what follows, the nonce, the ciphertext.
pub open spec fn envelope_of(nonce: Seq<u8>, ciphertext: Seq<u8>) -> Seq<u8> {
    le_bytes(12 + ciphertext.len()) + nonce + ciphertext
}

/// The nonce and ciphertext that an envelope holds, or why it is malformed.
pub open spec fn envelope_parts(e: Seq<u8>) -> Result<(Seq<u8>, Seq<u8>), SteganoError> {
    if e.len() < 17 || le_value(e, 0) != e.len() - 4 {
        Err(SteganoError::Decryption)
    } else {
        Ok((e.subrange(4, 16), e.subrange(16, e.len() as int)))
    }
}

/// Taking an envelope apart gives back the nonce and ciphertext it was made of.
pub proof fn lemma_envelope_round_trip(nonce: Seq<u8>, ciphertext: Seq<u8>)
    requires
        nonce.len() == 12,
        1 <= ciphertext.len(),
        12 + ciphertext.len() <= u32::MAX,
    ensures
        envelope_parts(envelope_of(nonce, ciphertext)) == Ok::<(Seq<u8>, Seq<u8>), SteganoError>(
            (nonce, ciphertext),
        ),
{
    let e = envelope_of(nonce, ciphertext);
    lemma_le_bytes(12 + ciphertext.len());
    assert(e[0] == le_bytes(12 + ciphertext.len())[0]);
    assert(e[1] == le_bytes(12 + ciphertext.len())[1]);
    assert(e[2] == le_bytes(12 + ciphertext.len())[2]);
    assert(e[3] == le_bytes(12 + ciphertext.len())[3]);
    assert(e.subrange(4, 16) =~= nonce);
    assert(e.subrange(16, e.len() as int) =~= ciphertext);
}

/// The envelope of a ciphertext that AES-256-GCM produced comes apart into
/// that nonce and ciphertext again, so decrypting it under the same key gives
/// back the plaintext.
pub proof fn lemma_encrypt_then_decrypt(key: Seq<u8>, nonce: Seq<u8>, plaintext: Seq<u8>)
    requires
        nonce.len() == 12,
        plaintext.len() + 28 <= u32::MAX,
        aes_gcm_ciphertext(key, nonce, plaintext).len() == plaintext.len() + 16,
    ensures
        envelope_parts(envelope_of(nonce, aes_gcm_ciphertext(key, nonce, plaintext))) == Ok::<
            (Seq<u8>, Seq<u8>),
            SteganoError,
        >((nonce, aes_gcm_ciphertext(key, nonce, plaintext))),
        envelope_of(nonce, aes_gcm_ciphertext(key, nonce, plaintext)).len() == plaintext.len()
            + 32,
{
    lemma_envelope_round_trip(nonce, aes_gcm_ciphertext(key, nonce, plaintext));
}

/// Frames a nonce and a ciphertext as an envelope; refused when the length
/// does not fit the 32-bit prefix.
pub fn seal_envelope(nonce: &[u8; 12], ciphertext: &[u8]) -> (r: Result<Vec<u8>, SteganoError>)
    ensures
        12 + ciphertext@.len() <= u32::MAX ==> r is Ok && r->Ok_0@ == envelope_of(
            nonce@,
            ciphertext@,
        ),
        12 + ciphertext@.len() > u32::MAX ==> r == Err::<Vec<u8>, SteganoError>(
            SteganoError::Encryption,
        ),
{
    if ciphertext.len() > (u32::MAX - 12) as usize {
        return Err(SteganoError::Encryption);
    }
    let total = (ciphertext.len() + NONCE_LEN) as u32;
    let mut out: Vec<u8> = Vec::new();
    out.push((total % 256) as u8);
    out.push(((total / 256) % 256) as u8);
    out.push(((total / 65536) % 256) as u8);
    out.push(((total / 16777216) % 256) as u8);
    assert(out@ =~= le_bytes(12 + ciphertext@.len()));
    let mut i: usize = 0;
    while i < NONCE_LEN
        invariant
            i <= 12,
            out@ == le_bytes(12 + ciphertext@.len()) + nonce@.take(i as int),
        decreases 12 - i,
    {
        out.push(nonce[i]);
        i = i + 1;
        assert(out@ =~= le_bytes(12 + ciphertext@.len()) + nonce@.take(i as int));
    }
    let ghost head = out@;
    let mut j: usize = 0;
    while j < ciphertext.len()
        invariant
            j <= ciphertext@.len(),
            out@ == head + ciphertext@.take(j as int),
        decreases ciphertext@.len() - j,
    {
        out.push(ciphertext[j]);
        j = j + 1;
        assert(out@ =~= head + ciphertext@.take(j as int));
    }
    assert(nonce@.take(12) =~= nonce@);
    assert(ciphertext@.take(ciphertext@.len() as int) =~= ciphertext@);
    Ok(out)
}

/// Splits an envelope into its nonce and its ciphertext, after checking its
/// length prefix.
pub fn open_envelope(envelope: &[u8]) -> (r: Result<([u8; 12], Vec<u8>), SteganoError>)
    ensures
        match envelope_parts(envelope@) {
            Ok((n, c)) => r is Ok && r->Ok_0.0@ == n && r->Ok_0.1@ == c,
            Err(e) => r == Err::<([u8; 12], Vec<u8>), SteganoError>(e),
        },
{
    let len = envelope.len();
    if len < 17 {
        return Err(SteganoError::Decryption);
    }
    let claimed: u64 = envelope[0] as u64 + 256 * (envelope[1] as u64) + 65536 * (
    envelope[2] as u64) + 16777216 * (envelope[3] as u64);
    if claimed != (len - 4) as u64 {
        return Err(SteganoError::Decryption);
    }
    let nonce: [u8; 12] = [
        envelope[4],
        envelope[5],
        envelope[6],
        envelope[7],
        envelope[8],
        envelope[9],
        envelope[10],
        envelope[11],
        envelope[12],
        envelope[13],
        envelope[14],
        envelope[15],
    ];
    assert(nonce@ =~= envelope@.subrange(4, 16));
    let mut body: Vec<u8> = Vec::new();
    let mut k: usize = 16;
    while k < len
        invariant
            16 <= k <= len,
            len == envelope@.len(),
            body@ == envelope@.subrange(16, k as int),
        decreases len - k,
    {
        body.push(envelope[k]);
        k = k + 1;
        assert(body@ =~= envelope@.subrange(16, k as int));
    }
    Ok((nonce, body))
}

/// Encrypts and decrypts payloads under one AES-256 key.
pub struct CryptoManager {
    aes_key: [u8; 32],
}

impl View for CryptoManager {
    type V = Seq<u8>;

    closed spec fn view(&self) -> Seq<u8> {
        self.aes_key@
    }
}

/// Outcome of encrypting `plaintext` under `key` with `nonce`.
pub open spec fn encrypt_result(key: Seq<u8>, nonce: Seq<u8>, plaintext: Seq<u8>) -> Result<
    Seq<u8>,
    SteganoError,
> {
    if plaintext.len() + 28 > u32::MAX {
        Err(SteganoError::Encryption)
    } else {
        Ok(envelope_of(nonce, aes_gcm_ciphertext(key, nonce, plaintext)))
    }
}

/// The 32 bytes of `v` as an array.
fn to_key(v: &Vec<u8>) -> (r: [u8; 32])
    requires
        v@.len() == 32,
    ensures
        r@ == v@,
{
    let r: [u8; 32] = [
        v[0],
        v[1],
        v[2],
        v[3],
        v[4],
        v[5],
        v[6],
        v[7],
        v[8],
        v[9],
        v[10],
        v[11],
        v[12],
        v[13],
        v[14],
        v[15],
        v[16],
        v[17],
        v[18],
        v[19],
        v[20],
        v[21],
        v[22],
        v[23],
        v[24],
        v[25],
        v[26],
        v[27],
        v[28],
        v[29],
        v[30],
        v[31],
    ];
    assert(r@ =~= v@);
    r
}

impl CryptoManager {
    /// A manager with a fresh random key.
    pub fn new() -> (r: Self)
        ensures
            r@.len() == 32,
    {
        let bytes = random_bytes(KEY_LEN);
        CryptoManager { aes_key: to_key(&bytes) }
    }

    /// A manager that uses `key`.
    pub fn with_key(key: [u8; 32]) -> (r: Self)
        ensures
            r@ == key@,
    {
        CryptoManager { aes_key: key }
    }

    /// A copy of the key.
    pub fn get_key(&self) -> (r: [u8; 32])
        ensures
            r@ == self@,
    {
        self.aes_key
    }

    /// Encrypts `plaintext` under the key with the given nonce and frames
    /// the result as an envelope.
    pub fn encrypt_with_nonce(&self, plaintext: &[u8], nonce: &[u8; 12]) -> (r: Result<
        Vec<u8>,
        SteganoError,
    >)
        ensures
            match encrypt_result(self@, nonce@, plaintext@) {
                Ok(e) => r is Ok && r->Ok_0@ == e,
                Err(e) => r == Err::<Vec<u8>, SteganoError>(e),
            },
            r is Ok ==> r->Ok_0@.len() == plaintext@.len() + 32,
    {
        if plaintext.len() > (u32::MAX - 28) as usize {
            return Err(SteganoError::Encryption);
        }
        match gcm_encrypt(&self.aes_key, nonce, plaintext) {
            Ok(ciphertext) => seal_envelope(nonce, ciphertext.as_slice()),
            Err(_) => Err(SteganoError::Encryption),
        }
    }

    /// Encrypts `plaintext` under the key with a fresh random nonce and
    /// frames the result as an envelope.
    pub fn encrypt(&self, plaintext: &[u8]) -> (r: Result<Vec<u8>, SteganoError>)
        ensures
            plaintext@.len() + 28 > u32::MAX ==> r == Err::<Vec<u8>, SteganoError>(
                SteganoError::Encryption,
            ),
            plaintext@.len() + 28 <= u32::MAX ==> r is Ok && exists|n: Seq<u8>|
                n.len() == 12 && aes_gcm_ciphertext(self@, n, plaintext@).len() == plaintext@.len()
                    + 16 && r->Ok_0@ == #[trigger] envelope_of(
                    n,
                    aes_gcm_ciphertext(self@, n, plaintext@),
                ),
            r is Ok ==> r->Ok_0@.len() == plaintext@.len() + 32,
    {
        let bytes = random_bytes(NONCE_LEN);
        let nonce: [u8; 12] = [
            bytes[0],
            bytes[1],
            bytes[2],
            bytes[3],
            bytes[4],
            bytes[5],
            bytes[6],
            bytes[7],
            bytes[8],
            bytes[9],
            bytes[10],
            bytes[11],
        ];
        self.encrypt_with_nonce(plaintext, &nonce)
    }

    /// Opens an envelope and decrypts its ciphertext under the key.
    pub fn decrypt(&self, envelope: &[u8]) -> (r: Result<Vec<u8>, SteganoError>)
        ensures
            r is Err ==> r == Err::<Vec<u8>, SteganoError>(SteganoError::Decryption),
            envelope_parts(envelope@) is Err ==> r is Err,
            forall|n: Seq<u8>, p: Seq<u8>|
                p.len() <= GCM_MAX_PLAINTEXT && envelope_parts(envelope@) == Ok::<
                    (Seq<u8>, Seq<u8>),
                    SteganoError,
                >((n, #[trigger] aes_gcm_ciphertext(self@, n, p))) ==> r is Ok && r->Ok_0@ == p,
            r is Ok ==> envelope_parts(envelope@) is Ok && aes_gcm_ciphertext(
                self@,
                envelope_parts(envelope@)->Ok_0.0,
                r->Ok_0@,
            ) == envelope_parts(envelope@)->Ok_0.1,
    {
        let (nonce, ciphertext) = match open_envelope(envelope) {
            Ok(parts) => parts,
            Err(e) => {
                return Err(e);
            },
        };
        match gcm_decrypt(&self.aes_key, &nonce, ciphertext.as_slice()) {
            Ok(plaintext) => Ok(plaintext),
            Err(_) => Err(SteganoError::Decryption),
        }
    }
}

/// Turns stored key material into a cipher manager.
pub struct KeyManager;

impl KeyManager {
    /// A manager for the key held in `key_data`, which must be exactly 32 bytes.
    pub fn from_bytes(key_data: &[u8]) -> (r: Result<CryptoManager, SteganoError>)
        ensures
            key_data@.len() == 32 ==> r is Ok && r->Ok_0@ == key_data@,
            key_data@.len() != 32 ==> r is Err && r->Err_0 == SteganoError::InvalidKey,
    {
        if key_data.len() != KEY_LEN {
            return Err(SteganoError::InvalidKey);
        }
        let mut v: Vec<u8> = Vec::new();
        let mut i: usize = 0;
        while i < KEY_LEN
            invariant
                i <= 32,
                key_data@.len() == 32,
                v@ == key_data@.take(i as int),
            decreases 32 - i,
        {
            v.push(key_data[i]);
            i = i + 1;
            assert(v@ =~= key_data@.take(i as int));
        }
        assert(key_data@.take(32) =~= key_data@);
        Ok(CryptoManager::with_key(to_key(&v)))
    }
}

} // verus!
