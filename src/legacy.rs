//! The older single-type interface: one manager that encrypts and also
//! embeds into images, and the older audio scheme that stores the low bit
//! of each payload byte in one sample; kept for callers written against them.
use crate::crypto::{
    aes_gcm_ciphertext, envelope_of, envelope_parts, CryptoManager, GCM_MAX_PLAINTEXT,
};
use crate::audio::{sample_lsb, with_sample_lsb};
use crate::error::SteganoError;
use crate::raster::{
    raster_embed_result, raster_extract_result, ImageSteganography, PixelBuffer,
};
use crate::traits::Steganography;
use vstd::prelude::*;

verus! {

/// Encrypts under one AES-256 key and hides payloads in images.
pub struct CrytpoManager {
    aes_key: [u8; 32],
}

impl View for CrytpoManager {
    type V = Seq<u8>;

    closed spec fn view(&self) -> Seq<u8> {
        self.aes_key@
    }
}

impl CrytpoManager {
    /// A manager with a fresh random key.
    pub fn new() -> (r: Self)
        ensures
            r@.len() == 32,
    {
        CrytpoManager { aes_key: CryptoManager::new().get_key() }
    }

    /// A manager that uses `key`.
    pub fn with_key(key: [u8; 32]) -> (r: Self)
        ensures
            r@ == key@,
    {
        CrytpoManager { aes_key: key }
    }

    /// A copy of the key.
    pub fn get_key(&self) -> (r: [u8; 32])
        ensures
            r@ == self@,
    {
        self.aes_key
    }

    /// Encrypts `plaintext` with a fresh random nonce into an envelope.
    pub fn encrypt_aes(&self, plaintext: &[u8]) -> (r: Result<Vec<u8>, SteganoError>)
        ensures
            plaintext@.len() + 28 > u32::MAX ==> r == Err::<Vec<u8>, SteganoError>(
                SteganoError::Encryption,
            ),
            plaintext@.len() + 28 <= u32::MAX ==> r is Ok && exists|n: Seq<u8>|
                n.len() == 12 && aes_gcm_ciphertext(self@, n, plaintext@).len() == plaintext@.len()
                    + 16 && r->Ok_0@ == #[trigger] envelope_of(
                    n,
                    aes_gcm_ciphertext(self@, n, plaintext@),
                ),
            r is Ok ==> r->Ok_0@.len() == plaintext@.len() + 32,
    {
        let manager = CryptoManager::with_key(self.aes_key);
        assert(manager@ == self@);
        manager.encrypt(plaintext)
    }

    /// Opens an envelope and decrypts it under the key.
    pub fn decrypt_aes(&self, ciphertext: &[u8]) -> (r: Result<Vec<u8>, SteganoError>)
        ensures
            r is Err ==> r == Err::<Vec<u8>, SteganoError>(SteganoError::Decryption),
            envelope_parts(ciphertext@) is Err ==> r is Err,
            forall|n: Seq<u8>, p: Seq<u8>|
                p.len() <= GCM_MAX_PLAINTEXT && envelope_parts(ciphertext@) == Ok::<
                    (Seq<u8>, Seq<u8>),
                    SteganoError,
                >((n, #[trigger] aes_gcm_ciphertext(self@, n, p))) ==> r is Ok && r->Ok_0@ == p,
            r is Ok ==> envelope_parts(ciphertext@) is Ok && aes_gcm_ciphertext(
                self@,
                envelope_parts(ciphertext@)->Ok_0.0,
                r->Ok_0@,
            ) == envelope_parts(ciphertext@)->Ok_0.1,
    {
        let manager = CryptoManager::with_key(self.aes_key);
        assert(manager@ == self@);
        manager.decrypt(ciphertext)
    }

    /// Hides `data` in `image`, as the image carrier does.
    pub fn embed_in_image(image: &mut PixelBuffer, data: &[u8]) -> (r: Result<(), SteganoError>)
        ensures
            match raster_embed_result(old(image)@, data@) {
                Ok(c) => r is Ok && final(image)@ == c,
                Err(e) => r == Err::<(), SteganoError>(e) && final(image)@ == old(image)@,
            },
    {
        ImageSteganography::new().embed(image, data)
    }

    /// Recovers the payload hidden in `image`, as the image carrier does.
    pub fn extract_from_image(image: &PixelBuffer) -> (r: Result<Vec<u8>, SteganoError>)
        ensures
            match raster_extract_result(image@) {
                Ok(d) => r is Ok && r->Ok_0@ == d,
                Err(e) => r == Err::<Vec<u8>, SteganoError>(e),
            },
    {
        ImageSteganography::new().extract(image)
    }
}

/// The older audio scheme: sample `i` carries the low bit of payload byte
/// `i`, with no length prefix on embedding.
pub struct AudioSteganography;

/// The byte, 0 or 1, that a sample carries in the older scheme.
pub open spec fn lsb_byte(x: i16) -> u8 {
    if sample_lsb(x) {
        1
    } else {
        0
    }
}

/// The samples after the older embedding of `data`: each of the first
/// samples takes the low bit of the byte at its index.
pub open spec fn lsb_embedded(samples: Seq<i16>, data: Seq<u8>) -> Seq<i16> {
    Seq::new(
        samples.len(),
        |i: int|
            if i < data.len() {
                with_sample_lsb(samples[i], data[i] & 1u8 == 1u8)
            } else {
                samples[i]
            },
    )
}

/// Outcome of the older extraction: a length made of the bits of the first
/// four samples, one per little-endian byte, then one bit per sample.
pub open spec fn lsb_extract_result(samples: Seq<i16>) -> Result<Seq<u8>, SteganoError> {
    if samples.len() < 4 {
        Err(SteganoError::Capacity)
    } else {
        let n = lsb_byte(samples[0]) + 256 * lsb_byte(samples[1]) + 65536 * lsb_byte(samples[2])
            + 16777216 * lsb_byte(samples[3]);
        if n + 4 > samples.len() {
            Err(SteganoError::Corruption)
        } else {
            Ok(Seq::new(n as nat, |i: int| lsb_byte(samples[i + 4])))
        }
    }
}

impl AudioSteganography {
    /// Writes the low bit of each payload byte into the sample at its index,
    /// as far as the samples go.
    pub fn embed_in_audio(samples: &mut Vec<i16>, data: &[u8])
        ensures
            final(samples)@ == lsb_embedded(old(samples)@, data@),
    {
        let ghost start = samples@;
        let mut i: usize = 0;
        while i < data.len() && i < samples.len()
            invariant
                samples@.len() == start.len(),
                i <= start.len(),
                i <= data@.len(),
                forall|k: int|
                    0 <= k < start.len() ==> #[trigger] samples@[k] == if k < i {
                        with_sample_lsb(start[k], data@[k] & 1u8 == 1u8)
                    } else {
                        start[k]
                    },
            decreases start.len() - i,
        {
            let s = samples[i];
            let v = if data[i] & 1 == 1 {
                s | 1
            } else {
                s & !1
            };
            samples.set(i, v);
            i = i + 1;
        }
        assert(samples@ =~= lsb_embedded(start, data@));
    }

    /// Reads back what the older scheme stores.
    pub fn extract_from_audio(samples: &Vec<i16>) -> (r: Result<Vec<u8>, SteganoError>)
        ensures
            match lsb_extract_result(samples@) {
                Ok(d) => r is Ok && r->Ok_0@ == d,
                Err(e) => r == Err::<Vec<u8>, SteganoError>(e),
            },
    {
        let len = samples.len();
        if len < 4 {
            return Err(SteganoError::Capacity);
        }
        let n: usize = ((samples[0] & 1) as u8) as usize + 256 * (((samples[1] & 1) as u8)
            as usize) + 65536 * (((samples[2] & 1) as u8) as usize) + 16777216 * (((samples[3]
            & 1) as u8) as usize);
        assert(forall|x: i16| #[trigger] ((x & 1i16) as u8) == lsb_byte(x)) by {
            assert forall|x: i16| #[trigger] ((x & 1i16) as u8) == lsb_byte(x) by {
                assert((x & 1i16) == 0i16 || (x & 1i16) == 1i16) by (bit_vector);
            }
        }
        if n > len - 4 {
            return Err(SteganoError::Corruption);
        }
        let mut out: Vec<u8> = Vec::new();
        let mut i: usize = 0;
        while i < n
            invariant
                i <= n,
                n + 4 <= len,
                len == samples@.len(),
                out@ == Seq::new(n as nat, |k: int| lsb_byte(samples@[k + 4])).take(i as int),
            decreases n - i,
        {
            let b: u8 = if samples[i + 4] & 1 == 1 {
                1
            } else {
                0
            };
            out.push(b);
            i = i + 1;
            assert(out@ =~= Seq::new(n as nat, |k: int| lsb_byte(samples@[k + 4])).take(i as int));
        }
        assert(out@ =~= Seq::new(n as nat, |k: int| lsb_byte(samples@[k + 4])));
        Ok(out)
    }
}

} // verus!
