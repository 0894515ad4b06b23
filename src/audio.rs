//! Audio carrier: one payload bit in the least significant bit of each
//! 16-bit sample, in stream order.
use crate::bits::{
    bits_to_bytes, bits_to_value, frame_bit, frame_bits, frame_bits_of, frame_slots,
    lemma_frame_decodes, payload_bytes, prefix_length, LENGTH_BITS,
};
use crate::error::SteganoError;
use crate::traits::Steganography;
use vstd::prelude::*;

verus! {

/// Hides a payload in the low bits of PCM samples.
pub struct AudioSteganography;

/// The bit that a sample carries.
pub open spec fn sample_lsb(s: i16) -> bool {
    s & 1i16 == 1i16
}

/// `s` with its least significant bit set to `b`, the other bits kept.
pub open spec fn with_sample_lsb(s: i16, b: bool) -> i16 {
    if b {
        s | 1i16
    } else {
        s & !1i16
    }
}

/// Bytes that `n` samples can carry besides the 32-bit length prefix.
pub open spec fn audio_capacity(n: nat) -> nat {
    if n < 32 {
        0
    } else {
        ((n - 32) / 8) as nat
    }
}

/// The bits that the samples carry, in slot order.
pub open spec fn audio_slot_bits(samples: Seq<i16>) -> Seq<bool> {
    Seq::new(samples.len(), |i: int| sample_lsb(samples[i]))
}

/// The samples with the frame of `data` written into their low bits.
pub open spec fn audio_embedded(samples: Seq<i16>, data: Seq<u8>) -> Seq<i16> {
    Seq::new(
        samples.len(),
        |i: int|
            if i < frame_slots(data.len()) {
                with_sample_lsb(samples[i], frame_bit(data, i))
            } else {
                samples[i]
            },
    )
}

/// Outcome of embedding `data` into `samples`.
pub open spec fn audio_embed_result(samples: Seq<i16>, data: Seq<u8>) -> Result<
    Seq<i16>,
    SteganoError,
> {
    if samples.len() < 32 || data.len() > audio_capacity(samples.len()) || data.len()
        > u32::MAX {
        Err(SteganoError::Capacity)
    } else {
        Ok(audio_embedded(samples, data))
    }
}

/// Outcome of extracting a payload from `samples`.
pub open spec fn audio_extract_result(samples: Seq<i16>) -> Result<Seq<u8>, SteganoError> {
    let bits = audio_slot_bits(samples);
    if samples.len() < 32 {
        Err(SteganoError::Capacity)
    } else if prefix_length(bits) > audio_capacity(samples.len()) {
        Err(SteganoError::Corruption)
    } else {
        Ok(payload_bytes(bits, prefix_length(bits)))
    }
}

pub proof fn lemma_sample_lsb(s: i16, b: bool)
    ensures
        sample_lsb(with_sample_lsb(s, b)) == b,
{
    assert((s | 1i16) & 1i16 == 1i16) by (bit_vector);
    assert((s & !1i16) & 1i16 == 0i16) by (bit_vector);
}

/// Embedding any payload that fits a carrier of at least 32 samples, then
/// extracting, gives the payload back.
pub proof fn lemma_audio_round_trip(samples: Seq<i16>, data: Seq<u8>)
    requires
        samples.len() >= 32,
        data.len() <= audio_capacity(samples.len()),
        data.len() <= u32::MAX,
    ensures
        audio_embed_result(samples, data) is Ok,
        audio_extract_result(audio_embed_result(samples, data)->Ok_0) == Ok::<
            Seq<u8>,
            SteganoError,
        >(data),
{
    let e = audio_embedded(samples, data);
    let bits = audio_slot_bits(e);
    assert forall|i: int| 0 <= i < frame_slots(data.len()) implies bits[i] == frame_bit(
        data,
        i,
    ) by {
        lemma_sample_lsb(samples[i], frame_bit(data, i));
    }
    lemma_frame_decodes(bits, data);
}

/// A payload of exactly the capacity fits; one byte more is refused with a
/// capacity error.
pub proof fn lemma_audio_capacity_boundary(samples: Seq<i16>, data: Seq<u8>)
    requires
        samples.len() >= 32,
        audio_capacity(samples.len()) < u32::MAX,
    ensures
        data.len() == audio_capacity(samples.len()) ==> audio_embed_result(samples, data) is Ok,
        data.len() == audio_capacity(samples.len()) + 1 ==> audio_embed_result(samples, data)
            == Err::<Seq<i16>, SteganoError>(SteganoError::Capacity),
{
}

/// A carrier whose length prefix claims more than the carrier can hold is
/// reported as corrupted, never read.
pub proof fn lemma_audio_rejects_overlong(samples: Seq<i16>)
    requires
        samples.len() >= 32,
        prefix_length(audio_slot_bits(samples)) > audio_capacity(samples.len()),
    ensures
        audio_extract_result(samples) == Err::<Seq<u8>, SteganoError>(SteganoError::Corruption),
{
}

impl AudioSteganography {
    pub fn new() -> Self {
        AudioSteganography
    }

    /// Bytes that `sample_count` samples can carry.
    pub fn calculate_capacity(sample_count: usize) -> (r: usize)
        ensures
            r == audio_capacity(sample_count as nat),
    {
        if sample_count < LENGTH_BITS {
            0
        } else {
            (sample_count - LENGTH_BITS) / 8
        }
    }

    /// The bit of each sample, in order.
    fn slot_bits(samples: &Vec<i16>) -> (r: Vec<bool>)
        ensures
            r@ == audio_slot_bits(samples@),
    {
        let mut r: Vec<bool> = Vec::new();
        let mut i: usize = 0;
        while i < samples.len()
            invariant
                i <= samples@.len(),
                r@ == audio_slot_bits(samples@).take(i as int),
            decreases samples@.len() - i,
        {
            r.push(samples[i] & 1 == 1);
            i = i + 1;
            assert(r@ =~= audio_slot_bits(samples@).take(i as int));
        }
        assert(r@ =~= audio_slot_bits(samples@));
        r
    }
}

impl Steganography for AudioSteganography {
    type Carrier = Vec<i16>;

    open spec fn embed_spec(&self, carrier: Seq<i16>, data: Seq<u8>) -> Result<
        Seq<i16>,
        SteganoError,
    > {
        audio_embed_result(carrier, data)
    }

    open spec fn extract_spec(&self, carrier: Seq<i16>) -> Result<Seq<u8>, SteganoError> {
        audio_extract_result(carrier)
    }

    open spec fn capacity_spec(&self, carrier: Seq<i16>) -> nat {
        audio_capacity(carrier.len())
    }

    fn embed(&self, carrier: &mut Vec<i16>, data: &[u8]) -> (r: Result<(), SteganoError>) {
        if carrier.len() < LENGTH_BITS {
            return Err(SteganoError::Capacity);
        }
        let capacity = Self::calculate_capacity(carrier.len());
        if data.len() > capacity || data.len() > u32::MAX as usize {
            return Err(SteganoError::Capacity);
        }
        let frame = frame_bits_of(data);
        let ghost start = carrier@;
        let mut i: usize = 0;
        while i < frame.len()
            invariant
                frame@.len() == frame_slots(data@.len()),
                frame@.len() <= start.len(),
                frame@ == frame_bits(data@),
                carrier@.len() == start.len(),
                i <= frame@.len(),
                forall|k: int|
                    0 <= k < i ==> #[trigger] carrier@[k] == with_sample_lsb(
                        start[k],
                        frame_bit(data@, k),
                    ),
                forall|k: int| i <= k < start.len() ==> #[trigger] carrier@[k] == start[k],
            decreases frame@.len() - i,
        {
            let s = carrier[i];
            let v = if frame[i] {
                s | 1
            } else {
                s & !1
            };
            carrier.set(i, v);
            i = i + 1;
        }
        assert(carrier@ =~= audio_embedded(start, data@));
        Ok(())
    }

    fn extract(&self, carrier: &Vec<i16>) -> (r: Result<Vec<u8>, SteganoError>) {
        if carrier.len() < LENGTH_BITS {
            return Err(SteganoError::Capacity);
        }
        let bits = Self::slot_bits(carrier);
        let len = bits_to_value(&bits, 0, LENGTH_BITS);
        let capacity = Self::calculate_capacity(carrier.len());
        if len > capacity as u64 {
            return Err(SteganoError::Corruption);
        }
        let data = bits_to_bytes(&bits, len as usize);
        Ok(data)
    }

    fn can_embed(&self, carrier: &Vec<i16>, data_size: usize) -> (r: bool) {
        data_size <= Self::calculate_capacity(carrier.len())
    }
}

} // verus!
