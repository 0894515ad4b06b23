//! Image carrier: one payload bit in the least significant bit of one colour
//! channel per pixel, pixels taken in raster order.
use crate::bits::{
    bits_to_bytes, bits_to_value, frame_bit, frame_bits, frame_bits_of, frame_slots,
    lemma_frame_decodes, payload_bytes, prefix_length, LENGTH_BITS,
};
use crate::error::SteganoError;
use crate::traits::Steganography;
use vstd::arithmetic::div_mod::{
    lemma_div_pos_is_pos, lemma_fundamental_div_mod, lemma_fundamental_div_mod_converse,
    lemma_mod_pos_bound,
};
use vstd::prelude::*;

verus! {

/// Smallest length, in bytes, that an extracted payload may claim: an
/// envelope holds at least its 12-byte nonce and an authentication tag.
pub const MIN_PAYLOAD_LEN: u64 = 16;

/// A decoded image: `width * height` pixels in raster order, four channels
/// (red, green, blue, alpha) per pixel.
pub struct PixelBuffer {
    pub width: u32,
    pub height: u32,
    pub pixels: Vec<u8>,
}

impl View for PixelBuffer {
    type V = (nat, nat, Seq<u8>);

    open spec fn view(&self) -> (nat, nat, Seq<u8>) {
        (self.width as nat, self.height as nat, self.pixels@)
    }
}

/// Hides a payload in the low bits of pixel colour channels.
pub struct ImageSteganography;

/// Whether the channel buffer matches the dimensions.
pub open spec fn raster_well_formed(img: (nat, nat, Seq<u8>)) -> bool {
    img.2.len() == 4 * (img.0 * img.1)
}

/// Number of pixels.
pub open spec fn pixel_count(img: (nat, nat, Seq<u8>)) -> nat {
    img.0 * img.1
}

/// Number of slots: one per colour channel, three per pixel.
pub open spec fn raster_slots(img: (nat, nat, Seq<u8>)) -> nat {
    3 * pixel_count(img)
}

/// Index in the channel buffer of slot `i` in an image of `n` pixels. The
/// first `n` slots lie in pixel `(i mod width, i div width)`, which is pixel
/// `i` in raster order, channel `i mod 3`; the next `2n` go round the pixels
/// twice more, each round one channel further on.
pub open spec fn slot_offset(i: int, n: int) -> int {
    4 * (i % n) + ((i % n) + i / n) % 3
}

/// The slot that colour channel byte `k` holds, in an image of `n` pixels.
pub open spec fn slot_of_byte(k: int, n: int) -> int {
    n * ((k % 4 + 3 - (k / 4) % 3) % 3) + k / 4
}

/// Bytes that an image of `width * height` pixels can carry, counting three
/// channels per pixel and the 32-bit length prefix.
pub open spec fn raster_capacity(width: nat, height: nat) -> nat {
    if 3 * (width * height) < 32 {
        0
    } else {
        ((3 * (width * height) - 32) / 8) as nat
    }
}

/// The bit that a channel value carries.
pub open spec fn channel_lsb(c: u8) -> bool {
    c & 1u8 == 1u8
}

/// `c` with its least significant bit set to `b`, the other bits kept.
pub open spec fn with_channel_lsb(c: u8, b: bool) -> u8 {
    if b {
        c | 1u8
    } else {
        c & 0xFEu8
    }
}

/// The bits that the image carries, in slot order.
pub open spec fn raster_slot_bits(img: (nat, nat, Seq<u8>)) -> Seq<bool> {
    Seq::new(
        raster_slots(img),
        |i: int| channel_lsb(img.2[slot_offset(i, pixel_count(img) as int)]),
    )
}

/// The channel buffer of an image of `n` pixels with the frame of `data`
/// written into the slots it covers; every other byte is kept.
pub open spec fn raster_embedded(pixels: Seq<u8>, n: int, data: Seq<u8>) -> Seq<u8> {
    Seq::new(
        pixels.len(),
        |k: int|
            if k % 4 < 3 && slot_of_byte(k, n) < frame_slots(data.len()) {
                with_channel_lsb(pixels[k], frame_bit(data, slot_of_byte(k, n)))
            } else {
                pixels[k]
            },
    )
}

/// Outcome of embedding `data` into `img`.
pub open spec fn raster_embed_result(img: (nat, nat, Seq<u8>), data: Seq<u8>) -> Result<
    (nat, nat, Seq<u8>),
    SteganoError,
> {
    if !raster_well_formed(img) {
        Err(SteganoError::CarrierFormat)
    } else if raster_slots(img) < 32 || data.len() > raster_capacity(img.0, img.1) || data.len()
        > u32::MAX {
        Err(SteganoError::Capacity)
    } else {
        Ok((img.0, img.1, raster_embedded(img.2, pixel_count(img) as int, data)))
    }
}

/// Outcome of extracting a payload from `img`.
pub open spec fn raster_extract_result(img: (nat, nat, Seq<u8>)) -> Result<
    Seq<u8>,
    SteganoError,
> {
    let bits = raster_slot_bits(img);
    let n = prefix_length(bits);
    if !raster_well_formed(img) {
        Err(SteganoError::CarrierFormat)
    } else if raster_slots(img) < 32 {
        Err(SteganoError::Capacity)
    } else if n < MIN_PAYLOAD_LEN || n > raster_capacity(img.0, img.1) {
        Err(SteganoError::Corruption)
    } else {
        Ok(payload_bytes(bits, n))
    }
}

pub proof fn lemma_channel_lsb(c: u8, b: bool)
    ensures
        channel_lsb(with_channel_lsb(c, b)) == b,
{
    assert((c | 1u8) & 1u8 == 1u8) by (bit_vector);
    assert((c & 0xFEu8) & 1u8 == 0u8) by (bit_vector);
}

/// Each slot lies in a colour channel of its own.
pub proof fn lemma_slot_offset(i: int, n: int)
    requires
        0 < n,
        0 <= i < 3 * n,
    ensures
        0 <= slot_offset(i, n) < 4 * n,
        slot_offset(i, n) % 4 < 3,
        slot_of_byte(slot_offset(i, n), n) == i,
{
    let j = i % n;
    let q = i / n;
    lemma_fundamental_div_mod(i, n);
    lemma_mod_pos_bound(i, n);
    lemma_div_pos_is_pos(i, n);
    assert(q < 3) by (nonlinear_arith)
        requires
            i == n * q + j,
            0 <= j,
            i < 3 * n,
            0 < n,
    ;
    let k = 4 * j + (j + q) % 3;
    assert(k / 4 == j && k % 4 == (j + q) % 3);
    assert(((j + q) % 3 + 3 - j % 3) % 3 == q);
}

/// Each colour channel holds exactly one slot.
pub proof fn lemma_byte_slot(k: int, n: int)
    requires
        0 < n,
        0 <= k < 4 * n,
        k % 4 < 3,
    ensures
        0 <= slot_of_byte(k, n) < 3 * n,
        slot_offset(slot_of_byte(k, n), n) == k,
{
    let j = k / 4;
    let q = (k % 4 + 3 - j % 3) % 3;
    let i = slot_of_byte(k, n);
    assert(i == n * q + j);
    assert(0 <= i < 3 * n) by (nonlinear_arith)
        requires
            i == n * q + j,
            0 <= q < 3,
            0 <= j < n,
    ;
    assert(i == q * n + j) by (nonlinear_arith)
        requires
            i == n * q + j,
    ;
    lemma_fundamental_div_mod_converse(i, n, q, j);
    assert((j + q) % 3 == k % 4);
}

/// Embedding a payload of at least the minimum length and at most the
/// capacity, then extracting, gives the payload back.
pub proof fn lemma_raster_round_trip(img: (nat, nat, Seq<u8>), data: Seq<u8>)
    requires
        raster_well_formed(img),
        raster_slots(img) >= 32,
        MIN_PAYLOAD_LEN <= data.len() <= raster_capacity(img.0, img.1),
        data.len() <= u32::MAX,
    ensures
        raster_embed_result(img, data) is Ok,
        raster_extract_result(raster_embed_result(img, data)->Ok_0) == Ok::<
            Seq<u8>,
            SteganoError,
        >(data),
{
    let n = pixel_count(img) as int;
    let out = (img.0, img.1, raster_embedded(img.2, n, data));
    let bits = raster_slot_bits(out);
    assert forall|i: int| 0 <= i < frame_slots(data.len()) implies bits[i] == frame_bit(
        data,
        i,
    ) by {
        lemma_slot_offset(i, n);
        lemma_channel_lsb(img.2[slot_offset(i, n)], frame_bit(data, i));
    }
    lemma_frame_decodes(bits, data);
}

/// A payload of exactly the capacity fits an image that can hold the length
/// prefix.
pub proof fn lemma_raster_at_capacity(img: (nat, nat, Seq<u8>), data: Seq<u8>)
    requires
        raster_well_formed(img),
        raster_slots(img) >= 32,
        data.len() == raster_capacity(img.0, img.1),
        data.len() <= u32::MAX,
    ensures
        raster_embed_result(img, data) is Ok,
{
}

/// One byte more than the capacity is refused with a capacity error.
pub proof fn lemma_raster_over_capacity(img: (nat, nat, Seq<u8>), data: Seq<u8>)
    requires
        raster_well_formed(img),
        data.len() == raster_capacity(img.0, img.1) + 1,
    ensures
        raster_embed_result(img, data) == Err::<(nat, nat, Seq<u8>), SteganoError>(
            SteganoError::Capacity,
        ),
{
}

/// An image whose length prefix claims more than the image can hold is
/// reported as corrupted, never read.
pub proof fn lemma_raster_rejects_overlong(img: (nat, nat, Seq<u8>))
    requires
        raster_well_formed(img),
        raster_slots(img) >= 32,
        prefix_length(raster_slot_bits(img)) > raster_capacity(img.0, img.1),
    ensures
        raster_extract_result(img) == Err::<Seq<u8>, SteganoError>(SteganoError::Corruption),
{
}

proof fn lemma_pixel_count_bound(width: u32, height: u32)
    ensures
        (width as nat) * (height as nat) <= 0xFFFF_FFFE_0000_0001,
{
    assert((width as nat) * (height as nat) <= 0xFFFF_FFFFnat * 0xFFFF_FFFFnat) by (nonlinear_arith)
        requires
            width <= 0xFFFF_FFFFnat,
            height <= 0xFFFF_FFFFnat,
    ;
}

impl ImageSteganography {
    pub fn new() -> Self {
        ImageSteganography
    }

    /// Bytes that a `width` by `height` image can carry.
    pub fn calculate_capacity(width: u32, height: u32) -> (r: u64)
        ensures
            r == raster_capacity(width as nat, height as nat),
    {
        proof {
            lemma_pixel_count_bound(width, height);
        }
        let px: u128 = (width as u128) * (height as u128);
        let total: u128 = px * 3;
        if total < 32 {
            0
        } else {
            ((total - 32) / 8) as u64
        }
    }

    /// Number of pixels when the buffer matches the dimensions, else `None`.
    fn pixel_total(img: &PixelBuffer) -> (r: Option<usize>)
        ensures
            r is Some <==> raster_well_formed(img@),
            r is Some ==> r->0 == pixel_count(img@) && 4 * r->0 <= usize::MAX,
    {
        proof {
            lemma_pixel_count_bound(img.width, img.height);
        }
        let len = img.pixels.len();
        let n: u64 = (img.width as u64) * (img.height as u64);
        if n > (usize::MAX / 4) as u64 {
            return None;
        }
        let n = n as usize;
        if len != 4 * n {
            None
        } else {
            Some(n)
        }
    }

    /// The bit of each slot, in order.
    fn slot_bits(img: &PixelBuffer, n: usize) -> (r: Vec<bool>)
        requires
            raster_well_formed(img@),
            n == pixel_count(img@),
            4 * n <= usize::MAX,
        ensures
            r@ == raster_slot_bits(img@),
    {
        let mut r: Vec<bool> = Vec::new();
        let mut i: usize = 0;
        while i < 3 * n
            invariant
                i <= 3 * n,
                4 * n <= usize::MAX,
                n == pixel_count(img@),
                img.pixels@.len() == 4 * n,
                r@ == raster_slot_bits(img@).take(i as int),
            decreases 3 * n - i,
        {
            proof {
                lemma_slot_offset(i as int, n as int);
            }
            let c = img.pixels[4 * (i % n) + ((i % n) + i / n) % 3];
            r.push(c & 1 == 1);
            i = i + 1;
            assert(r@ =~= raster_slot_bits(img@).take(i as int));
        }
        assert(r@ =~= raster_slot_bits(img@));
        r
    }
}

impl Steganography for ImageSteganography {
    type Carrier = PixelBuffer;

    open spec fn embed_spec(&self, carrier: (nat, nat, Seq<u8>), data: Seq<u8>) -> Result<
        (nat, nat, Seq<u8>),
        SteganoError,
    > {
        raster_embed_result(carrier, data)
    }

    open spec fn extract_spec(&self, carrier: (nat, nat, Seq<u8>)) -> Result<
        Seq<u8>,
        SteganoError,
    > {
        raster_extract_result(carrier)
    }

    open spec fn capacity_spec(&self, carrier: (nat, nat, Seq<u8>)) -> nat {
        raster_capacity(carrier.0, carrier.1)
    }

    fn embed(&self, carrier: &mut PixelBuffer, data: &[u8]) -> (r: Result<(), SteganoError>) {
        let n = match Self::pixel_total(carrier) {
            Some(n) => n,
            None => {
                return Err(SteganoError::CarrierFormat);
            },
        };
        if 3 * n < LENGTH_BITS || !self.can_embed(carrier, data.len()) || data.len()
            > u32::MAX as usize {
            return Err(SteganoError::Capacity);
        }
        let frame = frame_bits_of(data);
        let ghost start = carrier.pixels@;
        let mut i: usize = 0;
        while i < frame.len()
            invariant
                frame@ == frame_bits(data@),
                frame@.len() <= 3 * n,
                4 * n <= usize::MAX,
                n == pixel_count(carrier@),
                start.len() == 4 * n,
                carrier.pixels@.len() == start.len(),
                carrier.width == old(carrier).width,
                carrier.height == old(carrier).height,
                start == old(carrier).pixels@,
                i <= frame@.len(),
                forall|k: int|
                    0 <= k < start.len() ==> #[trigger] carrier.pixels@[k] == if k % 4 < 3
                        && slot_of_byte(k, n as int) < i {
                        with_channel_lsb(start[k], frame_bit(data@, slot_of_byte(k, n as int)))
                    } else {
                        start[k]
                    },
            decreases frame@.len() - i,
        {
            proof {
                lemma_slot_offset(i as int, n as int);
            }
            let at = 4 * (i % n) + ((i % n) + i / n) % 3;
            let c = carrier.pixels[at];
            let v = if frame[i] {
                c | 1
            } else {
                c & 0xFE
            };
            carrier.pixels.set(at, v);
            proof {
                assert forall|k: int|
                    0 <= k < start.len() && k % 4 < 3 && k != at implies slot_of_byte(
                    k,
                    n as int,
                ) != i by {
                    lemma_byte_slot(k, n as int);
                }
            }
            i = i + 1;
        }
        assert(carrier.pixels@ =~= raster_embedded(start, n as int, data@));
        Ok(())
    }

    fn extract(&self, carrier: &PixelBuffer) -> (r: Result<Vec<u8>, SteganoError>) {
        let n = match Self::pixel_total(carrier) {
            Some(n) => n,
            None => {
                return Err(SteganoError::CarrierFormat);
            },
        };
        if 3 * n < LENGTH_BITS {
            return Err(SteganoError::Capacity);
        }
        let bits = Self::slot_bits(carrier, n);
        let len = bits_to_value(&bits, 0, LENGTH_BITS);
        if len < MIN_PAYLOAD_LEN {
            return Err(SteganoError::Corruption);
        }
        let capacity = Self::calculate_capacity(carrier.width, carrier.height);
        if len > capacity {
            return Err(SteganoError::Corruption);
        }
        let data = bits_to_bytes(&bits, len as usize);
        Ok(data)
    }

    fn can_embed(&self, carrier: &PixelBuffer, data_size: usize) -> (r: bool) {
        data_size as u64 <= Self::calculate_capacity(carrier.width, carrier.height)
    }
}

} // verus!
