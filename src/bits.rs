//! The frame that the bit-plane carriers hold: a 32-bit little-endian length
//! followed by the payload bytes, one bit per slot, least significant bit first.
use vstd::arithmetic::div_mod::{
    lemma_div_denominator, lemma_mod_bound, lemma_mod_breakdown, lemma_small_mod,
};
use vstd::arithmetic::power2::{
    lemma2_to64, lemma_pow2_pos, lemma_pow2_strictly_increases, lemma_pow2_unfold, pow2,
};
use vstd::prelude::*;

verus! {

/// Number of slots taken by the length prefix.
pub const LENGTH_BITS: usize = 32;

/// Bit `k` of `v`, counting from the least significant bit.
pub open spec fn bit_of(v: nat, k: nat) -> bool {
    (v / pow2(k)) % 2 == 1
}

/// Number of slots that a frame carrying `n` payload bytes occupies.
pub open spec fn frame_slots(n: nat) -> nat {
    32 + 8 * n
}

/// The bit that slot `i` holds once `data` is embedded: the 32 bits of the
/// length come first, then each byte in turn.
pub open spec fn frame_bit(data: Seq<u8>, i: int) -> bool {
    if i < 32 {
        bit_of(data.len(), i as nat)
    } else {
        bit_of(data[(i - 32) / 8] as nat, ((i - 32) % 8) as nat)
    }
}

/// All the bits of the frame for `data`, in slot order.
pub open spec fn frame_bits(data: Seq<u8>) -> Seq<bool> {
    Seq::new(frame_slots(data.len()), |i: int| frame_bit(data, i))
}

/// The number whose bits, least significant first, are `bits[start..start + n]`.
pub open spec fn bits_value(bits: Seq<bool>, start: int, n: nat) -> nat
    decreases n,
{
    if n == 0 {
        0
    } else {
        bits_value(bits, start, (n - 1) as nat) + if bits[start + n - 1] {
            pow2((n - 1) as nat)
        } else {
            0
        }
    }
}

/// The length that the prefix of a slot bit sequence records.
pub open spec fn prefix_length(bits: Seq<bool>) -> nat {
    bits_value(bits, 0, 32)
}

/// The `count` bytes that follow the length prefix.
pub open spec fn payload_bytes(bits: Seq<bool>, count: nat) -> Seq<u8> {
    Seq::new(count, |j: int| bits_value(bits, 32 + 8 * j, 8) as u8)
}

/// The four little-endian bytes of `n`.
pub open spec fn le_bytes(n: nat) -> Seq<u8> {
    seq![
        (n % 256) as u8,
        ((n / 256) % 256) as u8,
        ((n / 65536) % 256) as u8,
        ((n / 16777216) % 256) as u8,
    ]
}

/// The number that the four little-endian bytes at `p` hold.
pub open spec fn le_value(s: Seq<u8>, p: int) -> nat {
    (s[p] + 256 * s[p + 1] + 65536 * s[p + 2] + 16777216 * s[p + 3]) as nat
}

pub proof fn lemma_le_bytes(n: nat)
    requires
        n <= u32::MAX,
    ensures
        le_value(le_bytes(n), 0) == n,
{
    let x = n as u32;
    assert(x == (x % 256) + 256 * ((x / 256) % 256) + 65536 * ((x / 65536) % 256) + 16777216 * ((
    x / 16777216) % 256)) by (bit_vector);
}

pub proof fn lemma_pow2_le_32(k: nat)
    requires
        k <= 32,
    ensures
        pow2(k) <= 0x1_0000_0000,
{
    lemma2_to64();
    if k < 32 {
        lemma_pow2_strictly_increases(k, 32);
    }
}

pub proof fn lemma_bits_value_bound(bits: Seq<bool>, start: int, n: nat)
    ensures
        bits_value(bits, start, n) < pow2(n),
    decreases n,
{
    if n == 0 {
        lemma_pow2_pos(0);
    } else {
        lemma_bits_value_bound(bits, start, (n - 1) as nat);
        lemma_pow2_unfold(n);
    }
}

/// Reading back the bits of `v` gives `v` modulo `2^n`.
pub proof fn lemma_bits_value_of(bits: Seq<bool>, start: int, v: nat, n: nat)
    requires
        forall|k: int| 0 <= k < n ==> #[trigger] bits[start + k] == bit_of(v, k as nat),
    ensures
        bits_value(bits, start, n) == v % pow2(n),
    decreases n,
{
    if n == 0 {
        lemma2_to64();
    } else {
        let m = (n - 1) as nat;
        lemma_bits_value_of(bits, start, v, m);
        lemma_pow2_unfold(n);
        lemma_pow2_pos(m);
        lemma_mod_breakdown(v as int, pow2(m) as int, 2);
        lemma_mod_bound((v / pow2(m)) as int, 2);
        assert(bits[start + m] == bit_of(v, m));
        let q = (v / pow2(m)) % 2;
        assert(pow2(m) * 2 == pow2(n));
        if q == 1 {
            assert(pow2(m) * q == pow2(m)) by (nonlinear_arith)
                requires
                    q == 1,
            ;
        } else {
            assert(pow2(m) * q == 0) by (nonlinear_arith)
                requires
                    q == 0,
            ;
        }
    }
}

/// A slot sequence that starts with the frame of `data` records its length
/// and its bytes.
pub proof fn lemma_frame_decodes(bits: Seq<bool>, data: Seq<u8>)
    requires
        data.len() <= u32::MAX,
        frame_slots(data.len()) <= bits.len(),
        forall|i: int| 0 <= i < frame_slots(data.len()) ==> bits[i] == frame_bit(data, i),
    ensures
        prefix_length(bits) == data.len(),
        payload_bytes(bits, data.len()) == data,
{
    lemma2_to64();
    lemma_bits_value_of(bits, 0, data.len(), 32);
    lemma_small_mod(data.len(), pow2(32));
    assert forall|j: int| 0 <= j < data.len() implies #[trigger] payload_bytes(
        bits,
        data.len(),
    )[j] == data[j] by {
        assert forall|k: int| 0 <= k < 8 implies #[trigger] bits[32 + 8 * j + k] == bit_of(
            data[j] as nat,
            k as nat,
        ) by {
            assert((8 * j + k) / 8 == j && (8 * j + k) % 8 == k) by (nonlinear_arith)
                requires
                    0 <= k < 8,
                    0 <= j,
            ;
            assert(bits[32 + 8 * j + k] == frame_bit(data, 32 + 8 * j + k));
        }
        lemma_bits_value_of(bits, 32 + 8 * j, data[j] as nat, 8);
        lemma_small_mod(data[j] as nat, pow2(8));
    }
    assert(payload_bytes(bits, data.len()) =~= data);
}

/// Appends the `n` low bits of `v`, least significant first.
fn push_bits(out: &mut Vec<bool>, v: u64, n: usize)
    ensures
        final(out)@ == old(out)@ + Seq::new(n as nat, |k: int| bit_of(v as nat, k as nat)),
{
    let ghost start = out@;
    let mut cur: u64 = v;
    let mut k: usize = 0;
    proof {
        lemma2_to64();
    }
    while k < n
        invariant
            k <= n,
            cur as nat == v as nat / pow2(k as nat),
            out@ == start + Seq::new(k as nat, |t: int| bit_of(v as nat, t as nat)),
        decreases n - k,
    {
        out.push(cur % 2 == 1);
        proof {
            lemma_pow2_pos(k as nat);
            lemma_div_denominator(v as int, pow2(k as nat) as int, 2);
            lemma_pow2_unfold((k + 1) as nat);
        }
        cur = cur / 2;
        k = k + 1;
        assert(out@ =~= start + Seq::new(k as nat, |t: int| bit_of(v as nat, t as nat)));
    }
}

/// The frame for `data`, one bit per slot.
pub fn frame_bits_of(data: &[u8]) -> (r: Vec<bool>)
    requires
        data@.len() <= u32::MAX,
    ensures
        r@ == frame_bits(data@),
{
    let mut r: Vec<bool> = Vec::new();
    push_bits(&mut r, data.len() as u64, LENGTH_BITS);
    assert(r@ =~= frame_bits(data@).take(32));
    let mut j: usize = 0;
    while j < data.len()
        invariant
            j <= data@.len(),
            data@.len() <= u32::MAX,
            r@ == frame_bits(data@).take(32 + 8 * j),
        decreases data@.len() - j,
    {
        push_bits(&mut r, data[j] as u64, 8);
        proof {
            assert forall|t: int| 0 <= t < 8 implies #[trigger] frame_bit(data@, 32 + 8 * j + t)
                == bit_of(data@[j as int] as nat, t as nat) by {
                assert((8 * j + t) / 8 == j && (8 * j + t) % 8 == t) by (nonlinear_arith)
                    requires
                        0 <= t < 8,
                        0 <= j,
                ;
            }
        }
        j = j + 1;
        assert(r@ =~= frame_bits(data@).take(32 + 8 * j));
    }
    assert(r@ =~= frame_bits(data@));
    r
}

/// The number held by `n` bits of `bits`, least significant first, from `start`.
pub fn bits_to_value(bits: &Vec<bool>, start: usize, n: usize) -> (r: u64)
    requires
        n <= 32,
        start + n <= bits@.len(),
    ensures
        r as nat == bits_value(bits@, start as int, n as nat),
{
    let total = bits.len();
    let mut acc: u64 = 0;
    let mut weight: u64 = 1;
    let mut k: usize = 0;
    proof {
        lemma2_to64();
    }
    while k < n
        invariant
            k <= n,
            n <= 32,
            start + n <= bits@.len(),
            total == bits@.len(),
            weight as nat == pow2(k as nat),
            acc as nat == bits_value(bits@, start as int, k as nat),
        decreases n - k,
    {
        proof {
            lemma_bits_value_bound(bits@, start as int, k as nat);
            lemma_pow2_unfold((k + 1) as nat);
            lemma_pow2_le_32((k + 1) as nat);
        }
        if bits[start + k] {
            acc = acc + weight;
        }
        weight = weight * 2;
        k = k + 1;
    }
    acc
}

/// The `count` payload bytes that follow the length prefix in `bits`.
pub fn bits_to_bytes(bits: &Vec<bool>, count: usize) -> (r: Vec<u8>)
    requires
        frame_slots(count as nat) <= bits@.len(),
    ensures
        r@ == payload_bytes(bits@, count as nat),
{
    let total = bits.len();
    let mut r: Vec<u8> = Vec::new();
    let mut j: usize = 0;
    proof {
        lemma2_to64();
    }
    while j < count
        invariant
            j <= count,
            frame_slots(count as nat) <= bits@.len(),
            total == bits@.len(),
            r@ == payload_bytes(bits@, count as nat).take(j as int),
        decreases count - j,
    {
        let v = bits_to_value(bits, 32 + 8 * j, 8);
        proof {
            lemma_bits_value_bound(bits@, 32 + 8 * j, 8);
            lemma2_to64();
        }
        r.push(v as u8);
        j = j + 1;
        assert(r@ =~= payload_bytes(bits@, count as nat).take(j as int));
    }
    assert(r@ =~= payload_bytes(bits@, count as nat));
    r
}

} // verus!
