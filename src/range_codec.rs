//! Range (arithmetic) coding of bits under adaptive 11-bit probabilities,
//! and the price model that mirrors it in fixed-point log2 units.

use vstd::prelude::*;
use byteorder::ByteOrder;
use crate::error::LzmaError;

verus! {

/// Number of bits of a probability.
pub const BIT_MODEL_TOTAL_BITS: u32 = 11;
/// The probability scale: a probability is a fraction of this value.
pub const BIT_MODEL_TOTAL: u32 = 2048;
/// Adaptation speed of a probability.
pub const MOVE_BITS: u32 = 5;
/// Initial probability, one half.
pub const PROB_INIT: u16 = 1024;
/// The range is renormalised whenever it drops below this value.
pub const TOP_VALUE: u32 = 0x1000000;
/// Price of an unreachable path.
pub const INFINITY_PRICE: u32 = 0x40000000;
/// Price of one equiprobable bit.
pub const DIRECT_BIT_PRICE: u32 = 16;

/// Reads `b[at..at + 4]` as a big-endian integer.
pub open spec fn be_u32(b: Seq<u8>, at: int) -> int {
    b[at] * 0x1000000 + b[at + 1] * 0x10000 + b[at + 2] * 0x100 + b[at + 3]
}

/// Relies on byteorder's `BigEndian::read_u32`: the first four bytes of its
/// argument, most significant first.
#[verifier::external_body]
fn read_be_u32(b: &[u8], at: usize) -> (r: u32)
    requires
        at + 4 <= b@.len(),
    ensures
        r as int == be_u32(b@, at as int),
{
    byteorder::BigEndian::read_u32(&b[at..])
}

/// An adaptive estimate of the probability that the next bit is 0,
/// in units of 1/2048.
#[derive(Debug, Clone, Copy, PartialEq, Eq, Structural)]
pub struct RangeEncProbability(pub u16);

impl RangeEncProbability {
    /// A probability that adaptation can reach from one half: between
    /// 31/2048 and 2017/2048.
    pub open spec fn wf(self) -> bool {
        31 <= self.0 <= 2017
    }

    /// The probability after a bit has been coded under it.
    pub open spec fn after_bit(self, bit: u32) -> RangeEncProbability {
        if bit == 0 {
            RangeEncProbability((self.0 + (2048 - self.0) / 32) as u16)
        } else {
            RangeEncProbability((self.0 - self.0 / 32) as u16)
        }
    }

    pub fn new() -> (r: Self)
        ensures
            r.0 == PROB_INIT,
            r.wf(),
    {
        RangeEncProbability(PROB_INIT)
    }

    /// Moves the estimate towards 0-bits.
    pub fn increment(&mut self)
        requires
            old(self).wf(),
        ensures
            *final(self) == old(self).after_bit(0),
            final(self).wf(),
    {
        let prob: u32 = self.0 as u32;
        let next: u32 = prob + (BIT_MODEL_TOTAL - prob) / 32;
        self.0 = next as u16;
    }

    /// Moves the estimate towards 1-bits.
    pub fn decrement(&mut self)
        requires
            old(self).wf(),
        ensures
            *final(self) == old(self).after_bit(1),
            final(self).wf(),
    {
        let prob: u32 = self.0 as u32;
        let next: u32 = prob - prob / 32;
        self.0 = next as u16;
    }

    /// Moves the estimate after coding `bit` (0, or anything else for 1).
    pub fn update(&mut self, bit: u32)
        requires
            old(self).wf(),
        ensures
            *final(self) == old(self).after_bit(bit),
            final(self).wf(),
    {
        if bit == 0 {
            self.increment();
        } else {
            self.decrement();
        }
    }

    pub fn get_bit_price(self, bit: u32) -> (r: RangeEncPrice)
        requires
            self.wf(),
            bit < 2,
        ensures
            r == RangeEncPrice::bit_price(self, bit),
    {
        RangeEncPrice::get_bit_price(self, bit)
    }
}

/// Every probability of a table is well formed.
pub open spec fn probs_wf(s: Seq<RangeEncProbability>) -> bool {
    forall|i: int| 0 <= i < s.len() ==> (#[trigger] s[i]).wf()
}

/// A table of `n` fresh probabilities.
pub fn new_probs(n: usize) -> (r: Vec<RangeEncProbability>)
    ensures
        r@.len() == n,
        forall|i: int| 0 <= i < n ==> #[trigger] r@[i] == RangeEncProbability(PROB_INIT),
        probs_wf(r@),
{
    let mut v: Vec<RangeEncProbability> = Vec::with_capacity(n);
    let mut i: usize = 0;
    while i < n
        invariant
            i <= n,
            v@.len() == i,
            forall|j: int| 0 <= j < i ==> #[trigger] v@[j] == RangeEncProbability(PROB_INIT),
        decreases n - i,
    {
        v.push(RangeEncProbability::new());
        i = i + 1;
    }
    v
}

/// The cost of a coding decision, in 1/16 bit.
#[derive(Debug, Clone, Copy, PartialEq, Eq, Structural)]
pub struct RangeEncPrice(pub u32);

/// The price of one bit, by the upper seven bits of the probability of that bit.
pub open spec fn price_table() -> Seq<u32> {
    seq![
        0x80, 0x67, 0x5b, 0x54, 0x4e, 0x49, 0x45, 0x42, 0x3f, 0x3d, 0x3a, 0x38, 0x36, 0x34, 0x33, 0x31,
        0x30, 0x2e, 0x2d, 0x2c, 0x2b, 0x2a, 0x29, 0x28, 0x27, 0x26, 0x25, 0x24, 0x23, 0x22, 0x22, 0x21,
        0x20, 0x1f, 0x1f, 0x1e, 0x1d, 0x1d, 0x1c, 0x1c, 0x1b, 0x1a, 0x1a, 0x19, 0x19, 0x18, 0x18, 0x17,
        0x17, 0x16, 0x16, 0x16, 0x15, 0x15, 0x14, 0x14, 0x13, 0x13, 0x13, 0x12, 0x12, 0x11, 0x11, 0x11,
        0x10, 0x10, 0x10, 0xf, 0xf, 0xf, 0xe, 0xe, 0xe, 0xd, 0xd, 0xd, 0xc, 0xc, 0xc, 0xb, 0xb, 0xb,
        0xb, 0xa, 0xa, 0xa, 0xa, 0x9, 0x9, 0x9, 0x9, 0x8, 0x8, 0x8, 0x8, 0x7, 0x7, 0x7, 0x7, 0x6, 0x6,
        0x6, 0x6, 0x5, 0x5, 0x5, 0x5, 0x5, 0x4, 0x4, 0x4, 0x4, 0x3, 0x3, 0x3, 0x3, 0x3, 0x2, 0x2, 0x2,
        0x2, 0x2, 0x2, 0x1, 0x1, 0x1, 0x1, 0x1,
    ]
}

/// The table position for coding `bit` under `prob`: the probability of
/// that bit, reduced to seven bits.
pub open spec fn price_index(prob: u16, bit: u32) -> int {
    if bit == 0 {
        prob as int / 16
    } else {
        (2047 - prob as int) / 16
    }
}

fn price_table_entry(i: usize) -> (r: u32)
    requires
        i < 128,
    ensures
        r == price_table()[i as int],
        0 < r <= 128,
{
    let table: [u32; 128] = [
        0x80, 0x67, 0x5b, 0x54, 0x4e, 0x49, 0x45, 0x42, 0x3f, 0x3d, 0x3a, 0x38, 0x36, 0x34, 0x33, 0x31,
        0x30, 0x2e, 0x2d, 0x2c, 0x2b, 0x2a, 0x29, 0x28, 0x27, 0x26, 0x25, 0x24, 0x23, 0x22, 0x22, 0x21,
        0x20, 0x1f, 0x1f, 0x1e, 0x1d, 0x1d, 0x1c, 0x1c, 0x1b, 0x1a, 0x1a, 0x19, 0x19, 0x18, 0x18, 0x17,
        0x17, 0x16, 0x16, 0x16, 0x15, 0x15, 0x14, 0x14, 0x13, 0x13, 0x13, 0x12, 0x12, 0x11, 0x11, 0x11,
        0x10, 0x10, 0x10, 0xf, 0xf, 0xf, 0xe, 0xe, 0xe, 0xd, 0xd, 0xd, 0xc, 0xc, 0xc, 0xb, 0xb, 0xb,
        0xb, 0xa, 0xa, 0xa, 0xa, 0x9, 0x9, 0x9, 0x9, 0x8, 0x8, 0x8, 0x8, 0x7, 0x7, 0x7, 0x7, 0x6, 0x6,
        0x6, 0x6, 0x5, 0x5, 0x5, 0x5, 0x5, 0x4, 0x4, 0x4, 0x4, 0x3, 0x3, 0x3, 0x3, 0x3, 0x2, 0x2, 0x2,
        0x2, 0x2, 0x2, 0x1, 0x1, 0x1, 0x1, 0x1,
    ];
    proof {
        assert(table@ =~= price_table());
    }
    table[i]
}

impl RangeEncPrice {
    /// The price of coding `bit` under `prob`.
    pub open spec fn bit_price(prob: RangeEncProbability, bit: u32) -> RangeEncPrice {
        RangeEncPrice(price_table()[price_index(prob.0, bit)])
    }

    pub fn zero() -> (r: RangeEncPrice)
        ensures
            r.0 == 0,
    {
        RangeEncPrice(0)
    }

    pub fn infinity() -> (r: RangeEncPrice)
        ensures
            r.0 == INFINITY_PRICE,
    {
        RangeEncPrice(INFINITY_PRICE)
    }

    pub fn get_bit_price(prob: RangeEncProbability, bit: u32) -> (r: RangeEncPrice)
        requires
            prob.wf(),
            bit < 2,
        ensures
            r == Self::bit_price(prob, bit),
            0 < r.0 <= 128,
    {
        let p: u32 = prob.0 as u32;
        let i: u32 = if bit == 0 { p / 16 } else { (2047 - p) / 16 };
        RangeEncPrice(price_table_entry(i as usize))
    }

    /// `count` equiprobable bits cost one bit each.
    pub fn get_direct_bits_price(count: u32) -> (r: RangeEncPrice)
        requires
            count <= 32,
        ensures
            r.0 == count * DIRECT_BIT_PRICE,
    {
        RangeEncPrice(count * DIRECT_BIT_PRICE)
    }

    /// Prices are additive; the sum saturates at the infinity price.
    pub fn add(self, other: RangeEncPrice) -> (r: RangeEncPrice)
        ensures
            r.0 == if self.0 as int + other.0 as int >= INFINITY_PRICE {
                INFINITY_PRICE as int
            } else {
                self.0 as int + other.0 as int
            },
    {
        if self.0 >= INFINITY_PRICE || other.0 >= INFINITY_PRICE - self.0 {
            RangeEncPrice(INFINITY_PRICE)
        } else {
            RangeEncPrice(self.0 + other.0)
        }
    }

    pub fn lt(self, other: RangeEncPrice) -> (r: bool)
        ensures
            r == (self.0 < other.0),
    {
        self.0 < other.0
    }
}

/// The split point of a range for a bit of probability `prob`: 0-bits take
/// the range below it, 1-bits the range above.
pub open spec fn bit_bound(range: int, prob: RangeEncProbability) -> int {
    (range / 2048) * prob.0
}

/// `out` with a carry added into its last `cs` bytes: the first of them
/// goes up by one (mod 256) and the 0xFF bytes after it become 0x00.
pub open spec fn carry_into(out: Seq<u8>, cs: int) -> Seq<u8> {
    let start = out.len() - cs;
    out.subrange(0, start).push(((out[start] as int + 1) % 256) as u8) + Seq::new((cs - 1) as nat, |i: int| 0u8)
}

/// Output, held-back count and low after moving the top byte of `low` out:
/// a carry resolves into the held-back bytes, which are then final unless
/// the new byte is 0xFF without a carry.
pub open spec fn shift_state(out: Seq<u8>, cs: int, low: u64) -> (Seq<u8>, int, u64) {
    let flush = low >= 0x1_0000_0000 || low < 0xFF00_0000;
    let carried = if low >= 0x1_0000_0000 { carry_into(out, cs) } else { out };
    (carried.push((low >> 24) as u8), if flush { 1 } else { cs + 1 }, (low & 0xFF_FFFF) << 8)
}

/// The bytes of a stream after `k` more shifts, the held-back bytes left out.
pub open spec fn finished_bytes(out: Seq<u8>, cs: int, low: u64, k: int) -> Seq<u8>
    decreases k,
{
    if k <= 0 {
        out.subrange(0, out.len() - cs)
    } else {
        let (o, c, l) = shift_state(out, cs, low);
        finished_bytes(o, c, l, k - 1)
    }
}

/// Range encoder writing into an owned byte vector.
///
/// The bytes of `out` past `out.len() - cache_size` are provisional: the
/// first of them is the cache byte and the others are 0xFF bytes that a
/// later carry may still turn into 0x00.
pub struct RangeEncoder {
    low: u64,
    range: u32,
    cache_size: usize,
    out: Vec<u8>,
}

impl RangeEncoder {
    pub closed spec fn wf(&self) -> bool {
        &&& self.low as int + self.range as int <= 0x2_0000_0000
        &&& self.range >= TOP_VALUE
        &&& self.out_wf()
    }

    closed spec fn out_wf(&self) -> bool {
        &&& self.low < 0x2_0000_0000
        &&& 1 <= self.cache_size <= self.out@.len()
    }

    /// The bytes that no later coding step can change.
    pub closed spec fn emitted(&self) -> Seq<u8> {
        self.out@.subrange(0, self.out@.len() - self.cache_size)
    }

    /// The number of bytes held back for a possible carry.
    pub closed spec fn pending(&self) -> nat {
        self.cache_size as nat
    }

    /// The stream `finish` produces: five shifts of `low`, carries resolved,
    /// the last held-back byte left out.
    pub closed spec fn finished(&self) -> Seq<u8> {
        finished_bytes(self.out@, self.cache_size as int, self.low, 5)
    }

    /// The bytes written so far (the held-back ones included), how many of
    /// them are held back, and `low`.
    pub closed spec fn state_view(&self) -> (Seq<u8>, int, u64) {
        (self.out@, self.cache_size as int, self.low)
    }

    /// The written bytes, the held-back count, `low` and `range`.
    pub closed spec fn coder_view(&self) -> (Seq<u8>, int, u64, int) {
        (self.out@, self.cache_size as int, self.low, self.range as int)
    }

    /// The low end of the current interval, below the bytes already shifted out.
    pub closed spec fn low_value(&self) -> int {
        self.low as int
    }

    /// The width of the current interval.
    pub closed spec fn range_value(&self) -> int {
        self.range as int
    }

    pub fn new() -> (r: Self)
        ensures
            r.wf(),
            r.emitted().len() == 0,
            r.pending() == 1,
            r.coder_view() == (seq![0u8], 1int, 0u64, 0xFFFF_FFFFint),
    {
        let mut out: Vec<u8> = Vec::new();
        out.push(0u8);
        RangeEncoder { low: 0, range: 0xFFFF_FFFF, cache_size: 1, out }
    }

    /// The bytes written so far, the held-back ones included.
    pub fn inner(&self) -> (r: &Vec<u8>)
        requires
            self.wf(),
        ensures
            r@.len() == self.emitted().len() + self.pending(),
            r@.subrange(0, self.emitted().len() as int) == self.emitted(),
    {
        &self.out
    }

    /// Moves the top byte of `low` into the output, resolving a carry into
    /// the held-back bytes.
    fn shift_low(&mut self)
        requires
            old(self).out_wf(),
        ensures
            final(self).out_wf(),
            final(self).range == old(self).range,
            final(self).low == (old(self).low & 0xFF_FFFF) << 8,
            final(self).low <= 0xFFFF_FF00,
            old(self).low < 0xFF00_0000 ==> final(self).cache_size == 1,
            final(self).out@.len() == old(self).out@.len() + 1,
            old(self).emitted().is_prefix_of(final(self).emitted()),
            (final(self).out@, final(self).cache_size as int, final(self).low)
                == shift_state(old(self).out@, old(self).cache_size as int, old(self).low),
    {
        let low_hi: u64 = self.low >> 32;
        proof {
            let l = self.low;
            assert(l < 0x2_0000_0000 ==> (l >> 32 != 0 <==> l >= 0x1_0000_0000)) by (bit_vector);
            assert((l & 0xFF_FFFF) << 8 <= 0xFFFF_FF00) by (bit_vector);
        }
        let ghost old_emitted = self.emitted();
        if low_hi != 0 || self.low < 0xFF00_0000 {
            let start: usize = self.out.len() - self.cache_size;
            if low_hi != 0 {
                let first: u8 = self.out[start];
                self.out.set(start, first.wrapping_add(1));
                let mut i: usize = start + 1;
                while i < self.out.len()
                    invariant
                        start < i <= self.out@.len(),
                        self.out@[start as int] == ((old(self).out@[start as int] as int + 1) % 256) as u8,
                        forall|k: int| start < k < i ==> #[trigger] self.out@[k] == 0u8,
                        forall|k: int| i <= k < self.out@.len() ==> #[trigger] self.out@[k] == old(self).out@[k],
                        self.out@.subrange(0, start as int) == old_emitted,
                        self.out@.len() == old(self).out@.len(),
                        self.cache_size == old(self).cache_size,
                        self.low == old(self).low,
                        self.range == old(self).range,
                        start == self.out@.len() - self.cache_size,
                    decreases self.out@.len() - i,
                {
                    self.out.set(i, 0u8);
                    i = i + 1;
                }
            }
            assert(self.out@.subrange(0, start as int) == old_emitted);
            if low_hi != 0 {
                assert(self.out@ =~= carry_into(old(self).out@, old(self).cache_size as int));
            } else {
                assert(self.out@ == old(self).out@);
            }
            self.cache_size = 0;
            assert(self.emitted() =~= old_emitted + self.out@.subrange(start as int, self.out@.len() as int));
        }
        let byte: u8 = (self.low >> 24) as u8;
        let ghost before = self.out@;
        self.out.push(byte);
        let len_now: usize = self.out.len();
        assert(len_now == before.len() + 1);
        assert(self.out@.subrange(0, before.len() - self.cache_size) =~= before.subrange(0, before.len() - self.cache_size));
        self.cache_size = self.cache_size + 1;
        self.low = (self.low & 0x00FF_FFFF) << 8;
    }

    /// Codes one bit under `prob` and adapts `prob`; `bit` is 0 or, when
    /// non-zero, 1.
    pub fn encode_bit(&mut self, prob: &mut RangeEncProbability, bit: u32)
        requires
            old(self).wf(),
            old(prob).wf(),
        ensures
            final(self).wf(),
            *final(prob) == old(prob).after_bit(bit),
            final(self).range_value() >= TOP_VALUE,
            old(self).emitted().is_prefix_of(final(self).emitted()),
            ({
                let bound = bit_bound(old(self).range_value(), *old(prob));
                let l = if bit == 0 { old(self).low_value() } else { old(self).low_value() + bound };
                let r = if bit == 0 { bound } else { old(self).range_value() - bound };
                if r < TOP_VALUE {
                    &&& final(self).range_value() == r * 256
                    &&& final(self).low_value() == ((l as u64) & 0xFF_FFFF) << 8
                    &&& final(self).state_view() == shift_state(old(self).state_view().0, old(self).state_view().1, l as u64)
                } else {
                    &&& final(self).range_value() == r
                    &&& final(self).low_value() == l
                    &&& final(self).emitted() == old(self).emitted()
                    &&& final(self).pending() == old(self).pending()
                    &&& final(self).state_view() == (old(self).state_view().0, old(self).state_view().1, l as u64)
                }
            }),
            final(self).coder_view() == enc_bit(old(self).coder_view(), *old(prob), bit),
    {
        proof {
            let r = self.range as int / 2048;
            assert(r * prob.0 <= r * 2047) by (nonlinear_arith)
                requires prob.0 < 2048, r >= 0;
            assert(r * 2048 <= self.range);
            assert(r >= 8192);
            assert(r * prob.0 >= 253952) by (nonlinear_arith)
                requires r >= 8192, prob.0 >= 31;
            assert(self.range - r * prob.0 >= 253952) by (nonlinear_arith)
                requires r >= 8192, prob.0 <= 2017, r * 2048 <= self.range;
        }
        let bound: u32 = (self.range / 2048) * (prob.0 as u32);
        if bit == 0 {
            self.range = bound;
            prob.increment();
        } else {
            self.low = self.low + bound as u64;
            self.range = self.range - bound;
            prob.decrement();
        }
        if self.range < TOP_VALUE {
            self.range = self.range * 256;
            self.shift_low();
        }
    }

    /// Codes the low `count` bits of `value`, most significant first, each
    /// with probability one half.
    pub fn encode_direct_bits(&mut self, value: u32, count: u32)
        requires
            old(self).wf(),
            1 <= count <= 32,
        ensures
            final(self).wf(),
            final(self).range_value() >= TOP_VALUE,
            old(self).emitted().is_prefix_of(final(self).emitted()),
            (final(self).low_value(), final(self).range_value())
                == direct_coded(old(self).low_value(), old(self).range_value(), value as int, count as int),
            ({
                let f = direct_full(old(self).state_view().0, old(self).state_view().1, old(self).state_view().2,
                    old(self).range_value(), value as int, count as int);
                final(self).state_view() == (f.0, f.1, f.2)
            }),
            final(self).coder_view() == direct_full(old(self).coder_view().0, old(self).coder_view().1,
                old(self).coder_view().2, old(self).coder_view().3, value as int, count as int),
    {
        let mut left: u32 = count;
        let mut d: u32 = pow2_u32(count - 1);
        while left > 0
            invariant
                self.wf(),
                left <= 32,
                left > 0 ==> d as int == pow2_int(left - 1),
                old(self).emitted().is_prefix_of(self.emitted()),
                direct_coded(self.low as int, self.range as int, value as int, left as int)
                    == direct_coded(old(self).low as int, old(self).range as int, value as int, count as int),
                direct_full(self.out@, self.cache_size as int, self.low, self.range as int, value as int, left as int)
                    == direct_full(old(self).out@, old(self).cache_size as int, old(self).low, old(self).range as int,
                    value as int, count as int),
            decreases left,
        {
            proof {
                lemma_pow2_int_step(left as int - 1);
            }
            let ghost l0: int = self.low as int;
            let ghost r0: int = self.range as int;
            let ghost o0 = self.out@;
            let ghost c0: int = self.cache_size as int;
            self.range = self.range / 2;
            let bit: u32 = (value / d) % 2;
            if bit != 0 {
                self.low = self.low + self.range as u64;
            }
            let ghost l1: u64 = self.low;
            proof {
                let b = (value as int / pow2_int(left - 1)) % 2;
                assert(bit as int == b);
                assert(l1 as int == l0 + b * (r0 / 2)) by (nonlinear_arith)
                    requires b == 0 || b == 1, bit as int == b, (bit != 0 ==> l1 as int == l0 + r0 / 2),
                        (bit == 0 ==> l1 as int == l0);
            }
            if self.range < TOP_VALUE {
                self.range = self.range * 256;
                self.shift_low();
            }
            proof {
                let b = (value as int / pow2_int(left - 1)) % 2;
                let r1 = r0 / 2;
                assert(r1 == self.range as int || r1 * 256 == self.range as int);
                if r1 < TOP_VALUE {
                    assert(self.low == (l1 & 0xFF_FFFF) << 8);
                    assert((self.out@, self.cache_size as int, self.low) == shift_state(o0, c0, l1));
                    assert(direct_full(o0, c0, l0 as u64, r0, value as int, left as int)
                        == direct_full(self.out@, self.cache_size as int, self.low, r1 * 256, value as int, left - 1));
                    assert(direct_coded(l0, r0, value as int, left as int)
                        == direct_coded((((l1 as u64) & 0xFF_FFFF) << 8) as int, r1 * 256, value as int, left - 1));
                } else {
                    assert(direct_coded(l0, r0, value as int, left as int)
                        == direct_coded(l1 as int, r1, value as int, left - 1));
                    assert(direct_full(o0, c0, l0 as u64, r0, value as int, left as int)
                        == direct_full(o0, c0, l1, r1, value as int, left - 1));
                }
            }
            left = left - 1;
            if left > 0 {
                proof {
                    lemma_pow2_int_step(left as int - 1);
                }
                d = d / 2;
            }
        }
    }

    /// Flushes the coder state and returns the finished byte stream.
    pub fn finish(self) -> (r: Vec<u8>)
        requires
            self.wf(),
        ensures
            r@.len() == self.emitted().len() + self.pending() + 4,
            r@.len() >= 5,
            self.emitted().is_prefix_of(r@),
            r@ == self.finished(),
            r@ == finished_bytes(self.coder_view().0, self.coder_view().1, self.coder_view().2, 5),
    {
        let mut enc = self;
        let mut i: u32 = 0;
        while i < 5
            invariant
                enc.wf(),
                i <= 5,
                enc.out@.len() == self.out@.len() + i,
                self.emitted().is_prefix_of(enc.emitted()),
                i == 0 ==> enc.low == self.low,
                i == 1 ==> enc.low == (self.low & 0xFF_FFFF) << 8,
                i == 2 ==> enc.low == (((self.low & 0xFF_FFFF) << 8) & 0xFF_FFFF) << 8,
                i == 3 ==> enc.low == (((((self.low & 0xFF_FFFF) << 8) & 0xFF_FFFF) << 8) & 0xFF_FFFF) << 8,
                i == 4 ==> enc.low == 0,
                i == 5 ==> enc.cache_size == 1,
                finished_bytes(enc.out@, enc.cache_size as int, enc.low, 5 - i)
                    == finished_bytes(self.out@, self.cache_size as int, self.low, 5),
            decreases 5 - i,
        {
            proof {
                let x = self.low;
                assert((((((((x & 0xFF_FFFF) << 8) & 0xFF_FFFF) << 8) & 0xFF_FFFF) << 8) & 0xFF_FFFF) << 8 == 0)
                    by (bit_vector);
            }
            enc.shift_low();
            i = i + 1;
        }
        let keep: usize = enc.out.len() - enc.cache_size;
        let mut out: Vec<u8> = enc.out;
        out.truncate(keep);
        proof {
            assert(finished_bytes(enc.out@, enc.cache_size as int, enc.low, 0) == out@);
        }
        out
    }
}

/// Low and range after coding the low `left` bits of `value`, most
/// significant first, each as half of the range, from `low` and `range`.
pub open spec fn direct_coded(low: int, range: int, value: int, left: int) -> (int, int)
    decreases left,
{
    if left <= 0 {
        (low, range)
    } else {
        let r1 = range / 2;
        let b = (value / pow2_int(left - 1)) % 2;
        let l1 = low + b * r1;
        if r1 < TOP_VALUE {
            direct_coded((((l1 as u64) & 0xFF_FFFF) << 8) as int, r1 * 256, value, left - 1)
        } else {
            direct_coded(l1, r1, value, left - 1)
        }
    }
}

/// Written bytes, held-back count, low and range after coding `bit` under
/// `p` from `st`; a non-zero `bit` codes a one.
pub open spec fn enc_bit(st: (Seq<u8>, int, u64, int), p: RangeEncProbability, bit: u32) -> (Seq<u8>, int, u64, int) {
    let bound = bit_bound(st.3, p);
    let l = if bit == 0 { st.2 as int } else { st.2 + bound };
    let r = if bit == 0 { bound } else { st.3 - bound };
    if r < TOP_VALUE {
        let (o, c, l2) = shift_state(st.0, st.1, l as u64);
        (o, c, l2, r * 256)
    } else {
        (st.0, st.1, l as u64, r)
    }
}

/// Range, code and unread bytes after decoding one bit under `p`, with the
/// bit; `None` when a byte is needed and none is left.
pub open spec fn dec_bit(d: (int, int, Seq<u8>), p: RangeEncProbability) -> Option<(u32, (int, int, Seq<u8>))> {
    if d.0 < TOP_VALUE && d.2.len() == 0 {
        None
    } else {
        let r1 = if d.0 < TOP_VALUE { d.0 * 256 } else { d.0 };
        let c1 = if d.0 < TOP_VALUE { d.1 * 256 + d.2[0] } else { d.1 };
        let rest1 = if d.0 < TOP_VALUE { d.2.drop_first() } else { d.2 };
        let bound = bit_bound(r1, p);
        if c1 < bound {
            Some((0u32, (bound, c1, rest1)))
        } else {
            Some((1u32, (r1 - bound, c1 - bound, rest1)))
        }
    }
}

/// Written bytes, held-back count, low and range after coding the low
/// `left` bits of `value` as `direct_coded` does, with the bytes each
/// renormalisation shifts out.
pub open spec fn direct_full(out: Seq<u8>, cs: int, low: u64, range: int, value: int, left: int) -> (Seq<u8>, int, u64, int)
    decreases left,
{
    if left <= 0 {
        (out, cs, low, range)
    } else {
        let r1 = range / 2;
        let b = (value / pow2_int(left - 1)) % 2;
        let l1 = (low + b * r1) as u64;
        if r1 < TOP_VALUE {
            let (o, c, l) = shift_state(out, cs, l1);
            direct_full(o, c, l, r1 * 256, value, left - 1)
        } else {
            direct_full(out, cs, l1, r1, value, left - 1)
        }
    }
}

/// The `n` equiprobable bits read from `range`, `code` and the unread
/// bytes `rest`, appended to `acc`.
pub open spec fn direct_decoded(range: int, code: int, rest: Seq<u8>, n: int, acc: int) -> int
    decreases n,
{
    if n <= 0 {
        acc
    } else {
        let r1 = if range < TOP_VALUE { range * 256 } else { range };
        let c1 = if range < TOP_VALUE { code * 256 + rest[0] } else { code };
        let rest1 = if range < TOP_VALUE { rest.drop_first() } else { rest };
        let half = r1 / 2;
        let bit = if c1 >= half { 1int } else { 0int };
        direct_decoded(half, if c1 >= half { c1 - half } else { c1 }, rest1, n - 1, acc * 2 + bit)
    }
}

/// The `n` equiprobable bits read from decoder state `d`, appended to
/// `acc`, and the state after them; `None` when a byte is needed and none is
/// left, or when a code does not fit below half the range.
pub open spec fn direct_dec(d: (int, int, Seq<u8>), n: int, acc: int) -> Option<(int, (int, int, Seq<u8>))>
    decreases n,
{
    if n <= 0 {
        Some((acc, d))
    } else if d.0 < TOP_VALUE && d.2.len() == 0 {
        None
    } else {
        let r1 = if d.0 < TOP_VALUE { d.0 * 256 } else { d.0 };
        let c1 = if d.0 < TOP_VALUE { d.1 * 256 + d.2[0] } else { d.1 };
        let rest1 = if d.0 < TOP_VALUE { d.2.drop_first() } else { d.2 };
        let half = r1 / 2;
        let bit = if c1 >= half { 1int } else { 0int };
        let c2 = if c1 >= half { c1 - half } else { c1 };
        if c2 >= half {
            None
        } else {
            direct_dec((half, c2, rest1), n - 1, acc * 2 + bit)
        }
    }
}

/// Range decoder reading from an owned byte vector.
pub struct RangeDecoder {
    input: Vec<u8>,
    pos: usize,
    range: u32,
    code: u32,
}

impl RangeDecoder {
    pub closed spec fn wf(&self) -> bool {
        &&& self.code < self.range
        &&& self.pos <= self.input@.len()
    }

    /// Every byte of the stream, consumed or not.
    pub closed spec fn input_view(&self) -> Seq<u8> {
        self.input@
    }

    /// The bytes not consumed yet.
    pub closed spec fn rest(&self) -> Seq<u8> {
        self.input@.subrange(self.pos as int, self.input@.len() as int)
    }

    /// Whether the next coding step must read a byte first.
    pub closed spec fn needs_byte(&self) -> bool {
        self.range < TOP_VALUE
    }

    pub closed spec fn code_value(&self) -> u32 {
        self.code
    }

    pub closed spec fn range_value(&self) -> int {
        self.range as int
    }

    /// The range, the code and the unread bytes.
    pub open spec fn dec_view(&self) -> (int, int, Seq<u8>) {
        (self.range_value(), self.code_value() as int, self.rest())
    }

    /// The range once the next coding step has read the byte it needs.
    pub open spec fn norm_range(&self) -> int {
        if self.needs_byte() { self.range_value() * 256 } else { self.range_value() }
    }

    /// The code once the next coding step has read the byte it needs.
    pub open spec fn norm_code(&self) -> int {
        if self.needs_byte() { self.code_value() * 256 + self.rest()[0] } else { self.code_value() as int }
    }

    /// Starts decoding `input`, which must begin with a zero byte followed
    /// by the four big-endian bytes of the initial code.
    pub fn new(input: Vec<u8>) -> (r: Result<Self, LzmaError>)
        ensures
            input@.len() < 5 ==> r == Err::<Self, LzmaError>(if input@.len() >= 1 && input@[0] != 0 {
                LzmaError::InvalidInput
            } else {
                LzmaError::UnexpectedEof
            }),
            input@.len() >= 5 && input@[0] != 0 ==> r == Err::<Self, LzmaError>(LzmaError::InvalidInput),
            input@.len() >= 5 && input@[0] == 0 && be_u32(input@, 1) == 0xFFFF_FFFF ==> r
                == Err::<Self, LzmaError>(LzmaError::CorruptStream),
            input@.len() >= 5 && input@[0] == 0 && be_u32(input@, 1) != 0xFFFF_FFFF ==> (r matches Ok(d)
                && d.wf() && d.rest() == input@.subrange(5, input@.len() as int)
                && d.code_value() == be_u32(input@, 1) && d.range_value() == 0xFFFF_FFFF && !d.needs_byte()),
    {
        if input.len() >= 1 && input[0] != 0 {
            return Err(LzmaError::InvalidInput);
        }
        if input.len() < 5 {
            return Err(LzmaError::UnexpectedEof);
        }
        let code: u32 = read_be_u32(input.as_slice(), 1);
        if code == 0xFFFF_FFFF {
            return Err(LzmaError::CorruptStream);
        }
        Ok(RangeDecoder { input, pos: 5, range: 0xFFFF_FFFF, code })
    }

    /// A cleanly ended stream leaves the code at zero.
    pub fn is_finished(&self) -> (r: bool)
        ensures
            r == (self.code_value() == 0),
    {
        self.code == 0
    }

    pub fn normalize(&mut self) -> (r: Result<(), LzmaError>)
        requires
            old(self).wf(),
        ensures
            final(self).wf(),
            r is Err <==> (old(self).needs_byte() && old(self).rest().len() == 0),
            r is Err ==> r == Err::<(), LzmaError>(LzmaError::UnexpectedEof) && final(self).rest().len() == 0,
            r is Ok && old(self).needs_byte() ==> final(self).rest() == old(self).rest().drop_first(),
            r is Ok && !old(self).needs_byte() ==> final(self).rest() == old(self).rest(),
            r is Ok ==> final(self).range_value() == old(self).norm_range()
                && final(self).code_value() == old(self).norm_code(),
            final(self).input_view() == old(self).input_view(),
    {
        if self.range < TOP_VALUE {
            if self.pos >= self.input.len() {
                return Err(LzmaError::UnexpectedEof);
            }
            let next: u32 = self.input[self.pos] as u32;
            proof {
                let c = self.code as int;
                let g = self.range as int;
                assert(c * 256 + next < g * 256) by (nonlinear_arith)
                    requires c < g, next < 256;
            }
            self.code = self.code * 256 + next;
            self.range = self.range * 256;
            self.pos = self.pos + 1;
            assert(self.rest() =~= old(self).rest().drop_first());
        }
        Ok(())
    }

    /// Decodes one bit under `prob` and adapts `prob`.
    pub fn decode_bit(&mut self, prob: &mut RangeEncProbability) -> (r: Result<u32, LzmaError>)
        requires
            old(self).wf(),
            old(prob).wf(),
        ensures
            final(self).wf(),
            r is Err <==> (old(self).needs_byte() && old(self).rest().len() == 0),
            r is Err ==> r == Err::<u32, LzmaError>(LzmaError::UnexpectedEof) && final(self).rest().len() == 0,
            r matches Ok(b) ==> b < 2 && *final(prob) == old(prob).after_bit(b),
            r matches Ok(b) ==> b == (if old(self).norm_code() < bit_bound(old(self).norm_range(), *old(prob)) {
                0u32
            } else {
                1u32
            }),
            r matches Ok(b) ==> final(self).range_value() == (if b == 0 {
                bit_bound(old(self).norm_range(), *old(prob))
            } else {
                old(self).norm_range() - bit_bound(old(self).norm_range(), *old(prob))
            }),
            r matches Ok(b) ==> final(self).code_value() == (if b == 0 {
                old(self).norm_code()
            } else {
                old(self).norm_code() - bit_bound(old(self).norm_range(), *old(prob))
            }),
            r is Err ==> *final(prob) == *old(prob),
            r matches Ok(b) ==> dec_bit(old(self).dec_view(), *old(prob)) == Some((b, final(self).dec_view())),
            r is Err ==> dec_bit(old(self).dec_view(), *old(prob)) is None,
    {
        match self.normalize() {
            Err(e) => { return Err(e); },
            Ok(()) => {},
        }
        proof {
            let g = self.range as int / 2048;
            assert(g * prob.0 <= g * 2047) by (nonlinear_arith)
                requires prob.0 < 2048, g >= 0;
            assert(g * 2048 <= self.range);
        }
        let bound: u32 = (self.range / 2048) * (prob.0 as u32);
        if self.code < bound {
            self.range = bound;
            prob.increment();
            Ok(0)
        } else {
            self.range = self.range - bound;
            self.code = self.code - bound;
            prob.decrement();
            Ok(1)
        }
    }

    /// Decodes `count` equiprobable bits, most significant first.
    pub fn decode_direct_bits(&mut self, count: u32) -> (r: Result<u32, LzmaError>)
        requires
            old(self).wf(),
            count <= 32,
        ensures
            final(self).wf(),
            r matches Ok(v) ==> (v as int) < pow2_int(count as int),
            r matches Ok(v) ==> v as int == direct_decoded(
                old(self).range_value(), old(self).code_value() as int, old(self).rest(), count as int, 0),
            r matches Err(e) ==> (e == LzmaError::UnexpectedEof && final(self).rest().len() == 0)
                || e == LzmaError::CorruptStream,
            r matches Ok(v) ==> direct_dec(old(self).dec_view(), count as int, 0) == Some((v as int, final(self).dec_view())),
            r is Err ==> direct_dec(old(self).dec_view(), count as int, 0) is None,
    {
        let mut result: u32 = 0;
        let mut i: u32 = 0;
        while i < count
            invariant
                self.wf(),
                i <= count <= 32,
                (result as int) < pow2_int(i as int),
                direct_decoded(self.range as int, self.code as int, self.rest(), count - i, result as int)
                    == direct_decoded(old(self).range as int, old(self).code as int, old(self).rest(), count as int, 0),
                direct_dec(self.dec_view(), count - i, result as int) == direct_dec(old(self).dec_view(), count as int, 0),
            decreases count - i,
        {
            match self.normalize() {
                Err(e) => { return Err(e); },
                Ok(()) => {},
            }
            let half: u32 = self.range / 2;
            let mut code: u32 = self.code;
            let bit: u32 = if code >= half {
                code = code - half;
                1
            } else {
                0
            };
            if code >= half {
                return Err(LzmaError::CorruptStream);
            }
            self.range = half;
            self.code = code;
            proof {
                lemma_pow2_int_step(i as int);
                lemma_pow2_int_mono(i as int + 1, 32);
                lemma_pow2_int_32();
            }
            result = result * 2 + bit;
            i = i + 1;
        }
        Ok(result)
    }
}

/// Two to the power `n`.
pub open spec fn pow2_int(n: int) -> int
    decreases n,
{
    if n <= 0 { 1 } else { 2 * pow2_int(n - 1) }
}

pub proof fn lemma_pow2_int_step(n: int)
    requires
        n >= 0,
    ensures
        pow2_int(n + 1) == 2 * pow2_int(n),
        pow2_int(n) >= 1,
    decreases n,
{
    if n > 0 {
        lemma_pow2_int_step(n - 1);
    }
}

/// Two to the power `n`, computed.
pub fn pow2_u32(n: u32) -> (r: u32)
    requires
        n < 32,
    ensures
        r as int == pow2_int(n as int),
        r >= 1,
{
    let mut r: u32 = 1;
    let mut i: u32 = 0;
    while i < n
        invariant
            i <= n < 32,
            r as int == pow2_int(i as int),
            r >= 1,
        decreases n - i,
    {
        proof {
            lemma_pow2_int_step(i as int);
            lemma_pow2_int_mono(i as int + 1, 31);
            lemma_pow2_int_step(31);
            lemma_pow2_int_32();
        }
        r = r * 2;
        i = i + 1;
    }
    r
}

pub proof fn lemma_pow2_int_mono(a: int, b: int)
    requires
        0 <= a <= b,
    ensures
        pow2_int(a) <= pow2_int(b),
    decreases b - a,
{
    if a < b {
        lemma_pow2_int_mono(a, b - 1);
        lemma_pow2_int_step(b - 1);
    }
}

pub proof fn lemma_pow2_int_32()
    ensures
        pow2_int(32) == 0x1_0000_0000,
{
    reveal_with_fuel(pow2_int, 33);
}

/// The price table falls as the probability of the coded bit grows.
proof fn lemma_price_table_falls()
    ensures
        forall|i: int, j: int| 0 <= i <= j < 128 ==> #[trigger] price_table()[i] >= #[trigger] price_table()[j],
{
    let t = price_table();
    assert(t.len() == 128);
    assert forall|i: int| 0 <= i < 127 implies #[trigger] t[i] >= t[i + 1] by {
        assert(t[i] >= t[i + 1]);
    }
    assert forall|i: int, j: int| 0 <= i <= j < 128 implies #[trigger] t[i] >= #[trigger] t[j] by {
        lemma_falls_from(t, i, j);
    }
}

proof fn lemma_falls_from(t: Seq<u32>, i: int, j: int)
    requires
        0 <= i <= j < t.len(),
        forall|k: int| 0 <= k < t.len() - 1 ==> #[trigger] t[k] >= t[k + 1],
    ensures
        t[i] >= t[j],
    decreases j - i,
{
    if i < j {
        lemma_falls_from(t, i + 1, j);
        assert(t[i] >= t[i + 1]);
    }
}

/// A bit costs no more the likelier it is: raising the probability of a
/// 0-bit never raises its price, and never lowers the price of a 1-bit.
pub proof fn lemma_bit_price_monotone(p: RangeEncProbability, q: RangeEncProbability)
    requires
        p.wf(),
        q.wf(),
        p.0 <= q.0,
    ensures
        RangeEncPrice::bit_price(q, 0).0 <= RangeEncPrice::bit_price(p, 0).0,
        RangeEncPrice::bit_price(p, 1).0 <= RangeEncPrice::bit_price(q, 1).0,
{
    lemma_price_table_falls();
    assert(price_index(p.0, 0) <= price_index(q.0, 0));
    assert(price_index(q.0, 1) <= price_index(p.0, 1));
}


} // verus!
