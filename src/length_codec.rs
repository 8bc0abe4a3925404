//! Bit-tree codecs of small values and the three-tier match-length codec.

use vstd::prelude::*;
use crate::error::LzmaError;
use crate::range_codec::{
    RangeEncProbability, RangeEncPrice, RangeEncoder, RangeDecoder, probs_wf, new_probs, pow2_int,
    pow2_u32, lemma_pow2_int_mono, lemma_pow2_int_step, INFINITY_PRICE, enc_bit, dec_bit, PROB_INIT,
};

verus! {

pub const POS_STATES_MAX: usize = 16;
pub const LOW_LENGTH_BITS: u32 = 3;
pub const MID_LENGTH_BITS: u32 = 3;
pub const HIGH_LENGTH_BITS: u32 = 8;
pub const LOW_LENGTH_MAX: usize = 8;
pub const MID_LENGTH_MAX: usize = 8;
pub const HIGH_LENGTH_MAX: usize = 256;
/// The shortest match length.
pub const MATCH_LEN_MIN: usize = 2;
/// The longest match length.
pub const MATCH_LEN_MAX: usize = 273;
/// Length-price tables are refreshed after this many lengths.
pub const PRICE_UPDATE_INTERVAL: i32 = 32;
/// The largest number of cached length prices.
pub const MAX_NICE_LEN: usize = 273;

/// Saturating sum of two prices.
pub open spec fn sat_add(a: int, b: int) -> int {
    if a + b >= INFINITY_PRICE {
        INFINITY_PRICE as int
    } else {
        a + b
    }
}

/// The price of the bit that leads into tree node `node`.
pub open spec fn edge_price(p: Seq<RangeEncProbability>, node: int) -> int {
    RangeEncPrice::bit_price(p[node / 2], (node % 2) as u32).0 as int
}

/// The price of the path from tree node `node` up to the root, added to `acc`.
pub open spec fn path_price(p: Seq<RangeEncProbability>, acc: int, node: int) -> int
    decreases node,
{
    if node <= 1 {
        acc
    } else {
        path_price(p, sat_add(acc, edge_price(p, node)), node / 2)
    }
}

/// The price of coding the low bits of `sym`, least significant first,
/// starting at tree node `index`, added to `acc`; `m` halves at each bit and
/// the walk ends when it reaches 0.
pub open spec fn reverse_path_price(p: Seq<RangeEncProbability>, acc: int, index: int, sym: int, m: int) -> int
    decreases m,
{
    if m <= 0 {
        acc
    } else {
        reverse_path_price(
            p,
            sat_add(acc, RangeEncPrice::bit_price(p[index], (sym % 2) as u32).0 as int),
            2 * index + sym % 2,
            sym / 2,
            m / 2,
        )
    }
}

/// The probabilities after coding the path from the root down to tree node
/// `leaf`, starting `m` levels above it: each node on the way adapts to the
/// bit that leads towards `leaf`.
pub open spec fn tree_update(p: Seq<RangeEncProbability>, leaf: int, m: int) -> Seq<RangeEncProbability>
    decreases m,
{
    if m <= 0 {
        p
    } else {
        let node = leaf / (2 * m);
        let bit = (leaf / m) % 2;
        tree_update(p.update(node, p[node].after_bit(bit as u32)), leaf, m / 2)
    }
}

/// The probabilities after coding the low bits of `sym`, least significant
/// first, from tree node `index`; `m` halves at each bit and the walk ends
/// when it reaches 0.
pub open spec fn reverse_tree_update(p: Seq<RangeEncProbability>, index: int, sym: int, m: int) -> Seq<RangeEncProbability>
    decreases m,
{
    if m <= 0 {
        p
    } else {
        let bit = sym % 2;
        reverse_tree_update(p.update(index, p[index].after_bit(bit as u32)), 2 * index + bit, sym / 2, m / 2)
    }
}

/// The range encoder's state after coding the bits of `leaf` below `2 * m`,
/// most significant first, through the tree `p` (adapted as it goes).
pub open spec fn tree_coded(st: (Seq<u8>, int, u64, int), p: Seq<RangeEncProbability>, leaf: int, m: int)
    -> (Seq<u8>, int, u64, int)
    decreases m,
{
    if m <= 0 {
        st
    } else {
        let node = leaf / (2 * m);
        let bit = ((leaf / m) % 2) as u32;
        tree_coded(enc_bit(st, p[node], bit), p.update(node, p[node].after_bit(bit)), leaf, m / 2)
    }
}

/// The range encoder's state after coding the low bits of `sym`, least
/// significant first, from tree node `index`, `m` halving at each bit.
pub open spec fn reverse_tree_coded(st: (Seq<u8>, int, u64, int), p: Seq<RangeEncProbability>, index: int, sym: int, m: int)
    -> (Seq<u8>, int, u64, int)
    decreases m,
{
    if m <= 0 {
        st
    } else {
        let bit = (sym % 2) as u32;
        reverse_tree_coded(enc_bit(st, p[index], bit), p.update(index, p[index].after_bit(bit)), 2 * index + bit, sym / 2, m / 2)
    }
}

/// The leaf reached and the decoder's state after reading bits from tree
/// node `index`, most significant first, until `m` halves to 0; `None`
/// when the stream ends first.
pub open spec fn tree_decoded(d: (int, int, Seq<u8>), p: Seq<RangeEncProbability>, index: int, m: int)
    -> Option<(int, (int, int, Seq<u8>))>
    decreases m,
{
    if m <= 0 {
        Some((index, d))
    } else {
        match dec_bit(d, p[index]) {
            None => None,
            Some((b, d2)) => tree_decoded(d2, p.update(index, p[index].after_bit(b)), 2 * index + b, m / 2),
        }
    }
}

/// The value, least significant bit first, added to `acc` at weight `bv`,
/// and the decoder's state after reading bits from tree node `index` until
/// `m` halves to 0; `None` when the stream ends first.
pub open spec fn reverse_tree_decoded(d: (int, int, Seq<u8>), p: Seq<RangeEncProbability>, index: int, m: int, bv: int, acc: int)
    -> Option<(int, (int, int, Seq<u8>))>
    decreases m,
{
    if m <= 0 {
        Some((acc, d))
    } else {
        match dec_bit(d, p[index]) {
            None => None,
            Some((b, d2)) => reverse_tree_decoded(d2, p.update(index, p[index].after_bit(b)), 2 * index + b, m / 2,
                bv * 2, acc + b * bv),
        }
    }
}

/// One level down the tree: the child of `leaf / (2 * m)` towards `leaf`.
pub proof fn lemma_tree_descend(leaf: int, m: int)
    requires
        leaf >= 0,
        m >= 1,
    ensures
        leaf / m == 2 * (leaf / (2 * m)) + (leaf / m) % 2,
        (leaf / m) % 2 == 0 || (leaf / m) % 2 == 1,
{
    vstd::arithmetic::div_mod::lemma_div_denominator(leaf, m, 2);
    vstd::arithmetic::div_mod::lemma_fundamental_div_mod(leaf / m, 2);
    assert(m * 2 == 2 * m);
}

/// A value of `bits` bits coded as a path through a binary tree of
/// probabilities, node 1 being the root.
#[derive(Debug)]
pub struct LengthValueCodec {
    probs: Vec<RangeEncProbability>,
    bits: u32,
}

impl LengthValueCodec {
    pub closed spec fn wf(&self) -> bool {
        &&& 1 <= self.bits <= 8
        &&& self.probs@.len() == pow2_int(self.bits as int)
        &&& probs_wf(self.probs@)
    }

    /// The number of values of the tree.
    pub closed spec fn size(&self) -> int {
        pow2_int(self.bits as int)
    }

    pub closed spec fn probs_view(&self) -> Seq<RangeEncProbability> {
        self.probs@
    }

    /// The probabilities of the tree, node 1 being the root.
    pub fn probabilities(&self) -> (r: &Vec<RangeEncProbability>)
        ensures
            r@ == self.probs_view(),
    {
        &self.probs
    }

    /// A tree for values below `2^bits`, every probability one half.
    pub fn new(bits: u32) -> (r: Self)
        requires
            1 <= bits <= 8,
        ensures
            r.wf(),
            r.size() == pow2_int(bits as int),
            r.probs_view().len() == r.size(),
            forall|i: int| 0 <= i < r.size() ==> #[trigger] r.probs_view()[i] == RangeEncProbability(PROB_INIT),
    {
        let size: u32 = pow2_u32(bits);
        LengthValueCodec { probs: new_probs(size as usize), bits }
    }

    /// Codes `symbol`, most significant bit first.
    pub fn encode_bit_tree(&mut self, enc: &mut RangeEncoder, symbol: u32)
        requires
            old(self).wf(),
            old(enc).wf(),
            (symbol as int) < old(self).size(),
        ensures
            final(self).wf(),
            final(self).size() == old(self).size(),
            final(self).probs_view() == tree_update(old(self).probs_view(), symbol + old(self).size(), old(self).size() / 2),
            final(enc).wf(),
            old(enc).emitted().is_prefix_of(final(enc).emitted()),
            final(enc).coder_view() == tree_coded(old(enc).coder_view(), old(self).probs_view(), symbol + old(self).size(),
                old(self).size() / 2),
    {
        let size: u32 = pow2_u32(self.bits);
        let mut index: u32 = 1;
        let mut m: u32 = size / 2;
        let ghost mut j: int = self.bits - 1;
        proof {
            lemma_pow2_int_step(j);
            lemma_pow2_int_mono(self.bits as int, 8);
            lemma_pow2_int_8();
        }
        let leaf: u32 = symbol + size;
        proof {
            assert(leaf as int / (2 * m as int) == 1) by (nonlinear_arith)
                requires leaf as int >= 2 * m as int, (leaf as int) < 4 * m as int, m >= 1;
        }
        while m > 0
            invariant
                self.wf(),
                self.bits == old(self).bits,
                size as int == self.size(),
                size <= 256,
                leaf == symbol + size,
                enc.wf(),
                old(enc).emitted().is_prefix_of(enc.emitted()),
                1 <= index,
                (index as int + 1) * m <= size,
                m > 0 ==> j >= 0 && m as int == pow2_int(j) && index as int == leaf as int / (2 * m as int),
                tree_update(self.probs@, leaf as int, m as int) == tree_update(old(self).probs@, leaf as int, size as int / 2),
                tree_coded(enc.coder_view(), self.probs@, leaf as int, m as int)
                    == tree_coded(old(enc).coder_view(), old(self).probs@, leaf as int, size as int / 2),
            decreases m,
        {
            let bit: u32 = (leaf / m) % 2;
            proof {
                lemma_tree_step(index as int, bit as int, m as int, j, size as int);
                lemma_tree_descend(leaf as int, m as int);
            }
            let ghost before = self.probs@;
            enc.encode_bit(&mut self.probs[index as usize], bit);
            proof {
                assert(self.probs@ == before.update(index as int, before[index as int].after_bit(bit)));
                if j > 0 {
                    j = j - 1;
                    assert(2 * (m as int / 2) == m);
                }
            }
            index = index * 2 + bit;
            m = m / 2;
        }
    }

    /// Codes `symbol`, least significant bit first.
    pub fn encode_reverse_bit_tree(&mut self, enc: &mut RangeEncoder, symbol: u32)
        requires
            old(self).wf(),
            old(enc).wf(),
            (symbol as int) < old(self).size(),
        ensures
            final(self).wf(),
            final(self).size() == old(self).size(),
            final(self).probs_view() == reverse_tree_update(old(self).probs_view(), 1, symbol as int, old(self).size() / 2),
            final(enc).wf(),
            old(enc).emitted().is_prefix_of(final(enc).emitted()),
            final(enc).coder_view() == reverse_tree_coded(old(enc).coder_view(), old(self).probs_view(), 1, symbol as int,
                old(self).size() / 2),
    {
        let size: u32 = pow2_u32(self.bits);
        let mut index: u32 = 1;
        let mut m: u32 = size / 2;
        let mut rest: u32 = symbol;
        let ghost mut j: int = self.bits - 1;
        proof {
            lemma_pow2_int_step(j);
            lemma_pow2_int_mono(self.bits as int, 8);
            lemma_pow2_int_8();
        }
        while m > 0
            invariant
                self.wf(),
                self.bits == old(self).bits,
                size as int == self.size(),
                size <= 256,
                enc.wf(),
                old(enc).emitted().is_prefix_of(enc.emitted()),
                1 <= index,
                (index as int + 1) * m <= size,
                m > 0 ==> j >= 0 && m as int == pow2_int(j),
                reverse_tree_update(self.probs@, index as int, rest as int, m as int)
                    == reverse_tree_update(old(self).probs@, 1, symbol as int, size as int / 2),
                reverse_tree_coded(enc.coder_view(), self.probs@, index as int, rest as int, m as int)
                    == reverse_tree_coded(old(enc).coder_view(), old(self).probs@, 1, symbol as int, size as int / 2),
            decreases m,
        {
            let bit: u32 = rest % 2;
            proof {
                lemma_tree_step(index as int, bit as int, m as int, j, size as int);
            }
            let ghost before = self.probs@;
            let mut p: RangeEncProbability = self.probs[index as usize];
            enc.encode_bit(&mut p, bit);
            self.probs.set(index as usize, p);
            proof {
                assert(self.probs@ == before.update(index as int, before[index as int].after_bit(bit)));
            }
            rest = rest / 2;
            proof {
                if j > 0 {
                    j = j - 1;
                }
            }
            index = index * 2 + bit;
            m = m / 2;
        }
    }

    /// Decodes a value coded most significant bit first.
    pub fn decode_bit_tree(&mut self, dec: &mut RangeDecoder) -> (r: Result<u32, LzmaError>)
        requires
            old(self).wf(),
            old(dec).wf(),
        ensures
            final(self).wf(),
            final(self).size() == old(self).size(),
            final(dec).wf(),
            r matches Ok(v) ==> (v as int) < old(self).size()
                && final(self).probs_view() == tree_update(old(self).probs_view(), v + old(self).size(), old(self).size() / 2),
            r matches Err(e) ==> e == LzmaError::UnexpectedEof && final(dec).rest().len() == 0,
            r matches Ok(v) ==> tree_decoded(old(dec).dec_view(), old(self).probs_view(), 1, old(self).size() / 2)
                == Some((v + old(self).size(), final(dec).dec_view())),
            r is Err ==> tree_decoded(old(dec).dec_view(), old(self).probs_view(), 1, old(self).size() / 2) is None,
    {
        let size: u32 = pow2_u32(self.bits);
        let mut index: u32 = 1;
        let mut m: u32 = size / 2;
        let ghost mut j: int = self.bits - 1;
        let ghost full: int = size as int / 2;
        proof {
            lemma_pow2_int_step(j);
            lemma_pow2_int_mono(self.bits as int, 8);
            lemma_pow2_int_8();
        }
        while m > 0
            invariant
                self.wf(),
                self.bits == old(self).bits,
                size as int == self.size(),
                size <= 256,
                full == size as int / 2,
                dec.wf(),
                1 <= index,
                (index as int + 1) * m <= size,
                m > 0 ==> j >= 0 && m as int == pow2_int(j),
                m == 0 ==> size <= index < 2 * size,
                m > 0 ==> index as int * (2 * m as int) >= size,
                forall|leaf: int| #![trigger tree_update(old(self).probs@, leaf, full)]
                    0 <= leaf && (if m > 0 { leaf / (2 * m as int) == index } else { leaf == index })
                    ==> tree_update(old(self).probs@, leaf, full) == tree_update(self.probs@, leaf, m as int),
                tree_decoded(dec.dec_view(), self.probs@, index as int, m as int)
                    == tree_decoded(old(dec).dec_view(), old(self).probs@, 1, full),
            decreases m,
        {
            proof {
                lemma_tree_step(index as int, 0, m as int, j, size as int);
            }
            let ghost before = self.probs@;
            let ghost old_index = index;
            let ghost old_m = m;
            let b: u32 = match dec.decode_bit(&mut self.probs[index as usize]) {
                Ok(b) => b,
                Err(e) => { return Err(e); },
            };
            proof {
                lemma_tree_step(index as int, b as int, m as int, j, size as int);
                if j > 0 {
                    j = j - 1;
                    assert(2 * (m as int / 2) == m);
                }
            }
            index = index * 2 + b;
            m = m / 2;
            proof {
                assert forall|leaf: int| #![trigger tree_update(old(self).probs@, leaf, full)]
                    0 <= leaf && (if m > 0 { leaf / (2 * m as int) == index } else { leaf == index })
                    implies tree_update(old(self).probs@, leaf, full) == tree_update(self.probs@, leaf, m as int) by {
                    lemma_tree_descend(leaf, old_m as int);
                    if m > 0 {
                        assert(2 * (m as int) == old_m);
                        assert(leaf / (2 * m as int) == leaf / (old_m as int));
                    } else {
                        assert(old_m == 1);
                        assert(leaf / 1 == leaf);
                    }
                    assert(leaf / old_m as int == index);
                    assert(leaf / (2 * old_m as int) == old_index);
                    assert((leaf / old_m as int) % 2 == b);
                    assert(self.probs@ == before.update(old_index as int, before[old_index as int].after_bit(b)));
                }
                if m == 0 {
                    assert(old_m == 1);
                } else {
                    assert(index as int * (2 * m as int) >= size) by (nonlinear_arith)
                        requires index == 2 * old_index + b, old_index * (2 * old_m) >= size, old_m == 2 * m, b >= 0;
                }
            }
        }
        proof {
            assert(tree_update(old(self).probs@, index as int, full) == tree_update(self.probs@, index as int, 0));
        }
        Ok(index - size)
    }

    /// Decodes a value coded least significant bit first.
    pub fn decode_reverse_bit_tree(&mut self, dec: &mut RangeDecoder) -> (r: Result<u32, LzmaError>)
        requires
            old(self).wf(),
            old(dec).wf(),
        ensures
            final(self).wf(),
            final(self).size() == old(self).size(),
            final(dec).wf(),
            r matches Ok(v) ==> (v as int) < old(self).size()
                && final(self).probs_view() == reverse_tree_update(old(self).probs_view(), 1, v as int, old(self).size() / 2),
            r matches Err(e) ==> e == LzmaError::UnexpectedEof && final(dec).rest().len() == 0,
            r matches Ok(v) ==> reverse_tree_decoded(old(dec).dec_view(), old(self).probs_view(), 1, old(self).size() / 2, 1, 0)
                == Some((v as int, final(dec).dec_view())),
            r is Err ==> reverse_tree_decoded(old(dec).dec_view(), old(self).probs_view(), 1, old(self).size() / 2, 1, 0) is None,
    {
        let size: u32 = pow2_u32(self.bits);
        let mut index: u32 = 1;
        let mut m: u32 = size / 2;
        let mut bit_value: u32 = 1;
        let mut result: u32 = 0;
        let ghost mut j: int = self.bits - 1;
        let ghost full: int = size as int / 2;
        proof {
            lemma_pow2_int_step(j);
            lemma_pow2_int_mono(self.bits as int, 8);
            lemma_pow2_int_8();
        }
        while m > 0
            invariant
                self.wf(),
                self.bits == old(self).bits,
                size as int == self.size(),
                size <= 256,
                full == size as int / 2,
                dec.wf(),
                1 <= index,
                (index as int + 1) * m <= size,
                m > 0 ==> j >= 0 && m as int == pow2_int(j),
                result < bit_value,
                bit_value >= 1,
                bit_value * (2 * m as int) == size || (m == 0 && bit_value == size),
                forall|s: int| #![trigger reverse_tree_update(old(self).probs@, 1, s, full)]
                    0 <= s && s % (bit_value as int) == result
                    ==> reverse_tree_update(old(self).probs@, 1, s, full)
                        == reverse_tree_update(self.probs@, index as int, s / (bit_value as int), m as int),
                reverse_tree_decoded(dec.dec_view(), self.probs@, index as int, m as int, bit_value as int, result as int)
                    == reverse_tree_decoded(old(dec).dec_view(), old(self).probs@, 1, full, 1, 0),
            decreases m,
        {
            proof {
                lemma_tree_step(index as int, 0, m as int, j, size as int);
            }
            let ghost before = self.probs@;
            let ghost old_index = index;
            let ghost old_bv: int = bit_value as int;
            let ghost old_result: int = result as int;
            let ghost old_m = m;
            let b: u32 = match dec.decode_bit(&mut self.probs[index as usize]) {
                Ok(b) => b,
                Err(e) => { return Err(e); },
            };
            proof {
                lemma_tree_step(index as int, b as int, m as int, j, size as int);
                lemma_bit_value_step(bit_value as int, m as int, j, size as int);
                if j > 0 {
                    j = j - 1;
                }
                assert(bit_value as int * 2 <= size) by (nonlinear_arith)
                    requires bit_value as int * (2 * m as int) == size as int, m >= 1;
                assert(b as int * bit_value as int <= bit_value as int) by (nonlinear_arith)
                    requires b <= 1;
            }
            index = index * 2 + b;
            result = result + b * bit_value;
            bit_value = bit_value * 2;
            m = m / 2;
            proof {
                assert forall|s: int| #![trigger reverse_tree_update(old(self).probs@, 1, s, full)]
                    0 <= s && s % (bit_value as int) == result
                    implies reverse_tree_update(old(self).probs@, 1, s, full)
                        == reverse_tree_update(self.probs@, index as int, s / (bit_value as int), m as int) by {
                    vstd::arithmetic::div_mod::lemma_mod_breakdown(s, old_bv, 2);
                    vstd::arithmetic::div_mod::lemma_div_denominator(s, old_bv, 2);
                    vstd::arithmetic::div_mod::lemma_fundamental_div_mod(s / old_bv, 2);
                    assert(bit_value as int == old_bv * 2);
                    let q = s / old_bv;
                    let bi: int = b as int;
                    let lo: int = s % old_bv;
                    let hi: int = q % 2;
                    assert(lo == old_result && hi == bi) by (nonlinear_arith)
                        requires s % (old_bv * 2) == old_bv * hi + lo, lo < old_bv,
                            lo >= 0, s % (old_bv * 2) == old_result + bi * old_bv, old_result < old_bv,
                            old_result >= 0, hi == 0 || hi == 1, bi == 0 || bi == 1, old_bv >= 1;
                    assert(self.probs@ == before.update(old_index as int, before[old_index as int].after_bit(b)));
                }
            }
        }
        proof {
            vstd::arithmetic::div_mod::lemma_small_mod(result as nat, bit_value as nat);
            vstd::arithmetic::div_mod::lemma_basic_div(result as int, bit_value as int);
        }
        Ok(result)
    }

    /// The price of coding `symbol` most significant bit first.
    pub fn get_bit_tree_price(&self, symbol: u32) -> (r: RangeEncPrice)
        requires
            self.wf(),
            (symbol as int) < self.size(),
        ensures
            r.0 as int == path_price(self.probs_view(), 0, symbol + self.size()),
    {
        proof {
            lemma_pow2_int_mono(self.bits as int, 8);
            lemma_pow2_int_8();
        }
        let size: u32 = pow2_u32(self.bits);
        let mut node: u32 = symbol + size;
        let mut price: RangeEncPrice = RangeEncPrice::zero();
        while node > 1
            invariant
                self.wf(),
                1 <= node < 2 * size,
                size as int == self.size(),
                price.0 <= INFINITY_PRICE,
                path_price(self.probs@, price.0 as int, node as int)
                    == path_price(self.probs@, 0, symbol + self.size()),
            decreases node,
        {
            let bit: u32 = node % 2;
            node = node / 2;
            price = price.add(self.probs[node as usize].get_bit_price(bit));
        }
        price
    }

    /// The price of coding `symbol` least significant bit first.
    pub fn get_reverse_bit_tree_price(&self, symbol: u32) -> (r: RangeEncPrice)
        requires
            self.wf(),
            (symbol as int) < self.size(),
        ensures
            r.0 as int == reverse_path_price(self.probs_view(), 0, 1, symbol as int, self.size() / 2),
    {
        let size: u32 = pow2_u32(self.bits);
        let mut index: u32 = 1;
        let mut m: u32 = size / 2;
        let mut rest: u32 = symbol;
        let mut price: RangeEncPrice = RangeEncPrice::zero();
        let ghost mut j: int = self.bits - 1;
        proof {
            lemma_pow2_int_step(j);
            lemma_pow2_int_mono(self.bits as int, 8);
            lemma_pow2_int_8();
        }
        while m > 0
            invariant
                self.wf(),
                size as int == self.size(),
                size <= 256,
                1 <= index,
                (index as int + 1) * m <= size,
                m > 0 ==> j >= 0 && m as int == pow2_int(j),
                price.0 <= INFINITY_PRICE,
                reverse_path_price(self.probs@, price.0 as int, index as int, rest as int, m as int)
                    == reverse_path_price(self.probs@, 0, 1, symbol as int, size as int / 2),
            decreases m,
        {
            let bit: u32 = rest % 2;
            proof {
                lemma_tree_step(index as int, bit as int, m as int, j, size as int);
            }
            price = price.add(self.probs[index as usize].get_bit_price(bit));
            proof {
                if j > 0 {
                    j = j - 1;
                }
            }
            rest = rest / 2;
            index = index * 2 + bit;
            m = m / 2;
        }
        price
    }
}

/// A step down the tree keeps the node inside it: with `m` a power of two,
/// `(index + 1) * m <= size` carries over to the child and `m / 2`.
proof fn lemma_tree_step(index: int, bit: int, m: int, j: int, size: int)
    requires
        1 <= index,
        0 <= bit <= 1,
        m > 0,
        j >= 0,
        m == pow2_int(j),
        (index + 1) * m <= size,
    ensures
        index < size,
        (2 * index + bit + 1) * (m / 2) <= size,
        m / 2 > 0 ==> j - 1 >= 0 && m / 2 == pow2_int(j - 1),
{
    assert(index * m >= index) by (nonlinear_arith)
        requires m >= 1, index >= 1;
    assert((index + 1) * m == index * m + m) by (nonlinear_arith);
    if j >= 1 {
        lemma_pow2_int_step(j - 1);
        let h = pow2_int(j - 1);
        assert(m / 2 == h);
        assert((2 * index + bit + 1) * h <= (2 * index + 2) * h) by (nonlinear_arith)
            requires bit <= 1, h >= 0;
        assert((2 * index + 2) * h == (index + 1) * m) by (nonlinear_arith)
            requires m == 2 * h;
        assert((2 * index + bit + 1) * (m / 2) <= size);
    } else {
        assert(pow2_int(0) == 1);
        assert(m == 1);
        assert(m / 2 == 0);
        assert((2 * index + bit + 1) * (m / 2) == 0) by (nonlinear_arith)
            requires m / 2 == 0;
        assert(size >= 0);
    }
}

proof fn lemma_bit_value_step(bv: int, m: int, j: int, size: int)
    requires
        m > 0,
        j >= 0,
        m == pow2_int(j),
        bv * (2 * m) == size,
    ensures
        (bv * 2) * (2 * (m / 2)) == size || (m / 2 == 0 && bv * 2 == size),
{
    if j >= 1 {
        lemma_pow2_int_step(j - 1);
        assert((bv * 2) * (2 * (m / 2)) == bv * (2 * m)) by (nonlinear_arith)
            requires m == 2 * (m / 2);
    } else {
        assert(m == 1);
    }
}

pub proof fn lemma_pow2_int_8()
    ensures
        pow2_int(8) == 256,
{
    reveal_with_fuel(pow2_int, 9);
}

/// The tables of one `pos_state`: the low and mid length trees.
#[derive(Debug)]
pub struct LengthCodecPosState {
    low: LengthValueCodec,
    mid: LengthValueCodec,
}

impl LengthCodecPosState {
    pub closed spec fn wf(&self) -> bool {
        &&& self.low.wf()
        &&& self.low.size() == 8
        &&& self.mid.wf()
        &&& self.mid.size() == 8
    }

    /// Both trees are at their starting probabilities.
    pub closed spec fn initial(&self) -> bool {
        all_initial(self.low.probs_view()) && all_initial(self.mid.probs_view())
    }

    pub fn new() -> (r: Self)
        ensures
            r.wf(),
            r.initial(),
    {
        proof {
            lemma_pow2_int_step(2);
            lemma_pow2_int_step(1);
            lemma_pow2_int_step(0);
        }
        LengthCodecPosState { low: LengthValueCodec::new(LOW_LENGTH_BITS), mid: LengthValueCodec::new(MID_LENGTH_BITS) }
    }
}

/// Every probability of `p` is at its starting value, one half.
pub open spec fn all_initial(p: Seq<RangeEncProbability>) -> bool {
    forall|i: int| 0 <= i < p.len() ==> #[trigger] p[i] == RangeEncProbability(PROB_INIT)
}

/// The cached prices of every length under one `pos_state`.
#[derive(Debug)]
pub struct LengthCodecPosStatePrice {
    /// Lengths left to code before the prices are refreshed.
    pub counter: i32,
    /// The price of length `i + 2` at index `i`.
    pub prices: Vec<RangeEncPrice>,
}

impl LengthCodecPosStatePrice {
    pub fn new(nice_len: u32) -> (r: Self)
        ensures
            r.prices@.len() == nice_len,
            r.counter == 0,
    {
        let mut prices: Vec<RangeEncPrice> = Vec::new();
        let mut i: u32 = 0;
        while i < nice_len
            invariant
                i <= nice_len,
                prices@.len() == i,
            decreases nice_len - i,
        {
            prices.push(RangeEncPrice::zero());
            i = i + 1;
        }
        LengthCodecPosStatePrice { counter: 0, prices }
    }
}

/// The probabilities of the three-tier length code: lengths 2 to 9 (low),
/// 10 to 17 (mid) and 18 to 273 (high); low and mid per `pos_state`.
#[derive(Debug)]
pub struct LengthCodec {
    first_bit: RangeEncProbability,
    second_bit: RangeEncProbability,
    pos_states: Vec<LengthCodecPosState>,
    high: LengthValueCodec,
}

impl LengthCodec {
    pub closed spec fn wf(&self) -> bool {
        &&& self.first_bit.wf()
        &&& self.second_bit.wf()
        &&& 1 <= self.pos_states@.len() <= POS_STATES_MAX
        &&& forall|i: int| 0 <= i < self.pos_states@.len() ==> (#[trigger] self.pos_states@[i]).wf()
        &&& self.high.wf()
        &&& self.high.size() == 256
    }

    /// The number of `pos_state` tables.
    pub closed spec fn num_pos_states(&self) -> int {
        self.pos_states@.len() as int
    }

    /// Every probability is at its starting value.
    pub closed spec fn initial(&self) -> bool {
        &&& self.first_bit == RangeEncProbability(PROB_INIT)
        &&& self.second_bit == RangeEncProbability(PROB_INIT)
        &&& forall|i: int| 0 <= i < self.pos_states@.len() ==> (#[trigger] self.pos_states@[i]).initial()
        &&& all_initial(self.high.probs_view())
    }

    pub fn new(pb: u32) -> (r: Self)
        requires
            pb <= 4,
        ensures
            r.wf(),
            r.num_pos_states() == pow2_int(pb as int),
            r.initial(),
    {
        let count: u32 = pow2_u32(pb);
        proof {
            lemma_pow2_int_mono(pb as int, 4);
            reveal_with_fuel(pow2_int, 5);
            reveal_with_fuel(pow2_int, 9);
        }
        let mut pos_states: Vec<LengthCodecPosState> = Vec::new();
        let mut i: u32 = 0;
        while i < count
            invariant
                i <= count <= 16,
                pos_states@.len() == i,
                forall|k: int| 0 <= k < i ==> (#[trigger] pos_states@[k]).wf(),
                forall|k: int| 0 <= k < i ==> (#[trigger] pos_states@[k]).initial(),
            decreases count - i,
        {
            pos_states.push(LengthCodecPosState::new());
            i = i + 1;
        }
        LengthCodec {
            first_bit: RangeEncProbability::new(),
            second_bit: RangeEncProbability::new(),
            pos_states,
            high: LengthValueCodec::new(HIGH_LENGTH_BITS),
        }
    }
}

/// `a` is `b` after coding length `len` under `pos_state` `ps`: the choice
/// bits of its tier adapt, and so does the path to it in that tier's tree;
/// nothing else changes.
pub closed spec fn length_coded(b: LengthCodec, a: LengthCodec, len: int, ps: int) -> bool {
    let l = len - 2;
    let bl = b.pos_states@[ps];
    let al = a.pos_states@[ps];
    &&& a.pos_states@.len() == b.pos_states@.len()
    &&& forall|q: int| 0 <= q < b.pos_states@.len() && q != ps ==> #[trigger] a.pos_states@[q] == b.pos_states@[q]
    &&& if l < 8 {
        &&& a.first_bit == b.first_bit.after_bit(0)
        &&& a.second_bit == b.second_bit
        &&& a.high == b.high
        &&& al.mid == bl.mid
        &&& al.low.bits == bl.low.bits
        &&& al.low.probs_view() == tree_update(bl.low.probs_view(), l + 8, 4)
    } else if l < 16 {
        &&& a.first_bit == b.first_bit.after_bit(1)
        &&& a.second_bit == b.second_bit.after_bit(0)
        &&& a.high == b.high
        &&& al.low == bl.low
        &&& al.mid.bits == bl.mid.bits
        &&& al.mid.probs_view() == tree_update(bl.mid.probs_view(), l - 8 + 8, 4)
    } else {
        &&& a.first_bit == b.first_bit.after_bit(1)
        &&& a.second_bit == b.second_bit.after_bit(1)
        &&& al == bl
        &&& a.high.bits == b.high.bits
        &&& a.high.probs_view() == tree_update(b.high.probs_view(), l - 16 + 256, 128)
    }
}

/// The range encoder's state after coding length `len` under `pos_state`
/// `ps` from `st`: the choice bits of its tier, then its path in that
/// tier's tree.
pub closed spec fn length_enc_coded(st: (Seq<u8>, int, u64, int), c: LengthCodec, len: int, ps: int)
    -> (Seq<u8>, int, u64, int)
{
    let l = len - 2;
    let ls = c.pos_states@[ps];
    if l < 8 {
        tree_coded(enc_bit(st, c.first_bit, 0), ls.low.probs_view(), l + 8, 4)
    } else if l < 16 {
        tree_coded(enc_bit(enc_bit(st, c.first_bit, 1), c.second_bit, 0), ls.mid.probs_view(), l - 8 + 8, 4)
    } else {
        tree_coded(enc_bit(enc_bit(st, c.first_bit, 1), c.second_bit, 1), c.high.probs_view(), l - 16 + 256, 128)
    }
}

/// The length read under `pos_state` `ps` from decoder state `d` and the
/// state after it; `None` when the stream ends first.
pub closed spec fn length_decoded(d: (int, int, Seq<u8>), c: LengthCodec, ps: int) -> Option<(int, (int, int, Seq<u8>))> {
    let ls = c.pos_states@[ps];
    match dec_bit(d, c.first_bit) {
        None => None,
        Some((b1, d1)) => if b1 == 0 {
            match tree_decoded(d1, ls.low.probs_view(), 1, 4) {
                None => None,
                Some((leaf, d2)) => Some((leaf - 8 + 2, d2)),
            }
        } else {
            match dec_bit(d1, c.second_bit) {
                None => None,
                Some((b2, d2)) => if b2 == 0 {
                    match tree_decoded(d2, ls.mid.probs_view(), 1, 4) {
                        None => None,
                        Some((leaf, d3)) => Some((leaf - 8 + 10, d3)),
                    }
                } else {
                    match tree_decoded(d2, c.high.probs_view(), 1, 128) {
                        None => None,
                        Some((leaf, d3)) => Some((leaf - 256 + 18, d3)),
                    }
                },
            }
        },
    }
}

/// The probabilities of a length codec, table by table: choice bits, then
/// for each `pos_state` its low and mid trees, then the high tree.
pub closed spec fn length_tables_equal(a: LengthCodec, b: LengthCodec) -> bool {
    &&& a.first_bit == b.first_bit
    &&& a.second_bit == b.second_bit
    &&& a.pos_states@.len() == b.pos_states@.len()
    &&& forall|q: int| 0 <= q < a.pos_states@.len() ==> (#[trigger] a.pos_states@[q]).low.probs_view()
        == b.pos_states@[q].low.probs_view() && a.pos_states@[q].mid.probs_view() == b.pos_states@[q].mid.probs_view()
    &&& a.high.probs_view() == b.high.probs_view()
}

/// An encoder and a decoder that start from the same length tables and code
/// the same length under the same `pos_state` end with the same tables.
pub proof fn lemma_length_tables_lockstep(enc_before: LengthCodec, dec_before: LengthCodec, enc_after: LengthCodec, dec_after: LengthCodec, len: int, ps: int)
    requires
        length_tables_equal(enc_before, dec_before),
        0 <= ps < enc_before.num_pos_states(),
        length_coded(enc_before, enc_after, len, ps),
        length_coded(dec_before, dec_after, len, ps),
    ensures
        length_tables_equal(enc_after, dec_after),
{
    assert forall|q: int| 0 <= q < enc_after.pos_states@.len() implies (#[trigger] enc_after.pos_states@[q]).low.probs_view()
        == dec_after.pos_states@[q].low.probs_view() && enc_after.pos_states@[q].mid.probs_view()
        == dec_after.pos_states@[q].mid.probs_view() by {
        if q != ps {
            assert(enc_after.pos_states@[q] == enc_before.pos_states@[q]);
            assert(dec_after.pos_states@[q] == dec_before.pos_states@[q]);
        }
    }
}

/// Length encoder with per-`pos_state` price caches.
pub struct LengthCodecEncoder {
    codec: LengthCodec,
    pos_state_prices: Vec<LengthCodecPosStatePrice>,
}

impl LengthCodecEncoder {
    pub closed spec fn wf(&self) -> bool {
        &&& self.codec.wf()
        &&& self.pos_state_prices@.len() == self.codec.pos_states@.len()
        &&& 2 <= self.nice_len() <= MAX_NICE_LEN
        &&& forall|i: int| 0 <= i < self.pos_state_prices@.len()
            ==> (#[trigger] self.pos_state_prices@[i]).prices@.len() == self.nice_len()
    }

    /// The number of cached prices per `pos_state`.
    pub closed spec fn nice_len(&self) -> int {
        self.pos_state_prices@[0].prices@.len() as int
    }

    pub closed spec fn num_pos_states(&self) -> int {
        self.codec.pos_states@.len() as int
    }

    pub closed spec fn codec_view(&self) -> LengthCodec {
        self.codec
    }

    /// Lengths left to code under `ps` before its prices are refreshed.
    pub closed spec fn counter(&self, ps: int) -> int {
        self.pos_state_prices@[ps].counter as int
    }

    /// The price of length `i + 2` under `pos_state` from the current
    /// probabilities: the choice bits of its tier plus its path in that
    /// tier's tree.
    pub closed spec fn length_price_spec(&self, pos_state: int, i: int) -> int {
        let c = self.codec;
        let first0 = RangeEncPrice::bit_price(c.first_bit, 0).0 as int;
        let first1 = RangeEncPrice::bit_price(c.first_bit, 1).0 as int;
        let second0 = RangeEncPrice::bit_price(c.second_bit, 0).0 as int;
        let second1 = RangeEncPrice::bit_price(c.second_bit, 1).0 as int;
        if i < 8 {
            sat_add(first0, path_price(c.pos_states@[pos_state].low.probs_view(), 0, i + 8))
        } else if i < 16 {
            sat_add(sat_add(first1, second0), path_price(c.pos_states@[pos_state].mid.probs_view(), 0, i - 8 + 8))
        } else if i < 272 {
            sat_add(sat_add(first1, second1), path_price(c.high.probs_view(), 0, i - 16 + 256))
        } else {
            INFINITY_PRICE as int
        }
    }

    /// The cached price of length `len` under `pos_state`.
    pub closed spec fn price_of(&self, len: int, pos_state: int) -> RangeEncPrice {
        self.pos_state_prices@[pos_state].prices@[len - 2]
    }

    pub fn new(pb: u32, nice_len: u32) -> (r: Self)
        requires
            pb <= 4,
            2 <= nice_len <= MAX_NICE_LEN,
        ensures
            r.wf(),
            r.num_pos_states() == pow2_int(pb as int),
            r.nice_len() == nice_len,
            r.codec_view().initial(),
    {
        let codec: LengthCodec = LengthCodec::new(pb);
        let count: u32 = pow2_u32(pb);
        let mut pos_state_prices: Vec<LengthCodecPosStatePrice> = Vec::new();
        let mut i: u32 = 0;
        while i < count
            invariant
                i <= count,
                count as int == codec.pos_states@.len(),
                pos_state_prices@.len() == i,
                forall|k: int| 0 <= k < i ==> (#[trigger] pos_state_prices@[k]).prices@.len() == nice_len,
            decreases count - i,
        {
            pos_state_prices.push(LengthCodecPosStatePrice::new(nice_len));
            i = i + 1;
        }
        LengthCodecEncoder { codec, pos_state_prices }
    }

    /// Codes the match length `len` under `pos_state`.
    pub fn encode(&mut self, enc: &mut RangeEncoder, len: u32, pos_state: u32)
        requires
            old(self).wf(),
            old(enc).wf(),
            MATCH_LEN_MIN <= len <= MATCH_LEN_MAX,
            (pos_state as int) < old(self).num_pos_states(),
        ensures
            final(self).wf(),
            final(self).nice_len() == old(self).nice_len(),
            final(self).num_pos_states() == old(self).num_pos_states(),
            length_coded(old(self).codec_view(), final(self).codec_view(), len as int, pos_state as int),
            final(self).counter(pos_state as int) == (if old(self).counter(pos_state as int) > i32::MIN {
                old(self).counter(pos_state as int) - 1
            } else {
                old(self).counter(pos_state as int)
            }),
            forall|q: int, l: int| 0 <= q < old(self).num_pos_states() ==> #[trigger] final(self).price_of(l, q)
                == old(self).price_of(l, q),
            forall|q: int| 0 <= q < old(self).num_pos_states() && q != pos_state ==> #[trigger] final(self).counter(q)
                == old(self).counter(q),
            final(enc).wf(),
            old(enc).emitted().is_prefix_of(final(enc).emitted()),
            final(enc).coder_view() == length_enc_coded(old(enc).coder_view(), old(self).codec_view(), len as int,
                pos_state as int),
    {
        let ps: usize = pos_state as usize;
        let mut l: u32 = len - MATCH_LEN_MIN as u32;
        proof {
            reveal_with_fuel(pow2_int, 9);
        }
        if self.pos_state_prices[ps].counter > i32::MIN {
            self.pos_state_prices[ps].counter = self.pos_state_prices[ps].counter - 1;
        }
        if l < LOW_LENGTH_MAX as u32 {
            enc.encode_bit(&mut self.codec.first_bit, 0);
            self.codec.pos_states[ps].low.encode_bit_tree(enc, l);
            return;
        }
        enc.encode_bit(&mut self.codec.first_bit, 1);
        l = l - LOW_LENGTH_MAX as u32;
        if l < MID_LENGTH_MAX as u32 {
            enc.encode_bit(&mut self.codec.second_bit, 0);
            self.codec.pos_states[ps].mid.encode_bit_tree(enc, l);
            return;
        }
        enc.encode_bit(&mut self.codec.second_bit, 1);
        self.codec.high.encode_bit_tree(enc, l - MID_LENGTH_MAX as u32);
    }

    /// The cached price of length `len` under `pos_state`.
    pub fn get_price(&self, len: usize, pos_state: usize) -> (r: RangeEncPrice)
        requires
            self.wf(),
            MATCH_LEN_MIN <= len,
            len - MATCH_LEN_MIN < self.nice_len(),
            pos_state < self.num_pos_states(),
        ensures
            r == self.price_of(len as int, pos_state as int),
    {
        self.pos_state_prices[pos_state].prices[len - MATCH_LEN_MIN]
    }

    /// Refreshes the prices of every `pos_state` whose counter ran out.
    pub fn update_prices(&mut self)
        requires
            old(self).wf(),
        ensures
            final(self).wf(),
            final(self).nice_len() == old(self).nice_len(),
            final(self).num_pos_states() == old(self).num_pos_states(),
            final(self).codec_view() == old(self).codec_view(),
    {
        let n: usize = self.pos_state_prices.len();
        let mut ps: usize = 0;
        while ps < n
            invariant
                self.wf(),
                n == self.pos_state_prices@.len(),
                self.nice_len() == old(self).nice_len(),
                self.num_pos_states() == old(self).num_pos_states(),
                self.codec_view() == old(self).codec_view(),
            decreases n - ps,
        {
            if self.pos_state_prices[ps].counter <= 0 {
                self.pos_state_prices[ps].counter = PRICE_UPDATE_INTERVAL;
                self.update_prices_with_state(ps);
            }
            ps = ps + 1;
        }
    }

    /// Recomputes every cached length price of `pos_state` from the current
    /// probabilities.
    pub fn update_prices_with_state(&mut self, pos_state: usize)
        requires
            old(self).wf(),
            pos_state < old(self).num_pos_states(),
        ensures
            final(self).wf(),
            final(self).nice_len() == old(self).nice_len(),
            final(self).num_pos_states() == old(self).num_pos_states(),
            forall|i: int| 0 <= i < final(self).nice_len()
                ==> (#[trigger] final(self).price_of(i + 2, pos_state as int)).0 == final(self).length_price_spec(pos_state as int, i),
            forall|ps: int, len: int| 0 <= ps < final(self).num_pos_states() && ps != pos_state
                ==> #[trigger] final(self).price_of(len, ps) == old(self).price_of(len, ps),
            final(self).codec_view() == old(self).codec_view(),
    {
        let n: usize = self.pos_state_prices[pos_state].prices.len();
        let first0: RangeEncPrice = self.codec.first_bit.get_bit_price(0);
        let first1: RangeEncPrice = self.codec.first_bit.get_bit_price(1);
        let second0: RangeEncPrice = self.codec.second_bit.get_bit_price(0);
        let second1: RangeEncPrice = self.codec.second_bit.get_bit_price(1);
        let mut i: usize = 0;
        while i < n
            invariant
                self.wf(),
                self.codec == old(self).codec,
                pos_state < self.pos_state_prices@.len(),
                n == self.pos_state_prices@[pos_state as int].prices@.len(),
                self.nice_len() == old(self).nice_len(),
                self.num_pos_states() == old(self).num_pos_states(),
                i <= n,
                first0 == RangeEncPrice::bit_price(self.codec.first_bit, 0),
                first1 == RangeEncPrice::bit_price(self.codec.first_bit, 1),
                second0 == RangeEncPrice::bit_price(self.codec.second_bit, 0),
                second1 == RangeEncPrice::bit_price(self.codec.second_bit, 1),
                forall|k: int| 0 <= k < i
                    ==> (#[trigger] self.pos_state_prices@[pos_state as int].prices@[k]).0 == self.length_price_spec(pos_state as int, k),
                forall|ps: int| 0 <= ps < self.pos_state_prices@.len() && ps != pos_state
                    ==> #[trigger] self.pos_state_prices@[ps] == old(self).pos_state_prices@[ps],
            decreases n - i,
        {
            let price: RangeEncPrice = if i < LOW_LENGTH_MAX {
                first0.add(self.codec.pos_states[pos_state].low.get_bit_tree_price(i as u32))
            } else if i < LOW_LENGTH_MAX + MID_LENGTH_MAX {
                first1.add(second0).add(
                    self.codec.pos_states[pos_state].mid.get_bit_tree_price((i - LOW_LENGTH_MAX) as u32),
                )
            } else if i < LOW_LENGTH_MAX + MID_LENGTH_MAX + HIGH_LENGTH_MAX {
                first1.add(second1).add(
                    self.codec.high.get_bit_tree_price((i - LOW_LENGTH_MAX - MID_LENGTH_MAX) as u32),
                )
            } else {
                RangeEncPrice::infinity()
            };
            proof {
                assert(price.0 == self.length_price_spec(pos_state as int, i as int));
            }
            let ghost before = self.pos_state_prices@;
            self.pos_state_prices[pos_state].prices.set(i, price);
            proof {
                assert(self.pos_state_prices@.len() == before.len());
                assert(self.pos_state_prices@[pos_state as int].prices@ == before[pos_state as int].prices@.update(i as int, price));
                assert(forall|q: int| 0 <= q < before.len() && q != pos_state ==> self.pos_state_prices@[q] == before[q]);
                assert forall|k: int| 0 <= k < i + 1
                    implies (#[trigger] self.pos_state_prices@[pos_state as int].prices@[k]).0 == self.length_price_spec(pos_state as int, k) by {
                    if k < i {
                        assert(self.pos_state_prices@[pos_state as int].prices@[k] == before[pos_state as int].prices@[k]);
                    }
                }
            }
            i = i + 1;
        }
        proof {
            assert forall|k: int| 0 <= k < self.nice_len()
                implies (#[trigger] self.price_of(k + 2, pos_state as int)).0 == self.length_price_spec(pos_state as int, k) by {
                assert(self.price_of(k + 2, pos_state as int) == self.pos_state_prices@[pos_state as int].prices@[k]);
            }
            assert forall|ps: int, len: int| 0 <= ps < self.num_pos_states() && ps != pos_state
                implies #[trigger] self.price_of(len, ps) == old(self).price_of(len, ps) by {
                assert(self.pos_state_prices@[ps] == old(self).pos_state_prices@[ps]);
            }
        }
    }
}

/// Length decoder.
pub struct LengthCodecDecoder {
    codec: LengthCodec,
}

impl LengthCodecDecoder {
    pub closed spec fn wf(&self) -> bool {
        self.codec.wf()
    }

    pub closed spec fn num_pos_states(&self) -> int {
        self.codec.pos_states@.len() as int
    }

    pub closed spec fn codec_view(&self) -> LengthCodec {
        self.codec
    }

    pub fn new(pb: u32) -> (r: Self)
        requires
            pb <= 4,
        ensures
            r.wf(),
            r.num_pos_states() == pow2_int(pb as int),
            r.codec_view().initial(),
    {
        LengthCodecDecoder { codec: LengthCodec::new(pb) }
    }

    /// Decodes a match length under `pos_state`.
    pub fn decode(&mut self, dec: &mut RangeDecoder, pos_state: u32) -> (r: Result<u32, LzmaError>)
        requires
            old(self).wf(),
            old(dec).wf(),
            (pos_state as int) < old(self).num_pos_states(),
        ensures
            final(self).wf(),
            final(self).num_pos_states() == old(self).num_pos_states(),
            final(dec).wf(),
            r matches Ok(l) ==> MATCH_LEN_MIN <= l <= MATCH_LEN_MAX,
            r matches Ok(l) ==> length_coded(old(self).codec_view(), final(self).codec_view(), l as int, pos_state as int),
            r matches Err(e) ==> e == LzmaError::UnexpectedEof && final(dec).rest().len() == 0,
            r matches Ok(l) ==> length_decoded(old(dec).dec_view(), old(self).codec_view(), pos_state as int)
                == Some((l as int, final(dec).dec_view())),
            r is Err ==> length_decoded(old(dec).dec_view(), old(self).codec_view(), pos_state as int) is None,
    {
        let ps: usize = pos_state as usize;
        proof {
            reveal_with_fuel(pow2_int, 9);
        }
        if dec.decode_bit(&mut self.codec.first_bit)? == 0 {
            let v: u32 = self.codec.pos_states[ps].low.decode_bit_tree(dec)?;
            return Ok(v + MATCH_LEN_MIN as u32);
        }
        if dec.decode_bit(&mut self.codec.second_bit)? == 0 {
            let v: u32 = self.codec.pos_states[ps].mid.decode_bit_tree(dec)?;
            return Ok(v + (MATCH_LEN_MIN + LOW_LENGTH_MAX) as u32);
        }
        let v: u32 = self.codec.high.decode_bit_tree(dec)?;
        Ok(v + (MATCH_LEN_MIN + LOW_LENGTH_MAX + MID_LENGTH_MAX) as u32)
    }
}

} // verus!
