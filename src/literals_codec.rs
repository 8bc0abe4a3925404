//! Coding of literal bytes: 768 probabilities per context, in a normal and
//! a "matched" mode guided by the byte at the last match distance.

use vstd::prelude::*;
use crate::error::LzmaError;
use crate::length_codec::{tree_update, lemma_tree_descend, sat_add, tree_coded, tree_decoded};
use crate::range_codec::{
    RangeEncProbability, RangeEncPrice, RangeEncoder, RangeDecoder, probs_wf, new_probs, pow2_int,
    pow2_u32, lemma_pow2_int_mono, lemma_pow2_int_step, INFINITY_PRICE, enc_bit, dec_bit,
};

verus! {

/// `offset` is 0 or 0x100, and so is its conjunction with anything.
proof fn lemma_offset_mask(offset: u32, x: u32)
    requires
        offset == 0 || offset == 0x100,
    ensures
        (x & offset) == 0 || (x & offset) == offset,
        (offset & x) == 0 || (offset & x) == offset,
{
    assert((offset == 0 || offset == 0x100) ==> ((x & offset) == 0 || (x & offset) == offset)) by (bit_vector);
    assert((offset == 0 || offset == 0x100) ==> ((offset & x) == 0 || (offset & x) == offset)) by (bit_vector);
}

/// The node of a literal's first-bank tree `m` levels above `leaf` is inside
/// the bank.
proof fn lemma_literal_node(leaf: int, m: int)
    requires
        0x100 <= leaf < 0x200,
        m >= 1,
    ensures
        1 <= leaf / (2 * m) < 0x100 || m > 0x80,
{
    assert(leaf / (2 * m) < 0x100) by (nonlinear_arith)
        requires leaf < 0x200, m >= 1;
    if m <= 0x80 {
        assert(leaf / (2 * m) >= 1) by (nonlinear_arith)
            requires leaf >= 0x100, 1 <= m <= 0x80;
    }
}

/// The probabilities after coding the literal whose tree leaf is `leaf`
/// (the byte plus 0x100) from `m` levels above it, while the match byte's
/// leaf `mleaf` selects the bank: banks 2 and 3 by the match bit as long as
/// all bits so far equalled the match byte's (`same`), bank 1 after the
/// first difference.
pub open spec fn matched_update(p: Seq<RangeEncProbability>, leaf: int, mleaf: int, m: int, same: bool) -> Seq<RangeEncProbability>
    decreases m,
{
    if m <= 0 {
        p
    } else {
        let node = leaf / (2 * m);
        let bit = (leaf / m) % 2;
        let mbit = (mleaf / m) % 2;
        let idx = (if same { 0x100 + mbit * 0x100 } else { 0 }) + node;
        matched_update(p.update(idx, p[idx].after_bit(bit as u32)), leaf, mleaf, m / 2, same && mbit == bit)
    }
}

/// The range encoder's state after coding the literal whose leaf is `leaf`
/// from `st`, the banks chosen as in `matched_update`.
pub open spec fn matched_coded(st: (Seq<u8>, int, u64, int), p: Seq<RangeEncProbability>, leaf: int, mleaf: int, m: int,
    same: bool) -> (Seq<u8>, int, u64, int)
    decreases m,
{
    if m <= 0 {
        st
    } else {
        let node = leaf / (2 * m);
        let bit = ((leaf / m) % 2) as u32;
        let mbit = (mleaf / m) % 2;
        let idx = (if same { 0x100 + mbit * 0x100 } else { 0 }) + node;
        matched_coded(enc_bit(st, p[idx], bit), p.update(idx, p[idx].after_bit(bit)), leaf, mleaf, m / 2, same && mbit == bit)
    }
}

/// The leaf reached from node `index` and the decoder's state after reading
/// a literal's bits with the banks chosen as in `matched_update`; `None`
/// when the stream ends first.
pub open spec fn matched_decoded(d: (int, int, Seq<u8>), p: Seq<RangeEncProbability>, index: int, mleaf: int, m: int,
    same: bool) -> Option<(int, (int, int, Seq<u8>))>
    decreases m,
{
    if m <= 0 {
        Some((index, d))
    } else {
        let mbit = (mleaf / m) % 2;
        let idx = (if same { 0x100 + mbit * 0x100 } else { 0 }) + index;
        match dec_bit(d, p[idx]) {
            None => None,
            Some((b, d2)) => matched_decoded(d2, p.update(idx, p[idx].after_bit(b)), 2 * index + b, mleaf, m / 2,
                same && mbit == b),
        }
    }
}

/// The probabilities of one literal context: three banks of 256.
#[derive(Debug)]
pub struct LiteralSubcoder {
    probs: Vec<RangeEncProbability>,
}

impl LiteralSubcoder {
    pub closed spec fn wf(&self) -> bool {
        &&& self.probs@.len() == 768
        &&& probs_wf(self.probs@)
    }

    pub fn new() -> (r: Self)
        ensures
            r.wf(),
            crate::length_codec::all_initial(r.probs_view()),
    {
        LiteralSubcoder { probs: new_probs(768) }
    }

    pub closed spec fn probs_view(&self) -> Seq<RangeEncProbability> {
        self.probs@
    }

    /// Codes `symbol` through the first bank, most significant bit first.
    pub fn encode_normal_literal(&mut self, rc: &mut RangeEncoder, symbol: u8)
        requires
            old(self).wf(),
            old(rc).wf(),
        ensures
            final(self).wf(),
            final(self).probs_view() == tree_update(old(self).probs_view(), symbol + 0x100, 0x80),
            final(rc).wf(),
            old(rc).emitted().is_prefix_of(final(rc).emitted()),
            final(rc).coder_view() == tree_coded(old(rc).coder_view(), old(self).probs_view(), symbol + 0x100, 0x80),
    {
        let leaf: u32 = symbol as u32 + 0x100;
        let mut index: u32 = 1;
        let mut m: u32 = 0x80;
        let ghost mut j: int = 7;
        proof {
            reveal_with_fuel(pow2_int, 8);
            assert(leaf as int / (2 * m as int) == 1) by (nonlinear_arith)
                requires 0x100 <= leaf < 0x200, m == 0x80;
        }
        while m > 0
            invariant
                self.wf(),
                rc.wf(),
                old(rc).emitted().is_prefix_of(rc.emitted()),
                0x100 <= leaf < 0x200,
                m > 0 ==> j >= 0 && m as int == pow2_int(j) && index as int == leaf as int / (2 * m as int),
                tree_update(self.probs@, leaf as int, m as int) == tree_update(old(self).probs@, leaf as int, 0x80),
                tree_coded(rc.coder_view(), self.probs@, leaf as int, m as int)
                    == tree_coded(old(rc).coder_view(), old(self).probs@, leaf as int, 0x80),
            decreases m,
        {
            let bit: u32 = (leaf / m) % 2;
            proof {
                lemma_literal_node(leaf as int, m as int);
                lemma_tree_descend(leaf as int, m as int);
            }
            let ghost before = self.probs@;
            rc.encode_bit(&mut self.probs[index as usize], bit);
            proof {
                assert(self.probs@ == before.update(index as int, before[index as int].after_bit(bit)));
                if j > 0 {
                    lemma_pow2_int_step(j - 1);
                    j = j - 1;
                    assert(2 * (m as int / 2) == m);
                }
            }
            index = index * 2 + bit;
            m = m / 2;
        }
    }

    /// Codes `symbol` with `match_byte` choosing the bank until the first
    /// bit where the two differ.
    pub fn encode_matched_literal(&mut self, rc: &mut RangeEncoder, symbol: u8, match_byte: u8)
        requires
            old(self).wf(),
            old(rc).wf(),
        ensures
            final(self).wf(),
            final(self).probs_view() == matched_update(old(self).probs_view(), symbol + 0x100, match_byte + 0x100, 0x80, true),
            final(rc).wf(),
            old(rc).emitted().is_prefix_of(final(rc).emitted()),
            final(rc).coder_view() == matched_coded(old(rc).coder_view(), old(self).probs_view(), symbol + 0x100,
                match_byte + 0x100, 0x80, true),
    {
        let leaf: u32 = symbol as u32 + 0x100;
        let mleaf: u32 = match_byte as u32 + 0x100;
        let mut index: u32 = 1;
        let mut same: bool = true;
        let mut m: u32 = 0x80;
        let ghost mut j: int = 7;
        proof {
            reveal_with_fuel(pow2_int, 8);
            assert(leaf as int / (2 * m as int) == 1) by (nonlinear_arith)
                requires 0x100 <= leaf < 0x200, m == 0x80;
        }
        while m > 0
            invariant
                self.wf(),
                rc.wf(),
                old(rc).emitted().is_prefix_of(rc.emitted()),
                0x100 <= leaf < 0x200,
                0x100 <= mleaf < 0x200,
                m > 0 ==> j >= 0 && m as int == pow2_int(j) && index as int == leaf as int / (2 * m as int),
                matched_update(self.probs@, leaf as int, mleaf as int, m as int, same)
                    == matched_update(old(self).probs@, leaf as int, mleaf as int, 0x80, true),
                matched_coded(rc.coder_view(), self.probs@, leaf as int, mleaf as int, m as int, same)
                    == matched_coded(old(rc).coder_view(), old(self).probs@, leaf as int, mleaf as int, 0x80, true),
            decreases m,
        {
            let bit: u32 = (leaf / m) % 2;
            let mbit: u32 = (mleaf / m) % 2;
            proof {
                lemma_literal_node(leaf as int, m as int);
                lemma_tree_descend(leaf as int, m as int);
            }
            let bank: u32 = if same { 0x100 + mbit * 0x100 } else { 0 };
            let ghost before = self.probs@;
            rc.encode_bit(&mut self.probs[(bank + index) as usize], bit);
            proof {
                assert(self.probs@ == before.update((bank + index) as int, before[(bank + index) as int].after_bit(bit)));
                if j > 0 {
                    lemma_pow2_int_step(j - 1);
                    j = j - 1;
                    assert(2 * (m as int / 2) == m);
                }
            }
            same = same && mbit == bit;
            index = index * 2 + bit;
            m = m / 2;
        }
    }

    pub fn decode_normal_literal(&mut self, rc: &mut RangeDecoder) -> (r: Result<u8, LzmaError>)
        requires
            old(self).wf(),
            old(rc).wf(),
        ensures
            final(self).wf(),
            final(rc).wf(),
            r matches Ok(v) ==> final(self).probs_view() == tree_update(old(self).probs_view(), v + 0x100, 0x80),
            r matches Err(e) ==> e == LzmaError::UnexpectedEof && final(rc).rest().len() == 0,
            r matches Ok(v) ==> tree_decoded(old(rc).dec_view(), old(self).probs_view(), 1, 0x80)
                == Some((v + 0x100, final(rc).dec_view())),
            r is Err ==> tree_decoded(old(rc).dec_view(), old(self).probs_view(), 1, 0x80) is None,
    {
        let mut index: u32 = 1;
        let mut m: u32 = 0x80;
        let ghost mut j: int = 7;
        let ghost full: int = 0x80;
        proof {
            reveal_with_fuel(pow2_int, 8);
        }
        while m > 0
            invariant
                self.wf(),
                rc.wf(),
                full == 0x80,
                m > 0 ==> j >= 0 && m as int == pow2_int(j) && 1 <= index,
                m > 0 ==> index as int * (2 * m as int) >= 0x100 && (index as int + 1) * (2 * m as int) <= 0x200,
                m == 0 ==> 0x100 <= index < 0x200,
                forall|leaf: int| #![trigger tree_update(old(self).probs@, leaf, full)]
                    0 <= leaf && (if m > 0 { leaf / (2 * m as int) == index } else { leaf == index })
                    ==> tree_update(old(self).probs@, leaf, full) == tree_update(self.probs@, leaf, m as int),
                tree_decoded(rc.dec_view(), self.probs@, index as int, m as int)
                    == tree_decoded(old(rc).dec_view(), old(self).probs@, 1, full),
            decreases m,
        {
            proof {
                assert(index < 0x100) by (nonlinear_arith)
                    requires (index as int + 1) * (2 * m as int) <= 0x200, m >= 1;
            }
            let ghost before = self.probs@;
            let ghost old_index = index;
            let ghost old_m: int = m as int;
            let b: u32 = rc.decode_bit(&mut self.probs[index as usize])?;
            index = index * 2 + b;
            m = m / 2;
            proof {
                if j > 0 {
                    lemma_pow2_int_step(j - 1);
                    j = j - 1;
                    assert(2 * (m as int) == old_m);
                    assert(index as int * (2 * m as int) >= 0x100 && (index as int + 1) * (2 * m as int) <= 0x200)
                        by (nonlinear_arith)
                        requires index == 2 * old_index + b, old_index * (2 * old_m) >= 0x100,
                            (old_index + 1) * (2 * old_m) <= 0x200, old_m == 2 * m, b <= 1, b >= 0;
                } else {
                    assert(old_m == 1);
                }
                assert forall|leaf: int| #![trigger tree_update(old(self).probs@, leaf, full)]
                    0 <= leaf && (if m > 0 { leaf / (2 * m as int) == index } else { leaf == index })
                    implies tree_update(old(self).probs@, leaf, full) == tree_update(self.probs@, leaf, m as int) by {
                    lemma_tree_descend(leaf, old_m);
                    if m > 0 {
                        assert(leaf / (2 * m as int) == leaf / old_m);
                    } else {
                        assert(leaf / 1 == leaf);
                    }
                    assert(leaf / old_m == index);
                    assert(leaf / (2 * old_m) == old_index);
                    assert((leaf / old_m) % 2 == b);
                    assert(self.probs@ == before.update(old_index as int, before[old_index as int].after_bit(b)));
                }
            }
        }
        proof {
            assert(tree_update(old(self).probs@, index as int, full) == tree_update(self.probs@, index as int, 0));
        }
        Ok((index - 0x100) as u8)
    }

    pub fn decode_matched_literal(&mut self, rc: &mut RangeDecoder, match_byte: u8) -> (r: Result<u8, LzmaError>)
        requires
            old(self).wf(),
            old(rc).wf(),
        ensures
            final(self).wf(),
            final(rc).wf(),
            r matches Ok(v) ==> final(self).probs_view() == matched_update(old(self).probs_view(), v + 0x100, match_byte + 0x100, 0x80, true),
            r matches Err(e) ==> e == LzmaError::UnexpectedEof && final(rc).rest().len() == 0,
            r matches Ok(v) ==> matched_decoded(old(rc).dec_view(), old(self).probs_view(), 1, match_byte + 0x100, 0x80, true)
                == Some((v + 0x100, final(rc).dec_view())),
            r is Err ==> matched_decoded(old(rc).dec_view(), old(self).probs_view(), 1, match_byte + 0x100, 0x80, true) is None,
    {
        let mleaf: u32 = match_byte as u32 + 0x100;
        let mut index: u32 = 1;
        let mut same: bool = true;
        let mut m: u32 = 0x80;
        let ghost mut j: int = 7;
        let ghost full: int = 0x80;
        proof {
            reveal_with_fuel(pow2_int, 8);
        }
        while m > 0
            invariant
                self.wf(),
                rc.wf(),
                full == 0x80,
                0x100 <= mleaf < 0x200,
                mleaf == match_byte + 0x100,
                m > 0 ==> j >= 0 && m as int == pow2_int(j) && 1 <= index,
                m > 0 ==> index as int * (2 * m as int) >= 0x100 && (index as int + 1) * (2 * m as int) <= 0x200,
                m == 0 ==> 0x100 <= index < 0x200,
                forall|leaf: int| #![trigger matched_update(old(self).probs@, leaf, mleaf as int, full, true)]
                    0 <= leaf && (if m > 0 { leaf / (2 * m as int) == index } else { leaf == index })
                    ==> matched_update(old(self).probs@, leaf, mleaf as int, full, true)
                        == matched_update(self.probs@, leaf, mleaf as int, m as int, same),
                matched_decoded(rc.dec_view(), self.probs@, index as int, mleaf as int, m as int, same)
                    == matched_decoded(old(rc).dec_view(), old(self).probs@, 1, mleaf as int, full, true),
            decreases m,
        {
            proof {
                assert(index < 0x100) by (nonlinear_arith)
                    requires (index as int + 1) * (2 * m as int) <= 0x200, m >= 1;
            }
            let mbit: u32 = (mleaf / m) % 2;
            let bank: u32 = if same { 0x100 + mbit * 0x100 } else { 0 };
            let ghost before = self.probs@;
            let ghost old_index = index;
            let ghost old_same = same;
            let ghost old_m: int = m as int;
            proof {
                assert(bank as int + index as int == (if same { 0x100 + ((mleaf as int / m as int) % 2) * 0x100 } else { 0 })
                    + index as int);
            }
            let ghost d0 = rc.dec_view();
            let b: u32 = match rc.decode_bit(&mut self.probs[(bank + index) as usize]) {
                Ok(b) => b,
                Err(e) => {
                    proof {
                        assert(dec_bit(d0, before[(bank + index) as int]) is None);
                        assert(matched_decoded(d0, before, index as int, mleaf as int, m as int, same) is None);
                    }
                    return Err(e);
                },
            };
            same = same && mbit == b;
            index = index * 2 + b;
            m = m / 2;
            proof {
                if j > 0 {
                    lemma_pow2_int_step(j - 1);
                    j = j - 1;
                    assert(2 * (m as int) == old_m);
                    assert(index as int * (2 * m as int) >= 0x100 && (index as int + 1) * (2 * m as int) <= 0x200)
                        by (nonlinear_arith)
                        requires index == 2 * old_index + b, old_index * (2 * old_m) >= 0x100,
                            (old_index + 1) * (2 * old_m) <= 0x200, old_m == 2 * m, b <= 1, b >= 0;
                } else {
                    assert(old_m == 1);
                }
                assert forall|leaf: int| #![trigger matched_update(old(self).probs@, leaf, mleaf as int, full, true)]
                    0 <= leaf && (if m > 0 { leaf / (2 * m as int) == index } else { leaf == index })
                    implies matched_update(old(self).probs@, leaf, mleaf as int, full, true)
                        == matched_update(self.probs@, leaf, mleaf as int, m as int, same) by {
                    lemma_tree_descend(leaf, old_m);
                    if m > 0 {
                        assert(leaf / (2 * m as int) == leaf / old_m);
                    } else {
                        assert(leaf / 1 == leaf);
                    }
                    assert(leaf / old_m == index);
                    assert(leaf / (2 * old_m) == old_index);
                    assert((leaf / old_m) % 2 == b);
                    assert(self.probs@ == before.update((bank + old_index) as int, before[(bank + old_index) as int].after_bit(b)));
                }
            }
        }
        proof {
            assert(matched_update(old(self).probs@, index as int, mleaf as int, full, true)
                == matched_update(self.probs@, index as int, mleaf as int, 0, same));
        }
        Ok((index - 0x100) as u8)
    }

    /// The price of coding `symbol` as a normal literal.
    pub fn get_normal_price(&self, symbol: u8) -> (r: RangeEncPrice)
        requires
            self.wf(),
        ensures
            r.0 as int == matched_price(self.probs_view(), symbol + 0x100, 0, 0x80, false, 0),
    {
        self.walk_price(symbol, 0, false)
    }

    /// The price of coding `symbol` as a literal matched against `match_byte`.
    pub fn get_matched_price(&self, symbol: u8, match_byte: u8) -> (r: RangeEncPrice)
        requires
            self.wf(),
        ensures
            r.0 as int == matched_price(self.probs_view(), symbol + 0x100, match_byte + 0x100, 0x80, true, 0),
    {
        self.walk_price(symbol, match_byte as u32 + 0x100, true)
    }

    fn walk_price(&self, symbol: u8, mleaf: u32, matched: bool) -> (r: RangeEncPrice)
        requires
            self.wf(),
            mleaf < 0x200,
        ensures
            r.0 as int == matched_price(self.probs_view(), symbol + 0x100, mleaf as int, 0x80, matched, 0),
    {
        let leaf: u32 = symbol as u32 + 0x100;
        let mut index: u32 = 1;
        let mut same: bool = matched;
        let mut m: u32 = 0x80;
        let mut price: RangeEncPrice = RangeEncPrice::zero();
        let ghost mut j: int = 7;
        proof {
            reveal_with_fuel(pow2_int, 8);
            assert(leaf as int / (2 * m as int) == 1) by (nonlinear_arith)
                requires 0x100 <= leaf < 0x200, m == 0x80;
        }
        while m > 0
            invariant
                self.wf(),
                0x100 <= leaf < 0x200,
                mleaf < 0x200,
                price.0 <= INFINITY_PRICE,
                m > 0 ==> j >= 0 && m as int == pow2_int(j) && index as int == leaf as int / (2 * m as int),
                matched_price(self.probs@, leaf as int, mleaf as int, m as int, same, price.0 as int)
                    == matched_price(self.probs@, leaf as int, mleaf as int, 0x80, matched, 0),
            decreases m,
        {
            let bit: u32 = (leaf / m) % 2;
            let mbit: u32 = (mleaf / m) % 2;
            proof {
                lemma_literal_node(leaf as int, m as int);
                lemma_tree_descend(leaf as int, m as int);
            }
            let bank: u32 = if same { 0x100 + mbit * 0x100 } else { 0 };
            price = price.add(self.probs[(bank + index) as usize].get_bit_price(bit));
            proof {
                if j > 0 {
                    lemma_pow2_int_step(j - 1);
                    j = j - 1;
                    assert(2 * (m as int / 2) == m);
                }
            }
            same = same && mbit == bit;
            index = index * 2 + bit;
            m = m / 2;
        }
        price
    }
}

/// The price, added to `acc`, of coding the literal whose tree leaf is
/// `leaf` from `m` levels above it, the banks chosen as in `matched_update`
/// (a normal literal is one that starts with `same` false).
pub open spec fn matched_price(p: Seq<RangeEncProbability>, leaf: int, mleaf: int, m: int, same: bool, acc: int) -> int
    decreases m,
{
    if m <= 0 {
        acc
    } else {
        let node = leaf / (2 * m);
        let bit = (leaf / m) % 2;
        let mbit = (mleaf / m) % 2;
        let idx = (if same { 0x100 + mbit * 0x100 } else { 0 }) + node;
        matched_price(p, leaf, mleaf, m / 2, same && mbit == bit,
            sat_add(acc, RangeEncPrice::bit_price(p[idx], bit as u32).0 as int))
    }
}

/// Chooses the literal context from the previous byte and the position.
#[derive(Debug, Clone, Copy)]
pub struct LiteralCoderContextBits {
    lc: u32,
    lp: u32,
    /// 2^(8 - lc): the previous byte is divided by this.
    prev_div: u32,
    /// 2^lp: the position is reduced modulo this.
    pos_mod: u32,
    /// 2^lc: the position bits are placed above the byte bits.
    pos_mul: u32,
}

/// The literal context of `prev_byte` at position `pos`: the top `lc` bits
/// of the previous byte, below the low `lp` bits of the position.
pub open spec fn sub_coder_index(lc: int, lp: int, prev_byte: int, pos: int) -> int {
    prev_byte / pow2_int(8 - lc) + (pos % pow2_int(lp)) * pow2_int(lc)
}

impl LiteralCoderContextBits {
    pub closed spec fn wf(&self) -> bool {
        &&& self.lc <= 8
        &&& self.lp <= 4
        &&& self.prev_div as int == pow2_int(8 - self.lc)
        &&& self.pos_mod as int == pow2_int(self.lp as int)
        &&& self.pos_mul as int == pow2_int(self.lc as int)
    }

    pub closed spec fn lc_spec(&self) -> int {
        self.lc as int
    }

    pub closed spec fn lp_spec(&self) -> int {
        self.lp as int
    }

    pub fn new(lc: u32, lp: u32) -> (r: Self)
        requires
            lc <= 8,
            lp <= 4,
        ensures
            r.wf(),
            r.lc_spec() == lc,
            r.lp_spec() == lp,
    {
        LiteralCoderContextBits {
            lc,
            lp,
            prev_div: pow2_u32(8 - lc),
            pos_mod: pow2_u32(lp),
            pos_mul: pow2_u32(lc),
        }
    }

    pub fn get_sub_coder_index(&self, prev_byte: u32, pos: u32) -> (r: u32)
        requires
            self.wf(),
            prev_byte < 256,
        ensures
            r as int == sub_coder_index(self.lc_spec(), self.lp_spec(), prev_byte as int, pos as int),
            (r as int) < pow2_int(self.lc_spec() + self.lp_spec()),
    {
        proof {
            lemma_pow2_int_step(8 - self.lc);
            lemma_pow2_int_step(self.lp as int);
        }
        let low: u32 = prev_byte / self.prev_div;
        let high: u32 = pos % self.pos_mod;
        proof {
            lemma_index_bound(self.lc as int, self.lp as int, prev_byte as int, high as int);
        }
        low + high * self.pos_mul
    }
}

proof fn lemma_pow2_int_add(a: int, b: int)
    requires
        a >= 0,
        b >= 0,
    ensures
        pow2_int(a + b) == pow2_int(a) * pow2_int(b),
    decreases b,
{
    if b > 0 {
        lemma_pow2_int_add(a, b - 1);
        lemma_pow2_int_step(a + b - 1);
        lemma_pow2_int_step(b - 1);
        assert(pow2_int(a) * (2 * pow2_int(b - 1)) == 2 * (pow2_int(a) * pow2_int(b - 1))) by (nonlinear_arith);
    }
}

proof fn lemma_index_bound(lc: int, lp: int, prev: int, high: int)
    requires
        0 <= lc <= 8,
        0 <= lp <= 4,
        0 <= prev < 256,
        0 <= high < pow2_int(lp),
    ensures
        prev / pow2_int(8 - lc) < pow2_int(lc),
        prev / pow2_int(8 - lc) + high * pow2_int(lc) < pow2_int(lc + lp),
        pow2_int(lc + lp) <= 4096,
{
    lemma_pow2_int_add(8 - lc, lc);
    lemma_pow2_int_add(lc, lp);
    lemma_pow2_int_step(8 - lc);
    lemma_pow2_int_step(lc);
    lemma_pow2_int_step(lp);
    lemma_pow2_int_mono(lc + lp, 12);
    reveal_with_fuel(pow2_int, 13);
    reveal_with_fuel(pow2_int, 9);
    let d = pow2_int(8 - lc);
    let m = pow2_int(lc);
    assert(d * m == 256);
    assert(prev / d < m) by (nonlinear_arith)
        requires d * m == 256, prev < 256, d >= 1, prev >= 0;
    assert(prev / d + high * m < m * pow2_int(lp)) by (nonlinear_arith)
        requires prev / d < m, high < pow2_int(lp), high >= 0, m >= 1;
}

/// The literal probabilities of every context.
pub struct LiteralCodec {
    coder: LiteralCoderContextBits,
    sub_coders: Vec<LiteralSubcoder>,
}

impl LiteralCodec {
    pub closed spec fn wf(&self) -> bool {
        &&& self.coder.wf()
        &&& self.sub_coders@.len() == pow2_int(self.coder.lc_spec() + self.coder.lp_spec())
        &&& forall|i: int| 0 <= i < self.sub_coders@.len() ==> (#[trigger] self.sub_coders@[i]).wf()
    }

    pub fn new(lc: u32, lp: u32) -> (r: Self)
        requires
            lc <= 8,
            lp <= 4,
        ensures
            r.wf(),
            forall|i: int| 0 <= i < r.num_contexts() ==> crate::length_codec::all_initial(#[trigger] r.tables(i)),
    {
        let coder: LiteralCoderContextBits = LiteralCoderContextBits::new(lc, lp);
        proof {
            lemma_pow2_int_step(lp as int);
            lemma_index_bound(lc as int, lp as int, 0, 0);
            lemma_pow2_int_step(lc as int + lp as int);
        }
        let count: u32 = pow2_u32(lc + lp);
        let mut sub_coders: Vec<LiteralSubcoder> = Vec::with_capacity(count as usize);
        let mut i: u32 = 0;
        while i < count
            invariant
                i <= count,
                sub_coders@.len() == i,
                forall|k: int| 0 <= k < i ==> (#[trigger] sub_coders@[k]).wf(),
                forall|k: int| 0 <= k < i ==> crate::length_codec::all_initial(#[trigger] sub_coders@[k].probs_view()),
            decreases count - i,
        {
            sub_coders.push(LiteralSubcoder::new());
            i = i + 1;
        }
        LiteralCodec { coder, sub_coders }
    }

    /// The context used for a literal after `prev_byte` at position `pos`.
    pub closed spec fn context(&self, prev_byte: u8, pos: u64) -> int {
        sub_coder_index(self.coder.lc_spec(), self.coder.lp_spec(), prev_byte as int, (pos % 0x1_0000_0000) as int)
    }

    /// The probabilities of context `i`.
    pub closed spec fn tables(&self, i: int) -> Seq<RangeEncProbability> {
        self.sub_coders@[i].probs_view()
    }

    pub closed spec fn num_contexts(&self) -> int {
        self.sub_coders@.len() as int
    }

    /// `a` is `b` with only context `i` changed, to `t`.
    pub open spec fn only_context_changed(b: LiteralCodec, a: LiteralCodec, i: int, t: Seq<RangeEncProbability>) -> bool {
        &&& a.num_contexts() == b.num_contexts()
        &&& forall|prev: u8, pos: u64| a.context(prev, pos) == #[trigger] b.context(prev, pos)
        &&& a.tables(i) == t
        &&& forall|j: int| 0 <= j < b.num_contexts() && j != i ==> #[trigger] a.tables(j) == b.tables(j)
    }

    fn get_subcoder_index(&self, prev_byte: u8, pos: u64) -> (r: usize)
        requires
            self.wf(),
        ensures
            r < self.sub_coders@.len(),
            r as int == self.context(prev_byte, pos),
    {
        let p: u32 = (pos % 0x1_0000_0000) as u32;
        self.coder.get_sub_coder_index(prev_byte as u32, p) as usize
    }
}

/// Literal decoder.
pub struct LiteralCodecDecoder {
    codec: LiteralCodec,
}

impl LiteralCodecDecoder {
    pub closed spec fn wf(&self) -> bool {
        self.codec.wf()
    }

    pub closed spec fn codec_view(&self) -> LiteralCodec {
        self.codec
    }

    pub fn new(lc: u32, lp: u32) -> (r: Self)
        requires
            lc <= 8,
            lp <= 4,
        ensures
            r.wf(),
            forall|i: int| 0 <= i < r.codec_view().num_contexts()
                ==> crate::length_codec::all_initial(#[trigger] r.codec_view().tables(i)),
    {
        LiteralCodecDecoder { codec: LiteralCodec::new(lc, lp) }
    }

    pub fn decode_normal(&mut self, rc: &mut RangeDecoder, prev_byte: u8, pos: u64) -> (r: Result<u8, LzmaError>)
        requires
            old(self).wf(),
            old(rc).wf(),
        ensures
            final(self).wf(),
            final(rc).wf(),
            r matches Err(e) ==> e == LzmaError::UnexpectedEof && final(rc).rest().len() == 0,
            r matches Ok(v) ==> LiteralCodec::only_context_changed(old(self).codec_view(), final(self).codec_view(),
                old(self).codec_view().context(prev_byte, pos),
                tree_update(old(self).codec_view().tables(old(self).codec_view().context(prev_byte, pos)), v + 0x100, 0x80)),
            r matches Ok(v) ==> tree_decoded(old(rc).dec_view(), old(self).codec_view().tables(old(self).codec_view().context(prev_byte, pos)),
                1, 0x80) == Some((v + 0x100, final(rc).dec_view())),
            r is Err ==> tree_decoded(old(rc).dec_view(), old(self).codec_view().tables(old(self).codec_view().context(prev_byte, pos)),
                1, 0x80) is None,
    {
        let i: usize = self.codec.get_subcoder_index(prev_byte, pos);
        self.codec.sub_coders[i].decode_normal_literal(rc)
    }

    pub fn decode_matched(&mut self, rc: &mut RangeDecoder, prev_byte: u8, pos: u64, match_byte: u8) -> (r: Result<u8, LzmaError>)
        requires
            old(self).wf(),
            old(rc).wf(),
        ensures
            final(self).wf(),
            final(rc).wf(),
            r matches Err(e) ==> e == LzmaError::UnexpectedEof && final(rc).rest().len() == 0,
            r matches Ok(v) ==> LiteralCodec::only_context_changed(old(self).codec_view(), final(self).codec_view(),
                old(self).codec_view().context(prev_byte, pos),
                matched_update(old(self).codec_view().tables(old(self).codec_view().context(prev_byte, pos)), v + 0x100,
                    match_byte + 0x100, 0x80, true)),
            r matches Ok(v) ==> matched_decoded(old(rc).dec_view(), old(self).codec_view().tables(old(self).codec_view().context(prev_byte, pos)),
                1, match_byte + 0x100, 0x80, true) == Some((v + 0x100, final(rc).dec_view())),
            r is Err ==> matched_decoded(old(rc).dec_view(), old(self).codec_view().tables(old(self).codec_view().context(prev_byte, pos)),
                1, match_byte + 0x100, 0x80, true) is None,
    {
        let i: usize = self.codec.get_subcoder_index(prev_byte, pos);
        self.codec.sub_coders[i].decode_matched_literal(rc, match_byte)
    }
}

/// Literal encoder.
pub struct LiteralCodecEncoder {
    codec: LiteralCodec,
}

impl LiteralCodecEncoder {
    pub closed spec fn wf(&self) -> bool {
        self.codec.wf()
    }

    pub closed spec fn codec_view(&self) -> LiteralCodec {
        self.codec
    }

    pub fn new(lc: u32, lp: u32) -> (r: Self)
        requires
            lc <= 8,
            lp <= 4,
        ensures
            r.wf(),
            forall|i: int| 0 <= i < r.codec_view().num_contexts()
                ==> crate::length_codec::all_initial(#[trigger] r.codec_view().tables(i)),
    {
        LiteralCodecEncoder { codec: LiteralCodec::new(lc, lp) }
    }

    pub fn encode_normal(&mut self, rc: &mut RangeEncoder, symbol: u8, prev_byte: u8, pos: u64)
        requires
            old(self).wf(),
            old(rc).wf(),
        ensures
            final(self).wf(),
            final(rc).wf(),
            old(rc).emitted().is_prefix_of(final(rc).emitted()),
            LiteralCodec::only_context_changed(old(self).codec_view(), final(self).codec_view(),
                old(self).codec_view().context(prev_byte, pos),
                tree_update(old(self).codec_view().tables(old(self).codec_view().context(prev_byte, pos)), symbol + 0x100, 0x80)),
            final(rc).coder_view() == tree_coded(old(rc).coder_view(),
                old(self).codec_view().tables(old(self).codec_view().context(prev_byte, pos)), symbol + 0x100, 0x80),
    {
        let i: usize = self.codec.get_subcoder_index(prev_byte, pos);
        self.codec.sub_coders[i].encode_normal_literal(rc, symbol);
    }

    pub fn encode_matched(&mut self, rc: &mut RangeEncoder, symbol: u8, prev_byte: u8, pos: u64, match_byte: u8)
        requires
            old(self).wf(),
            old(rc).wf(),
        ensures
            final(self).wf(),
            final(rc).wf(),
            old(rc).emitted().is_prefix_of(final(rc).emitted()),
            LiteralCodec::only_context_changed(old(self).codec_view(), final(self).codec_view(),
                old(self).codec_view().context(prev_byte, pos),
                matched_update(old(self).codec_view().tables(old(self).codec_view().context(prev_byte, pos)), symbol + 0x100,
                    match_byte + 0x100, 0x80, true)),
            final(rc).coder_view() == matched_coded(old(rc).coder_view(),
                old(self).codec_view().tables(old(self).codec_view().context(prev_byte, pos)), symbol + 0x100,
                match_byte + 0x100, 0x80, true),
    {
        let i: usize = self.codec.get_subcoder_index(prev_byte, pos);
        self.codec.sub_coders[i].encode_matched_literal(rc, symbol, match_byte);
    }

    pub fn get_normal_price(&self, symbol: u8, prev_byte: u8, pos: u64) -> (r: RangeEncPrice)
        requires
            self.wf(),
        ensures
            r.0 as int == matched_price(self.codec_view().tables(self.codec_view().context(prev_byte, pos)), symbol + 0x100, 0,
                0x80, false, 0),
    {
        let i: usize = self.codec.get_subcoder_index(prev_byte, pos);
        self.codec.sub_coders[i].get_normal_price(symbol)
    }

    pub fn get_matched_price(&self, symbol: u8, match_byte: u8, prev_byte: u8, pos: u64) -> (r: RangeEncPrice)
        requires
            self.wf(),
        ensures
            r.0 as int == matched_price(self.codec_view().tables(self.codec_view().context(prev_byte, pos)), symbol + 0x100,
                match_byte + 0x100, 0x80, true, 0),
    {
        let i: usize = self.codec.get_subcoder_index(prev_byte, pos);
        self.codec.sub_coders[i].get_matched_price(symbol, match_byte)
    }
}

} // verus!
