//! The LZMA packet codec: the probability tables of one stream and the
//! coding of one packet (literal, match or rep) at a time.

use vstd::prelude::*;
use crate::error::LzmaError;
use crate::range_codec::{
    RangeEncProbability, RangeEncPrice, RangeEncoder, RangeDecoder, probs_wf, new_probs, pow2_int,
    pow2_u32, lemma_pow2_int_step, lemma_pow2_int_mono, lemma_pow2_int_32, enc_bit, dec_bit, direct_full, direct_dec,
};
use crate::length_codec::{
    all_initial, tree_coded, reverse_tree_coded, length_enc_coded, tree_decoded, reverse_tree_decoded, length_decoded, path_price, reverse_path_price, sat_add, tree_update, reverse_tree_update, length_coded, LengthCodec, LengthValueCodec, LengthCodecEncoder, LengthCodecDecoder, MATCH_LEN_MIN, MATCH_LEN_MAX,
};
use crate::literals_codec::{LiteralCodecEncoder, LiteralCodecDecoder, LiteralCodec, matched_update, matched_coded,
    matched_decoded};
use crate::state::{
    State, STATES, literal_next, match_next, long_rep_next, short_rep_next, reps_after_long_rep,
};
use crate::data_buffers::DecoderDataBuffer;
use crate::cyclic_buffer::lz_copy;
use crate::match_finder::Match;

verus! {

pub const POS_STATES_MAX: usize = 16;
pub const DIST_STATES: usize = 4;
pub const DIST_SLOTS: usize = 64;
pub const DIST_SLOT_BITS: u32 = 6;
pub const DIST_MODEL_START: u32 = 4;
pub const DIST_MODEL_END: u32 = 14;
pub const FULL_DISTANCES: usize = 128;
pub const ALIGN_BITS: u32 = 4;
pub const ALIGN_SIZE: usize = 16;
pub const ALIGN_MASK: u32 = 15;
pub const DIST_PRICE_UPDATE_INTERVAL: i32 = 128;
pub const ALIGN_PRICE_UPDATE_INTERVAL: i32 = 16;

/// Entry `col` of row `row` of a table stored row by row, `width` per row.
pub open spec fn at2(v: Seq<RangeEncPrice>, row: int, width: int, col: int) -> RangeEncPrice {
    v[row * width + col]
}

/// `s` after coding `bit` under its entry `i`; unchanged when `bit` is
/// negative (no bit coded there).
pub open spec fn upd(s: Seq<RangeEncProbability>, i: int, bit: int) -> Seq<RangeEncProbability> {
    if bit < 0 { s } else { s.update(i, s[i].after_bit(bit as u32)) }
}

/// The bits a rep packet codes under "is rep0", "is rep0 long", "is rep1"
/// and "is rep2" (negative: none), by rep index and length (§4.5).
pub open spec fn rep_bits(rep: int, len: int) -> (int, int, int, int) {
    if len == 1 {
        (0, 0, -1, -1)
    } else if rep == 0 {
        (0, 1, -1, -1)
    } else if rep == 1 {
        (1, -1, 0, -1)
    } else {
        (1, -1, 1, rep - 2)
    }
}

/// The distance-slot table used for a match of length `len`.
pub open spec fn dist_state_of(len: int) -> int {
    if len < 6 { len - 2 } else { 3 }
}

/// The number of low bits that follow slot `s`.
pub open spec fn slot_footer(s: int) -> int {
    s / 2 - 1
}

/// The smallest distance of slot `s` (for `s >= 4`).
pub open spec fn slot_base(s: int) -> int {
    (2 + s % 2) * pow2_int(s / 2 - 1)
}

/// The slot of distance `dist`: for slots from 4 on, `dist` lies in
/// `[slot_base(s), slot_base(s) + 2^slot_footer(s))`.
pub open spec fn is_dist_slot(dist: int, s: int) -> bool {
    &&& 0 <= s < 64
    &&& s < 4 ==> s == dist
    &&& s >= 4 ==> slot_base(s) <= dist < slot_base(s) + pow2_int(slot_footer(s))
}

pub fn get_dist_state(len: u32) -> (r: usize)
    requires
        len >= 2,
    ensures
        r as int == dist_state_of(len as int),
        r < DIST_STATES,
{
    if len < (DIST_STATES + MATCH_LEN_MIN) as u32 {
        (len - MATCH_LEN_MIN as u32) as usize
    } else {
        DIST_STATES - 1
    }
}

pub fn get_dist_slot(dist: u32) -> (r: u32)
    ensures
        is_dist_slot(dist as int, r as int),
{
    if dist < DIST_MODEL_START {
        return dist;
    }
    let mut i: u32 = 1;
    let mut p: u32 = 2;
    proof {
        lemma_pow2_int_step(0);
    }
    while i < 31 && p <= dist / 2
        invariant
            1 <= i <= 31,
            p as int == pow2_int(i as int),
            p <= dist,
        decreases 31 - i,
    {
        proof {
            lemma_pow2_int_step(i as int);
        }
        p = p * 2;
        i = i + 1;
    }
    proof {
        lemma_pow2_int_step(i as int);
        lemma_pow2_int_step(i as int - 1);
        lemma_pow2_int_mono(i as int + 1, 32);
        lemma_pow2_int_32();
        if i >= 2 {
        } else {
            assert(p == 2);
        }
    }
    assert(i >= 2);
    let half: u32 = p / 2;
    let q: u32 = dist / half;
    proof {
        assert(2 * half as int <= dist && (dist as int) < 4 * half as int) by {
            assert(p as int == 2 * half);
            if i < 31 {
                assert(p > dist / 2);
            }
        }
        assert(2 <= q < 4) by (nonlinear_arith)
            requires 2 * half <= dist, dist < 4 * half, q == dist / half, half > 0;
        assert(q * half <= dist < (q + 1) * half) by (nonlinear_arith)
            requires q == dist / half, half > 0;
    }
    let bit: u32 = q % 2;
    let s: u32 = 2 * i + bit;
    proof {
        assert(s / 2 == i && s % 2 == bit);
        assert(pow2_int(s / 2 - 1) == half);
        assert(q == 2 + bit);
        assert(slot_footer(s as int) == i - 1);
        assert(slot_base(s as int) == q * half);
        assert(s < 64);
        assert(s >= 4);
        assert(slot_base(s as int) <= dist);
        assert((q + 1) * half == q * half + half) by (nonlinear_arith);
        assert(pow2_int(slot_footer(s as int)) == half);
        assert(dist < slot_base(s as int) + pow2_int(slot_footer(s as int)));
    }
    s
}

/// Every probability table of one stream, shared by encoder and decoder.
pub struct LZMACodec {
    /// 2^pb.
    pos_states: u32,
    pub(crate) state: State,
    is_match_probs: Vec<RangeEncProbability>,
    is_rep_probs: Vec<RangeEncProbability>,
    is_rep0_probs: Vec<RangeEncProbability>,
    is_rep1_probs: Vec<RangeEncProbability>,
    is_rep2_probs: Vec<RangeEncProbability>,
    is_rep0_long_probs: Vec<RangeEncProbability>,
    dist_slot_probs: Vec<LengthValueCodec>,
    /// Reverse trees for slots 4 to 13; slot `s` uses `slot_footer(s)` bits.
    dist_special_probs: Vec<LengthValueCodec>,
    dist_align_probs: LengthValueCodec,
}

impl LZMACodec {
    pub closed spec fn wf(&self) -> bool {
        &&& 1 <= self.pos_states <= POS_STATES_MAX
        &&& self.state.wf()
        &&& self.is_match_probs@.len() == STATES * POS_STATES_MAX
        &&& self.is_rep_probs@.len() == STATES
        &&& self.is_rep0_probs@.len() == STATES
        &&& self.is_rep1_probs@.len() == STATES
        &&& self.is_rep2_probs@.len() == STATES
        &&& self.is_rep0_long_probs@.len() == STATES * POS_STATES_MAX
        &&& probs_wf(self.is_match_probs@)
        &&& probs_wf(self.is_rep_probs@)
        &&& probs_wf(self.is_rep0_probs@)
        &&& probs_wf(self.is_rep1_probs@)
        &&& probs_wf(self.is_rep2_probs@)
        &&& probs_wf(self.is_rep0_long_probs@)
        &&& self.dist_slot_probs@.len() == DIST_STATES
        &&& forall|i: int| 0 <= i < DIST_STATES ==> (#[trigger] self.dist_slot_probs@[i]).wf()
            && self.dist_slot_probs@[i].size() == 64
        &&& self.dist_special_probs@.len() == 10
        &&& forall|i: int| 0 <= i < 10 ==> (#[trigger] self.dist_special_probs@[i]).wf()
            && self.dist_special_probs@[i].size() == pow2_int(slot_footer(i + 4))
        &&& self.dist_align_probs.wf()
        &&& self.dist_align_probs.size() == 16
    }

    /// The number of position states, 2^pb.
    pub closed spec fn num_pos_states(&self) -> int {
        self.pos_states as int
    }

    pub closed spec fn state_spec(&self) -> State {
        self.state
    }

    pub fn new(pb: u32) -> (r: Self)
        requires
            pb <= 4,
        ensures
            r.wf(),
            r.num_pos_states() == pow2_int(pb as int),
            r.state_spec().idx() == 0,
            r.state_spec().reps_view() == seq![0u32, 0u32, 0u32, 0u32],
            r.initial(),
    {
        proof {
            lemma_pow2_int_mono(pb as int, 4);
            reveal_with_fuel(pow2_int, 7);
        }
        let mut dist_slot_probs: Vec<LengthValueCodec> = Vec::new();
        let mut i: usize = 0;
        while i < DIST_STATES
            invariant
                i <= DIST_STATES,
                dist_slot_probs@.len() == i,
                forall|k: int| 0 <= k < i ==> (#[trigger] dist_slot_probs@[k]).wf() && dist_slot_probs@[k].size() == 64,
                forall|k: int| 0 <= k < i ==> all_initial(#[trigger] dist_slot_probs@[k].probs_view()),
            decreases DIST_STATES - i,
        {
            proof {
                reveal_with_fuel(pow2_int, 7);
            }
            dist_slot_probs.push(LengthValueCodec::new(DIST_SLOT_BITS));
            i = i + 1;
        }
        let mut dist_special_probs: Vec<LengthValueCodec> = Vec::new();
        let mut k: usize = 0;
        while k < 10
            invariant
                k <= 10,
                dist_special_probs@.len() == k,
                forall|j: int| 0 <= j < k ==> (#[trigger] dist_special_probs@[j]).wf()
                    && dist_special_probs@[j].size() == pow2_int(slot_footer(j + 4)),
                forall|j: int| 0 <= j < k ==> all_initial(#[trigger] dist_special_probs@[j].probs_view()),
            decreases 10 - k,
        {
            let bits: u32 = ((k as u32 + DIST_MODEL_START) / 2) - 1;
            dist_special_probs.push(LengthValueCodec::new(bits));
            k = k + 1;
        }
        LZMACodec {
            pos_states: pow2_u32(pb),
            state: State::new(),
            is_match_probs: new_probs(STATES * POS_STATES_MAX),
            is_rep_probs: new_probs(STATES),
            is_rep0_probs: new_probs(STATES),
            is_rep1_probs: new_probs(STATES),
            is_rep2_probs: new_probs(STATES),
            is_rep0_long_probs: new_probs(STATES * POS_STATES_MAX),
            dist_slot_probs,
            dist_special_probs,
            dist_align_probs: LengthValueCodec::new(ALIGN_BITS),
        }
    }

    /// Every probability is at its starting value.
    pub closed spec fn initial(&self) -> bool {
        &&& all_initial(self.is_match_probs@)
        &&& all_initial(self.is_rep_probs@)
        &&& all_initial(self.is_rep0_probs@)
        &&& all_initial(self.is_rep1_probs@)
        &&& all_initial(self.is_rep2_probs@)
        &&& all_initial(self.is_rep0_long_probs@)
        &&& forall|i: int| 0 <= i < self.dist_slot_probs@.len() ==> all_initial(#[trigger] self.dist_slot_probs@[i].probs_view())
        &&& forall|i: int| 0 <= i < self.dist_special_probs@.len() ==> all_initial(#[trigger] self.dist_special_probs@[i].probs_view())
        &&& all_initial(self.dist_align_probs.probs_view())
    }

    pub closed spec fn is_match_p(&self, st: int, ps: int) -> RangeEncProbability {
        self.is_match_probs@[st * 16 + ps]
    }

    pub closed spec fn is_rep_p(&self, st: int) -> RangeEncProbability {
        self.is_rep_probs@[st]
    }

    pub closed spec fn is_rep0_p(&self, st: int) -> RangeEncProbability {
        self.is_rep0_probs@[st]
    }

    pub closed spec fn is_rep1_p(&self, st: int) -> RangeEncProbability {
        self.is_rep1_probs@[st]
    }

    pub closed spec fn is_rep2_p(&self, st: int) -> RangeEncProbability {
        self.is_rep2_probs@[st]
    }

    pub closed spec fn is_rep0_long_p(&self, st: int, ps: int) -> RangeEncProbability {
        self.is_rep0_long_probs@[st * 16 + ps]
    }

    /// `a` is `self` after coding the given packet-kind bits in state `st`
    /// at position state `ps` (a negative bit: that table untouched); the
    /// distance tables stay as they are.
    pub closed spec fn bits_coded(self, a: LZMACodec, st: int, ps: int, m: int, r: int, r0: int, r0l: int, r1: int, r2: int) -> bool {
        &&& a.pos_states == self.pos_states
        &&& a.is_match_probs@ == upd(self.is_match_probs@, st * 16 + ps, m)
        &&& a.is_rep_probs@ == upd(self.is_rep_probs@, st, r)
        &&& a.is_rep0_probs@ == upd(self.is_rep0_probs@, st, r0)
        &&& a.is_rep0_long_probs@ == upd(self.is_rep0_long_probs@, st * 16 + ps, r0l)
        &&& a.is_rep1_probs@ == upd(self.is_rep1_probs@, st, r1)
        &&& a.is_rep2_probs@ == upd(self.is_rep2_probs@, st, r2)
    }

    /// The align tree.
    pub closed spec fn align_tree(&self) -> Seq<RangeEncProbability> {
        self.dist_align_probs.probs_view()
    }

    /// `a` is `self` after coding distance `dist` of a match of length
    /// `len`: the slot tree of its length class follows the path to its
    /// slot, then the low bits adapt the slot's reverse tree (slots 4 to 13)
    /// or, past the direct bits, the align tree (slots from 14); every other
    /// distance table and every packet-kind table is unchanged.
    pub closed spec fn dist_coded(self, a: LZMACodec, len: int, dist: int) -> bool {
        let ds = dist_state_of(len);
        exists|s: int| {
            &&& #[trigger] is_dist_slot(dist, s)
            &&& a.dist_slot_probs@.len() == 4
            &&& forall|i: int| 0 <= i < 4 ==> #[trigger] a.slot_tree(i) == (if i == ds {
                tree_update(self.slot_tree(i), s + 64, 32)
            } else {
                self.slot_tree(i)
            })
            &&& a.dist_special_probs@.len() == 10
            &&& forall|k: int| 0 <= k < 10 ==> #[trigger] a.special_tree(k) == (if 4 <= s < 14 && k == s - 4 {
                reverse_tree_update(self.special_tree(k), 1, dist - slot_base(s), pow2_int(slot_footer(s)) / 2)
            } else {
                self.special_tree(k)
            })
            &&& a.align_tree() == (if s >= 14 {
                reverse_tree_update(self.align_tree(), 1, (dist - slot_base(s)) % 16, 8)
            } else {
                self.align_tree()
            })
        }
    }

    /// The range encoder's state after coding, from `s0`, distance `dist` of
    /// a match of length `len` in slot `s`: the slot through the slot tree
    /// of the length class, then the low bits through the slot's reverse
    /// tree (slots 4 to 13) or as direct bits followed by four align bits
    /// (slots from 14).
    pub closed spec fn dist_enc_coded(self, s0: (Seq<u8>, int, u64, int), len: int, dist: int, s: int)
        -> (Seq<u8>, int, u64, int)
    {
        let t = tree_coded(s0, self.slot_tree(dist_state_of(len)), s + 64, 32);
        let reduced = dist - slot_base(s);
        if s < 4 {
            t
        } else if s < 14 {
            reverse_tree_coded(t, self.special_tree(s - 4), 1, reduced, pow2_int(slot_footer(s)) / 2)
        } else {
            let f = direct_full(t.0, t.1, t.2, t.3, reduced / 16, slot_footer(s) - 4);
            reverse_tree_coded(f, self.align_tree(), 1, reduced % 16, 8)
        }
    }

    /// The range encoder's state after coding, from `s0`, a rep packet of
    /// index `rep` and length `len` in state `st` at position state `ps`:
    /// the packet-kind bits, then the length through `rep_len` (not for a
    /// short rep).
    pub closed spec fn rep_enc_coded(self, rep_len: LengthCodec, s0: (Seq<u8>, int, u64, int), st: int, ps: int, rep: int,
        len: int) -> (Seq<u8>, int, u64, int)
    {
        let s2 = enc_bit(enc_bit(s0, self.is_match_p(st, ps), 1), self.is_rep_p(st), 1);
        if len == 1 {
            enc_bit(enc_bit(s2, self.is_rep0_p(st), 0), self.is_rep0_long_p(st, ps), 0)
        } else {
            let s3 = if rep == 0 {
                enc_bit(enc_bit(s2, self.is_rep0_p(st), 0), self.is_rep0_long_p(st, ps), 1)
            } else if rep == 1 {
                enc_bit(enc_bit(s2, self.is_rep0_p(st), 1), self.is_rep1_p(st), 0)
            } else {
                enc_bit(enc_bit(enc_bit(s2, self.is_rep0_p(st), 1), self.is_rep1_p(st), 1), self.is_rep2_p(st), (rep - 2) as u32)
            };
            length_enc_coded(s3, rep_len, len, ps)
        }
    }

    /// The distance of a match of length `len` read from decoder state `d`
    /// and the state after it: the slot, then the low bits as
    /// `dist_enc_coded` writes them; `None` when the stream ends first or a
    /// direct bit is corrupt.
    pub closed spec fn dist_decoded(self, d: (int, int, Seq<u8>), len: int) -> Option<(int, (int, int, Seq<u8>))> {
        match tree_decoded(d, self.slot_tree(dist_state_of(len)), 1, 32) {
            None => None,
            Some((leaf, d1)) => {
                let s = leaf - 64;
                if s < 4 {
                    Some((s, d1))
                } else if s < 14 {
                    match reverse_tree_decoded(d1, self.special_tree(s - 4), 1, pow2_int(slot_footer(s)) / 2, 1, 0) {
                        None => None,
                        Some((v, d2)) => Some((slot_base(s) + v, d2)),
                    }
                } else {
                    match direct_dec(d1, slot_footer(s) - 4, 0) {
                        None => None,
                        Some((v, d2)) => match reverse_tree_decoded(d2, self.align_tree(), 1, 8, 1, 0) {
                            None => None,
                            Some((a, d3)) => Some((slot_base(s) + v * 16 + a, d3)),
                        },
                    }
                }
            },
        }
    }

    /// The distance tables of `a` are those of `self`.
    pub closed spec fn dist_tables_same(self, a: LZMACodec) -> bool {
        &&& a.dist_slot_probs == self.dist_slot_probs
        &&& a.dist_special_probs == self.dist_special_probs
        &&& a.dist_align_probs == self.dist_align_probs
    }

    /// The price of `bit` under the "is match" probability of `state` and `pos_state`.
    pub fn is_match_price(&self, state: usize, pos_state: usize, bit: u32) -> (r: RangeEncPrice)
        requires
            self.wf(),
            state < STATES,
            pos_state < self.num_pos_states(),
            bit < 2,
        ensures
            r == RangeEncPrice::bit_price(self.is_match_p(state as int, pos_state as int), bit),
    {
        self.is_match_probs[state * POS_STATES_MAX + pos_state].get_bit_price(bit)
    }

    pub fn is_rep_price(&self, state: usize, bit: u32) -> (r: RangeEncPrice)
        requires
            self.wf(),
            state < STATES,
            bit < 2,
        ensures
            r == RangeEncPrice::bit_price(self.is_rep_p(state as int), bit),
    {
        self.is_rep_probs[state].get_bit_price(bit)
    }

    pub fn is_rep0_price(&self, state: usize, bit: u32) -> (r: RangeEncPrice)
        requires
            self.wf(),
            state < STATES,
            bit < 2,
        ensures
            r == RangeEncPrice::bit_price(self.is_rep0_p(state as int), bit),
    {
        self.is_rep0_probs[state].get_bit_price(bit)
    }

    pub fn is_rep1_price(&self, state: usize, bit: u32) -> (r: RangeEncPrice)
        requires
            self.wf(),
            state < STATES,
            bit < 2,
        ensures
            r == RangeEncPrice::bit_price(self.is_rep1_p(state as int), bit),
    {
        self.is_rep1_probs[state].get_bit_price(bit)
    }

    pub fn is_rep2_price(&self, state: usize, bit: u32) -> (r: RangeEncPrice)
        requires
            self.wf(),
            state < STATES,
            bit < 2,
        ensures
            r == RangeEncPrice::bit_price(self.is_rep2_p(state as int), bit),
    {
        self.is_rep2_probs[state].get_bit_price(bit)
    }

    pub fn is_rep0_long_price(&self, state: usize, pos_state: usize, bit: u32) -> (r: RangeEncPrice)
        requires
            self.wf(),
            state < STATES,
            pos_state < self.num_pos_states(),
            bit < 2,
        ensures
            r == RangeEncPrice::bit_price(self.is_rep0_long_p(state as int, pos_state as int), bit),
    {
        self.is_rep0_long_probs[state * POS_STATES_MAX + pos_state].get_bit_price(bit)
    }

    /// The slot tree of `dist_state`.
    pub closed spec fn slot_tree(&self, dist_state: int) -> Seq<RangeEncProbability> {
        self.dist_slot_probs@[dist_state].probs_view()
    }

    /// The low-bit tree of slot `k + 4`.
    pub closed spec fn special_tree(&self, k: int) -> Seq<RangeEncProbability> {
        self.dist_special_probs@[k].probs_view()
    }

    /// The price of distance slot `slot` in slot table `dist_state`.
    pub fn dist_slot_price(&self, dist_state: usize, slot: u32) -> (r: RangeEncPrice)
        requires
            self.wf(),
            dist_state < DIST_STATES,
            slot < 64,
        ensures
            r.0 as int == path_price(self.slot_tree(dist_state as int), 0, slot + 64),
    {
        self.dist_slot_probs[dist_state].get_bit_tree_price(slot)
    }

    /// The price of the low bits `reduced` of a distance in slot `k + 4`.
    pub fn dist_special_price(&self, k: usize, reduced: u32) -> (r: RangeEncPrice)
        requires
            self.wf(),
            k < 10,
            (reduced as int) < pow2_int(slot_footer(k + 4)),
        ensures
            r.0 as int == reverse_path_price(self.special_tree(k as int), 0, 1, reduced as int, pow2_int(slot_footer(k + 4)) / 2),
    {
        self.dist_special_probs[k].get_reverse_bit_tree_price(reduced)
    }

    /// The price of the four align bits `v`.
    pub fn dist_align_price(&self, v: u32) -> (r: RangeEncPrice)
        requires
            self.wf(),
            v < 16,
    {
        self.dist_align_probs.get_reverse_bit_tree_price(v)
    }

    /// The position state of output position `pos`.
    pub fn pos_state(&self, pos: u64) -> (r: u32)
        requires
            self.wf(),
        ensures
            r as int == pos as int % self.num_pos_states(),
            (r as int) < self.num_pos_states(),
    {
        (pos % self.pos_states as u64) as u32
    }
}

/// The match and rep price tables kept by the optimal picker.
pub struct LZMAEncoderData {
    pub dist_price_count: i32,
    pub align_price_count: i32,
    pub dist_slot_prices_size: u32,
    /// `dist_slot_prices[state * DIST_SLOTS + slot]`.
    pub dist_slot_prices: Vec<RangeEncPrice>,
    /// `full_dist_prices[state * FULL_DISTANCES + dist]`.
    pub full_dist_prices: Vec<RangeEncPrice>,
    pub align_prices: Vec<RangeEncPrice>,
}

impl LZMAEncoderData {
    pub open spec fn wf(&self) -> bool {
        &&& 1 <= self.dist_slot_prices_size <= DIST_SLOTS
        &&& self.dist_slot_prices@.len() == DIST_STATES * DIST_SLOTS
        &&& self.full_dist_prices@.len() == DIST_STATES * FULL_DISTANCES
        &&& self.align_prices@.len() == ALIGN_SIZE
    }

    pub fn new(dict_size: u32) -> (r: Self)
        requires
            dict_size >= 1,
        ensures
            r.wf(),
    {
        let size: u32 = get_dist_slot(dict_size - 1) + 1;
        LZMAEncoderData {
            dist_price_count: 0,
            align_price_count: 0,
            dist_slot_prices_size: size,
            dist_slot_prices: vec![RangeEncPrice(0); DIST_STATES * DIST_SLOTS],
            full_dist_prices: vec![RangeEncPrice(0); DIST_STATES * FULL_DISTANCES],
            align_prices: vec![RangeEncPrice(0); ALIGN_SIZE],
        }
    }
}

/// What the encoder must know of the bytes at the read head to code a literal.
#[derive(Debug, Clone, Copy, PartialEq, Eq, Structural)]
pub struct LiteralCtx {
    pub byte: u8,
    pub match_byte: u8,
    pub prev_byte: u8,
}

/// The packet encoder's models and the price tables derived from them.
pub struct EncoderPriceCalc {
    pub(crate) codec: LZMACodec,
    pub(crate) literal_encoder: LiteralCodecEncoder,
    pub(crate) match_len_encoder: LengthCodecEncoder,
    pub(crate) rep_len_encoder: LengthCodecEncoder,
    pub(crate) data: LZMAEncoderData,
}

impl EncoderPriceCalc {
    pub closed spec fn wf(&self) -> bool {
        &&& self.codec.wf()
        &&& self.literal_encoder.wf()
        &&& self.match_len_encoder.wf()
        &&& self.rep_len_encoder.wf()
        &&& self.match_len_encoder.num_pos_states() == self.codec.num_pos_states()
        &&& self.rep_len_encoder.num_pos_states() == self.codec.num_pos_states()
        &&& self.match_len_encoder.nice_len() == MATCH_LEN_MAX
        &&& self.rep_len_encoder.nice_len() == MATCH_LEN_MAX
        &&& self.data.wf()
    }

    pub closed spec fn state_spec(&self) -> State {
        self.codec.state
    }

    pub closed spec fn num_pos_states(&self) -> int {
        self.codec.num_pos_states()
    }

    pub closed spec fn nice_len(&self) -> int {
        self.match_len_encoder.nice_len()
    }

    pub closed spec fn codec_view(&self) -> LZMACodec {
        self.codec
    }

    /// Every probability table of `other` is that of `self`.
    pub open spec fn tables_same(&self, other: &EncoderPriceCalc) -> bool {
        &&& other.codec_view() == self.codec_view()
        &&& other.literal_view() == self.literal_view()
        &&& other.match_len_view() == self.match_len_view()
        &&& other.rep_len_view() == self.rep_len_view()
        &&& other.num_pos_states() == self.num_pos_states()
    }

    pub closed spec fn literal_view(&self) -> LiteralCodec {
        self.literal_encoder.codec_view()
    }

    pub closed spec fn match_len_view(&self) -> LengthCodec {
        self.match_len_encoder.codec_view()
    }

    pub closed spec fn rep_len_view(&self) -> LengthCodec {
        self.rep_len_encoder.codec_view()
    }

    /// The price of a literal packet for `cur_byte` at `pos` in state `st`:
    /// the "is match" 0-bit, then the byte normal or matched by state.
    pub closed spec fn literal_price_of(&self, cur_byte: u8, match_byte: u8, prev_byte: u8, pos: u64, st: int) -> int {
        let lit = self.literal_view();
        let t = lit.tables(lit.context(prev_byte, pos));
        let packet = RangeEncPrice::bit_price(self.codec_view().is_match_p(st, pos as int % self.num_pos_states()), 0).0 as int;
        sat_add(packet, if st < 7 {
            crate::literals_codec::matched_price(t, cur_byte + 0x100, 0, 0x80, false, 0)
        } else {
            crate::literals_codec::matched_price(t, cur_byte + 0x100, match_byte + 0x100, 0x80, true, 0)
        })
    }

    /// The cached price of match length `len` under `ps`.
    pub closed spec fn match_len_price(&self, len: int, ps: int) -> int {
        self.match_len_encoder.price_of(len, ps).0 as int
    }

    /// The cached price of rep length `len` under `ps`.
    pub closed spec fn rep_len_price(&self, len: int, ps: int) -> int {
        self.rep_len_encoder.price_of(len, ps).0 as int
    }

    /// The price of slot `slot` under `dist_state`: its tree path, plus the
    /// direct bits of slots from 14 on.
    pub closed spec fn slot_price_spec(&self, dist_state: int, slot: int) -> int {
        let tree = path_price(self.codec.slot_tree(dist_state), 0, slot + 64);
        if slot < 14 { tree } else { sat_add(tree, (slot / 2 - 5) * 16) }
    }

    /// The price of the low bits `j` of a distance in slot `slot`.
    pub closed spec fn special_price_spec(&self, slot: int, j: int) -> int {
        reverse_path_price(self.codec.special_tree(slot - 4), 0, 1, j, pow2_int(slot_footer(slot)) / 2)
    }

    pub closed spec fn slot_prices_view(&self) -> Seq<RangeEncPrice> {
        self.data.dist_slot_prices@
    }

    pub closed spec fn full_prices_view(&self) -> Seq<RangeEncPrice> {
        self.data.full_dist_prices@
    }

    /// Distances left to code before the distance prices are refreshed.
    pub closed spec fn dist_count(&self) -> int {
        self.data.dist_price_count as int
    }

    pub closed spec fn align_prices_view(&self) -> Seq<RangeEncPrice> {
        self.data.align_prices@
    }

    /// The number of slots whose prices are kept.
    pub closed spec fn slot_count(&self) -> int {
        self.data.dist_slot_prices_size as int
    }

    pub fn new(dict_size: u32, lc: u32, lp: u32, pb: u32, nice_len: u32) -> (r: Self)
        requires
            dict_size >= 1,
            lc <= 8,
            lp <= 4,
            pb <= 4,
            2 <= nice_len <= MATCH_LEN_MAX,
        ensures
            r.wf(),
            r.state_spec().idx() == 0,
            r.state_spec().reps_view() == seq![0u32, 0u32, 0u32, 0u32],
            r.nice_len() == MATCH_LEN_MAX,
            r.codec_view().initial(),
            r.match_len_view().initial(),
            r.rep_len_view().initial(),
            forall|i: int| 0 <= i < r.literal_view().num_contexts() ==> all_initial(#[trigger] r.literal_view().tables(i)),
    {
        EncoderPriceCalc {
            codec: LZMACodec::new(pb),
            literal_encoder: LiteralCodecEncoder::new(lc, lp),
            match_len_encoder: LengthCodecEncoder::new(pb, MATCH_LEN_MAX as u32),
            rep_len_encoder: LengthCodecEncoder::new(pb, MATCH_LEN_MAX as u32),
            data: LZMAEncoderData::new(dict_size),
        }
    }

    /// The position state of output position `pos`.
    pub fn pos_state(&self, pos: u64) -> (r: u32)
        requires
            self.wf(),
        ensures
            (r as int) < self.num_pos_states(),
    {
        self.codec.pos_state(pos)
    }

    /// The current state of the packet state machine.
    pub fn state(&self) -> (r: State)
        requires
            self.wf(),
        ensures
            r == self.state_spec(),
            r.wf(),
    {
        self.codec.state
    }

    /// Codes a literal at output position `pos`, normal or matched by state.
    pub fn encode_literal(&mut self, rc: &mut RangeEncoder, pos: u64, ctx: LiteralCtx)
        requires
            old(self).wf(),
            old(rc).wf(),
        ensures
            final(self).wf(),
            final(rc).wf(),
            final(self).state_spec().reps_view() == old(self).state_spec().reps_view(),
            final(self).state_spec().idx() == literal_next(old(self).state_spec().idx()),
            final(self).nice_len() == old(self).nice_len(),
            old(rc).emitted().is_prefix_of(final(rc).emitted()),
            ({
                let st = old(self).state_spec().idx();
                let ps = pos as int % old(self).num_pos_states();
                let lit = old(self).literal_view();
                let c = lit.context(ctx.prev_byte, pos);
                &&& old(self).codec_view().bits_coded(final(self).codec_view(), st, ps, 0, -1, -1, -1, -1, -1)
                &&& old(self).codec_view().dist_tables_same(final(self).codec_view())
                &&& LiteralCodec::only_context_changed(lit, final(self).literal_view(), c,
                    if st < 7 { tree_update(lit.tables(c), ctx.byte + 0x100, 0x80) }
                    else { matched_update(lit.tables(c), ctx.byte + 0x100, ctx.match_byte + 0x100, 0x80, true) })
                &&& final(self).match_len_view() == old(self).match_len_view()
                &&& final(self).rep_len_view() == old(self).rep_len_view()
            }),
            ({
                let st = old(self).state_spec().idx();
                let ps = pos as int % old(self).num_pos_states();
                let lit = old(self).literal_view();
                let c = lit.context(ctx.prev_byte, pos);
                let s1 = enc_bit(old(rc).coder_view(), old(self).codec_view().is_match_p(st, ps), 0);
                final(rc).coder_view() == (if st < 7 {
                    tree_coded(s1, lit.tables(c), ctx.byte + 0x100, 0x80)
                } else {
                    matched_coded(s1, lit.tables(c), ctx.byte + 0x100, ctx.match_byte + 0x100, 0x80, true)
                })
            }),
    {
        let pos_state: u32 = self.codec.pos_state(pos);
        let idx: usize = self.codec.state.get_idx() as usize * POS_STATES_MAX + pos_state as usize;
        rc.encode_bit(&mut self.codec.is_match_probs[idx], 0);
        if self.codec.state.is_literal() {
            self.literal_encoder.encode_normal(rc, ctx.byte, ctx.prev_byte, pos);
        } else {
            self.literal_encoder.encode_matched(rc, ctx.byte, ctx.prev_byte, pos, ctx.match_byte);
        }
        self.codec.state.update_literal();
    }

    /// Codes a new match at output position `pos`.
    pub fn encode_match(&mut self, rc: &mut RangeEncoder, pos: u64, m: Match)
        requires
            old(self).wf(),
            old(rc).wf(),
            MATCH_LEN_MIN <= m.len <= MATCH_LEN_MAX,
        ensures
            final(self).wf(),
            final(rc).wf(),
            final(self).state_spec().reps_view() == seq![m.distance] + old(self).state_spec().reps_view().subrange(0, 3),
            final(self).state_spec().idx() == match_next(old(self).state_spec().idx()),
            final(self).nice_len() == old(self).nice_len(),
            old(rc).emitted().is_prefix_of(final(rc).emitted()),
            ({
                let st = old(self).state_spec().idx();
                let ps = pos as int % old(self).num_pos_states();
                &&& old(self).codec_view().bits_coded(final(self).codec_view(), st, ps, 1, 0, -1, -1, -1, -1)
                &&& old(self).codec_view().dist_coded(final(self).codec_view(), m.len as int, m.distance as int)
                &&& length_coded(old(self).match_len_view(), final(self).match_len_view(), m.len as int, ps)
                &&& final(self).rep_len_view() == old(self).rep_len_view()
                &&& final(self).literal_view() == old(self).literal_view()
            }),
            ({
                let st = old(self).state_spec().idx();
                let ps = pos as int % old(self).num_pos_states();
                let c = old(self).codec_view();
                let s2 = enc_bit(enc_bit(old(rc).coder_view(), c.is_match_p(st, ps), 1), c.is_rep_p(st), 0);
                let s3 = length_enc_coded(s2, old(self).match_len_view(), m.len as int, ps);
                exists|s: int| #[trigger] is_dist_slot(m.distance as int, s)
                    && final(rc).coder_view() == c.dist_enc_coded(s3, m.len as int, m.distance as int, s)
            }),
    {
        let ghost c0 = self.codec;
        let ghost g0 = rc.coder_view();
        let pos_state: u32 = self.codec.pos_state(pos);
        let state_idx: usize = self.codec.state.get_idx() as usize;
        rc.encode_bit(&mut self.codec.is_match_probs[state_idx * POS_STATES_MAX + pos_state as usize], 1);
        rc.encode_bit(&mut self.codec.is_rep_probs[state_idx], 0);
        let ghost g2 = rc.coder_view();
        assert(g2 == enc_bit(enc_bit(g0, c0.is_match_p(state_idx as int, pos_state as int), 1), c0.is_rep_p(state_idx as int), 0));
        self.codec.state.update_match(m.distance);
        self.match_len_encoder.encode(rc, m.len, pos_state);
        let ghost g3 = rc.coder_view();
        let dist_slot: u32 = get_dist_slot(m.distance);
        let dist_state: usize = get_dist_state(m.len);
        self.codec.dist_slot_probs[dist_state].encode_bit_tree(rc, dist_slot);
        let ghost g4 = rc.coder_view();
        assert(g4 == tree_coded(g3, c0.slot_tree(dist_state_of(m.len as int)), dist_slot + 64, 32));
        if dist_slot >= DIST_MODEL_START {
            let footer_bits: u32 = dist_slot / 2 - 1;
            let base: u32 = (2 + dist_slot % 2) * pow2_u32(footer_bits);
            let reduced: u32 = m.distance - base;
            if dist_slot < DIST_MODEL_END {
                let k: usize = (dist_slot - DIST_MODEL_START) as usize;
                assert(slot_footer(k + 4) == footer_bits);
                self.encode_special_dist_slot(rc, k, reduced);
                assert(rc.coder_view() == c0.dist_enc_coded(g3, m.len as int, m.distance as int, dist_slot as int));
            } else {
                proof {
                    lemma_pow2_int_split(footer_bits as int, reduced as int);
                }
                rc.encode_direct_bits(reduced / 16, footer_bits - ALIGN_BITS);
                let ghost g5 = rc.coder_view();
                assert(g5 == direct_full(g4.0, g4.1, g4.2, g4.3, reduced as int / 16, slot_footer(dist_slot as int) - 4));
                assert(self.codec.align_tree() == c0.align_tree());
                self.codec.dist_align_probs.encode_reverse_bit_tree(rc, reduced % 16);
                assert(rc.coder_view() == reverse_tree_coded(g5, c0.align_tree(), 1, reduced as int % 16, 8));
                assert(reduced as int == m.distance as int - slot_base(dist_slot as int));
                assert(rc.coder_view() == c0.dist_enc_coded(g3, m.len as int, m.distance as int, dist_slot as int));
                if self.data.align_price_count > 0 {
                    self.data.align_price_count = self.data.align_price_count - 1;
                }
            }
        }
        if self.data.dist_price_count > 0 {
            self.data.dist_price_count = self.data.dist_price_count - 1;
        }
        proof {
            let s0 = dist_slot as int;
            assert(is_dist_slot(m.distance as int, s0));
            assert(rc.coder_view() == c0.dist_enc_coded(g3, m.len as int, m.distance as int, s0));
        }
    }

    /// Codes the low bits `symbol` of a distance in slot `index + 4` with
    /// that slot's reverse bit tree.
    fn encode_special_dist_slot(&mut self, rc: &mut RangeEncoder, index: usize, symbol: u32)
        requires
            old(self).wf(),
            old(rc).wf(),
            index < 10,
            (symbol as int) < pow2_int(slot_footer(index + 4)),
        ensures
            final(self).wf(),
            final(self).state_spec() == old(self).state_spec(),
            final(self).nice_len() == old(self).nice_len(),
            final(self).data == old(self).data,
            final(self).codec.dist_slot_probs == old(self).codec.dist_slot_probs,
            final(self).codec.dist_align_probs == old(self).codec.dist_align_probs,
            final(self).codec.is_match_probs == old(self).codec.is_match_probs,
            final(self).codec.is_rep_probs == old(self).codec.is_rep_probs,
            final(self).codec.is_rep0_probs == old(self).codec.is_rep0_probs,
            final(self).codec.is_rep0_long_probs == old(self).codec.is_rep0_long_probs,
            final(self).codec.is_rep1_probs == old(self).codec.is_rep1_probs,
            final(self).codec.is_rep2_probs == old(self).codec.is_rep2_probs,
            final(self).codec.pos_states == old(self).codec.pos_states,
            final(self).literal_encoder == old(self).literal_encoder,
            final(self).match_len_encoder == old(self).match_len_encoder,
            final(self).rep_len_encoder == old(self).rep_len_encoder,
            final(self).codec.dist_special_probs@.len() == 10,
            forall|k: int| 0 <= k < 10 ==> #[trigger] final(self).codec.special_tree(k) == (if k == index {
                reverse_tree_update(old(self).codec.special_tree(k), 1, symbol as int, pow2_int(slot_footer(index + 4)) / 2)
            } else {
                old(self).codec.special_tree(k)
            }),
            final(rc).wf(),
            old(rc).emitted().is_prefix_of(final(rc).emitted()),
            final(rc).coder_view() == reverse_tree_coded(old(rc).coder_view(), old(self).codec.special_tree(index as int), 1,
                symbol as int, pow2_int(slot_footer(index + 4)) / 2),
    {
        self.codec.dist_special_probs[index].encode_reverse_bit_tree(rc, symbol);
    }

    /// Codes a rep match of index `rep` at output position `pos`; length 1
    /// with index 0 is a short rep.
    pub fn encode_rep_match(&mut self, rc: &mut RangeEncoder, pos: u64, rep: u32, len: u32)
        requires
            old(self).wf(),
            old(rc).wf(),
            rep < 4,
            1 <= len <= MATCH_LEN_MAX,
            len == 1 ==> rep == 0,
        ensures
            final(self).wf(),
            final(rc).wf(),
            len == 1 ==> final(self).state_spec().reps_view() == old(self).state_spec().reps_view()
                && final(self).state_spec().idx() == short_rep_next(old(self).state_spec().idx()),
            len > 1 ==> final(self).state_spec().reps_view() == reps_after_long_rep(
                old(self).state_spec().reps_view(),
                rep as int,
            ) && final(self).state_spec().idx() == long_rep_next(old(self).state_spec().idx()),
            final(self).nice_len() == old(self).nice_len(),
            old(rc).emitted().is_prefix_of(final(rc).emitted()),
            ({
                let st = old(self).state_spec().idx();
                let ps = pos as int % old(self).num_pos_states();
                let b = rep_bits(rep as int, len as int);
                &&& old(self).codec_view().bits_coded(final(self).codec_view(), st, ps, 1, 1, b.0, b.1, b.2, b.3)
                &&& old(self).codec_view().dist_tables_same(final(self).codec_view())
                &&& len > 1 ==> length_coded(old(self).rep_len_view(), final(self).rep_len_view(), len as int, ps)
                &&& len == 1 ==> final(self).rep_len_view() == old(self).rep_len_view()
                &&& final(self).match_len_view() == old(self).match_len_view()
                &&& final(self).literal_view() == old(self).literal_view()
            }),
            final(rc).coder_view() == old(self).codec_view().rep_enc_coded(old(self).rep_len_view(), old(rc).coder_view(),
                old(self).state_spec().idx(), pos as int % old(self).num_pos_states(), rep as int, len as int),
    {
        let pos_state: u32 = self.codec.pos_state(pos);
        let state: usize = self.codec.state.get_idx() as usize;
        rc.encode_bit(&mut self.codec.is_match_probs[state * POS_STATES_MAX + pos_state as usize], 1);
        rc.encode_bit(&mut self.codec.is_rep_probs[state], 1);
        if len == 1 {
            rc.encode_bit(&mut self.codec.is_rep0_probs[state], 0);
            rc.encode_bit(&mut self.codec.is_rep0_long_probs[state * POS_STATES_MAX + pos_state as usize], 0);
            self.codec.state.update_short_rep();
        } else {
            if rep == 0 {
                rc.encode_bit(&mut self.codec.is_rep0_probs[state], 0);
                rc.encode_bit(&mut self.codec.is_rep0_long_probs[state * POS_STATES_MAX + pos_state as usize], 1);
            } else {
                rc.encode_bit(&mut self.codec.is_rep0_probs[state], 1);
                if rep == 1 {
                    rc.encode_bit(&mut self.codec.is_rep1_probs[state], 0);
                } else {
                    rc.encode_bit(&mut self.codec.is_rep1_probs[state], 1);
                    rc.encode_bit(&mut self.codec.is_rep2_probs[state], rep - 2);
                }
            }
            self.rep_len_encoder.encode(rc, len, pos_state);
            self.codec.state.update_long_rep(rep as usize);
        }
    }
}

/// A reduced distance of a slot from 14 on splits into direct bits and
/// four align bits.
proof fn lemma_pow2_int_split(footer: int, reduced: int)
    requires
        6 <= footer <= 30,
        0 <= reduced < pow2_int(footer),
    ensures
        reduced / 16 < pow2_int(footer - 4),
        reduced % 16 < 16,
{
    lemma_pow2_split_16(footer);
    let p = pow2_int(footer - 4);
    assert(reduced / 16 < p) by (nonlinear_arith)
        requires reduced < 16 * p, reduced >= 0;
}

proof fn lemma_pow2_split_16(n: int)
    requires
        n >= 4,
    ensures
        pow2_int(n) == 16 * pow2_int(n - 4),
{
    lemma_pow2_int_step(n - 1);
    lemma_pow2_int_step(n - 2);
    lemma_pow2_int_step(n - 3);
    lemma_pow2_int_step(n - 4);
}

/// The packet decoder: the same models as the encoder, driven by decoded bits.
pub struct LZMACodecDecoder {
    codec: LZMACodec,
    literal_decoder: LiteralCodecDecoder,
    match_len_decoder: LengthCodecDecoder,
    rep_len_decoder: LengthCodecDecoder,
}

impl LZMACodecDecoder {
    pub closed spec fn wf(&self) -> bool {
        &&& self.codec.wf()
        &&& self.literal_decoder.wf()
        &&& self.match_len_decoder.wf()
        &&& self.rep_len_decoder.wf()
        &&& self.match_len_decoder.num_pos_states() == self.codec.num_pos_states()
        &&& self.rep_len_decoder.num_pos_states() == self.codec.num_pos_states()
    }

    pub closed spec fn state_spec(&self) -> State {
        self.codec.state
    }

    pub closed spec fn codec_view(&self) -> LZMACodec {
        self.codec
    }

    pub closed spec fn literal_view(&self) -> LiteralCodec {
        self.literal_decoder.codec_view()
    }

    pub closed spec fn match_len_view(&self) -> LengthCodec {
        self.match_len_decoder.codec_view()
    }

    pub closed spec fn rep_len_view(&self) -> LengthCodec {
        self.rep_len_decoder.codec_view()
    }

    /// The length and distance of a new match read from decoder state `d`
    /// at position state `ps`, after its packet-kind bits, and the state
    /// after them; `None` when the stream ends first or is corrupt.
    pub closed spec fn match_decoded(self, d: (int, int, Seq<u8>), ps: int) -> Option<(int, int, (int, int, Seq<u8>))> {
        match length_decoded(d, self.match_len_decoder.codec_view(), ps) {
            None => None,
            Some((l, d1)) => match self.codec.dist_decoded(d1, l) {
                None => None,
                Some((dist, d2)) => Some((l, dist, d2)),
            },
        }
    }

    /// Rep index `rep` with the rep length read from `d`.
    pub closed spec fn rep_len_then(self, rep: int, d: (int, int, Seq<u8>), ps: int) -> Option<(int, int, (int, int, Seq<u8>))> {
        match length_decoded(d, self.rep_len_decoder.codec_view(), ps) {
            None => None,
            Some((l, d1)) => Some((rep, l, d1)),
        }
    }

    /// The rep index and length of a rep packet read from decoder state `d`
    /// at position state `ps`, after its packet-kind bits (length 1 for a
    /// short rep), and the state after them; `None` when the stream ends
    /// first.
    pub closed spec fn rep_decoded(self, d: (int, int, Seq<u8>), ps: int) -> Option<(int, int, (int, int, Seq<u8>))> {
        let st = self.codec.state.idx();
        let c = self.codec;
        match dec_bit(d, c.is_rep0_p(st)) {
            None => None,
            Some((a, d1)) => if a == 0 {
                match dec_bit(d1, c.is_rep0_long_p(st, ps)) {
                    None => None,
                    Some((b, d2)) => if b == 0 { Some((0, 1, d2)) } else { self.rep_len_then(0, d2, ps) },
                }
            } else {
                match dec_bit(d1, c.is_rep1_p(st)) {
                    None => None,
                    Some((b, d2)) => if b == 0 {
                        self.rep_len_then(1, d2, ps)
                    } else {
                        match dec_bit(d2, c.is_rep2_p(st)) {
                            None => None,
                            Some((e, d3)) => self.rep_len_then(if e == 0 { 2 } else { 3 }, d3, ps),
                        }
                    },
                }
            },
        }
    }

    /// The decoded bytes `data` after the literal of a literal packet read
    /// from decoder state `d`, after its packet-kind bit, and the state
    /// after it; `None` when the stream ends first or the match byte lies
    /// past the window.
    pub closed spec fn literal_decoded(self, d: (int, int, Seq<u8>), data: Seq<u8>, back: int) -> Option<(Seq<u8>, (int, int, Seq<u8>))> {
        let st = self.codec.state.idx();
        let reps = self.codec.state.reps_view();
        let prev: u8 = if data.len() == 0 { 0 } else { data.last() };
        let lit = self.literal_decoder.codec_view();
        let c = lit.context(prev, data.len() as u64);
        if st < 7 {
            match tree_decoded(d, lit.tables(c), 1, 0x80) {
                None => None,
                Some((leaf, d2)) => Some((data.push((leaf - 0x100) as u8), d2)),
            }
        } else if reps[0] >= back {
            None
        } else {
            match matched_decoded(d, lit.tables(c), 1, data[data.len() - 1 - reps[0]] + 0x100, 0x80, true) {
                None => None,
                Some((leaf, d2)) => Some((data.push((leaf - 0x100) as u8), d2)),
            }
        }
    }

    /// The decoded bytes `data` after one packet read from decoder state
    /// `d`, of which the last `back` bytes may be referred to, and the state
    /// after it; `None` when the stream ends first, is corrupt, or refers
    /// past the window.
    pub closed spec fn packet_decoded(self, d: (int, int, Seq<u8>), data: Seq<u8>, back: int) -> Option<(Seq<u8>, (int, int, Seq<u8>))> {
        let st = self.codec.state.idx();
        let reps = self.codec.state.reps_view();
        let ps = data.len() as int % self.codec.num_pos_states();
        match dec_bit(d, self.codec.is_match_p(st, ps)) {
            None => None,
            Some((b0, d1)) => if b0 == 0 {
                self.literal_decoded(d1, data, back)
            } else {
                match dec_bit(d1, self.codec.is_rep_p(st)) {
                    None => None,
                    Some((b1, d2)) => {
                        let m = if b1 == 0 {
                            self.match_decoded(d2, ps)
                        } else {
                            match self.rep_decoded(d2, ps) {
                                None => None,
                                Some((rep, l, d3)) => Some((l, reps[rep] as int, d3)),
                            }
                        };
                        match m {
                            None => None,
                            Some((l, dist, d3)) => if dist >= back { None } else { Some((lz_copy(data, dist, l), d3)) },
                        }
                    },
                }
            },
        }
    }

    pub fn new(lc: u32, lp: u32, pb: u32) -> (r: Self)
        requires
            lc <= 8,
            lp <= 4,
            pb <= 4,
        ensures
            r.wf(),
            r.state_spec().idx() == 0,
            r.state_spec().reps_view() == seq![0u32, 0u32, 0u32, 0u32],
            r.codec_view().initial(),
            r.match_len_view().initial(),
            r.rep_len_view().initial(),
            forall|i: int| 0 <= i < r.literal_view().num_contexts() ==> all_initial(#[trigger] r.literal_view().tables(i)),
    {
        LZMACodecDecoder {
            codec: LZMACodec::new(pb),
            literal_decoder: LiteralCodecDecoder::new(lc, lp),
            match_len_decoder: LengthCodecDecoder::new(pb),
            rep_len_decoder: LengthCodecDecoder::new(pb),
        }
    }

    /// Decodes one packet and appends its bytes to `output`, which must have
    /// room for a longest match.
    #[verifier::rlimit(40)]
    pub fn decode_one_packet(&mut self, rc: &mut RangeDecoder, output: &mut DecoderDataBuffer) -> (r: Result<(), LzmaError>)
        requires
            old(self).wf(),
            old(rc).wf(),
            old(output).wf(),
            old(output).data().len() + MATCH_LEN_MAX <= u64::MAX,
            old(output).data().len() + MATCH_LEN_MAX - old(output).flushed() <= old(output).size(),
        ensures
            final(self).wf(),
            final(rc).wf(),
            final(output).wf(),
            final(output).flushed() == old(output).flushed(),
            final(output).size() == old(output).size(),
            final(output).total() == old(output).total(),
            old(output).data().is_prefix_of(final(output).data()),
            r is Ok ==> old(output).data().len() < final(output).data().len() <= old(output).data().len() + MATCH_LEN_MAX,
            r is Ok ==> (exists|b: u8| final(output).data() == #[trigger] old(output).data().push(b))
                || (exists|d: int, l: int| 0 <= d < old(output).back() && 1 <= l <= MATCH_LEN_MAX
                    && final(output).data() == #[trigger] lz_copy(old(output).data(), d, l)),
            r is Err ==> final(output).data() == old(output).data(),
            r matches Err(e) ==> (e == LzmaError::UnexpectedEof && final(rc).rest().len() == 0)
                || e == LzmaError::InvalidDistance || e == LzmaError::CorruptStream,
            r is Ok ==> old(self).packet_decoded(old(rc).dec_view(), old(output).data(), old(output).back())
                == Some((final(output).data(), final(rc).dec_view())),
            r is Err ==> old(self).packet_decoded(old(rc).dec_view(), old(output).data(), old(output).back()) is None,
    {
        let ghost s0 = *self;
        let ghost d0 = rc.dec_view();
        let pos: u64 = output.position();
        let pos_state: u32 = self.codec.pos_state(pos);
        let index: usize = self.codec.state.get_idx() as usize;
        let bit: u32 = match rc.decode_bit(&mut self.codec.is_match_probs[index * POS_STATES_MAX + pos_state as usize]) {
            Ok(b) => b,
            Err(e) => { return Err(e); },
        };
        let ghost d1 = rc.dec_view();
        proof {
            assert(dec_bit(d0, s0.codec.is_match_p(index as int, pos_state as int)) == Some((bit, d1)));
        }
        if bit == 0 {
            proof {
                assert(self.literal_decoded(d1, output.data(), output.back()) == s0.literal_decoded(d1, output.data(), output.back()));
            }
            return self.decode_literal(rc, output);
        }
        let rep_bit: u32 = match rc.decode_bit(&mut self.codec.is_rep_probs[index]) {
            Ok(b) => b,
            Err(e) => { return Err(e); },
        };
        let ghost d2 = rc.dec_view();
        proof {
            assert(dec_bit(d1, s0.codec.is_rep_p(index as int)) == Some((rep_bit, d2)));
        }
        let m: Match = if rep_bit == 0 {
            proof {
                assert(self.match_decoded(d2, pos_state as int) == s0.match_decoded(d2, pos_state as int));
            }
            match self.decode_match(pos_state, rc) {
                Ok(m) => m,
                Err(e) => { return Err(e); },
            }
        } else {
            proof {
                assert(self.rep_decoded(d2, pos_state as int) == s0.rep_decoded(d2, pos_state as int));
            }
            match self.decode_rep_match(pos_state, rc) {
                Ok(m) => m,
                Err(e) => { return Err(e); },
            }
        };
        if m.distance as usize >= output.available_len_back() {
            return Err(LzmaError::InvalidDistance);
        }
        let ghost before = output.data();
        output.append_match(m.distance, m.len);
        proof {
            crate::data_buffers::lemma_lz_copy_prefix(before, m.distance as int, m.len as int);
            assert(output.data() == lz_copy(before, m.distance as int, m.len as int));
        }
        Ok(())
    }

    fn decode_literal(&mut self, rc: &mut RangeDecoder, output: &mut DecoderDataBuffer) -> (r: Result<(), LzmaError>)
        requires
            old(self).wf(),
            old(rc).wf(),
            old(output).wf(),
            old(output).data().len() + 1 <= u64::MAX,
            old(output).data().len() + 1 - old(output).flushed() <= old(output).size(),
        ensures
            final(self).wf(),
            final(rc).wf(),
            final(output).wf(),
            final(output).flushed() == old(output).flushed(),
            final(output).size() == old(output).size(),
            final(output).total() == old(output).total(),
            old(output).data().is_prefix_of(final(output).data()),
            r is Ok ==> final(output).data().len() == old(output).data().len() + 1,
            r is Ok ==> exists|b: u8| final(output).data() == #[trigger] old(output).data().push(b),
            r is Ok ==> ({
                let d = old(output).data();
                let b = final(output).data().last();
                let prev: u8 = if d.len() == 0 { 0 } else { d.last() };
                let lit = old(self).literal_view();
                let c = lit.context(prev, d.len() as u64);
                let rep0 = old(self).state_spec().reps_view()[0];
                LiteralCodec::only_context_changed(lit, final(self).literal_view(), c,
                    if old(self).state_spec().idx() < 7 { tree_update(lit.tables(c), b + 0x100, 0x80) }
                    else { matched_update(lit.tables(c), b + 0x100, d[d.len() - 1 - rep0] + 0x100, 0x80, true) })
            }),
            r is Ok ==> old(self).codec_view().bits_coded(final(self).codec_view(), 0, 0, -1, -1, -1, -1, -1, -1)
                && old(self).codec_view().dist_tables_same(final(self).codec_view())
                && final(self).match_len_view() == old(self).match_len_view()
                && final(self).rep_len_view() == old(self).rep_len_view(),
            r is Ok ==> final(self).state_spec().idx() == literal_next(old(self).state_spec().idx())
                && final(self).state_spec().reps_view() == old(self).state_spec().reps_view(),
            r is Err ==> final(output).data() == old(output).data(),
            r matches Err(e) ==> (e == LzmaError::UnexpectedEof && final(rc).rest().len() == 0)
                || e == LzmaError::InvalidDistance,
            r is Ok ==> old(self).literal_decoded(old(rc).dec_view(), old(output).data(), old(output).back())
                == Some((final(output).data(), final(rc).dec_view())),
            r is Err ==> old(self).literal_decoded(old(rc).dec_view(), old(output).data(), old(output).back()) is None,
    {
        let back: usize = output.available_len_back();
        let last_byte: u8 = if back == 0 { 0 } else { output.get_byte(0) };
        let pos: u64 = output.position();
        proof {
            let d = output.data();
            assert(back == 0 <==> d.len() == 0);
            assert(last_byte == (if d.len() == 0 { 0u8 } else { d.last() }));
        }
        let byte: u8 = if self.codec.state.is_literal() {
            self.literal_decoder.decode_normal(rc, last_byte, pos)?
        } else {
            let rep0: u32 = self.codec.state.get_rep(0);
            if rep0 as usize >= back {
                return Err(LzmaError::InvalidDistance);
            }
            let match_byte: u8 = output.get_byte(rep0);
            self.literal_decoder.decode_matched(rc, last_byte, pos, match_byte)?
        };
        let ghost before = output.data();
        output.append_byte(byte);
        assert(output.data() == before.push(byte));
        self.codec.state.update_literal();
        Ok(())
    }

    fn decode_match(&mut self, pos_state: u32, rc: &mut RangeDecoder) -> (r: Result<Match, LzmaError>)
        requires
            old(self).wf(),
            old(rc).wf(),
            (pos_state as int) < old(self).codec.num_pos_states(),
        ensures
            final(self).wf(),
            final(rc).wf(),
            r matches Err(e) ==> (e == LzmaError::UnexpectedEof && final(rc).rest().len() == 0)
                || e == LzmaError::CorruptStream,
            r matches Ok(m) ==> MATCH_LEN_MIN <= m.len <= MATCH_LEN_MAX
                && final(self).state_spec().reps_view() == seq![m.distance] + old(self).state_spec().reps_view().subrange(0, 3)
                && final(self).state_spec().idx() == match_next(old(self).state_spec().idx())
                && old(self).codec_view().bits_coded(final(self).codec_view(), 0, 0, -1, -1, -1, -1, -1, -1)
                && old(self).codec_view().dist_coded(final(self).codec_view(), m.len as int, m.distance as int)
                && length_coded(old(self).match_len_view(), final(self).match_len_view(), m.len as int, pos_state as int)
                && final(self).rep_len_view() == old(self).rep_len_view()
                && final(self).literal_view() == old(self).literal_view(),
            r matches Ok(m) ==> old(self).match_decoded(old(rc).dec_view(), pos_state as int)
                == Some((m.len as int, m.distance as int, final(rc).dec_view())),
            r is Err ==> old(self).match_decoded(old(rc).dec_view(), pos_state as int) is None,
    {
        let ghost d0 = rc.dec_view();
        let len: u32 = self.match_len_decoder.decode(rc, pos_state)?;
        let ghost d1 = rc.dec_view();
        let dist_state: usize = get_dist_state(len);
        let ghost c0 = self.codec;
        let dist_slot: u32 = self.codec.dist_slot_probs[dist_state].decode_bit_tree(rc)?;
        let ghost c1 = self.codec;
        let ghost mut sp = c1;
        proof {
            assert forall|i: int| 0 <= i < 4 implies #[trigger] c1.slot_tree(i) == (if i == dist_state as int {
                tree_update(c0.slot_tree(i), dist_slot + 64, 32)
            } else {
                c0.slot_tree(i)
            }) by {
                if i != dist_state as int {
                    assert(c1.dist_slot_probs@[i] == c0.dist_slot_probs@[i]);
                }
            }
        }
        let mut distance: u32 = dist_slot;
        if dist_slot >= DIST_MODEL_START {
            let limit: u32 = dist_slot / 2 - 1;
            proof {
                lemma_pow2_int_step(limit as int);
                lemma_pow2_int_step(limit as int + 1);
                lemma_pow2_int_mono(limit as int + 2, 32);
                lemma_pow2_int_32();
                assert((2 + dist_slot % 2) * pow2_int(limit as int) + pow2_int(limit as int) <= 0x1_0000_0000)
                    by (nonlinear_arith)
                    requires 4 * pow2_int(limit as int) <= 0x1_0000_0000, dist_slot % 2 <= 1, pow2_int(limit as int) >= 1;
            }
            let base: u32 = (2 + dist_slot % 2) * pow2_u32(limit);
            if dist_slot < DIST_MODEL_END {
                let k: usize = (dist_slot - DIST_MODEL_START) as usize;
                assert(slot_footer(k + 4) == limit);
                let low: u32 = self.decode_special_dist_slot(rc, k)?;
                distance = base + low;
                proof {
                    let s0 = dist_slot as int;
                    assert(slot_base(s0) == base);
                    assert forall|kk: int| 0 <= kk < 10 implies #[trigger] self.codec.special_tree(kk) == (if 4 <= s0 < 14
                        && kk == s0 - 4 {
                        reverse_tree_update(c0.special_tree(kk), 1, (base + low) - slot_base(s0), pow2_int(slot_footer(s0)) / 2)
                    } else {
                        c0.special_tree(kk)
                    }) by {}
                    assert(self.codec.align_tree() == c0.align_tree());
                    sp = self.codec;
                    assert(forall|kk: int| 0 <= kk < 10 ==> #[trigger] sp.special_tree(kk) == (if 4 <= s0 < 14
                        && kk == s0 - 4 {
                        reverse_tree_update(c0.special_tree(kk), 1, distance - slot_base(s0), pow2_int(slot_footer(s0)) / 2)
                    } else {
                        c0.special_tree(kk)
                    }));
                }
            } else {
                let direct: u32 = rc.decode_direct_bits(limit - ALIGN_BITS)?;
                let align: u32 = self.codec.dist_align_probs.decode_reverse_bit_tree(rc)?;
                proof {
                    lemma_pow2_split_16(limit as int);
                    assert(direct as int * 16 + align < pow2_int(limit as int)) by (nonlinear_arith)
                        requires direct < pow2_int(limit - 4), align < 16,
                            pow2_int(limit as int) == 16 * pow2_int(limit - 4);
                    assert((direct as int * 16 + align) % 16 == align) by (nonlinear_arith)
                        requires align < 16, align >= 0, direct >= 0;
                    let s0 = dist_slot as int;
                    assert(slot_base(s0) == base);
                    assert(self.codec.dist_special_probs == c0.dist_special_probs);
                    assert(self.codec.align_tree() == reverse_tree_update(c0.align_tree(), 1,
                        ((base + (direct * 16 + align)) - slot_base(s0)) % 16, 8));
                }
                distance = base + (direct * 16 + align);
            }
        }
        self.codec.state.update_match(distance);
        proof {
            if dist_slot >= DIST_MODEL_START {
                assert(slot_base(dist_slot as int) == (2 + dist_slot % 2) * pow2_int(dist_slot / 2 - 1));
            }
            assert(is_dist_slot(distance as int, dist_slot as int));
            assert(old(self).codec_view().bits_coded(self.codec_view(), 0, 0, -1, -1, -1, -1, -1, -1));
            assert(length_coded(old(self).match_len_view(), self.match_len_view(), len as int, pos_state as int));
            let s0 = dist_slot as int;
            assert(self.codec.dist_slot_probs == c1.dist_slot_probs);
            assert(c0 == old(self).codec);
            assert(forall|i: int| 0 <= i < 4 ==> #[trigger] self.codec.slot_tree(i) == c1.slot_tree(i));
            if s0 < 4 {
                assert(self.codec.dist_special_probs == c0.dist_special_probs);
                assert(self.codec.dist_align_probs == c0.dist_align_probs);
            }
            let a = self.codec;
            let b = old(self).codec;
            let ds = dist_state_of(len as int);
            assert(ds == dist_state as int);
            assert(forall|i: int| 0 <= i < 4 ==> #[trigger] a.slot_tree(i) == (if i == ds {
                tree_update(b.slot_tree(i), s0 + 64, 32)
            } else {
                b.slot_tree(i)
            }));
            assert(b.dist_special_probs == c0.dist_special_probs);
            if 4 <= s0 < 14 {
                assert(a.dist_special_probs == sp.dist_special_probs);
            } else {
                assert(a.dist_special_probs == b.dist_special_probs);
            }
            assert forall|kk: int| 0 <= kk < 10 implies #[trigger] a.special_tree(kk) == (if 4 <= s0 < 14 && kk == s0 - 4 {
                reverse_tree_update(b.special_tree(kk), 1, distance - slot_base(s0), pow2_int(slot_footer(s0)) / 2)
            } else {
                b.special_tree(kk)
            }) by {
                if 4 <= s0 < 14 {
                    assert(a.special_tree(kk) == sp.special_tree(kk));
                    assert(sp.special_tree(kk) == (if kk == s0 - 4 {
                        reverse_tree_update(c0.special_tree(kk), 1, distance - slot_base(s0), pow2_int(slot_footer(s0)) / 2)
                    } else {
                        c0.special_tree(kk)
                    }));
                } else {
                    assert(a.special_tree(kk) == b.special_tree(kk));
                }
            }
            assert(a.align_tree() == (if s0 >= 14 {
                reverse_tree_update(b.align_tree(), 1, (distance - slot_base(s0)) % 16, 8)
            } else {
                b.align_tree()
            }));
            assert(b.dist_coded(a, len as int, distance as int));
        }
        Ok(Match { len, distance })
    }

    /// Decodes the low bits of a distance in slot `index + 4`.
    fn decode_special_dist_slot(&mut self, rc: &mut RangeDecoder, index: usize) -> (r: Result<u32, LzmaError>)
        requires
            old(self).wf(),
            old(rc).wf(),
            index < 10,
        ensures
            final(self).wf(),
            final(self).state_spec() == old(self).state_spec(),
            final(rc).wf(),
            r matches Ok(v) ==> (v as int) < pow2_int(slot_footer(index + 4)),
            r matches Err(e) ==> e == LzmaError::UnexpectedEof && final(rc).rest().len() == 0,
            final(self).codec.dist_slot_probs == old(self).codec.dist_slot_probs,
            final(self).codec.dist_align_probs == old(self).codec.dist_align_probs,
            final(self).codec.is_match_probs == old(self).codec.is_match_probs,
            final(self).codec.is_rep_probs == old(self).codec.is_rep_probs,
            final(self).codec.is_rep0_probs == old(self).codec.is_rep0_probs,
            final(self).codec.is_rep0_long_probs == old(self).codec.is_rep0_long_probs,
            final(self).codec.is_rep1_probs == old(self).codec.is_rep1_probs,
            final(self).codec.is_rep2_probs == old(self).codec.is_rep2_probs,
            final(self).codec.pos_states == old(self).codec.pos_states,
            final(self).literal_decoder == old(self).literal_decoder,
            final(self).match_len_decoder == old(self).match_len_decoder,
            final(self).rep_len_decoder == old(self).rep_len_decoder,
            final(self).codec.dist_special_probs@.len() == 10,
            r matches Ok(v) ==> reverse_tree_decoded(old(rc).dec_view(), old(self).codec.special_tree(index as int), 1,
                pow2_int(slot_footer(index + 4)) / 2, 1, 0) == Some((v as int, final(rc).dec_view())),
            r is Err ==> reverse_tree_decoded(old(rc).dec_view(), old(self).codec.special_tree(index as int), 1,
                pow2_int(slot_footer(index + 4)) / 2, 1, 0) is None,
            r matches Ok(v) ==> forall|k: int| 0 <= k < 10 ==> #[trigger] final(self).codec.special_tree(k) == (if k == index {
                reverse_tree_update(old(self).codec.special_tree(k), 1, v as int, pow2_int(slot_footer(index + 4)) / 2)
            } else {
                old(self).codec.special_tree(k)
            }),
    {
        self.codec.dist_special_probs[index].decode_reverse_bit_tree(rc)
    }

    fn decode_rep_match(&mut self, pos_state: u32, rc: &mut RangeDecoder) -> (r: Result<Match, LzmaError>)
        requires
            old(self).wf(),
            old(rc).wf(),
            (pos_state as int) < old(self).codec.num_pos_states(),
        ensures
            final(self).wf(),
            final(rc).wf(),
            r matches Ok(m) ==> 1 <= m.len <= MATCH_LEN_MAX,
            r matches Err(e) ==> e == LzmaError::UnexpectedEof && final(rc).rest().len() == 0,
            r matches Ok(m) ==> (m.len == 1 ==> m.distance == old(self).state_spec().reps_view()[0]
                && final(self).state_spec().reps_view() == old(self).state_spec().reps_view()
                && final(self).state_spec().idx() == short_rep_next(old(self).state_spec().idx())),
            r matches Ok(m) ==> (m.len > 1 ==> exists|rep: int| 0 <= rep < 4
                && m.distance == old(self).state_spec().reps_view()[rep]
                && final(self).state_spec().reps_view() == reps_after_long_rep(old(self).state_spec().reps_view(), rep)
                && final(self).state_spec().idx() == long_rep_next(old(self).state_spec().idx())
                && old(self).codec_view().bits_coded(final(self).codec_view(), old(self).state_spec().idx(), pos_state as int,
                    -1, -1, rep_bits(rep, m.len as int).0, rep_bits(rep, m.len as int).1, rep_bits(rep, m.len as int).2,
                    rep_bits(rep, m.len as int).3)
                && length_coded(old(self).rep_len_view(), final(self).rep_len_view(), m.len as int, pos_state as int)),
            r matches Ok(m) ==> (m.len == 1 ==> old(self).codec_view().bits_coded(final(self).codec_view(),
                old(self).state_spec().idx(), pos_state as int, -1, -1, 0, 0, -1, -1)
                && final(self).rep_len_view() == old(self).rep_len_view()),
            r matches Ok(m) ==> old(self).codec_view().dist_tables_same(final(self).codec_view())
                && final(self).match_len_view() == old(self).match_len_view()
                && final(self).literal_view() == old(self).literal_view(),
            r matches Ok(m) ==> (match old(self).rep_decoded(old(rc).dec_view(), pos_state as int) {
                Some((rep, l, d)) => 0 <= rep < 4 && l == m.len && d == final(rc).dec_view()
                    && m.distance == old(self).state_spec().reps_view()[rep],
                None => false,
            }),
            r is Err ==> old(self).rep_decoded(old(rc).dec_view(), pos_state as int) is None,
    {
        let index: usize = self.codec.state.get_idx() as usize;
        let rep: usize = if rc.decode_bit(&mut self.codec.is_rep0_probs[index])? == 0 {
            if rc.decode_bit(&mut self.codec.is_rep0_long_probs[index * POS_STATES_MAX + pos_state as usize])? == 0 {
                self.codec.state.update_short_rep();
                return Ok(Match { len: 1, distance: self.codec.state.get_rep(0) });
            }
            0
        } else if rc.decode_bit(&mut self.codec.is_rep1_probs[index])? == 0 {
            1
        } else if rc.decode_bit(&mut self.codec.is_rep2_probs[index])? == 0 {
            2
        } else {
            3
        };
        let distance: u32 = self.codec.state.update_long_rep(rep);
        let len: u32 = self.rep_len_decoder.decode(rc, pos_state)?;
        proof {
            assert(len >= 2);
            assert(distance == old(self).state_spec().reps_view()[rep as int]);
            let b = rep_bits(rep as int, len as int);
            assert(old(self).codec_view().bits_coded(self.codec_view(), old(self).state_spec().idx(), pos_state as int,
                -1, -1, b.0, b.1, b.2, b.3));
        }
        Ok(Match { len, distance })
    }
}

// Prices of packets under the current models, for the optimal picker.


/// Consecutive slots cover consecutive distances.
proof fn lemma_slot_base_next(s: int)
    requires
        4 <= s < 63,
    ensures
        slot_base(s) + pow2_int(slot_footer(s)) == slot_base(s + 1),
{
    let f = s / 2 - 1;
    lemma_pow2_int_step(f);
    if s % 2 == 0 {
        assert((s + 1) / 2 - 1 == f && (s + 1) % 2 == 1);
    } else {
        assert((s + 1) / 2 - 1 == f + 1 && (s + 1) % 2 == 0);
    }
}

/// Earlier slots cover smaller distances.
proof fn lemma_slot_base_mono(a: int, b: int)
    requires
        4 <= a < b <= 14,
    ensures
        slot_base(a) + pow2_int(slot_footer(a)) <= slot_base(b),
    decreases b - a,
{
    lemma_slot_base_next(a);
    if a + 1 < b {
        lemma_slot_base_mono(a + 1, b);
        lemma_pow2_int_step(slot_footer(a + 1));
    }
}

proof fn lemma_slot_base_bound(s: int)
    requires
        4 <= s <= 14,
    ensures
        slot_base(s) <= 128,
    decreases 14 - s,
{
    if s < 14 {
        lemma_slot_base_bound(s + 1);
        lemma_slot_base_next(s);
        lemma_pow2_int_step(slot_footer(s));
    } else {
        reveal_with_fuel(pow2_int, 8);
        assert(pow2_int(6) == 64);
        assert(slot_base(14) == 2 * pow2_int(6));
    }
}

/// The price of the "is match" bit and what follows it, for a given state
/// and position state.
#[derive(Debug, Clone, Copy)]
pub struct AnyMatchPrice {
    pub any_match_price: RangeEncPrice,
    pub state_idx: usize,
    pub pos_state: usize,
}

/// The price of a new match packet before its length and distance.
#[derive(Debug, Clone, Copy)]
pub struct NormalMatchPrice {
    pub normal_match_price: RangeEncPrice,
    pub pos_state: usize,
}

/// The price of a rep packet before the choice of rep.
#[derive(Debug, Clone, Copy)]
pub struct AnyRepPrice {
    pub any_rep_price: RangeEncPrice,
    pub state_idx: usize,
    pub pos_state: usize,
}

/// The price of a long rep packet before its length.
#[derive(Debug, Clone, Copy)]
pub struct LongRepPrice {
    pub long_rep_price: RangeEncPrice,
    pub pos_state: usize,
}

impl EncoderPriceCalc {
    /// Refreshes every price table whose counter ran out.
    pub fn update_prices(&mut self)
        requires
            old(self).wf(),
        ensures
            final(self).wf(),
            final(self).state_spec() == old(self).state_spec(),
            final(self).nice_len() == old(self).nice_len(),
            old(self).tables_same(&*final(self)),
    {
        if self.data.dist_price_count <= 0 {
            self.update_dist_prices();
        }
        if self.data.align_price_count <= 0 {
            self.update_align_prices();
        }
        self.match_len_encoder.update_prices();
        self.rep_len_encoder.update_prices();
    }

    /// Recomputes the distance-slot prices and the prices of every distance
    /// below `FULL_DISTANCES`.
    pub fn update_dist_prices(&mut self)
        requires
            old(self).wf(),
        ensures
            final(self).wf(),
            final(self).state_spec() == old(self).state_spec(),
            final(self).nice_len() == old(self).nice_len(),
            final(self).slot_count() == old(self).slot_count(),
            final(self).codec_view() == old(self).codec_view(),
            final(self).literal_view() == old(self).literal_view(),
            final(self).match_len_view() == old(self).match_len_view(),
            final(self).rep_len_view() == old(self).rep_len_view(),
            final(self).dist_count() == DIST_PRICE_UPDATE_INTERVAL,
            forall|ds: int, slot: int| 0 <= ds < 4 && 0 <= slot < final(self).slot_count()
                ==> (#[trigger] at2(final(self).slot_prices_view(), ds, 64, slot)).0 == final(self).slot_price_spec(ds, slot),
            forall|ds: int, d: int| 0 <= ds < 4 && 0 <= d < 4
                ==> #[trigger] at2(final(self).full_prices_view(), ds, 128, d) == at2(final(self).slot_prices_view(), ds, 64, d),
            forall|ds: int, slot: int, j: int| 0 <= ds < 4 && 4 <= slot < 14 && 0 <= j < pow2_int(slot_footer(slot))
                ==> (#[trigger] at2(final(self).full_prices_view(), ds, 128, slot_base(slot) + j)).0 == sat_add(
                    at2(final(self).slot_prices_view(), ds, 64, slot).0 as int,
                    final(self).special_price_spec(slot, j),
                ),
    {
        self.data.dist_price_count = DIST_PRICE_UPDATE_INTERVAL;
        let size: usize = self.data.dist_slot_prices_size as usize;
        let ghost codec = self.codec;
        let mut ds: usize = 0;
        while ds < DIST_STATES
            invariant
                self.wf(),
                self.codec == codec,
                self.data.dist_price_count == DIST_PRICE_UPDATE_INTERVAL,
                self.literal_encoder == old(self).literal_encoder,
                self.match_len_encoder == old(self).match_len_encoder,
                self.rep_len_encoder == old(self).rep_len_encoder,
                self.state_spec() == old(self).state_spec(),
                self.nice_len() == old(self).nice_len(),
                self.slot_count() == old(self).slot_count(),
                size == self.data.dist_slot_prices_size,
                ds <= DIST_STATES,
                forall|a: int, slot: int| 0 <= a < ds && 0 <= slot < size
                    ==> (#[trigger] at2(self.data.dist_slot_prices@, a, 64, slot)).0 == self.slot_price_spec(a, slot),
                forall|a: int, d: int| 0 <= a < ds && 0 <= d < 4
                    ==> #[trigger] at2(self.data.full_dist_prices@, a, 128, d) == at2(self.data.dist_slot_prices@, a, 64, d),
            decreases DIST_STATES - ds,
        {
            let mut slot: usize = 0;
            while slot < size
                invariant
                    self.wf(),
                    self.codec == codec,
                    self.data.dist_price_count == DIST_PRICE_UPDATE_INTERVAL,
                    self.literal_encoder == old(self).literal_encoder,
                    self.match_len_encoder == old(self).match_len_encoder,
                    self.rep_len_encoder == old(self).rep_len_encoder,
                self.data.dist_price_count == DIST_PRICE_UPDATE_INTERVAL,
                self.literal_encoder == old(self).literal_encoder,
                self.match_len_encoder == old(self).match_len_encoder,
                self.rep_len_encoder == old(self).rep_len_encoder,
                    self.state_spec() == old(self).state_spec(),
                    self.nice_len() == old(self).nice_len(),
                    self.slot_count() == old(self).slot_count(),
                    size == self.data.dist_slot_prices_size,
                    ds < DIST_STATES,
                    slot <= size,
                    forall|a: int, sl: int| 0 <= a < ds && 0 <= sl < size
                        ==> (#[trigger] at2(self.data.dist_slot_prices@, a, 64, sl)).0 == self.slot_price_spec(a, sl),
                    forall|sl: int| 0 <= sl < slot
                        ==> (#[trigger] at2(self.data.dist_slot_prices@, ds as int, 64, sl)).0 == self.slot_price_spec(ds as int, sl),
                    forall|a: int, d: int| 0 <= a < ds && 0 <= d < 4
                        ==> #[trigger] at2(self.data.full_dist_prices@, a, 128, d) == at2(self.data.dist_slot_prices@, a, 64, d),
                decreases size - slot,
            {
                let mut price: RangeEncPrice = self.codec.dist_slot_price(ds, slot as u32);
                if slot >= DIST_MODEL_END as usize {
                    let count: u32 = (slot as u32) / 2 - 1 - ALIGN_BITS;
                    price = price.add(RangeEncPrice::get_direct_bits_price(count));
                }
                proof {
                    assert(price.0 == self.slot_price_spec(ds as int, slot as int));
                }
                let ghost before = self.data.dist_slot_prices@;
                self.data.dist_slot_prices.set(ds * DIST_SLOTS + slot, price);
                proof {
                    assert forall|a: int, sl: int| 0 <= a < ds && 0 <= sl < size
                        implies (#[trigger] at2(self.data.dist_slot_prices@, a, 64, sl)).0 == self.slot_price_spec(a, sl) by {
                        assert(at2(self.data.dist_slot_prices@, a, 64, sl) == at2(before, a, 64, sl));
                    }
                    assert forall|sl: int| 0 <= sl < slot + 1
                        implies (#[trigger] at2(self.data.dist_slot_prices@, ds as int, 64, sl)).0 == self.slot_price_spec(ds as int, sl) by {
                        if sl < slot {
                            assert(at2(self.data.dist_slot_prices@, ds as int, 64, sl) == at2(before, ds as int, 64, sl));
                        }
                    }
                    assert forall|a: int, d: int| 0 <= a < ds && 0 <= d < 4
                        implies #[trigger] at2(self.data.full_dist_prices@, a, 128, d) == at2(self.data.dist_slot_prices@, a, 64, d) by {
                        assert(at2(self.data.dist_slot_prices@, a, 64, d) == at2(before, a, 64, d));
                    }
                }
                slot = slot + 1;
            }
            let mut d: usize = 0;
            while d < DIST_MODEL_START as usize
                invariant
                    self.wf(),
                    self.codec == codec,
                    self.data.dist_price_count == DIST_PRICE_UPDATE_INTERVAL,
                    self.literal_encoder == old(self).literal_encoder,
                    self.match_len_encoder == old(self).match_len_encoder,
                    self.rep_len_encoder == old(self).rep_len_encoder,
                self.data.dist_price_count == DIST_PRICE_UPDATE_INTERVAL,
                self.literal_encoder == old(self).literal_encoder,
                self.match_len_encoder == old(self).match_len_encoder,
                self.rep_len_encoder == old(self).rep_len_encoder,
                    self.state_spec() == old(self).state_spec(),
                    self.nice_len() == old(self).nice_len(),
                    self.slot_count() == old(self).slot_count(),
                    size == self.data.dist_slot_prices_size,
                    ds < DIST_STATES,
                    d <= 4,
                    forall|a: int, sl: int| 0 <= a <= ds && 0 <= sl < size
                        ==> (#[trigger] at2(self.data.dist_slot_prices@, a, 64, sl)).0 == self.slot_price_spec(a, sl),
                    forall|a: int, e: int| 0 <= a < ds && 0 <= e < 4
                        ==> #[trigger] at2(self.data.full_dist_prices@, a, 128, e) == at2(self.data.dist_slot_prices@, a, 64, e),
                    forall|e: int| 0 <= e < d
                        ==> #[trigger] at2(self.data.full_dist_prices@, ds as int, 128, e) == at2(self.data.dist_slot_prices@, ds as int, 64, e),
                decreases DIST_MODEL_START - d,
            {
                let p: RangeEncPrice = self.data.dist_slot_prices[ds * DIST_SLOTS + d];
                let ghost before = self.data.full_dist_prices@;
                self.data.full_dist_prices.set(ds * FULL_DISTANCES + d, p);
                proof {
                    assert forall|a: int, e: int| 0 <= a < ds && 0 <= e < 4
                        implies #[trigger] at2(self.data.full_dist_prices@, a, 128, e) == at2(self.data.dist_slot_prices@, a, 64, e) by {
                        assert(at2(self.data.full_dist_prices@, a, 128, e) == at2(before, a, 128, e));
                    }
                    assert forall|e: int| 0 <= e < d + 1
                        implies #[trigger] at2(self.data.full_dist_prices@, ds as int, 128, e) == at2(self.data.dist_slot_prices@, ds as int, 64, e) by {
                        if e < d {
                            assert(at2(self.data.full_dist_prices@, ds as int, 128, e) == at2(before, ds as int, 128, e));
                        }
                    }
                }
                d = d + 1;
            }
            ds = ds + 1;
        }
        let mut dist: u32 = DIST_MODEL_START;
        let mut slot: u32 = DIST_MODEL_START;
        proof {
            reveal_with_fuel(pow2_int, 3);
            assert(pow2_int(1) == 2);
            assert(slot_base(4) == 2 * pow2_int(1));
        }
        while slot < DIST_MODEL_END
            invariant
                self.wf(),
                self.codec == codec,
                self.data.dist_price_count == DIST_PRICE_UPDATE_INTERVAL,
                self.literal_encoder == old(self).literal_encoder,
                self.match_len_encoder == old(self).match_len_encoder,
                self.rep_len_encoder == old(self).rep_len_encoder,
                self.state_spec() == old(self).state_spec(),
                self.nice_len() == old(self).nice_len(),
                self.slot_count() == old(self).slot_count(),
                size == self.data.dist_slot_prices_size,
                DIST_MODEL_START <= slot <= DIST_MODEL_END,
                dist as int == slot_base(slot as int),
                forall|a: int, sl: int| 0 <= a < 4 && 0 <= sl < size
                    ==> (#[trigger] at2(self.data.dist_slot_prices@, a, 64, sl)).0 == self.slot_price_spec(a, sl),
                forall|a: int, e: int| 0 <= a < 4 && 0 <= e < 4
                    ==> #[trigger] at2(self.data.full_dist_prices@, a, 128, e) == at2(self.data.dist_slot_prices@, a, 64, e),
                forall|a: int, sl: int, jj: int| 0 <= a < 4 && 4 <= sl < slot && 0 <= jj < pow2_int(slot_footer(sl))
                    ==> (#[trigger] at2(self.data.full_dist_prices@, a, 128, slot_base(sl) + jj)).0 == sat_add(
                        at2(self.data.dist_slot_prices@, a, 64, sl).0 as int,
                        self.special_price_spec(sl, jj),
                    ),
            decreases DIST_MODEL_END - slot,
        {
            let footer: u32 = slot / 2 - 1;
            let limit: u32 = pow2_u32(footer);
            let base: u32 = dist;
            let mut j: u32 = 0;
            proof {
                reveal_with_fuel(pow2_int, 7);
                lemma_slot_base_next(slot as int);
                lemma_slot_base_bound(slot as int + 1);
                assert(pow2_int(1) == 2);
                assert(slot_base(4) == 2 * pow2_int(1));
                assert(slot_base(4) == 4);
                if slot > 4 {
                    lemma_slot_base_mono(4, slot as int);
                }
            }
            while j < limit
                invariant
                    self.wf(),
                    self.codec == codec,
                    self.data.dist_price_count == DIST_PRICE_UPDATE_INTERVAL,
                    self.literal_encoder == old(self).literal_encoder,
                    self.match_len_encoder == old(self).match_len_encoder,
                    self.rep_len_encoder == old(self).rep_len_encoder,
                self.data.dist_price_count == DIST_PRICE_UPDATE_INTERVAL,
                self.literal_encoder == old(self).literal_encoder,
                self.match_len_encoder == old(self).match_len_encoder,
                self.rep_len_encoder == old(self).rep_len_encoder,
                    self.state_spec() == old(self).state_spec(),
                    self.nice_len() == old(self).nice_len(),
                    self.slot_count() == old(self).slot_count(),
                    size == self.data.dist_slot_prices_size,
                    DIST_MODEL_START <= slot < DIST_MODEL_END,
                    footer == slot / 2 - 1,
                    limit as int == pow2_int(footer as int),
                    limit <= 32,
                    base as int == slot_base(slot as int),
                    4 <= base,
                    j <= limit,
                    dist == base + j,
                    base as int + limit as int <= FULL_DISTANCES,
                    forall|a: int, sl: int| 0 <= a < 4 && 0 <= sl < size
                        ==> (#[trigger] at2(self.data.dist_slot_prices@, a, 64, sl)).0 == self.slot_price_spec(a, sl),
                    forall|a: int, e: int| 0 <= a < 4 && 0 <= e < 4
                        ==> #[trigger] at2(self.data.full_dist_prices@, a, 128, e) == at2(self.data.dist_slot_prices@, a, 64, e),
                    forall|a: int, sl: int, jj: int| 0 <= a < 4 && 4 <= sl < slot && 0 <= jj < pow2_int(slot_footer(sl))
                        ==> (#[trigger] at2(self.data.full_dist_prices@, a, 128, slot_base(sl) + jj)).0 == sat_add(
                            at2(self.data.dist_slot_prices@, a, 64, sl).0 as int,
                            self.special_price_spec(sl, jj),
                        ),
                    forall|a: int, jj: int| 0 <= a < 4 && 0 <= jj < j
                        ==> (#[trigger] at2(self.data.full_dist_prices@, a, 128, slot_base(slot as int) + jj)).0 == sat_add(
                            at2(self.data.dist_slot_prices@, a, 64, slot as int).0 as int,
                            self.special_price_spec(slot as int, jj),
                        ),
                decreases limit - j,
            {
                let price: RangeEncPrice = self.codec.dist_special_price((slot - DIST_MODEL_START) as usize, j);
                proof {
                    assert(price.0 == self.special_price_spec(slot as int, j as int));
                }
                let mut s: usize = 0;
                while s < DIST_STATES
                    invariant
                        self.wf(),
                        self.codec == codec,
                        self.data.dist_price_count == DIST_PRICE_UPDATE_INTERVAL,
                        self.literal_encoder == old(self).literal_encoder,
                        self.match_len_encoder == old(self).match_len_encoder,
                        self.rep_len_encoder == old(self).rep_len_encoder,
                    self.data.dist_price_count == DIST_PRICE_UPDATE_INTERVAL,
                    self.literal_encoder == old(self).literal_encoder,
                    self.match_len_encoder == old(self).match_len_encoder,
                    self.rep_len_encoder == old(self).rep_len_encoder,
                self.data.dist_price_count == DIST_PRICE_UPDATE_INTERVAL,
                self.literal_encoder == old(self).literal_encoder,
                self.match_len_encoder == old(self).match_len_encoder,
                self.rep_len_encoder == old(self).rep_len_encoder,
                        self.state_spec() == old(self).state_spec(),
                        self.nice_len() == old(self).nice_len(),
                        self.slot_count() == old(self).slot_count(),
                        size == self.data.dist_slot_prices_size,
                        DIST_MODEL_START <= slot < DIST_MODEL_END,
                        (dist as int) < FULL_DISTANCES,
                        4 <= base,
                        base as int == slot_base(slot as int),
                        dist == base + j,
                        j < limit,
                        limit as int == pow2_int(slot_footer(slot as int)),
                        price.0 == self.special_price_spec(slot as int, j as int),
                        s <= 4,
                        forall|a: int, sl: int| 0 <= a < 4 && 0 <= sl < size
                            ==> (#[trigger] at2(self.data.dist_slot_prices@, a, 64, sl)).0 == self.slot_price_spec(a, sl),
                        forall|a: int, e: int| 0 <= a < 4 && 0 <= e < 4
                            ==> #[trigger] at2(self.data.full_dist_prices@, a, 128, e) == at2(self.data.dist_slot_prices@, a, 64, e),
                        forall|a: int, sl: int, jj: int| 0 <= a < 4 && 4 <= sl < slot && 0 <= jj < pow2_int(slot_footer(sl))
                            ==> (#[trigger] at2(self.data.full_dist_prices@, a, 128, slot_base(sl) + jj)).0 == sat_add(
                                at2(self.data.dist_slot_prices@, a, 64, sl).0 as int,
                                self.special_price_spec(sl, jj),
                            ),
                        forall|a: int, jj: int| 0 <= a < 4 && 0 <= jj < j
                            ==> (#[trigger] at2(self.data.full_dist_prices@, a, 128, slot_base(slot as int) + jj)).0 == sat_add(
                                at2(self.data.dist_slot_prices@, a, 64, slot as int).0 as int,
                                self.special_price_spec(slot as int, jj),
                            ),
                        forall|a: int| 0 <= a < s
                            ==> (#[trigger] at2(self.data.full_dist_prices@, a, 128, slot_base(slot as int) + j)).0 == sat_add(
                                at2(self.data.dist_slot_prices@, a, 64, slot as int).0 as int,
                                self.special_price_spec(slot as int, j as int),
                            ),
                    decreases DIST_STATES - s,
                {
                    let p: RangeEncPrice = self.data.dist_slot_prices[s * DIST_SLOTS + slot as usize].add(price);
                    let ghost before = self.data.full_dist_prices@;
                    self.data.full_dist_prices.set(s * FULL_DISTANCES + dist as usize, p);
                    proof {
                        assert forall|a: int, e: int| 0 <= a < 4 && 0 <= e < 4
                            implies #[trigger] at2(self.data.full_dist_prices@, a, 128, e) == at2(self.data.dist_slot_prices@, a, 64, e) by {
                            assert(at2(self.data.full_dist_prices@, a, 128, e) == at2(before, a, 128, e));
                        }
                        assert forall|a: int, sl: int, jj: int| 0 <= a < 4 && 4 <= sl < slot && 0 <= jj < pow2_int(slot_footer(sl))
                            implies (#[trigger] at2(self.data.full_dist_prices@, a, 128, slot_base(sl) + jj)).0 == sat_add(
                                at2(self.data.dist_slot_prices@, a, 64, sl).0 as int,
                                self.special_price_spec(sl, jj),
                            ) by {
                            lemma_slot_base_mono(sl, slot as int);
                            assert(at2(self.data.full_dist_prices@, a, 128, slot_base(sl) + jj)
                                == at2(before, a, 128, slot_base(sl) + jj));
                        }
                        assert forall|a: int, jj: int| 0 <= a < 4 && 0 <= jj < j
                            implies (#[trigger] at2(self.data.full_dist_prices@, a, 128, slot_base(slot as int) + jj)).0 == sat_add(
                                at2(self.data.dist_slot_prices@, a, 64, slot as int).0 as int,
                                self.special_price_spec(slot as int, jj),
                            ) by {
                            assert(at2(self.data.full_dist_prices@, a, 128, slot_base(slot as int) + jj)
                                == at2(before, a, 128, slot_base(slot as int) + jj));
                        }
                        assert forall|a: int| 0 <= a < s + 1
                            implies (#[trigger] at2(self.data.full_dist_prices@, a, 128, slot_base(slot as int) + j)).0 == sat_add(
                                at2(self.data.dist_slot_prices@, a, 64, slot as int).0 as int,
                                self.special_price_spec(slot as int, j as int),
                            ) by {
                            if a < s {
                                assert(at2(self.data.full_dist_prices@, a, 128, slot_base(slot as int) + j)
                                    == at2(before, a, 128, slot_base(slot as int) + j));
                            }
                        }
                    }
                    s = s + 1;
                }
                dist = dist + 1;
                j = j + 1;
            }
            proof {
                lemma_slot_base_next(slot as int);
            }
            slot = slot + 1;
        }
    }

    fn update_align_prices(&mut self)
        requires
            old(self).wf(),
        ensures
            final(self).wf(),
            final(self).state_spec() == old(self).state_spec(),
            final(self).nice_len() == old(self).nice_len(),
            old(self).tables_same(&*final(self)),
    {
        self.data.align_price_count = ALIGN_PRICE_UPDATE_INTERVAL;
        let mut i: usize = 0;
        while i < ALIGN_SIZE
            invariant
                self.wf(),
                self.state_spec() == old(self).state_spec(),
                self.nice_len() == old(self).nice_len(),
                old(self).tables_same(&*self),
            decreases ALIGN_SIZE - i,
        {
            let p: RangeEncPrice = self.codec.dist_align_price(i as u32);
            self.data.align_prices.set(i, p);
            i = i + 1;
        }
    }

    /// The price of a literal packet for `cur_byte` in `state` at `pos`.
    pub fn get_literal_price(&self, cur_byte: u8, match_byte: u8, prev_byte: u8, pos: u64, state: &State) -> (r: RangeEncPrice)
        requires
            self.wf(),
            state.wf(),
        ensures
            r.0 as int == self.literal_price_of(cur_byte, match_byte, prev_byte, pos, state.idx()),
    {
        let pos_state: u32 = self.codec.pos_state(pos);
        let packet_price: RangeEncPrice = self.codec.is_match_price(state.get_idx() as usize, pos_state as usize, 0);
        let value_price: RangeEncPrice = if state.is_literal() {
            self.literal_encoder.get_normal_price(cur_byte, prev_byte, pos)
        } else {
            self.literal_encoder.get_matched_price(cur_byte, match_byte, prev_byte, pos)
        };
        packet_price.add(value_price)
    }

    /// The cached price of a rep length.
    pub fn get_rep_len_price(&self, len: u32, pos_state: u32) -> (r: RangeEncPrice)
        requires
            self.wf(),
            MATCH_LEN_MIN <= len <= MATCH_LEN_MAX,
            (pos_state as int) < self.num_pos_states(),
        ensures
            r.0 as int == self.rep_len_price(len as int, pos_state as int),
    {
        self.rep_len_encoder.get_price(len as usize, pos_state as usize)
    }

    pub fn get_any_match_price(&self, state: &State, pos_state: u32) -> (r: AnyMatchPrice)
        requires
            self.wf(),
            state.wf(),
            (pos_state as int) < self.num_pos_states(),
        ensures
            r.state_idx < 12,
            r.state_idx == state.idx(),
            r.pos_state == pos_state,
            r.any_match_price == RangeEncPrice::bit_price(self.codec_view().is_match_p(state.idx(), pos_state as int), 1),
            (r.pos_state as int) < self.num_pos_states(),
    {
        let idx: usize = state.get_idx() as usize;
        AnyMatchPrice {
            any_match_price: self.codec.is_match_price(idx, pos_state as usize, 1),
            state_idx: idx,
            pos_state: pos_state as usize,
        }
    }
}

impl AnyMatchPrice {
    pub fn get_normal_match_price(self, calc: &EncoderPriceCalc) -> (r: NormalMatchPrice)
        requires
            calc.wf(),
            self.state_idx < 12,
            (self.pos_state as int) < calc.num_pos_states(),
        ensures
            r.pos_state == self.pos_state,
            r.normal_match_price.0 as int == sat_add(self.any_match_price.0 as int,
                RangeEncPrice::bit_price(calc.codec_view().is_rep_p(self.state_idx as int), 0).0 as int),
    {
        NormalMatchPrice {
            normal_match_price: self.any_match_price.add(calc.codec.is_rep_price(self.state_idx, 0)),
            pos_state: self.pos_state,
        }
    }

    pub fn get_any_rep_price(self, calc: &EncoderPriceCalc) -> (r: AnyRepPrice)
        requires
            calc.wf(),
            self.state_idx < 12,
            (self.pos_state as int) < calc.num_pos_states(),
        ensures
            r.pos_state == self.pos_state,
            r.state_idx == self.state_idx,
            r.any_rep_price.0 as int == sat_add(self.any_match_price.0 as int,
                RangeEncPrice::bit_price(calc.codec_view().is_rep_p(self.state_idx as int), 1).0 as int),
    {
        AnyRepPrice {
            any_rep_price: self.any_match_price.add(calc.codec.is_rep_price(self.state_idx, 1)),
            state_idx: self.state_idx,
            pos_state: self.pos_state,
        }
    }
}

impl NormalMatchPrice {
    /// The price of the whole match packet with distance `dist` and length `len`.
    pub fn get_price_with_dist_len(self, calc: &EncoderPriceCalc, dist: u32, len: u32) -> (r: RangeEncPrice)
        requires
            calc.wf(),
            (self.pos_state as int) < calc.num_pos_states(),
            MATCH_LEN_MIN <= len <= MATCH_LEN_MAX,
        ensures
            ({
                let ds = dist_state_of(len as int);
                let head = sat_add(self.normal_match_price.0 as int, calc.match_len_price(len as int, self.pos_state as int));
                if dist < FULL_DISTANCES {
                    r.0 as int == sat_add(head, at2(calc.full_prices_view(), ds, 128, dist as int).0 as int)
                } else {
                    exists|slot: int| #[trigger] is_dist_slot(dist as int, slot) && r.0 as int == sat_add(
                        sat_add(head, at2(calc.slot_prices_view(), ds, 64, slot).0 as int),
                        calc.align_prices_view()[dist as int % 16].0 as int)
                }
            }),
    {
        let mut price: RangeEncPrice = self.normal_match_price.add(
            calc.match_len_encoder.get_price(len as usize, self.pos_state),
        );
        let dist_state: usize = get_dist_state(len);
        if (dist as usize) < FULL_DISTANCES {
            price = price.add(calc.data.full_dist_prices[dist_state * FULL_DISTANCES + dist as usize]);
        } else {
            let slot: u32 = get_dist_slot(dist);
            price = price.add(calc.data.dist_slot_prices[dist_state * DIST_SLOTS + slot as usize]).add(
                calc.data.align_prices[(dist % 16) as usize],
            );
        }
        price
    }
}

impl AnyRepPrice {
    pub fn get_short_rep_price(self, calc: &EncoderPriceCalc) -> (r: RangeEncPrice)
        requires
            calc.wf(),
            self.state_idx < 12,
            (self.pos_state as int) < calc.num_pos_states(),
        ensures
            r.0 as int == sat_add(sat_add(self.any_rep_price.0 as int,
                RangeEncPrice::bit_price(calc.codec_view().is_rep0_p(self.state_idx as int), 0).0 as int),
                RangeEncPrice::bit_price(calc.codec_view().is_rep0_long_p(self.state_idx as int, self.pos_state as int), 0).0 as int),
    {
        self.any_rep_price.add(calc.codec.is_rep0_price(self.state_idx, 0)).add(
            calc.codec.is_rep0_long_price(self.state_idx, self.pos_state, 0),
        )
    }

    pub fn get_long_rep_price(self, calc: &EncoderPriceCalc, rep: u32) -> (r: LongRepPrice)
        requires
            calc.wf(),
            self.state_idx < 12,
            (self.pos_state as int) < calc.num_pos_states(),
            rep < 4,
        ensures
            r.pos_state == self.pos_state,
            ({
                let c = calc.codec_view();
                let st = self.state_idx as int;
                let a = self.any_rep_price.0 as int;
                let bp = |p: RangeEncProbability, b: u32| RangeEncPrice::bit_price(p, b).0 as int;
                r.long_rep_price.0 as int == if rep == 0 {
                    sat_add(a, sat_add(bp(c.is_rep0_p(st), 0), bp(c.is_rep0_long_p(st, self.pos_state as int), 1)))
                } else if rep == 1 {
                    sat_add(sat_add(a, bp(c.is_rep0_p(st), 1)), bp(c.is_rep1_p(st), 0))
                } else {
                    sat_add(sat_add(a, bp(c.is_rep0_p(st), 1)), sat_add(bp(c.is_rep1_p(st), 1), bp(c.is_rep2_p(st), (rep - 2) as u32)))
                }
            }),
    {
        let mut price: RangeEncPrice = self.any_rep_price;
        if rep == 0 {
            price = price.add(calc.codec.is_rep0_price(self.state_idx, 0)).add(
                calc.codec.is_rep0_long_price(self.state_idx, self.pos_state, 1),
            );
        } else {
            price = price.add(calc.codec.is_rep0_price(self.state_idx, 1));
            if rep == 1 {
                price = price.add(calc.codec.is_rep1_price(self.state_idx, 0));
            } else {
                price = price.add(calc.codec.is_rep1_price(self.state_idx, 1)).add(
                    calc.codec.is_rep2_price(self.state_idx, rep - 2),
                );
            }
        }
        LongRepPrice { long_rep_price: price, pos_state: self.pos_state }
    }
}

impl LongRepPrice {
    pub fn get_price_with_len(&self, calc: &EncoderPriceCalc, len: u32) -> (r: RangeEncPrice)
        requires
            calc.wf(),
            (self.pos_state as int) < calc.num_pos_states(),
            MATCH_LEN_MIN <= len <= MATCH_LEN_MAX,
        ensures
            r.0 as int == sat_add(self.long_rep_price.0 as int, calc.rep_len_price(len as int, self.pos_state as int)),
    {
        self.long_rep_price.add(calc.rep_len_encoder.get_price(len as usize, self.pos_state))
    }
}

} // verus!
