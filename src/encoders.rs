//! The encoder front end: the input window with its match finder, the
//! packet chosen next, the fast picker, and the stream encoder.

use vstd::prelude::*;
use crate::range_codec::{RangeEncoder, enc_bit};
use crate::length_codec::{MATCH_LEN_MIN, MATCH_LEN_MAX, tree_coded, length_enc_coded};
use crate::literals_codec::matched_coded;
use crate::state::State;
use crate::data_buffers::{EncoderDataBuffer, matches_upto, match_len_from};
use crate::match_finder::{HC4MatchFinder, Match, valid_match, valid_matches};
use crate::stream_codec::{EncoderPriceCalc, LiteralCtx, is_dist_slot};
use crate::optimal::LZMANormalInstructionPicker;

verus! {

/// The look-ahead kept beyond the dictionary, in longest matches.
pub const FORWARD_MATCHES: u32 = 20;

/// One packet to code.
#[derive(Debug, Clone, Copy, PartialEq, Eq, Structural)]
pub enum EncodeInstruction {
    Literal(LiteralCtx),
    Rep { rep_index: usize, len: u32 },
    Match(Match),
}

impl EncodeInstruction {
    pub open spec fn len_spec(self) -> int {
        match self {
            EncodeInstruction::Literal(_) => 1,
            EncodeInstruction::Match(m) => m.len as int,
            EncodeInstruction::Rep { len, .. } => len as int,
        }
    }

    /// Lengths and rep indices that the packet codec can code.
    pub open spec fn well_formed(self) -> bool {
        match self {
            EncodeInstruction::Literal(_) => true,
            EncodeInstruction::Match(m) => MATCH_LEN_MIN <= m.len <= MATCH_LEN_MAX,
            EncodeInstruction::Rep { rep_index, len } => rep_index < 4 && 1 <= len <= MATCH_LEN_MAX
                && (len == 1 ==> rep_index == 0),
        }
    }

    /// The number of input bytes the packet stands for.
    pub fn length(&self) -> (r: u32)
        ensures
            r == self.len_spec(),
    {
        match *self {
            EncodeInstruction::Literal(_) => 1,
            EncodeInstruction::Match(m) => m.len,
            EncodeInstruction::Rep { len, .. } => len,
        }
    }
}

/// The packet `ins`, chosen at the read head of `b` with rep distances
/// `reps`, codes bytes that are really there: a literal of the next byte, or
/// a copy whose source bytes equal the bytes it stands for.
pub open spec fn instruction_valid(b: EncoderDataBuffer, reps: Seq<u32>, ins: EncodeInstruction) -> bool {
    &&& ins.well_formed()
    &&& match ins {
        EncodeInstruction::Literal(ctx) => b.fwd() >= 1 && ctx.byte == b.data()[b.cur()],
        EncodeInstruction::Match(m) => valid_match(b, m, MATCH_LEN_MAX as int),
        EncodeInstruction::Rep { rep_index, len } => {
            &&& (len as int) <= b.fwd()
            &&& reps[rep_index as int] + 1 <= b.back()
            &&& matches_upto(b.data(), b.cur(), reps[rep_index as int] as int, 0, len as int)
        },
    }
}

/// Packet `ins`, taken at position `at` of `d` with rep distances `reps`,
/// codes bytes that are there: a literal of the byte at `at`, or a copy of
/// bytes that lie before `at` and equal the ones it stands for.
pub open spec fn packet_valid(d: Seq<u8>, at: int, reps: Seq<u32>, ins: EncodeInstruction) -> bool {
    match ins {
        EncodeInstruction::Literal(ctx) => at < d.len() && ctx.byte == d[at],
        EncodeInstruction::Match(m) => at + m.len <= d.len() && m.distance + 1 <= at
            && matches_upto(d, at, m.distance as int, 0, m.len as int),
        EncodeInstruction::Rep { rep_index, len } => at + len <= d.len() && reps[rep_index as int] + 1 <= at
            && matches_upto(d, at, reps[rep_index as int] as int, 0, len as int),
    }
}

/// `s1` is the range encoder's state after coding packet `i` at position
/// `pos` from state `s0` with the tables of `c`.
pub open spec fn packet_coded(c: EncoderPriceCalc, s0: (Seq<u8>, int, u64, int), s1: (Seq<u8>, int, u64, int), pos: u64,
    i: EncodeInstruction) -> bool
{
    let st = c.state_spec().idx();
    let ps = pos as int % c.num_pos_states();
    let cv = c.codec_view();
    match i {
        EncodeInstruction::Literal(ctx) => {
            let lit = c.literal_view();
            let k = lit.context(ctx.prev_byte, pos);
            let t = enc_bit(s0, cv.is_match_p(st, ps), 0);
            s1 == (if st < 7 {
                tree_coded(t, lit.tables(k), ctx.byte + 0x100, 0x80)
            } else {
                matched_coded(t, lit.tables(k), ctx.byte + 0x100, ctx.match_byte + 0x100, 0x80, true)
            })
        },
        EncodeInstruction::Match(m) => {
            let s2 = enc_bit(enc_bit(s0, cv.is_match_p(st, ps), 1), cv.is_rep_p(st), 0);
            let s3 = length_enc_coded(s2, c.match_len_view(), m.len as int, ps);
            exists|s: int| #[trigger] is_dist_slot(m.distance as int, s)
                && s1 == cv.dist_enc_coded(s3, m.len as int, m.distance as int, s)
        },
        EncodeInstruction::Rep { rep_index, len } => s1 == cv.rep_enc_coded(c.rep_len_view(), s0, st, ps, rep_index as int,
            len as int),
    }
}

/// The length of the match at rep distance `i` of `reps` at the read head of
/// `b`, capped at the look-ahead and the longest match; 0 for a distance
/// the window does not hold.
pub open spec fn rep_len_at(b: EncoderDataBuffer, reps: Seq<u32>, i: int) -> int {
    let cap = if b.fwd() < MATCH_LEN_MAX { b.fwd() } else { MATCH_LEN_MAX as int };
    if (reps[i] as int) < b.back() && (reps[i] as int) < b.dict() {
        match_len_from(b.data(), b.cur(), reps[i] as int, 0, cap)
    } else {
        0
    }
}

/// The literal context at the read head of `b` with rep distance `rep0`:
/// the byte, the byte `rep0 + 1` back (0 if not held) and the previous byte
/// (0 at the start).
pub open spec fn literal_ctx_of(b: EncoderDataBuffer, rep0: u32) -> LiteralCtx {
    LiteralCtx {
        byte: b.data()[b.cur()],
        match_byte: if (rep0 as int) < b.back() { b.data()[b.cur() - rep0 - 1] } else { 0 },
        prev_byte: if b.back() >= 1 { b.data()[b.cur() - 1] } else { 0 },
    }
}

/// Rep `i` is long enough to be taken at once.
pub open spec fn rep_is_nice(b: EncoderDataBuffer, reps: Seq<u32>, i: int, nice: int) -> bool {
    rep_len_at(b, reps, i) >= 2 && rep_len_at(b, reps, i) >= nice
}

/// The input window with its match finder and the matches found at the
/// read head.
pub struct LZMAEncoderInput {
    buffer: EncoderDataBuffer,
    dict_size: u32,
    matches: Vec<Match>,
    match_finder: HC4MatchFinder,
    /// The finder has seen the read head and `matches` are its matches.
    matches_calculated: bool,
}

impl LZMAEncoderInput {
    pub closed spec fn wf(&self) -> bool {
        &&& self.buffer.wf()
        &&& self.match_finder.wf()
        &&& self.match_finder.max_len() == MATCH_LEN_MAX
        &&& self.buffer.dict() == self.dict_size
        &&& self.match_finder.dict() == self.dict_size
        &&& self.matches_calculated ==> valid_matches(self.buffer, self.matches@, MATCH_LEN_MAX as int)
        &&& self.matches_calculated ==> (self.buffer.fwd() < 4 ==> self.matches@.len() == 0)
        &&& self.matches_calculated ==> forall|i: int| 0 <= i < self.matches@.len()
            ==> (#[trigger] self.matches@[i]).distance < self.dict_size
    }

    /// The matches at the read head have been found already.
    pub closed spec fn found(&self) -> bool {
        self.matches_calculated
    }

    pub closed spec fn buffer_view(&self) -> EncoderDataBuffer {
        self.buffer
    }

    pub closed spec fn matches_view(&self) -> Seq<Match> {
        self.matches@
    }

    pub closed spec fn nice(&self) -> int {
        self.match_finder.nice()
    }

    /// An input window over `dict_size` bytes of history, finding matches
    /// with `match_finder`.
    pub fn new(match_finder: HC4MatchFinder, dict_size: u32) -> (r: Self)
        requires
            match_finder.wf(),
            match_finder.max_len() == MATCH_LEN_MAX,
            match_finder.dict() == dict_size,
            1 <= dict_size <= 0x7FFF_0000,
        ensures
            r.wf(),
            r.buffer_view().data().len() == 0,
            r.buffer_view().cur() == 0,
            r.nice() == match_finder.nice(),
    {
        LZMAEncoderInput {
            matches: Vec::new(),
            match_finder,
            matches_calculated: false,
            buffer: EncoderDataBuffer::new(dict_size, MATCH_LEN_MAX as u32 * FORWARD_MATCHES),
            dict_size,
        }
    }

    pub fn pos(&self) -> (r: u64)
        ensures
            r == self.buffer_view().cur(),
    {
        self.buffer.pos()
    }

    pub fn dict_size(&self) -> (r: u32)
        requires
            self.wf(),
        ensures
            r == self.buffer_view().dict(),
    {
        self.dict_size
    }

    /// The number of bytes that can be appended without losing dictionary bytes.
    pub fn available_append_bytes(&self) -> (r: usize)
        requires
            self.wf(),
        ensures
            r == self.buffer_view().avail(),
            self.buffer_view().fwd() == 0 ==> r > 0,
    {
        self.buffer.available_append_bytes()
    }

    /// Appends input bytes; at most `available_append_bytes()` of them.
    pub fn append_data(&mut self, data: &[u8])
        requires
            old(self).wf(),
            data@.len() <= old(self).buffer_view().avail(),
            old(self).buffer_view().data().len() + data@.len() <= u64::MAX,
        ensures
            final(self).wf(),
            final(self).buffer_view().data() == old(self).buffer_view().data() + data@,
            final(self).buffer_view().cur() == old(self).buffer_view().cur(),
            final(self).nice() == old(self).nice(),
    {
        self.buffer.append_data(data);
        // Matches found before may reach further back than the window now
        // holds; the position stays recorded, with no matches.
        self.matches.clear();
    }

    pub proof fn lemma_back_le_cur(&self)
        requires
            self.wf(),
        ensures
            self.buffer_view().back() <= self.buffer_view().cur(),
            self.buffer_view().back() >= 0,
    {
        self.buffer.lemma_back_le_cur();
    }

    pub proof fn lemma_data_len(&self)
        requires
            self.wf(),
        ensures
            self.buffer_view().data().len() <= u64::MAX,
            self.buffer_view().cur() <= self.buffer_view().data().len(),
    {
        self.buffer.lemma_data_len();
    }

    /// The number of bytes ahead of the read head.
    pub fn forward_bytes(&self) -> (r: usize)
        requires
            self.wf(),
        ensures
            r == self.buffer_view().fwd(),
    {
        self.buffer.forwards_bytes()
    }

    pub fn buffer(&self) -> (r: &EncoderDataBuffer)
        requires
            self.wf(),
        ensures
            *r == self.buffer_view(),
            r.wf(),
    {
        &self.buffer
    }

    /// Moves the read head one byte on, recording the byte left behind in
    /// the match finder.
    pub fn increment_pos(&mut self)
        requires
            old(self).wf(),
            old(self).buffer_view().fwd() > 0,
        ensures
            final(self).wf(),
            final(self).buffer_view().data() == old(self).buffer_view().data(),
            final(self).buffer_view().cur() == old(self).buffer_view().cur() + 1,
            final(self).buffer_view().dict() == old(self).buffer_view().dict(),
            final(self).nice() == old(self).nice(),
    {
        if !self.matches_calculated {
            self.match_finder.skip_byte(&self.buffer);
        }
        self.buffer.increment_pos();
        self.matches_calculated = false;
    }

    /// Moves the read head `len` bytes on.
    pub fn skip(&mut self, len: u32)
        requires
            old(self).wf(),
            len <= old(self).buffer_view().fwd(),
        ensures
            final(self).wf(),
            final(self).buffer_view().data() == old(self).buffer_view().data(),
            final(self).buffer_view().cur() == old(self).buffer_view().cur() + len,
            final(self).buffer_view().dict() == old(self).buffer_view().dict(),
            final(self).nice() == old(self).nice(),
    {
        let mut i: u32 = 0;
        while i < len
            invariant
                self.wf(),
                i <= len,
                len <= old(self).buffer_view().fwd(),
                self.buffer_view().data() == old(self).buffer_view().data(),
                self.buffer_view().cur() == old(self).buffer_view().cur() + i,
                self.buffer_view().dict() == old(self).buffer_view().dict(),
                self.nice() == old(self).nice(),
            decreases len - i,
        {
            self.increment_pos();
            i = i + 1;
        }
    }

    /// Finds the matches at the read head, unless already found.
    pub fn calc_matches(&mut self)
        requires
            old(self).wf(),
        ensures
            final(self).wf(),
            final(self).buffer_view() == old(self).buffer_view(),
            final(self).nice() == old(self).nice(),
            valid_matches(final(self).buffer_view(), final(self).matches_view(), MATCH_LEN_MAX as int),
            final(self).buffer_view().fwd() < 4 ==> final(self).matches_view().len() == 0,
            forall|i: int| 0 <= i < final(self).matches_view().len()
                ==> (#[trigger] final(self).matches_view()[i]).distance < final(self).buffer_view().dict(),
            old(self).found() ==> final(self).matches_view() == old(self).matches_view(),
            final(self).found(),
    {
        if !self.matches_calculated {
            self.match_finder.find_and_write_matches(&self.buffer, &mut self.matches);
            self.matches_calculated = true;
        }
    }

    /// The matches last found at the read head.
    pub fn matches(&self) -> (r: &Vec<Match>)
        ensures
            r@ == self.matches_view(),
    {
        &self.matches
    }

    /// The context of a literal at the read head with rep distance `rep0`.
    pub fn literal_ctx(&self, rep0: u32) -> (r: LiteralCtx)
        requires
            self.wf(),
            self.buffer_view().fwd() >= 1,
        ensures
            r.byte == self.buffer_view().data()[self.buffer_view().cur()],
            (rep0 as int) < self.buffer_view().back()
                ==> r.match_byte == self.buffer_view().data()[self.buffer_view().cur() - rep0 - 1],
            r == literal_ctx_of(self.buffer_view(), rep0),
    {
        let back: usize = self.buffer.backwards_bytes();
        let byte: u8 = self.buffer.get_byte(0);
        let prev_byte: u8 = if back >= 1 { self.buffer.get_byte(-1) } else { 0 };
        let match_byte: u8 = if (rep0 as usize) < back {
            let off: i64 = -(rep0 as i64) - 1;
            self.buffer.get_byte(off as i32)
        } else {
            0
        };
        LiteralCtx { byte, match_byte, prev_byte }
    }
}

/// Whether `small_dist` is below 1/128 of `big_dist`.
pub fn is_distance_sufficiently_shorter(small_dist: u32, big_dist: u32) -> (r: bool)
    ensures
        r == (small_dist < big_dist / 128),
{
    small_dist < big_dist / 128
}

/// The greedy picker: the longest match or rep at the read head, with the
/// reference encoder's tie-breaking heuristics.
#[derive(Debug, Clone, Copy)]
pub struct LZMAFastInstructionPicker {
    nice_len: u32,
}

impl LZMAFastInstructionPicker {
    pub closed spec fn nice(&self) -> int {
        self.nice_len as int
    }

    pub fn new(nice_len: u32) -> (r: Self)
        ensures
            r.nice() == nice_len,
    {
        LZMAFastInstructionPicker { nice_len }
    }

    /// Chooses the next packet at the read head of `input`. The read head
    /// may move on by at most the packet's length.
    pub fn get_next_symbol(&mut self, input: &mut LZMAEncoderInput, state: &State) -> (r: EncodeInstruction)
        requires
            old(input).wf(),
            old(input).buffer_view().fwd() >= 1,
            state.wf(),
        ensures
            final(input).wf(),
            final(input).nice() == old(input).nice(),
            final(input).buffer_view().data() == old(input).buffer_view().data(),
            final(input).buffer_view().dict() == old(input).buffer_view().dict(),
            old(input).buffer_view().cur() <= final(input).buffer_view().cur()
                <= old(input).buffer_view().cur() + r.len_spec(),
            instruction_valid(old(input).buffer_view(), state.reps_view(), r),
            old(input).buffer_view().fwd() < 2 ==> r is Literal,
            r matches EncodeInstruction::Match(m) ==> (m.distance as int) < old(input).buffer_view().dict()
                && (m.len >= old(self).nice() || !(m.len == 2 && m.distance >= 128)),
            r matches EncodeInstruction::Rep { rep_index, len } ==> len >= 2
                && (state.reps_view()[rep_index as int] as int) < old(input).buffer_view().dict(),
            r matches EncodeInstruction::Rep { rep_index, len } ==> len == rep_len_at(old(input).buffer_view(),
                state.reps_view(), rep_index as int) && (rep_is_nice(old(input).buffer_view(), state.reps_view(),
                rep_index as int, old(self).nice()) || forall|j: int| 0 <= j < 4
                ==> #[trigger] rep_len_at(old(input).buffer_view(), state.reps_view(), j) <= len),
            forall|i: int| 0 <= i < 4 && old(input).buffer_view().fwd() >= 2
                && (forall|j: int| 0 <= j < i ==> !rep_is_nice(old(input).buffer_view(), state.reps_view(), j, old(self).nice()))
                && #[trigger] rep_is_nice(old(input).buffer_view(), state.reps_view(), i, old(self).nice())
                ==> r == (EncodeInstruction::Rep {
                    rep_index: i as usize,
                    len: rep_len_at(old(input).buffer_view(), state.reps_view(), i) as u32,
                }),
            ({
                let ms = old(input).matches_view();
                old(input).found() && old(input).buffer_view().fwd() >= 2
                    && (forall|j: int| 0 <= j < 4 ==> !rep_is_nice(old(input).buffer_view(), state.reps_view(), j, old(self).nice()))
                    && ms.len() > 0 && ms[ms.len() - 1].len >= old(self).nice()
                    ==> r == EncodeInstruction::Match(ms[ms.len() - 1])
            }),
            ({
                let ms = final(input).matches_view();
                old(input).buffer_view().fwd() >= 2
                    && (forall|j: int| 0 <= j < 4 ==> !rep_is_nice(old(input).buffer_view(), state.reps_view(), j, old(self).nice()))
                    && final(input).buffer_view() == old(input).buffer_view() && final(input).found()
                    && ms.len() > 0 && ms[ms.len() - 1].len >= old(self).nice()
                    ==> r == EncodeInstruction::Match(ms[ms.len() - 1])
            }),
    {
        let ghost b0 = input.buffer_view();
        let reps: [u32; 4] = state.reps();
        let ctx: LiteralCtx = input.literal_ctx(reps[0]);
        let fwd: usize = input.forward_bytes();
        let avail: u32 = if fwd < MATCH_LEN_MAX { fwd as u32 } else { MATCH_LEN_MAX as u32 };
        if avail < MATCH_LEN_MIN as u32 {
            return EncodeInstruction::Literal(ctx);
        }
        let back: usize = input.buffer().backwards_bytes();
        let dict: u32 = input.dict_size();
        let mut rep_lens: [u32; 4] = [0u32; 4];
        let mut best_rep_len: u32 = 0;
        let mut best_rep_index: usize = 0;
        let mut i: usize = 0;
        while i < 4
            invariant
                input.wf(),
                input.buffer_view() == b0,
                back == b0.back(),
                (avail as int) <= b0.fwd(),
                2 <= avail <= MATCH_LEN_MAX,
                reps@ == state.reps_view(),
                i <= 4,
                best_rep_index < 4,
                forall|k: int| 0 <= k < 4 ==> rep_lens@[k] <= avail,
                forall|k: int| 0 <= k < 4 && rep_lens@[k] > 0 ==> (reps@[k] + 1 <= b0.back()
                    && matches_upto(b0.data(), b0.cur(), reps@[k] as int, 0, rep_lens@[k] as int)),
                best_rep_len == 0 || (best_rep_len >= 2 && rep_lens@[best_rep_index as int] == best_rep_len
                    && best_rep_index < i),
                forall|k: int| 0 <= k < i ==> rep_lens@[k] as int == rep_len_at(b0, reps@, k),
                forall|k: int| 0 <= k < i ==> !rep_is_nice(b0, reps@, k, self.nice_len as int),
                forall|k: int| 0 <= k < i ==> rep_len_at(b0, reps@, k) < 2 || rep_len_at(b0, reps@, k) <= best_rep_len,
                forall|k: int| 0 <= k < 4 && rep_lens@[k] > 0 ==> (reps@[k] as int) < b0.dict(),
                avail as int == (if b0.fwd() < MATCH_LEN_MAX { b0.fwd() } else { MATCH_LEN_MAX as int }),
                dict as int == b0.dict(),
                self.nice_len == old(self).nice_len,
                input.found() == old(input).found(),
                input.matches_view() == old(input).matches_view(),
            decreases 4 - i,
        {
            let rep: u32 = reps[i];
            let len: u32 = if (rep as usize) < back && rep < dict {
                input.buffer().get_match_length(0, rep, avail)
            } else {
                0
            };
            rep_lens[i] = len;
            proof {
                assert(len as int == rep_len_at(b0, reps@, i as int));
            }
            if len >= MATCH_LEN_MIN as u32 {
                if len >= self.nice_len {
                    proof {
                        assert(rep_is_nice(b0, reps@, i as int, self.nice_len as int));
                        assert forall|ii: int| 0 <= ii < 4 && b0.fwd() >= 2
                            && (forall|j: int| 0 <= j < ii ==> !rep_is_nice(b0, reps@, j, self.nice_len as int))
                            && #[trigger] rep_is_nice(b0, reps@, ii, self.nice_len as int)
                            implies ii == i as int by {
                            if ii > i as int {
                                assert(!rep_is_nice(b0, reps@, i as int, self.nice_len as int));
                            }
                        }
                    }
                    return EncodeInstruction::Rep { rep_index: i, len };
                }
                if len > best_rep_len {
                    best_rep_index = i;
                    best_rep_len = len;
                }
            }
            i = i + 1;
        }
        input.calc_matches();
        let n: usize = input.matches().len();
        let mut main_len: u32 = 0;
        let mut main_dist: u32 = 0;
        if n > 0 {
            let main: Match = input.matches()[n - 1];
            if main.len >= self.nice_len {
                return EncodeInstruction::Match(main);
            }
            main_len = main.len;
            main_dist = main.distance;
            let mut k: usize = n - 1;
            while k > 0
                invariant
                    input.wf(),
                    input.buffer_view() == b0,
                    k < n == input.matches_view().len(),
                    (main_dist as int) < b0.dict(),
                    forall|q: int| 0 <= q < input.matches_view().len()
                        ==> (#[trigger] input.matches_view()[q]).distance < b0.dict(),
                    valid_matches(b0, input.matches_view(), MATCH_LEN_MAX as int),
                    valid_match(b0, Match { distance: main_dist, len: main_len }, MATCH_LEN_MAX as int),
                decreases k,
            {
                let m: Match = input.matches()[k - 1];
                if main_len != m.len + 1 || !is_distance_sufficiently_shorter(m.distance, main_dist) {
                    break;
                }
                main_len = m.len;
                main_dist = m.distance;
                k = k - 1;
            }
            if main_len == MATCH_LEN_MIN as u32 && main_dist >= 0x80 {
                main_len = 0;
                main_dist = 0;
            }
        }
        if best_rep_len >= MATCH_LEN_MIN as u32 {
            if best_rep_len + 1 >= main_len || (best_rep_len + 2 >= main_len && main_dist >= (1u32 << 9u32))
                || (best_rep_len + 3 >= main_len && main_dist >= (1u32 << 15u32)) {
                return EncodeInstruction::Rep { rep_index: best_rep_index, len: best_rep_len };
            }
        }
        if main_len == 0 {
            return EncodeInstruction::Literal(ctx);
        }
        input.increment_pos();
        input.calc_matches();
        let n2: usize = input.matches().len();
        if n2 > 0 {
            let next: Match = input.matches()[n2 - 1];
            if (next.len >= main_len && next.distance < main_dist) || (next.len == main_len + 1
                && !is_distance_sufficiently_shorter(main_dist, next.distance)) || next.len > main_len + 1 || (
            next.len + 1 >= main_len && main_len >= MATCH_LEN_MIN as u32 + 1 && is_distance_sufficiently_shorter(
                next.distance,
                main_dist,
            )) {
                return EncodeInstruction::Literal(ctx);
            }
        }
        let limit: u32 = if main_len - 1 > MATCH_LEN_MIN as u32 { main_len - 1 } else { MATCH_LEN_MIN as u32 };
        if rep_lens[0] >= limit || rep_lens[1] >= limit || rep_lens[2] >= limit || rep_lens[3] >= limit {
            return EncodeInstruction::Literal(ctx);
        }
        EncodeInstruction::Match(Match { len: main_len, distance: main_dist })
    }
}

/// How the encoder chooses packets.
pub enum InstructionPicker {
    Fast(LZMAFastInstructionPicker),
    Normal(LZMANormalInstructionPicker),
}

impl InstructionPicker {
    pub open spec fn wf(&self) -> bool {
        match self {
            InstructionPicker::Fast(_) => true,
            InstructionPicker::Normal(p) => p.wf(),
        }
    }

    /// Packets chosen earlier are still to be coded.
    pub open spec fn pending(&self) -> bool {
        match self {
            InstructionPicker::Fast(_) => false,
            InstructionPicker::Normal(p) => p.pending(),
        }
    }

    pub open spec fn is_fast(&self) -> bool {
        self is Fast
    }
}

/// The stream encoder: picks each packet and codes it.
pub struct LZMACodecEncoder {
    coder: EncoderPriceCalc,
    /// The number of input bytes coded so far.
    position: u64,
    dict_size: u32,
    picker: InstructionPicker,
}

impl LZMACodecEncoder {
    pub closed spec fn wf(&self) -> bool {
        &&& self.coder.wf()
        &&& self.picker.wf()
    }

    pub closed spec fn pending(&self) -> bool {
        self.picker.pending()
    }

    pub closed spec fn is_fast(&self) -> bool {
        self.picker.is_fast()
    }

    /// Whether packets chosen earlier are still to be coded.
    pub fn has_pending(&self) -> (r: bool)
        requires
            self.wf(),
        ensures
            r == self.pending(),
    {
        match &self.picker {
            InstructionPicker::Fast(_) => false,
            InstructionPicker::Normal(p) => p.has_pending(),
        }
    }

    pub closed spec fn position_spec(&self) -> int {
        self.position as int
    }

    /// The packet coder with its probability tables.
    pub closed spec fn coder_view(&self) -> EncoderPriceCalc {
        self.coder
    }

    pub fn new(dict_size: u32, lc: u32, lp: u32, pb: u32, nice_len: u32, picker: InstructionPicker) -> (r: Self)
        requires
            1 <= dict_size,
            lc <= 8,
            lp <= 4,
            pb <= 4,
            2 <= nice_len <= MATCH_LEN_MAX,
            picker.wf(),
        ensures
            r.wf(),
            r.position_spec() == 0,
            r.is_fast() == picker.is_fast(),
    {
        LZMACodecEncoder {
            coder: EncoderPriceCalc::new(dict_size, lc, lp, pb, nice_len),
            position: 0,
            dict_size,
            picker,
        }
    }

    /// The number of input bytes coded so far.
    pub fn position(&self) -> (r: u64)
        ensures
            r == self.position_spec(),
    {
        self.position
    }

    /// Picks the next packet and moves the coded position past it; the read
    /// head of `input` is brought up to that position where it lags.
    fn get_next_instruction(&mut self, input: &mut LZMAEncoderInput) -> (r: EncodeInstruction)
        requires
            old(self).wf(),
            old(input).wf(),
            old(input).buffer_view().fwd() >= 1 || old(self).pending(),
            old(self).is_fast() ==> old(self).position_spec() == old(input).buffer_view().cur(),
        ensures
            final(self).wf(),
            final(input).wf(),
            final(self).coder.state_spec() == old(self).coder.state_spec(),
            old(self).coder.tables_same(&final(self).coder),
            final(input).buffer_view().data() == old(input).buffer_view().data(),
            final(input).nice() == old(input).nice(),
            final(self).is_fast() == old(self).is_fast(),
            r.well_formed(),
            old(self).position_spec() + r.len_spec() <= u64::MAX ==> final(self).position_spec()
                == old(self).position_spec() + r.len_spec(),
            old(self).is_fast() ==> final(self).position_spec() == final(input).buffer_view().cur(),
            final(self).position_spec() <= final(input).buffer_view().cur() || final(input).buffer_view().fwd() == 0,
    {
        let pos: u64 = self.position;
        let state: State = self.coder.state();
        let ghost b0 = input.buffer_view();
        proof {
            input.lemma_data_len();
        }
        let instruction: EncodeInstruction = match &mut self.picker {
            InstructionPicker::Fast(p) => p.get_next_symbol(input, &state),
            InstructionPicker::Normal(p) => p.get_next_symbol(input, &mut self.coder, &state),
        };
        let len: u32 = instruction.length();
        proof {
            input.lemma_data_len();
        }
        self.position = if pos <= u64::MAX - len as u64 { pos + len as u64 } else { u64::MAX };
        proof {
            if old(self).is_fast() {
                assert(instruction.len_spec() <= b0.fwd());
                assert(self.position == b0.cur() + instruction.len_spec());
            }
        }
        while input.pos() < self.position && input.forward_bytes() > 0
            invariant
                input.wf(),
                old(self).is_fast() ==> input.buffer_view().cur() <= self.position <= input.buffer_view().data().len(),
                input.buffer_view().data() == old(input).buffer_view().data(),
                input.nice() == old(input).nice(),
                input.buffer_view().cur() >= old(input).buffer_view().cur(),
            decreases input.buffer_view().fwd(),
        {
            input.increment_pos();
        }
        instruction
    }

    /// Picks and codes one packet; returns the number of input bytes it
    /// stands for. The read head of `input` ends at or past the coded bytes.
    pub fn encode_one_packet(&mut self, rc: &mut RangeEncoder, input: &mut LZMAEncoderInput) -> (r: u32)
        requires
            old(self).wf(),
            old(rc).wf(),
            old(input).wf(),
            old(input).buffer_view().fwd() >= 1 || old(self).pending(),
            old(self).is_fast() ==> old(self).position_spec() == old(input).buffer_view().cur(),
        ensures
            final(self).wf(),
            final(rc).wf(),
            final(input).wf(),
            final(input).buffer_view().data() == old(input).buffer_view().data(),
            final(input).nice() == old(input).nice(),
            final(self).is_fast() == old(self).is_fast(),
            old(rc).emitted().is_prefix_of(final(rc).emitted()),
            1 <= r <= MATCH_LEN_MAX,
            old(self).position_spec() + r <= u64::MAX ==> final(self).position_spec() == old(self).position_spec() + r,
            old(self).is_fast() ==> final(self).position_spec() == final(input).buffer_view().cur(),
            final(self).position_spec() <= final(input).buffer_view().cur() || final(input).buffer_view().fwd() == 0,
            exists|i: EncodeInstruction| i.well_formed() && r == i.len_spec()
                && #[trigger] packet_coded(old(self).coder_view(), old(rc).coder_view(), final(rc).coder_view(),
                old(self).position_spec() as u64, i),
    {
        let pos: u64 = self.position;
        let instruction: EncodeInstruction = self.get_next_instruction(input);
        match instruction {
            EncodeInstruction::Literal(ctx) => {
                self.coder.encode_literal(rc, pos, ctx);
            },
            EncodeInstruction::Match(m) => {
                self.coder.encode_match(rc, pos, m);
            },
            EncodeInstruction::Rep { rep_index, len } => {
                self.coder.encode_rep_match(rc, pos, rep_index as u32, len);
            },
        }
        let n: u32 = instruction.length();
        proof {
            assert(packet_coded(old(self).coder, old(rc).coder_view(), rc.coder_view(), pos, instruction));
            assert(instruction.well_formed());
            assert(n == instruction.len_spec());
            assert(old(self).coder_view() == old(self).coder);
            assert(old(self).position_spec() as u64 == pos);
        }
        n
    }
}

} // verus!
