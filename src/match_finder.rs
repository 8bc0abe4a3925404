//! Match finders: the HC4 hash-chain finder and a brute-force reference.

use vstd::prelude::*;
use crate::data_buffers::{
    EncoderDataBuffer, matches_upto, match_len_from, lemma_match_len_at_least, lemma_match_len_bounded,
    lemma_match_len_exact,
};
use crate::length_codec::MATCH_LEN_MAX;
use crate::range_codec::{pow2_int, lemma_pow2_int_mono, lemma_pow2_int_step, lemma_pow2_int_32};

verus! {

/// A back-reference: the next `len` bytes repeat the bytes starting
/// `distance + 1` bytes back.
#[derive(Debug, Clone, Copy, PartialEq, Eq, Hash, Structural)]
pub struct Match {
    pub distance: u32,
    pub len: u32,
}

/// `m` is a true match of at least two bytes at the read head of `b`,
/// no longer than `max_len`.
pub open spec fn valid_match(b: EncoderDataBuffer, m: Match, max_len: int) -> bool {
    &&& 2 <= m.len <= max_len
    &&& m.len <= b.fwd()
    &&& m.distance + 1 <= b.back()
    &&& matches_upto(b.data(), b.cur(), m.distance as int, 0, m.len as int)
}

/// Every match of `ms` is valid, and lengths strictly increase.
pub open spec fn valid_matches(b: EncoderDataBuffer, ms: Seq<Match>, max_len: int) -> bool {
    &&& forall|i: int| 0 <= i < ms.len() ==> valid_match(b, #[trigger] ms[i], max_len)
    &&& forall|i: int, j: int| 0 <= i < j < ms.len() ==> (#[trigger] ms[i]).len < (#[trigger] ms[j]).len
}

/// `ms` holds, for every distance below `min(dict, back)` with a match of
/// two bytes or more, that distance with its full length capped at
/// `min(fwd, max_len)`.
pub open spec fn finds_all_matches(b: EncoderDataBuffer, ms: Seq<Match>, max_len: int, dict: int) -> bool {
    forall|d: int| 0 <= d < dict && d < b.back() && #[trigger] match_len_from(b.data(), b.cur(), d, 0, cap_of(b, max_len)) >= 2
        ==> exists|j: int| 0 <= j < ms.len() && ms[j] == (Match {
            distance: d as u32,
            len: match_len_from(b.data(), b.cur(), d, 0, cap_of(b, max_len)) as u32,
        })
}

/// The longest length a finder capped at `max_len` can report at the read head.
pub open spec fn cap_of(b: EncoderDataBuffer, max_len: int) -> int {
    if b.fwd() < max_len { b.fwd() } else { max_len }
}

/// Some match of `ms` has the distance of `m` and is at least as long.
pub open spec fn covered_by(ms: Seq<Match>, m: Match) -> bool {
    exists|j: int| 0 <= j < ms.len() && ms[j].distance == m.distance && ms[j].len >= m.len
}

/// Every match HC4 reports is also reported by the brute-force finder over
/// the same window, at the same distance and at least as long.
pub proof fn lemma_hc4_matches_found_by_brute_force(
    b: EncoderDataBuffer,
    hc4: Seq<Match>,
    brute: Seq<Match>,
    hc4_max: int,
    brute_max: int,
    dict: int,
)
    requires
        valid_matches(b, hc4, hc4_max),
        forall|i: int| 0 <= i < hc4.len() ==> (#[trigger] hc4[i]).distance < dict,
        hc4_max <= brute_max <= u32::MAX,
        finds_all_matches(b, brute, brute_max, dict),
    ensures
        forall|i: int| 0 <= i < hc4.len() ==> covered_by(brute, #[trigger] hc4[i]),
{
    let cap = cap_of(b, brute_max);
    assert forall|i: int| 0 <= i < hc4.len() implies covered_by(brute, #[trigger] hc4[i]) by {
        let m = hc4[i];
        assert(valid_match(b, m, hc4_max));
        lemma_match_len_at_least(b.data(), b.cur(), m.distance as int, 0, m.len as int, cap);
        let l = match_len_from(b.data(), b.cur(), m.distance as int, 0, cap);
        lemma_match_len_bounded(b.data(), b.cur(), m.distance as int, 0, cap);
        assert(l >= 2);
        let j = choose|j: int| 0 <= j < brute.len() && brute[j] == (Match { distance: m.distance, len: l as u32 });
        assert(brute[j].len == l);
        assert(brute[j].distance == m.distance && brute[j].len >= m.len);
    }
}

/// A fixed-length ring of positions; each push overwrites the oldest.
pub struct CyclicVec {
    buf: Vec<u32>,
    pos: usize,
}

impl CyclicVec {
    pub closed spec fn wf(&self) -> bool {
        &&& self.buf@.len() > 0
        &&& self.pos < self.buf@.len()
    }

    pub closed spec fn len_spec(&self) -> int {
        self.buf@.len() as int
    }

    pub fn new(size: usize) -> (r: Self)
        requires
            size > 0,
        ensures
            r.wf(),
            r.len_spec() == size,
    {
        CyclicVec { buf: vec![0u32; size], pos: 0 }
    }

    pub fn push(&mut self, value: u32)
        requires
            old(self).wf(),
        ensures
            final(self).wf(),
            final(self).len_spec() == old(self).len_spec(),
    {
        let p: usize = self.pos;
        let n: usize = self.buf.len();
        self.buf.set(p, value);
        self.pos = if p + 1 == n { 0 } else { p + 1 };
    }

    /// Overwrites the slot that the next push would fill.
    pub fn replace_current(&mut self, value: u32)
        requires
            old(self).wf(),
        ensures
            final(self).wf(),
            final(self).len_spec() == old(self).len_spec(),
    {
        let p: usize = self.pos;
        self.buf.set(p, value);
    }

    /// The value pushed `index` pushes ago (1 is the last one).
    pub fn get_backwards(&self, index: usize) -> (r: u32)
        requires
            self.wf(),
            index < self.len_spec(),
    {
        if index > self.pos {
            self.buf[self.pos + (self.buf.len() - index)]
        } else {
            self.buf[self.pos - index]
        }
    }

    pub fn len(&self) -> (r: usize)
        ensures
            r == self.len_spec(),
    {
        self.buf.len()
    }

    /// Lowers every value by `offset`, clamping at 0.
    pub fn subtract_all(&mut self, offset: u32)
        requires
            old(self).wf(),
        ensures
            final(self).wf(),
            final(self).len_spec() == old(self).len_spec(),
    {
        let mut i: usize = 0;
        while i < self.buf.len()
            invariant
                self.wf(),
                self.len_spec() == old(self).len_spec(),
            decreases self.buf@.len() - i,
        {
            let v: u32 = self.buf[i];
            self.buf.set(i, if v > offset { v - offset } else { 0 });
            i = i + 1;
        }
    }
}

pub const HASH2_SIZE: u32 = 1024;
pub const HASH2_MASK: u32 = 1023;
pub const HASH3_SIZE: u32 = 65536;
pub const HASH3_MASK: u32 = 65535;

/// Table positions of the 2-, 3- and 4-byte hashes of the next bytes.
#[derive(Debug, Clone, Copy)]
pub struct HashIndex {
    pub hash2_pos: usize,
    pub hash3_pos: usize,
    pub hash4_pos: usize,
}

/// The positions last stored under a `HashIndex`.
#[derive(Debug, Clone, Copy)]
pub struct HashValues {
    pub hash2_value: u32,
    pub hash3_value: u32,
    pub hash4_value: u32,
}

proof fn lemma_and_mask(x: u32, m: u32)
    ensures
        (x & m) <= m,
{
    assert((x & m) <= m) by (bit_vector);
}

/// The three hash tables of HC4.
pub struct Hash234 {
    hash2_table: Vec<u32>,
    hash3_table: Vec<u32>,
    hash4_table: Vec<u32>,
    hash4_mask: u32,
    crc: Vec<u32>,
}

/// The smallest power of two from `p` on that is at least `n`.
pub open spec fn next_pow2_from(p: int, n: int) -> int
    decreases (if p < n { n - p } else { 0 }),
{
    if 1 <= p && p < n {
        next_pow2_from(2 * p, n)
    } else {
        p
    }
}

/// The longest match length that can be measured: `max_len`, or less when
/// fewer bytes lie ahead.
pub open spec fn capped(max_len: int, fwd: int) -> int {
    if fwd < max_len { fwd } else { max_len }
}

/// The size of the 4-byte hash table: half the power of two that covers the
/// dictionary, at least 2^16, and 2^23 for dictionaries over 2^25.
pub open spec fn hash4_size(dict_size: int) -> int {
    let h = next_pow2_from(1, dict_size) / 2;
    if dict_size > 0x200_0000 { 0x80_0000 } else if h < 0x1_0000 { 0x1_0000 } else { h }
}

/// The size of the 4-byte hash table for a dictionary size.
pub fn get_hash4_size(dict_size: u32) -> (r: u32)
    ensures
        0x1_0000 <= r <= 0x4000_0000,
        r as int == hash4_size(dict_size as int),
{
    if dict_size > 0x200_0000 {
        return 0x80_0000;
    }
    let mut p: u32 = 1;
    let ghost mut k: int = 0;
    while p < dict_size
        invariant
            1 <= p <= 0x200_0000,
            0 <= k,
            p as int == pow2_int(k),
            dict_size <= 0x200_0000,
            next_pow2_from(p as int, dict_size as int) == next_pow2_from(1, dict_size as int),
        decreases 0x1_0000_0000 - p,
    {
        proof {
            reveal_with_fuel(pow2_int, 26);
            assert(pow2_int(25) == 0x200_0000);
            if k >= 25 {
                lemma_pow2_int_mono(25, k);
            } else {
                lemma_pow2_int_mono(k, 24);
            }
            lemma_pow2_int_step(k);
            k = k + 1;
        }
        p = p * 2;
    }
    let mut h: u32 = p / 2;
    if h < 0x1_0000 {
        h = 0x1_0000;
    }
    h
}

impl Hash234 {
    pub closed spec fn wf(&self) -> bool {
        &&& self.hash2_table@.len() == HASH2_SIZE
        &&& self.hash3_table@.len() == HASH3_SIZE
        &&& self.hash4_mask as int + 1 == self.hash4_table@.len()
        &&& self.crc@.len() == 256
    }

    /// The 2-byte hash table position of bytes `b0`, `b1`.
    pub closed spec fn h2_index(&self, b0: u8, b1: u8) -> int {
        ((self.crc@[b0 as int] ^ (b1 as u32)) & HASH2_MASK) as int
    }

    /// The position stored under 2-byte hash slot `i`.
    pub closed spec fn h2_at(&self, i: int) -> u32 {
        self.hash2_table@[i]
    }

    pub closed spec fn hash4_len(&self) -> int {
        self.hash4_table@.len() as int
    }

    /// Estimated memory use in bytes.
    pub fn get_mem_usage(dict_size: u32) -> (r: u64)
        requires
            dict_size <= 0x7FFF_0000,
        ensures
            r <= 0x2_0000_0000,
    {
        let total: u64 = HASH2_SIZE as u64 + HASH3_SIZE as u64 + get_hash4_size(dict_size) as u64;
        total * 4
    }

    pub fn new(dict_size: u32) -> (r: Self)
        requires
            dict_size <= 0x7FFF_0000,
        ensures
            r.wf(),
    {
        let size4: u32 = get_hash4_size(dict_size);
        let crc: Vec<u32> = vec![
            0x00000000, 0x77073096, 0xee0e612c, 0x990951ba, 0x076dc419, 0x706af48f, 0xe963a535, 0x9e6495a3,
            0x0edb8832, 0x79dcb8a4, 0xe0d5e91e, 0x97d2d988, 0x09b64c2b, 0x7eb17cbd, 0xe7b82d07, 0x90bf1d91,
            0x1db71064, 0x6ab020f2, 0xf3b97148, 0x84be41de, 0x1adad47d, 0x6ddde4eb, 0xf4d4b551, 0x83d385c7,
            0x136c9856, 0x646ba8c0, 0xfd62f97a, 0x8a65c9ec, 0x14015c4f, 0x63066cd9, 0xfa0f3d63, 0x8d080df5,
            0x3b6e20c8, 0x4c69105e, 0xd56041e4, 0xa2677172, 0x3c03e4d1, 0x4b04d447, 0xd20d85fd, 0xa50ab56b,
            0x35b5a8fa, 0x42b2986c, 0xdbbbc9d6, 0xacbcf940, 0x32d86ce3, 0x45df5c75, 0xdcd60dcf, 0xabd13d59,
            0x26d930ac, 0x51de003a, 0xc8d75180, 0xbfd06116, 0x21b4f4b5, 0x56b3c423, 0xcfba9599, 0xb8bda50f,
            0x2802b89e, 0x5f058808, 0xc60cd9b2, 0xb10be924, 0x2f6f7c87, 0x58684c11, 0xc1611dab, 0xb6662d3d,
            0x76dc4190, 0x01db7106, 0x98d220bc, 0xefd5102a, 0x71b18589, 0x06b6b51f, 0x9fbfe4a5, 0xe8b8d433,
            0x7807c9a2, 0x0f00f934, 0x9609a88e, 0xe10e9818, 0x7f6a0dbb, 0x086d3d2d, 0x91646c97, 0xe6635c01,
            0x6b6b51f4, 0x1c6c6162, 0x856530d8, 0xf262004e, 0x6c0695ed, 0x1b01a57b, 0x8208f4c1, 0xf50fc457,
            0x65b0d9c6, 0x12b7e950, 0x8bbeb8ea, 0xfcb9887c, 0x62dd1ddf, 0x15da2d49, 0x8cd37cf3, 0xfbd44c65,
            0x4db26158, 0x3ab551ce, 0xa3bc0074, 0xd4bb30e2, 0x4adfa541, 0x3dd895d7, 0xa4d1c46d, 0xd3d6f4fb,
            0x4369e96a, 0x346ed9fc, 0xad678846, 0xda60b8d0, 0x44042d73, 0x33031de5, 0xaa0a4c5f, 0xdd0d7cc9,
            0x5005713c, 0x270241aa, 0xbe0b1010, 0xc90c2086, 0x5768b525, 0x206f85b3, 0xb966d409, 0xce61e49f,
            0x5edef90e, 0x29d9c998, 0xb0d09822, 0xc7d7a8b4, 0x59b33d17, 0x2eb40d81, 0xb7bd5c3b, 0xc0ba6cad,
            0xedb88320, 0x9abfb3b6, 0x03b6e20c, 0x74b1d29a, 0xead54739, 0x9dd277af, 0x04db2615, 0x73dc1683,
            0xe3630b12, 0x94643b84, 0x0d6d6a3e, 0x7a6a5aa8, 0xe40ecf0b, 0x9309ff9d, 0x0a00ae27, 0x7d079eb1,
            0xf00f9344, 0x8708a3d2, 0x1e01f268, 0x6906c2fe, 0xf762575d, 0x806567cb, 0x196c3671, 0x6e6b06e7,
            0xfed41b76, 0x89d32be0, 0x10da7a5a, 0x67dd4acc, 0xf9b9df6f, 0x8ebeeff9, 0x17b7be43, 0x60b08ed5,
            0xd6d6a3e8, 0xa1d1937e, 0x38d8c2c4, 0x4fdff252, 0xd1bb67f1, 0xa6bc5767, 0x3fb506dd, 0x48b2364b,
            0xd80d2bda, 0xaf0a1b4c, 0x36034af6, 0x41047a60, 0xdf60efc3, 0xa867df55, 0x316e8eef, 0x4669be79,
            0xcb61b38c, 0xbc66831a, 0x256fd2a0, 0x5268e236, 0xcc0c7795, 0xbb0b4703, 0x220216b9, 0x5505262f,
            0xc5ba3bbe, 0xb2bd0b28, 0x2bb45a92, 0x5cb36a04, 0xc2d7ffa7, 0xb5d0cf31, 0x2cd99e8b, 0x5bdeae1d,
            0x9b64c2b0, 0xec63f226, 0x756aa39c, 0x026d930a, 0x9c0906a9, 0xeb0e363f, 0x72076785, 0x05005713,
            0x95bf4a82, 0xe2b87a14, 0x7bb12bae, 0x0cb61b38, 0x92d28e9b, 0xe5d5be0d, 0x7cdcefb7, 0x0bdbdf21,
            0x86d3d2d4, 0xf1d4e242, 0x68ddb3f8, 0x1fda836e, 0x81be16cd, 0xf6b9265b, 0x6fb077e1, 0x18b74777,
            0x88085ae6, 0xff0f6a70, 0x66063bca, 0x11010b5c, 0x8f659eff, 0xf862ae69, 0x616bffd3, 0x166ccf45,
            0xa00ae278, 0xd70dd2ee, 0x4e048354, 0x3903b3c2, 0xa7672661, 0xd06016f7, 0x4969474d, 0x3e6e77db,
            0xaed16a4a, 0xd9d65adc, 0x40df0b66, 0x37d83bf0, 0xa9bcae53, 0xdebb9ec5, 0x47b2cf7f, 0x30b5ffe9,
            0xbdbdf21c, 0xcabac28a, 0x53b39330, 0x24b4a3a6, 0xbad03605, 0xcdd70693, 0x54de5729, 0x23d967bf,
            0xb3667a2e, 0xc4614ab8, 0x5d681b02, 0x2a6f2b94, 0xb40bbe37, 0xc30c8ea1, 0x5a05df1b, 0x2d02ef8d,
        ];
        Hash234 {
            hash2_table: vec![0u32; HASH2_SIZE as usize],
            hash3_table: vec![0u32; HASH3_SIZE as usize],
            hash4_table: vec![0u32; size4 as usize],
            hash4_mask: size4 - 1,
            crc,
        }
    }

    /// The table positions for the four bytes `b0..b3`.
    pub fn calc_hash_index(&self, b0: u8, b1: u8, b2: u8, b3: u8) -> (r: HashIndex)
        requires
            self.wf(),
        ensures
            r.hash2_pos < HASH2_SIZE,
            r.hash3_pos < HASH3_SIZE,
            r.hash4_pos < self.hash4_len(),
            r.hash2_pos as int == self.h2_index(b0, b1),
    {
        let hash: u32 = self.crc[b0 as usize] ^ (b1 as u32);
        let h2: u32 = hash & HASH2_MASK;
        let hash: u32 = hash ^ ((b2 as u32) << 8u32);
        let h3: u32 = hash & HASH3_MASK;
        let hash: u32 = hash ^ (self.crc[b3 as usize] << 5u32);
        let h4: u32 = hash & self.hash4_mask;
        proof {
            lemma_and_mask(hash, self.hash4_mask);
            lemma_and_mask(h2 ^ 0, HASH2_MASK);
        }
        assert(h2 <= HASH2_MASK) by {
            lemma_and_mask(self.crc@[b0 as int] ^ (b1 as u32), HASH2_MASK);
        }
        assert(h3 <= HASH3_MASK) by {
            lemma_and_mask((self.crc@[b0 as int] ^ (b1 as u32)) ^ ((b2 as u32) << 8u32), HASH3_MASK);
        }
        HashIndex { hash2_pos: h2 as usize, hash3_pos: h3 as usize, hash4_pos: h4 as usize }
    }

    pub fn get_table_values(&self, index: &HashIndex) -> (r: HashValues)
        requires
            self.wf(),
            index.hash2_pos < HASH2_SIZE,
            index.hash3_pos < HASH3_SIZE,
            index.hash4_pos < self.hash4_len(),
        ensures
            r.hash2_value == self.h2_at(index.hash2_pos as int),
    {
        HashValues {
            hash2_value: self.hash2_table[index.hash2_pos],
            hash3_value: self.hash3_table[index.hash3_pos],
            hash4_value: self.hash4_table[index.hash4_pos],
        }
    }

    pub fn update_tables(&mut self, index: &HashIndex, pos: u32)
        requires
            old(self).wf(),
            index.hash2_pos < HASH2_SIZE,
            index.hash3_pos < HASH3_SIZE,
            index.hash4_pos < old(self).hash4_len(),
        ensures
            final(self).wf(),
            final(self).hash4_len() == old(self).hash4_len(),
    {
        self.hash2_table.set(index.hash2_pos, pos);
        self.hash3_table.set(index.hash3_pos, pos);
        self.hash4_table.set(index.hash4_pos, pos);
    }

    /// Lowers every stored position by `offset`, clamping at 0.
    pub fn map_all_values(&mut self, offset: u32)
        requires
            old(self).wf(),
        ensures
            final(self).wf(),
            final(self).hash4_len() == old(self).hash4_len(),
            forall|i: int| 0 <= i < HASH2_SIZE ==> #[trigger] final(self).h2_at(i) == sub_clamp(old(self).h2_at(i), offset),
            forall|b0: u8, b1: u8| #[trigger] final(self).h2_index(b0, b1) == old(self).h2_index(b0, b1),
    {
        subtract_all(&mut self.hash2_table, offset);
        subtract_all(&mut self.hash3_table, offset);
        subtract_all(&mut self.hash4_table, offset);
    }
}

/// `v` lowered by `off`, clamped at 0.
pub open spec fn sub_clamp(v: u32, off: u32) -> u32 {
    if v > off { (v - off) as u32 } else { 0 }
}

fn subtract_all(v: &mut Vec<u32>, offset: u32)
    ensures
        final(v)@.len() == old(v)@.len(),
        forall|k: int| 0 <= k < old(v)@.len() ==> #[trigger] final(v)@[k] == sub_clamp(old(v)@[k], offset),
{
    let mut i: usize = 0;
    while i < v.len()
        invariant
            v@.len() == old(v)@.len(),
            i <= v@.len(),
            forall|k: int| 0 <= k < i ==> #[trigger] v@[k] == sub_clamp(old(v)@[k], offset),
            forall|k: int| i <= k < v@.len() ==> #[trigger] v@[k] == old(v)@[k],
        decreases v@.len() - i,
    {
        let x: u32 = v[i];
        v.set(i, if x > offset { x - offset } else { 0 });
        i = i + 1;
    }
}

/// The next four bytes at the read head.
pub fn get_next_4_bytes(buffer: &EncoderDataBuffer) -> (r: [u8; 4])
    requires
        buffer.wf(),
        buffer.fwd() >= 4,
    ensures
        forall|i: int| 0 <= i < 4 ==> #[trigger] r@[i] == buffer.data()[buffer.cur() + i],
{
    let _back: usize = buffer.backwards_bytes();
    let r: [u8; 4] = [buffer.get_byte(0), buffer.get_byte(1), buffer.get_byte(2), buffer.get_byte(3)];
    assert(r@[0] == buffer.data()[buffer.cur() + 0]);
    r
}

/// Positions are rebased once the counter reaches this value.
pub const MAX_SAFE_READ_POS: u32 = 0x7FFF_FFFF;

/// The HC4 match finder: hashes of the next 2, 3 and 4 bytes, and a chain
/// linking each position to the previous one with the same 4-byte hash.
pub struct HC4MatchFinder {
    hash: Hash234,
    chain: CyclicVec,
    depth_limit: u32,
    nice_len: u32,
    max_match_len: u32,
    /// The counter of the current position; stored positions are earlier values.
    lz_pos: u32,
}

impl HC4MatchFinder {
    pub closed spec fn wf(&self) -> bool {
        &&& self.hash.wf()
        &&& self.chain.wf()
        &&& 2 <= self.chain.len_spec() <= 0x8000_0001
        &&& 2 <= self.nice_len <= self.max_match_len <= MATCH_LEN_MAX
        &&& self.chain.len_spec() < self.lz_pos <= MAX_SAFE_READ_POS
    }

    pub closed spec fn max_len(&self) -> int {
        self.max_match_len as int
    }

    pub closed spec fn nice(&self) -> int {
        self.nice_len as int
    }

    /// The offset the next position rebases stored positions by (0: none).
    pub closed spec fn norm_off(&self) -> u32 {
        if self.lz_pos + 1 >= MAX_SAFE_READ_POS { (self.lz_pos - self.chain.len_spec()) as u32 } else { 0 }
    }

    /// The distance to the earlier position with the same 2-byte hash as
    /// the read head of `b`, as the next search sees it, if the window
    /// holds it.
    pub closed spec fn hash2_candidate(&self, b: EncoderDataBuffer) -> Option<int> {
        let d = b.data();
        let c = b.cur();
        let off = self.norm_off();
        let sv = sub_clamp(self.hash.h2_at(self.hash.h2_index(d[c], d[c + 1])), off) as int;
        let lz = self.lz_pos - off + 1;
        if sv >= lz {
            None
        } else if lz - sv - 1 < b.back() && lz - sv < self.chain.len_spec() {
            Some(lz - sv - 1)
        } else {
            None
        }
    }

    /// The window size the finder was made for.
    pub closed spec fn dict(&self) -> int {
        self.chain.len_spec() - 1
    }

    /// Estimated memory use in bytes.
    pub fn get_mem_usage(dict_size: u32) -> (r: u64)
        requires
            dict_size <= 0x7FFF_0000,
    {
        Hash234::get_mem_usage(dict_size) + dict_size as u64 * 4
    }

    /// A finder over a window of `dict_size` bytes; a `depth_limit` of 0 or
    /// less picks a depth from `nice_len`.
    pub fn new(dict_size: u32, nice_len: u32, max_match_len: u32, depth_limit: i32) -> (r: Self)
        requires
            1 <= dict_size <= 0x7FFF_0000,
            2 <= nice_len <= max_match_len <= MATCH_LEN_MAX,
        ensures
            r.wf(),
            r.max_len() == max_match_len,
            r.nice() == nice_len,
            r.dict() == dict_size,
    {
        HC4MatchFinder {
            hash: Hash234::new(dict_size),
            chain: CyclicVec::new(dict_size as usize + 1),
            depth_limit: if depth_limit > 0 { depth_limit as u32 } else { 4 + nice_len / 4 },
            nice_len,
            max_match_len,
            lz_pos: dict_size + 2,
        }
    }

    /// Moves to the next position, rebasing every stored position when the
    /// counter gets large.
    fn increment_pos(&mut self)
        requires
            old(self).wf(),
        ensures
            final(self).wf(),
            final(self).max_len() == old(self).max_len(),
            final(self).nice() == old(self).nice(),
            final(self).dict() == old(self).dict(),
            final(self).lz_pos == old(self).lz_pos - old(self).norm_off() + 1,
            forall|i: int| 0 <= i < HASH2_SIZE ==> #[trigger] final(self).hash.h2_at(i)
                == sub_clamp(old(self).hash.h2_at(i), old(self).norm_off()),
            forall|b0: u8, b1: u8| #[trigger] final(self).hash.h2_index(b0, b1) == old(self).hash.h2_index(b0, b1),
            final(self).chain.len_spec() == old(self).chain.len_spec(),
    {
        if self.lz_pos + 1 >= MAX_SAFE_READ_POS {
            let norm_offset: u32 = self.lz_pos - self.chain.len() as u32;
            self.hash.map_all_values(norm_offset);
            self.chain.subtract_all(norm_offset);
            self.lz_pos = self.lz_pos - norm_offset;
        }
        self.lz_pos = self.lz_pos + 1;
    }

    /// The distance to the position stored as `stored`, if the window still
    /// holds it.
    fn delta_of(&self, stored: u32, back: usize) -> (r: Option<u32>)
        requires
            self.wf(),
        ensures
            r matches Some(d) ==> d as int + 1 <= back && (d as int) + 1 < self.chain.len_spec(),
            r matches Some(d) ==> d as int == self.lz_pos - stored - 1,
            (stored < self.lz_pos && self.lz_pos - stored - 1 < back && self.lz_pos - stored < self.chain.len_spec())
                ==> r is Some,
    {
        if stored >= self.lz_pos {
            return None;
        }
        let delta: u32 = self.lz_pos - stored - 1;
        if (delta as usize) < back && (delta as usize) + 1 < self.chain.len() {
            Some(delta)
        } else {
            None
        }
    }

    /// Records the current position and appends to `out` the matches found
    /// there, shortest first, each longer than the one before.
    pub fn find_and_write_matches(&mut self, buffer: &EncoderDataBuffer, out: &mut Vec<Match>)
        requires
            old(self).wf(),
            buffer.wf(),
        ensures
            final(self).wf(),
            final(self).max_len() == old(self).max_len(),
            final(self).nice() == old(self).nice(),
            final(self).dict() == old(self).dict(),
            valid_matches(*buffer, final(out)@, old(self).max_len()),
            forall|i: int| 0 <= i < final(out)@.len() ==> (#[trigger] final(out)@[i]).distance < old(self).dict(),
            buffer.fwd() < 4 ==> final(out)@.len() == 0,
            buffer.fwd() >= 4 && (old(self).hash2_candidate(*buffer) matches Some(d)
                && buffer.data()[buffer.cur()] == buffer.data()[buffer.cur() - d - 1]
                && buffer.data()[buffer.cur() + 1] == buffer.data()[buffer.cur() + 1 - d - 1])
                ==> final(out)@.len() > 0,
            final(out)@.len() > 0 ==> final(out)@.last().len == match_len_from(buffer.data(), buffer.cur(),
                final(out)@.last().distance as int, 0, capped(old(self).max_len(), buffer.fwd())),
            forall|i: int| 0 <= i < final(out)@.len() && (#[trigger] final(out)@[i]).len >= 3
                ==> final(out)@[i].len == match_len_from(buffer.data(), buffer.cur(), final(out)@[i].distance as int, 0,
                capped(old(self).max_len(), buffer.fwd())),
            forall|i: int| 0 <= i < final(out)@.len() - 1 && (#[trigger] final(out)@[i]).len >= 3
                ==> final(out)@[i].len < capped(old(self).nice(), buffer.fwd()),
    {
        out.clear();
        self.increment_pos();
        let avail: usize = buffer.forwards_bytes();
        if avail < 4 {
            self.chain.push(0);
            return;
        }
        let back: usize = buffer.backwards_bytes();
        let mut max_len: u32 = self.max_match_len;
        let mut nice_len: u32 = self.nice_len;
        if avail < max_len as usize {
            max_len = avail as u32;
            if nice_len > max_len {
                nice_len = max_len;
            }
        }
        let bytes: [u8; 4] = get_next_4_bytes(buffer);
        let index: HashIndex = self.hash.calc_hash_index(bytes[0], bytes[1], bytes[2], bytes[3]);
        let positions: HashValues = self.hash.get_table_values(&index);
        self.hash.update_tables(&index, self.lz_pos);
        self.chain.push(positions.hash4_value);

        let mut len_best: u32 = 0;
        let d2: Option<u32> = self.delta_of(positions.hash2_value, back);
        let d3: Option<u32> = self.delta_of(positions.hash3_value, back);
        let mut latest: Option<u32> = None;
        assert(out@ =~= Seq::<Match>::empty());
        if let Some(delta2) = d2 {
            if buffer.do_bytes_match_at(delta2, 0) && buffer.do_bytes_match_at(delta2, 1) {
                len_best = 2;
                out.push(Match { distance: delta2, len: 2 });
                latest = Some(delta2);
                assert(matches_upto(buffer.data(), buffer.cur(), delta2 as int, 0, 2));
                assert(out@ =~= seq![Match { distance: delta2, len: 2 }]);
            }
        }
        if let Some(delta3) = d3 {
            let same: bool = match d2 {
                Some(delta2) => delta2 == delta3,
                None => false,
            };
            if !same && max_len >= 3 && buffer.do_bytes_match_at(delta3, 0) && buffer.do_bytes_match_at(delta3, 1)
                && buffer.do_bytes_match_at(delta3, 2) {
                let ghost before = out@;
                len_best = 3;
                out.push(Match { distance: delta3, len: 3 });
                latest = Some(delta3);
                assert(matches_upto(buffer.data(), buffer.cur(), delta3 as int, 0, 3));
                assert(out@ == before.push(Match { distance: delta3, len: 3 }));
                assert(valid_match(*buffer, out@.last(), self.max_match_len as int));
            }
        }
        assert(valid_matches(*buffer, out@, self.max_match_len as int));
        if let Some(delta) = latest {
            let last: usize = out.len() - 1;
            let full: u32 = buffer.get_match_length(len_best, delta, max_len);
            let ghost before = out@;
            out.set(last, Match { distance: delta, len: full });
            proof {
                assert(matches_upto(buffer.data(), buffer.cur(), delta as int, 0, len_best as int));
                assert(matches_upto(buffer.data(), buffer.cur(), delta as int, 0, full as int));
                lemma_match_len_exact(buffer.data(), buffer.cur(), delta as int, 0, full as int, max_len as int);
                assert(max_len as int == capped(self.max_match_len as int, buffer.fwd()));
                assert forall|i: int| 0 <= i < out@.len() && (#[trigger] out@[i]).len >= 3
                    implies out@[i].len == match_len_from(buffer.data(), buffer.cur(), out@[i].distance as int, 0, max_len as int) by {
                    if i < last as int {
                        assert(out@[i] == before[i]);
                        assert(before[i].len < before[last as int].len);
                    }
                }
            }
            len_best = full;
            assert(valid_matches(*buffer, out@, self.max_match_len as int));
            if len_best >= nice_len {
                proof {
                    assert forall|i: int| 0 <= i < out@.len() - 1 && (#[trigger] out@[i]).len >= 3
                        implies out@[i].len < capped(self.nice_len as int, buffer.fwd()) by {
                        assert(out@[i] == before[i]);
                    }
                }
                return;
            }
        }
        if len_best < 3 {
            len_best = 3;
        }
        let mut current: u32 = positions.hash4_value;
        let mut depth: u32 = 0;
        while depth < self.depth_limit
            invariant
                self.wf(),
                self.max_match_len == old(self).max_match_len,
                self.nice_len == old(self).nice_len,
                buffer.wf(),
                back == buffer.back(),
                avail == buffer.fwd(),
                avail >= 4,
                (old(self).hash2_candidate(*buffer) matches Some(d)
                    && buffer.data()[buffer.cur()] == buffer.data()[buffer.cur() - d - 1]
                    && buffer.data()[buffer.cur() + 1] == buffer.data()[buffer.cur() + 1 - d - 1])
                    ==> out@.len() > 0,
                max_len <= self.max_match_len,
                (max_len as int) <= avail,
                3 <= len_best,
                self.chain.len_spec() == old(self).chain.len_spec(),
                forall|i: int| 0 <= i < out@.len() ==> (#[trigger] out@[i]).distance < old(self).dict(),
                valid_matches(*buffer, out@, self.max_match_len as int),
                out@.len() > 0 ==> out@.last().len <= len_best,
                max_len as int == capped(self.max_match_len as int, buffer.fwd()),
                out@.len() > 0 ==> out@.last().len == match_len_from(buffer.data(), buffer.cur(),
                    out@.last().distance as int, 0, max_len as int),
                forall|i: int| 0 <= i < out@.len() && (#[trigger] out@[i]).len >= 3
                    ==> out@[i].len == match_len_from(buffer.data(), buffer.cur(), out@[i].distance as int, 0, max_len as int),
                nice_len as int == capped(self.nice_len as int, buffer.fwd()),
                forall|i: int| 0 <= i < out@.len() && (#[trigger] out@[i]).len >= 3 ==> out@[i].len < nice_len,
            decreases self.depth_limit - depth,
        {
            depth = depth + 1;
            let delta: u32 = match self.delta_of(current, back) {
                Some(d) => d,
                None => { return; },
            };
            current = self.chain.get_backwards(delta as usize + 1);
            let seen: bool = match latest {
                Some(l) => l == delta,
                None => false,
            };
            if !seen && len_best < max_len && buffer.do_bytes_match_at(delta, len_best)
                && buffer.do_bytes_match_at(delta, 0) {
                let len: u32 = buffer.get_match_length(1, delta, max_len);
                if len > len_best {
                    len_best = len;
                    let ghost before = out@;
                    out.push(Match { distance: delta, len });
                    assert(matches_upto(buffer.data(), buffer.cur(), delta as int, 0, len as int));
                    assert forall|i: int| 0 <= i < out@.len() implies valid_match(*buffer, #[trigger] out@[i], self.max_match_len as int) by {
                        if i < before.len() {
                            assert(out@[i] == before[i]);
                        }
                    }
                    proof {
                        lemma_match_len_exact(buffer.data(), buffer.cur(), delta as int, 0, len as int, max_len as int);
                        assert forall|i: int| 0 <= i < out@.len() && (#[trigger] out@[i]).len >= 3
                            implies out@[i].len == match_len_from(buffer.data(), buffer.cur(), out@[i].distance as int, 0,
                            max_len as int) by {
                            if i < before.len() {
                                assert(out@[i] == before[i]);
                            }
                        }
                    }
                    if len >= nice_len {
                        proof {
                            assert forall|i: int| 0 <= i < out@.len() - 1 && (#[trigger] out@[i]).len >= 3
                                implies out@[i].len < capped(self.nice_len as int, buffer.fwd()) by {
                                assert(out@[i] == before[i]);
                            }
                        }
                        return;
                    }
                }
            }
        }
    }

    /// Records the current position without searching for matches.
    pub fn skip_byte(&mut self, buffer: &EncoderDataBuffer)
        requires
            old(self).wf(),
            buffer.wf(),
        ensures
            final(self).wf(),
            final(self).max_len() == old(self).max_len(),
            final(self).nice() == old(self).nice(),
            final(self).dict() == old(self).dict(),
    {
        self.increment_pos();
        let _back: usize = buffer.backwards_bytes();
        if buffer.forwards_bytes() >= 4 {
            let bytes: [u8; 4] = get_next_4_bytes(buffer);
            let index: HashIndex = self.hash.calc_hash_index(bytes[0], bytes[1], bytes[2], bytes[3]);
            let positions: HashValues = self.hash.get_table_values(&index);
            self.hash.update_tables(&index, self.lz_pos);
            self.chain.push(positions.hash4_value);
        } else {
            self.chain.push(0);
        }
    }
}

/// A finder that tries every distance; a reference for HC4.
pub struct BruteForceMatchFinder {
    max_match_len: u32,
    dict_size: u32,
}

impl BruteForceMatchFinder {
    pub closed spec fn max_len(&self) -> int {
        self.max_match_len as int
    }

    pub closed spec fn dict(&self) -> int {
        self.dict_size as int
    }

    pub fn new(max_match_len: u32, dict_size: u32) -> (r: Self)
        ensures
            r.max_len() == max_match_len,
            r.dict() == dict_size,
    {
        BruteForceMatchFinder { max_match_len, dict_size }
    }

    /// Writes to `out` every match of two bytes or more within the
    /// dictionary, each with its full length up to `max_match_len`.
    pub fn find_and_write_matches(&mut self, buffer: &EncoderDataBuffer, out: &mut Vec<Match>)
        requires
            buffer.wf(),
        ensures
            forall|i: int| 0 <= i < final(out)@.len() ==> valid_match(*buffer, #[trigger] final(out)@[i], old(self).max_len()),
            finds_all_matches(*buffer, final(out)@, old(self).max_len(), old(self).dict()),
    {
        out.clear();
        let fwd: usize = buffer.forwards_bytes();
        let back: usize = buffer.backwards_bytes();
        let limit: usize = if (self.dict_size as usize) < back { self.dict_size as usize } else { back };
        let max_len: u32 = if fwd < self.max_match_len as usize { fwd as u32 } else { self.max_match_len };
        let mut d: usize = 0;
        while d < limit
            invariant
                buffer.wf(),
                limit <= back,
                back == buffer.back(),
                fwd == buffer.fwd(),
                max_len <= self.max_match_len,
                (max_len as int) <= fwd,
                forall|i: int| 0 <= i < out@.len() ==> valid_match(*buffer, #[trigger] out@[i], self.max_match_len as int),
                limit as int == if (self.dict_size as int) < back { self.dict_size as int } else { back as int },
                max_len as int == cap_of(*buffer, self.max_match_len as int),
                forall|e: int| 0 <= e < d && #[trigger] match_len_from(buffer.data(), buffer.cur(), e, 0, max_len as int) >= 2
                    ==> exists|j: int| 0 <= j < out@.len() && out@[j] == (Match {
                        distance: e as u32,
                        len: match_len_from(buffer.data(), buffer.cur(), e, 0, max_len as int) as u32,
                    }),
            decreases limit - d,
        {
            let len: u32 = buffer.get_match_length(0, d as u32, max_len);
            let ghost before = out@;
            if len >= 2 {
                out.push(Match { distance: d as u32, len });
                assert forall|i: int| 0 <= i < out@.len() implies valid_match(*buffer, #[trigger] out@[i], self.max_match_len as int) by {
                    if i < before.len() {
                        assert(out@[i] == before[i]);
                    }
                }
            }
            proof {
                assert forall|e: int| 0 <= e < d + 1 && #[trigger] match_len_from(buffer.data(), buffer.cur(), e, 0, max_len as int) >= 2
                    implies exists|j: int| 0 <= j < out@.len() && out@[j] == (Match {
                        distance: e as u32,
                        len: match_len_from(buffer.data(), buffer.cur(), e, 0, max_len as int) as u32,
                    }) by {
                    if e < d {
                        let j = choose|j: int| 0 <= j < before.len() && before[j] == (Match {
                            distance: e as u32,
                            len: match_len_from(buffer.data(), buffer.cur(), e, 0, max_len as int) as u32,
                        });
                        assert(out@[j] == before[j]);
                    } else {
                        assert(out@[before.len() as int] == (Match { distance: d as u32, len }));
                    }
                }
            }
            d = d + 1;
        }
    }
}

} // verus!
