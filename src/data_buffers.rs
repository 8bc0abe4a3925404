//! The encoder's look-ahead window and the decoder's dictionary, both over
//! a cyclic buffer.

use vstd::prelude::*;
use crate::cyclic_buffer::{CyclicBuffer, lz_copy};
use crate::length_codec::MATCH_LEN_MAX;

verus! {

/// Bytes `start..` of `d` at `cur` and at `cur - delta - 1` agree up to `len`.
pub open spec fn matches_upto(d: Seq<u8>, cur: int, delta: int, start: int, len: int) -> bool {
    forall|i: int| start <= i < len ==> #[trigger] d[cur + i] == d[cur + i - delta - 1]
}

/// The length of the match at `cur` against the bytes `delta + 1` back,
/// counted on from `i` and capped at `max`: the first index where they
/// differ, or `max`.
pub open spec fn match_len_from(d: Seq<u8>, cur: int, delta: int, i: int, max: int) -> int
    decreases max - i,
{
    if i >= max {
        max
    } else if d[cur + i] != d[cur + i - delta - 1] {
        i
    } else {
        match_len_from(d, cur, delta, i + 1, max)
    }
}

/// A match known to reach `len` makes the measured length at least `len`.
/// A match that holds up to `r` and fails at `r` (or stops at `max`) has
/// measured length `r`.
pub proof fn lemma_match_len_exact(d: Seq<u8>, cur: int, delta: int, i: int, r: int, max: int)
    requires
        i <= r <= max,
        matches_upto(d, cur, delta, i, r),
        r < max ==> d[cur + r] != d[cur + r - delta - 1],
    ensures
        match_len_from(d, cur, delta, i, max) == r,
    decreases r - i,
{
    if i < r {
        assert(d[cur + i] == d[cur + i - delta - 1]);
        lemma_match_len_exact(d, cur, delta, i + 1, r, max);
    }
}

pub proof fn lemma_match_len_at_least(d: Seq<u8>, cur: int, delta: int, i: int, len: int, max: int)
    requires
        i <= len <= max,
        matches_upto(d, cur, delta, i, len),
    ensures
        match_len_from(d, cur, delta, i, max) >= len,
    decreases max - i,
{
    if i < len {
        assert(d[cur + i] == d[cur + i - delta - 1]);
        lemma_match_len_at_least(d, cur, delta, i + 1, len, max);
    } else {
        lemma_match_len_bounded(d, cur, delta, i, max);
    }
}

/// The measured length lies between where counting starts and the cap.
pub proof fn lemma_match_len_bounded(d: Seq<u8>, cur: int, delta: int, i: int, max: int)
    requires
        i <= max,
    ensures
        i <= match_len_from(d, cur, delta, i, max) <= max,
    decreases max - i,
{
    if i < max && d[cur + i] == d[cur + i - delta - 1] {
        lemma_match_len_bounded(d, cur, delta, i + 1, max);
    }
}

/// The input window of the encoder: a dictionary of past bytes behind the
/// read head, and bytes not coded yet ahead of it.
pub struct EncoderDataBuffer {
    compress_pos: u64,
    max_forwards_bytes: u32,
    dict_size: u32,
    buf: CyclicBuffer,
}

impl EncoderDataBuffer {
    pub closed spec fn wf(&self) -> bool {
        &&& self.buf.wf()
        &&& self.buf.max_cap() == self.dict_size + self.max_forwards_bytes
        &&& self.dict_size + self.max_forwards_bytes <= 0x7FFF_FFFF
        &&& self.max_forwards_bytes > 0
        &&& self.buf.view().len() <= u64::MAX
        &&& self.compress_pos <= self.buf.view().len()
        &&& self.buf.view().len() - self.compress_pos <= self.max_forwards_bytes
    }

    /// Every byte appended so far.
    pub closed spec fn data(&self) -> Seq<u8> {
        self.buf.view()
    }

    /// Position of the read head in `data()`.
    pub closed spec fn cur(&self) -> int {
        self.compress_pos as int
    }

    pub open spec fn fwd(&self) -> int {
        self.data().len() - self.cur()
    }

    pub closed spec fn back(&self) -> int {
        self.buf.cap() - self.fwd()
    }

    pub closed spec fn avail(&self) -> int {
        self.max_forwards_bytes - self.fwd()
    }

    pub closed spec fn dict(&self) -> int {
        self.dict_size as int
    }

    pub fn new(dict_size: u32, max_forwards_bytes: u32) -> (r: Self)
        requires
            dict_size > 0,
            max_forwards_bytes > 0,
            dict_size as int + max_forwards_bytes as int <= 0x7FFF_FFFF,
        ensures
            r.wf(),
            r.data().len() == 0,
            r.cur() == 0,
            r.avail() == max_forwards_bytes,
            r.dict() == dict_size,
    {
        EncoderDataBuffer {
            buf: CyclicBuffer::new((dict_size + max_forwards_bytes) as usize),
            compress_pos: 0,
            max_forwards_bytes,
            dict_size,
        }
    }

    pub proof fn lemma_back_le_cur(&self)
        requires
            self.wf(),
        ensures
            self.back() <= self.cur(),
            self.back() >= 0,
    {
    }

    pub proof fn lemma_data_len(&self)
        requires
            self.wf(),
        ensures
            self.data().len() <= u64::MAX,
            self.cur() <= self.data().len(),
    {
    }

    /// The number of bytes ahead of the read head.
    pub fn forwards_bytes(&self) -> (r: usize)
        requires
            self.wf(),
        ensures
            r == self.fwd(),
    {
        (self.buf.pos() - self.compress_pos) as usize
    }

    /// The number of bytes behind the read head that are still held.
    pub fn backwards_bytes(&self) -> (r: usize)
        requires
            self.wf(),
        ensures
            r == self.back(),
            r <= self.cur(),
            r <= 0x7FFF_FFFF,
    {
        self.buf.capacity() - self.forwards_bytes()
    }

    pub fn pos(&self) -> (r: u64)
        ensures
            r == self.cur(),
    {
        self.compress_pos
    }

    pub fn dict_size(&self) -> (r: u32)
        ensures
            r == self.dict(),
    {
        self.dict_size
    }

    /// The number of bytes that can be appended without losing dictionary bytes.
    pub fn available_append_bytes(&self) -> (r: usize)
        requires
            self.wf(),
        ensures
            r == self.avail(),
            self.fwd() == 0 ==> r > 0,
    {
        self.max_forwards_bytes as usize - self.forwards_bytes()
    }

    pub fn append_data(&mut self, input: &[u8])
        requires
            old(self).wf(),
            input@.len() <= old(self).avail(),
            old(self).data().len() + input@.len() <= u64::MAX,
        ensures
            final(self).wf(),
            final(self).data() == old(self).data() + input@,
            final(self).cur() == old(self).cur(),
            final(self).dict() == old(self).dict(),
    {
        self.buf.push_slice(input);
    }

    pub fn skip(&mut self, len: u32)
        requires
            old(self).wf(),
            len <= old(self).fwd(),
        ensures
            final(self).wf(),
            final(self).data() == old(self).data(),
            final(self).cur() == old(self).cur() + len,
            final(self).dict() == old(self).dict(),
    {
        self.compress_pos = self.compress_pos + len as u64;
    }

    pub fn increment_pos(&mut self)
        requires
            old(self).wf(),
            old(self).fwd() > 0,
        ensures
            final(self).wf(),
            final(self).data() == old(self).data(),
            final(self).cur() == old(self).cur() + 1,
            final(self).dict() == old(self).dict(),
    {
        self.compress_pos = self.compress_pos + 1;
    }

    /// Where the byte at `offset` from the read head sits, counted back from
    /// the newest byte.
    pub fn get_byte_index(&self, offset: i32) -> (r: usize)
        requires
            self.wf(),
            -self.back() <= offset < self.fwd(),
        ensures
            r == self.fwd() - offset - 1,
    {
        (self.forwards_bytes() as i64 - offset as i64 - 1) as usize
    }

    /// The byte at `offset` from the read head; 0 is the next byte to code.
    pub fn get_byte(&self, offset: i32) -> (r: u8)
        requires
            self.wf(),
            -self.back() <= offset < self.fwd(),
        ensures
            r == self.data()[self.cur() + offset],
    {
        self.buf.get_relative(self.get_byte_index(offset))
    }

    /// Whether the byte `len` ahead equals the one `delta + 1` before it.
    pub fn do_bytes_match_at(&self, delta: u32, len: u32) -> (r: bool)
        requires
            self.wf(),
            (len as int) < self.fwd(),
            delta as int + 1 <= self.back() + len,
        ensures
            r == (self.data()[self.cur() + len] == self.data()[self.cur() + len - delta - 1]),
    {
        let front: u8 = self.get_byte(len as i32);
        let back: u8 = self.get_byte((len as i64 - delta as i64 - 1) as i32);
        front == back
    }

    /// Whether the next `len` bytes repeat the bytes `delta + 1` back.
    pub fn is_match_at_least_longer_than(&self, delta: u32, len: u32) -> (r: bool)
        requires
            self.wf(),
            (len as int) <= self.fwd(),
            delta as int + 1 <= self.back(),
        ensures
            r == matches_upto(self.data(), self.cur(), delta as int, 0, len as int),
    {
        self.get_match_length(0, delta, len) == len
    }

    /// Extends a match at distance `delta + 1` from length `start_len`
    /// while the bytes agree, up to `max_len`. The two byte runs are
    /// compared piece by piece over their aligned contiguous slices.
    pub fn get_match_length(&self, start_len: u32, delta: u32, max_len: u32) -> (r: u32)
        requires
            self.wf(),
            start_len <= max_len,
            (max_len as int) <= self.fwd(),
            delta as int + 1 <= self.back(),
        ensures
            start_len <= r <= max_len,
            matches_upto(self.data(), self.cur(), delta as int, start_len as int, r as int),
            r < max_len ==> self.data()[self.cur() + r] != self.data()[self.cur() + r - delta - 1],
            r == match_len_from(self.data(), self.cur(), delta as int, start_len as int, max_len as int),
    {
        let fwd: usize = self.forwards_bytes();
        let k_src: usize = fwd - start_len as usize;
        let k_dst: usize = k_src + delta as usize + 1;
        let src = self.buf.as_slices_after(k_src);
        let dst = self.buf.as_slices_after(k_dst);
        let ghost d = self.data();
        let ghost c = self.cur() + start_len;
        let ghost sv = src.0@ + src.1@;
        let ghost dv = dst.0@ + dst.1@;
        let ghost swapped: bool = src.0@.len() > dst.0@.len();
        let (a, b) = align_slices(src, dst);
        let ghost av = a[0]@ + a[1]@ + a[2]@;
        let ghost bv = b[0]@ + b[1]@ + b[2]@;
        proof {
            assert(sv.len() == k_src && dv.len() == k_dst);
            assert forall|t: int| 0 <= t < sv.len() implies #[trigger] sv[t] == d[c + t] by {}
            assert forall|t: int| 0 <= t < dv.len() implies #[trigger] dv[t] == d[c + t - delta - 1] by {}
        }
        let mut len: u32 = start_len;
        let mut i: usize = 0;
        while i < 3
            invariant
                self.wf(),
                d == self.data(),
                c == self.cur() + start_len,
                start_len <= len <= max_len,
                (max_len as int) <= self.fwd(),
                delta as int + 1 <= self.back(),
                i <= 3,
                av == (if swapped { dv } else { sv }),
                bv == (if swapped { sv } else { dv }),
                sv.len() == self.fwd() - start_len,
                forall|t: int| 0 <= t < sv.len() ==> #[trigger] sv[t] == d[c + t],
                forall|t: int| 0 <= t < dv.len() ==> #[trigger] dv[t] == d[c + t - delta - 1],
                a[0]@.len() == b[0]@.len(),
                a[1]@.len() <= b[1]@.len(),
                a[1]@.len() < b[1]@.len() ==> a[2]@.len() == 0,
                av == a[0]@ + a[1]@ + a[2]@,
                bv == b[0]@ + b[1]@ + b[2]@,
                i < 3 && len < max_len ==> len - start_len == (if i == 0 { 0int } else if i == 1 { a[0]@.len() as int } else {
                    (a[0]@.len() + a[1]@.len()) as int
                }),
                matches_upto(d, self.cur(), delta as int, start_len as int, len as int),
            decreases 3 - i,
        {
            let x: &[u8] = a[i];
            let y: &[u8] = b[i];
            let room: usize = (max_len - len) as usize;
            let lim: usize = if room < x.len() { room } else { x.len() };
            let lim: usize = if lim < y.len() { lim } else { y.len() };
            let ghost base: int = len - start_len;
            let found: usize = common_prefix(x, y, lim);
            proof {
                lemma_concat3(a[0]@, a[1]@, a[2]@);
                lemma_concat3(b[0]@, b[1]@, b[2]@);
                if lim > 0 {
                    assert(len < max_len);
                    if i == 2 {
                        assert(a[2]@.len() > 0);
                        assert(a[1]@.len() == b[1]@.len());
                    }
                    assert forall|j: int| 0 <= j < lim implies x@[j] == av[base + j] && y@[j] == bv[base + j] by {
                        if i == 0 {
                            assert(x@[j] == a[0]@[j]);
                        } else if i == 1 {
                            assert(x@[j] == a[1]@[j]);
                        } else {
                            assert(x@[j] == a[2]@[j]);
                        }
                    }
                }
                assert forall|j: int| 0 <= j < found implies #[trigger] d[self.cur() + len + j]
                    == d[self.cur() + len + j - delta - 1] by {
                    assert(x@[j] == y@[j]);
                    assert(x@[j] == av[base + j] && y@[j] == bv[base + j]);
                }
                assert forall|q: int| start_len <= q < len + found implies #[trigger] d[self.cur() + q]
                    == d[self.cur() + q - delta - 1] by {
                    if q >= len {
                        let j = q - len;
                        assert(d[self.cur() + len + j] == d[self.cur() + len + j - delta - 1]);
                    }
                }
            }
            if found < lim {
                proof {
                    assert(x@[found as int] != y@[found as int]);
                    assert(x@[found as int] == av[base + found] && y@[found as int] == bv[base + found]);
                    lemma_match_len_exact(d, self.cur(), delta as int, start_len as int, (len + found) as int, max_len as int);
                }
                return len + found as u32;
            }
            len = len + lim as u32;
            i = i + 1;
        }
        // The pieces cover the whole look-ahead; bytes are compared one by
        // one only if they ended before `max_len`.
        while len < max_len
            invariant
                self.wf(),
                d == self.data(),
                start_len <= len <= max_len,
                (max_len as int) <= self.fwd(),
                delta as int + 1 <= self.back(),
                matches_upto(d, self.cur(), delta as int, start_len as int, len as int),
            decreases max_len - len,
        {
            if !self.do_bytes_match_at(delta, len) {
                proof {
                    lemma_match_len_exact(d, self.cur(), delta as int, start_len as int, len as int, max_len as int);
                }
                return len;
            }
            len = len + 1;
        }
        proof {
            lemma_match_len_exact(d, self.cur(), delta as int, start_len as int, len as int, max_len as int);
        }
        len
    }
}

/// The index of the first difference of `x` and `y` below `lim`, or `lim`.
fn common_prefix(x: &[u8], y: &[u8], lim: usize) -> (r: usize)
    requires
        lim <= x@.len(),
        lim <= y@.len(),
    ensures
        r <= lim,
        forall|j: int| 0 <= j < r ==> #[trigger] x@[j] == y@[j],
        r < lim ==> x@[r as int] != y@[r as int],
{
    let mut j: usize = 0;
    while j < lim
        invariant
            j <= lim <= x@.len(),
            lim <= y@.len(),
            forall|k: int| 0 <= k < j ==> #[trigger] x@[k] == y@[k],
        decreases lim - j,
    {
        if x[j] != y[j] {
            return j;
        }
        j = j + 1;
    }
    j
}

/// Each of three pieces sits at its offset in their concatenation.
proof fn lemma_concat3(p0: Seq<u8>, p1: Seq<u8>, p2: Seq<u8>)
    ensures
        forall|j: int| 0 <= j < p0.len() ==> #[trigger] p0[j] == (p0 + p1 + p2)[j],
        forall|j: int| 0 <= j < p1.len() ==> #[trigger] p1[j] == (p0 + p1 + p2)[p0.len() + j],
        forall|j: int| 0 <= j < p2.len() ==> #[trigger] p2[j] == (p0 + p1 + p2)[p0.len() + p1.len() + j],
{
}

/// Splits two views of a cyclic buffer, each given as two pieces, so that
/// the first pieces of both results have equal length.
///
/// The view whose first piece is shorter comes first in the result.
pub fn align_slices<'a, T>(left: (&'a [T], &'a [T]), right: (&'a [T], &'a [T])) -> (r: ([&'a [T]; 3], [&'a [T]; 3]))
    ensures
        r.0[0]@.len() == r.1[0]@.len(),
        r.0[1]@.len() <= r.1[1]@.len(),
        r.0[1]@.len() < r.1[1]@.len() ==> r.0[2]@.len() == 0,
        ({
            let (short, long) = if left.0@.len() > right.0@.len() { (right, left) } else { (left, right) };
            let n = short.0@.len() as int;
            let diff = if long.0@.len() - n < short.1@.len() { long.0@.len() - n } else { short.1@.len() as int };
            &&& r.0[0]@ == short.0@
            &&& r.0[1]@ == short.1@.subrange(0, diff)
            &&& r.0[2]@ == short.1@.subrange(diff, short.1@.len() as int)
            &&& r.1[0]@ == long.0@.subrange(0, n)
            &&& r.1[1]@ == long.0@.subrange(n, long.0@.len() as int)
            &&& r.1[2]@ == long.1@
        }),
        left.0@.len() <= right.0@.len() ==> r.0[0]@ + r.0[1]@ + r.0[2]@ == left.0@ + left.1@
            && r.1[0]@ + r.1[1]@ + r.1[2]@ == right.0@ + right.1@,
        left.0@.len() > right.0@.len() ==> r.0[0]@ + r.0[1]@ + r.0[2]@ == right.0@ + right.1@
            && r.1[0]@ + r.1[1]@ + r.1[2]@ == left.0@ + left.1@,
{
    let (short, long) = if left.0.len() > right.0.len() { (right, left) } else { (left, right) };
    let diff: usize = long.0.len() - short.0.len();
    let diff: usize = if diff < short.1.len() { diff } else { short.1.len() };
    let n: usize = short.0.len();
    let s1: &[T] = short.0;
    let s2: &[T] = &short.1[0..diff];
    let s3: &[T] = &short.1[diff..short.1.len()];
    let l1: &[T] = &long.0[0..n];
    let l2: &[T] = &long.0[n..long.0.len()];
    let l3: &[T] = long.1;
    assert(s1@ + s2@ + s3@ =~= short.0@ + short.1@);
    assert(l1@ + l2@ + l3@ =~= long.0@ + long.1@);
    ([s1, s2, s3], [l1, l2, l3])
}

/// The decoder's output window: the dictionary that matches copy from, and
/// the bytes decoded but not yet handed out.
pub struct DecoderDataBuffer {
    flushed_pos: u64,
    buf: CyclicBuffer,
    /// The length of the whole output stream.
    total_file_length: u64,
}

impl DecoderDataBuffer {
    pub closed spec fn wf(&self) -> bool {
        &&& self.buf.wf()
        &&& self.buf.view().len() <= u64::MAX
        &&& self.flushed_pos <= self.buf.view().len()
        &&& self.buf.view().len() - self.flushed_pos <= self.buf.max_cap()
    }

    /// Every byte decoded so far.
    pub closed spec fn data(&self) -> Seq<u8> {
        self.buf.view()
    }

    /// The number of bytes handed out by `flush`.
    pub closed spec fn flushed(&self) -> int {
        self.flushed_pos as int
    }

    /// The number of past bytes a match may copy from.
    pub closed spec fn back(&self) -> int {
        self.buf.cap()
    }

    pub closed spec fn size(&self) -> int {
        self.buf.max_cap()
    }

    pub closed spec fn total(&self) -> int {
        self.total_file_length as int
    }

    pub fn new(dict_size: u32, total_file_length: u64) -> (r: Self)
        requires
            dict_size > 0,
        ensures
            r.wf(),
            r.data().len() == 0,
            r.flushed() == 0,
            r.size() == dict_size,
            r.total() == total_file_length,
    {
        DecoderDataBuffer { buf: CyclicBuffer::new(dict_size as usize), flushed_pos: 0, total_file_length }
    }

    pub fn is_empty(&self) -> (r: bool)
        requires
            self.wf(),
        ensures
            r == (self.data().len() == 0),
    {
        self.buf.pos() == 0
    }

    /// The number of bytes decoded so far.
    pub fn position(&self) -> (r: u64)
        requires
            self.wf(),
        ensures
            r == self.data().len(),
    {
        self.buf.pos()
    }

    pub fn append_byte(&mut self, byte: u8)
        requires
            old(self).wf(),
            old(self).data().len() < u64::MAX,
            old(self).data().len() + 1 - old(self).flushed() <= old(self).size(),
        ensures
            final(self).wf(),
            final(self).data() == old(self).data().push(byte),
            final(self).flushed() == old(self).flushed(),
            final(self).size() == old(self).size(),
            final(self).total() == old(self).total(),
    {
        self.buf.push(byte);
    }

    /// Appends `len` bytes copied from `dist + 1` bytes back, the copy
    /// possibly overlapping its own output.
    pub fn append_match(&mut self, dist: u32, len: u32)
        requires
            old(self).wf(),
            (dist as int) < old(self).back(),
            old(self).data().len() + len <= u64::MAX,
            old(self).data().len() + len - old(self).flushed() <= old(self).size(),
        ensures
            final(self).wf(),
            final(self).data() == lz_copy(old(self).data(), dist as int, len as int),
            final(self).data().len() == old(self).data().len() + len,
            final(self).flushed() == old(self).flushed(),
            final(self).size() == old(self).size(),
            final(self).total() == old(self).total(),
    {
        let overlaps_head: bool = len > dist;
        if overlaps_head {
            self.buf.copy_back(dist as usize, len as usize);
        } else {
            self.buf.append_past_data((dist - len) as usize..dist as usize);
        }
        proof {
            lemma_lz_copy_len(old(self).data(), dist as int, len as int);
        }
    }

    /// The number of past bytes a match may copy from.
    pub fn available_bytes_back(&self) -> (r: u32)
        requires
            self.wf(),
            self.size() <= u32::MAX,
        ensures
            r == self.back(),
    {
        self.buf.capacity() as u32
    }

    /// The number of past bytes a match may copy from.
    pub fn available_len_back(&self) -> (r: usize)
        requires
            self.wf(),
        ensures
            r == self.back(),
            r == 0 <==> self.data().len() == 0,
    {
        self.buf.capacity()
    }

    /// The byte `dist + 1` places before the end of the output.
    pub fn get_byte(&self, dist: u32) -> (r: u8)
        requires
            self.wf(),
            (dist as int) < self.back(),
        ensures
            r == self.data()[self.data().len() - 1 - dist],
    {
        self.buf.get_relative(dist as usize)
    }

    /// The number of decoded bytes not handed out yet.
    pub fn flushable_bytes(&self) -> (r: u32)
        requires
            self.wf(),
            self.size() <= u32::MAX,
        ensures
            r == self.data().len() - self.flushed(),
    {
        (self.buf.pos() - self.flushed_pos) as u32
    }

    /// True when a longest match might overwrite bytes not handed out yet.
    pub fn must_flush_now_or_data_will_be_lost(&self) -> (r: bool)
        requires
            self.wf(),
            self.size() <= u32::MAX,
        ensures
            r == (self.size() - (self.data().len() - self.flushed()) < MATCH_LEN_MAX - 1),
    {
        let safe_bytes: u32 = self.buf.max_capacity() as u32 - self.flushable_bytes();
        safe_bytes < MATCH_LEN_MAX as u32 - 1
    }

    /// The number of bytes of the stream not handed out yet.
    pub fn remaining_file_bytes(&self) -> (r: u64)
        requires
            self.wf(),
            self.flushed() <= self.total(),
        ensures
            r == self.total() - self.flushed(),
    {
        self.total_file_length - self.flushed_pos
    }

    /// Hands out the oldest decoded bytes not handed out yet, as many as
    /// `buf` holds, into the front of `buf`; returns how many.
    pub fn flush(&mut self, buf: &mut [u8]) -> (r: usize)
        requires
            old(self).wf(),
        ensures
            final(self).wf(),
            r == (if old(buf)@.len() < old(self).data().len() - old(self).flushed() {
                old(buf)@.len() as int
            } else {
                old(self).data().len() - old(self).flushed()
            }),
            final(buf)@.len() == old(buf)@.len(),
            final(buf)@.subrange(0, r as int) == old(self).data().subrange(old(self).flushed(), old(self).flushed() + r),
            final(buf)@.subrange(r as int, old(buf)@.len() as int) == old(buf)@.subrange(r as int, old(buf)@.len() as int),
            final(self).flushed() == old(self).flushed() + r,
            final(self).data() == old(self).data(),
            final(self).size() == old(self).size(),
            final(self).total() == old(self).total(),
    {
        let flushable: u64 = self.buf.pos() - self.flushed_pos;
        let n: usize = if (buf.len() as u64) < flushable { buf.len() } else { flushable as usize };
        let start: u64 = self.flushed_pos;
        let mut i: usize = 0;
        while i < n
            invariant
                self.wf(),
                self.flushed_pos == start,
                self.buf == old(self).buf,
                i <= n,
                n <= buf@.len(),
                buf@.len() == old(buf)@.len(),
                start + n <= self.buf.view().len(),
                forall|k: int| 0 <= k < i ==> #[trigger] buf@[k] == self.buf.view()[start + k],
                forall|k: int| i <= k < buf@.len() ==> #[trigger] buf@[k] == old(buf)@[k],
            decreases n - i,
        {
            let b: u8 = self.buf.get(start + i as u64);
            buf[i] = b;
            i = i + 1;
        }
        self.flushed_pos = self.flushed_pos + n as u64;
        assert(buf@.subrange(0, n as int) =~= old(self).data().subrange(start as int, start + n));
        assert(buf@.subrange(n as int, buf@.len() as int) =~= old(buf)@.subrange(n as int, old(buf)@.len() as int));
        n
    }

    /// Appends every decoded byte not handed out yet to `out`.
    pub fn flush_all(&mut self, out: &mut Vec<u8>) -> (r: usize)
        requires
            old(self).wf(),
        ensures
            final(self).wf(),
            final(out)@ == old(out)@ + old(self).data().subrange(old(self).flushed(), old(self).data().len() as int),
            r == old(self).data().len() - old(self).flushed(),
            final(self).flushed() == final(self).data().len(),
            final(self).data() == old(self).data(),
            final(self).size() == old(self).size(),
            final(self).total() == old(self).total(),
    {
        let flushable: usize = (self.buf.pos() - self.flushed_pos) as usize;
        let c: usize = self.buf.capacity();
        let (left, right) = self.buf.as_slices_between(0..flushable);
        let ghost want = left@ + right@;
        let mut i: usize = 0;
        while i < left.len()
            invariant
                i <= left@.len(),
                out@ == old(out)@ + left@.subrange(0, i as int),
            decreases left@.len() - i,
        {
            out.push(left[i]);
            i = i + 1;
            assert(out@ =~= old(out)@ + left@.subrange(0, i as int));
        }
        let mut j: usize = 0;
        while j < right.len()
            invariant
                j <= right@.len(),
                out@ == old(out)@ + left@ + right@.subrange(0, j as int),
            decreases right@.len() - j,
        {
            out.push(right[j]);
            j = j + 1;
            assert(out@ =~= old(out)@ + left@ + right@.subrange(0, j as int));
        }
        assert(left@.subrange(0, left@.len() as int) =~= left@);
        assert(right@.subrange(0, right@.len() as int) =~= right@);
        assert(out@ =~= old(out)@ + want);
        self.flushed_pos = self.flushed_pos + flushable as u64;
        flushable
    }
}

pub proof fn lemma_lz_copy_prefix(h: Seq<u8>, dist: int, len: int)
    requires
        len >= 0,
    ensures
        h.is_prefix_of(lz_copy(h, dist, len)),
    decreases len,
{
    if len > 0 {
        let h2 = h.push(h[h.len() - 1 - dist]);
        lemma_lz_copy_prefix(h2, dist, len - 1);
        assert(h.is_prefix_of(h2));
    }
}

pub proof fn lemma_lz_copy_len(h: Seq<u8>, dist: int, len: int)
    requires
        len >= 0,
    ensures
        lz_copy(h, dist, len).len() == h.len() + len,
    decreases len,
{
    if len > 0 {
        lemma_lz_copy_len(h.push(h[h.len() - 1 - dist]), dist, len - 1);
    }
}

} // verus!
