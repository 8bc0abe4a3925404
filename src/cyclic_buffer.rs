//! A fixed-capacity wrap-around byte buffer that remembers the last
//! `max_capacity()` bytes pushed into it.

use vstd::prelude::*;
use std::ops::Range;

verus! {

/// Where the byte `k` places back from the newest one sits in the storage.
pub open spec fn back_index(head: int, len: int, k: int) -> int {
    if k < head {
        head - 1 - k
    } else {
        head + len - 1 - k
    }
}

/// `h` with `len` bytes appended, each copied from `dist + 1` places back at
/// the time it is appended (so a copy may overlap its own output).
pub open spec fn lz_copy(h: Seq<u8>, dist: int, len: int) -> Seq<u8>
    decreases len,
{
    if len <= 0 {
        h
    } else {
        lz_copy(h.push(h[h.len() - 1 - dist]), dist, len - 1)
    }
}

/// How far slot `s` lies after slot `head`, going round the storage of
/// `len` slots.
pub open spec fn fdist(s: int, head: int, len: int) -> int {
    if s >= head { s - head } else { s + len - head }
}

/// A copy that does not reach its own output reads only bytes already
/// there: it appends a plain slice of the history.
pub proof fn lemma_lz_copy_plain(h: Seq<u8>, dist: int, n: int)
    requires
        0 <= n <= dist + 1,
        dist + 1 <= h.len(),
    ensures
        lz_copy(h, dist, n) == h + h.subrange(h.len() - 1 - dist, h.len() - 1 - dist + n),
    decreases n,
{
    let start = h.len() - 1 - dist;
    if n == 0 {
        assert(h + h.subrange(start, start) =~= h);
    } else {
        let h1 = h.push(h[start]);
        lemma_lz_copy_plain(h1, dist, n - 1);
        assert(h1.subrange(h1.len() - 1 - dist, h1.len() - 1 - dist + n - 1) =~= h.subrange(start + 1, start + n));
        assert(h1 + h.subrange(start + 1, start + n) =~= h + h.subrange(start, start + n));
    }
}

pub open spec fn min_int(a: int, b: int) -> int {
    if a < b { a } else { b }
}

pub struct CyclicBuffer {
    buf: Vec<u8>,
    /// Storage index of the next write.
    head: usize,
    /// Number of bytes ever pushed.
    pos: u64,
    /// Every byte ever pushed, oldest first.
    hist: Ghost<Seq<u8>>,
}

impl CyclicBuffer {
    pub closed spec fn wf(&self) -> bool {
        &&& self.buf@.len() > 0
        &&& self.head < self.buf@.len()
        &&& self.hist@.len() == self.pos
        &&& forall|k: int| 0 <= k < self.cap() ==>
            #[trigger] self.buf@[back_index(self.head as int, self.buf@.len() as int, k)]
                == self.hist@[self.pos - 1 - k]
    }

    /// Every byte ever pushed, oldest first.
    pub closed spec fn view(&self) -> Seq<u8> {
        self.hist@
    }

    /// The number of bytes that can still be read back.
    pub open spec fn cap(&self) -> int {
        min_int(self.view().len() as int, self.max_cap())
    }

    /// The storage index of the next write.
    pub closed spec fn head_index(&self) -> int {
        self.head as int
    }

    pub closed spec fn max_cap(&self) -> int {
        self.buf@.len() as int
    }

    pub fn new(capacity: usize) -> (r: Self)
        requires
            capacity > 0,
        ensures
            r.wf(),
            r.view() == Seq::<u8>::empty(),
            r.max_cap() == capacity,
    {
        CyclicBuffer { buf: vec![0u8; capacity], head: 0, pos: 0, hist: Ghost(Seq::empty()) }
    }

    pub fn pos(&self) -> (r: u64)
        requires
            self.wf(),
        ensures
            r == self.view().len(),
    {
        self.pos
    }

    /// The number of bytes that can be read back.
    pub fn capacity(&self) -> (r: usize)
        requires
            self.wf(),
        ensures
            r == self.cap(),
            self.max_cap() > 0,
    {
        if self.pos < self.buf.len() as u64 {
            self.pos as usize
        } else {
            self.buf.len()
        }
    }

    pub fn max_capacity(&self) -> (r: usize)
        ensures
            r == self.max_cap(),
    {
        self.buf.len()
    }

    /// The byte at absolute position `pos`, which must still be held.
    pub fn get(&self, pos: u64) -> (r: u8)
        requires
            self.wf(),
            pos < self.view().len(),
            self.view().len() - pos <= self.cap(),
        ensures
            r == self.view()[pos as int],
    {
        let off: u64 = self.pos - pos - 1;
        let c: usize = self.capacity();
        assert(off < c);
        self.get_relative(off as usize)
    }

    /// The byte `backwards_offset` places before the newest one.
    pub fn get_relative(&self, backwards_offset: usize) -> (r: u8)
        requires
            self.wf(),
            backwards_offset < self.cap(),
        ensures
            r == self.view()[self.view().len() - 1 - backwards_offset],
    {
        let idx: usize = if backwards_offset < self.head {
            self.head - 1 - backwards_offset
        } else {
            self.head + (self.buf.len() - 1 - backwards_offset)
        };
        assert(idx == back_index(self.head as int, self.buf@.len() as int, backwards_offset as int));
        self.buf[idx]
    }

    pub fn get_last(&self) -> (r: u8)
        requires
            self.wf(),
            self.view().len() > 0,
        ensures
            r == self.view().last(),
    {
        self.get_relative(0)
    }

    /// The last `backwards_offset` bytes, as two pieces contiguous in storage.
    pub fn as_slices_after(&self, backwards_offset: usize) -> (r: (&[u8], &[u8]))
        requires
            self.wf(),
            backwards_offset <= self.cap(),
        ensures
            r.0@ + r.1@ == self.view().subrange(self.view().len() - backwards_offset, self.view().len() as int),
            backwards_offset <= self.head_index() ==> r.1@.len() == 0,
            backwards_offset > self.head_index() ==> r.1@.len() == self.head_index(),
    {
        let len: usize = self.buf.len();
        let head: usize = self.head;
        let k: usize = backwards_offset;
        let ghost want = self.hist@.subrange(self.pos - k, self.pos as int);
        if k <= head {
            let a: &[u8] = &self.buf.as_slice()[(head - k)..head];
            let b: &[u8] = &self.buf.as_slice()[head..head];
            assert forall|i: int| 0 <= i < k implies a@[i] == want[i] by {
                let back = k - 1 - i;
                assert(back_index(head as int, len as int, back) == head - k + i);
                assert(self.buf@[back_index(head as int, len as int, back)] == self.hist@[self.pos - 1 - back]);
            }
            assert(a@ + b@ =~= want);
            (a, b)
        } else {
            let a: &[u8] = &self.buf.as_slice()[(len - (k - head))..len];
            let b: &[u8] = &self.buf.as_slice()[0..head];
            assert forall|i: int| 0 <= i < k implies (a@ + b@)[i] == want[i] by {
                let back = k - 1 - i;
                assert(self.buf@[back_index(head as int, len as int, back)] == self.hist@[self.pos - 1 - back]);
                if i < k - head {
                    assert(back_index(head as int, len as int, back) == len - (k - head) + i);
                } else {
                    assert(back_index(head as int, len as int, back) == i - (k - head));
                }
            }
            assert(a@ + b@ =~= want);
            (a, b)
        }
    }

    /// Every byte that can be read back, as two pieces.
    pub fn as_slices(&self) -> (r: (&[u8], &[u8]))
        requires
            self.wf(),
        ensures
            r.0@ + r.1@ == self.view().subrange(self.view().len() - self.cap(), self.view().len() as int),
    {
        let c: usize = self.capacity();
        self.as_slices_after(c)
    }

    /// The bytes from `range.end` places back up to `range.start` places
    /// back, oldest first, as two pieces.
    pub fn as_slices_between(&self, range: Range<usize>) -> (r: (&[u8], &[u8]))
        requires
            self.wf(),
            range.start <= range.end <= self.cap(),
        ensures
            r.0@ + r.1@ == self.view().subrange(
                self.view().len() - range.end,
                self.view().len() - range.start,
            ),
    {
        let (left, right) = self.as_slices_after(range.end);
        let n: usize = range.end - range.start;
        let ghost all = left@ + right@;
        assert(all.len() == range.end);
        assert(all.subrange(0, n as int) =~= self.view().subrange(
            self.view().len() - range.end,
            self.view().len() - range.start,
        ));
        if left.len() >= n {
            let a: &[u8] = &left[0..n];
            let b: &[u8] = &left[0..0];
            assert(a@ + b@ =~= all.subrange(0, n as int));
            (a, b)
        } else {
            let b: &[u8] = &right[0..(n - left.len())];
            assert(left@ + b@ =~= all.subrange(0, n as int));
            (left, b)
        }
    }

    pub fn push(&mut self, val: u8)
        requires
            old(self).wf(),
            old(self).view().len() < u64::MAX,
        ensures
            final(self).wf(),
            final(self).view() == old(self).view().push(val),
            final(self).max_cap() == old(self).max_cap(),
    {
        let len: usize = self.buf.len();
        let h: usize = self.head;
        self.buf.set(h, val);
        self.head = if h + 1 == len { 0 } else { h + 1 };
        self.pos = self.pos + 1;
        self.hist = Ghost(self.hist@.push(val));
        proof {
            assert forall|k: int| 0 <= k < self.cap() implies
                #[trigger] self.buf@[back_index(self.head as int, len as int, k)] == self.hist@[self.pos - 1 - k] by {
                if k > 0 {
                    assert(back_index(self.head as int, len as int, k) == back_index(h as int, len as int, k - 1));
                } else {
                    assert(back_index(self.head as int, len as int, 0) == h);
                }
            }
        }
    }

    pub fn push_slice(&mut self, val: &[u8])
        requires
            old(self).wf(),
            old(self).view().len() + val@.len() <= u64::MAX,
        ensures
            final(self).wf(),
            final(self).view() == old(self).view() + val@,
            final(self).max_cap() == old(self).max_cap(),
    {
        let mut i: usize = 0;
        while i < val.len()
            invariant
                self.wf(),
                i <= val@.len(),
                self.view() == old(self).view() + val@.subrange(0, i as int),
                self.max_cap() == old(self).max_cap(),
                old(self).view().len() + val@.len() <= u64::MAX,
            decreases val@.len() - i,
        {
            self.push(val[i]);
            i = i + 1;
            assert(self.view() =~= old(self).view() + val@.subrange(0, i as int));
        }
        assert(val@.subrange(0, val@.len() as int) =~= val@);
    }

    /// Appends `range.end - range.start` bytes copied from `range.end` places
    /// back. Source and destination may each run across the end of the
    /// storage: the bytes move in runs that cross neither end, and every
    /// source byte is read before the destination reaches its slot.
    pub fn append_past_data(&mut self, range: Range<usize>)
        requires
            old(self).wf(),
            range.start <= range.end,
            range.start == range.end || range.end < old(self).cap(),
            old(self).view().len() + (range.end - range.start) <= u64::MAX,
        ensures
            final(self).wf(),
            final(self).view() == lz_copy(old(self).view(), range.end as int, range.end - range.start),
            final(self).max_cap() == old(self).max_cap(),
    {
        let end: usize = range.end;
        let n: usize = range.end - range.start;
        if n == 0 {
            return;
        }
        let len: usize = self.buf.len();
        let head: usize = self.head;
        let ghost h = self.hist@;
        let ghost b0 = self.buf@;
        let ghost p = self.pos as int;
        let ghost base = p - 1 - end;
        let mut src: usize = if end < head { head - 1 - end } else { head + (len - 1 - end) };
        let mut dst: usize = head;
        let mut k: usize = 0;
        proof {
            assert(fdist(src as int, head as int, len as int) == len - 1 - end);
        }
        while k < n
            invariant
                self.buf@.len() == len,
                self.head == head,
                self.pos == p,
                self.hist@ == h,
                head < len,
                end < len,
                n <= end,
                k <= n,
                src < len,
                dst < len,
                fdist(src as int, head as int, len as int) == len - 1 - end + k,
                fdist(dst as int, head as int, len as int) == k,
                forall|t: int| 0 <= t < len && fdist(t, head as int, len as int) < k
                    ==> #[trigger] self.buf@[t] == h[base + fdist(t, head as int, len as int)],
                forall|t: int| 0 <= t < len && fdist(t, head as int, len as int) >= k
                    ==> #[trigger] self.buf@[t] == b0[t],
                forall|b: int| 0 <= b < min_int(p, len as int) ==> #[trigger] b0[back_index(head as int, len as int, b)]
                    == h[p - 1 - b],
                end < min_int(p, len as int),
                base == p - 1 - end,
            decreases n - k,
        {
            let mut run: usize = n - k;
            if len - src < run {
                run = len - src;
            }
            if len - dst < run {
                run = len - dst;
            }
            let mut j: usize = 0;
            while j < run
                invariant
                    self.buf@.len() == len,
                    self.head == head,
                    self.pos == p,
                    self.hist@ == h,
                    head < len,
                    end < len,
                    n <= end,
                    k + run <= n,
                    src + run <= len,
                    dst + run <= len,
                    j <= run,
                    fdist(src as int, head as int, len as int) == len - 1 - end + k,
                    fdist(dst as int, head as int, len as int) == k,
                    forall|t: int| 0 <= t < len && fdist(t, head as int, len as int) < k + j
                        ==> #[trigger] self.buf@[t] == h[base + fdist(t, head as int, len as int)],
                    forall|t: int| 0 <= t < len && fdist(t, head as int, len as int) >= k + j
                        ==> #[trigger] self.buf@[t] == b0[t],
                    forall|b: int| 0 <= b < min_int(p, len as int) ==> #[trigger] b0[back_index(head as int, len as int, b)]
                        == h[p - 1 - b],
                    end < min_int(p, len as int),
                    base == p - 1 - end,
                decreases run - j,
            {
                let ghost s = (src + j) as int;
                let ghost d = (dst + j) as int;
                proof {
                    assert(fdist(s, head as int, len as int) == len - 1 - end + k + j);
                    assert(fdist(d, head as int, len as int) == k + j);
                    let b = end - k - j;
                    assert(back_index(head as int, len as int, b) == s);
                    assert(b0[back_index(head as int, len as int, b)] == h[p - 1 - b]);
                }
                let v: u8 = self.buf[src + j];
                let ghost before = self.buf@;
                self.buf.set(dst + j, v);
                proof {
                    assert forall|t: int| 0 <= t < len && fdist(t, head as int, len as int) < k + j + 1
                        implies #[trigger] self.buf@[t] == h[base + fdist(t, head as int, len as int)] by {
                        if t != d {
                            assert(self.buf@[t] == before[t]);
                        }
                    }
                    assert forall|t: int| 0 <= t < len && fdist(t, head as int, len as int) >= k + j + 1
                        implies #[trigger] self.buf@[t] == b0[t] by {
                        assert(t != d);
                        assert(self.buf@[t] == before[t]);
                    }
                }
                j = j + 1;
            }
            k = k + run;
            src = if src + run == len { 0 } else { src + run };
            dst = if dst + run == len { 0 } else { dst + run };
        }
        let ghost copied = h.subrange(base, base + n);
        self.head = dst;
        self.pos = self.pos + n as u64;
        self.hist = Ghost(h + copied);
        proof {
            lemma_lz_copy_plain(h, end as int, n as int);
            let h2 = h + copied;
            assert forall|kk: int| 0 <= kk < self.cap() implies
                #[trigger] self.buf@[back_index(self.head as int, len as int, kk)] == self.hist@[self.pos - 1 - kk] by {
                let t = back_index(self.head as int, len as int, kk);
                if kk < n {
                    assert(fdist(t, head as int, len as int) == n - 1 - kk);
                    assert(h2[p + n - 1 - kk] == copied[n - 1 - kk]);
                } else {
                    assert(fdist(t, head as int, len as int) == len - 1 - kk + n);
                    assert(t == back_index(head as int, len as int, kk - n));
                    assert(h2[p + n - 1 - kk] == h[p - 1 - (kk - n)]);
                }
            }
        }
    }

    /// Appends `len` bytes, each copied from `dist` places before the
    /// newest byte at the time it is written.
    pub fn copy_back(&mut self, dist: usize, len: usize)
        requires
            old(self).wf(),
            dist < old(self).cap(),
            old(self).view().len() + len <= u64::MAX,
        ensures
            final(self).wf(),
            final(self).view() == lz_copy(old(self).view(), dist as int, len as int),
            final(self).max_cap() == old(self).max_cap(),
    {
        let mut i: usize = 0;
        while i < len
            invariant
                self.wf(),
                i <= len,
                dist < self.cap(),
                self.max_cap() == old(self).max_cap(),
                self.view().len() == old(self).view().len() + i,
                old(self).view().len() + len <= u64::MAX,
                lz_copy(self.view(), dist as int, len - i) == lz_copy(old(self).view(), dist as int, len as int),
            decreases len - i,
        {
            let b: u8 = self.get_relative(dist);
            self.push(b);
            i = i + 1;
        }
    }
}

} // verus!
