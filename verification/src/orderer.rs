//! The range orderer: an ordered collection of disjoint byte ranges that
//! buffers what the peer has sent and the application has not yet consumed.

use vstd::prelude::*;

verus! {

/// One buffered range: a contiguous run of bytes beginning at stream
/// offset `start`.
pub struct Chunk {
    pub start: u64,
    pub data: Vec<u8>,
}

/// The first stream offset past the end of the chunk.
pub open spec fn chunk_end(c: Chunk) -> int {
    c.start + c.data@.len()
}

/// Relates an orderer before and after `inbound(start, bytes)` when the
/// call is not a no-op (`bytes` non-empty, `start + bytes.len() > retired`).
///
/// Writing `s` for the incoming range clipped at `retired`, `e` for its
/// end and `n` for the first gap at or past `s`:
/// - nothing below `retired` or outside `[s, e)` changes;
/// - afterwards everything in `[s, e)` is buffered;
/// - bytes that were already buffered up to the first gap are kept;
/// - from the first gap on, the new bytes win except against a chunk that
///   extends past `e` (that chunk's bytes are kept);
/// - the highest seen offset becomes `max(old, e)`.
pub open spec fn inbound_post(
    pre: RangeOrderer,
    post: RangeOrderer,
    start: int,
    bytes: Seq<u8>,
) -> bool {
    let e = start + bytes.len();
    let s = vstd::math::max(start, pre.retired as int);
    let n = pre.next_uncovered(s);
    &&& post.retired == pre.retired
    &&& forall|o: int| !(s <= o < e) ==> (#[trigger] post.covered(o) <==> pre.covered(o))
    &&& forall|o: int|
        !(s <= o < e) && pre.covered(o) ==> #[trigger] post.byte_at(o) == pre.byte_at(o)
    &&& forall|o: int| s <= o < e ==> #[trigger] post.covered(o)
    &&& forall|o: int| s <= o < n ==> #[trigger] post.byte_at(o) == pre.byte_at(o)
    &&& forall|o: int|
        n <= o < e ==> #[trigger] post.byte_at(o) == (if pre.covered_past(o, e) {
            pre.byte_at(o)
        } else {
            bytes[o - start]
        })
    &&& post.hso() == vstd::math::max(pre.hso(), e)
}

/// What one call of `inbound(start, bytes)` does, the no-op cases
/// included: a range that is empty or wholly below `retired` changes
/// nothing, and any other range is merged as `inbound_post` describes.
pub open spec fn orderer_step(
    pre: RangeOrderer,
    post: RangeOrderer,
    start: int,
    bytes: Seq<u8>,
) -> bool {
    if bytes.len() == 0 || start + bytes.len() <= pre.retired {
        post == pre
    } else {
        inbound_post(pre, post, start, bytes)
    }
}

/// What `read` puts into the caller's buffer: the first `n` slots get the
/// contiguous buffered bytes starting at `retired`, `n` being limited by
/// the buffer and by what is ready; the rest of the buffer is untouched.
pub open spec fn read_bytes_out(
    pre: RangeOrderer,
    buf_pre: Seq<u8>,
    buf_post: Seq<u8>,
    n: int,
) -> bool {
    &&& n == vstd::math::min(buf_pre.len() as int, pre.bytes_ready_spec())
    &&& buf_post.len() == buf_pre.len()
    &&& forall|i: int| 0 <= i < n ==> #[trigger] buf_post[i] == pre.byte_at(pre.retired + i)
    &&& forall|i: int| n <= i < buf_pre.len() ==> #[trigger] buf_post[i] == buf_pre[i]
}

/// Relates an orderer before and after `read`: the buffer is filled as
/// `read_bytes_out` says, `retired` advances by `n`, and everything still
/// buffered keeps its place and its bytes.
pub open spec fn read_post(
    pre: RangeOrderer,
    post: RangeOrderer,
    buf_pre: Seq<u8>,
    buf_post: Seq<u8>,
    n: int,
) -> bool {
    &&& read_bytes_out(pre, buf_pre, buf_post, n)
    &&& post.retired == pre.retired + n
    &&& forall|o: int| #[trigger]
        post.covered(o) ==> pre.covered(o) && post.byte_at(o) == pre.byte_at(o)
    &&& forall|o: int| o >= post.retired && pre.covered(o) ==> #[trigger] post.covered(o)
    &&& post.hso() == pre.hso()
    &&& post.bytes_ready_spec() == pre.bytes_ready_spec() - n
}

/// Buffers unordered byte ranges, deduplicates and trims overlaps on
/// insertion, and delivers contiguous bytes starting at `retired` to a
/// caller-supplied buffer.
pub struct RangeOrderer {
    /// The held ranges, ordered by start offset, pairwise disjoint and
    /// non-empty.
    pub chunks: Vec<Chunk>,
    /// How many bytes of the stream have been delivered to the
    /// application.  Never decreases.
    pub retired: u64,
}

impl RangeOrderer {
    /// Well-formedness: chunks are non-empty, sorted and pairwise
    /// disjoint; chunk ends fit in `u64`; the first chunk always ends past
    /// `retired` (fully consumed chunks are removed).
    pub open spec fn wf(self) -> bool {
        &&& forall|i: int|
            0 <= i < self.chunks@.len() ==> (#[trigger] self.chunks@[i]).data@.len() > 0
        &&& forall|i: int|
            0 <= i < self.chunks@.len() ==> chunk_end(#[trigger] self.chunks@[i]) <= u64::MAX
        &&& forall|i: int, j: int|
            0 <= i < j < self.chunks@.len() ==> chunk_end(#[trigger] self.chunks@[i])
                <= (#[trigger] self.chunks@[j]).start
        &&& self.chunks@.len() > 0 ==> self.retired < chunk_end(self.chunks@[0])
    }

    /// Chunk `i` holds the byte at stream offset `o`.
    pub open spec fn covers(self, i: int, o: int) -> bool {
        0 <= i < self.chunks@.len() && self.chunks@[i].start <= o < chunk_end(self.chunks@[i])
    }

    /// Some chunk holds the byte at stream offset `o`.
    pub open spec fn covered(self, o: int) -> bool {
        exists|i: int| self.covers(i, o)
    }

    /// The buffered byte at stream offset `o` (meaningful only when
    /// `covered(o)`; the covering chunk is unique under `wf`).
    pub open spec fn byte_at(self, o: int) -> u8 {
        let i = choose|i: int| self.covers(i, o);
        self.chunks@[i].data@[o - self.chunks@[i].start]
    }

    /// The byte at offset `o` is held by a chunk that extends strictly
    /// past offset `e`.
    pub open spec fn covered_past(self, o: int, e: int) -> bool {
        exists|i: int| self.covers(i, o) && chunk_end(self.chunks@[i]) > e
    }

    /// Helper for `next_uncovered`: walk the chunks from index `i` with
    /// running offset `o`.
    pub open spec fn next_uncovered_from(self, i: int, o: int) -> int
        decreases self.chunks@.len() - i,
    {
        if i < 0 || i >= self.chunks@.len() {
            o
        } else if self.chunks@[i].start > o {
            o
        } else if chunk_end(self.chunks@[i]) > o {
            self.next_uncovered_from(i + 1, chunk_end(self.chunks@[i]))
        } else {
            self.next_uncovered_from(i + 1, o)
        }
    }

    /// The least offset at or after `o` that no chunk holds (under `wf`).
    pub open spec fn next_uncovered(self, o: int) -> int {
        self.next_uncovered_from(0, o)
    }

    /// One past the last buffered offset: the end of the last chunk, or
    /// `retired` when nothing is buffered.
    pub open spec fn hso(self) -> int {
        if self.chunks@.len() == 0 {
            self.retired as int
        } else {
            chunk_end(self.chunks@[self.chunks@.len() - 1])
        }
    }

    /// How many contiguous bytes are available starting at `retired`.
    pub open spec fn bytes_ready_spec(self) -> int {
        self.next_uncovered(self.retired as int) - self.retired
    }

    /// All buffered bytes agree with the single byte stream `peer`:
    /// whatever is held at offset `o` is `peer[o]`.
    pub open spec fn agrees_with(self, peer: Seq<u8>) -> bool {
        forall|o: int| #[trigger]
            self.covered(o) ==> 0 <= o < peer.len() && self.byte_at(o) == peer[o]
    }

    /// A fresh orderer: nothing buffered, nothing retired.
    pub fn new() -> (r: RangeOrderer)
        ensures
            r.wf(),
            r.chunks@.len() == 0,
            r.retired == 0,
    {
        RangeOrderer { chunks: Vec::new(), retired: 0 }
    }

    /// `start + len` of the last held range, or `retired` when empty.
    pub fn highest_seen_offset(&self) -> (r: u64)
        requires
            self.wf(),
        ensures
            r == self.hso(),
    {
        if self.chunks.len() == 0 {
            self.retired
        } else {
            let c = &self.chunks[self.chunks.len() - 1];
            c.start + c.data.len() as u64
        }
    }

    /// True iff the byte at `retired` is buffered, i.e. some contiguous
    /// byte is available to read.
    pub fn data_ready(&self) -> (r: bool)
        requires
            self.wf(),
        ensures
            r == self.covered(self.retired as int),
    {
        let r = self.chunks.len() > 0 && self.chunks[0].start <= self.retired;
        proof {
            if r {
                assert(self.covers(0, self.retired as int));
            } else if self.chunks@.len() > 0 {
                assert forall|i: int| !self.covers(i, self.retired as int) by {
                    if 0 < i < self.chunks@.len() {
                        self.lemma_sorted(0, i);
                    }
                }
            }
        }
        r
    }

    /// The bytes a chunk holds beyond `retired`.
    pub open spec fn chunk_held(self, i: int) -> int {
        let s = self.chunks@[i].start as int;
        let e = chunk_end(self.chunks@[i]);
        if s >= self.retired {
            e - s
        } else if e > self.retired {
            e - self.retired
        } else {
            0
        }
    }

    /// Helper for `buffered_spec`: total held bytes from chunk `i` on.
    pub open spec fn buffered_from(self, i: int) -> int
        decreases self.chunks@.len() - i,
    {
        if i < 0 || i >= self.chunks@.len() {
            0
        } else {
            self.chunk_held(i) + self.buffered_from(i + 1)
        }
    }

    /// Total bytes held beyond `retired`.
    pub open spec fn buffered_spec(self) -> int {
        self.buffered_from(0)
    }

    /// Walk the chunks from `from` to the first gap.  Returns the least
    /// uncovered offset at or past `from` together with the index of the
    /// first chunk past that offset.
    fn scan_uncovered(&self, from: u64) -> (r: (u64, usize))
        requires
            self.wf(),
        ensures
            r.0 == self.next_uncovered(from as int),
            from <= r.0,
            r.1 <= self.chunks@.len(),
            forall|j: int| 0 <= j < r.1 ==> chunk_end(#[trigger] self.chunks@[j]) <= r.0,
            r.1 < self.chunks@.len() ==> self.chunks@[r.1 as int].start > r.0,
    {
        let mut n: u64 = from;
        let mut idx: usize = 0;
        while idx < self.chunks.len() && self.chunks[idx].start <= n
            invariant
                self.wf(),
                0 <= idx <= self.chunks@.len(),
                from <= n,
                self.next_uncovered_from(idx as int, n as int) == self.next_uncovered(
                    from as int,
                ),
                forall|j: int| 0 <= j < idx ==> chunk_end(#[trigger] self.chunks@[j]) <= n,
            decreases self.chunks@.len() - idx,
        {
            let c = &self.chunks[idx];
            let ce = c.start + c.data.len() as u64;
            if ce > n {
                n = ce;
            }
            idx = idx + 1;
        }
        (n, idx)
    }

    /// Length of the longest contiguous run of buffered bytes starting at
    /// `retired`.
    pub fn bytes_ready(&self) -> (r: u64)
        requires
            self.wf(),
        ensures
            r == self.bytes_ready_spec(),
    {
        let (n, _) = self.scan_uncovered(self.retired);
        n - self.retired
    }

    /// One past the last contiguous buffered byte starting at `retired`:
    /// `retired + bytes_ready()`.
    pub fn contiguous_end(&self) -> (r: u64)
        requires
            self.wf(),
        ensures
            r == self.next_uncovered(self.retired as int),
    {
        let (n, _) = self.scan_uncovered(self.retired);
        n
    }

    /// Nothing is buffered.
    pub fn is_empty(&self) -> (r: bool)
        ensures
            r <==> self.chunks@.len() == 0,
    {
        self.chunks.len() == 0
    }

    /// The contiguous end lies between `retired` and the highest seen
    /// offset.
    pub proof fn lemma_contiguous_le_hso(self)
        requires
            self.wf(),
        ensures
            self.retired <= self.next_uncovered(self.retired as int) <= self.hso(),
    {
        self.lemma_next_uncovered(self.retired as int);
        let nu = self.next_uncovered(self.retired as int);
        if nu > self.retired {
            assert(self.covered(nu - 1));
            self.lemma_covered_below_hso(nu - 1);
        } else {
            if self.chunks@.len() > 0 {
                if self.chunks@.len() > 1 {
                    self.lemma_sorted(0, self.chunks@.len() - 1);
                }
            }
        }
    }

    /// The orderer is empty exactly when everything seen was retired.
    pub proof fn lemma_empty_iff_drained(self)
        requires
            self.wf(),
        ensures
            self.chunks@.len() == 0 <==> self.retired == self.hso(),
    {
        if self.chunks@.len() > 1 {
            self.lemma_sorted(0, self.chunks@.len() - 1);
        }
    }

    /// Every tail sum of held bytes is non-negative.
    proof fn lemma_buffered_from_nonneg(self, i: int)
        requires
            self.wf(),
        ensures
            self.buffered_from(i) >= 0,
        decreases self.chunks@.len() - i,
    {
        if 0 <= i < self.chunks@.len() {
            self.lemma_buffered_from_nonneg(i + 1);
        }
    }

    /// The tail sum from chunk `i` fits under what the stream has room
    /// for: it is bounded by `hso` minus where chunk `i` begins counting.
    proof fn lemma_buffered_from_bound(self, i: int)
        requires
            self.wf(),
            0 <= i <= self.chunks@.len(),
        ensures
            i < self.chunks@.len() ==> self.buffered_from(i) + vstd::math::max(
                self.retired as int,
                self.chunks@[i].start as int,
            ) <= self.hso(),
            i == self.chunks@.len() ==> self.buffered_from(i) == 0,
        decreases self.chunks@.len() - i,
    {
        if i < self.chunks@.len() {
            self.lemma_buffered_from_bound(i + 1);
            if i > 0 {
                self.lemma_sorted(0, i);
            }
            if i + 1 < self.chunks@.len() {
                assert(chunk_end(self.chunks@[i]) <= self.chunks@[i + 1].start);
            } else {
                assert(self.hso() == chunk_end(self.chunks@[i]));
            }
        }
    }

    /// Total bytes held beyond `retired`, counting only the part of each
    /// chunk past `retired`.
    pub fn buffered(&self) -> (r: u64)
        requires
            self.wf(),
        ensures
            r == self.buffered_spec(),
    {
        proof {
            self.lemma_buffered_from_bound(0);
            self.lemma_buffered_from_nonneg(0);
        }
        let mut acc: u64 = 0;
        let mut idx: usize = 0;
        while idx < self.chunks.len()
            invariant
                self.wf(),
                0 <= idx <= self.chunks@.len(),
                acc + self.buffered_from(idx as int) == self.buffered_spec(),
                0 <= self.buffered_spec() <= u64::MAX,
                acc >= 0,
            decreases self.chunks@.len() - idx,
        {
            let c = &self.chunks[idx];
            let lo = if c.start >= self.retired {
                c.start
            } else {
                self.retired
            };
            let ce = c.start + c.data.len() as u64;
            let held = if ce > lo {
                ce - lo
            } else {
                0
            };
            proof {
                assert(held == self.chunk_held(idx as int));
                self.lemma_buffered_from_nonneg(idx as int + 1);
            }
            acc = acc + held;
            idx = idx + 1;
        }
        acc
    }

    /// Chunks are pairwise disjoint: an earlier chunk ends at or before a
    /// later one starts.
    pub proof fn lemma_sorted(self, i: int, j: int)
        requires
            self.wf(),
            0 <= i < j < self.chunks@.len(),
        ensures
            chunk_end(self.chunks@[i]) <= self.chunks@[j].start,
    {
    }

    /// Under `wf` at most one chunk holds a given offset.
    pub proof fn lemma_cover_unique(self, o: int, i: int, j: int)
        requires
            self.wf(),
            self.covers(i, o),
            self.covers(j, o),
        ensures
            i == j,
    {
        if i < j {
            self.lemma_sorted(i, j);
        } else if j < i {
            self.lemma_sorted(j, i);
        }
    }

    /// `byte_at(o)` is the byte of the (unique) chunk that holds `o`.
    pub proof fn lemma_byte_at(self, i: int, o: int)
        requires
            self.wf(),
            self.covers(i, o),
        ensures
            self.byte_at(o) == self.chunks@[i].data@[o - self.chunks@[i].start],
    {
        let w = choose|w: int| self.covers(w, o);
        self.lemma_cover_unique(o, w, i);
    }

    /// The walk of `next_uncovered_from` lands on the least uncovered
    /// offset, provided every chunk before index `i` ends at or before `o`.
    proof fn lemma_next_uncovered_from(self, i: int, o: int)
        requires
            self.wf(),
            0 <= i <= self.chunks@.len(),
            forall|j: int| 0 <= j < i ==> chunk_end(#[trigger] self.chunks@[j]) <= o,
        ensures
            o <= self.next_uncovered_from(i, o),
            !self.covered(self.next_uncovered_from(i, o)),
            forall|m: int| o <= m < self.next_uncovered_from(i, o) ==> self.covered(m),
        decreases self.chunks@.len() - i,
    {
        let n = self.next_uncovered_from(i, o);
        if i == self.chunks@.len() {
            assert forall|w: int| !self.covers(w, o) by {
                if 0 <= w < self.chunks@.len() {
                    assert(chunk_end(self.chunks@[w]) <= o);
                }
            }
        } else if self.chunks@[i].start > o {
            assert forall|w: int| !self.covers(w, o) by {
                if 0 <= w < i {
                    assert(chunk_end(self.chunks@[w]) <= o);
                } else if i <= w < self.chunks@.len() {
                    if i < w {
                        self.lemma_sorted(i, w);
                    }
                }
            }
        } else if chunk_end(self.chunks@[i]) > o {
            let e = chunk_end(self.chunks@[i]);
            assert forall|j: int| 0 <= j < i + 1 implies chunk_end(#[trigger] self.chunks@[j])
                <= e by {
                if j < i {
                    self.lemma_sorted(j, i);
                }
            }
            self.lemma_next_uncovered_from(i + 1, e);
            assert forall|m: int| o <= m < n implies self.covered(m) by {
                if m < e {
                    assert(self.covers(i, m));
                }
            }
        } else {
            self.lemma_next_uncovered_from(i + 1, o);
        }
    }

    /// `next_uncovered(o)` is at or past `o`, is itself uncovered, and
    /// everything between is covered.
    pub proof fn lemma_next_uncovered(self, o: int)
        requires
            self.wf(),
        ensures
            o <= self.next_uncovered(o),
            !self.covered(self.next_uncovered(o)),
            forall|m: int| o <= m < self.next_uncovered(o) ==> self.covered(m),
    {
        self.lemma_next_uncovered_from(0, o);
    }

    /// `next_uncovered(o)` is the unique offset that is at or past `o`,
    /// uncovered, with everything between covered.
    pub proof fn lemma_next_uncovered_char(self, o: int, n: int)
        requires
            self.wf(),
            o <= n,
            !self.covered(n),
            forall|m: int| o <= m < n ==> self.covered(m),
        ensures
            self.next_uncovered(o) == n,
    {
        self.lemma_next_uncovered(o);
        let n0 = self.next_uncovered(o);
        if n0 < n {
            assert(self.covered(n0));
        } else if n < n0 {
            assert(self.covered(n));
        }
    }

    /// Every buffered offset lies below the highest seen offset.
    pub proof fn lemma_covered_below_hso(self, o: int)
        requires
            self.wf(),
            self.covered(o),
        ensures
            self.retired <= self.hso(),
            o < self.hso(),
    {
        let i = choose|i: int| self.covers(i, o);
        if i < self.chunks@.len() - 1 {
            self.lemma_sorted(i, self.chunks@.len() - 1);
        }
        if self.chunks@.len() > 1 {
            self.lemma_sorted(0, self.chunks@.len() - 1);
        }
    }

    /// Accept the byte range `[start, start + bytes.len())`.
    ///
    /// A range that is empty or ends at or below `retired` is ignored.
    /// Otherwise the range (clipped at `retired`) is merged into the held
    /// chunks: bytes already buffered up to the first gap are kept, the
    /// new bytes fill everything from the first gap on, except where a
    /// held chunk extends past the new range's end.  See `inbound_post`.
    #[verifier::rlimit(50)]
    pub fn inbound(&mut self, start: u64, bytes: Vec<u8>)
        requires
            old(self).wf(),
            start + bytes@.len() <= u64::MAX,
        ensures
            final(self).wf(),
            final(self).retired == old(self).retired,
            (bytes@.len() == 0 || start + bytes@.len() <= old(self).retired) ==> *final(self)
                == *old(self),
            (bytes@.len() > 0 && start + bytes@.len() > old(self).retired) ==> inbound_post(
                *old(self),
                *final(self),
                start as int,
                bytes@,
            ),
            orderer_step(*old(self), *final(self), start as int, bytes@),
            forall|peer: Seq<u8>|
                old(self).agrees_with(peer) && start + bytes@.len() <= peer.len() && (forall|
                    j: int,
                |
                    0 <= j < bytes@.len() ==> bytes@[j] == peer[start + j])
                    ==> #[trigger] final(self).agrees_with(peer),
    {
        let ghost pre = *old(self);
        let ghost start0 = start as int;
        let ghost e = start as int + bytes@.len();
        if bytes.len() == 0 {
            return;
        }
        let end = start + bytes.len() as u64;
        if end <= self.retired {
            return;
        }
        // Clip the part below `retired`: those bytes were already
        // delivered and must never resurface.
        let mut buf = bytes;
        let mut lo = start;
        if lo < self.retired {
            let k = (self.retired - lo) as usize;
            buf = buf.split_off(k);
            lo = self.retired;
        }
        let ghost s = lo as int;
        proof {
            assert(s == vstd::math::max(start0, pre.retired as int));
            assert(buf@ =~= bytes@.skip(s - start0));
            assert(s + buf@.len() == e);
        }
        // Walk past what is already buffered: `nn` is the first gap at or
        // past `s`, `i0` the index of the first chunk beyond it.
        let (nn, i0) = self.scan_uncovered(lo);
        proof {
            pre.lemma_next_uncovered(s);
        }
        if nn >= end {
            // The whole range is already buffered: nothing to do.
            proof {
                assert forall|o: int| s <= o < e implies #[trigger] self.covered(o) by {
                    assert(pre.covered(o));
                }
                assert(pre.covered(e - 1));
                pre.lemma_covered_below_hso(e - 1);
                assert(self.hso() == vstd::math::max(pre.hso(), e));
                assert(inbound_post(pre, *self, start0, bytes@));
            }
            return;
        }
        // Drop the prefix of the new range that is already buffered.
        if nn > lo {
            let k = (nn - lo) as usize;
            buf = buf.split_off(k);
            lo = nn;
        }
        proof {
            assert(buf@ =~= bytes@.skip(nn - start0));
            assert(lo == nn);
            assert(lo as int + buf@.len() == e);
        }
        // Remove held chunks that the new range subsumes.
        let ghost a = pre.chunks@;
        let ghost mut rm: int = i0 as int;
        while i0 < self.chunks.len() && self.chunks[i0].start < end && self.chunks[i0].start
            + (self.chunks[i0].data.len() as u64) <= end
            invariant
                pre.wf(),
                a == pre.chunks@,
                self.retired == pre.retired,
                i0 as int <= rm <= a.len(),
                self.chunks@ =~= a.take(i0 as int) + a.skip(rm),
                forall|j: int|
                    0 <= j < self.chunks@.len() ==> chunk_end(#[trigger] self.chunks@[j])
                        <= u64::MAX,
                i0 < self.chunks@.len() ==> self.chunks@[i0 as int] == a[rm],
                forall|j: int|
                    i0 <= j < rm ==> (#[trigger] a[j]).start > nn && chunk_end(a[j]) <= end,
                forall|j: int| 0 <= j < i0 ==> chunk_end(#[trigger] a[j]) <= nn,
                i0 < a.len() ==> a[i0 as int].start > nn,
                nn < end <= u64::MAX,
            decreases self.chunks@.len() - i0,
        {
            proof {
                assert(a.take(i0 as int).len() == i0 as int);
                assert(a.skip(rm).len() == a.len() - rm);
                assert(self.chunks@.len() == i0 + a.len() - rm);
                assert(rm < a.len());
                assert(self.chunks@[i0 as int] == a[rm]);
                if i0 < rm {
                    pre.lemma_sorted(i0 as int, rm);
                }
                assert(a[rm].start > nn);
            }
            let _ = self.chunks.remove(i0);
            proof {
                rm = rm + 1;
                assert(self.chunks@ =~= a.take(i0 as int) + a.skip(rm));
                assert(self.chunks@.len() == i0 + a.len() - rm);
                assert forall|j: int|
                    0 <= j < self.chunks@.len() implies chunk_end(#[trigger] self.chunks@[j])
                    <= u64::MAX by {
                    if j < i0 {
                        assert(self.chunks@[j] == a[j]);
                    } else {
                        assert(self.chunks@[j] == a[j - i0 + rm]);
                    }
                }
                if i0 < self.chunks@.len() {
                    assert(rm < a.len());
                    assert(self.chunks@[i0 as int] == a.skip(rm)[0]);
                    assert(self.chunks@[i0 as int] == a[rm]);
                }
            }
        }
        proof {
            assert(self.chunks@ == a.take(i0 as int) + a.skip(rm));
            if rm < a.len() {
                assert(self.chunks@[i0 as int] == a[rm]);
                if i0 < rm {
                    pre.lemma_sorted(i0 as int, rm);
                }
                assert(a[rm].start > nn);
            }
        }
        // A chunk that starts inside the new range but extends past its
        // end keeps its bytes: clip the new range at that chunk's start.
        let mut hi = end;
        if i0 < self.chunks.len() {
            let cs = self.chunks[i0].start;
            if cs < end {
                buf.truncate((cs - lo) as usize);
                hi = cs;
            }
        }
        let ghost t = hi as int;
        proof {
            assert(buf@ =~= bytes@.subrange(nn - start0, t - start0));
            assert(nn < t <= e);
        }
        self.chunks.insert(i0, Chunk { start: lo, data: buf });
        proof {
            assert forall|j: int| 0 <= j < i0 implies self.chunks@[j] == a[j] by {
                assert(self.chunks@[j] == (a.take(i0 as int) + a.skip(rm))[j]);
            }
            assert forall|j: int| i0 < j < self.chunks@.len() implies self.chunks@[j] == a[j - i0
                - 1 + rm] by {
                assert(self.chunks@[j] == (a.take(i0 as int) + a.skip(rm))[j - 1]);
            }
            assert(self.inbound_shape(pre, a, start0, bytes@, s, nn as int, t, i0 as int, rm));
            self.lemma_inbound_finish(pre, a, start0, bytes@, s, nn as int, t, i0 as int, rm);
        }
    }

    /// The shape in which `inbound` leaves the chunk sequence: the old
    /// chunks up to `i0`, then one new chunk `[nn, t)` carrying the new
    /// bytes, then the old chunks from `rm` on; `s` is the incoming range
    /// clipped at `retired`, `nn` the first gap at or past `s`, and the
    /// offsets satisfy what the scanning and removal loops establish.
    pub open spec fn inbound_shape(
        self,
        pre: RangeOrderer,
        a: Seq<Chunk>,
        start0: int,
        bytes: Seq<u8>,
        s: int,
        nn: int,
        t: int,
        i0: int,
        rm: int,
    ) -> bool {
        let e = start0 + bytes.len();
        &&& pre.wf()
        &&& a == pre.chunks@
        &&& self.retired == pre.retired
        &&& bytes.len() > 0
        &&& 0 <= start0
        &&& e <= u64::MAX
        &&& e > pre.retired
        &&& s == vstd::math::max(start0, pre.retired as int)
        &&& nn == pre.next_uncovered(s)
        &&& s <= nn
        &&& nn < t <= e
        &&& 0 <= i0 <= rm <= a.len()
        &&& forall|j: int| 0 <= j < i0 ==> chunk_end(#[trigger] a[j]) <= nn
        &&& (i0 < a.len() ==> a[i0].start > nn)
        &&& forall|j: int|
            i0 <= j < rm ==> (#[trigger] a[j]).start > nn && chunk_end(a[j]) <= e
        &&& (rm < a.len() ==> a[rm].start > nn)
        &&& (rm < a.len() ==> (a[rm].start >= e || chunk_end(a[rm]) > e))
        &&& ((rm < a.len() && a[rm].start < e) ==> t == a[rm].start)
        &&& (!(rm < a.len() && a[rm].start < e) ==> t == e)
        &&& self.chunks@.len() == i0 + 1 + a.len() - rm
        &&& forall|j: int| 0 <= j < i0 ==> self.chunks@[j] == a[j]
        &&& self.chunks@[i0].start == nn
        &&& self.chunks@[i0].data@ == bytes.subrange(nn - start0, t - start0)
        &&& forall|j: int| i0 < j < self.chunks@.len() ==> self.chunks@[j] == a[j - i0 - 1 + rm]
    }

    /// First consequences of the shape: the new chunk ends at `t`, kept
    /// tail chunks start at or past `t`, removed chunks ended by `t`, and
    /// the new sequence is well-formed.
    proof fn lemma_shape_basics(
        self,
        pre: RangeOrderer,
        a: Seq<Chunk>,
        start0: int,
        bytes: Seq<u8>,
        s: int,
        nn: int,
        t: int,
        i0: int,
        rm: int,
    )
        requires
            self.inbound_shape(pre, a, start0, bytes, s, nn, t, i0, rm),
        ensures
            chunk_end(self.chunks@[i0]) == t,
            forall|j: int| rm <= j < a.len() ==> t <= (#[trigger] a[j]).start,
            forall|j: int| i0 <= j < rm ==> chunk_end(#[trigger] a[j]) <= t,
            self.wf(),
    {
        let e = start0 + bytes.len();
        let f = self.chunks@;
        let lf = f.len() as int;
        assert(chunk_end(f[i0]) == t);
        assert forall|j: int| rm <= j < a.len() implies t <= (#[trigger] a[j]).start by {
            if rm < j {
                pre.lemma_sorted(rm, j);
            }
        }
        assert forall|j: int| i0 <= j < rm implies chunk_end(#[trigger] a[j]) <= t by {
            if rm < a.len() && a[rm].start < e {
                pre.lemma_sorted(j, rm);
            }
        }
        assert forall|i: int| 0 <= i < lf implies (#[trigger] f[i]).data@.len() > 0 && chunk_end(
            f[i],
        ) <= u64::MAX by {
            if i < i0 {
                assert(f[i] == a[i]);
            } else if i > i0 {
                assert(f[i] == a[i - i0 - 1 + rm]);
            }
        }
        assert forall|i: int, j: int| 0 <= i < j < lf implies chunk_end(#[trigger] f[i]) <= (
        #[trigger] f[j]).start by {
            if j < i0 {
                assert(f[i] == a[i] && f[j] == a[j]);
            } else if j == i0 {
                assert(f[i] == a[i]);
            } else if i < i0 {
                assert(f[i] == a[i] && f[j] == a[j - i0 - 1 + rm]);
                assert(t <= a[j - i0 - 1 + rm].start);
            } else if i == i0 {
                assert(f[j] == a[j - i0 - 1 + rm]);
                assert(t <= a[j - i0 - 1 + rm].start);
            } else {
                assert(f[i] == a[i - i0 - 1 + rm] && f[j] == a[j - i0 - 1 + rm]);
            }
        }
        assert(self.wf()) by {
            if i0 > 0 {
                assert(f[0] == a[0]);
            }
        }
    }

    /// Coverage maps between the old and the new chunk sequence.
    proof fn lemma_shape_maps(
        self,
        pre: RangeOrderer,
        a: Seq<Chunk>,
        start0: int,
        bytes: Seq<u8>,
        s: int,
        nn: int,
        t: int,
        i0: int,
        rm: int,
    )
        requires
            self.inbound_shape(pre, a, start0, bytes, s, nn, t, i0, rm),
        ensures
            self.wf(),
            forall|i: int, o: int| #[trigger]
                self.covers(i, o) ==> (i < i0 && pre.covers(i, o)) || (i == i0 && nn <= o < t)
                    || (i > i0 && pre.covers(i - i0 - 1 + rm, o)),
            forall|j: int, o: int| #[trigger]
                pre.covers(j, o) ==> (j < i0 && self.covers(j, o)) || (i0 <= j < rm && nn < o < t
                    && self.covers(i0, o)) || (j >= rm && self.covers(j + i0 + 1 - rm, o)),
    {
        self.lemma_shape_basics(pre, a, start0, bytes, s, nn, t, i0, rm);
        let f = self.chunks@;
        assert forall|i: int, o: int| #[trigger] self.covers(i, o) implies (i < i0 && pre.covers(
            i,
            o,
        )) || (i == i0 && nn <= o < t) || (i > i0 && pre.covers(i - i0 - 1 + rm, o)) by {
            if i < i0 {
                assert(f[i] == a[i]);
            } else if i > i0 {
                assert(f[i] == a[i - i0 - 1 + rm]);
            }
        }
        assert forall|j: int, o: int| #[trigger] pre.covers(j, o) implies (j < i0 && self.covers(
            j,
            o,
        )) || (i0 <= j < rm && nn < o < t && self.covers(i0, o)) || (j >= rm && self.covers(
            j + i0 + 1 - rm,
            o,
        )) by {
            if j < i0 {
                assert(f[j] == a[j]);
            } else if j < rm {
                assert(a[j].start > nn && chunk_end(a[j]) <= t);
                assert(self.covers(i0, o));
            } else {
                assert(f[j + i0 + 1 - rm] == a[j]);
            }
        }
    }

    /// Coverage after the insertion: unchanged outside `[s, e)`, complete
    /// inside it.
    proof fn lemma_shape_covered(
        self,
        pre: RangeOrderer,
        a: Seq<Chunk>,
        start0: int,
        bytes: Seq<u8>,
        s: int,
        nn: int,
        t: int,
        i0: int,
        rm: int,
    )
        requires
            self.inbound_shape(pre, a, start0, bytes, s, nn, t, i0, rm),
        ensures
            forall|o: int|
                !(s <= o < start0 + bytes.len()) ==> (#[trigger] self.covered(o) <==> pre.covered(
                    o,
                )),
            forall|o: int| s <= o < start0 + bytes.len() ==> #[trigger] self.covered(o),
    {
        let e = start0 + bytes.len();
        self.lemma_shape_maps(pre, a, start0, bytes, s, nn, t, i0, rm);
        pre.lemma_next_uncovered(s);
        assert forall|o: int| !(s <= o < e) implies (#[trigger] self.covered(o) <==> pre.covered(
            o,
        )) by {
            if self.covered(o) {
                let i = choose|i: int| self.covers(i, o);
                assert(!(i == i0 && nn <= o < t));
                assert(pre.covered(o));
            }
            if pre.covered(o) {
                let j = choose|j: int| pre.covers(j, o);
                assert(self.covered(o));
            }
        }
        assert forall|o: int| s <= o < e implies #[trigger] self.covered(o) by {
            if o < nn {
                assert(pre.covered(o));
                let j = choose|j: int| pre.covers(j, o);
                assert(self.covered(o));
            } else if o < t {
                assert(self.covers(i0, o));
            } else {
                assert(pre.covers(rm, o));
                assert(self.covers(i0 + 1, o));
            }
        }
    }

    /// Bytes after the insertion: unchanged outside `[s, e)` and below the
    /// first gap; from the gap on the new bytes win, except under a chunk
    /// that extends past `e`.
    /// Bytes that were already buffered and lie outside the filled part
    /// of the new range are unchanged.
    /// A byte that was buffered outside the newly filled window
    /// `[nn, t)` keeps its chunk and its value.
    #[verifier::rlimit(100)]
    proof fn lemma_shape_byte_kept_at(
        self,
        pre: RangeOrderer,
        a: Seq<Chunk>,
        start0: int,
        bytes: Seq<u8>,
        s: int,
        nn: int,
        t: int,
        i0: int,
        rm: int,
        o: int,
    )
        requires
            self.inbound_shape(pre, a, start0, bytes, s, nn, t, i0, rm),
            pre.covered(o),
            !(nn <= o < t),
        ensures
            self.covered(o),
            self.byte_at(o) == pre.byte_at(o),
    {
        self.lemma_shape_basics(pre, a, start0, bytes, s, nn, t, i0, rm);
        let j = choose|j: int| pre.covers(j, o);
        pre.lemma_byte_at(j, o);
        if j < i0 {
            assert(self.chunks@[j] == a[j]);
            assert(self.covers(j, o));
            self.lemma_byte_at(j, o);
        } else {
            if j < rm {
                assert(a[j].start > nn && chunk_end(a[j]) <= t);
                assert(false);
            }
            assert(self.chunks@[j + i0 + 1 - rm] == a[j]);
            assert(self.covers(j + i0 + 1 - rm, o));
            self.lemma_byte_at(j + i0 + 1 - rm, o);
        }
    }

    /// A byte in the newly filled window `[nn, t)` comes from the new
    /// range, and no old chunk that extends past `e` held it.
    #[verifier::rlimit(100)]
    proof fn lemma_shape_byte_new_at(
        self,
        pre: RangeOrderer,
        a: Seq<Chunk>,
        start0: int,
        bytes: Seq<u8>,
        s: int,
        nn: int,
        t: int,
        i0: int,
        rm: int,
        o: int,
    )
        requires
            self.inbound_shape(pre, a, start0, bytes, s, nn, t, i0, rm),
            nn <= o < t,
        ensures
            self.covered(o),
            self.byte_at(o) == bytes[o - start0],
            !pre.covered_past(o, start0 + bytes.len()),
    {
        let e = start0 + bytes.len();
        self.lemma_shape_basics(pre, a, start0, bytes, s, nn, t, i0, rm);
        assert(self.covers(i0, o));
        self.lemma_byte_at(i0, o);
        assert(self.chunks@[i0].data@[o - nn] == bytes[o - start0]);
        assert forall|j: int| !(pre.covers(j, o) && chunk_end(a[j]) > e) by {
            if 0 <= j < i0 {
                assert(chunk_end(a[j]) <= nn);
            } else if i0 <= j < rm {
                assert(chunk_end(a[j]) <= e);
            } else if rm <= j < a.len() {
                assert(t <= a[j].start);
            }
        }
    }

    /// A byte past the clip point `t` (only possible under a straddling
    /// old chunk) keeps that chunk's value.
    #[verifier::rlimit(100)]
    proof fn lemma_shape_byte_tail_at(
        self,
        pre: RangeOrderer,
        a: Seq<Chunk>,
        start0: int,
        bytes: Seq<u8>,
        s: int,
        nn: int,
        t: int,
        i0: int,
        rm: int,
        o: int,
    )
        requires
            self.inbound_shape(pre, a, start0, bytes, s, nn, t, i0, rm),
            t <= o < start0 + bytes.len(),
        ensures
            pre.covered_past(o, start0 + bytes.len()),
            self.covered(o),
            self.byte_at(o) == pre.byte_at(o),
    {
        let e = start0 + bytes.len();
        self.lemma_shape_basics(pre, a, start0, bytes, s, nn, t, i0, rm);
        assert(rm < a.len() && a[rm].start == t && chunk_end(a[rm]) > e);
        assert(pre.covers(rm, o));
        pre.lemma_byte_at(rm, o);
        assert(self.chunks@[i0 + 1] == a[rm]);
        assert(self.covers(i0 + 1, o));
        self.lemma_byte_at(i0 + 1, o);
    }

    /// Bytes that were already buffered and lie outside the filled part
    /// of the new range are unchanged.
    proof fn lemma_shape_bytes_kept(
        self,
        pre: RangeOrderer,
        a: Seq<Chunk>,
        start0: int,
        bytes: Seq<u8>,
        s: int,
        nn: int,
        t: int,
        i0: int,
        rm: int,
    )
        requires
            self.inbound_shape(pre, a, start0, bytes, s, nn, t, i0, rm),
        ensures
            forall|o: int|
                !(s <= o < start0 + bytes.len()) && pre.covered(o) ==> #[trigger] self.byte_at(o)
                    == pre.byte_at(o),
            forall|o: int| s <= o < nn ==> #[trigger] self.byte_at(o) == pre.byte_at(o),
    {
        let e = start0 + bytes.len();
        pre.lemma_next_uncovered(s);
        assert forall|o: int| !(s <= o < e) && pre.covered(o) implies #[trigger] self.byte_at(o)
            == pre.byte_at(o) by {
            self.lemma_shape_byte_kept_at(pre, a, start0, bytes, s, nn, t, i0, rm, o);
        }
        assert forall|o: int| s <= o < nn implies #[trigger] self.byte_at(o) == pre.byte_at(
            o,
        ) by {
            assert(pre.covered(o));
            self.lemma_shape_byte_kept_at(pre, a, start0, bytes, s, nn, t, i0, rm, o);
        }
    }

    /// From the first gap on, the new bytes win, except under a chunk
    /// that extends past the new range's end.
    proof fn lemma_shape_bytes_new(
        self,
        pre: RangeOrderer,
        a: Seq<Chunk>,
        start0: int,
        bytes: Seq<u8>,
        s: int,
        nn: int,
        t: int,
        i0: int,
        rm: int,
    )
        requires
            self.inbound_shape(pre, a, start0, bytes, s, nn, t, i0, rm),
        ensures
            forall|o: int|
                nn <= o < start0 + bytes.len() ==> #[trigger] self.byte_at(o) == (
                if pre.covered_past(o, start0 + bytes.len()) {
                    pre.byte_at(o)
                } else {
                    bytes[o - start0]
                }),
    {
        let e = start0 + bytes.len();
        assert forall|o: int| nn <= o < e implies #[trigger] self.byte_at(o) == (
        if pre.covered_past(o, e) {
            pre.byte_at(o)
        } else {
            bytes[o - start0]
        }) by {
            if o < t {
                self.lemma_shape_byte_new_at(pre, a, start0, bytes, s, nn, t, i0, rm, o);
            } else {
                self.lemma_shape_byte_tail_at(pre, a, start0, bytes, s, nn, t, i0, rm, o);
            }
        }
    }

    /// The highest seen offset after the insertion is `max(old, e)`.
    proof fn lemma_shape_hso(
        self,
        pre: RangeOrderer,
        a: Seq<Chunk>,
        start0: int,
        bytes: Seq<u8>,
        s: int,
        nn: int,
        t: int,
        i0: int,
        rm: int,
    )
        requires
            self.inbound_shape(pre, a, start0, bytes, s, nn, t, i0, rm),
        ensures
            self.hso() == vstd::math::max(pre.hso(), start0 + bytes.len()),
    {
        let e = start0 + bytes.len();
        let f = self.chunks@;
        let lf = f.len() as int;
        self.lemma_shape_basics(pre, a, start0, bytes, s, nn, t, i0, rm);
        if rm < a.len() {
            assert(f[lf - 1] == a[a.len() - 1]);
            if rm < a.len() - 1 {
                pre.lemma_sorted(rm, a.len() - 1);
            }
        } else {
            assert(t == e);
            assert(chunk_end(f[lf - 1]) == e);
            if a.len() > 0 {
                let last = a.len() - 1;
                if last < i0 {
                    assert(chunk_end(a[last]) <= nn);
                } else {
                    assert(chunk_end(a[last]) <= e);
                }
            }
        }
    }

    /// Helper: the walk of `next_uncovered_from` reads only the chunks.
    proof fn lemma_same_chunks_walk(x: RangeOrderer, y: RangeOrderer, i: int, o: int)
        requires
            x.chunks@ == y.chunks@,
        ensures
            x.next_uncovered_from(i, o) == y.next_uncovered_from(i, o),
        decreases x.chunks@.len() - i,
    {
        if 0 <= i < x.chunks@.len() {
            if x.chunks@[i].start > o {
            } else if chunk_end(x.chunks@[i]) > o {
                Self::lemma_same_chunks_walk(x, y, i + 1, chunk_end(x.chunks@[i]));
            } else {
                Self::lemma_same_chunks_walk(x, y, i + 1, o);
            }
        }
    }

    /// Coverage, bytes and gaps depend only on the chunks, not on
    /// `retired`: two orderers with equal chunks agree on all of them.
    proof fn lemma_same_chunks(x: RangeOrderer, y: RangeOrderer)
        requires
            x.chunks@ == y.chunks@,
            forall|i: int, j: int|
                0 <= i < j < x.chunks@.len() ==> chunk_end(#[trigger] x.chunks@[i]) <= (
                #[trigger] x.chunks@[j]).start,
        ensures
            forall|o: int| #[trigger] x.covered(o) <==> #[trigger] y.covered(o),
            forall|o: int| x.covered(o) ==> #[trigger] x.byte_at(o) == y.byte_at(o),
            forall|o: int| #[trigger] x.next_uncovered(o) == y.next_uncovered(o),
    {
        assert forall|o: int| #[trigger] x.covered(o) <==> #[trigger] y.covered(o) by {
            if x.covered(o) {
                let i = choose|i: int| x.covers(i, o);
                assert(y.covers(i, o));
            }
            if y.covered(o) {
                let i = choose|i: int| y.covers(i, o);
                assert(x.covers(i, o));
            }
        }
        assert forall|o: int| x.covered(o) implies #[trigger] x.byte_at(o) == y.byte_at(o) by {
            assert(y.covered(o));
            let i = choose|i: int| x.covers(i, o);
            let j = choose|j: int| y.covers(j, o);
            assert(x.covers(j, o));
            if i < j {
                assert(chunk_end(x.chunks@[i]) <= x.chunks@[j].start);
            } else if j < i {
                assert(chunk_end(x.chunks@[j]) <= x.chunks@[i].start);
            }
        }
        assert forall|o: int| #[trigger] x.next_uncovered(o) == y.next_uncovered(o) by {
            Self::lemma_same_chunks_walk(x, y, 0, o);
        }
    }

    /// Removing the first chunk keeps every other chunk's coverage and
    /// bytes; only the removed chunk's range loses coverage.
    proof fn lemma_remove_front(pre: RangeOrderer, post: RangeOrderer)
        requires
            pre.wf(),
            pre.chunks@.len() > 0,
            pre.retired <= chunk_end(pre.chunks@[0]),
            post.chunks@ == pre.chunks@.remove(0),
            post.retired == pre.retired,
        ensures
            post.wf(),
            forall|o: int| #[trigger]
                post.covered(o) ==> pre.covered(o) && post.byte_at(o) == pre.byte_at(o),
            forall|o: int|
                pre.covered(o) && o >= chunk_end(pre.chunks@[0]) ==> #[trigger] post.covered(o),
    {
        assert(post.wf()) by {
            if post.chunks@.len() > 0 {
                assert(post.chunks@[0] == pre.chunks@[1]);
                assert(chunk_end(pre.chunks@[0]) <= pre.chunks@[1].start);
            }
        }
        assert forall|o: int| #[trigger]
            post.covered(o) implies pre.covered(o) && post.byte_at(o) == pre.byte_at(o) by {
            let i = choose|i: int| post.covers(i, o);
            assert(post.chunks@[i] == pre.chunks@[i + 1]);
            assert(pre.covers(i + 1, o));
            post.lemma_byte_at(i, o);
            pre.lemma_byte_at(i + 1, o);
        }
        assert forall|o: int|
            pre.covered(o) && o >= chunk_end(pre.chunks@[0]) implies #[trigger] post.covered(
            o,
        ) by {
            let j = choose|j: int| pre.covers(j, o);
            assert(j != 0);
            assert(post.chunks@[j - 1] == pre.chunks@[j]);
            assert(post.covers(j - 1, o));
        }
    }

    /// Copy contiguous bytes starting at `retired` into `buf`.
    ///
    /// Fills `buf` from the front with as many contiguous buffered bytes
    /// as are available (`bytes_ready`), advancing `retired` past them and
    /// dropping fully drained chunks.  Stops at the first gap or when the
    /// buffer is full; the rest of `buf` is untouched.  Returns the
    /// number of bytes copied.
    #[verifier::rlimit(50)]
    pub fn read(&mut self, buf: &mut Vec<u8>) -> (n: usize)
        requires
            old(self).wf(),
        ensures
            final(self).wf(),
            final(self).retired >= old(self).retired,
            read_post(*old(self), *final(self), old(buf)@, final(buf)@, n as int),
            forall|peer: Seq<u8>|
                old(self).agrees_with(peer) ==> #[trigger] final(self).agrees_with(peer),
    {
        let ghost orig = *old(self);
        let ghost cc = old(self).next_uncovered(old(self).retired as int);
        proof {
            orig.lemma_next_uncovered(orig.retired as int);
        }
        let mut n: usize = 0;
        let mut stop = false;
        while !stop && n < buf.len() && self.chunks.len() > 0 && self.chunks[0].start
            <= self.retired
            invariant
                stop ==> n == buf@.len(),
                self.wf(),
                orig == *old(self),
                orig.wf(),
                cc == orig.next_uncovered(orig.retired as int),
                n <= buf@.len(),
                buf@.len() == old(buf)@.len(),
                self.retired == orig.retired + n,
                self.retired as int <= cc,
                cc == self.next_uncovered(self.retired as int),
                self.hso() == orig.hso(),
                forall|i: int|
                    0 <= i < n ==> #[trigger] buf@[i] == orig.byte_at(orig.retired + i),
                forall|i: int| n <= i < buf@.len() ==> #[trigger] buf@[i] == old(buf)@[i],
                forall|o: int| #[trigger]
                    self.covered(o) ==> orig.covered(o) && self.byte_at(o) == orig.byte_at(o),
                forall|o: int|
                    o >= self.retired && orig.covered(o) ==> #[trigger] self.covered(o),
            decreases buf@.len() - n, self.chunks@.len(),
        {
            proof {
                self.lemma_next_uncovered(self.retired as int);
            }
            let off = (self.retired - self.chunks[0].start) as usize;
            let avail = self.chunks[0].data.len() - off;
            let want = buf.len() - n;
            let take = if avail < want {
                avail
            } else {
                want
            };
            let ghost mid_self = *self;
            let ghost b0 = buf@;
            let ghost c0 = self.chunks@[0];
            proof {
                // The contiguous run reaches at least to the chunk's end.
                assert(self.retired + take <= cc) by {
                    if self.retired + take > cc {
                        assert(self.covers(0, cc));
                        assert(self.covered(cc));
                    }
                }
            }
            let mut i: usize = 0;
            while i < take
                invariant
                    i <= take,
                    *self == mid_self,
                    self.wf(),
                    self.chunks@.len() > 0,
                    self.chunks@[0] == c0,
                    off + take <= c0.data@.len(),
                    c0.data@.len() <= usize::MAX,
                    n + take <= buf@.len(),
                    buf@.len() <= usize::MAX,
                    buf@.len() == b0.len(),
                    forall|k: int| !(n <= k < n + i) && 0 <= k < buf@.len() ==> #[trigger] buf@[k]
                        == b0[k],
                    forall|k: int|
                        n <= k < n + i ==> #[trigger] buf@[k] == c0.data@[off + (k - n)],
                decreases take - i,
            {
                let b = self.chunks[0].data[off + i];
                buf[n + i] = b;
                i = i + 1;
            }
            proof {
                // Each copied byte is the buffered byte at its offset.
                assert forall|k: int| n <= k < n + take implies #[trigger] buf@[k] == orig.byte_at(
                    orig.retired + k,
                ) by {
                    let o = self.retired + (k - n);
                    assert(self.covers(0, o));
                    assert(self.covered(o));
                    self.lemma_byte_at(0, o);
                    assert(self.byte_at(o) == c0.data@[o - c0.start]);
                    assert(orig.byte_at(orig.retired + k) == self.byte_at(o));
                }
            }
            let full = take == avail;
            if full {
                let _ = self.chunks.remove(0);
                proof {
                    Self::lemma_remove_front(mid_self, *self);
                }
            }
            let ghost before_ret = *self;
            self.retired = self.retired + take as u64;
            n = n + take;
            proof {
                // `retired` does not occur in coverage, so only the chunk
                // removal (if any) changed it; re-establish the gap.
                assert(self.chunks@ == before_ret.chunks@);
                assert(before_ret.wf());
                Self::lemma_same_chunks(before_ret, *self);
                assert(self.wf()) by {
                    if self.chunks@.len() > 0 {
                        if full {
                            assert(mid_self.chunks@[1] == self.chunks@[0]);
                            assert(chunk_end(c0) <= self.chunks@[0].start);
                        }
                    }
                }
                assert forall|o: int| #[trigger]
                    self.covered(o) implies orig.covered(o) && self.byte_at(o) == orig.byte_at(
                    o,
                ) by {
                    assert(before_ret.covered(o));
                    assert(before_ret.byte_at(o) == self.byte_at(o));
                    if full {
                        assert(mid_self.covered(o) && before_ret.byte_at(o) == mid_self.byte_at(
                            o,
                        ));
                    }
                }
                assert forall|o: int|
                    o >= self.retired && orig.covered(o) implies #[trigger] self.covered(o) by {
                    assert(mid_self.covered(o));
                    if full {
                        assert(o >= chunk_end(mid_self.chunks@[0]));
                    }
                    assert(before_ret.covered(o));
                }
                // The contiguous end is unchanged.
                assert(cc == self.next_uncovered(self.retired as int)) by {
                    mid_self.lemma_next_uncovered(mid_self.retired as int);
                    assert forall|m: int|
                        self.retired <= m < cc implies #[trigger] self.covered(m) by {
                        assert(mid_self.covered(m));
                        if full {
                            assert(m >= chunk_end(mid_self.chunks@[0]));
                        }
                        assert(before_ret.covered(m));
                    }
                    assert(!mid_self.covered(cc));
                    assert(!before_ret.covered(cc));
                    assert(!self.covered(cc));
                    self.lemma_next_uncovered_char(self.retired as int, cc);
                }
                assert(self.hso() == orig.hso()) by {
                    if full {
                        if self.chunks@.len() > 0 {
                            assert(self.chunks@[self.chunks@.len() - 1] == mid_self.chunks@[
                            mid_self.chunks@.len() - 1]);
                        } else {
                            assert(mid_self.chunks@.len() == 1);
                            assert(self.retired == chunk_end(mid_self.chunks@[0]));
                        }
                    }
                }
            }
            if !full {
                stop = true;
            }
        }
        proof {
            // On every exit path the count equals `min(buffer, ready)`.
            if n < buf@.len() {
                assert(!self.covered(self.retired as int)) by {
                    if self.chunks@.len() > 0 {
                        assert forall|i: int| !self.covers(i, self.retired as int) by {
                            if 0 < i < self.chunks@.len() {
                                self.lemma_sorted(0, i);
                            }
                        }
                    }
                }
                self.lemma_next_uncovered_char(self.retired as int, self.retired as int);
                assert(cc == self.retired);
            }
            assert(n == vstd::math::min(old(buf)@.len() as int, orig.bytes_ready_spec()));
        }
        n
    }

    /// Non-duplication: when everything buffered agrees with a single
    /// peer byte stream, one `read` hands out exactly the peer's bytes
    /// `[retired, retired + n)`.  `read` then advances `retired` to
    /// their end, so consecutive reads concatenate to a prefix of the
    /// peer stream with each byte reported exactly once.
    pub proof fn lemma_read_yields_peer_prefix(
        pre: RangeOrderer,
        buf_pre: Seq<u8>,
        buf_post: Seq<u8>,
        n: int,
        peer: Seq<u8>,
    )
        requires
            pre.wf(),
            pre.agrees_with(peer),
            read_bytes_out(pre, buf_pre, buf_post, n),
        ensures
            n > 0 ==> pre.retired + n <= peer.len(),
            forall|i: int| 0 <= i < n ==> #[trigger] buf_post[i] == peer[pre.retired + i],
    {
        pre.lemma_next_uncovered(pre.retired as int);
        assert forall|i: int| 0 <= i < n implies #[trigger] buf_post[i] == peer[pre.retired
            + i] by {
            assert(pre.covered(pre.retired + i));
        }
        if n > 0 {
            assert(pre.covered(pre.retired + n - 1));
        }
    }

    /// Ties together the pieces of `inbound`: from the shape of the new
    /// chunk sequence, conclude well-formedness, `inbound_post` and
    /// preservation of agreement with a peer stream.
    proof fn lemma_inbound_finish(
        self,
        pre: RangeOrderer,
        a: Seq<Chunk>,
        start0: int,
        bytes: Seq<u8>,
        s: int,
        nn: int,
        t: int,
        i0: int,
        rm: int,
    )
        requires
            self.inbound_shape(pre, a, start0, bytes, s, nn, t, i0, rm),
        ensures
            self.wf(),
            inbound_post(pre, self, start0, bytes),
            forall|peer: Seq<u8>|
                pre.agrees_with(peer) && start0 + bytes.len() <= peer.len() && (forall|j: int|
                    0 <= j < bytes.len() ==> bytes[j] == peer[start0 + j]) ==> #[trigger] self
                    .agrees_with(peer),
    {
        let e = start0 + bytes.len();
        self.lemma_shape_basics(pre, a, start0, bytes, s, nn, t, i0, rm);
        self.lemma_shape_covered(pre, a, start0, bytes, s, nn, t, i0, rm);
        self.lemma_shape_bytes_kept(pre, a, start0, bytes, s, nn, t, i0, rm);
        self.lemma_shape_bytes_new(pre, a, start0, bytes, s, nn, t, i0, rm);
        self.lemma_shape_hso(pre, a, start0, bytes, s, nn, t, i0, rm);
        assert(inbound_post(pre, self, start0, bytes));
        assert forall|peer: Seq<u8>|
            pre.agrees_with(peer) && start0 + bytes.len() <= peer.len() && (forall|j: int|
                0 <= j < bytes.len() ==> bytes[j] == peer[start0 + j]) implies #[trigger] self
            .agrees_with(peer) by {
            assert forall|o: int| #[trigger]
                self.covered(o) implies 0 <= o < peer.len() && self.byte_at(o) == peer[o] by {
                if !(s <= o < e) {
                    assert(pre.covered(o));
                } else if o < nn {
                    pre.lemma_next_uncovered(s);
                    assert(pre.covered(o));
                } else {
                    if pre.covered_past(o, e) {
                        let j = choose|j: int| pre.covers(j, o) && chunk_end(a[j]) > e;
                        assert(pre.covered(o));
                    } else {
                        assert(self.byte_at(o) == bytes[o - start0]);
                        assert(bytes[o - start0] == peer[start0 + (o - start0)]);
                    }
                }
            }
        }
    }
}

} // verus!
