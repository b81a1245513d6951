use vstd::prelude::*;

use crate::range_buf::RangeBuf;

verus! {

/// Chunks ordered by non-decreasing offset.
pub open spec fn sorted(chunks: Seq<RangeBuf>) -> bool {
    forall|i: int, j: int|
        0 <= i < j < chunks.len() ==> #[trigger] chunks[i].offset() <= #[trigger] chunks[j].offset()
}

/// Some chunk holds stream position `p`.
pub open spec fn covered(chunks: Seq<RangeBuf>, p: nat) -> bool {
    exists|k: int| 0 <= k < chunks.len() && #[trigger] chunks[k].covers(p)
}

/// The byte at stream position `p`, taken from the first chunk that holds it.
pub open spec fn byte_at(chunks: Seq<RangeBuf>, p: nat) -> u8
    decreases chunks.len(),
{
    if chunks.len() == 0 {
        0
    } else if chunks[0].covers(p) {
        chunks[0].bytes()[p - chunks[0].offset()]
    } else {
        byte_at(chunks.drop_first(), p)
    }
}

/// The bytes that a walk over sorted `chunks` delivers from position `off`:
/// chunks that end before `off` are dropped, a chunk reaching over `off`
/// contributes its bytes from `off` on, and the walk stops at a gap.
pub open spec fn run_bytes(chunks: Seq<RangeBuf>, off: nat) -> Seq<u8>
    decreases chunks.len(),
{
    if chunks.len() == 0 {
        Seq::empty()
    } else {
        let c = chunks[0];
        if c.end() <= off {
            run_bytes(chunks.drop_first(), off)
        } else if c.offset() <= off {
            c.bytes().skip(off - c.offset()) + run_bytes(chunks.drop_first(), c.end())
        } else {
            Seq::empty()
        }
    }
}

/// How many leading chunks that walk consumes.
pub open spec fn run_count(chunks: Seq<RangeBuf>, off: nat) -> nat
    decreases chunks.len(),
{
    if chunks.len() == 0 {
        0
    } else {
        let c = chunks[0];
        if c.end() <= off {
            1 + run_count(chunks.drop_first(), off)
        } else if c.offset() <= off {
            1 + run_count(chunks.drop_first(), c.end())
        } else {
            0
        }
    }
}

/// Past a first chunk that does not hold `p`, coverage of `p` and its byte
/// are decided by the remaining chunks.
proof fn lemma_covered_past_first(chunks: Seq<RangeBuf>, p: nat)
    requires
        chunks.len() > 0,
        !chunks[0].covers(p),
    ensures
        covered(chunks, p) == covered(chunks.drop_first(), p),
        byte_at(chunks, p) == byte_at(chunks.drop_first(), p),
{
    let rest = chunks.drop_first();
    if covered(chunks, p) {
        let i = choose|i: int| 0 <= i < chunks.len() && #[trigger] chunks[i].covers(p);
        assert(rest[i - 1].covers(p));
    }
    if covered(rest, p) {
        let i = choose|i: int| 0 <= i < rest.len() && #[trigger] rest[i].covers(p);
        assert(chunks[i + 1].covers(p));
    }
}

/// The walk delivers, in order, the bytes of positions `off, off + 1, ...`
/// as far as they are covered without a gap, and stops at the first
/// position that no chunk holds.
pub proof fn lemma_run_bytes(chunks: Seq<RangeBuf>, off: nat)
    requires
        sorted(chunks),
    ensures
        forall|p: nat|
            off <= p < off + run_bytes(chunks, off).len() ==> #[trigger] covered(chunks, p),
        forall|i: int|
            0 <= i < run_bytes(chunks, off).len() ==> #[trigger] run_bytes(chunks, off)[i]
                == byte_at(chunks, (off + i) as nat),
        !covered(chunks, off + run_bytes(chunks, off).len()),
        run_count(chunks, off) <= chunks.len(),
    decreases chunks.len(),
{
    if chunks.len() > 0 {
        let c = chunks[0];
        let rest = chunks.drop_first();
        assert(sorted(rest)) by {
            assert forall|i: int, j: int| 0 <= i < j < rest.len() implies
                #[trigger] rest[i].offset() <= #[trigger] rest[j].offset() by {
                assert(chunks[i + 1].offset() <= chunks[j + 1].offset());
            }
        }
        if c.end() <= off {
            lemma_run_bytes(rest, off);
            let r = run_bytes(chunks, off);
            assert forall|i: int| 0 <= i < r.len() implies #[trigger] r[i] == byte_at(
                chunks,
                (off + i) as nat,
            ) by {
                lemma_covered_past_first(chunks, (off + i) as nat);
                assert(r[i] == run_bytes(rest, off)[i]);
            }
            assert forall|p: nat| off <= p < off + r.len() implies #[trigger] covered(chunks, p) by {
                lemma_covered_past_first(chunks, p);
            }
            lemma_covered_past_first(chunks, off + r.len());
        } else if c.offset() <= off {
            lemma_run_bytes(rest, c.end());
            let r = run_bytes(chunks, off);
            let head = c.bytes().skip(off - c.offset());
            assert(r == head + run_bytes(rest, c.end()));
            assert forall|i: int| 0 <= i < r.len() implies #[trigger] r[i] == byte_at(
                chunks,
                (off + i) as nat,
            ) by {
                if i < head.len() {
                    assert(chunks[0].covers((off + i) as nat));
                } else {
                    let j = i - head.len();
                    assert(head.len() == c.end() - off);
                    assert((off + i) as nat == (c.end() + j) as nat);
                    assert(r[i] == run_bytes(rest, c.end())[j]);
                    lemma_covered_past_first(chunks, (off + i) as nat);
                }
            }
            assert forall|p: nat| off <= p < off + r.len() implies #[trigger] covered(chunks, p) by {
                if p < c.end() {
                    assert(chunks[0].covers(p));
                } else {
                    lemma_covered_past_first(chunks, p);
                }
            }
            lemma_covered_past_first(chunks, off + r.len());
        } else {
            assert(run_bytes(chunks, off).len() == 0);
            assert forall|i: int| 0 <= i < chunks.len() implies !(#[trigger] chunks[i].covers(off)) by {
                if i > 0 {
                    assert(chunks[0].offset() <= chunks[i].offset());
                }
            }
        }
    }
}

/// Where the part of `buf` at or past `next` starts.
pub open spec fn trim_start(buf: RangeBuf, next: nat) -> nat {
    if buf.offset() < next {
        next
    } else {
        buf.offset()
    }
}

/// `new` is `old` with one chunk, starting at `off` and holding `data`,
/// inserted at index `k`: after every chunk that starts at or before `off`
/// and before every chunk that starts past it.
pub open spec fn inserted_at(old: Seq<RangeBuf>, new: Seq<RangeBuf>, k: int, off: nat, data: Seq<u8>) -> bool {
    &&& 0 <= k <= old.len()
    &&& new.len() == old.len() + 1
    &&& forall|j: int| 0 <= j < k ==> #[trigger] new[j] == old[j]
    &&& forall|j: int| k < j < new.len() ==> #[trigger] new[j] == old[j - 1]
    &&& new[k].offset() == off
    &&& new[k].bytes() == data
    &&& forall|j: int| 0 <= j < k ==> #[trigger] old[j].offset() <= off
    &&& forall|j: int| k <= j < old.len() ==> #[trigger] old[j].offset() > off
}

/// Inserting where `inserted_at` says keeps the chunks sorted and within
/// the bounds `lo` and `hi`.
proof fn lemma_insert_keeps_order(old: Seq<RangeBuf>, new: Seq<RangeBuf>, k: int, off: nat, data: Seq<u8>, lo: nat, hi: nat)
    requires
        sorted(old),
        inserted_at(old, new, k, off, data),
        lo <= off,
        data.len() > 0,
        off + data.len() <= hi,
        forall|i: int|
            0 <= i < old.len() ==> {
                &&& (#[trigger] old[i]).offset() >= lo
                &&& old[i].bytes().len() > 0
                &&& old[i].end() <= hi
            },
    ensures
        sorted(new),
        forall|i: int|
            0 <= i < new.len() ==> {
                &&& (#[trigger] new[i]).offset() >= lo
                &&& new[i].bytes().len() > 0
                &&& new[i].end() <= hi
            },
{
    assert forall|i: int, j: int| 0 <= i < j < new.len() implies
        #[trigger] new[i].offset() <= #[trigger] new[j].offset() by {
        if j < k {
            assert(new[i] == old[i] && new[j] == old[j]);
        } else if j == k {
            assert(new[i] == old[i]);
        } else if i < k {
            assert(new[i] == old[i] && new[j] == old[j - 1]);
            assert(old[i].offset() <= old[j - 1].offset());
        } else if i == k {
            assert(new[j] == old[j - 1]);
        } else {
            assert(new[i] == old[i - 1] && new[j] == old[j - 1]);
            assert(old[i - 1].offset() <= old[j - 1].offset());
        }
    }
    assert forall|i: int| 0 <= i < new.len() implies {
        &&& (#[trigger] new[i]).offset() >= lo
        &&& new[i].bytes().len() > 0
        &&& new[i].end() <= hi
    } by {
        if i < k {
            assert(new[i] == old[i]);
        } else if i > k {
            assert(new[i] == old[i - 1]);
        }
    }
}

/// Receive-side reassembly buffer: holds out-of-order chunks and releases
/// the contiguous run that starts at the next expected offset.
#[derive(Debug)]
pub struct RecvBuf {
    data: Vec<RangeBuf>,
    off: usize,
    len: usize,
}

/// What `RecvBuf::push` does: the next offset stays, the extent grows to
/// cover `buf`, and the part of `buf` past the next offset, if it has any
/// bytes, joins the pending chunks in offset order.
pub open spec fn pushed(old: RecvBuf, buf: RangeBuf, new: RecvBuf) -> bool {
    &&& new.next_offset() == old.next_offset()
    &&& new.extent() == if buf.end() > old.next_offset() + old.extent() {
        (buf.end() - old.next_offset()) as nat
    } else {
        old.extent()
    }
    &&& buf.end() <= old.next_offset() || buf.bytes().len() == 0 ==> new.chunks() == old.chunks()
    &&& buf.end() > old.next_offset() && buf.bytes().len() > 0 ==> exists|k: int|
        #[trigger] inserted_at(
            old.chunks(),
            new.chunks(),
            k,
            trim_start(buf, old.next_offset()),
            buf.bytes().skip(trim_start(buf, old.next_offset()) - buf.offset()),
        )
}

/// What `RecvBuf::pop` does: `r` holds, from the next offset on, the bytes
/// of every position that the pending chunks cover without a gap, each from
/// the first chunk that covers it, and stops at the first position they do
/// not cover; the buffer moves past those bytes.
pub open spec fn popped(old: RecvBuf, new: RecvBuf, r: RangeBuf) -> bool {
    &&& r.offset() == old.next_offset()
    &&& r.bytes() == old.pending_run()
    &&& new.chunks() == old.chunks().skip(run_count(old.chunks(), old.next_offset()) as int)
    &&& new.next_offset() == old.next_offset() + r.bytes().len()
    &&& new.extent() == old.extent() - r.bytes().len()
    &&& !old.ready_spec() ==> r.bytes().len() == 0 && new.chunks() == old.chunks()
    &&& r.bytes().len() > 0 <==> old.ready_spec()
    &&& forall|p: nat|
        old.next_offset() <= p < old.next_offset() + r.bytes().len() ==> #[trigger] covered(
            old.chunks(),
            p,
        )
    &&& forall|i: int|
        0 <= i < r.bytes().len() ==> #[trigger] r.bytes()[i] == byte_at(
            old.chunks(),
            (old.next_offset() + i) as nat,
        )
    &&& !covered(old.chunks(), old.next_offset() + r.bytes().len())
}

impl RecvBuf {
    /// Pending chunks, lowest offset first.
    pub closed spec fn chunks(&self) -> Seq<RangeBuf> {
        self.data@
    }

    /// Next stream offset the reader expects.
    pub closed spec fn next_offset(&self) -> nat {
        self.off as nat
    }

    /// Span buffered past the next expected offset, gaps included.
    pub closed spec fn extent(&self) -> nat {
        self.len as nat
    }

    /// The pending chunks are sorted by offset, none is empty, each starts
    /// at or past the next expected offset and ends within the extent, and
    /// the end of the extent fits in a `usize`.
    pub open spec fn wf(&self) -> bool {
        &&& sorted(self.chunks())
        &&& self.next_offset() + self.extent() <= usize::MAX
        &&& forall|i: int|
            0 <= i < self.chunks().len() ==> {
                &&& (#[trigger] self.chunks()[i]).offset() >= self.next_offset()
                &&& self.chunks()[i].bytes().len() > 0
                &&& self.chunks()[i].end() <= self.next_offset() + self.extent()
            }
    }

    /// The chunk at the lowest offset starts exactly at the next expected offset.
    pub open spec fn ready_spec(&self) -> bool {
        self.chunks().len() > 0 && self.chunks()[0].offset() == self.next_offset()
    }

    /// What `pop` hands out in this state.
    pub open spec fn pending_run(&self) -> Seq<u8> {
        run_bytes(self.chunks(), self.next_offset())
    }

    pub fn new() -> (r: RecvBuf)
        ensures
            r.wf(),
            r.chunks().len() == 0,
            r.next_offset() == 0,
            r.extent() == 0,
    {
        RecvBuf { data: Vec::new(), off: 0, len: 0 }
    }

    /// Buffers `buf`. Bytes before the next expected offset were handed out
    /// already and are dropped; a chunk with no bytes left only moves the
    /// extent.
    pub fn push(&mut self, buf: RangeBuf)
        requires
            old(self).wf(),
            buf.wf(),
        ensures
            final(self).wf(),
            pushed(*old(self), buf, *final(self)),
    {
        let start = buf.off();
        let end = start + buf.len();
        if end > self.off && end - self.off > self.len {
            self.len = end - self.off;
        }
        if end <= self.off || buf.len() == 0 {
            return;
        }
        let ghost b = buf;
        let mut chunk = buf;
        if start < self.off {
            let mut head = chunk;
            chunk = head.split_off(self.off - start);
        } else {
            assert(b.bytes().skip(0) =~= b.bytes());
        }
        let ghost old_data = self.data@;
        let mut k = self.data.len();
        while k > 0 && self.data[k - 1].off() > chunk.off()
            invariant
                0 <= k <= self.data@.len(),
                self.data@ == old_data,
                forall|j: int| k <= j < self.data@.len() ==> #[trigger] self.data@[j].offset() > chunk.offset(),
            decreases k,
        {
            k = k - 1;
        }
        proof {
            assert forall|j: int| 0 <= j < k implies #[trigger] old_data[j].offset() <= chunk.offset() by {
                assert(old_data[j].offset() <= old_data[k - 1].offset());
            }
        }
        let ghost c = chunk;
        self.data.insert(k, chunk);
        proof {
            let n = self.data@;
            assert(inserted_at(old_data, n, k as int, c.offset(), c.bytes()));
            lemma_insert_keeps_order(old_data, n, k as int, c.offset(), c.bytes(), self.off as nat, (self.off + self.len) as nat);
            let st = trim_start(b, old(self).next_offset());
            assert(old(self).chunks() == old_data);
            assert(c.offset() == st);
            assert(c.bytes() == b.bytes().skip(st - b.offset()));
            assert(inserted_at(old(self).chunks(), self.chunks(), k as int, st, c.bytes()));
        }
    }

    /// Hands out, as one chunk starting at the next expected offset, every
    /// byte that is contiguous from there, and moves past them.
    pub fn pop(&mut self) -> (r: RangeBuf)
        requires
            old(self).wf(),
        ensures
            final(self).wf(),
            r.wf(),
            popped(*old(self), *final(self), r),
    {
        proof {
            lemma_run_bytes(self.data@, self.off as nat);
            lemma_ready_iff_run_nonempty(*self);
        }
        let start = self.off;
        let ghost c0 = self.data@;
        let ghost n0 = self.off as nat;
        let ghost total = (self.off + self.len) as nat;
        let ghost mut taken: int = 0;
        let mut out: Vec<u8> = Vec::new();
        loop
            invariant
                sorted(self.data@),
                0 <= taken <= c0.len(),
                self.data@ == c0.skip(taken),
                run_count(c0, n0) == taken + run_count(self.data@, self.off as nat),
                out@ + run_bytes(self.data@, self.off as nat) == run_bytes(c0, n0),
                self.off == n0 + out@.len(),
                self.off + self.len == total,
                total <= usize::MAX,
                start == n0,
                forall|i: int|
                    0 <= i < self.data@.len() ==> {
                        &&& (#[trigger] self.data@[i]).end() <= total
                        &&& self.data@[i].bytes().len() > 0
                    },
            ensures
                self.data@.len() == 0 || self.data@[0].offset() > self.off,
            decreases self.data@.len(),
        {
            if self.data.len() == 0 {
                break;
            }
            let front_off = self.data[0].off();
            if front_off > self.off {
                break;
            }
            let ghost d = self.data@;
            let ghost off0 = self.off as nat;
            let mut buf = self.data.remove(0);
            proof {
                assert(self.data@ =~= d.drop_first());
                assert(self.data@ =~= c0.skip(taken + 1));
                taken = taken + 1;
                assert forall|i: int, j: int| 0 <= i < j < self.data@.len() implies
                    #[trigger] self.data@[i].offset() <= #[trigger] self.data@[j].offset() by {
                    assert(d[i + 1].offset() <= d[j + 1].offset());
                }
                assert forall|i: int| 0 <= i < self.data@.len() implies {
                    &&& (#[trigger] self.data@[i]).end() <= total
                    &&& self.data@[i].bytes().len() > 0
                } by {
                    assert(self.data@[i] == d[i + 1]);
                }
            }
            let front_end = front_off + buf.len();
            if front_end > self.off {
                let tail = buf.split_off(self.off - front_off);
                let mut v = tail.into_vec();
                proof {
                    assert(run_bytes(d, off0) == v@ + run_bytes(self.data@, front_end as nat));
                    assert(out@ + v@ + run_bytes(self.data@, front_end as nat) == run_bytes(c0, n0));
                }
                self.len = self.len - (front_end - self.off);
                self.off = front_end;
                out.append(&mut v);
            }
        }
        proof {
            assert(run_bytes(self.data@, self.off as nat) =~= Seq::<u8>::empty());
            assert(out@ =~= run_bytes(c0, n0));
            if !old(self).ready_spec() {
                if c0.len() > 0 {
                    assert(c0[0].offset() > n0);
                }
                assert(run_count(c0, n0) == 0);
                assert(c0.skip(0) =~= c0);
            }
            assert forall|i: int| 0 <= i < self.data@.len() implies (#[trigger] self.data@[i]).offset()
                >= self.off by {
                assert(self.data@[0].offset() <= self.data@[i].offset());
            }
        }
        RangeBuf::from_vec(out, start)
    }

    /// Whether the chunk at the lowest offset starts at the next expected offset.
    pub fn ready(&self) -> (r: bool)
        requires
            self.wf(),
        ensures
            r == self.ready_spec(),
            r <==> exists|i: int|
                0 <= i < self.chunks().len() && #[trigger] self.chunks()[i].offset() == self.next_offset()
                    && forall|j: int|
                    0 <= j < self.chunks().len() ==> self.chunks()[i].offset() <= #[trigger] self.chunks()[j].offset(),
    {
        proof {
            if self.chunks().len() > 0 && self.chunks()[0].offset() == self.next_offset() {
                assert(forall|j: int|
                    0 <= j < self.chunks().len() ==> self.chunks()[0].offset() <= #[trigger] self.chunks()[j].offset());
            }
        }
        if self.data.len() == 0 {
            return false;
        }
        self.data[0].off() == self.off
    }

    /// Span buffered past the next expected offset, gaps included.
    pub fn len(&self) -> (r: usize)
        ensures
            r == self.extent(),
    {
        self.len
    }
}

/// A buffer can be read from exactly when a read would hand out bytes.
pub proof fn lemma_ready_iff_run_nonempty(b: RecvBuf)
    requires
        b.wf(),
    ensures
        b.ready_spec() <==> b.pending_run().len() > 0,
{
    let c = b.chunks();
    if c.len() > 0 {
        assert(c[0].offset() >= b.next_offset() && c[0].bytes().len() > 0);
    }
}

/// Pushing a chunk adds to the covered positions exactly those of its bytes
/// at or past the next expected offset, and takes none away. Coverage is
/// therefore the same whatever the order of the pushes.
pub proof fn lemma_push_coverage(old: RecvBuf, buf: RangeBuf, new: RecvBuf)
    requires
        pushed(old, buf, new),
    ensures
        forall|p: nat|
            #[trigger] covered(new.chunks(), p) <==> (covered(old.chunks(), p) || (p
                >= old.next_offset() && buf.covers(p))),
{
    let next = old.next_offset();
    if buf.end() > next && buf.bytes().len() > 0 {
        let st = trim_start(buf, next);
        let data = buf.bytes().skip(st - buf.offset());
        let k = choose|k: int| #[trigger] inserted_at(old.chunks(), new.chunks(), k, st, data);
        let o = old.chunks();
        let n = new.chunks();
        assert forall|p: nat| #[trigger] covered(n, p) <==> (covered(o, p) || (p >= next && buf.covers(p))) by {
            if covered(n, p) {
                let i = choose|i: int| 0 <= i < n.len() && #[trigger] n[i].covers(p);
                if i < k {
                    assert(o[i].covers(p));
                } else if i > k {
                    assert(o[i - 1].covers(p));
                }
            }
            if covered(o, p) {
                let i = choose|i: int| 0 <= i < o.len() && #[trigger] o[i].covers(p);
                if i < k {
                    assert(n[i].covers(p));
                } else {
                    assert(n[i + 1] == o[i]);
                    assert(n[i + 1].covers(p));
                }
            }
            if p >= next && buf.covers(p) {
                assert(n[k].covers(p));
            }
        }
    }
}

/// The extent never shrinks on a push, and shrinks on a pop by exactly the
/// number of bytes that pop handed out.
pub proof fn lemma_extent_accounting(
    before_push: RecvBuf,
    buf: RangeBuf,
    after_push: RecvBuf,
    before_pop: RecvBuf,
    after_pop: RecvBuf,
    r: RangeBuf,
)
    requires
        pushed(before_push, buf, after_push),
        popped(before_pop, after_pop, r),
    ensures
        after_push.extent() >= before_push.extent(),
        after_pop.extent() + r.bytes().len() == before_pop.extent(),
{
}

} // verus!
