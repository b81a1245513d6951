use vstd::prelude::*;

use crate::range_buf::RangeBuf;

verus! {

/// The payloads of `chunks`, one after the other.
pub open spec fn concat(chunks: Seq<RangeBuf>) -> Seq<u8>
    decreases chunks.len(),
{
    if chunks.len() == 0 {
        Seq::empty()
    } else {
        chunks[0].bytes() + concat(chunks.drop_first())
    }
}

/// Each chunk starts where the one before it ends, the first at `start`.
pub open spec fn contiguous(chunks: Seq<RangeBuf>, start: nat) -> bool
    decreases chunks.len(),
{
    chunks.len() == 0 || (chunks[0].offset() == start && contiguous(
        chunks.drop_first(),
        start + chunks[0].bytes().len(),
    ))
}

proof fn lemma_push_back(chunks: Seq<RangeBuf>, start: nat, c: RangeBuf)
    requires
        contiguous(chunks, start),
        c.offset() == start + concat(chunks).len(),
    ensures
        concat(chunks.push(c)) == concat(chunks) + c.bytes(),
        contiguous(chunks.push(c), start),
    decreases chunks.len(),
{
    if chunks.len() == 0 {
        let s = chunks.push(c);
        assert(s.drop_first() =~= Seq::<RangeBuf>::empty());
        assert(s[0] == c);
        assert(concat(s.drop_first()) == Seq::<u8>::empty());
        assert(contiguous(s.drop_first(), start + c.bytes().len()));
        assert(concat(s) =~= c.bytes());
    } else {
        let rest = chunks.drop_first();
        lemma_push_back(rest, start + chunks[0].bytes().len(), c);
        assert(chunks.push(c).drop_first() =~= rest.push(c));
        assert(chunks.push(c)[0] == chunks[0]);
        assert(concat(chunks.push(c)) =~= concat(chunks) + c.bytes());
    }
}

/// Send-side segmentation buffer: keeps application writes in order and
/// hands them out in pieces that fit a byte budget.
#[derive(Debug)]
pub struct SendBuf {
    data: Vec<RangeBuf>,
    off: usize,
    len: usize,
}

/// What `SendBuf::push` does: `data` joins the unsent bytes at the write
/// offset, which is returned and then moves past them.
pub open spec fn written(old: SendBuf, data: Seq<u8>, new: SendBuf, r: usize) -> bool {
    &&& r == old.write_offset()
    &&& new.write_offset() == old.write_offset() + data.len()
    &&& new.unsent() == old.unsent() + data
}

/// What `SendBuf::pop` does: `r` holds the first `min(max_len, unsent)`
/// unsent bytes, starting at the read offset, and they leave the buffer.
pub open spec fn segmented(old: SendBuf, max_len: nat, new: SendBuf, r: RangeBuf) -> bool {
    &&& r.offset() == old.read_offset()
    &&& r.bytes().len() == if max_len < old.unsent().len() {
        max_len
    } else {
        old.unsent().len()
    }
    &&& r.bytes() == old.unsent().take(r.bytes().len() as int)
    &&& new.unsent() == old.unsent().skip(r.bytes().len() as int)
    &&& new.write_offset() == old.write_offset()
}

impl SendBuf {
    /// Bytes written and not yet handed out, in stream order.
    pub closed spec fn unsent(&self) -> Seq<u8> {
        concat(self.data@)
    }

    /// Stream offset that the next write gets.
    pub closed spec fn write_offset(&self) -> nat {
        self.off as nat
    }

    /// Stream offset of the first unsent byte.
    pub open spec fn read_offset(&self) -> nat {
        (self.write_offset() - self.unsent().len()) as nat
    }

    /// Pending chunks, oldest first.
    pub closed spec fn chunks(&self) -> Seq<RangeBuf> {
        self.data@
    }

    /// The unsent byte count as the buffer keeps it.
    pub closed spec fn count(&self) -> nat {
        self.len as nat
    }

    /// The kept count is the number of unsent bytes, no more than the write
    /// offset, and the pending chunks lie back to back from the read offset.
    pub open spec fn wf(&self) -> bool {
        &&& self.count() == self.unsent().len()
        &&& self.unsent().len() <= self.write_offset()
        &&& contiguous(self.chunks(), self.read_offset())
    }

    pub fn new() -> (r: SendBuf)
        ensures
            r.wf(),
            r.unsent().len() == 0,
            r.write_offset() == 0,
    {
        SendBuf { data: Vec::new(), off: 0, len: 0 }
    }

    /// Appends `data` at the write offset and returns that offset.
    pub fn push(&mut self, data: &[u8]) -> (r: usize)
        requires
            old(self).wf(),
            old(self).write_offset() + data@.len() <= usize::MAX,
        ensures
            final(self).wf(),
            written(*old(self), data@, *final(self), r),
    {
        let at = self.off;
        let buf = RangeBuf::from(data, at);
        proof {
            lemma_push_back(self.data@, (self.off - self.len) as nat, buf);
        }
        self.data.push(buf);
        self.off = self.off + data.len();
        self.len = self.len + data.len();
        at
    }

    /// Hands out the first `min(max_len, unsent)` unsent bytes as one chunk
    /// at the read offset. A chunk longer than what is left of the budget is
    /// split, and its remainder stays first in line.
    pub fn pop(&mut self, max_len: usize) -> (r: RangeBuf)
        requires
            old(self).wf(),
        ensures
            final(self).wf(),
            r.wf(),
            segmented(*old(self), max_len as nat, *final(self), r),
    {
        let start = self.off - self.len;
        let ghost all = concat(self.data@);
        let mut out: Vec<u8> = Vec::new();
        let mut remaining = max_len;
        while remaining > 0 && self.data.len() > 0
            invariant
                self.len == concat(self.data@).len(),
                self.len <= self.off,
                contiguous(self.data@, (self.off - self.len) as nat),
                out@ + concat(self.data@) == all,
                out@.len() + remaining == max_len,
                self.off - self.len == start + out@.len(),
                self.off == old(self).off,
            ensures
                remaining == 0 || self.data@.len() == 0,
            decreases self.data@.len() + remaining,
        {
            let ghost d = self.data@;
            let mut buf = self.data.remove(0);
            assert(self.data@ =~= d.drop_first());
            let n = buf.len();
            if n <= remaining {
                let mut v = buf.into_vec();
                out.append(&mut v);
                remaining = remaining - n;
                self.len = self.len - n;
            } else {
                let rest = buf.split_off(remaining);
                let mut v = buf.into_vec();
                proof {
                    assert(d[0].bytes() =~= v@ + rest.bytes());
                    assert(self.data@.insert(0, rest).drop_first() =~= self.data@);
                }
                self.data.insert(0, rest);
                out.append(&mut v);
                self.len = self.len - remaining;
                remaining = 0;
            }
        }
        proof {
            if self.data@.len() == 0 {
                assert(out@ =~= all);
            }
            assert(out@ =~= all.take(out@.len() as int));
            assert(concat(self.data@) =~= all.skip(out@.len() as int));
        }
        RangeBuf::from_vec(out, start)
    }

    /// Whether any written byte is still unsent.
    pub fn ready(&self) -> (r: bool)
        requires
            self.wf(),
        ensures
            r <==> self.unsent().len() > 0,
    {
        self.len > 0
    }

    /// Number of unsent bytes.
    pub fn len(&self) -> (r: usize)
        requires
            self.wf(),
        ensures
            r == self.unsent().len(),
    {
        self.len
    }
}

/// The unsent count grows on a push by the bytes written and shrinks on a
/// pop by the bytes handed out, so it always equals what was written minus
/// what was handed out.
pub proof fn lemma_unsent_accounting(
    before_push: SendBuf,
    data: Seq<u8>,
    after_push: SendBuf,
    at: usize,
    before_pop: SendBuf,
    max_len: nat,
    after_pop: SendBuf,
    r: RangeBuf,
)
    requires
        written(before_push, data, after_push, at),
        segmented(before_pop, max_len, after_pop, r),
    ensures
        after_push.unsent().len() == before_push.unsent().len() + data.len(),
        after_pop.unsent().len() + r.bytes().len() == before_pop.unsent().len(),
        r.bytes().len() <= max_len,
{
}

/// Total length of `parts`.
pub open spec fn total_len(parts: Seq<Seq<u8>>) -> nat
    decreases parts.len(),
{
    if parts.len() == 0 {
        0
    } else {
        total_len(parts.drop_last()) + parts.last().len()
    }
}

/// One call on a send buffer taking it from `before` to `after`: a push of
/// `wrote` (and `handed` is empty), or a pop that handed out `handed` (and
/// `wrote` is empty).
pub open spec fn send_step(before: SendBuf, wrote: Seq<u8>, handed: Seq<u8>, after: SendBuf) -> bool {
    ||| handed.len() == 0 && exists|at: usize| #[trigger] written(before, wrote, after, at)
    ||| wrote.len() == 0 && exists|m: nat, r: RangeBuf|
        #[trigger] segmented(before, m, after, r) && r.bytes() == handed
}

/// Over any sequence of pushes and pops from an empty buffer, the unsent
/// count equals the bytes pushed minus the bytes popped.
pub proof fn lemma_unsent_over_calls(s: Seq<SendBuf>, wrote: Seq<Seq<u8>>, handed: Seq<Seq<u8>>)
    requires
        s.len() == wrote.len() + 1,
        handed.len() == wrote.len(),
        s[0].unsent().len() == 0,
        forall|i: int| 0 <= i < wrote.len() ==> #[trigger] send_step(s[i], wrote[i], handed[i], s[i + 1]),
    ensures
        s.last().unsent().len() + total_len(handed) == total_len(wrote),
    decreases wrote.len(),
{
    if wrote.len() > 0 {
        let n = wrote.len() - 1;
        let s0 = s.drop_last();
        assert forall|i: int| 0 <= i < wrote.drop_last().len() implies #[trigger] send_step(
            s0[i],
            wrote.drop_last()[i],
            handed.drop_last()[i],
            s0[i + 1],
        ) by {
            assert(send_step(s[i], wrote[i], handed[i], s[i + 1]));
        }
        lemma_unsent_over_calls(s0, wrote.drop_last(), handed.drop_last());
        assert(send_step(s[n], wrote[n], handed[n], s[n + 1]));
    }
}

} // verus!
