use vstd::prelude::*;

use crate::range_buf::RangeBuf;
use crate::recv_buf::{popped, pushed, RecvBuf};
use crate::send_buf::{segmented, written, SendBuf};

verus! {

/// One stream of a connection: a receive buffer and a send buffer.
pub struct Stream {
    recv: RecvBuf,
    send: SendBuf,
}

impl Stream {
    #[verifier::type_invariant]
    spec fn inv(&self) -> bool {
        self.recv.wf() && self.send.wf()
    }

    pub closed spec fn recv_buf(&self) -> RecvBuf {
        self.recv
    }

    pub closed spec fn send_buf(&self) -> SendBuf {
        self.send
    }

    /// Nothing received, nothing written.
    pub open spec fn is_fresh(&self) -> bool {
        &&& self.recv_buf().chunks().len() == 0
        &&& self.recv_buf().next_offset() == 0
        &&& self.recv_buf().extent() == 0
        &&& self.send_buf().unsent().len() == 0
        &&& self.send_buf().write_offset() == 0
    }

    pub fn new() -> (r: Stream)
        ensures
            r.is_fresh(),
    {
        Stream { recv: RecvBuf::new(), send: SendBuf::new() }
    }

    /// Buffers a received chunk.
    pub fn push_recv(&mut self, buf: RangeBuf)
        requires
            buf.wf(),
        ensures
            pushed(old(self).recv_buf(), buf, final(self).recv_buf()),
            final(self).send_buf() == old(self).send_buf(),
    {
        proof {
            use_type_invariant(&*self);
        }
        let mut recv = RecvBuf::new();
        std::mem::swap(&mut recv, &mut self.recv);
        recv.push(buf);
        self.recv = recv;
    }

    /// Takes every byte that is readable in order now (possibly none).
    pub fn pop_recv(&mut self) -> (r: RangeBuf)
        ensures
            popped(old(self).recv_buf(), final(self).recv_buf(), r),
            final(self).send_buf() == old(self).send_buf(),
            r.wf(),
    {
        proof {
            use_type_invariant(&*self);
        }
        let mut recv = RecvBuf::new();
        std::mem::swap(&mut recv, &mut self.recv);
        let r = recv.pop();
        self.recv = recv;
        r
    }

    /// Queues `data` for sending and returns the stream offset it starts at.
    pub fn push_send(&mut self, data: &[u8]) -> (r: usize)
        requires
            old(self).send_buf().write_offset() + data@.len() <= usize::MAX,
        ensures
            written(old(self).send_buf(), data@, final(self).send_buf(), r),
            final(self).recv_buf() == old(self).recv_buf(),
    {
        proof {
            use_type_invariant(&*self);
        }
        let mut send = SendBuf::new();
        std::mem::swap(&mut send, &mut self.send);
        let r = send.push(data);
        self.send = send;
        r
    }

    /// Takes at most `max_len` queued bytes for sending.
    pub fn pop_send(&mut self, max_len: usize) -> (r: RangeBuf)
        ensures
            segmented(old(self).send_buf(), max_len as nat, final(self).send_buf(), r),
            final(self).recv_buf() == old(self).recv_buf(),
            r.wf(),
    {
        proof {
            use_type_invariant(&*self);
        }
        let mut send = SendBuf::new();
        std::mem::swap(&mut send, &mut self.send);
        let r = send.pop(max_len);
        self.send = send;
        r
    }

    /// Whether a read now would hand out at least one byte.
    pub fn can_read(&self) -> (r: bool)
        ensures
            r == self.recv_buf().ready_spec(),
            r <==> self.recv_buf().pending_run().len() > 0,
    {
        proof {
            use_type_invariant(self);
            crate::recv_buf::lemma_ready_iff_run_nonempty(self.recv);
        }
        self.recv.ready()
    }

    /// Whether any written byte is still unsent.
    pub fn can_write(&self) -> (r: bool)
        ensures
            r <==> self.send_buf().unsent().len() > 0,
    {
        proof {
            use_type_invariant(self);
        }
        self.send.ready()
    }
}

/// The streams of one connection, keyed by stream id.
pub struct StreamTable {
    ids: Vec<u64>,
    streams: Vec<Stream>,
}

impl StreamTable {
    /// Stream ids, in the order the streams were created.
    pub closed spec fn ids(&self) -> Seq<u64> {
        self.ids@
    }

    /// The stream of `ids()[i]` is `streams()[i]`.
    pub closed spec fn streams(&self) -> Seq<Stream> {
        self.streams@
    }

    pub closed spec fn wf(&self) -> bool {
        self.ids@.len() == self.streams@.len() && self.ids@.no_duplicates()
    }

    /// Whether the stream at position `i` can be read from.
    pub open spec fn readable_at(&self, i: int) -> bool {
        self.streams()[i].recv_buf().ready_spec()
    }

    pub fn new() -> (r: StreamTable)
        ensures
            r.wf(),
            r.ids().len() == 0,
    {
        StreamTable { ids: Vec::new(), streams: Vec::new() }
    }

    /// Position of `id`, if the table has it.
    fn find(&self, id: u64) -> (r: Option<usize>)
        requires
            self.wf(),
        ensures
            r matches Some(i) ==> i < self.ids().len() && self.ids()[i as int] == id,
            r is None ==> !self.ids().contains(id),
    {
        let mut i: usize = 0;
        while i < self.ids.len()
            invariant
                i <= self.ids@.len(),
                forall|j: int| 0 <= j < i ==> self.ids@[j] != id,
            decreases self.ids@.len() - i,
        {
            if self.ids[i] == id {
                return Some(i);
            }
            i = i + 1;
        }
        None
    }

    /// The stream with id `id`, created fresh at the end of the table if
    /// there was none.
    pub fn get_or_create(&mut self, id: u64) -> (r: &mut Stream)
        requires
            old(self).wf(),
        ensures
            final(self).wf(),
            old(self).ids().contains(id) ==> exists|i: int|
                0 <= i < old(self).ids().len() && old(self).ids()[i] == id && *r
                    == old(self).streams()[i] && final(self).ids() == old(self).ids()
                    && #[trigger] final(self).streams() == old(self).streams().update(i, *final(r)),
            !old(self).ids().contains(id) ==> {
                &&& r.is_fresh()
                &&& final(self).ids() == old(self).ids().push(id)
                &&& final(self).streams() == old(self).streams().push(*final(r))
            },
    {
        let i = match self.find(id) {
            Some(i) => i,
            None => {
                proof {
                    assert forall|a: int, b: int|
                        0 <= a < b < self.ids@.push(id).len() implies self.ids@.push(id)[a]
                        != self.ids@.push(id)[b] by {
                        if b == self.ids@.len() {
                            assert(self.ids@[a] != id);
                        }
                    }
                }
                self.ids.push(id);
                self.streams.push(Stream::new());
                self.streams.len() - 1
            },
        };
        &mut self.streams[i]
    }

    /// The ids of the streams that can be read from now, lazily.
    pub fn readable(&self) -> (r: StreamIterator<'_>)
        requires
            self.wf(),
        ensures
            r.table() == *self,
            r.pos() == 0,
    {
        StreamIterator::new(self)
    }

    /// Every id whose stream can be read from now, each once, in table order.
    pub fn readable_ids(&self) -> (r: Vec<u64>)
        requires
            self.wf(),
        ensures
            r@.no_duplicates(),
            forall|id: u64|
                r@.contains(id) <==> exists|i: int|
                    0 <= i < self.ids().len() && self.ids()[i] == id && #[trigger] self.readable_at(i),
    {
        let mut it = self.readable();
        let mut out: Vec<u64> = Vec::new();
        loop
            invariant
                it.table() == *self,
                self.wf(),
                it.pos() <= self.ids().len(),
                out@.no_duplicates(),
                forall|x: u64| out@.contains(x) <==> exists|i: int|
                    0 <= i < it.pos() && self.ids()[i] == x && #[trigger] self.readable_at(i),
            ensures
                out@.no_duplicates(),
                forall|x: u64| out@.contains(x) <==> exists|i: int|
                    0 <= i < self.ids().len() && self.ids()[i] == x && #[trigger] self.readable_at(i),
            decreases self.ids().len() - it.pos(),
        {
            let ghost p0 = it.pos();
            match it.next() {
                Some(id) => {
                    proof {
                        let k = choose|k: int| p0 <= k < self.ids().len() && self.ids()[k] == id
                            && self.readable_at(k) && it.pos() == k + 1
                            && forall|j: int| p0 <= j < k ==> !#[trigger] self.readable_at(j);
                        if out@.contains(id) {
                            let i = choose|i: int| 0 <= i < p0 && self.ids()[i] == id && #[trigger] self.readable_at(i);
                            assert(self.ids()[i] == self.ids()[k]);
                        }
                        assert forall|x: u64| out@.push(id).contains(x) <==> exists|i: int|
                            0 <= i < it.pos() && self.ids()[i] == x && #[trigger] self.readable_at(i) by {
                            if out@.push(id).contains(x) && x != id {
                                assert(out@.contains(x));
                            }
                            if exists|i: int| 0 <= i < it.pos() && self.ids()[i] == x && #[trigger] self.readable_at(i) {
                                let i = choose|i: int| 0 <= i < it.pos() && self.ids()[i] == x && #[trigger] self.readable_at(i);
                                if i < p0 {
                                    assert(out@.contains(x));
                                    assert(out@.push(id)[out@.index_of(x)] == x);
                                } else {
                                    assert(i == k);
                                    assert(out@.push(id)[out@.len() as int] == x);
                                }
                            }
                        }
                    }
                    out.push(id);
                },
                None => {
                    proof {
                        assert forall|x: u64| (exists|i: int|
                            0 <= i < self.ids().len() && self.ids()[i] == x && #[trigger] self.readable_at(i))
                            implies out@.contains(x) by {
                            let i = choose|i: int| 0 <= i < self.ids().len() && self.ids()[i] == x && #[trigger] self.readable_at(i);
                            if i >= p0 {
                                assert(!self.readable_at(i));
                            }
                        }
                    }
                    break;
                },
            }
        }
        out
    }
}

/// Walks a stream table and yields the ids of the streams that can be read
/// from, in table order.
pub struct StreamIterator<'a> {
    streams: &'a StreamTable,
    pos: usize,
}

impl<'a> StreamIterator<'a> {
    pub closed spec fn table(&self) -> StreamTable {
        *self.streams
    }

    /// How far into the table the walk has come.
    pub closed spec fn pos(&self) -> nat {
        self.pos as nat
    }

    pub fn new(streams: &'a StreamTable) -> (r: StreamIterator<'a>)
        ensures
            r.table() == *streams,
            r.pos() == 0,
    {
        StreamIterator { streams, pos: 0 }
    }

    /// The next readable stream's id, or `None` once the walk is done.
    pub fn next(&mut self) -> (r: Option<u64>)
        requires
            old(self).table().wf(),
            old(self).pos() <= old(self).table().ids().len(),
        ensures
            final(self).table() == old(self).table(),
            final(self).pos() <= final(self).table().ids().len(),
            r matches Some(id) ==> exists|k: int|
                old(self).pos() <= k < old(self).table().ids().len() && old(self).table().ids()[k] == id
                    && old(self).table().readable_at(k) && final(self).pos() == k + 1
                    && forall|j: int| old(self).pos() <= j < k ==> !#[trigger] old(self).table().readable_at(j),
            r is None ==> final(self).pos() == old(self).table().ids().len()
                && forall|j: int| old(self).pos() <= j < old(self).table().ids().len() ==> !#[trigger] old(self).table().readable_at(j),
    {
        let n = self.streams.ids.len();
        while self.pos < n
            invariant
                self.streams == old(self).streams,
                self.streams.wf(),
                n == self.streams.ids@.len(),
                old(self).pos <= self.pos <= n,
                forall|j: int| old(self).pos <= j < self.pos ==> !#[trigger] self.streams.readable_at(j),
            decreases n - self.pos,
        {
            let k = self.pos;
            self.pos = self.pos + 1;
            if self.streams.streams[k].can_read() {
                proof {
                    let t = old(self).table();
                    assert(t == *self.streams);
                    assert(t.readable_at(k as int));
                    assert(t.ids()[k as int] == self.streams.ids@[k as int]);
                    assert(forall|j: int| old(self).pos() <= j < k ==> !#[trigger] t.readable_at(j));
                }
                return Some(self.streams.ids[k]);
            }
        }
        None
    }
}

} // verus!
