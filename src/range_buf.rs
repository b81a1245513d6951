use vstd::prelude::*;

verus! {

/// A byte payload tagged with the absolute stream offset of its first byte.
#[derive(Debug)]
pub struct RangeBuf {
    data: Vec<u8>,
    off: usize,
}

impl RangeBuf {
    /// Stream offset of the first byte.
    pub closed spec fn offset(&self) -> nat {
        self.off as nat
    }

    /// The payload.
    pub closed spec fn bytes(&self) -> Seq<u8> {
        self.data@
    }

    /// Stream offset one past the last byte.
    pub open spec fn end(&self) -> nat {
        self.offset() + self.bytes().len()
    }

    /// The end offset is representable as a `usize`.
    pub open spec fn wf(&self) -> bool {
        self.end() <= usize::MAX
    }

    /// Whether stream position `p` lies inside this chunk.
    pub open spec fn covers(&self, p: nat) -> bool {
        self.offset() <= p < self.end()
    }

    /// Copies `buf` into a new chunk starting at stream offset `off`.
    pub fn from(buf: &[u8], off: usize) -> (r: RangeBuf)
        requires
            off + buf@.len() <= usize::MAX,
        ensures
            r.offset() == off,
            r.bytes() == buf@,
            r.wf(),
    {
        RangeBuf { data: vstd::slice::slice_to_vec(buf), off }
    }

    /// Takes ownership of `data` as a chunk starting at stream offset `off`.
    pub fn from_vec(data: Vec<u8>, off: usize) -> (r: RangeBuf)
        requires
            off + data@.len() <= usize::MAX,
        ensures
            r.offset() == off,
            r.bytes() == data@,
            r.wf(),
    {
        RangeBuf { data, off }
    }

    pub fn off(&self) -> (r: usize)
        ensures
            r == self.offset(),
    {
        self.off
    }

    pub fn len(&self) -> (r: usize)
        ensures
            r == self.bytes().len(),
    {
        self.data.len()
    }

    pub fn is_empty(&self) -> (r: bool)
        ensures
            r <==> self.bytes().len() == 0,
    {
        self.data.len() == 0
    }

    /// Read-only view of the payload.
    pub fn as_slice(&self) -> (r: &[u8])
        ensures
            r@ == self.bytes(),
    {
        self.data.as_slice()
    }

    /// Gives up the chunk and returns its payload.
    pub fn into_vec(self) -> (r: Vec<u8>)
        ensures
            r@ == self.bytes(),
    {
        self.data
    }

    /// Keeps the first `at` bytes and returns the rest as a chunk that starts
    /// `at` bytes further into the stream.
    pub fn split_off(&mut self, at: usize) -> (r: RangeBuf)
        requires
            old(self).wf(),
            at <= old(self).bytes().len(),
        ensures
            final(self).offset() == old(self).offset(),
            final(self).bytes() == old(self).bytes().take(at as int),
            r.offset() == old(self).offset() + at,
            r.bytes() == old(self).bytes().skip(at as int),
            final(self).wf(),
            r.wf(),
    {
        let tail = self.data.split_off(at);
        RangeBuf { data: tail, off: self.off + at }
    }
}

impl std::ops::Deref for RangeBuf {
    type Target = [u8];

    fn deref(&self) -> (r: &[u8])
        ensures
            r@ == self.bytes(),
    {
        self.data.as_slice()
    }
}

} // verus!
