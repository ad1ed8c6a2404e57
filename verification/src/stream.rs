//! An in-memory byte stream that the frame and request readers consume.

use vstd::prelude::*;

verus! {

/// Bytes read front to back, as from a socket: frames and request lines are
/// read from one of these.
pub struct ByteStream {
    bytes: Vec<u8>,
    position: usize,
}

impl View for ByteStream {
    type V = Seq<u8>;

    /// The bytes not read yet.
    closed spec fn view(&self) -> Seq<u8> {
        self.bytes@.skip(self.position as int)
    }
}

impl ByteStream {
    pub closed spec fn wf(&self) -> bool {
        self.position <= self.bytes@.len()
    }

    pub fn new(bytes: Vec<u8>) -> (stream: ByteStream)
        ensures
            stream.wf(),
            stream@ == bytes@,
    {
        let stream = ByteStream { bytes, position: 0 };
        assert(stream.bytes@.skip(0) =~= stream.bytes@);
        stream
    }

    /// Number of bytes not read yet.
    pub fn remaining(&self) -> (n: usize)
        requires
            self.wf(),
        ensures
            n == self@.len(),
    {
        self.bytes.len() - self.position
    }

    /// Reads exactly `count` bytes, or nothing when fewer are left.
    pub fn read_exact(&mut self, count: usize) -> (r: Option<Vec<u8>>)
        requires
            old(self).wf(),
        ensures
            final(self).wf(),
            count <= old(self)@.len() ==> (r matches Some(bytes) && bytes@ == old(self)@.take(
                count as int,
            ) && final(self)@ == old(self)@.skip(count as int)),
            count > old(self)@.len() ==> r is None && final(self)@ == old(self)@,
    {
        if count > self.bytes.len() - self.position {
            return None;
        }
        let mut out: Vec<u8> = Vec::new();
        let mut i: usize = 0;
        while i < count
            invariant
                self.position + count <= self.bytes.len(),
                i <= count,
                out@ == self.bytes@.subrange(self.position as int, self.position + i),
            decreases count - i,
        {
            out.push(self.bytes[self.position + i]);
            i = i + 1;
        }
        let ghost before = self@;
        self.position = self.position + count;
        assert(out@ =~= before.take(count as int));
        assert(self@ =~= before.skip(count as int));
        Some(out)
    }
}

/// Length of the first line of `bytes`: up to and including the first
/// newline, or all of `bytes` when there is none.
pub open spec fn line_end(bytes: Seq<u8>) -> nat
    decreases bytes.len(),
{
    if bytes.len() == 0 {
        0
    } else if bytes[0] == 10 {
        1
    } else {
        1 + line_end(bytes.drop_first())
    }
}

pub proof fn lemma_line_end_bound(bytes: Seq<u8>)
    ensures
        line_end(bytes) <= bytes.len(),
    decreases bytes.len(),
{
    if bytes.len() > 0 {
        lemma_line_end_bound(bytes.drop_first());
    }
}

impl ByteStream {
    /// Length of the first line within the next `limit` bytes (or fewer, when
    /// fewer are left).
    pub fn line_length(&self, limit: usize) -> (n: usize)
        requires
            self.wf(),
        ensures
            n == line_end(self@.take(if limit <= self@.len() { limit as int } else { self@.len() as int })),
    {
        let available: usize = self.bytes.len() - self.position;
        let window: usize = if limit <= available { limit } else { available };
        let ghost w = self@.take(window as int);
        let mut i: usize = 0;
        assert(w.skip(0) =~= w);
        while i < window && self.bytes[self.position + i] != 10
            invariant
                i <= window,
                window <= self.bytes.len() - self.position,
                w == self.bytes@.skip(self.position as int).take(window as int),
                line_end(w) == i + line_end(w.skip(i as int)),
            decreases window - i,
        {
            assert(w.skip(i as int)[0] == self.bytes@[self.position + i]);
            assert(w.skip(i as int).drop_first() =~= w.skip(i + 1));
            i = i + 1;
        }
        if i < window {
            assert(w.skip(i as int)[0] == 10);
            i + 1
        } else {
            assert(w.skip(i as int).len() == 0);
            i
        }
    }
}

} // verus!
