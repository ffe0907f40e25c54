//! Sequential byte streams: the external collaborators of the streaming
//! transfer operations. A source hands bytes out in order; a sink accepts
//! bytes in order up to its remaining room. The traits pin down exactly
//! what a transfer may assume: a source delivers everything it still
//! holds, up to the requested length, and a sink accepts everything
//! offered, up to its room; a transfer is short only when the stream
//! itself ran dry.

use vstd::prelude::*;
use vstd::slice::{slice_subrange, slice_to_vec};

verus! {

/// A sequential source of bytes.
pub trait ByteSource {
    /// The bytes this source will still deliver, in order.
    spec fn remaining(&self) -> Seq<u8>;

    /// Delivers the next `max` bytes, or all remaining bytes if fewer are
    /// left; the source advances past exactly what it delivered.
    fn pull(&mut self, max: usize) -> (r: Vec<u8>)
        ensures
            r@.len() == if max <= old(self).remaining().len() {
                max as int
            } else {
                old(self).remaining().len() as int
            },
            r@ == old(self).remaining().take(r@.len() as int),
            final(self).remaining() == old(self).remaining().skip(r@.len() as int),
    ;
}

/// A sequential sink of bytes.
pub trait ByteSink {
    /// The bytes this sink has accepted so far, in order.
    spec fn accepted(&self) -> Seq<u8>;

    /// How many more bytes this sink will accept.
    spec fn room(&self) -> nat;

    /// Accepts a prefix of `buf`: all of it if it fits in the remaining
    /// room, else exactly as much as the room allows. Returns how many
    /// bytes were accepted.
    fn push(&mut self, buf: &[u8]) -> (n: usize)
        ensures
            n == if buf@.len() <= old(self).room() {
                buf@.len() as int
            } else {
                old(self).room() as int
            },
            final(self).accepted() == old(self).accepted() + buf@.take(n as int),
            final(self).room() == old(self).room() - n,
    ;
}

/// A source reading from an in-memory byte vector, front to back.
pub struct VecSource {
    data: Vec<u8>,
    pos: usize,
}

impl VecSource {
    #[verifier::type_invariant]
    spec fn inv(self) -> bool {
        self.pos <= self.data.len()
    }

    /// A source that will deliver exactly the bytes of `data`.
    pub fn new(data: Vec<u8>) -> (s: VecSource)
        ensures
            s.remaining() == data@,
    {
        VecSource { data, pos: 0 }
    }
}

impl ByteSource for VecSource {
    closed spec fn remaining(&self) -> Seq<u8> {
        self.data@.skip(self.pos as int)
    }

    fn pull(&mut self, max: usize) -> (r: Vec<u8>) {
        proof {
            use_type_invariant(&*self);
        }
        let left = self.data.len() - self.pos;
        let n = if max <= left {
            max
        } else {
            left
        };
        let r = slice_to_vec(slice_subrange(self.data.as_slice(), self.pos, self.pos + n));
        self.pos = self.pos + n;
        proof {
            assert(r@ =~= old(self).remaining().take(n as int));
            assert(self.remaining() =~= old(self).remaining().skip(n as int));
        }
        r
    }
}

/// A sink appending to an in-memory byte vector, with room bounded only
/// by the address space.
pub struct VecSink {
    data: Vec<u8>,
}

impl VecSink {
    /// An empty sink.
    pub fn new() -> (s: VecSink)
        ensures
            s.accepted() == Seq::<u8>::empty(),
    {
        VecSink { data: Vec::new() }
    }

    /// The bytes accepted so far.
    pub fn bytes(&self) -> (r: &Vec<u8>)
        ensures
            r@ == self.accepted(),
    {
        &self.data
    }

    /// Hands the accepted bytes back to the caller.
    pub fn into_bytes(self) -> (r: Vec<u8>)
        ensures
            r@ == self.accepted(),
    {
        self.data
    }
}

impl ByteSink for VecSink {
    closed spec fn accepted(&self) -> Seq<u8> {
        self.data@
    }

    closed spec fn room(&self) -> nat {
        (usize::MAX - self.data.len()) as nat
    }

    fn push(&mut self, buf: &[u8]) -> (n: usize) {
        let room = usize::MAX - self.data.len();
        let n = if buf.len() <= room {
            buf.len()
        } else {
            room
        };
        let mut i: usize = 0;
        while i < n
            invariant
                n <= buf@.len(),
                0 <= i <= n,
                self.data@.len() == old(self).data@.len() + i,
                n + old(self).data@.len() <= usize::MAX,
                self.data@ == old(self).data@ + buf@.take(i as int),
            decreases n - i,
        {
            let b = *vstd::slice::slice_index_get(buf, i);
            self.data.push(b);
            proof {
                assert(self.data@ =~= old(self).data@ + buf@.take(i + 1));
            }
            i += 1;
        }
        n
    }
}

/// A sink that accepts at most a fixed number of bytes and then runs dry:
/// the shape of a destination that an exact-length transfer can overrun.
pub struct BoundedSink {
    data: Vec<u8>,
    room_left: usize,
}

impl BoundedSink {
    /// An empty sink that will accept at most `limit` bytes in total.
    pub fn new(limit: usize) -> (s: BoundedSink)
        ensures
            s.accepted() == Seq::<u8>::empty(),
            s.room() == limit,
    {
        BoundedSink { data: Vec::new(), room_left: limit }
    }

    /// The bytes accepted so far.
    pub fn bytes(&self) -> (r: &Vec<u8>)
        ensures
            r@ == self.accepted(),
    {
        &self.data
    }
}

impl ByteSink for BoundedSink {
    closed spec fn accepted(&self) -> Seq<u8> {
        self.data@
    }

    closed spec fn room(&self) -> nat {
        self.room_left as nat
    }

    fn push(&mut self, buf: &[u8]) -> (n: usize) {
        let n = if buf.len() <= self.room_left {
            buf.len()
        } else {
            self.room_left
        };
        let mut i: usize = 0;
        while i < n
            invariant
                n <= buf@.len(),
                0 <= i <= n,
                n <= old(self).room_left,
                self.room_left == old(self).room_left,
                self.data@ == old(self).data@ + buf@.take(i as int),
            decreases n - i,
        {
            let b = *vstd::slice::slice_index_get(buf, i);
            self.data.push(b);
            proof {
                assert(self.data@ =~= old(self).data@ + buf@.take(i + 1));
            }
            i += 1;
        }
        self.room_left = self.room_left - n;
        n
    }
}

} // verus!
