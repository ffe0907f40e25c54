//! A memory mapping: one contiguous, fixed-size range of bytes,
//! established at construction and never resized, with bounds-checked
//! byte, typed-object and streaming access. This is the only layer that
//! touches the raw bytes; everything above resolves addresses and
//! delegates here.

use vstd::prelude::*;
use vstd::slice::{slice_subrange, slice_to_vec};
use crate::data_init::DataInit;
use crate::errors::{Error, MemResult};
use crate::stream::{ByteSink, ByteSource};

verus! {

/// The bytes of `s` with `data` laid over them starting at `off`: the
/// mathematical effect of every write in this crate. Bytes outside
/// `[off, off + data.len())` are untouched.
pub open spec fn write_range(s: Seq<u8>, off: int, data: Seq<u8>) -> Seq<u8> {
    Seq::new(
        s.len(),
        |j: int|
            if off <= j < off + data.len() {
                data[j - off]
            } else {
                s[j]
            },
    )
}

/// One host memory mapping of fixed size. Its view is the sequence of
/// bytes it holds.
#[derive(Debug)]
pub struct MemoryMapping {
    bytes: Vec<u8>,
}

impl View for MemoryMapping {
    type V = Seq<u8>;

    closed spec fn view(&self) -> Seq<u8> {
        self.bytes@
    }
}

impl MemoryMapping {
    /// A fresh zero-filled mapping of `size` bytes. A zero-length mapping
    /// is refused; any positive size succeeds.
    pub fn new(size: usize) -> (r: MemResult<MemoryMapping>)
        ensures
            match r {
                Ok(m) => size > 0 && m@ == Seq::new(size as nat, |j: int| 0u8),
                Err(e) => size == 0 && e == Error::ZeroSize,
            },
    {
        if size == 0 {
            return Err(Error::ZeroSize);
        }
        let bytes = vec![0u8; size];
        proof {
            assert(bytes@ =~= Seq::new(size as nat, |j: int| 0u8));
        }
        Ok(MemoryMapping { bytes })
    }

    /// The fixed size of the mapping, in bytes.
    pub fn size(&self) -> (n: usize)
        ensures
            n == self@.len(),
    {
        self.bytes.len()
    }

    /// The `len` bytes at `offset`. Fails, reading nothing, unless the
    /// whole range lies inside the mapping.
    pub fn read_slice(&self, offset: usize, len: usize) -> (r: MemResult<Vec<u8>>)
        ensures
            match r {
                Ok(v) => offset + len <= self@.len() && v@ == self@.subrange(
                    offset as int,
                    offset + len,
                ),
                Err(e) => offset + len > self@.len() && e == Error::OutOfBounds,
            },
    {
        if offset > self.bytes.len() || len > self.bytes.len() - offset {
            return Err(Error::OutOfBounds);
        }
        Ok(slice_to_vec(slice_subrange(self.bytes.as_slice(), offset, offset + len)))
    }

    /// Lays `buf` over the bytes at `offset`. Fails, changing nothing,
    /// unless the whole range lies inside the mapping; on success exactly
    /// the bytes `[offset, offset + buf.len())` change.
    pub fn write_slice(&mut self, buf: &[u8], offset: usize) -> (r: MemResult<()>)
        ensures
            match r {
                Ok(()) => offset + buf@.len() <= old(self)@.len() && final(self)@ == write_range(
                    old(self)@,
                    offset as int,
                    buf@,
                ),
                Err(e) => offset + buf@.len() > old(self)@.len() && e == Error::OutOfBounds
                    && final(self)@ == old(self)@,
            },
    {
        if offset > self.bytes.len() || buf.len() > self.bytes.len() - offset {
            return Err(Error::OutOfBounds);
        }
        let n = buf.len();
        let mut i: usize = 0;
        while i < n
            invariant
                0 <= i <= n,
                n == buf@.len(),
                offset + n <= usize::MAX,
                offset + n <= old(self).bytes@.len(),
                self.bytes@.len() == old(self).bytes@.len(),
                self.bytes@ == write_range(old(self).bytes@, offset as int, buf@.take(i as int)),
            decreases n - i,
        {
            let b = *vstd::slice::slice_index_get(buf, i);
            self.bytes.set(offset + i, b);
            proof {
                assert(self.bytes@ =~= write_range(
                    old(self).bytes@,
                    offset as int,
                    buf@.take(i + 1),
                ));
            }
            i += 1;
        }
        proof {
            assert(buf@.take(n as int) =~= buf@);
        }
        Ok(())
    }

    /// The typed value whose encoding occupies `T::byte_len()` bytes at
    /// `offset`. Fails unless the whole range lies inside the mapping.
    pub fn read_obj<T: DataInit>(&self, offset: usize) -> (r: MemResult<T>)
        ensures
            match r {
                Ok(v) => offset + T::byte_len() <= self@.len() && v.as_bytes() == self@.subrange(
                    offset as int,
                    offset + T::byte_len(),
                ),
                Err(e) => offset + T::byte_len() > self@.len() && e == Error::OutOfBounds,
            },
    {
        let sz = T::size();
        if offset > self.bytes.len() || sz > self.bytes.len() - offset {
            return Err(Error::OutOfBounds);
        }
        Ok(T::from_bytes(slice_subrange(self.bytes.as_slice(), offset, offset + sz)))
    }

    /// Lays the encoding of `val` over the bytes at `offset`. Fails,
    /// changing nothing, unless the whole range lies inside the mapping.
    pub fn write_obj<T: DataInit>(&mut self, val: T, offset: usize) -> (r: MemResult<()>)
        ensures
            match r {
                Ok(()) => offset + T::byte_len() <= old(self)@.len() && final(self)@
                    == write_range(old(self)@, offset as int, val.as_bytes()),
                Err(e) => offset + T::byte_len() > old(self)@.len() && e == Error::OutOfBounds
                    && final(self)@ == old(self)@,
            },
    {
        proof {
            val.lemma_encoding_width();
        }
        let b = val.to_bytes();
        self.write_slice(b.as_slice(), offset)
    }

    /// Fills `[offset, offset + len)` from `src`, best effort: moves
    /// `min(len, src remaining)` bytes and reports how many. Fails,
    /// moving nothing, unless the whole range lies inside the mapping.
    pub fn read_from<S: ByteSource>(&mut self, offset: usize, src: &mut S, len: usize) -> (r:
        MemResult<usize>)
        ensures
            match r {
                Ok(n) => {
                    &&& offset + len <= old(self)@.len()
                    &&& n == if len <= old(src).remaining().len() {
                        len as int
                    } else {
                        old(src).remaining().len() as int
                    }
                    &&& final(self)@ == write_range(
                        old(self)@,
                        offset as int,
                        old(src).remaining().take(n as int),
                    )
                    &&& final(src).remaining() == old(src).remaining().skip(n as int)
                },
                Err(e) => {
                    &&& offset + len > old(self)@.len()
                    &&& e == Error::OutOfBounds
                    &&& final(self)@ == old(self)@
                    &&& final(src).remaining() == old(src).remaining()
                },
            },
    {
        if offset > self.bytes.len() || len > self.bytes.len() - offset {
            return Err(Error::OutOfBounds);
        }
        let buf = src.pull(len);
        match self.write_slice(buf.as_slice(), offset) {
            Ok(()) => Ok(buf.len()),
            Err(e) => {
                proof {
                    assert(false);
                }
                Err(e)
            },
        }
    }

    /// Drains `[offset, offset + len)` into `dst`, best effort: moves
    /// `min(len, dst room)` bytes and reports how many. Fails, moving
    /// nothing, unless the whole range lies inside the mapping.
    pub fn write_to<S: ByteSink>(&self, offset: usize, dst: &mut S, len: usize) -> (r: MemResult<
        usize,
    >)
        ensures
            match r {
                Ok(n) => {
                    &&& offset + len <= self@.len()
                    &&& n == if len <= old(dst).room() {
                        len as int
                    } else {
                        old(dst).room() as int
                    }
                    &&& final(dst).accepted() == old(dst).accepted() + self@.subrange(
                        offset as int,
                        offset + n,
                    )
                    &&& final(dst).room() == old(dst).room() - n
                },
                Err(e) => {
                    &&& offset + len > self@.len()
                    &&& e == Error::OutOfBounds
                    &&& final(dst).accepted() == old(dst).accepted()
                    &&& final(dst).room() == old(dst).room()
                },
            },
    {
        if offset > self.bytes.len() || len > self.bytes.len() - offset {
            return Err(Error::OutOfBounds);
        }
        let n = dst.push(slice_subrange(self.bytes.as_slice(), offset, offset + len));
        proof {
            assert(self@.subrange(offset as int, offset + len).take(n as int) =~= self@.subrange(
                offset as int,
                offset + n,
            ));
        }
        Ok(n)
    }

    /// Like `read_from`, but the transfer is exact: if `src` cannot
    /// supply all `len` bytes, what it did supply is written and the call
    /// reports `ShortIo` rather than success.
    pub fn read_exact_from<S: ByteSource>(&mut self, offset: usize, src: &mut S, len: usize) -> (r:
        MemResult<()>)
        ensures
            match r {
                Ok(()) => {
                    &&& offset + len <= old(self)@.len()
                    &&& old(src).remaining().len() >= len
                    &&& final(self)@ == write_range(
                        old(self)@,
                        offset as int,
                        old(src).remaining().take(len as int),
                    )
                    &&& final(src).remaining() == old(src).remaining().skip(len as int)
                },
                Err(e) => {
                    ||| {
                        &&& e == Error::OutOfBounds
                        &&& offset + len > old(self)@.len()
                        &&& final(self)@ == old(self)@
                        &&& final(src).remaining() == old(src).remaining()
                    }
                    ||| {
                        &&& e == (Error::ShortIo {
                            expected: len,
                            completed: old(src).remaining().len() as usize,
                        })
                        &&& offset + len <= old(self)@.len()
                        &&& old(src).remaining().len() < len
                        &&& final(self)@ == write_range(
                            old(self)@,
                            offset as int,
                            old(src).remaining(),
                        )
                        &&& final(src).remaining() == Seq::<u8>::empty()
                    }
                },
            },
    {
        let ghost start_remaining = src.remaining();
        match self.read_from(offset, src, len) {
            Ok(n) => {
                if n == len {
                    Ok(())
                } else {
                    proof {
                        assert(start_remaining.take(n as int) =~= start_remaining);
                        assert(start_remaining.skip(n as int) =~= Seq::<u8>::empty());
                    }
                    Err(Error::ShortIo { expected: len, completed: n })
                }
            },
            Err(e) => Err(e),
        }
    }

    /// Like `write_to`, but the transfer is exact: if `dst` cannot accept
    /// all `len` bytes, what it did accept stands and the call reports
    /// `ShortIo` rather than success.
    pub fn write_all_to<S: ByteSink>(&self, offset: usize, dst: &mut S, len: usize) -> (r:
        MemResult<()>)
        ensures
            match r {
                Ok(()) => {
                    &&& offset + len <= self@.len()
                    &&& old(dst).room() >= len
                    &&& final(dst).accepted() == old(dst).accepted() + self@.subrange(
                        offset as int,
                        offset + len,
                    )
                    &&& final(dst).room() == old(dst).room() - len
                },
                Err(e) => {
                    ||| {
                        &&& e == Error::OutOfBounds
                        &&& offset + len > self@.len()
                        &&& final(dst).accepted() == old(dst).accepted()
                        &&& final(dst).room() == old(dst).room()
                    }
                    ||| {
                        &&& e == (Error::ShortIo {
                            expected: len,
                            completed: old(dst).room() as usize,
                        })
                        &&& offset + len <= self@.len()
                        &&& old(dst).room() < len
                        &&& final(dst).accepted() == old(dst).accepted() + self@.subrange(
                            offset as int,
                            offset + old(dst).room(),
                        )
                        &&& final(dst).room() == 0
                    }
                },
            },
    {
        match self.write_to(offset, dst, len) {
            Ok(n) => {
                if n == len {
                    Ok(())
                } else {
                    Err(Error::ShortIo { expected: len, completed: n })
                }
            },
            Err(e) => Err(e),
        }
    }
}

} // verus!
