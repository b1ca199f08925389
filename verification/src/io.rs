//! In-memory byte source and byte sink.
//!
//! The pipeline reads from and writes to a fully buffered byte vector with an
//! explicit position: the source supports peeking and forward or backward
//! repositioning, the sink supports seeking back to patch earlier bytes.

use vstd::prelude::*;

use crate::bytes::{le_u32_at, le_u64_at, read_u32_le, read_u64_le};
use crate::error::{Error, ErrorModel};

verus! {

/// A sequence of `n` zero bytes.
pub open spec fn zero_bytes(n: int) -> Seq<u8> {
    Seq::new(n as nat, |i: int| 0u8)
}

/// The bytes of a buffer after writing `data` at `pos`, overwriting what is
/// there and extending the buffer when the data runs past its end.
pub open spec fn spec_write_at(bytes: Seq<u8>, pos: int, data: Seq<u8>) -> Seq<u8> {
    if pos + data.len() <= bytes.len() {
        bytes.subrange(0, pos) + data + bytes.subrange(pos + data.len(), bytes.len() as int)
    } else {
        bytes.subrange(0, pos) + data
    }
}

/// A position-tracked, peekable reader over a complete in-memory file.
pub struct ByteSource {
    bytes: Vec<u8>,
    position: usize,
}

impl ByteSource {
    /// The whole underlying byte buffer.
    pub closed spec fn bytes(&self) -> Seq<u8> {
        self.bytes@
    }

    /// The current read position.
    pub closed spec fn pos(&self) -> int {
        self.position as int
    }

    /// The position never runs past the end of the buffer.
    pub closed spec fn wf(&self) -> bool {
        self.position <= self.bytes@.len()
    }

    /// The read position is never negative, the buffer never longer than a
    /// machine word can index, and in a well-formed source the position
    /// never runs past the end of the buffer.
    pub proof fn lemma_bounds(&self)
        ensures
            self.pos() >= 0,
            self.bytes().len() <= usize::MAX,
            self.wf() ==> self.pos() <= self.bytes().len(),
    {
        broadcast use vstd::std_specs::vec::axiom_spec_len;

        assert(vstd::std_specs::vec::spec_vec_len(&self.bytes) == self.bytes@.len());
    }

    /// Start reading at the first byte of `bytes`.
    pub fn new(bytes: Vec<u8>) -> (r: ByteSource)
        ensures
            r.wf(),
            r.bytes() == bytes@,
            r.pos() == 0,
    {
        ByteSource { bytes, position: 0 }
    }

    /// The current absolute byte position.
    pub fn byte_position(&self) -> (r: usize)
        ensures
            r == self.pos(),
    {
        self.position
    }

    /// Look at the next byte without consuming it; fails at the end of the file.
    pub fn peek_u8(&self) -> (r: Result<u8, Error>)
        requires
            self.wf(),
        ensures
            self.pos() < self.bytes().len() ==> r == Ok::<u8, Error>(self.bytes()[self.pos()]),
            self.pos() >= self.bytes().len() ==> (r matches Err(e) && e matches Error::Io(_)),
    {
        if self.position < self.bytes.len() {
            Ok(self.bytes[self.position])
        } else {
            Err(Error::Io("unexpected end of file"))
        }
    }

    /// True when at least one byte is left to read.
    pub fn has_remaining(&self) -> (r: bool)
        requires
            self.wf(),
        ensures
            r == (self.pos() < self.bytes().len()),
    {
        self.position < self.bytes.len()
    }

    /// Reposition to the absolute offset `target`, forward or backward.
    pub fn skip_to(&mut self, target: u64) -> (r: Result<(), Error>)
        requires
            old(self).wf(),
        ensures
            final(self).wf(),
            final(self).bytes() == old(self).bytes(),
            target <= old(self).bytes().len() ==> r is Ok && final(self).pos() == target,
            target > old(self).bytes().len() ==> (r matches Err(e) && e matches Error::Io(_)
                && final(self).pos() == old(self).pos()),
    {
        let n: usize = self.bytes.len();
        if target <= n as u64 {
            self.position = target as usize;
            Ok(())
        } else {
            Err(Error::Io("unexpected end of file"))
        }
    }

    /// Read one byte and advance.
    pub fn read_u8(&mut self) -> (r: Result<u8, Error>)
        requires
            old(self).wf(),
        ensures
            final(self).wf(),
            final(self).bytes() == old(self).bytes(),
            old(self).pos() < old(self).bytes().len() ==> r == Ok::<u8, Error>(
                old(self).bytes()[old(self).pos()],
            ) && final(self).pos() == old(self).pos() + 1,
            old(self).pos() >= old(self).bytes().len() ==> (r matches Err(e) && e
                matches Error::Io(_) && final(self).pos() == old(self).pos()),
    {
        if self.position < self.bytes.len() {
            let b = self.bytes[self.position];
            self.position = self.position + 1;
            Ok(b)
        } else {
            Err(Error::Io("unexpected end of file"))
        }
    }

    /// Read four little-endian bytes as an unsigned integer and advance.
    pub fn read_u32_le(&mut self) -> (r: Result<u32, Error>)
        requires
            old(self).wf(),
        ensures
            final(self).wf(),
            final(self).bytes() == old(self).bytes(),
            old(self).pos() + 4 <= old(self).bytes().len() ==> r == Ok::<u32, Error>(
                le_u32_at(old(self).bytes(), old(self).pos()) as u32,
            ) && final(self).pos() == old(self).pos() + 4,
            old(self).pos() + 4 > old(self).bytes().len() ==> (r matches Err(e) && e
                matches Error::Io(_) && final(self).pos() == old(self).pos()),
    {
        let n: usize = self.bytes.len();
        if n - self.position >= 4 {
            let v = read_u32_le(&self.bytes, self.position);
            self.position = self.position + 4;
            proof {
                assert(le_u32_at(self.bytes@, old(self).pos()) < 0x100000000) by {
                    assert(self.bytes@[old(self).pos() + 3] * 0x1000000 <= 255 * 0x1000000);
                }
            }
            Ok(v)
        } else {
            Err(Error::Io("unexpected end of file"))
        }
    }

    /// Read eight little-endian bytes as an unsigned integer and advance.
    pub fn read_u64_le(&mut self) -> (r: Result<u64, Error>)
        requires
            old(self).wf(),
        ensures
            final(self).wf(),
            final(self).bytes() == old(self).bytes(),
            old(self).pos() + 8 <= old(self).bytes().len() ==> r == Ok::<u64, Error>(
                le_u64_at(old(self).bytes(), old(self).pos()) as u64,
            ) && final(self).pos() == old(self).pos() + 8,
            old(self).pos() + 8 > old(self).bytes().len() ==> (r matches Err(e) && e
                matches Error::Io(_) && final(self).pos() == old(self).pos()),
    {
        let n: usize = self.bytes.len();
        if n - self.position >= 8 {
            let v = read_u64_le(&self.bytes, self.position);
            self.position = self.position + 8;
            proof {
                assert(le_u64_at(self.bytes@, old(self).pos()) < 0x10000000000000000) by {
                    let s = self.bytes@;
                    let p = old(self).pos();
                    assert(s[p + 3] * 0x1000000 <= 255 * 0x1000000);
                    assert(s[p + 7] * 0x1000000 <= 255 * 0x1000000);
                    assert(le_u32_at(s, p) <= 0xffffffff);
                    assert(le_u32_at(s, p + 4) <= 0xffffffff);
                    assert(le_u32_at(s, p + 4) * 0x100000000 <= 0xffffffff * 0x100000000)
                        by (nonlinear_arith)
                        requires
                            le_u32_at(s, p + 4) <= 0xffffffff,
                    ;
                }
            }
            Ok(v)
        } else {
            Err(Error::Io("unexpected end of file"))
        }
    }

    /// Read `count` bytes into a fresh vector and advance.
    pub fn read_bytes(&mut self, count: usize) -> (r: Result<Vec<u8>, Error>)
        requires
            old(self).wf(),
        ensures
            final(self).wf(),
            final(self).bytes() == old(self).bytes(),
            old(self).pos() + count <= old(self).bytes().len() ==> (r matches Ok(v) && v@ == old(
                self,
            ).bytes().subrange(old(self).pos(), old(self).pos() + count) && final(self).pos()
                == old(self).pos() + count),
            old(self).pos() + count > old(self).bytes().len() ==> (r matches Err(e) && e
                matches Error::Io(_) && final(self).pos() == old(self).pos()),
    {
        let n: usize = self.bytes.len();
        if n - self.position >= count {
            let mut out: Vec<u8> = Vec::new();
            let mut i: usize = 0;
            while i < count
                invariant
                    i <= count,
                    n == self.bytes@.len(),
                    self.position + count <= n,
                    out@.len() == i,
                    out@ == self.bytes@.subrange(
                        self.position as int,
                        self.position + i as int,
                    ),
                decreases count - i,
            {
                out.push(self.bytes[self.position + i]);
                i = i + 1;
                proof {
                    assert(out@ =~= self.bytes@.subrange(
                        self.position as int,
                        self.position + i as int,
                    ));
                }
            }
            self.position = self.position + count;
            Ok(out)
        } else {
            Err(Error::Io("unexpected end of file"))
        }
    }
}

/// A position-tracked, seekable writer building a complete in-memory file.
pub struct ByteSink {
    bytes: Vec<u8>,
    position: usize,
}

impl ByteSink {
    /// The whole byte buffer written so far.
    pub closed spec fn bytes(&self) -> Seq<u8> {
        self.bytes@
    }

    /// The current write position.
    pub closed spec fn pos(&self) -> int {
        self.position as int
    }

    /// The position never runs past the end of the buffer.
    pub closed spec fn wf(&self) -> bool {
        self.position <= self.bytes@.len()
    }

    /// The write position is never negative, the buffer never longer than
    /// a machine word can index.
    pub proof fn lemma_bounds(&self)
        ensures
            self.pos() >= 0,
            self.bytes().len() <= usize::MAX,
            self.wf() ==> self.pos() <= self.bytes().len(),
    {
        broadcast use vstd::std_specs::vec::axiom_spec_len;

        assert(vstd::std_specs::vec::spec_vec_len(&self.bytes) == self.bytes@.len());
    }

    /// A sink holding no bytes yet.
    pub fn new() -> (r: ByteSink)
        ensures
            r.wf(),
            r.bytes() == Seq::<u8>::empty(),
            r.pos() == 0,
    {
        let r = ByteSink { bytes: Vec::new(), position: 0 };
        proof {
            assert(r.bytes() =~= Seq::<u8>::empty());
        }
        r
    }

    /// The current absolute byte position.
    pub fn byte_position(&self) -> (r: usize)
        ensures
            r == self.pos(),
    {
        self.position
    }

    /// Write all of `data` at the current position, overwriting existing
    /// bytes and extending the file as needed.
    pub fn write_all(&mut self, data: &Vec<u8>) -> (r: Result<(), Error>)
        requires
            old(self).wf(),
        ensures
            final(self).wf(),
            old(self).pos() + data@.len() <= usize::MAX ==> r is Ok && final(self).bytes()
                == spec_write_at(old(self).bytes(), old(self).pos(), data@) && final(self).pos()
                == old(self).pos() + data@.len(),
            old(self).pos() + data@.len() > usize::MAX ==> (r matches Err(e) && e.model()
                == ErrorModel::Io("file too large for this machine"@) && final(self).bytes()
                == old(self).bytes() && final(self).pos() == old(self).pos()),
    {
        let count: usize = data.len();
        let here: usize = self.position;
        if count > usize::MAX - here {
            return Err(Error::Io("file too large for this machine"));
        }
        let n: usize = self.bytes.len();
        let mut out: Vec<u8> = Vec::new();
        let mut j: usize = 0;
        while j < here
            invariant
                j <= here,
                here <= n,
                n == self.bytes@.len(),
                out@ == self.bytes@.subrange(0, j as int),
            decreases here - j,
        {
            out.push(self.bytes[j]);
            j = j + 1;
            proof {
                assert(out@ =~= self.bytes@.subrange(0, j as int));
            }
        }
        let mut k: usize = 0;
        while k < count
            invariant
                k <= count,
                count == data@.len(),
                here <= n,
                n == self.bytes@.len(),
                out@ == self.bytes@.subrange(0, here as int) + data@.subrange(0, k as int),
            decreases count - k,
        {
            out.push(data[k]);
            k = k + 1;
            proof {
                assert(out@ =~= self.bytes@.subrange(0, here as int) + data@.subrange(
                    0,
                    k as int,
                ));
            }
        }
        proof {
            assert(data@.subrange(0, count as int) =~= data@);
        }
        if here + count < n {
            let mut t: usize = here + count;
            while t < n
                invariant
                    here + count <= t <= n,
                    count == data@.len(),
                    here <= n,
                    n == self.bytes@.len(),
                    out@ == self.bytes@.subrange(0, here as int) + data@ + self.bytes@.subrange(
                        here + count,
                        t as int,
                    ),
                decreases n - t,
            {
                out.push(self.bytes[t]);
                t = t + 1;
                proof {
                    assert(out@ =~= self.bytes@.subrange(0, here as int) + data@
                        + self.bytes@.subrange(here + count, t as int));
                }
            }
        }
        self.bytes = out;
        self.position = here + count;
        proof {
            assert(self.bytes@ =~= spec_write_at(old(self).bytes(), old(self).pos(), data@));
        }
        Ok(())
    }

    /// Move the write position to the absolute offset `target`, padding with
    /// zero bytes when `target` lies past the current end of the file.
    pub fn seek_write_to(&mut self, target: u64) -> (r: Result<(), Error>)
        requires
            old(self).wf(),
        ensures
            final(self).wf(),
            target <= usize::MAX ==> r is Ok && final(self).pos() == target
                && (target <= old(self).bytes().len() ==> final(self).bytes() == old(self).bytes())
                && (target > old(self).bytes().len() ==> final(self).bytes() == old(self).bytes()
                + zero_bytes(target - old(self).bytes().len())),
            target > usize::MAX ==> (r matches Err(e) && e matches Error::Io(_)
                && final(self).bytes() == old(self).bytes()
                && final(self).pos() == old(self).pos()),
    {
        if target > usize::MAX as u64 {
            return Err(Error::Io("file too large for this machine"));
        }
        let target: usize = target as usize;
        let ghost orig = self.bytes@;
        while self.bytes.len() < target
            invariant
                self.position <= self.bytes@.len(),
                orig.len() <= target ==> orig.len() <= self.bytes@.len() <= target,
                orig.len() > target ==> self.bytes@.len() == orig.len(),
                self.bytes@ == orig + zero_bytes(self.bytes@.len() - orig.len()),
            decreases target - self.bytes@.len(),
        {
            self.bytes.push(0u8);
            proof {
                assert(self.bytes@ =~= orig + zero_bytes(self.bytes@.len() - orig.len()));
            }
        }
        self.position = target;
        proof {
            if target <= orig.len() {
                assert(self.bytes@ =~= orig);
            }
        }
        Ok(())
    }

    /// Push any buffered bytes through; for an in-memory sink there is
    /// nothing left to do.
    pub fn flush(&mut self) -> (r: Result<(), Error>)
        requires
            old(self).wf(),
        ensures
            final(self).wf(),
            r is Ok,
            final(self).bytes() == old(self).bytes(),
            final(self).pos() == old(self).pos(),
    {
        Ok(())
    }

    /// Give up the sink and take the finished file bytes.
    pub fn into_bytes(self) -> (r: Vec<u8>)
        ensures
            r@ == self.bytes(),
    {
        self.bytes
    }
}

} // verus!
