//! Bounds-checked, forward-only reader over an immutable byte buffer. Every
//! other component reads the table file through this cursor; `take` is the
//! only primitive that advances the position.

use vstd::prelude::*;
use vstd::slice::slice_index_get;

use crate::model::DecodeError;

verus! {

/// Four bytes as an unsigned integer, most significant byte first. The
/// format's own notes call this order "little endian - high then low bytes";
/// the observed byte order is what counts, and this is it.
pub open spec fn u32_be(b0: u8, b1: u8, b2: u8, b3: u8) -> u32 {
    ((b0 as u32) << 24) | ((b1 as u32) << 16) | ((b2 as u32) << 8) | (b3 as u32)
}

/// Two bytes as an unsigned integer, most significant byte first.
pub open spec fn u16_be(b0: u8, b1: u8) -> u16 {
    ((b0 as u16) << 8) | (b1 as u16)
}

/// The 4-byte integer standing at offset `pos` of `b`.
pub open spec fn spec_u32_at(b: Seq<u8>, pos: int) -> u32
    recommends
        0 <= pos,
        pos + 4 <= b.len(),
{
    u32_be(b[pos], b[pos + 1], b[pos + 2], b[pos + 3])
}

/// The 16-bit value held in the low half of the 4-byte slot at offset `pos`:
/// many on-disk "2-byte" quantities sit in a 4-byte slot whose upper half is
/// reserved, so the slot is consumed whole and only its last two bytes count.
pub open spec fn spec_u16_field_at(b: Seq<u8>, pos: int) -> u16
    recommends
        0 <= pos,
        pos + 4 <= b.len(),
{
    u16_be(b[pos + 2], b[pos + 3])
}

/// The error a read of `n` bytes at offset `pos` of `b` raises when fewer
/// than `n` bytes remain.
pub open spec fn underrun(b: Seq<u8>, pos: int, n: int) -> DecodeError {
    DecodeError::BufferUnderrun { requested: n as usize, remaining: (b.len() - pos) as usize }
}

/// The cursor: a borrowed buffer and the offset of the next unread byte.
pub struct Cursor<'a> {
    buf: &'a [u8],
    pos: usize,
}

impl<'a> Cursor<'a> {
    /// The whole underlying buffer.
    pub closed spec fn bytes(&self) -> Seq<u8> {
        self.buf@
    }

    /// The offset of the next unread byte.
    pub closed spec fn position(&self) -> int {
        self.pos as int
    }

    /// The position never lies outside the buffer.
    pub open spec fn wf(&self) -> bool {
        0 <= self.position() <= self.bytes().len()
    }

    /// A cursor standing at the start of `buf`.
    pub fn new(buf: &'a [u8]) -> (c: Cursor<'a>)
        ensures
            c.bytes() == buf@,
            c.position() == 0,
            c.wf(),
    {
        Cursor { buf, pos: 0 }
    }

    /// Returns the next `n` bytes and advances past them. Fails, moving
    /// nothing, when fewer than `n` bytes remain.
    pub fn take(&mut self, n: usize) -> (r: Result<Vec<u8>, DecodeError>)
        requires
            old(self).wf(),
        ensures
            final(self).wf(),
            final(self).bytes() == old(self).bytes(),
            match r {
                Ok(v) => {
                    &&& old(self).position() + n <= final(self).bytes().len()
                    &&& v@ == final(self).bytes().subrange(old(self).position(), old(self).position() + n)
                    &&& final(self).position() == old(self).position() + n
                },
                Err(e) => {
                    &&& old(self).position() + n > final(self).bytes().len()
                    &&& e == underrun(final(self).bytes(), old(self).position(), n as int)
                    &&& final(self).position() == old(self).position()
                },
            },
    {
        if n <= self.buf.len() - self.pos {
            let mut v: Vec<u8> = Vec::new();
            let mut i: usize = 0;
            while i < n
                invariant
                    i <= n,
                    self.pos + n <= self.buf@.len(),
                    self.buf@.len() <= usize::MAX,
                    v@ == self.buf@.subrange(self.pos as int, self.pos as int + i as int),
                decreases n - i,
            {
                v.push(*slice_index_get(self.buf, self.pos + i));
                i = i + 1;
                proof {
                    assert(v@ =~= self.buf@.subrange(
                        self.pos as int,
                        self.pos as int + i as int,
                    ));
                }
            }
            self.pos = self.pos + n;
            Ok(v)
        } else {
            Err(DecodeError::BufferUnderrun { requested: n, remaining: self.buf.len() - self.pos })
        }
    }

    /// Reads one byte as an unsigned integer.
    pub fn read_u8(&mut self) -> (r: Result<u8, DecodeError>)
        requires
            old(self).wf(),
        ensures
            final(self).wf(),
            final(self).bytes() == old(self).bytes(),
            match r {
                Ok(v) => {
                    &&& old(self).position() + 1 <= final(self).bytes().len()
                    &&& v == final(self).bytes()[old(self).position()]
                    &&& final(self).position() == old(self).position() + 1
                },
                Err(e) => {
                    &&& old(self).position() + 1 > final(self).bytes().len()
                    &&& e == underrun(final(self).bytes(), old(self).position(), 1)
                    &&& final(self).position() == old(self).position()
                },
            },
    {
        match self.take(1) {
            Ok(v) => Ok(v[0]),
            Err(e) => Err(e),
        }
    }

    /// Reads four bytes as an unsigned integer, most significant byte first.
    pub fn read_u32(&mut self) -> (r: Result<u32, DecodeError>)
        requires
            old(self).wf(),
        ensures
            final(self).wf(),
            final(self).bytes() == old(self).bytes(),
            match r {
                Ok(v) => {
                    &&& old(self).position() + 4 <= final(self).bytes().len()
                    &&& v == spec_u32_at(final(self).bytes(), old(self).position())
                    &&& final(self).position() == old(self).position() + 4
                },
                Err(e) => {
                    &&& old(self).position() + 4 > final(self).bytes().len()
                    &&& e == underrun(final(self).bytes(), old(self).position(), 4)
                    &&& final(self).position() == old(self).position()
                },
            },
    {
        match self.take(4) {
            Ok(v) => Ok(
                ((v[0] as u32) << 24) | ((v[1] as u32) << 16) | ((v[2] as u32) << 8) | (
                v[3] as u32),
            ),
            Err(e) => Err(e),
        }
    }

    /// Consumes a full 4-byte slot and returns the 16-bit value in its low
    /// half, most significant byte first within that half. The element count
    /// and element length of a class header must be read this way, or every
    /// following offset in the class body misaligns.
    pub fn read_u16_from_u32_field(&mut self) -> (r: Result<u16, DecodeError>)
        requires
            old(self).wf(),
        ensures
            final(self).wf(),
            final(self).bytes() == old(self).bytes(),
            match r {
                Ok(v) => {
                    &&& old(self).position() + 4 <= final(self).bytes().len()
                    &&& v == spec_u16_field_at(final(self).bytes(), old(self).position())
                    &&& final(self).position() == old(self).position() + 4
                },
                Err(e) => {
                    &&& old(self).position() + 4 > final(self).bytes().len()
                    &&& e == underrun(final(self).bytes(), old(self).position(), 4)
                    &&& final(self).position() == old(self).position()
                },
            },
    {
        match self.take(4) {
            Ok(v) => Ok(((v[2] as u16) << 8) | (v[3] as u16)),
            Err(e) => Err(e),
        }
    }

    /// Reads four bytes and demands that they spell `expected`; on a
    /// mismatch, reports both values.
    pub fn expect_u32(&mut self, expected: u32) -> (r: Result<(), DecodeError>)
        requires
            old(self).wf(),
        ensures
            final(self).wf(),
            final(self).bytes() == old(self).bytes(),
            match r {
                Ok(()) => {
                    &&& old(self).position() + 4 <= final(self).bytes().len()
                    &&& spec_u32_at(final(self).bytes(), old(self).position()) == expected
                    &&& final(self).position() == old(self).position() + 4
                },
                Err(e) => {
                    ||| {
                        &&& old(self).position() + 4 > final(self).bytes().len()
                        &&& e == underrun(final(self).bytes(), old(self).position(), 4)
                        &&& final(self).position() == old(self).position()
                    }
                    ||| {
                        &&& old(self).position() + 4 <= final(self).bytes().len()
                        &&& spec_u32_at(final(self).bytes(), old(self).position()) != expected
                        &&& e == (DecodeError::MagicMismatch {
                            expected,
                            actual: spec_u32_at(final(self).bytes(), old(self).position()),
                        })
                        &&& final(self).position() == old(self).position() + 4
                    }
                },
            },
    {
        match self.read_u32() {
            Ok(actual) => {
                if actual == expected {
                    Ok(())
                } else {
                    Err(DecodeError::MagicMismatch { expected, actual })
                }
            },
            Err(e) => Err(e),
        }
    }

    /// Advances to the absolute offset `target`, discarding the bytes in
    /// between. Fails when `target` lies behind the position (the format
    /// never requires rewinding) or beyond the buffer.
    pub fn skip_to(&mut self, target: u32) -> (r: Result<(), DecodeError>)
        requires
            old(self).wf(),
        ensures
            final(self).wf(),
            final(self).bytes() == old(self).bytes(),
            match r {
                Ok(()) => {
                    &&& old(self).position() <= target as int <= final(self).bytes().len()
                    &&& final(self).position() == target as int
                },
                Err(e) => {
                    ||| {
                        &&& (target as int) < old(self).position()
                        &&& e == (DecodeError::BackwardSeek {
                            target,
                            position: old(self).position() as usize,
                        })
                        &&& final(self).position() == old(self).position()
                    }
                    ||| {
                        &&& old(self).position() <= target as int
                        &&& target as int > final(self).bytes().len()
                        &&& e == underrun(
                            final(self).bytes(),
                            old(self).position(),
                            target as int - old(self).position(),
                        )
                        &&& final(self).position() == old(self).position()
                    }
                },
            },
    {
        let t = target as usize;
        if t < self.pos {
            Err(DecodeError::BackwardSeek { target, position: self.pos })
        } else {
            match self.take(t - self.pos) {
                Ok(_) => Ok(()),
                Err(e) => Err(e),
            }
        }
    }
}

} // verus!
