//! The I/O capability the format reader is driven by.
//!
//! The parser never owns a stream handle; every operation receives a value of
//! a type implementing [`Io`], which exposes exactly three primitives over one
//! shared byte stream with a single cursor: seek to an absolute offset, move
//! the cursor relative to its current position, and read exactly `n` bytes.
//! A local file, a network transport or an in-memory buffer are all valid
//! backers; [`BufIo`] is the in-memory one, used by tests.

use vstd::prelude::*;

verus! {

/// A seekable, readable byte stream with one cursor.
///
/// The abstract state is the full stream contents, [`Io::data`], and the
/// cursor position, [`Io::pos`]. The contents never change: the archive is
/// immutable for the life of a mount. Any primitive may fail with a
/// backer-specific error; what each promises holds only of successful calls,
/// so an implementation that can fail at any time is a valid backer.
pub trait Io: Sized {
    /// The backer's error: opaque to the reader, handed through unchanged.
    type Error;

    /// The full contents of the backing stream. The default leaves the
    /// contents unspecified, so a backer outside the verified world — a
    /// file, say — need not model itself; what the reader proves about such
    /// a backer is then only what the method contracts promise of every
    /// stream.
    open spec fn data(&self) -> Seq<u8> {
        vstd::pervasive::arbitrary()
    }

    /// The current cursor position, in bytes from the start of the stream.
    open spec fn pos(&self) -> int {
        vstd::pervasive::arbitrary()
    }

    /// Move the cursor to the absolute byte offset `to`.
    fn seek(&mut self, to: u64) -> (r: Result<(), Self::Error>)
        ensures
            final(self).data() == old(self).data(),
            r is Ok ==> final(self).pos() == to as int,
    ;

    /// Move the cursor by `by` bytes relative to its current position.
    fn advance(&mut self, by: i64) -> (r: Result<(), Self::Error>)
        ensures
            final(self).data() == old(self).data(),
            r is Ok ==> final(self).pos() == old(self).pos() + by as int,
    ;

    /// Read exactly `n` bytes at the cursor, advancing the cursor past them.
    ///
    /// A short read is an error: on success the returned bytes are exactly
    /// the `n` bytes of the stream starting at the old cursor position.
    fn read_exact(&mut self, n: usize) -> (r: Result<Vec<u8>, Self::Error>)
        ensures
            final(self).data() == old(self).data(),
            r matches Ok(v) ==> {
                &&& 0 <= old(self).pos()
                &&& old(self).pos() + n <= old(self).data().len()
                &&& v@ == old(self).data().subrange(
                    old(self).pos(),
                    old(self).pos() + n as int,
                )
                &&& final(self).pos() == old(self).pos() + n as int
            },
    ;
}

/// The error of [`BufIo`]: the requested range lies outside the buffer.
#[derive(Clone, Copy, Debug, PartialEq, Eq, Structural)]
pub struct OutOfBounds;

/// An in-memory backing stream: a byte buffer with a cursor.
///
/// Reads fail exactly when they would run past the end of the buffer, and
/// relative seeks fail exactly when they would leave `0..=u64::MAX`.
pub struct BufIo {
    bytes: Vec<u8>,
    cursor: u64,
}

impl BufIo {
    /// Wrap a byte buffer as a stream, with the cursor at the start.
    pub fn new(bytes: Vec<u8>) -> (r: BufIo)
        ensures
            r.data() == bytes@,
            r.pos() == 0,
    {
        BufIo { bytes, cursor: 0 }
    }
}

impl Io for BufIo {
    type Error = OutOfBounds;

    closed spec fn data(&self) -> Seq<u8> {
        self.bytes@
    }

    closed spec fn pos(&self) -> int {
        self.cursor as int
    }

    fn seek(&mut self, to: u64) -> (r: Result<(), OutOfBounds>)
        ensures
            r is Ok,
    {
        self.cursor = to;
        Ok(())
    }

    fn advance(&mut self, by: i64) -> (r: Result<(), OutOfBounds>)
        ensures
            r is Ok <==> 0 <= old(self).pos() + by as int <= u64::MAX,
    {
        let target: i128 = self.cursor as i128 + by as i128;
        if target < 0 || target > u64::MAX as i128 {
            Err(OutOfBounds)
        } else {
            self.cursor = target as u64;
            Ok(())
        }
    }

    fn read_exact(&mut self, n: usize) -> (r: Result<Vec<u8>, OutOfBounds>)
        ensures
            r is Ok <==> old(self).pos() + n as int <= old(self).data().len(),
    {
        if self.cursor > self.bytes.len() as u64 || n as u64 > self.bytes.len() as u64 - self.cursor {
            return Err(OutOfBounds);
        }
        let start: usize = self.cursor as usize;
        let mut out: Vec<u8> = Vec::new();
        let mut i: usize = 0;
        while i < n
            invariant
                start + n <= self.bytes.len(),
                i <= n,
                out@ == self.bytes@.subrange(start as int, start + i as int),
                self == old(self),
            decreases n - i,
        {
            out.push(self.bytes[start + i]);
            i = i + 1;
            proof {
                assert(out@ =~= self.bytes@.subrange(start as int, start + i as int));
            }
        }
        self.cursor = self.cursor + n as u64;
        Ok(out)
    }
}

} // verus!
