//! A read position over bytes held in memory.

use crate::error::DecodeError;
use vstd::prelude::*;

verus! {

/// Bytes in memory together with the position of the next byte to read.
pub struct ByteStream<'a> {
    bytes: &'a [u8],
    pos: usize,
}

impl<'a> ByteStream<'a> {
    #[verifier::type_invariant]
    spec fn in_bounds(&self) -> bool {
        self.pos <= self.bytes@.len()
    }

    /// All the bytes, read or not.
    pub closed spec fn content(&self) -> Seq<u8> {
        self.bytes@
    }

    /// How many bytes have been read.
    pub closed spec fn offset(&self) -> int {
        self.pos as int
    }

    /// The bytes that have not been read yet.
    pub open spec fn unread(&self) -> Seq<u8> {
        self.content().subrange(self.offset(), self.content().len() as int)
    }

    /// A stream over `bytes`, positioned at their start.
    pub fn new(bytes: &'a [u8]) -> (stream: Self)
        ensures
            stream.content() == bytes@,
            stream.offset() == 0,
    {
        ByteStream { bytes, pos: 0 }
    }

    /// How many bytes have been read.
    pub fn position(&self) -> (n: usize)
        ensures
            n == self.offset(),
            n <= self.content().len(),
    {
        proof {
            use_type_invariant(self);
        }
        self.pos
    }

    /// How many bytes are left to read.
    pub fn remaining(&self) -> (n: usize)
        ensures
            n == self.unread().len(),
            n == self.content().len() - self.offset(),
    {
        proof {
            use_type_invariant(self);
        }
        self.bytes.len() - self.pos
    }

    /// Passes over the next `n` bytes, or fails and stays in place where
    /// fewer than `n` are left.
    pub fn skip(&mut self, n: usize) -> (r: Result<(), DecodeError>)
        ensures
            final(self).content() == old(self).content(),
            match r {
                Ok(()) => {
                    &&& n <= old(self).unread().len()
                    &&& final(self).offset() == old(self).offset() + n
                },
                Err(e) => {
                    &&& e == DecodeError::Truncated
                    &&& n > old(self).unread().len()
                    &&& final(self).offset() == old(self).offset()
                },
            },
    {
        if n <= self.remaining() {
            self.advance(n);
            Ok(())
        } else {
            Err(DecodeError::Truncated)
        }
    }

    /// The underlying bytes.
    pub(crate) fn bytes(&self) -> (b: &'a [u8])
        ensures
            b@ == self.content(),
    {
        self.bytes
    }

    /// Moves the read position forward by `n` bytes.
    pub(crate) fn advance(&mut self, n: usize)
        requires
            n <= old(self).unread().len(),
        ensures
            final(self).content() == old(self).content(),
            final(self).offset() == old(self).offset() + n,
    {
        proof {
            use_type_invariant(&*self);
        }
        let end: usize = self.bytes.len();
        assert(self.pos + n <= end);
        self.pos = self.pos + n;
    }
}

} // verus!
