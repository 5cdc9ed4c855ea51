//! A read-only view over a byte slice with a mutable read position.
//!
//! All other components inspect and advance through the receive buffer
//! exclusively through this type.

use vstd::prelude::*;

verus! {

/// A read position into an immutable byte buffer.
///
/// No operation panics, whatever the current position is; reads past the
/// end of the buffer simply fail.
pub struct ByteCursor<'a> {
    buf: &'a [u8],
    pos: usize,
}

/// A cursor's position is never negative.
pub broadcast proof fn lemma_cursor_pos_nonneg(c: ByteCursor<'_>)
    ensures
        #[trigger] c.pos_spec() >= 0,
{
}

impl<'a> ByteCursor<'a> {
    /// The bytes of the underlying buffer.
    pub closed spec fn buf_spec(&self) -> Seq<u8> {
        self.buf@
    }

    /// The current read position.
    pub closed spec fn pos_spec(&self) -> int {
        self.pos as int
    }

    /// Wraps a byte slice, starting at position zero.
    pub fn new(buf: &'a [u8]) -> (c: ByteCursor<'a>)
        ensures
            c.buf_spec() == buf@,
            c.pos_spec() == 0,
    {
        ByteCursor { buf, pos: 0 }
    }

    /// The current read position, so that a caller can mark and later
    /// roll back cursor state across nested parse attempts.
    pub fn position(&self) -> (p: usize)
        ensures
            p as int == self.pos_spec(),
    {
        self.pos
    }

    /// Moves the read position to `pos`.
    pub fn set_position(&mut self, pos: usize)
        ensures
            final(self).buf_spec() == old(self).buf_spec(),
            final(self).pos_spec() == pos as int,
    {
        self.pos = pos;
    }

    /// Byte count from the read position to the end of the buffer.
    pub fn remaining(&self) -> (n: usize)
        ensures
            n as int == if self.pos_spec() <= self.buf_spec().len() {
                self.buf_spec().len() - self.pos_spec()
            } else {
                0int
            },
    {
        if self.pos >= self.buf.len() {
            0
        } else {
            self.buf.len() - self.pos
        }
    }

    /// The whole underlying buffer.
    pub fn as_slice(&self) -> (s: &'a [u8])
        ensures
            s@ == self.buf_spec(),
    {
        self.buf
    }

    /// Returns the byte at the read position and advances by one, or
    /// `None` if the position is at or past the end of the buffer.
    pub fn next_byte(&mut self) -> (r: Option<u8>)
        ensures
            final(self).buf_spec() == old(self).buf_spec(),
            if old(self).pos_spec() < old(self).buf_spec().len() {
                &&& r == Some(old(self).buf_spec()[old(self).pos_spec()])
                &&& final(self).pos_spec() == old(self).pos_spec() + 1
            } else {
                &&& r is None
                &&& final(self).pos_spec() == old(self).pos_spec()
            },
    {
        if self.pos < self.buf.len() {
            let b = self.buf[self.pos];
            self.pos = self.pos + 1;
            Some(b)
        } else {
            None
        }
    }
}

} // verus!
