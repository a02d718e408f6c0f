//! Cursor for writing bytes to a fixed-capacity buffer.
//!
//! The [`Cursor`] tracks a write position inside a byte buffer and exposes a
//! single bounded byte-write primitive. It signals overflow instead of ever
//! writing out of bounds, and it never shrinks or grows the buffer.

use vstd::prelude::*;

use crate::error::Error;
use crate::result::EncodeResult;

verus! {

/// A cursor for writing bytes to a buffer with position tracking.
pub struct Cursor {
    /// The underlying byte buffer where data is written.
    pub data: Vec<u8>,

    /// The current write position in the buffer.
    pub pos: usize,
}

/// The effect of writing the byte sequence `s` at `pre`'s position, leading to
/// the cursor state `post`; `ok` tells whether all of `s` fit.
///
/// On success the bytes of `s` stand at positions `pre.pos` up to
/// `pre.pos + s.len()` and the position has advanced past them. On overflow
/// every byte of `s` that fit was committed (writes are not rolled back), the
/// position stands at the end of the buffer, and the rest of `s` was dropped.
/// In both cases all other buffer contents and the buffer length are
/// unchanged.
pub open spec fn wrote(pre: Cursor, post: Cursor, s: Seq<u8>, ok: bool) -> bool {
    &&& pre.pos <= pre.data@.len()
    &&& post.data@.len() == pre.data@.len()
    &&& if ok {
        &&& pre.pos + s.len() <= pre.data@.len()
        &&& post.pos == pre.pos + s.len()
        &&& post.data@ == pre.data@.take(pre.pos as int) + s + pre.data@.skip(pre.pos + s.len())
    } else {
        &&& pre.pos + s.len() > pre.data@.len()
        &&& post.pos == pre.data@.len()
        &&& post.data@ == pre.data@.take(pre.pos as int) + s.take(pre.data@.len() - pre.pos)
    }
}

/// Two consecutive writes act as one write of the concatenated sequence:
/// if `s1` fit and `s2` followed it (fitting or not), the overall effect is
/// that of writing `s1 + s2`.
pub proof fn lemma_wrote_compose(
    pre: Cursor,
    mid: Cursor,
    post: Cursor,
    s1: Seq<u8>,
    s2: Seq<u8>,
    ok: bool,
)
    requires
        wrote(pre, mid, s1, true),
        wrote(mid, post, s2, ok),
    ensures
        wrote(pre, post, s1 + s2, ok),
{
    if ok {
        assert(post.data@ =~= pre.data@.take(pre.pos as int) + (s1 + s2) + pre.data@.skip(
            pre.pos + s1.len() + s2.len(),
        ));
    } else {
        assert(post.data@ =~= pre.data@.take(pre.pos as int) + (s1 + s2).take(
            pre.data@.len() - pre.pos,
        ));
    }
}

/// A failed write of a sequence is also a failed write of any longer
/// sequence it is a prefix of: the part past the end of the buffer never
/// mattered.
pub proof fn lemma_wrote_fail_prefix(pre: Cursor, post: Cursor, s: Seq<u8>, t: Seq<u8>)
    requires
        wrote(pre, post, s, false),
        s.len() <= t.len(),
        s == t.take(s.len() as int),
    ensures
        wrote(pre, post, t, false),
{
    assert(s.take(pre.data@.len() - pre.pos) =~= t.take(pre.data@.len() - pre.pos));
}

impl Cursor {
    /// The cursor is well formed: the position never passes the end of the
    /// buffer.
    pub open spec fn wf(self) -> bool {
        self.pos <= self.data@.len()
    }

    /// Creates a new cursor positioned at the start of the provided buffer.
    pub fn new(data: Vec<u8>) -> (c: Cursor)
        ensures
            c.data@ == data@,
            c.pos == 0,
            c.wf(),
    {
        Cursor { data, pos: 0 }
    }

    /// Writes a single byte at the current position and advances the cursor;
    /// fails with [`Error::BufferOverflow`], leaving the cursor unchanged,
    /// when the buffer is full.
    pub fn write_byte(&mut self, byte: u8) -> (r: EncodeResult<()>)
        requires
            old(self).wf(),
        ensures
            final(self).wf(),
            wrote(*old(self), *final(self), seq![byte], r is Ok),
            r is Ok <==> old(self).pos < old(self).data@.len(),
            r is Err ==> r == EncodeResult::<()>::Err(Error::BufferOverflow),
    {
        if self.pos < self.data.len() {
            let ghost pre = *self;
            self.data.set(self.pos, byte);
            self.pos = self.pos + 1;
            proof {
                assert(self.data@ =~= pre.data@.take(pre.pos as int) + seq![byte]
                    + pre.data@.skip(pre.pos + 1));
            }
            Ok(())
        } else {
            proof {
                assert(self.data@ =~= self.data@.take(self.pos as int)
                    + seq![byte].take(self.data@.len() - self.pos));
            }
            Err(Error::BufferOverflow)
        }
    }
}

} // verus!
