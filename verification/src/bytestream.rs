//! The cursor buffer: one in-memory byte sequence with a read/write position
//! that every codec operation advances.

use vstd::prelude::*;

verus! {

/// Everything a codec operation can fail with.
#[derive(Debug, Clone, PartialEq, Eq)]
pub enum ByteStreamError {
    /// Failure reported by a decoder working over the buffer.
    IoError(String),
    InvalidBytesRead(usize),
    InvalidBytesWritten(usize),
    /// A string length prefix below -1.
    InvalidStringLength(usize),
    /// Decoded bytes that are not valid UTF-8.
    InvalidString(String),
    NotEnoughBytes,
    /// A read past the end of the buffer.
    NoMoreBytes,
    /// An enum discriminant that selects no variant.
    UnknownDiscriminant(u64),
}

/// A byte sequence written at position `pos` of `data`: bytes before `pos`
/// are kept, the written bytes overwrite from `pos` on, and whatever old
/// bytes lie beyond them are kept as well.
pub open spec fn spec_write_at(data: Seq<u8>, pos: int, bytes: Seq<u8>) -> Seq<u8>
    recommends
        0 <= pos <= data.len(),
{
    data.subrange(0, pos) + bytes + if pos + bytes.len() <= data.len() {
        data.subrange(pos + bytes.len(), data.len() as int)
    } else {
        Seq::empty()
    }
}

/// Writing at the end of the buffer appends.
pub proof fn lemma_write_at_end(data: Seq<u8>, bytes: Seq<u8>)
    ensures
        spec_write_at(data, data.len() as int, bytes) == data + bytes,
{
    assert(spec_write_at(data, data.len() as int, bytes) =~= data + bytes);
}

/// The bytes written at `pos` are exactly what a read of the same width at
/// `pos` then sees.
pub proof fn lemma_write_at_reads_back(data: Seq<u8>, pos: int, bytes: Seq<u8>)
    requires
        0 <= pos <= data.len(),
    ensures
        spec_write_at(data, pos, bytes).len() >= pos + bytes.len(),
        spec_write_at(data, pos, bytes).subrange(pos, pos + bytes.len() as int) == bytes,
{
    assert(spec_write_at(data, pos, bytes).subrange(pos, pos + bytes.len() as int) =~= bytes);
}

/// Writing `b2` right after `b1` leaves the same buffer as writing their
/// concatenation at once.
pub proof fn lemma_write_at_compose(data: Seq<u8>, pos: int, b1: Seq<u8>, b2: Seq<u8>)
    requires
        0 <= pos <= data.len(),
    ensures
        spec_write_at(spec_write_at(data, pos, b1), pos + b1.len(), b2) == spec_write_at(
            data,
            pos,
            b1 + b2,
        ),
{
    assert(spec_write_at(spec_write_at(data, pos, b1), pos + b1.len(), b2) =~= spec_write_at(
        data,
        pos,
        b1 + b2,
    ));
}

/// The cursor buffer. Created empty to encode, or over a received buffer to
/// decode; `offset` is the position of the next byte to read or write.
#[derive(Debug)]
pub struct ByteStream {
    pub buffer: Vec<u8>,
    pub offset: usize,
}

impl ByteStream {
    /// The invariant every operation preserves: the cursor never passes the
    /// end of the buffer.
    pub open spec fn wf(&self) -> bool {
        self.offset <= self.buffer@.len()
    }

    /// The bytes still ahead of the cursor.
    pub open spec fn remaining(&self) -> Seq<u8> {
        self.buffer@.subrange(self.offset as int, self.buffer@.len() as int)
    }

    /// A machine bound: `n` more bytes can be written without the buffer
    /// length outgrowing `usize`.
    pub open spec fn can_write(&self, n: nat) -> bool {
        self.wf() && self.buffer@.len() + n <= usize::MAX
    }

    /// A stream over a received buffer, cursor at the start: for decoding.
    pub fn new_from_buffer(buffer: Vec<u8>) -> (s: ByteStream)
        ensures
            s.wf(),
            s.buffer@ == buffer@,
            s.offset == 0,
    {
        ByteStream { buffer, offset: 0 }
    }

    /// An empty stream, cursor at the start: for encoding.
    pub fn new() -> (s: ByteStream)
        ensures
            s.wf(),
            s.buffer@ == Seq::<u8>::empty(),
            s.offset == 0,
    {
        ByteStream { buffer: Vec::new(), offset: 0 }
    }
}

} // verus!
