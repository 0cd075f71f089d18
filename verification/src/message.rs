//! The message contract: how any composite value's byte layout follows
//! from its declared shape. A type takes part in the protocol by giving
//! its wire image — for a struct, the concatenation of its fields' images
//! in declaration order; for an enum, the discriminant in the type's
//! declared width and byte order, then the chosen variant's fields in
//! order — and by encoding and decoding exactly that image through the
//! cursor buffer. The trait here states that rule once; each
//! implementation, generated or written by hand, is held to it.

use vstd::prelude::*;

use crate::bytestream::ByteStream;
use crate::bytestream::ByteStreamError;
use crate::bytestream::spec_write_at;
use crate::bytestream::lemma_write_at_compose;
use crate::logiclong::LogicLong;
use crate::wire::be_enc;
use crate::wire::be_dec;
use crate::wire::to_unsigned;
use crate::wire::to_signed;
use crate::wire::lemma_be_enc_len;
use crate::wire::lemma_be_dec_enc;
use crate::wire::lemma_unsigned_round_trip;
use crate::wire::lemma_be_dec_bound;
use crate::wire::lemma_wire_pow2_values;

verus! {

/// A value that can stand in a protocol message. `wire` is the exact
/// byte image the value has on the wire; `encode` lays that image down at
/// the cursor, and `decode` consumes exactly the image of the value it
/// returns.
pub trait Message: Sized {
    /// The bytes this value has on the wire.
    spec fn wire(&self) -> Seq<u8>;

    /// Whether the bytes ahead begin with the wire image of some value of
    /// this type: exactly when they do, a decode must succeed.
    spec fn can_decode(bytes: Seq<u8>) -> bool;

    /// Writes the value's wire image at the cursor.
    fn encode(&self, out: &mut ByteStream) -> (r: Result<(), ByteStreamError>)
        requires
            old(out).can_write(self.wire().len()),
        ensures
            final(out).wf(),
            r is Ok,
            final(out).buffer@ == spec_write_at(
                old(out).buffer@,
                old(out).offset as int,
                self.wire(),
            ),
            final(out).offset == old(out).offset + self.wire().len(),
            final(out).buffer@.len() <= old(out).buffer@.len() + self.wire().len(),
    ;

    /// Reads one value at the cursor: on success, the bytes consumed are
    /// exactly the returned value's wire image.
    fn decode(inp: &mut ByteStream) -> (r: Result<Self, ByteStreamError>)
        requires
            old(inp).wf(),
        ensures
            final(inp).wf(),
            final(inp).buffer@ == old(inp).buffer@,
            old(inp).offset <= final(inp).offset,
            Self::can_decode(old(inp).remaining()) ==> r is Ok,
            r matches Ok(v) ==> final(inp).offset == old(inp).offset + v.wire().len()
                && v.wire().len() <= old(inp).remaining().len() && old(
                inp,
            ).remaining().subrange(0, v.wire().len() as int) == v.wire(),
    ;
}

impl Message for u8 {
    open spec fn wire(&self) -> Seq<u8> {
        seq![*self]
    }

    open spec fn can_decode(bytes: Seq<u8>) -> bool {
        bytes.len() >= 1
    }

    fn encode(&self, out: &mut ByteStream) -> (r: Result<(), ByteStreamError>) {
        out.write_byte(*self)
    }

    fn decode(inp: &mut ByteStream) -> (r: Result<u8, ByteStreamError>) {
        let b = inp.read_byte()?;
        proof {
            assert(old(inp).remaining().subrange(0, 1) =~= seq![b]);
        }
        Ok(b)
    }
}

impl Message for u32 {
    open spec fn wire(&self) -> Seq<u8> {
        be_enc(*self as nat, 4)
    }

    open spec fn can_decode(bytes: Seq<u8>) -> bool {
        bytes.len() >= 4
    }

    fn encode(&self, out: &mut ByteStream) -> (r: Result<(), ByteStreamError>) {
        proof {
            lemma_be_enc_len(*self as nat, 4);
        }
        out.write_uint32(*self)
    }

    fn decode(inp: &mut ByteStream) -> (r: Result<u32, ByteStreamError>) {
        let x = inp.read_uint32()?;
        proof {
            lemma_be_dec_enc(old(inp).remaining().subrange(0, 4));
        }
        Ok(x)
    }
}

impl Message for i32 {
    open spec fn wire(&self) -> Seq<u8> {
        be_enc(to_unsigned(*self as int, 32), 4)
    }

    open spec fn can_decode(bytes: Seq<u8>) -> bool {
        bytes.len() >= 4
    }

    fn encode(&self, out: &mut ByteStream) -> (r: Result<(), ByteStreamError>) {
        proof {
            lemma_be_enc_len(to_unsigned(*self as int, 32), 4);
        }
        out.write_int32(*self)
    }

    fn decode(inp: &mut ByteStream) -> (r: Result<i32, ByteStreamError>) {
        let x = inp.read_int32()?;
        proof {
            lemma_wire_pow2_values();
            lemma_be_dec_bound(old(inp).remaining().subrange(0, 4));
            lemma_unsigned_round_trip(be_dec(old(inp).remaining().subrange(0, 4)), 32);
            lemma_be_dec_enc(old(inp).remaining().subrange(0, 4));
        }
        Ok(x)
    }
}

impl Message for u64 {
    open spec fn wire(&self) -> Seq<u8> {
        be_enc(*self as nat, 8)
    }

    open spec fn can_decode(bytes: Seq<u8>) -> bool {
        bytes.len() >= 8
    }

    fn encode(&self, out: &mut ByteStream) -> (r: Result<(), ByteStreamError>) {
        proof {
            lemma_be_enc_len(*self as nat, 8);
        }
        out.write_uint64(*self)
    }

    fn decode(inp: &mut ByteStream) -> (r: Result<u64, ByteStreamError>) {
        let x = inp.read_uint64()?;
        proof {
            lemma_be_dec_enc(old(inp).remaining().subrange(0, 8));
        }
        Ok(x)
    }
}

impl Message for LogicLong {
    open spec fn wire(&self) -> Seq<u8> {
        be_enc(self.low as nat, 4) + be_enc(self.high as nat, 4)
    }

    open spec fn can_decode(bytes: Seq<u8>) -> bool {
        bytes.len() >= 8
    }

    fn encode(&self, out: &mut ByteStream) -> (r: Result<(), ByteStreamError>) {
        proof {
            lemma_be_enc_len(self.low as nat, 4);
            lemma_be_enc_len(self.high as nat, 4);
        }
        let ghost d0 = out.buffer@;
        let ghost p0 = out.offset as int;
        let _ = out.write_uint32(self.low);
        let _ = out.write_uint32(self.high);
        proof {
            lemma_write_at_compose(
                d0,
                p0,
                be_enc(self.low as nat, 4),
                be_enc(self.high as nat, 4),
            );
        }
        Ok(())
    }

    fn decode(inp: &mut ByteStream) -> (r: Result<LogicLong, ByteStreamError>) {
        let ll = inp.read_logic_long()?;
        proof {
            lemma_be_dec_enc(old(inp).remaining().subrange(0, 4));
            lemma_be_dec_enc(old(inp).remaining().subrange(4, 8));
            assert(old(inp).remaining().subrange(0, 8) =~= old(inp).remaining().subrange(0, 4)
                + old(inp).remaining().subrange(4, 8));
        }
        Ok(ll)
    }
}

/// A session greeting, as a product type under the contract: its fields
/// go on the wire strictly in declaration order.
#[derive(Clone, Copy, Debug, PartialEq, Eq, Structural)]
pub struct Handshake {
    pub protocol: u32,
    pub key_version: u32,
    pub device: u8,
}

impl Message for Handshake {
    open spec fn wire(&self) -> Seq<u8> {
        be_enc(self.protocol as nat, 4) + be_enc(self.key_version as nat, 4) + seq![self.device]
    }

    open spec fn can_decode(bytes: Seq<u8>) -> bool {
        bytes.len() >= 9
    }

    fn encode(&self, out: &mut ByteStream) -> (r: Result<(), ByteStreamError>) {
        proof {
            lemma_be_enc_len(self.protocol as nat, 4);
            lemma_be_enc_len(self.key_version as nat, 4);
        }
        let ghost d0 = out.buffer@;
        let ghost p0 = out.offset as int;
        let _ = out.write_uint32(self.protocol);
        let _ = out.write_uint32(self.key_version);
        proof {
            lemma_write_at_compose(
                d0,
                p0,
                be_enc(self.protocol as nat, 4),
                be_enc(self.key_version as nat, 4),
            );
        }
        let _ = out.write_byte(self.device);
        proof {
            lemma_write_at_compose(
                d0,
                p0,
                be_enc(self.protocol as nat, 4) + be_enc(self.key_version as nat, 4),
                seq![self.device],
            );
        }
        Ok(())
    }

    fn decode(inp: &mut ByteStream) -> (r: Result<Handshake, ByteStreamError>) {
        let ghost rem = old(inp).remaining();
        let protocol = inp.read_uint32()?;
        proof {
            if rem.len() >= 9 {
                assert(inp.remaining() =~= rem.subrange(4, rem.len() as int));
                assert(inp.remaining().subrange(0, 4) =~= rem.subrange(4, 8));
            }
        }
        let key_version = inp.read_uint32()?;
        proof {
            assert(inp.remaining() =~= rem.subrange(8, rem.len() as int));
        }
        let device = inp.read_byte()?;
        let v = Handshake { protocol, key_version, device };
        proof {
            lemma_be_dec_enc(rem.subrange(0, 4));
            lemma_be_dec_enc(rem.subrange(4, 8));
            assert(rem.subrange(0, 9) =~= rem.subrange(0, 4) + rem.subrange(4, 8) + seq![
                rem[8],
            ]);
        }
        Ok(v)
    }
}

/// A client command, as a sum type under the contract: one byte of
/// big-endian discriminant — 0, 1 or 2 by variant order — then the chosen
/// variant's fields in declaration order. A discriminant that selects no
/// variant fails the decode.
#[derive(Clone, Copy, Debug, PartialEq, Eq, Structural)]
pub enum Command {
    KeepAlive,
    SetLatency { millis: u32 },
    Join { session: u32, slot: u8 },
}

impl Message for Command {
    open spec fn wire(&self) -> Seq<u8> {
        match self {
            Command::KeepAlive => seq![0u8],
            Command::SetLatency { millis } => seq![1u8] + be_enc(*millis as nat, 4),
            Command::Join { session, slot } => seq![2u8] + be_enc(*session as nat, 4)
                + seq![*slot],
        }
    }

    open spec fn can_decode(bytes: Seq<u8>) -> bool {
        bytes.len() >= 1 && (bytes[0] == 0 || (bytes[0] == 1 && bytes.len() >= 5) || (bytes[0]
            == 2 && bytes.len() >= 6))
    }

    fn encode(&self, out: &mut ByteStream) -> (r: Result<(), ByteStreamError>) {
        let ghost d0 = out.buffer@;
        let ghost p0 = out.offset as int;
        match self {
            Command::KeepAlive => {
                let _ = out.write_byte(0);
            },
            Command::SetLatency { millis } => {
                proof {
                    lemma_be_enc_len(*millis as nat, 4);
                }
                let _ = out.write_byte(1);
                let _ = out.write_uint32(*millis);
                proof {
                    lemma_write_at_compose(d0, p0, seq![1u8], be_enc(*millis as nat, 4));
                }
            },
            Command::Join { session, slot } => {
                proof {
                    lemma_be_enc_len(*session as nat, 4);
                }
                let _ = out.write_byte(2);
                let _ = out.write_uint32(*session);
                proof {
                    lemma_write_at_compose(d0, p0, seq![2u8], be_enc(*session as nat, 4));
                }
                let _ = out.write_byte(*slot);
                proof {
                    lemma_write_at_compose(
                        d0,
                        p0,
                        seq![2u8] + be_enc(*session as nat, 4),
                        seq![*slot],
                    );
                }
            },
        }
        Ok(())
    }

    fn decode(inp: &mut ByteStream) -> (r: Result<Command, ByteStreamError>) {
        let ghost rem = old(inp).remaining();
        let disc = inp.read_byte()?;
        if disc == 0 {
            let v = Command::KeepAlive;
            proof {
                assert(rem.subrange(0, 1) =~= seq![rem[0]]);
            }
            Ok(v)
        } else if disc == 1 {
            proof {
                assert(inp.remaining() =~= rem.subrange(1, rem.len() as int));
            }
            let ghost rem1 = inp.remaining();
            let millis = inp.read_uint32()?;
            let v = Command::SetLatency { millis };
            proof {
                assert(rem1.subrange(0, 4) =~= rem.subrange(1, 5));
                lemma_be_dec_enc(rem.subrange(1, 5));
                assert(rem.subrange(0, 5) =~= seq![rem[0]] + rem.subrange(1, 5));
            }
            Ok(v)
        } else if disc == 2 {
            proof {
                assert(inp.remaining() =~= rem.subrange(1, rem.len() as int));
            }
            let ghost rem1 = inp.remaining();
            let session = inp.read_uint32()?;
            proof {
                assert(rem1.subrange(0, 4) =~= rem.subrange(1, 5));
                assert(inp.remaining() =~= rem.subrange(5, rem.len() as int));
            }
            let slot = inp.read_byte()?;
            let v = Command::Join { session, slot };
            proof {
                lemma_be_dec_enc(rem.subrange(1, 5));
                assert(rem.subrange(0, 6) =~= seq![rem[0]] + rem.subrange(1, 5) + seq![rem[5]]);
            }
            Ok(v)
        } else {
            Err(ByteStreamError::UnknownDiscriminant(disc as u64))
        }
    }
}

/// The wire image of a run of message values: each value's image in
/// order, nothing between them.
pub open spec fn wire_all<T: Message>(items: Seq<T>) -> Seq<u8>
    decreases items.len(),
{
    if items.len() == 0 {
        Seq::empty()
    } else {
        wire_all(items.drop_last()) + items.last().wire()
    }
}

/// Dropping the last element of a run drops exactly its image.
proof fn lemma_wire_all_take<T: Message>(items: Seq<T>, i: int)
    requires
        0 <= i < items.len(),
    ensures
        wire_all(items.subrange(0, i + 1)) == wire_all(items.subrange(0, i)) + items[i].wire(),
{
    assert(items.subrange(0, i + 1).drop_last() =~= items.subrange(0, i));
    assert(items.subrange(0, i + 1).last() == items[i]);
}

/// Encodes a run of message values in order: the collection's image is
/// the concatenation of its elements' images.
pub fn encode_all<T: Message>(items: &Vec<T>, out: &mut ByteStream) -> (r: Result<
    (),
    ByteStreamError,
>)
    requires
        old(out).can_write(wire_all(items@).len()),
    ensures
        final(out).wf(),
        r is Ok,
        final(out).buffer@ == spec_write_at(
            old(out).buffer@,
            old(out).offset as int,
            wire_all(items@),
        ),
        final(out).offset == old(out).offset + wire_all(items@).len(),
{
    let ghost d0 = out.buffer@;
    let ghost p0 = out.offset as int;
    let mut i: usize = 0;
    proof {
        assert(items@.subrange(0, 0) =~= Seq::<T>::empty());
        lemma_wire_all_prefix_le(items@, 0);
    }
    while i < items.len()
        invariant
            i <= items@.len(),
            0 <= p0 <= d0.len(),
            d0.len() + wire_all(items@).len() <= usize::MAX,
            out.wf(),
            out.buffer@ == spec_write_at(d0, p0, wire_all(items@.subrange(0, i as int))),
            out.offset == p0 + wire_all(items@.subrange(0, i as int)).len(),
            out.buffer@.len() <= d0.len() + wire_all(items@.subrange(0, i as int)).len(),
            wire_all(items@.subrange(0, i as int)).len() <= wire_all(items@).len(),
        decreases items@.len() - i,
    {
        proof {
            lemma_wire_all_take(items@, i as int);
            lemma_wire_all_prefix_le(items@, i + 1);
        }
        let _ = items[i].encode(out);
        proof {
            lemma_write_at_compose(
                d0,
                p0,
                wire_all(items@.subrange(0, i as int)),
                items@[i as int].wire(),
            );
        }
        i = i + 1;
    }
    proof {
        assert(items@.subrange(0, items@.len() as int) =~= items@);
    }
    Ok(())
}

/// A prefix of a run never has a longer image than the whole.
proof fn lemma_wire_all_prefix_le<T: Message>(items: Seq<T>, i: int)
    requires
        0 <= i <= items.len(),
    ensures
        wire_all(items.subrange(0, i)).len() <= wire_all(items).len(),
    decreases items.len(),
{
    if i == items.len() {
        assert(items.subrange(0, i) =~= items);
    } else {
        lemma_wire_all_prefix_le(items.drop_last(), i);
        assert(items.drop_last().subrange(0, i) =~= items.subrange(0, i));
    }
}

/// Decodes a run of `count` message values in order: the bytes consumed
/// are exactly the returned collection's image.
pub fn decode_all<T: Message>(inp: &mut ByteStream, count: usize) -> (r: Result<
    Vec<T>,
    ByteStreamError,
>)
    requires
        old(inp).wf(),
    ensures
        final(inp).wf(),
        final(inp).buffer@ == old(inp).buffer@,
        old(inp).offset <= final(inp).offset,
        r matches Ok(v) ==> v@.len() == count && final(inp).offset == old(inp).offset + wire_all(
            v@,
        ).len() && wire_all(v@).len() <= old(inp).remaining().len() && old(
            inp,
        ).remaining().subrange(0, wire_all(v@).len() as int) == wire_all(v@),
{
    let ghost rem = old(inp).remaining();
    let mut v: Vec<T> = Vec::new();
    let mut i: usize = 0;
    proof {
        assert(wire_all(v@) =~= Seq::<u8>::empty());
        assert(rem.subrange(0, 0) =~= Seq::<u8>::empty());
    }
    while i < count
        invariant
            i <= count,
            inp.wf(),
            inp.buffer@ == old(inp).buffer@,
            rem == old(inp).remaining(),
            v@.len() == i,
            inp.offset == old(inp).offset + wire_all(v@).len(),
            wire_all(v@).len() <= rem.len(),
            rem.subrange(0, wire_all(v@).len() as int) == wire_all(v@),
        decreases count - i,
    {
        let ghost v0 = v@;
        let ghost used = wire_all(v0).len() as int;
        proof {
            assert(inp.remaining() =~= rem.subrange(used, rem.len() as int));
        }
        let item = match T::decode(inp) {
            Ok(item) => item,
            Err(e) => {
                return Err(e);
            },
        };
        proof {
            let w = item.wire();
            assert(v0.push(item).drop_last() =~= v0);
            assert(v0.push(item).last() == item);
            assert(wire_all(v0.push(item)) == wire_all(v0) + w);
            assert(rem.subrange(used, rem.len() as int).subrange(0, w.len() as int)
                =~= rem.subrange(used, used + w.len()));
            assert(rem.subrange(0, used + w.len()) =~= rem.subrange(0, used) + rem.subrange(
                used,
                used + w.len(),
            ));
        }
        v.push(item);
        i = i + 1;
    }
    Ok(v)
}

} // verus!
