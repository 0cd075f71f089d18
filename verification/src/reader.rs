//! Sequential read operations over the cursor buffer. Each operation says
//! exactly which value the bytes ahead of the cursor decode to, how far the
//! cursor moves, and that the buffer itself is never changed.

use vstd::prelude::*;
use vstd::arithmetic::power2::pow2;
use vstd::arithmetic::power2::lemma_pow2_adds;
use vstd::arithmetic::power2::lemma_pow2_strictly_increases;
use vstd::arithmetic::power2::lemma2_to64;
use vstd::arithmetic::power2::lemma2_to64_rest;

use crate::bytestream::ByteStream;
use crate::bytestream::ByteStreamError;
use crate::wire::be_dec;
use crate::wire::le_dec;
use crate::wire::to_signed;
use crate::wire::lemma_be_dec_bound;
use crate::wire::lemma_le_dec_bound;
use crate::wire::lemma_le_dec_snoc;
use crate::wire::lemma_wire_pow2_values;
use crate::varint::vint_dec;
use crate::varint::vint_dec_rest;
use crate::varint::vint_fin;
use crate::varint::lemma_vint_pow2_values;
use crate::logiclong::LogicLong;
use crate::text::string_from_utf8;
use crate::zlib::inflate_bytes;
use crate::zlib::zlib_inflate;
use vstd::utf8::valid_utf8;
use vstd::utf8::decode_utf8;

verus! {

impl ByteStream {
    /// Reads the byte at the cursor and advances past it.
    pub fn read_byte(&mut self) -> (r: Result<u8, ByteStreamError>)
        requires
            old(self).wf(),
        ensures
            final(self).wf(),
            final(self).buffer@ == old(self).buffer@,
            old(self).remaining().len() > 0 ==> r == Ok::<u8, ByteStreamError>(
                old(self).remaining()[0],
            ) && final(self).offset == old(self).offset + 1,
            old(self).remaining().len() == 0 ==> r == Err::<u8, ByteStreamError>(
                ByteStreamError::NoMoreBytes,
            ) && final(self).offset == old(self).offset,
    {
        if self.offset < self.buffer.len() {
            let b = self.buffer[self.offset];
            self.offset = self.offset + 1;
            Ok(b)
        } else {
            Err(ByteStreamError::NoMoreBytes)
        }
    }

    /// Reads one byte as a boolean: true exactly when the byte is above
    /// zero. The raw byte comes back too, since it can carry information of
    /// its own.
    pub fn read_bool(&mut self) -> (r: Result<(bool, u8), ByteStreamError>)
        requires
            old(self).wf(),
        ensures
            final(self).wf(),
            final(self).buffer@ == old(self).buffer@,
            old(self).remaining().len() > 0 ==> r == Ok::<(bool, u8), ByteStreamError>(
                (old(self).remaining()[0] > 0, old(self).remaining()[0]),
            ) && final(self).offset == old(self).offset + 1,
            old(self).remaining().len() == 0 ==> r == Err::<(bool, u8), ByteStreamError>(
                ByteStreamError::NoMoreBytes,
            ) && final(self).offset == old(self).offset,
    {
        let byte = self.read_byte()?;
        Ok((byte > 0, byte))
    }

    /// Reads a raw run of `n` bytes.
    pub fn read_bytes(&mut self, n: usize) -> (r: Result<Vec<u8>, ByteStreamError>)
        requires
            old(self).wf(),
        ensures
            final(self).wf(),
            final(self).buffer@ == old(self).buffer@,
            n <= old(self).remaining().len() ==> {
                &&& final(self).offset == old(self).offset + n
                &&& r matches Ok(v) && v@ == old(self).remaining().subrange(0, n as int)
            },
            n > old(self).remaining().len() ==> r == Err::<Vec<u8>, ByteStreamError>(
                ByteStreamError::NoMoreBytes,
            ) && final(self).offset == old(self).offset,
    {
        if n > self.buffer.len() - self.offset {
            return Err(ByteStreamError::NoMoreBytes);
        }
        let ghost buf = self.buffer@;
        let ghost off = self.offset as int;
        let ghost rem = self.remaining();
        let mut v: Vec<u8> = Vec::new();
        let mut i: usize = 0;
        while i < n
            invariant
                self.wf(),
                i <= n,
                self.buffer@ == buf,
                self.offset == off,
                0 <= off,
                off + n <= buf.len(),
                buf.len() <= usize::MAX,
                rem == buf.subrange(off, buf.len() as int),
                v@ == rem.subrange(0, i as int),
            decreases n - i,
        {
            let b = self.buffer[self.offset + i];
            proof {
                assert(rem.subrange(0, i as int).push(buf[off + i]) =~= rem.subrange(0, i + 1));
            }
            v.push(b);
            i = i + 1;
        }
        self.offset = self.offset + n;
        Ok(v)
    }

    /// Reads the `n` bytes ahead as a big-endian unsigned value.
    fn read_be(&mut self, n: usize) -> (r: Result<u64, ByteStreamError>)
        requires
            old(self).wf(),
            1 <= n <= 8,
        ensures
            final(self).wf(),
            final(self).buffer@ == old(self).buffer@,
            n <= old(self).remaining().len() ==> {
                &&& final(self).offset == old(self).offset + n
                &&& r matches Ok(x) && x as nat == be_dec(
                    old(self).remaining().subrange(0, n as int),
                )
            },
            n > old(self).remaining().len() ==> r == Err::<u64, ByteStreamError>(
                ByteStreamError::NoMoreBytes,
            ) && final(self).offset == old(self).offset,
    {
        if n > self.buffer.len() - self.offset {
            return Err(ByteStreamError::NoMoreBytes);
        }
        let ghost buf = self.buffer@;
        let ghost off = self.offset as int;
        let ghost rem = self.remaining();
        let mut val: u64 = 0;
        let mut i: usize = 0;
        proof {
            lemma2_to64();
        }
        while i < n
            invariant
                self.wf(),
                i <= n <= 8,
                self.buffer@ == buf,
                self.offset == off,
                0 <= off,
                off + n <= buf.len(),
                buf.len() <= usize::MAX,
                rem == buf.subrange(off, buf.len() as int),
                val as nat == be_dec(rem.subrange(0, i as int)),
                (val as nat) < pow2(8 * i as nat),
            decreases n - i,
        {
            let b = self.buffer[self.offset + i];
            proof {
                assert(rem.subrange(0, i + 1).drop_last() =~= rem.subrange(0, i as int));
                assert(rem.subrange(0, i + 1).last() == buf[off + i]);
                if 8 * i < 56 {
                    lemma_pow2_strictly_increases(8 * i as nat, 56);
                }
                lemma2_to64();
                lemma2_to64_rest();
                lemma_pow2_adds(8 * i as nat, 8);
            }
            val = val * 256 + (b as u64);
            i = i + 1;
        }
        self.offset = self.offset + n;
        Ok(val)
    }

    /// Reads the `n` bytes ahead as a little-endian unsigned value.
    fn read_le(&mut self, n: usize) -> (r: Result<u64, ByteStreamError>)
        requires
            old(self).wf(),
            1 <= n <= 8,
        ensures
            final(self).wf(),
            final(self).buffer@ == old(self).buffer@,
            n <= old(self).remaining().len() ==> {
                &&& final(self).offset == old(self).offset + n
                &&& r matches Ok(x) && x as nat == le_dec(
                    old(self).remaining().subrange(0, n as int),
                )
            },
            n > old(self).remaining().len() ==> r == Err::<u64, ByteStreamError>(
                ByteStreamError::NoMoreBytes,
            ) && final(self).offset == old(self).offset,
    {
        if n > self.buffer.len() - self.offset {
            return Err(ByteStreamError::NoMoreBytes);
        }
        let ghost buf = self.buffer@;
        let ghost off = self.offset as int;
        let ghost rem = self.remaining();
        let mut val: u64 = 0;
        let mut d: u64 = 1;
        let mut i: usize = 0;
        proof {
            lemma2_to64();
        }
        while i < n
            invariant
                self.wf(),
                i <= n <= 8,
                self.buffer@ == buf,
                self.offset == off,
                0 <= off,
                off + n <= buf.len(),
                buf.len() <= usize::MAX,
                rem == buf.subrange(off, buf.len() as int),
                i < n ==> d == pow2(8 * i as nat),
                val as nat == le_dec(rem.subrange(0, i as int)),
                (val as nat) < pow2(8 * i as nat),
            decreases n - i,
        {
            let b = self.buffer[self.offset + i];
            proof {
                assert(rem.subrange(0, i as int).push(buf[off + i]) =~= rem.subrange(0, i + 1));
                lemma_le_dec_snoc(rem.subrange(0, i as int), buf[off + i]);
                if 8 * i < 56 {
                    lemma_pow2_strictly_increases(8 * i as nat, 56);
                }
                lemma2_to64();
                lemma2_to64_rest();
                lemma_pow2_adds(8 * i as nat, 8);
                assert((b as nat) * pow2(8 * i as nat) + pow2(8 * i as nat) <= 256 * pow2(
                    8 * i as nat,
                )) by (nonlinear_arith)
                    requires
                        b < 256,
                ;
            }
            val = val + (b as u64) * d;
            proof {
                if i + 1 < n {
                    lemma_pow2_strictly_increases(8 * i as nat, 49);
                    lemma2_to64_rest();
                }
            }
            if i + 1 < n {
                d = d * 256;
            }
            i = i + 1;
        }
        self.offset = self.offset + n;
        Ok(val)
    }

    /// Reads an unsigned byte.
    pub fn read_uint8(&mut self) -> (r: Result<u8, ByteStreamError>)
        requires
            old(self).wf(),
        ensures
            final(self).wf(),
            final(self).buffer@ == old(self).buffer@,
            old(self).remaining().len() > 0 ==> r == Ok::<u8, ByteStreamError>(
                old(self).remaining()[0],
            ) && final(self).offset == old(self).offset + 1,
            old(self).remaining().len() == 0 ==> r == Err::<u8, ByteStreamError>(
                ByteStreamError::NoMoreBytes,
            ) && final(self).offset == old(self).offset,
    {
        self.read_byte()
    }

    /// Reads a signed byte out of its two's-complement image.
    pub fn read_int8(&mut self) -> (r: Result<i8, ByteStreamError>)
        requires
            old(self).wf(),
        ensures
            final(self).wf(),
            final(self).buffer@ == old(self).buffer@,
            old(self).remaining().len() > 0 ==> {
                &&& final(self).offset == old(self).offset + 1
                &&& r matches Ok(x) && x as int == to_signed(old(self).remaining()[0] as nat, 8)
            },
            old(self).remaining().len() == 0 ==> r == Err::<i8, ByteStreamError>(
                ByteStreamError::NoMoreBytes,
            ) && final(self).offset == old(self).offset,
    {
        proof {
            lemma_wire_pow2_values();
        }
        let b = self.read_byte()?;
        if b >= 128 {
            Ok((b as i16 - 256) as i8)
        } else {
            Ok(b as i8)
        }
    }

    /// Reads a 16-bit unsigned value, big-endian.
    pub fn read_uint16(&mut self) -> (r: Result<u16, ByteStreamError>)
        requires
            old(self).wf(),
        ensures
            final(self).wf(),
            final(self).buffer@ == old(self).buffer@,
            2 <= old(self).remaining().len() ==> {
                &&& final(self).offset == old(self).offset + 2
                &&& r matches Ok(x) && x as nat == be_dec(old(self).remaining().subrange(0, 2))
            },
            2 > old(self).remaining().len() ==> r == Err::<u16, ByteStreamError>(
                ByteStreamError::NoMoreBytes,
            ) && final(self).offset == old(self).offset,
    {
        proof {
            lemma_wire_pow2_values();
            lemma_be_dec_bound(old(self).remaining().subrange(0, 2));
        }
        let w = self.read_be(2)?;
        Ok(w as u16)
    }

    /// Reads a 16-bit signed value, big-endian two's complement.
    pub fn read_int16(&mut self) -> (r: Result<i16, ByteStreamError>)
        requires
            old(self).wf(),
        ensures
            final(self).wf(),
            final(self).buffer@ == old(self).buffer@,
            2 <= old(self).remaining().len() ==> {
                &&& final(self).offset == old(self).offset + 2
                &&& r matches Ok(x) && x as int == to_signed(
                    be_dec(old(self).remaining().subrange(0, 2)),
                    16,
                )
            },
            2 > old(self).remaining().len() ==> r == Err::<i16, ByteStreamError>(
                ByteStreamError::NoMoreBytes,
            ) && final(self).offset == old(self).offset,
    {
        proof {
            lemma_wire_pow2_values();
            lemma_be_dec_bound(old(self).remaining().subrange(0, 2));
        }
        let w = self.read_be(2)?;
        if w >= 0x8000 {
            Ok((w as i32 - 0x10000) as i16)
        } else {
            Ok(w as i16)
        }
    }

    /// Reads a 24-bit unsigned value, big-endian, widened to 32 bits.
    pub fn read_uint24(&mut self) -> (r: Result<u32, ByteStreamError>)
        requires
            old(self).wf(),
        ensures
            final(self).wf(),
            final(self).buffer@ == old(self).buffer@,
            3 <= old(self).remaining().len() ==> {
                &&& final(self).offset == old(self).offset + 3
                &&& r matches Ok(x) && x as nat == be_dec(old(self).remaining().subrange(0, 3))
            },
            3 > old(self).remaining().len() ==> r == Err::<u32, ByteStreamError>(
                ByteStreamError::NoMoreBytes,
            ) && final(self).offset == old(self).offset,
    {
        proof {
            lemma_wire_pow2_values();
            lemma_be_dec_bound(old(self).remaining().subrange(0, 3));
        }
        let w = self.read_be(3)?;
        Ok(w as u32)
    }

    /// Reads a 24-bit signed value, big-endian two's complement, widened to
    /// 32 bits.
    pub fn read_int24(&mut self) -> (r: Result<i32, ByteStreamError>)
        requires
            old(self).wf(),
        ensures
            final(self).wf(),
            final(self).buffer@ == old(self).buffer@,
            3 <= old(self).remaining().len() ==> {
                &&& final(self).offset == old(self).offset + 3
                &&& r matches Ok(x) && x as int == to_signed(
                    be_dec(old(self).remaining().subrange(0, 3)),
                    24,
                )
            },
            3 > old(self).remaining().len() ==> r == Err::<i32, ByteStreamError>(
                ByteStreamError::NoMoreBytes,
            ) && final(self).offset == old(self).offset,
    {
        proof {
            lemma_wire_pow2_values();
            lemma_be_dec_bound(old(self).remaining().subrange(0, 3));
        }
        let w = self.read_be(3)?;
        if w >= 0x800000 {
            Ok((w as i64 - 0x1000000) as i32)
        } else {
            Ok(w as i32)
        }
    }

    /// Reads a 32-bit unsigned value, big-endian.
    pub fn read_uint32(&mut self) -> (r: Result<u32, ByteStreamError>)
        requires
            old(self).wf(),
        ensures
            final(self).wf(),
            final(self).buffer@ == old(self).buffer@,
            4 <= old(self).remaining().len() ==> {
                &&& final(self).offset == old(self).offset + 4
                &&& r matches Ok(x) && x as nat == be_dec(old(self).remaining().subrange(0, 4))
            },
            4 > old(self).remaining().len() ==> r == Err::<u32, ByteStreamError>(
                ByteStreamError::NoMoreBytes,
            ) && final(self).offset == old(self).offset,
    {
        proof {
            lemma_wire_pow2_values();
            lemma_be_dec_bound(old(self).remaining().subrange(0, 4));
        }
        let w = self.read_be(4)?;
        Ok(w as u32)
    }

    /// Reads a 32-bit signed value, big-endian two's complement.
    pub fn read_int32(&mut self) -> (r: Result<i32, ByteStreamError>)
        requires
            old(self).wf(),
        ensures
            final(self).wf(),
            final(self).buffer@ == old(self).buffer@,
            4 <= old(self).remaining().len() ==> {
                &&& final(self).offset == old(self).offset + 4
                &&& r matches Ok(x) && x as int == to_signed(
                    be_dec(old(self).remaining().subrange(0, 4)),
                    32,
                )
            },
            4 > old(self).remaining().len() ==> r == Err::<i32, ByteStreamError>(
                ByteStreamError::NoMoreBytes,
            ) && final(self).offset == old(self).offset,
    {
        proof {
            lemma_wire_pow2_values();
            lemma_be_dec_bound(old(self).remaining().subrange(0, 4));
        }
        let w = self.read_be(4)?;
        if w >= 0x80000000 {
            Ok((w as i64 - 0x100000000) as i32)
        } else {
            Ok(w as i32)
        }
    }

    /// Reads a 32-bit signed value, little-endian two's complement.
    pub fn read_int32_le(&mut self) -> (r: Result<i32, ByteStreamError>)
        requires
            old(self).wf(),
        ensures
            final(self).wf(),
            final(self).buffer@ == old(self).buffer@,
            4 <= old(self).remaining().len() ==> {
                &&& final(self).offset == old(self).offset + 4
                &&& r matches Ok(x) && x as int == to_signed(
                    le_dec(old(self).remaining().subrange(0, 4)),
                    32,
                )
            },
            4 > old(self).remaining().len() ==> r == Err::<i32, ByteStreamError>(
                ByteStreamError::NoMoreBytes,
            ) && final(self).offset == old(self).offset,
    {
        proof {
            lemma_wire_pow2_values();
            lemma_le_dec_bound(old(self).remaining().subrange(0, 4));
        }
        let w = self.read_le(4)?;
        if w >= 0x80000000 {
            Ok((w as i64 - 0x100000000) as i32)
        } else {
            Ok(w as i32)
        }
    }

    /// Reads a 64-bit unsigned value, big-endian.
    pub fn read_uint64(&mut self) -> (r: Result<u64, ByteStreamError>)
        requires
            old(self).wf(),
        ensures
            final(self).wf(),
            final(self).buffer@ == old(self).buffer@,
            8 <= old(self).remaining().len() ==> {
                &&& final(self).offset == old(self).offset + 8
                &&& r matches Ok(x) && x as nat == be_dec(old(self).remaining().subrange(0, 8))
            },
            8 > old(self).remaining().len() ==> r == Err::<u64, ByteStreamError>(
                ByteStreamError::NoMoreBytes,
            ) && final(self).offset == old(self).offset,
    {
        self.read_be(8)
    }

    /// Reads a 64-bit signed value, big-endian two's complement.
    pub fn read_int64(&mut self) -> (r: Result<i64, ByteStreamError>)
        requires
            old(self).wf(),
        ensures
            final(self).wf(),
            final(self).buffer@ == old(self).buffer@,
            8 <= old(self).remaining().len() ==> {
                &&& final(self).offset == old(self).offset + 8
                &&& r matches Ok(x) && x as int == to_signed(
                    be_dec(old(self).remaining().subrange(0, 8)),
                    64,
                )
            },
            8 > old(self).remaining().len() ==> r == Err::<i64, ByteStreamError>(
                ByteStreamError::NoMoreBytes,
            ) && final(self).offset == old(self).offset,
    {
        proof {
            lemma_wire_pow2_values();
            lemma_be_dec_bound(old(self).remaining().subrange(0, 8));
        }
        let w = self.read_be(8)?;
        if w >= 0x8000000000000000 {
            Ok((w as i128 - 0x10000000000000000) as i64)
        } else {
            Ok(w as i64)
        }
    }

    /// `read_long` decodes the same bytes as `read_int64`.
    pub fn read_long(&mut self) -> (r: Result<i64, ByteStreamError>)
        requires
            old(self).wf(),
        ensures
            final(self).wf(),
            final(self).buffer@ == old(self).buffer@,
            8 <= old(self).remaining().len() ==> {
                &&& final(self).offset == old(self).offset + 8
                &&& r matches Ok(x) && x as int == to_signed(
                    be_dec(old(self).remaining().subrange(0, 8)),
                    64,
                )
            },
            8 > old(self).remaining().len() ==> r == Err::<i64, ByteStreamError>(
                ByteStreamError::NoMoreBytes,
            ) && final(self).offset == old(self).offset,
    {
        self.read_int64()
    }

    /// `read_ulong` decodes the same bytes as `read_uint64`.
    pub fn read_ulong(&mut self) -> (r: Result<u64, ByteStreamError>)
        requires
            old(self).wf(),
        ensures
            final(self).wf(),
            final(self).buffer@ == old(self).buffer@,
            8 <= old(self).remaining().len() ==> {
                &&& final(self).offset == old(self).offset + 8
                &&& r matches Ok(x) && x as nat == be_dec(old(self).remaining().subrange(0, 8))
            },
            8 > old(self).remaining().len() ==> r == Err::<u64, ByteStreamError>(
                ByteStreamError::NoMoreBytes,
            ) && final(self).offset == old(self).offset,
    {
        self.read_uint64()
    }

    /// `read_longlong` decodes the same bytes as `read_int64`.
    pub fn read_longlong(&mut self) -> (r: Result<i64, ByteStreamError>)
        requires
            old(self).wf(),
        ensures
            final(self).wf(),
            final(self).buffer@ == old(self).buffer@,
            8 <= old(self).remaining().len() ==> {
                &&& final(self).offset == old(self).offset + 8
                &&& r matches Ok(x) && x as int == to_signed(
                    be_dec(old(self).remaining().subrange(0, 8)),
                    64,
                )
            },
            8 > old(self).remaining().len() ==> r == Err::<i64, ByteStreamError>(
                ByteStreamError::NoMoreBytes,
            ) && final(self).offset == old(self).offset,
    {
        self.read_int64()
    }

    /// `read_ulonglong` decodes the same bytes as `read_uint64`.
    pub fn read_ulonglong(&mut self) -> (r: Result<u64, ByteStreamError>)
        requires
            old(self).wf(),
        ensures
            final(self).wf(),
            final(self).buffer@ == old(self).buffer@,
            8 <= old(self).remaining().len() ==> {
                &&& final(self).offset == old(self).offset + 8
                &&& r matches Ok(x) && x as nat == be_dec(old(self).remaining().subrange(0, 8))
            },
            8 > old(self).remaining().len() ==> r == Err::<u64, ByteStreamError>(
                ByteStreamError::NoMoreBytes,
            ) && final(self).offset == old(self).offset,
    {
        self.read_uint64()
    }

    /// Reads a variable-length integer: one to five bytes, as `vint_dec`
    /// scans them. Five continuation flags in a row yield the sentinel -1.
    #[verifier::loop_isolation(false)]
    pub fn read_vint(&mut self) -> (r: Result<i64, ByteStreamError>)
        requires
            old(self).wf(),
        ensures
            final(self).wf(),
            final(self).buffer@ == old(self).buffer@,
            match vint_dec(old(self).remaining()) {
                Some(p) => r == Ok::<i64, ByteStreamError>(p.0) && final(self).offset == old(
                    self,
                ).offset + p.1,
                None => r == Err::<i64, ByteStreamError>(ByteStreamError::NoMoreBytes) && old(
                    self,
                ).offset <= final(self).offset <= final(self).buffer@.len(),
            },
            r matches Ok(x) ==> -0x80000000 <= x <= 0x7FFFFFFF,
    {
        proof {
            lemma_vint_pow2_values();
        }
        let ghost rem = self.remaining();
        let b0 = match self.read_byte() {
            Ok(b) => b,
            Err(_) => {
                return Err(ByteStreamError::NoMoreBytes);
            },
        };
        let sign: bool = (b0 / 0x40) % 2 == 1;
        let mut acc: u64 = (b0 % 0x40) as u64;
        let mut mult: u64 = 0x40;
        let mut j: usize = 0;
        let mut prev: u8 = b0;
        proof {
            assert(rem[0] == b0);
            assert(vint_dec(rem) == vint_dec_rest(rem, 0, acc as nat, sign));
        }
        while prev >= 0x80 && j < 4
            invariant
                self.wf(),
                self.buffer@ == old(self).buffer@,
                j <= 4,
                rem.len() >= j + 1,
                prev == rem[j as int],
                mult == pow2((6 + 7 * j) as nat),
                (acc as nat) < pow2((6 + 7 * j) as nat),
                vint_dec(rem) == vint_dec_rest(rem, j as int, acc as nat, sign),
                self.offset == old(self).offset + j + 1,
            decreases 4 - j,
        {
            let b = match self.read_byte() {
                Ok(b) => b,
                Err(_) => {
                    proof {
                        assert(rem.len() <= j + 1);
                        assert(vint_dec_rest(rem, j as int, acc as nat, sign) is None);
                    }
                    return Err(ByteStreamError::NoMoreBytes);
                },
            };
            proof {
                assert(rem[j + 1] == b);
                lemma_vint_pow2_values();
                lemma_pow2_adds((6 + 7 * j) as nat, 7);
                lemma_pow2_strictly_increases((6 + 7 * j) as nat, 28);
                assert(((b % 0x80) as nat) * pow2((6 + 7 * j) as nat) + pow2((6 + 7 * j) as nat)
                    <= 0x80 * pow2((6 + 7 * j) as nat)) by (nonlinear_arith)
                    requires
                        (b % 0x80) < 0x80,
                ;
            }
            acc = acc + ((b % 0x80) as u64) * mult;
            mult = mult * 0x80;
            prev = b;
            j = j + 1;
        }
        proof {
            lemma_vint_pow2_values();
        }
        if prev >= 0x80 {
            // a fifth continuation flag: the overlong sentinel
            proof {
                assert(j == 4);
                assert(vint_dec_rest(rem, 4, acc as nat, sign) == Some::<(i64, int)>((-1i64, 5)));
            }
            return Ok(-1);
        }
        proof {
            assert(vint_dec(rem) == Some::<(i64, int)>(
                (vint_fin(acc as nat, sign, (6 + 7 * j) as nat), j + 1),
            ));
            assert(acc % mult == acc) by {
                vstd::arithmetic::div_mod::lemma_small_mod(acc as nat, mult as nat);
            }
        }
        let value: i64 = if sign && j <= 3 {
            let wv: u64 = acc + 0x100000000 - mult;
            proof {
                assert(wv >= 0x80000000);
            }
            (wv as i64) - 0x100000000
        } else {
            let wv: u64 = acc % 0x100000000;
            if wv >= 0x80000000 {
                (wv as i64) - 0x100000000
            } else {
                wv as i64
            }
        };
        proof {
            assert(value == vint_fin(acc as nat, sign, (6 + 7 * j) as nat));
        }
        Ok(value)
    }

    /// Reads `size` bytes and decodes them as UTF-8.
    pub fn read_string_size(&mut self, size: usize) -> (r: Result<String, ByteStreamError>)
        requires
            old(self).wf(),
        ensures
            final(self).wf(),
            final(self).buffer@ == old(self).buffer@,
            size > old(self).remaining().len() ==> r == Err::<String, ByteStreamError>(
                ByteStreamError::NoMoreBytes,
            ) && final(self).offset == old(self).offset,
            size <= old(self).remaining().len() ==> ({
                let taken = old(self).remaining().subrange(0, size as int);
                &&& final(self).offset == old(self).offset + size
                &&& valid_utf8(taken) ==> (r matches Ok(s) && s@ == decode_utf8(taken))
                &&& !valid_utf8(taken) ==> (r matches Err(e) && e matches
                    ByteStreamError::InvalidString(_))
            }),
    {
        let bytes = self.read_bytes(size)?;
        match string_from_utf8(bytes) {
            Ok(s) => Ok(s),
            Err(m) => Err(ByteStreamError::InvalidString(m)),
        }
    }

    /// Reads a length-prefixed string: a 4-byte big-endian signed length,
    /// then that many UTF-8 bytes. Length 0 and -1 both mean the empty
    /// string and consume nothing further; a length below -1 is malformed.
    #[verifier::loop_isolation(false)]
    pub fn read_string(&mut self) -> (r: Result<String, ByteStreamError>)
        requires
            old(self).wf(),
        ensures
            final(self).wf(),
            final(self).buffer@ == old(self).buffer@,
            old(self).remaining().len() < 4 ==> r == Err::<String, ByteStreamError>(
                ByteStreamError::NoMoreBytes,
            ) && final(self).offset == old(self).offset,
            old(self).remaining().len() >= 4 ==> ({
                let len32 = to_signed(be_dec(old(self).remaining().subrange(0, 4)), 32);
                &&& len32 < -1 ==> r == Err::<String, ByteStreamError>(
                    ByteStreamError::InvalidStringLength(((usize::MAX + 1) + len32) as usize),
                ) && final(self).offset == old(self).offset + 4
                &&& (len32 == 0 || len32 == -1) ==> (r matches Ok(s) && s@
                    == Seq::<char>::empty()) && final(self).offset == old(self).offset + 4
                &&& (len32 >= 1 && old(self).remaining().len() < 4 + len32) ==> r == Err::<
                    String,
                    ByteStreamError,
                >(ByteStreamError::NoMoreBytes) && final(self).offset == old(self).offset + 4
                &&& (len32 >= 1 && old(self).remaining().len() >= 4 + len32) ==> ({
                    let taken = old(self).remaining().subrange(4, 4 + len32);
                    &&& final(self).offset == old(self).offset + 4 + len32
                    &&& valid_utf8(taken) ==> (r matches Ok(s) && s@ == decode_utf8(taken))
                    &&& !valid_utf8(taken) ==> (r matches Err(e) && e matches
                        ByteStreamError::InvalidString(_))
                })
            }),
    {
        let length = self.read_int32()?;
        if length < -1 {
            let neg = (-(length as i64)) as usize;
            return Err(ByteStreamError::InvalidStringLength(usize::MAX - neg + 1));
        }
        if length == 0 || length == -1 {
            return Ok(String::new());
        }
        proof {
            assert(self.remaining() =~= old(self).remaining().subrange(
                4,
                old(self).remaining().len() as int,
            ));
            if length as int <= self.remaining().len() {
                assert(self.remaining().subrange(0, length as int) =~= old(
                    self,
                ).remaining().subrange(4, 4 + length as int));
            }
        }
        self.read_string_size(length as usize)
    }

    /// Reads a string written in the string-reference form. On the wire
    /// the two forms read identically; they differ only in how the empty
    /// string is written.
    pub fn read_string_reference(&mut self) -> (r: Result<String, ByteStreamError>)
        requires
            old(self).wf(),
        ensures
            final(self).wf(),
            final(self).buffer@ == old(self).buffer@,
            old(self).remaining().len() < 4 ==> r == Err::<String, ByteStreamError>(
                ByteStreamError::NoMoreBytes,
            ) && final(self).offset == old(self).offset,
            old(self).remaining().len() >= 4 ==> ({
                let len32 = to_signed(be_dec(old(self).remaining().subrange(0, 4)), 32);
                &&& len32 < -1 ==> r == Err::<String, ByteStreamError>(
                    ByteStreamError::InvalidStringLength(((usize::MAX + 1) + len32) as usize),
                ) && final(self).offset == old(self).offset + 4
                &&& (len32 == 0 || len32 == -1) ==> (r matches Ok(s) && s@
                    == Seq::<char>::empty()) && final(self).offset == old(self).offset + 4
                &&& (len32 >= 1 && old(self).remaining().len() < 4 + len32) ==> r == Err::<
                    String,
                    ByteStreamError,
                >(ByteStreamError::NoMoreBytes) && final(self).offset == old(self).offset + 4
                &&& (len32 >= 1 && old(self).remaining().len() >= 4 + len32) ==> ({
                    let taken = old(self).remaining().subrange(4, 4 + len32);
                    &&& final(self).offset == old(self).offset + 4 + len32
                    &&& valid_utf8(taken) ==> (r matches Ok(s) && s@ == decode_utf8(taken))
                    &&& !valid_utf8(taken) ==> (r matches Err(e) && e matches
                        ByteStreamError::InvalidString(_))
                })
            }),
    {
        self.read_string()
    }

    /// Reads a compressed string: a 4-byte big-endian compressed length, a
    /// 4-byte little-endian uncompressed length that is recorded but not
    /// validated, and that many bytes of zlib stream, inflated and decoded
    /// as UTF-8.
    #[verifier::loop_isolation(false)]
    pub fn read_compressed_string(&mut self) -> (r: Result<String, ByteStreamError>)
        requires
            old(self).wf(),
        ensures
            final(self).wf(),
            final(self).buffer@ == old(self).buffer@,
            old(self).remaining().len() < 4 ==> r == Err::<String, ByteStreamError>(
                ByteStreamError::NoMoreBytes,
            ) && final(self).offset == old(self).offset,
            4 <= old(self).remaining().len() < 8 ==> r == Err::<String, ByteStreamError>(
                ByteStreamError::NoMoreBytes,
            ) && final(self).offset == old(self).offset + 4,
            old(self).remaining().len() >= 8 ==> ({
                let cs = to_signed(be_dec(old(self).remaining().subrange(0, 4)), 32);
                &&& cs < 0 ==> r == Err::<String, ByteStreamError>(ByteStreamError::NoMoreBytes)
                    && final(self).offset == old(self).offset + 8
                &&& (cs >= 0 && old(self).remaining().len() < 8 + cs) ==> r == Err::<
                    String,
                    ByteStreamError,
                >(ByteStreamError::NoMoreBytes) && final(self).offset == old(self).offset + 8
                &&& (cs >= 0 && old(self).remaining().len() >= 8 + cs) ==> ({
                    let comp = old(self).remaining().subrange(8, 8 + cs);
                    &&& final(self).offset == old(self).offset + 8 + cs
                    &&& match zlib_inflate(comp) {
                        Some(d) => ({
                            &&& valid_utf8(d) ==> (r matches Ok(s) && s@ == decode_utf8(d))
                            &&& !valid_utf8(d) ==> (r matches Err(e) && e matches
                                ByteStreamError::InvalidString(_))
                        }),
                        None => r matches Err(e) && e matches ByteStreamError::IoError(_),
                    }
                })
            }),
    {
        let compressed_size = self.read_int32()?;
        let _uncompressed_size = self.read_int32_le()?;
        if compressed_size < 0 {
            return Err(ByteStreamError::NoMoreBytes);
        }
        proof {
            assert(self.remaining() =~= old(self).remaining().subrange(
                8,
                old(self).remaining().len() as int,
            ));
            if compressed_size as int <= self.remaining().len() {
                assert(self.remaining().subrange(0, compressed_size as int) =~= old(
                    self,
                ).remaining().subrange(8, 8 + compressed_size as int));
            }
        }
        let compressed_bytes = self.read_bytes(compressed_size as usize)?;
        let data = match inflate_bytes(compressed_bytes.as_slice()) {
            Ok(d) => d,
            Err(m) => {
                return Err(ByteStreamError::IoError(m));
            },
        };
        match string_from_utf8(data) {
            Ok(s) => Ok(s),
            Err(m) => Err(ByteStreamError::InvalidString(m)),
        }
    }

    /// Reads an identifier: its `low` component first, then `high`, each
    /// a 4-byte big-endian value, and derives its canonical tag.
    pub fn read_logic_long(&mut self) -> (r: Result<LogicLong, ByteStreamError>)
        requires
            old(self).wf(),
        ensures
            final(self).wf(),
            final(self).buffer@ == old(self).buffer@,
            old(self).remaining().len() < 4 ==> r == Err::<LogicLong, ByteStreamError>(
                ByteStreamError::NoMoreBytes,
            ) && final(self).offset == old(self).offset,
            4 <= old(self).remaining().len() < 8 ==> r == Err::<LogicLong, ByteStreamError>(
                ByteStreamError::NoMoreBytes,
            ) && final(self).offset == old(self).offset + 4,
            old(self).remaining().len() >= 8 ==> (r matches Ok(ll) && ll.low as nat == be_dec(
                old(self).remaining().subrange(0, 4),
            ) && ll.high as nat == be_dec(old(self).remaining().subrange(4, 8)) && ll.wf())
                && final(self).offset == old(self).offset + 8,
    {
        let low = self.read_uint32()?;
        proof {
            if old(self).remaining().len() >= 8 {
                assert(self.remaining() =~= old(self).remaining().subrange(
                    4,
                    old(self).remaining().len() as int,
                ));
                assert(self.remaining().subrange(0, 4) =~= old(self).remaining().subrange(4, 8));
            }
        }
        let high = self.read_uint32()?;
        Ok(LogicLong::new(high, low))
    }
}

} // verus!
