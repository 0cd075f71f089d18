//! Sequential write operations over the cursor buffer. Each operation
//! states the exact bytes it lays down, as `spec_write_at` of the old
//! buffer and an encoding from `wire`.

use vstd::prelude::*;
use vstd::arithmetic::power2::pow2;
use vstd::arithmetic::power2::lemma_pow2_pos;
use vstd::arithmetic::power2::lemma_pow2_adds;
use vstd::arithmetic::power2::lemma_pow2_subtracts;
use vstd::arithmetic::power2::lemma_pow2_strictly_increases;
use vstd::arithmetic::power2::lemma2_to64;
use vstd::arithmetic::power2::lemma2_to64_rest;

use crate::bytestream::ByteStream;
use crate::bytestream::ByteStreamError;
use crate::bytestream::spec_write_at;
use crate::bytestream::lemma_write_at_compose;
use crate::wire::be_enc;
use crate::wire::le_enc;
use crate::wire::to_unsigned;
use crate::wire::lemma_be_enc_index;
use crate::wire::lemma_le_enc_index;
use crate::wire::lemma_signed_round_trip;
use crate::wire::lemma_wire_pow2_values;
use crate::varint::vint_in_range;
use crate::varint::vint_enc;
use crate::varint::vint_byte0;
use crate::varint::vint_cont_byte;
use crate::varint::vint_groups;
use crate::varint::vint_ext;
use crate::varint::vint_fold;
use crate::varint::lemma_vint_pow2_values;
use crate::varint::lemma_vint_fold_bound;
use crate::logiclong::LogicLong;
use crate::text::spec_string_bytes;
use crate::text::spec_string_ref_bytes;
use crate::zlib::deflate_bytes;
use crate::zlib::zlib_deflate;
use crate::zlib::zlib_inflate;
use vstd::utf8::encode_utf8;
use vstd::string::StrSliceExecFns;
use vstd::slice::slice_subrange;

verus! {

impl ByteStream {
    /// Writes one byte at the cursor and advances it.
    pub fn write_byte(&mut self, byte: u8) -> (r: Result<(), ByteStreamError>)
        requires
            old(self).can_write(1),
        ensures
            final(self).wf(),
            r is Ok,
            final(self).buffer@ == spec_write_at(old(self).buffer@, old(self).offset as int, seq![byte]),
            final(self).offset == old(self).offset + 1,
            final(self).buffer@.len() <= old(self).buffer@.len() + 1,
    {
        if self.offset < self.buffer.len() {
            self.buffer[self.offset] = byte;
            assert(self.buffer@ =~= spec_write_at(
                old(self).buffer@,
                old(self).offset as int,
                seq![byte],
            ));
        } else {
            self.buffer.push(byte);
            assert(self.buffer@ =~= spec_write_at(
                old(self).buffer@,
                old(self).offset as int,
                seq![byte],
            ));
        }
        self.offset = self.offset + 1;
        Ok(())
    }

    /// Writes `value` if `flag` is set and a zero byte otherwise, so that a
    /// later boolean read sees `flag` again.
    pub fn write_bool(&mut self, value: u8, flag: bool) -> (r: Result<(), ByteStreamError>)
        requires
            old(self).can_write(1),
        ensures
            final(self).wf(),
            r is Ok,
            final(self).buffer@ == spec_write_at(
                old(self).buffer@,
                old(self).offset as int,
                seq![if flag { value } else { 0u8 }],
            ),
            final(self).offset == old(self).offset + 1,
            final(self).buffer@.len() <= old(self).buffer@.len() + 1,
    {
        self.write_byte(if flag { value } else { 0 })
    }

    /// Writes a raw run of bytes as it stands.
    pub fn write_bytes(&mut self, bytes: &[u8]) -> (r: Result<(), ByteStreamError>)
        requires
            old(self).can_write(bytes@.len()),
        ensures
            final(self).wf(),
            r is Ok,
            final(self).buffer@ == spec_write_at(old(self).buffer@, old(self).offset as int, bytes@),
            final(self).offset == old(self).offset + bytes@.len(),
            final(self).buffer@.len() <= old(self).buffer@.len() + bytes@.len(),
    {
        let ghost d0 = self.buffer@;
        let ghost p0 = self.offset as int;
        let mut i: usize = 0;
        while i < bytes.len()
            invariant
                self.wf(),
                i <= bytes@.len(),
                0 <= p0 <= d0.len(),
                d0.len() + bytes@.len() <= usize::MAX,
                self.buffer@ == spec_write_at(d0, p0, bytes@.subrange(0, i as int)),
                self.offset == p0 + i,
                self.buffer@.len() <= d0.len() + i,
            decreases bytes@.len() - i,
        {
            let b = bytes[i];
            proof {
                lemma_write_at_compose(d0, p0, bytes@.subrange(0, i as int), seq![b]);
                assert(bytes@.subrange(0, i as int) + seq![b] =~= bytes@.subrange(0, i + 1));
            }
            let _ = self.write_byte(b);
            i = i + 1;
        }
        assert(bytes@.subrange(0, bytes@.len() as int) =~= bytes@);
        Ok(())
    }

    /// Writes the `n` big-endian bytes of `v`.
    fn write_be(&mut self, v: u64, n: usize) -> (r: Result<(), ByteStreamError>)
        requires
            old(self).can_write(n as nat),
            1 <= n <= 8,
            v < pow2(8 * n as nat),
        ensures
            final(self).wf(),
            r is Ok,
            final(self).buffer@ == spec_write_at(
                old(self).buffer@,
                old(self).offset as int,
                be_enc(v as nat, n as nat),
            ),
            final(self).offset == old(self).offset + n,
            final(self).buffer@.len() <= old(self).buffer@.len() + n,
    {
        let mut d: u64 = 1;
        let mut k: usize = 1;
        proof {
            lemma2_to64();
        }
        while k < n
            invariant
                1 <= k <= n <= 8,
                d == pow2((8 * (k - 1)) as nat),
            decreases n - k,
        {
            proof {
                lemma_pow2_strictly_increases((8 * (k - 1)) as nat, 49);
                lemma2_to64_rest();
                lemma_pow2_adds((8 * (k - 1)) as nat, 8);
                lemma2_to64();
            }
            d = d * 256;
            k = k + 1;
        }
        let ghost d0 = self.buffer@;
        let ghost p0 = self.offset as int;
        proof {
            crate::wire::lemma_be_enc_len(v as nat, n as nat);
        }
        let mut i: usize = 0;
        while i < n
            invariant
                self.wf(),
                i <= n <= 8,
                0 <= p0 <= d0.len(),
                d0.len() + n <= usize::MAX,
                i < n ==> d == pow2((8 * (n - 1 - i)) as nat),
                be_enc(v as nat, n as nat).len() == n,
                self.buffer@ == spec_write_at(d0, p0, be_enc(v as nat, n as nat).subrange(0, i as int)),
                self.offset == p0 + i,
                self.buffer@.len() <= d0.len() + i,
            decreases n - i,
        {
            proof {
                lemma_pow2_pos((8 * (n - 1 - i)) as nat);
            }
            let b = ((v / d) % 256) as u8;
            proof {
                lemma_be_enc_index(v as nat, n as nat, i as int);
                lemma_write_at_compose(
                    d0,
                    p0,
                    be_enc(v as nat, n as nat).subrange(0, i as int),
                    seq![b],
                );
                assert(be_enc(v as nat, n as nat).subrange(0, i as int) + seq![b] =~= be_enc(
                    v as nat,
                    n as nat,
                ).subrange(0, i + 1));
            }
            let _ = self.write_byte(b);
            proof {
                if i + 1 < n {
                    lemma_pow2_subtracts(8, (8 * (n - 1 - i)) as nat);
                    lemma2_to64();
                }
            }
            d = d / 256;
            i = i + 1;
        }
        proof {
            lemma_be_enc_index(v as nat, n as nat, 0);
            assert(be_enc(v as nat, n as nat).subrange(0, n as int) =~= be_enc(
                v as nat,
                n as nat,
            ));
        }
        Ok(())
    }

    /// Writes the `n` little-endian bytes of `v`.
    fn write_le(&mut self, v: u64, n: usize) -> (r: Result<(), ByteStreamError>)
        requires
            old(self).can_write(n as nat),
            1 <= n <= 8,
            v < pow2(8 * n as nat),
        ensures
            final(self).wf(),
            r is Ok,
            final(self).buffer@ == spec_write_at(
                old(self).buffer@,
                old(self).offset as int,
                le_enc(v as nat, n as nat),
            ),
            final(self).offset == old(self).offset + n,
            final(self).buffer@.len() <= old(self).buffer@.len() + n,
    {
        let mut d: u64 = 1;
        proof {
            lemma2_to64();
        }
        let ghost d0 = self.buffer@;
        let ghost p0 = self.offset as int;
        proof {
            crate::wire::lemma_le_enc_len(v as nat, n as nat);
        }
        let mut i: usize = 0;
        while i < n
            invariant
                self.wf(),
                i <= n <= 8,
                0 <= p0 <= d0.len(),
                d0.len() + n <= usize::MAX,
                i < n ==> d == pow2((8 * i) as nat),
                le_enc(v as nat, n as nat).len() == n,
                self.buffer@ == spec_write_at(d0, p0, le_enc(v as nat, n as nat).subrange(0, i as int)),
                self.offset == p0 + i,
                self.buffer@.len() <= d0.len() + i,
            decreases n - i,
        {
            proof {
                lemma_pow2_pos((8 * i) as nat);
            }
            let b = ((v / d) % 256) as u8;
            proof {
                lemma_le_enc_index(v as nat, n as nat, i as int);
                lemma_write_at_compose(
                    d0,
                    p0,
                    le_enc(v as nat, n as nat).subrange(0, i as int),
                    seq![b],
                );
                assert(le_enc(v as nat, n as nat).subrange(0, i as int) + seq![b] =~= le_enc(
                    v as nat,
                    n as nat,
                ).subrange(0, i + 1));
            }
            let _ = self.write_byte(b);
            proof {
                if i + 1 < n {
                    lemma_pow2_strictly_increases((8 * i) as nat, 49);
                    lemma2_to64_rest();
                    lemma_pow2_adds((8 * i) as nat, 8);
                    lemma2_to64();
                }
            }
            if i + 1 < n {
                d = d * 256;
            }
            i = i + 1;
        }
        proof {
            lemma_le_enc_index(v as nat, n as nat, 0);
            assert(le_enc(v as nat, n as nat).subrange(0, n as int) =~= le_enc(
                v as nat,
                n as nat,
            ));
        }
        Ok(())
    }

    /// Writes an unsigned byte.
    pub fn write_uint8(&mut self, uint8: u8) -> (r: Result<(), ByteStreamError>)
        requires
            old(self).can_write(1),
        ensures
            final(self).wf(),
            r is Ok,
            final(self).buffer@ == spec_write_at(old(self).buffer@, old(self).offset as int, seq![uint8]),
            final(self).offset == old(self).offset + 1,
            final(self).buffer@.len() <= old(self).buffer@.len() + 1,
    {
        self.write_byte(uint8)
    }

    /// Writes a signed byte as its two's-complement image.
    pub fn write_int8(&mut self, int8: i8) -> (r: Result<(), ByteStreamError>)
        requires
            old(self).can_write(1),
        ensures
            final(self).wf(),
            r is Ok,
            final(self).buffer@ == spec_write_at(
                old(self).buffer@,
                old(self).offset as int,
                seq![to_unsigned(int8 as int, 8) as u8],
            ),
            final(self).offset == old(self).offset + 1,
            final(self).buffer@.len() <= old(self).buffer@.len() + 1,
    {
        proof {
            lemma_wire_pow2_values();
            lemma_signed_round_trip(int8 as int, 8);
        }
        let b: u8 = if int8 < 0 {
            (int8 as i16 + 256) as u8
        } else {
            int8 as u8
        };
        self.write_byte(b)
    }

    /// Writes a 16-bit unsigned value, big-endian.
    pub fn write_uint16(&mut self, uint16: u16) -> (r: Result<(), ByteStreamError>)
        requires
            old(self).can_write(2),
        ensures
            final(self).wf(),
            r is Ok,
            final(self).buffer@ == spec_write_at(
                old(self).buffer@,
                old(self).offset as int,
                be_enc(uint16 as nat, 2),
            ),
            final(self).offset == old(self).offset + 2,
            final(self).buffer@.len() <= old(self).buffer@.len() + 2,
    {
        proof {
            lemma_wire_pow2_values();
        }
        self.write_be(uint16 as u64, 2)
    }

    /// Writes a 16-bit signed value, big-endian two's complement.
    pub fn write_int16(&mut self, int16: i16) -> (r: Result<(), ByteStreamError>)
        requires
            old(self).can_write(2),
        ensures
            final(self).wf(),
            r is Ok,
            final(self).buffer@ == spec_write_at(
                old(self).buffer@,
                old(self).offset as int,
                be_enc(to_unsigned(int16 as int, 16), 2),
            ),
            final(self).offset == old(self).offset + 2,
            final(self).buffer@.len() <= old(self).buffer@.len() + 2,
    {
        proof {
            lemma_wire_pow2_values();
            lemma_signed_round_trip(int16 as int, 16);
        }
        let w: u64 = if int16 < 0 {
            (int16 as i64 + 0x10000) as u64
        } else {
            int16 as u64
        };
        self.write_be(w, 2)
    }

    /// Writes a 24-bit unsigned value, big-endian.
    pub fn write_uint24(&mut self, uint24: u32) -> (r: Result<(), ByteStreamError>)
        requires
            old(self).can_write(3),
            uint24 < 0x1000000,
        ensures
            final(self).wf(),
            r is Ok,
            final(self).buffer@ == spec_write_at(
                old(self).buffer@,
                old(self).offset as int,
                be_enc(uint24 as nat, 3),
            ),
            final(self).offset == old(self).offset + 3,
            final(self).buffer@.len() <= old(self).buffer@.len() + 3,
    {
        proof {
            lemma_wire_pow2_values();
        }
        self.write_be(uint24 as u64, 3)
    }

    /// Writes a 24-bit signed value, big-endian two's complement.
    pub fn write_int24(&mut self, int24: i32) -> (r: Result<(), ByteStreamError>)
        requires
            old(self).can_write(3),
            -0x800000 <= int24 < 0x800000,
        ensures
            final(self).wf(),
            r is Ok,
            final(self).buffer@ == spec_write_at(
                old(self).buffer@,
                old(self).offset as int,
                be_enc(to_unsigned(int24 as int, 24), 3),
            ),
            final(self).offset == old(self).offset + 3,
            final(self).buffer@.len() <= old(self).buffer@.len() + 3,
    {
        proof {
            lemma_wire_pow2_values();
            lemma_signed_round_trip(int24 as int, 24);
        }
        let w: u64 = if int24 < 0 {
            (int24 as i64 + 0x1000000) as u64
        } else {
            int24 as u64
        };
        self.write_be(w, 3)
    }

    /// Writes a 32-bit unsigned value, big-endian.
    pub fn write_uint32(&mut self, uint32: u32) -> (r: Result<(), ByteStreamError>)
        requires
            old(self).can_write(4),
        ensures
            final(self).wf(),
            r is Ok,
            final(self).buffer@ == spec_write_at(
                old(self).buffer@,
                old(self).offset as int,
                be_enc(uint32 as nat, 4),
            ),
            final(self).offset == old(self).offset + 4,
            final(self).buffer@.len() <= old(self).buffer@.len() + 4,
    {
        proof {
            lemma_wire_pow2_values();
        }
        self.write_be(uint32 as u64, 4)
    }

    /// Writes a 32-bit signed value, big-endian two's complement.
    pub fn write_int32(&mut self, int32: i32) -> (r: Result<(), ByteStreamError>)
        requires
            old(self).can_write(4),
        ensures
            final(self).wf(),
            r is Ok,
            final(self).buffer@ == spec_write_at(
                old(self).buffer@,
                old(self).offset as int,
                be_enc(to_unsigned(int32 as int, 32), 4),
            ),
            final(self).offset == old(self).offset + 4,
            final(self).buffer@.len() <= old(self).buffer@.len() + 4,
    {
        proof {
            lemma_wire_pow2_values();
            lemma_signed_round_trip(int32 as int, 32);
        }
        let w: u64 = if int32 < 0 {
            (int32 as i64 + 0x100000000) as u64
        } else {
            int32 as u64
        };
        self.write_be(w, 4)
    }

    /// Writes a 32-bit signed value, little-endian two's complement.
    pub fn write_int32_le(&mut self, int32: i32) -> (r: Result<(), ByteStreamError>)
        requires
            old(self).can_write(4),
        ensures
            final(self).wf(),
            r is Ok,
            final(self).buffer@ == spec_write_at(
                old(self).buffer@,
                old(self).offset as int,
                le_enc(to_unsigned(int32 as int, 32), 4),
            ),
            final(self).offset == old(self).offset + 4,
            final(self).buffer@.len() <= old(self).buffer@.len() + 4,
    {
        proof {
            lemma_wire_pow2_values();
            lemma_signed_round_trip(int32 as int, 32);
        }
        let w: u64 = if int32 < 0 {
            (int32 as i64 + 0x100000000) as u64
        } else {
            int32 as u64
        };
        self.write_le(w, 4)
    }

    /// Writes a 64-bit unsigned value, big-endian.
    pub fn write_uint64(&mut self, uint64: u64) -> (r: Result<(), ByteStreamError>)
        requires
            old(self).can_write(8),
        ensures
            final(self).wf(),
            r is Ok,
            final(self).buffer@ == spec_write_at(
                old(self).buffer@,
                old(self).offset as int,
                be_enc(uint64 as nat, 8),
            ),
            final(self).offset == old(self).offset + 8,
            final(self).buffer@.len() <= old(self).buffer@.len() + 8,
    {
        proof {
            lemma_wire_pow2_values();
        }
        self.write_be(uint64, 8)
    }

    /// Writes a 64-bit signed value, big-endian two's complement.
    pub fn write_int64(&mut self, int64: i64) -> (r: Result<(), ByteStreamError>)
        requires
            old(self).can_write(8),
        ensures
            final(self).wf(),
            r is Ok,
            final(self).buffer@ == spec_write_at(
                old(self).buffer@,
                old(self).offset as int,
                be_enc(to_unsigned(int64 as int, 64), 8),
            ),
            final(self).offset == old(self).offset + 8,
            final(self).buffer@.len() <= old(self).buffer@.len() + 8,
    {
        proof {
            lemma_wire_pow2_values();
            lemma_signed_round_trip(int64 as int, 64);
        }
        let w: u64 = if int64 < 0 {
            (int64 as i128 + 0x10000000000000000) as u64
        } else {
            int64 as u64
        };
        self.write_be(w, 8)
    }

    /// `write_long` lays down the same bytes as `write_int64`.
    pub fn write_long(&mut self, long: i64) -> (r: Result<(), ByteStreamError>)
        requires
            old(self).can_write(8),
        ensures
            final(self).wf(),
            r is Ok,
            final(self).buffer@ == spec_write_at(
                old(self).buffer@,
                old(self).offset as int,
                be_enc(to_unsigned(long as int, 64), 8),
            ),
            final(self).offset == old(self).offset + 8,
            final(self).buffer@.len() <= old(self).buffer@.len() + 8,
    {
        self.write_int64(long)
    }

    /// `write_ulong` lays down the same bytes as `write_uint64`.
    pub fn write_ulong(&mut self, ulong: u64) -> (r: Result<(), ByteStreamError>)
        requires
            old(self).can_write(8),
        ensures
            final(self).wf(),
            r is Ok,
            final(self).buffer@ == spec_write_at(
                old(self).buffer@,
                old(self).offset as int,
                be_enc(ulong as nat, 8),
            ),
            final(self).offset == old(self).offset + 8,
            final(self).buffer@.len() <= old(self).buffer@.len() + 8,
    {
        self.write_uint64(ulong)
    }

    /// `write_longlong` lays down the same bytes as `write_int64`.
    pub fn write_longlong(&mut self, longlong: i64) -> (r: Result<(), ByteStreamError>)
        requires
            old(self).can_write(8),
        ensures
            final(self).wf(),
            r is Ok,
            final(self).buffer@ == spec_write_at(
                old(self).buffer@,
                old(self).offset as int,
                be_enc(to_unsigned(longlong as int, 64), 8),
            ),
            final(self).offset == old(self).offset + 8,
            final(self).buffer@.len() <= old(self).buffer@.len() + 8,
    {
        self.write_int64(longlong)
    }

    /// `write_ulonglong` lays down the same bytes as `write_uint64`.
    pub fn write_ulonglong(&mut self, ulonglong: u64) -> (r: Result<(), ByteStreamError>)
        requires
            old(self).can_write(8),
        ensures
            final(self).wf(),
            r is Ok,
            final(self).buffer@ == spec_write_at(
                old(self).buffer@,
                old(self).offset as int,
                be_enc(ulonglong as nat, 8),
            ),
            final(self).offset == old(self).offset + 8,
            final(self).buffer@.len() <= old(self).buffer@.len() + 8,
    {
        self.write_uint64(ulonglong)
    }

    /// Writes `vint` in the variable-length integer form: one to five
    /// bytes, exactly `vint_enc(vint)`.
    pub fn write_vint(&mut self, vint: i64) -> (r: Result<(), ByteStreamError>)
        requires
            old(self).can_write(5),
            vint_in_range(vint),
        ensures
            final(self).wf(),
            r is Ok,
            final(self).buffer@ == spec_write_at(
                old(self).buffer@,
                old(self).offset as int,
                vint_enc(vint),
            ),
            final(self).offset == old(self).offset + vint_enc(vint).len(),
            vint_enc(vint).len() == vint_groups(vint) + 1,
            final(self).buffer@.len() <= old(self).buffer@.len() + vint_enc(vint).len(),
    {
        proof {
            lemma_vint_pow2_values();
            lemma_vint_fold_bound(vint);
        }
        let w: u64 = if vint < 0 {
            (vint + 0x100000000) as u64
        } else {
            vint as u64
        };
        let f: u64 = if vint < 0 {
            (-vint - 1) as u64
        } else {
            vint as u64
        };
        let ext: u64 = if vint < 0 {
            w + 0x300000000
        } else {
            w
        };
        let k: usize = if f < 0x40 {
            0
        } else if f < 0x2000 {
            1
        } else if f < 0x100000 {
            2
        } else if f < 0x8000000 {
            3
        } else {
            4
        };
        proof {
            assert(w as nat == to_unsigned(vint as int, 32));
            assert(f as nat == vint_fold(vint));
            assert(ext as nat == vint_ext(vint));
            assert(k as nat == vint_groups(vint));
        }
        let b0: u8 = ((if k > 0 {
            0x80u64
        } else {
            0u64
        }) + (if vint < 0 {
            0x40u64
        } else {
            0u64
        }) + (w % 0x40)) as u8;
        let ghost d0 = self.buffer@;
        let ghost p0 = self.offset as int;
        proof {
            assert(b0 == vint_byte0(vint));
            assert(vint_enc(vint).subrange(0, 1) =~= seq![b0]);
        }
        let _ = self.write_byte(b0);
        let mut d: u64 = 0x40;
        let mut j: usize = 1;
        while j <= k
            invariant
                self.wf(),
                1 <= j <= k + 1,
                k <= 4,
                vint_in_range(vint),
                k as nat == vint_groups(vint),
                ext as nat == vint_ext(vint),
                0 <= p0 <= d0.len(),
                d0.len() + 5 <= usize::MAX,
                d == pow2((6 + 7 * (j - 1)) as nat),
                vint_enc(vint).len() == k + 1,
                self.buffer@ == spec_write_at(d0, p0, vint_enc(vint).subrange(0, j as int)),
                self.offset == p0 + j,
                self.buffer@.len() <= d0.len() + j,
            decreases k + 1 - j,
        {
            proof {
                lemma_pow2_pos((6 + 7 * (j - 1)) as nat);
            }
            let digit: u8 = ((ext / d) % 0x80) as u8;
            let b: u8 = if j < k {
                digit + 0x80
            } else {
                digit
            };
            proof {
                assert(b == vint_cont_byte(vint, j as int));
                assert(vint_enc(vint)[j as int] == vint_cont_byte(vint, j as int));
                lemma_write_at_compose(d0, p0, vint_enc(vint).subrange(0, j as int), seq![b]);
                assert(vint_enc(vint).subrange(0, j as int) + seq![b] =~= vint_enc(
                    vint,
                ).subrange(0, j + 1));
            }
            let _ = self.write_byte(b);
            proof {
                lemma_pow2_strictly_increases((6 + 7 * (j - 1)) as nat, 28);
                lemma_vint_pow2_values();
                lemma_pow2_adds((6 + 7 * (j - 1)) as nat, 7);
            }
            d = d * 0x80;
            j = j + 1;
        }
        proof {
            assert(vint_enc(vint).subrange(0, (k + 1) as int) =~= vint_enc(vint));
        }
        Ok(())
    }

    /// Writes a string in the plain form: the empty string as the single
    /// length -1, any other as its big-endian byte length followed by its
    /// UTF-8 bytes. A string longer than the length prefix can carry is
    /// rejected.
    pub fn write_string(&mut self, string: String) -> (r: Result<(), ByteStreamError>)
        requires
            old(self).can_write(4 + encode_utf8(string@).len()),
        ensures
            final(self).wf(),
            final(self).buffer@.len() <= old(self).buffer@.len() + 4 + encode_utf8(
                string@,
            ).len(),
            encode_utf8(string@).len() > 0x7FFFFFFF ==> r == Err::<(), ByteStreamError>(
                ByteStreamError::InvalidStringLength(encode_utf8(string@).len() as usize),
            ) && final(self).buffer@ == old(self).buffer@ && final(self).offset == old(
                self,
            ).offset,
            encode_utf8(string@).len() <= 0x7FFFFFFF ==> r is Ok && final(self).buffer@
                == spec_write_at(
                old(self).buffer@,
                old(self).offset as int,
                spec_string_bytes(string@),
            ) && final(self).offset == old(self).offset + spec_string_bytes(string@).len(),
    {
        let bytes = string.as_str().as_bytes_vec();
        if bytes.len() > 0x7FFFFFFF {
            return Err(ByteStreamError::InvalidStringLength(bytes.len()));
        }
        proof {
            lemma_wire_pow2_values();
        }
        if bytes.len() == 0 {
            proof {
                lemma_signed_round_trip(-1, 32);
            }
            let res = self.write_int32(-1);
            proof {
                crate::wire::lemma_be_enc_len(0xFFFFFFFF, 4);
                assert(spec_string_bytes(string@) == be_enc(0xFFFFFFFF, 4));
            }
            return res;
        }
        let ghost d0 = self.buffer@;
        let ghost p0 = self.offset as int;
        proof {
            lemma_signed_round_trip(bytes@.len() as int, 32);
        }
        let l: i32 = bytes.len() as i32;
        let _ = self.write_int32(l);
        let _ = self.write_bytes(bytes.as_slice());
        proof {
            crate::wire::lemma_be_enc_len(to_unsigned(l as int, 32), 4);
            lemma_write_at_compose(d0, p0, be_enc(to_unsigned(l as int, 32), 4), bytes@);
            assert(be_enc(to_unsigned(l as int, 32), 4) + bytes@ == spec_string_bytes(string@));
        }
        Ok(())
    }

    /// Writes a string in the string-reference form: as `write_string`,
    /// but the empty string is written as length 0.
    pub fn write_string_reference(&mut self, string: String) -> (r: Result<(), ByteStreamError>)
        requires
            old(self).can_write(4 + encode_utf8(string@).len()),
        ensures
            final(self).wf(),
            final(self).buffer@.len() <= old(self).buffer@.len() + 4 + encode_utf8(
                string@,
            ).len(),
            encode_utf8(string@).len() > 0x7FFFFFFF ==> r == Err::<(), ByteStreamError>(
                ByteStreamError::InvalidStringLength(encode_utf8(string@).len() as usize),
            ) && final(self).buffer@ == old(self).buffer@ && final(self).offset == old(
                self,
            ).offset,
            encode_utf8(string@).len() <= 0x7FFFFFFF ==> r is Ok && final(self).buffer@
                == spec_write_at(
                old(self).buffer@,
                old(self).offset as int,
                spec_string_ref_bytes(string@),
            ) && final(self).offset == old(self).offset + spec_string_ref_bytes(string@).len(),
    {
        let bytes = string.as_str().as_bytes_vec();
        if bytes.len() > 0x7FFFFFFF {
            return Err(ByteStreamError::InvalidStringLength(bytes.len()));
        }
        proof {
            lemma_wire_pow2_values();
        }
        if bytes.len() == 0 {
            proof {
                lemma_signed_round_trip(0, 32);
            }
            let res = self.write_int32(0);
            proof {
                crate::wire::lemma_be_enc_len(0, 4);
                assert(spec_string_ref_bytes(string@) == be_enc(0, 4));
            }
            return res;
        }
        let ghost d0 = self.buffer@;
        let ghost p0 = self.offset as int;
        proof {
            lemma_signed_round_trip(bytes@.len() as int, 32);
        }
        let l: i32 = bytes.len() as i32;
        let _ = self.write_int32(l);
        let _ = self.write_bytes(bytes.as_slice());
        proof {
            crate::wire::lemma_be_enc_len(to_unsigned(l as int, 32), 4);
            lemma_write_at_compose(d0, p0, be_enc(to_unsigned(l as int, 32), 4), bytes@);
            assert(be_enc(to_unsigned(l as int, 32), 4) + bytes@ == spec_string_ref_bytes(
                string@,
            ));
        }
        Ok(())
    }

    /// Writes a length of choice and then that many of the string's UTF-8
    /// bytes. A size past the end of the string, or one the prefix cannot
    /// carry, is rejected.
    pub fn write_string_size(&mut self, size: usize, string: String) -> (r: Result<
        (),
        ByteStreamError,
    >)
        requires
            old(self).can_write(4 + size as nat),
        ensures
            final(self).wf(),
            final(self).buffer@.len() <= old(self).buffer@.len() + 4 + size,
            (size > encode_utf8(string@).len() || size > 0x7FFFFFFF) ==> r == Err::<
                (),
                ByteStreamError,
            >(ByteStreamError::InvalidStringLength(size)) && final(self).buffer@ == old(
                self,
            ).buffer@ && final(self).offset == old(self).offset,
            (size <= encode_utf8(string@).len() && size <= 0x7FFFFFFF) ==> r is Ok && final(self).buffer@ == spec_write_at(
                old(self).buffer@,
                old(self).offset as int,
                be_enc(size as nat, 4) + encode_utf8(string@).subrange(0, size as int),
            ) && final(self).offset == old(self).offset + 4 + size,
    {
        let bytes = string.as_str().as_bytes_vec();
        if size > bytes.len() || size > 0x7FFFFFFF {
            return Err(ByteStreamError::InvalidStringLength(size));
        }
        let ghost d0 = self.buffer@;
        let ghost p0 = self.offset as int;
        proof {
            lemma_wire_pow2_values();
            lemma_signed_round_trip(size as int, 32);
        }
        let l: i32 = size as i32;
        let _ = self.write_int32(l);
        let part = slice_subrange(bytes.as_slice(), 0, size);
        let _ = self.write_bytes(part);
        proof {
            crate::wire::lemma_be_enc_len(to_unsigned(l as int, 32), 4);
            lemma_write_at_compose(d0, p0, be_enc(to_unsigned(l as int, 32), 4), part@);
        }
        Ok(())
    }

    /// Writes a sized string in the string-reference spelling. On the
    /// wire it is identical to `write_string_size`.
    pub fn write_string_size_reference(&mut self, size: usize, string: String) -> (r: Result<
        (),
        ByteStreamError,
    >)
        requires
            old(self).can_write(4 + size as nat),
        ensures
            final(self).wf(),
            final(self).buffer@.len() <= old(self).buffer@.len() + 4 + size,
            (size > encode_utf8(string@).len() || size > 0x7FFFFFFF) ==> r == Err::<
                (),
                ByteStreamError,
            >(ByteStreamError::InvalidStringLength(size)) && final(self).buffer@ == old(
                self,
            ).buffer@ && final(self).offset == old(self).offset,
            (size <= encode_utf8(string@).len() && size <= 0x7FFFFFFF) ==> r is Ok && final(self).buffer@ == spec_write_at(
                old(self).buffer@,
                old(self).offset as int,
                be_enc(size as nat, 4) + encode_utf8(string@).subrange(0, size as int),
            ) && final(self).offset == old(self).offset + 4 + size,
    {
        self.write_string_size(size, string)
    }

    /// Writes a compressed string: the zlib stream's big-endian length,
    /// the uncompressed byte length little-endian, then the zlib stream
    /// itself. Inflating that stream gives the string's UTF-8 bytes back.
    pub fn write_compressed_string(&mut self, string: String) -> (r: Result<
        (),
        ByteStreamError,
    >)
        requires
            old(self).can_write(0x80000007),
        ensures
            final(self).wf(),
            ({
                let b = encode_utf8(string@);
                let comp = zlib_deflate(b);
                &&& b.len() > 0x7FFFFFFF ==> r == Err::<(), ByteStreamError>(
                    ByteStreamError::InvalidStringLength(b.len() as usize),
                ) && final(self).buffer@ == old(self).buffer@ && final(self).offset == old(
                    self,
                ).offset
                &&& (b.len() <= 0x7FFFFFFF && comp.len() > 0x7FFFFFFF) ==> r == Err::<
                    (),
                    ByteStreamError,
                >(ByteStreamError::InvalidBytesWritten(comp.len() as usize)) && final(self).buffer@ == old(self).buffer@ && final(self).offset == old(self).offset
                &&& (b.len() <= 0x7FFFFFFF && comp.len() <= 0x7FFFFFFF) ==> ({
                    &&& r is Ok
                    &&& final(self).buffer@ == spec_write_at(
                        old(self).buffer@,
                        old(self).offset as int,
                        be_enc(comp.len(), 4) + le_enc(b.len(), 4) + comp,
                    )
                    &&& final(self).offset == old(self).offset + 8 + comp.len()
                    &&& zlib_inflate(comp) == Some(b)
                })
            }),
    {
        let bytes = string.as_str().as_bytes_vec();
        if bytes.len() > 0x7FFFFFFF {
            return Err(ByteStreamError::InvalidStringLength(bytes.len()));
        }
        let compressed_data = deflate_bytes(bytes.as_slice());
        if compressed_data.len() > 0x7FFFFFFF {
            return Err(ByteStreamError::InvalidBytesWritten(compressed_data.len()));
        }
        let ghost d0 = self.buffer@;
        let ghost p0 = self.offset as int;
        proof {
            lemma_wire_pow2_values();
            lemma_signed_round_trip(compressed_data@.len() as int, 32);
            lemma_signed_round_trip(bytes@.len() as int, 32);
        }
        let cl: i32 = compressed_data.len() as i32;
        let ul: i32 = bytes.len() as i32;
        let _ = self.write_int32(cl);
        let _ = self.write_int32_le(ul);
        let _ = self.write_bytes(compressed_data.as_slice());
        proof {
            crate::wire::lemma_be_enc_len(to_unsigned(cl as int, 32), 4);
            crate::wire::lemma_le_enc_len(to_unsigned(ul as int, 32), 4);
            lemma_write_at_compose(
                d0,
                p0,
                be_enc(to_unsigned(cl as int, 32), 4),
                le_enc(to_unsigned(ul as int, 32), 4),
            );
            lemma_write_at_compose(
                d0,
                p0,
                be_enc(to_unsigned(cl as int, 32), 4) + le_enc(to_unsigned(ul as int, 32), 4),
                compressed_data@,
            );
            assert((be_enc(to_unsigned(cl as int, 32), 4) + le_enc(to_unsigned(ul as int, 32), 4))
                + compressed_data@ == be_enc(compressed_data@.len(), 4) + le_enc(
                bytes@.len(),
                4,
            ) + compressed_data@);
        }
        Ok(())
    }

    /// Writes an identifier as its two components, `low` first, each a
    /// 4-byte big-endian value.
    pub fn write_logic_long(&mut self, logic_long: LogicLong) -> (r: Result<(), ByteStreamError>)
        requires
            old(self).can_write(8),
        ensures
            final(self).wf(),
            r is Ok,
            final(self).buffer@ == spec_write_at(
                old(self).buffer@,
                old(self).offset as int,
                be_enc(logic_long.low as nat, 4) + be_enc(logic_long.high as nat, 4),
            ),
            final(self).offset == old(self).offset + 8,
            final(self).buffer@.len() <= old(self).buffer@.len() + 8,
    {
        let ghost d0 = self.buffer@;
        let ghost p0 = self.offset as int;
        let _ = self.write_uint32(logic_long.low);
        let _ = self.write_uint32(logic_long.high);
        proof {
            crate::wire::lemma_be_enc_len(logic_long.low as nat, 4);
            crate::wire::lemma_be_enc_len(logic_long.high as nat, 4);
            lemma_write_at_compose(
                d0,
                p0,
                be_enc(logic_long.low as nat, 4),
                be_enc(logic_long.high as nat, 4),
            );
        }
        Ok(())
    }
}

} // verus!
