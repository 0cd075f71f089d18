//! The variable-length integer of the protocol: a sign-aware 7-bit
//! continuation scheme for values in the 32-bit signed range. The first
//! byte holds a continuation flag (bit 7), the sign (bit 6) and the six
//! lowest magnitude bits; up to four further bytes hold a continuation
//! flag and seven more bits each. A fifth byte that still asks for
//! continuation makes the whole sequence decode to the sentinel -1, a
//! preserved quirk of the wire format.

use vstd::prelude::*;
use vstd::arithmetic::power2::pow2;
use vstd::arithmetic::power2::lemma_pow2_pos;
use vstd::arithmetic::power2::lemma_pow2_adds;
use vstd::arithmetic::power2::lemma2_to64;
use vstd::arithmetic::power2::lemma2_to64_rest;
use vstd::arithmetic::div_mod::lemma_breakdown;
use vstd::arithmetic::div_mod::lemma_small_mod;
use vstd::arithmetic::div_mod::lemma_mod_multiples_vanish;

use crate::wire::to_unsigned;
use crate::wire::to_signed;

verus! {

/// The values the varint encoding is defined for.
pub open spec fn vint_in_range(v: i64) -> bool {
    -0x80000000 <= v <= 0x7FFFFFFF
}

/// The sign-folded magnitude: the value whose width decides how many
/// bytes the encoding needs (`v` for nonnegative values, `-v - 1` below
/// zero).
pub open spec fn vint_fold(v: i64) -> nat {
    if v < 0 {
        (-v - 1) as nat
    } else {
        v as nat
    }
}

/// The bit source the bytes draw from: the 32-bit two's-complement image
/// of `v`, with bits 32 and 33 also set for negative values, since the
/// fifth byte reaches bit 33.
pub open spec fn vint_ext(v: i64) -> nat {
    if v < 0 {
        (to_unsigned(v as int, 32) + 0x300000000) as nat
    } else {
        v as nat
    }
}

/// How many continuation bytes follow the first byte: the least number
/// whose bits cover the folded magnitude.
pub open spec fn vint_groups(v: i64) -> nat {
    let f = vint_fold(v);
    if f < 0x40 {
        0
    } else if f < 0x2000 {
        1
    } else if f < 0x100000 {
        2
    } else if f < 0x8000000 {
        3
    } else {
        4
    }
}

/// The first byte: continuation flag, sign flag, six low bits.
pub open spec fn vint_byte0(v: i64) -> u8 {
    ((if vint_groups(v) > 0 {
        0x80int
    } else {
        0int
    }) + (if v < 0 {
        0x40int
    } else {
        0int
    }) + (to_unsigned(v as int, 32) % 0x40)) as u8
}

/// Continuation byte `j` (counted from 1): a continuation flag on every
/// byte but the last, and the next seven bits of the value.
pub open spec fn vint_cont_byte(v: i64, j: int) -> u8
    recommends
        1 <= j <= vint_groups(v),
{
    ((if j < vint_groups(v) {
        0x80int
    } else {
        0int
    }) + ((vint_ext(v) / pow2((6 + 7 * (j - 1)) as nat)) % 0x80)) as u8
}

/// The full encoding of `v`: one to five bytes.
pub open spec fn vint_enc(v: i64) -> Seq<u8> {
    Seq::new(
        vint_groups(v) + 1,
        |i: int|
            if i == 0 {
                vint_byte0(v)
            } else {
                vint_cont_byte(v, i)
            },
    )
}

/// What a finished scan yields from the accumulated bits: the low 32 bits
/// read as a signed value, with the high bits filled in first when the
/// sign flag was set and fewer than 32 bits arrived.
pub open spec fn vint_fin(acc: nat, sign: bool, off: nat) -> i64 {
    let w = if sign && off < 32 {
        ((acc % pow2(off)) + 0x100000000 - pow2(off)) as nat
    } else {
        (acc % 0x100000000) as nat
    };
    to_signed(w, 32) as i64
}

/// The scan after the first byte: `j` continuation bytes consumed so far,
/// `s[j]` the last byte consumed, `acc` the bits gathered below offset
/// `6 + 7j`. `None` means the bytes ran out while a continuation flag was
/// still set.
pub open spec fn vint_dec_rest(s: Seq<u8>, j: int, acc: nat, sign: bool) -> Option<(i64, int)>
    recommends
        0 <= j <= 4,
        j < s.len(),
    decreases 4 - j,
{
    if j < 0 || j > 4 || s.len() <= j {
        None
    } else if s[j] < 0x80 {
        Some((vint_fin(acc, sign, (6 + 7 * j) as nat), j + 1))
    } else if j == 4 {
        Some((-1i64, 5))
    } else if s.len() <= j + 1 {
        None
    } else {
        vint_dec_rest(s, j + 1, acc + ((s[j + 1] % 0x80) as nat) * pow2((6 + 7 * j) as nat), sign)
    }
}

/// The value and byte count a varint scan of the head of `s` yields, or
/// `None` when `s` ends before the scan does.
pub open spec fn vint_dec(s: Seq<u8>) -> Option<(i64, int)> {
    if s.len() == 0 {
        None
    } else {
        vint_dec_rest(s, 0, (s[0] % 0x40) as nat, (s[0] / 0x40) % 2 == 1)
    }
}

/// The concrete powers of two the varint layout uses.
pub proof fn lemma_vint_pow2_values()
    ensures
        pow2(6) == 0x40,
        pow2(7) == 0x80,
        pow2(13) == 0x2000,
        pow2(20) == 0x100000,
        pow2(27) == 0x8000000,
        pow2(28) == 0x10000000,
        pow2(31) == 0x80000000,
        pow2(32) == 0x100000000,
        pow2(34) == 0x400000000,
{
    lemma2_to64();
    lemma2_to64_rest();
}

/// The folded magnitude fits in the chosen group count, and needs it.
pub proof fn lemma_vint_fold_bound(v: i64)
    requires
        vint_in_range(v),
    ensures
        vint_groups(v) <= 4,
        vint_fold(v) < pow2((6 + 7 * vint_groups(v)) as nat),
        vint_groups(v) > 0 ==> vint_fold(v) >= pow2((6 + 7 * (vint_groups(v) - 1)) as nat),
{
    lemma_vint_pow2_values();
}

/// Below bit 32 the extended bit source agrees with the plain 32-bit
/// image.
proof fn lemma_vint_ext_mod(v: i64, e: nat)
    requires
        vint_in_range(v),
        e <= 32,
    ensures
        vint_ext(v) % pow2(e) == to_unsigned(v as int, 32) % pow2(e),
{
    lemma_pow2_pos(e);
    if v < 0 {
        let w = to_unsigned(v as int, 32) as int;
        let m = pow2(e) as int;
        let q = pow2((32 - e) as nat) as int;
        assert(pow2(e) * pow2((32 - e) as nat) == pow2(32)) by {
            lemma_pow2_adds(e, (32 - e) as nat);
        }
        lemma_vint_pow2_values();
        let a = 3 * q;
        assert(m * a == 3 * (m * q)) by (nonlinear_arith)
            requires
                a == 3 * q,
        ;
        assert(m * a + w == vint_ext(v));
        lemma_mod_multiples_vanish(a, w, m);
        assert((m * a + w) % m == w % m);
    }
}

/// A finished scan of the encoding's bits gives the encoded value back.
proof fn lemma_vint_fin_correct(v: i64)
    requires
        vint_in_range(v),
    ensures
        vint_fin(
            vint_ext(v) % pow2((6 + 7 * vint_groups(v)) as nat),
            v < 0,
            (6 + 7 * vint_groups(v)) as nat,
        ) == v,
{
    let k = vint_groups(v);
    let off = (6 + 7 * k) as nat;
    let w = to_unsigned(v as int, 32);
    let ext = vint_ext(v);
    let acc = ext % pow2(off);
    lemma_vint_pow2_values();
    lemma_pow2_pos(off);
    lemma_vint_fold_bound(v);
    if v >= 0 {
        lemma_small_mod(v as nat, pow2(off));
        assert(acc == v as nat);
        if off < 32 {
            assert(acc < 0x100000000);
        }
        lemma_small_mod(acc, 0x100000000);
        assert(vint_fin(acc, false, off) == to_signed(v as nat, 32));
    } else {
        assert(w == v + 0x100000000);
        assert(0x80000000 <= w < 0x100000000);
        if k <= 3 {
            assert(off < 32);
            lemma_vint_ext_mod(v, off);
            assert(acc == w % pow2(off));
            // the folded magnitude fits below `off`, so the bits of `w`
            // from `off` up are all ones
            assert(vint_fold(v) == 0x100000000 - 1 - w);
            assert(w >= 0x100000000 - pow2(off));
            let m = pow2(off) as int;
            let b = w - (0x100000000 - pow2(off));
            assert(0 <= b < m);
            assert(pow2(off) * pow2((32 - off) as nat) == pow2(32)) by {
                lemma_pow2_adds(off, (32 - off) as nat);
            }
            let q = pow2((32 - off) as nat) as int;
            let a = q - 1;
            assert(m * a == m * q - m) by (nonlinear_arith)
                requires
                    a == q - 1,
            ;
            assert(m * q == 0x100000000);
            assert(m * a + b == w);
            lemma_mod_multiples_vanish(a, b, m);
            lemma_small_mod(b as nat, pow2(off));
            assert(w % pow2(off) == b);
            // the scan restores exactly those high bits
            lemma_small_mod(acc, pow2(off));
            assert(vint_fin(acc, true, off) == to_signed((acc + 0x100000000 - pow2(off)) as nat, 32));
            assert(acc + 0x100000000 - pow2(off) == w);
            assert(to_signed(w, 32) == v);
        } else {
            assert(off == 34);
            assert(ext == w + 0x300000000);
            assert(ext < pow2(34));
            lemma_small_mod(ext, pow2(34));
            assert(acc == ext);
            assert(0x100000000 * 3 + w == acc);
            lemma_mod_multiples_vanish(3, w as int, 0x100000000);
            assert(acc % 0x100000000 == w % 0x100000000);
            lemma_small_mod(w, 0x100000000);
            assert(vint_fin(acc, true, off) == to_signed(w, 32));
            assert(to_signed(w, 32) == v);
        }
    }
}

/// The fields of the first byte, as the decoder reads them.
proof fn lemma_vint_byte0_fields(v: i64)
    requires
        vint_in_range(v),
    ensures
        (vint_byte0(v) % 0x40) as nat == vint_ext(v) % pow2(6),
        ((vint_byte0(v) / 0x40) % 2 == 1) <==> v < 0,
        vint_byte0(v) >= 0x80 <==> vint_groups(v) > 0,
{
    lemma_vint_pow2_values();
    let w = to_unsigned(v as int, 32);
    let m = w % 0x40;
    let c: int = if vint_groups(v) > 0 {
        1
    } else {
        0
    };
    let sg: int = if v < 0 {
        1
    } else {
        0
    };
    assert(0 <= m < 0x40);
    assert(vint_byte0(v) == (c * 2 + sg) * 0x40 + m);
    lemma_vint_ext_mod(v, 6);
    lemma_small_mod(m as nat, 0x40);
    assert(w % pow2(6) == m);
}

/// Each continuation byte of the encoding carries the flag the decoder
/// tests and the seven bits it adds.
proof fn lemma_vint_cont_byte_fields(v: i64, j: int)
    requires
        vint_in_range(v),
        1 <= j <= vint_groups(v),
    ensures
        (vint_cont_byte(v, j) % 0x80) as nat == (vint_ext(v) / pow2((6 + 7 * (j - 1)) as nat))
            % 0x80,
        vint_cont_byte(v, j) >= 0x80 <==> j < vint_groups(v),
{
    let d = (vint_ext(v) / pow2((6 + 7 * (j - 1)) as nat)) % 0x80;
    assert(0 <= d < 0x80);
    let c: int = if j < vint_groups(v) {
        1
    } else {
        0
    };
    assert(vint_cont_byte(v, j) == c * 0x80 + d);
}

/// The scan of an encoding, resumed after any number of its continuation
/// bytes, finishes with the encoded value and the full byte count.
proof fn lemma_vint_chain(v: i64, s: Seq<u8>, j: int)
    requires
        vint_in_range(v),
        0 <= j <= vint_groups(v),
        s.len() > vint_groups(v),
        forall|i: int| 0 <= i <= vint_groups(v) ==> s[i] == vint_enc(v)[i],
    ensures
        vint_dec_rest(s, j, vint_ext(v) % pow2((6 + 7 * j) as nat), v < 0) == Some::<(i64, int)>(
            (v, vint_groups(v) + 1 as int),
        ),
    decreases vint_groups(v) - j,
{
    let k = vint_groups(v) as int;
    let ext = vint_ext(v);
    let off = (6 + 7 * j) as nat;
    let acc = ext % pow2(off);
    lemma_vint_pow2_values();
    lemma_pow2_pos(off);
    lemma_vint_fold_bound(v);
    assert(s[j] == vint_enc(v)[j]);
    if j == k {
        // the last byte of the encoding carries no continuation flag
        if j == 0 {
            lemma_vint_byte0_fields(v);
            assert(s[0] == vint_byte0(v));
            assert(s[0] < 0x80);
        } else {
            lemma_vint_cont_byte_fields(v, j);
            assert(s[j] == vint_cont_byte(v, j));
            assert(s[j] < 0x80);
        }
        lemma_vint_fin_correct(v);
        assert(vint_dec_rest(s, j, acc, v < 0) == Some::<(i64, int)>((v, k + 1)));
    } else {
        // a continuation flag stands on this byte, so the scan reads one
        // more
        if j == 0 {
            lemma_vint_byte0_fields(v);
            assert(s[0] == vint_byte0(v));
            assert(s[0] >= 0x80);
        } else {
            lemma_vint_cont_byte_fields(v, j);
            assert(s[j] == vint_cont_byte(v, j));
            assert(s[j] >= 0x80);
        }
        assert(s[j + 1] == vint_enc(v)[j + 1]);
        assert(vint_enc(v)[j + 1] == vint_cont_byte(v, j + 1));
        lemma_vint_cont_byte_fields(v, j + 1);
        let d = (ext / pow2(off)) % 0x80;
        assert(((s[j + 1] % 0x80) as nat) == d);
        assert(pow2(off) * 0x80 == pow2((6 + 7 * (j + 1)) as nat)) by {
            lemma_pow2_adds(off, 7);
        }
        assert(ext % (pow2(off) * 0x80) == pow2(off) * ((ext / pow2(off)) % 0x80) + ext % pow2(
            off,
        )) by {
            lemma_breakdown(ext as int, pow2(off) as int, 0x80);
        }
        assert(d * pow2(off) == pow2(off) * d) by (nonlinear_arith);
        assert(acc + ((s[j + 1] % 0x80) as nat) * pow2(off) == ext % pow2(
            (6 + 7 * (j + 1)) as nat,
        ));
        lemma_vint_chain(v, s, j + 1);
        assert(vint_dec_rest(s, j, acc, v < 0) == vint_dec_rest(
            s,
            j + 1,
            acc + ((s[j + 1] % 0x80) as nat) * pow2(off),
            v < 0,
        ));
    }
}

/// Round trip: a varint scan of the encoding of any in-range value,
/// whatever follows it, yields the value back and consumes exactly the
/// encoding.
pub proof fn lemma_vint_round_trip(v: i64, rest: Seq<u8>)
    requires
        vint_in_range(v),
    ensures
        vint_enc(v).len() == vint_groups(v) + 1,
        vint_dec(vint_enc(v) + rest) == Some::<(i64, int)>((v, vint_groups(v) + 1 as int)),
{
    let s = vint_enc(v) + rest;
    let k = vint_groups(v) as int;
    lemma_vint_fold_bound(v);
    assert(forall|i: int| 0 <= i <= k ==> s[i] == vint_enc(v)[i]);
    assert(s[0] == vint_byte0(v));
    lemma_vint_byte0_fields(v);
    lemma_vint_pow2_values();
    lemma_vint_chain(v, s, 0);
    assert(vint_dec(s) == vint_dec_rest(s, 0, (s[0] % 0x40) as nat, (s[0] / 0x40) % 2 == 1));
}

/// The named exception of the format: five bytes that all carry the
/// continuation flag decode to the sentinel -1, whatever their payload
/// bits hold.
pub proof fn lemma_vint_overlong(s: Seq<u8>)
    requires
        s.len() >= 5,
        forall|j: int| 0 <= j < 5 ==> s[j] >= 0x80,
    ensures
        vint_dec(s) == Some::<(i64, int)>((-1i64, 5)),
{
    let sign = (s[0] / 0x40) % 2 == 1;
    let a0 = (s[0] % 0x40) as nat;
    let a1 = a0 + ((s[1] % 0x80) as nat) * pow2(6);
    let a2 = a1 + ((s[2] % 0x80) as nat) * pow2(13);
    let a3 = a2 + ((s[3] % 0x80) as nat) * pow2(20);
    let a4 = a3 + ((s[4] % 0x80) as nat) * pow2(27);
    assert(vint_dec_rest(s, 4, a4, sign) == Some::<(i64, int)>((-1i64, 5)));
    assert(vint_dec_rest(s, 3, a3, sign) == vint_dec_rest(s, 4, a4, sign));
    assert(vint_dec_rest(s, 2, a2, sign) == vint_dec_rest(s, 3, a3, sign));
    assert(vint_dec_rest(s, 1, a1, sign) == vint_dec_rest(s, 2, a2, sign));
    assert(vint_dec_rest(s, 0, a0, sign) == vint_dec_rest(s, 1, a1, sign));
}

} // verus!
