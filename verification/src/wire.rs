//! The bit-level model of the wire: big- and little-endian byte runs of a
//! given width, and two's-complement views of signed values. Every integer
//! read or write on the stream is specified and proved against these.

use vstd::prelude::*;
use vstd::arithmetic::power2::pow2;
use vstd::arithmetic::power2::lemma_pow2_adds;
use vstd::arithmetic::power2::lemma_pow2_unfold;
use vstd::arithmetic::power2::lemma2_to64;
use vstd::arithmetic::power2::lemma2_to64_rest;
use vstd::arithmetic::div_mod::lemma_fundamental_div_mod;
use vstd::arithmetic::div_mod::lemma_fundamental_div_mod_converse;

verus! {

/// The `n` big-endian bytes of `v`: most significant first.
pub open spec fn be_enc(v: nat, n: nat) -> Seq<u8>
    recommends
        v < pow2(8 * n),
    decreases n,
{
    if n == 0 {
        Seq::empty()
    } else {
        be_enc(v / 256, (n - 1) as nat).push((v % 256) as u8)
    }
}

/// The value of a big-endian byte run.
pub open spec fn be_dec(s: Seq<u8>) -> nat
    decreases s.len(),
{
    if s.len() == 0 {
        0
    } else {
        be_dec(s.drop_last()) * 256 + s.last() as nat
    }
}

/// The `n` little-endian bytes of `v`: least significant first.
pub open spec fn le_enc(v: nat, n: nat) -> Seq<u8>
    recommends
        v < pow2(8 * n),
    decreases n,
{
    if n == 0 {
        Seq::empty()
    } else {
        seq![(v % 256) as u8] + le_enc(v / 256, (n - 1) as nat)
    }
}

/// The value of a little-endian byte run.
pub open spec fn le_dec(s: Seq<u8>) -> nat
    decreases s.len(),
{
    if s.len() == 0 {
        0
    } else {
        s.first() as nat + 256 * le_dec(s.drop_first())
    }
}

/// The two's-complement image of a signed value in `bits` bits.
pub open spec fn to_unsigned(v: int, bits: nat) -> nat
    recommends
        bits > 0,
        -pow2((bits - 1) as nat) <= v < pow2((bits - 1) as nat),
{
    if v < 0 {
        (v + pow2(bits)) as nat
    } else {
        v as nat
    }
}

/// The signed value a `bits`-bit two's-complement image stands for.
pub open spec fn to_signed(w: nat, bits: nat) -> int
    recommends
        bits > 0,
        w < pow2(bits),
{
    if w >= pow2((bits - 1) as nat) {
        w - pow2(bits)
    } else {
        w as int
    }
}

pub proof fn lemma_be_enc_len(v: nat, n: nat)
    ensures
        be_enc(v, n).len() == n,
    decreases n,
{
    if n > 0 {
        lemma_be_enc_len(v / 256, (n - 1) as nat);
    }
}

pub proof fn lemma_le_enc_len(v: nat, n: nat)
    ensures
        le_enc(v, n).len() == n,
    decreases n,
{
    if n > 0 {
        lemma_le_enc_len(v / 256, (n - 1) as nat);
    }
}

/// Round trip for unsigned big-endian runs: decoding the encoding of any
/// value that fits in `n` bytes gives the value back.
pub proof fn lemma_be_round_trip(v: nat, n: nat)
    requires
        v < pow2(8 * n),
    ensures
        be_dec(be_enc(v, n)) == v,
    decreases n,
{
    if n == 0 {
        assert(pow2(0) == 1) by {
            lemma2_to64();
        }
    } else {
        let hi = v / 256;
        let lo = v % 256;
        assert(pow2(8 * n) == pow2(8 * (n - 1) as nat) * 256) by {
            lemma_pow2_adds(8 * (n - 1) as nat, 8);
            lemma2_to64();
        }
        assert(hi < pow2(8 * (n - 1) as nat)) by {
            lemma_fundamental_div_mod(v as int, 256);
        }
        lemma_be_round_trip(hi, (n - 1) as nat);
        assert(be_enc(v, n).drop_last() =~= be_enc(hi, (n - 1) as nat));
        assert(be_enc(v, n).last() == lo as u8);
        lemma_fundamental_div_mod(v as int, 256);
    }
}

/// Round trip for unsigned little-endian runs.
pub proof fn lemma_le_round_trip(v: nat, n: nat)
    requires
        v < pow2(8 * n),
    ensures
        le_dec(le_enc(v, n)) == v,
    decreases n,
{
    if n == 0 {
        assert(pow2(0) == 1) by {
            lemma2_to64();
        }
    } else {
        let hi = v / 256;
        let lo = v % 256;
        assert(pow2(8 * n) == pow2(8 * (n - 1) as nat) * 256) by {
            lemma_pow2_adds(8 * (n - 1) as nat, 8);
            lemma2_to64();
        }
        assert(hi < pow2(8 * (n - 1) as nat)) by {
            lemma_fundamental_div_mod(v as int, 256);
        }
        lemma_le_round_trip(hi, (n - 1) as nat);
        assert(le_enc(v, n).drop_first() =~= le_enc(hi, (n - 1) as nat));
        assert(le_enc(v, n).first() == lo as u8);
        lemma_fundamental_div_mod(v as int, 256);
    }
}

/// Every big-endian run of `n` bytes decodes below `2^(8n)`.
pub proof fn lemma_be_dec_bound(s: Seq<u8>)
    ensures
        be_dec(s) < pow2(8 * s.len()),
    decreases s.len(),
{
    if s.len() == 0 {
        assert(pow2(0) == 1) by {
            lemma2_to64();
        }
    } else {
        lemma_be_dec_bound(s.drop_last());
        assert(pow2(8 * s.len()) == pow2(8 * (s.len() - 1) as nat) * 256) by {
            lemma_pow2_adds(8 * (s.len() - 1) as nat, 8);
            lemma2_to64();
        }
    }
}

/// Every little-endian run of `n` bytes decodes below `2^(8n)`.
pub proof fn lemma_le_dec_bound(s: Seq<u8>)
    ensures
        le_dec(s) < pow2(8 * s.len()),
    decreases s.len(),
{
    if s.len() == 0 {
        assert(pow2(0) == 1) by {
            lemma2_to64();
        }
    } else {
        lemma_le_dec_bound(s.drop_first());
        assert(pow2(8 * s.len()) == 256 * pow2(8 * (s.len() - 1) as nat)) by {
            lemma_pow2_adds(8, 8 * (s.len() - 1) as nat);
            lemma2_to64();
        }
    }
}

/// The byte at position `j` of a big-endian run, as a shift-and-mask of the
/// value: what a byte-at-a-time writer emits.
pub proof fn lemma_be_enc_index(v: nat, n: nat, j: int)
    requires
        0 <= j < n,
    ensures
        be_enc(v, n).len() == n,
        be_enc(v, n)[j] == ((v / pow2((8 * (n - 1 - j)) as nat)) % 256) as u8,
    decreases n,
{
    lemma_be_enc_len(v, n);
    lemma_be_enc_len(v / 256, (n - 1) as nat);
    if j == n - 1 {
        assert(pow2(0) == 1) by {
            lemma2_to64();
        }
        assert(be_enc(v, n)[j] == (v % 256) as u8);
        assert(v / 1 == v) by {
            vstd::arithmetic::div_mod::lemma_div_basics_1(v as int);
        }
    } else {
        lemma_be_enc_index(v / 256, (n - 1) as nat, j);
        assert(be_enc(v, n)[j] == be_enc(v / 256, (n - 1) as nat)[j]);
        let e = (8 * (n - 2 - j)) as nat;
        assert(pow2(e) * 256 == pow2((8 * (n - 1 - j)) as nat)) by {
            lemma_pow2_adds(e, 8);
            lemma2_to64();
        }
        assert(v / 256 / pow2(e) == v / (256 * pow2(e))) by {
            vstd::arithmetic::power2::lemma_pow2_pos(e);
            vstd::arithmetic::div_mod::lemma_div_denominator(v as int, 256, pow2(e) as int);
        }
    }
}

/// The byte at position `j` of a little-endian run.
pub proof fn lemma_le_enc_index(v: nat, n: nat, j: int)
    requires
        0 <= j < n,
    ensures
        le_enc(v, n).len() == n,
        le_enc(v, n)[j] == ((v / pow2((8 * j) as nat)) % 256) as u8,
    decreases n,
{
    lemma_le_enc_len(v, n);
    lemma_le_enc_len(v / 256, (n - 1) as nat);
    if j == 0 {
        assert(pow2(0) == 1) by {
            lemma2_to64();
        }
        assert(le_enc(v, n)[0] == (v % 256) as u8);
        assert(v / 1 == v) by {
            vstd::arithmetic::div_mod::lemma_div_basics_1(v as int);
        }
    } else {
        lemma_le_enc_index(v / 256, (n - 1) as nat, j - 1);
        assert(le_enc(v, n)[j] == le_enc(v / 256, (n - 1) as nat)[j - 1]);
        let e = (8 * (j - 1)) as nat;
        assert(pow2(e) * 256 == pow2((8 * j) as nat)) by {
            lemma_pow2_adds(e, 8);
            lemma2_to64();
        }
        assert(v / 256 / pow2(e) == v / (256 * pow2(e))) by {
            vstd::arithmetic::power2::lemma_pow2_pos(e);
            vstd::arithmetic::div_mod::lemma_div_denominator(v as int, 256, pow2(e) as int);
        }
    }
}

/// Encoding the value of a big-endian run at its own width reproduces
/// the run: no two runs of one width share a value.
pub proof fn lemma_be_dec_enc(s: Seq<u8>)
    ensures
        be_enc(be_dec(s), s.len()) == s,
    decreases s.len(),
{
    if s.len() > 0 {
        let v = be_dec(s);
        let hi = be_dec(s.drop_last());
        assert(v == hi * 256 + s.last());
        assert(v / 256 == hi && v % 256 == s.last()) by {
            lemma_fundamental_div_mod_converse(v as int, 256, hi as int, s.last() as int);
        }
        lemma_be_dec_enc(s.drop_last());
        assert(be_enc(v, s.len()) == be_enc(hi, (s.len() - 1) as nat).push((v % 256) as u8));
        assert(s.drop_last().push(s.last()) =~= s);
    }
}

/// The little-endian counterpart of `lemma_be_dec_enc`.
pub proof fn lemma_le_dec_enc(s: Seq<u8>)
    ensures
        le_enc(le_dec(s), s.len()) == s,
    decreases s.len(),
{
    if s.len() > 0 {
        let v = le_dec(s);
        let hi = le_dec(s.drop_first());
        assert(v == hi * 256 + s.first()) by {
            assert(v == s.first() as nat + 256 * hi);
        }
        assert(v / 256 == hi && v % 256 == s.first()) by {
            lemma_fundamental_div_mod_converse(v as int, 256, hi as int, s.first() as int);
        }
        lemma_le_dec_enc(s.drop_first());
        assert(le_enc(v, s.len()) == seq![(v % 256) as u8] + le_enc(hi, (s.len() - 1) as nat));
        assert(seq![s.first()] + s.drop_first() =~= s);
    }
}

/// Appending one byte to a little-endian run adds it at the next weight.
pub proof fn lemma_le_dec_snoc(s: Seq<u8>, x: u8)
    ensures
        le_dec(s.push(x)) == le_dec(s) + x * pow2(8 * s.len()),
    decreases s.len(),
{
    if s.len() == 0 {
        assert(s.push(x) =~= seq![x]);
        assert(s.push(x).drop_first() =~= Seq::<u8>::empty());
        assert(pow2(0) == 1) by {
            lemma2_to64();
        }
        assert(le_dec(Seq::<u8>::empty()) == 0);
        assert(le_dec(s.push(x)) == x as nat + 256 * le_dec(s.push(x).drop_first()));
        assert(le_dec(s) == 0);
        let p = pow2(8 * s.len());
        assert(x * p == x as int) by (nonlinear_arith)
            requires
                p == 1,
        ;
    } else {
        let t = s.drop_first();
        let e = 8 * (s.len() - 1) as nat;
        assert(s.push(x).drop_first() =~= t.push(x));
        lemma_le_dec_snoc(t, x);
        assert(pow2(8 * s.len()) == 256 * pow2(e)) by {
            lemma_pow2_adds(8, e);
            lemma2_to64();
        }
        assert(s.push(x).first() == s.first());
        assert(le_dec(s.push(x)) == s.first() as nat + 256 * le_dec(t.push(x)));
        assert(le_dec(t.push(x)) == le_dec(t) + x * pow2(e));
        assert(256 * (le_dec(t) + x * pow2(e)) == 256 * le_dec(t) + x * (256 * pow2(e)))
            by (nonlinear_arith);
        assert(le_dec(s.push(x)) == s.first() as nat + 256 * le_dec(t) + x * (256 * pow2(e)));
        assert(le_dec(s) == s.first() as nat + 256 * le_dec(t));
        assert(x * (256 * pow2(e)) == x * pow2(8 * s.len()));
        assert(le_dec(s.push(x)) == le_dec(s) + x * pow2(8 * s.len()));
    }
}

/// Round trip through the two's-complement image: a signed value in range
/// comes back unchanged.
pub proof fn lemma_signed_round_trip(v: int, bits: nat)
    requires
        bits > 0,
        -pow2((bits - 1) as nat) <= v < pow2((bits - 1) as nat),
    ensures
        to_unsigned(v, bits) < pow2(bits),
        to_signed(to_unsigned(v, bits), bits) == v,
{
    lemma_pow2_unfold(bits);
}

/// The inverse direction: a `bits`-bit image is reproduced by its signed
/// reading.
pub proof fn lemma_unsigned_round_trip(w: nat, bits: nat)
    requires
        bits > 0,
        w < pow2(bits),
    ensures
        -pow2((bits - 1) as nat) <= to_signed(w, bits) < pow2((bits - 1) as nat),
        to_unsigned(to_signed(w, bits), bits) == w,
{
    lemma_pow2_unfold(bits);
}

/// The concrete powers of two the integer widths of this protocol use, so
/// callers need not unfold `pow2` themselves.
pub proof fn lemma_wire_pow2_values()
    ensures
        pow2(8) == 0x100,
        pow2(16) == 0x10000,
        pow2(24) == 0x1000000,
        pow2(32) == 0x100000000,
        pow2(40) == 0x10000000000,
        pow2(64) == 0x10000000000000000,
        pow2(7) == 0x80,
        pow2(15) == 0x8000,
        pow2(23) == 0x800000,
        pow2(31) == 0x80000000,
        pow2(63) == 0x8000000000000000,
{
    lemma2_to64();
    lemma2_to64_rest();
}

} // verus!
