//! Text support for the codec: the UTF-8 step of string decoding, one
//! character-append primitive, and the byte framing of the two
//! length-prefixed string forms.

use vstd::prelude::*;
use vstd::utf8::valid_utf8;
use vstd::utf8::decode_utf8;
use vstd::utf8::encode_utf8;

use crate::wire::be_enc;
use crate::wire::le_enc;
use crate::wire::be_dec;
use crate::wire::to_signed;
use crate::wire::lemma_be_enc_len;
use crate::wire::lemma_be_round_trip;
use crate::wire::lemma_wire_pow2_values;
use crate::zlib::zlib_inflate;
use vstd::arithmetic::power2::pow2;

verus! {

/// The frame the plain string writer lays down: a length of -1 for the
/// empty string, else the big-endian byte length followed by the UTF-8
/// bytes.
pub open spec fn spec_string_bytes(s: Seq<char>) -> Seq<u8> {
    let b = encode_utf8(s);
    if b.len() == 0 {
        be_enc(0xFFFFFFFF, 4)
    } else {
        be_enc(b.len(), 4) + b
    }
}

/// The frame the string-reference writer lays down: the same, but the
/// empty string is written as length 0.
pub open spec fn spec_string_ref_bytes(s: Seq<char>) -> Seq<u8> {
    let b = encode_utf8(s);
    if b.len() == 0 {
        be_enc(0, 4)
    } else {
        be_enc(b.len(), 4) + b
    }
}

/// Relies on String::from_utf8: it returns the decoded string exactly
/// when the bytes are valid UTF-8, and the validation error's description
/// otherwise.
#[verifier::external_body]
pub(crate) fn string_from_utf8(bytes: Vec<u8>) -> (r: Result<String, String>)
    ensures
        match r {
            Ok(s) => valid_utf8(bytes@) && s@ == decode_utf8(bytes@),
            Err(_) => !valid_utf8(bytes@),
        },
{
    match String::from_utf8(bytes) {
        Ok(s) => Ok(s),
        Err(e) => Err(e.to_string()),
    }
}

/// Relies on String::push: it appends one character to the string.
#[verifier::external_body]
pub(crate) fn push_char(s: &mut String, c: char)
    ensures
        final(s)@ == old(s)@.push(c),
{
    s.push(c);
}

/// Round trip of the plain string frame: the length prefix reads back as
/// -1 for the empty string and as the byte length otherwise, the framed
/// bytes read back unchanged, and decoding them restores the string.
pub proof fn lemma_string_frame_round_trip(s: Seq<char>, rest: Seq<u8>)
    requires
        encode_utf8(s).len() <= 0x7FFFFFFF,
    ensures
        ({
            let b = encode_utf8(s);
            let all = spec_string_bytes(s) + rest;
            &&& spec_string_bytes(s).len() == if b.len() == 0 {
                4int
            } else {
                4int + b.len()
            }
            &&& all.len() >= 4
            &&& to_signed(be_dec(all.subrange(0, 4)), 32) == (if b.len() == 0 {
                -1int
            } else {
                b.len() as int
            })
            &&& b.len() > 0 ==> all.len() >= 4 + b.len() && all.subrange(4, 4 + b.len() as int)
                == b
            &&& valid_utf8(b)
            &&& decode_utf8(b) == s
        }),
{
    let b = encode_utf8(s);
    let all = spec_string_bytes(s) + rest;
    lemma_wire_pow2_values();
    broadcast use vstd::utf8::encode_utf8_valid_utf8;
    broadcast use vstd::utf8::encode_utf8_decode_utf8;

    if b.len() == 0 {
        lemma_be_enc_len(0xFFFFFFFF, 4);
        assert(all.subrange(0, 4) =~= be_enc(0xFFFFFFFF, 4));
        lemma_be_round_trip(0xFFFFFFFF, 4);
    } else {
        lemma_be_enc_len(b.len(), 4);
        assert(all.subrange(0, 4) =~= be_enc(b.len(), 4));
        assert(b.len() < pow2(32));
        lemma_be_round_trip(b.len(), 4);
        assert(all.subrange(4, 4 + b.len() as int) =~= b);
    }
}

/// Round trip of the string-reference frame: as the plain form, but the
/// empty string's prefix reads back as 0.
pub proof fn lemma_string_ref_frame_round_trip(s: Seq<char>, rest: Seq<u8>)
    requires
        encode_utf8(s).len() <= 0x7FFFFFFF,
    ensures
        ({
            let b = encode_utf8(s);
            let all = spec_string_ref_bytes(s) + rest;
            &&& spec_string_ref_bytes(s).len() == if b.len() == 0 {
                4int
            } else {
                4int + b.len()
            }
            &&& all.len() >= 4
            &&& to_signed(be_dec(all.subrange(0, 4)), 32) == (if b.len() == 0 {
                0int
            } else {
                b.len() as int
            })
            &&& b.len() > 0 ==> all.len() >= 4 + b.len() && all.subrange(4, 4 + b.len() as int)
                == b
            &&& valid_utf8(b)
            &&& decode_utf8(b) == s
        }),
{
    let b = encode_utf8(s);
    let all = spec_string_ref_bytes(s) + rest;
    lemma_wire_pow2_values();
    broadcast use vstd::utf8::encode_utf8_valid_utf8;
    broadcast use vstd::utf8::encode_utf8_decode_utf8;

    if b.len() == 0 {
        lemma_be_enc_len(0, 4);
        assert(all.subrange(0, 4) =~= be_enc(0, 4));
        lemma_be_round_trip(0, 4);
    } else {
        lemma_be_enc_len(b.len(), 4);
        assert(all.subrange(0, 4) =~= be_enc(b.len(), 4));
        assert(b.len() < pow2(32));
        lemma_be_round_trip(b.len(), 4);
        assert(all.subrange(4, 4 + b.len() as int) =~= b);
    }
}

/// Round trip of the compressed string frame: given a zlib stream that
/// inflates to the string's UTF-8 bytes — which is what the compressing
/// writer lays down — the compressed length reads back, the framed
/// stream reads back unchanged, and inflating and decoding it restores
/// the string.
pub proof fn lemma_compressed_frame_round_trip(s: Seq<char>, comp: Seq<u8>, rest: Seq<u8>)
    requires
        encode_utf8(s).len() <= 0x7FFFFFFF,
        comp.len() <= 0x7FFFFFFF,
        zlib_inflate(comp) == Some(encode_utf8(s)),
    ensures
        ({
            let b = encode_utf8(s);
            let all = (be_enc(comp.len(), 4) + le_enc(b.len(), 4) + comp) + rest;
            &&& all.len() >= 8 + comp.len()
            &&& to_signed(be_dec(all.subrange(0, 4)), 32) == comp.len()
            &&& all.subrange(8, 8 + comp.len() as int) == comp
            &&& valid_utf8(b)
            &&& decode_utf8(b) == s
        }),
{
    let b = encode_utf8(s);
    let all = (be_enc(comp.len(), 4) + le_enc(b.len(), 4) + comp) + rest;
    lemma_wire_pow2_values();
    broadcast use vstd::utf8::encode_utf8_valid_utf8;
    broadcast use vstd::utf8::encode_utf8_decode_utf8;

    lemma_be_enc_len(comp.len(), 4);
    crate::wire::lemma_le_enc_len(b.len(), 4);
    assert(all.subrange(0, 4) =~= be_enc(comp.len(), 4));
    assert(comp.len() < pow2(32));
    lemma_be_round_trip(comp.len(), 4);
    assert(all.subrange(8, 8 + comp.len() as int) =~= comp);
}

} // verus!
