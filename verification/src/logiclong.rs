//! The LogicLong identifier: a pair of unsigned 32-bit components with a
//! base-14 textual tag. The two components combine as `high + 256 * low`;
//! the combined value's base-14 digits, drawn from a fixed fourteen-symbol
//! alphabet, spell the tag behind a leading `#`. Tags compare and parse
//! case-insensitively, with the letter `O` standing for the digit `0`.
//!
//! One convention is fixed here: `high` is the combined value modulo 256,
//! so the pair survives a round trip through its tag exactly when `high`
//! is below 256; `low` may span the full 32 bits.

use vstd::prelude::*;

use vstd::string::StrSliceExecFns;

use crate::text::push_char;

verus! {

/// What tag handling can fail with.
#[derive(Clone, Debug, PartialEq, Eq)]
pub enum LogicLongError {
    /// A tag with a character outside the alphabet after canonicalization,
    /// or one whose value no component pair stands for. Carries the
    /// canonicalized tag.
    InvalidTag(String),
    /// A high component above an application-declared bound.
    InvalidHighID(u32),
}

/// The symbol for one base-14 digit, in the fixed, order-significant
/// alphabet of the tag form.
pub open spec fn tag_char(d: int) -> char {
    if d == 0 {
        '0'
    } else if d == 1 {
        '2'
    } else if d == 2 {
        '8'
    } else if d == 3 {
        '9'
    } else if d == 4 {
        'P'
    } else if d == 5 {
        'Y'
    } else if d == 6 {
        'L'
    } else if d == 7 {
        'Q'
    } else if d == 8 {
        'G'
    } else if d == 9 {
        'R'
    } else if d == 10 {
        'J'
    } else if d == 11 {
        'C'
    } else if d == 12 {
        'U'
    } else {
        'V'
    }
}

/// The digit a symbol stands for, or -1 for a character outside the
/// alphabet.
pub open spec fn tag_index(c: char) -> int {
    if c == '0' {
        0
    } else if c == '2' {
        1
    } else if c == '8' {
        2
    } else if c == '9' {
        3
    } else if c == 'P' {
        4
    } else if c == 'Y' {
        5
    } else if c == 'L' {
        6
    } else if c == 'Q' {
        7
    } else if c == 'G' {
        8
    } else if c == 'R' {
        9
    } else if c == 'J' {
        10
    } else if c == 'C' {
        11
    } else if c == 'U' {
        12
    } else if c == 'V' {
        13
    } else {
        -1
    }
}

/// The base-14 digit string of a combined value, most significant first;
/// zero has no digits.
pub open spec fn tag_digits(t: nat) -> Seq<char>
    decreases t,
{
    if t == 0 {
        Seq::empty()
    } else {
        tag_digits(t / 14) + seq![tag_char((t % 14) as int)]
    }
}

/// The combined value a digit string stands for.
pub open spec fn tag_value(ds: Seq<char>) -> nat
    decreases ds.len(),
{
    if ds.len() == 0 {
        0
    } else {
        tag_value(ds.drop_last()) * 14 + (if tag_index(ds.last()) >= 0 {
            tag_index(ds.last()) as nat
        } else {
            0
        })
    }
}

/// Every character of the string is an alphabet symbol.
pub open spec fn tag_digits_valid(ds: Seq<char>) -> bool {
    forall|i: int| 0 <= i < ds.len() ==> tag_index(ds[i]) >= 0
}

/// ASCII uppercasing of one character.
pub open spec fn upper_char(c: char) -> char {
    if 97 <= c as u32 && c as u32 <= 122 {
        ((c as u32 - 32) as char)
    } else {
        c
    }
}

/// Whether canonicalization keeps the character: it must uppercase into
/// A-Z or 0-9.
pub open spec fn keep_char(c: char) -> bool {
    let u = upper_char(c) as u32;
    (65 <= u && u <= 90) || (48 <= u && u <= 57)
}

/// The character canonicalization emits for a kept one: its uppercase
/// form, with the letter `O` standing for the digit `0`.
pub open spec fn norm_char(c: char) -> char {
    if upper_char(c) == 'O' {
        '0'
    } else {
        upper_char(c)
    }
}

/// The canonical digit portion of any string: uppercase every character,
/// strip those outside A-Z0-9, and map `O` to `0`.
pub open spec fn canon_tag(s: Seq<char>) -> Seq<char>
    decreases s.len(),
{
    if s.len() == 0 {
        Seq::empty()
    } else {
        canon_tag(s.drop_last()) + (if keep_char(s.last()) {
            seq![norm_char(s.last())]
        } else {
            Seq::empty()
        })
    }
}

/// The canonical form of any string as a tag: `#` before its canonical
/// digit portion.
pub open spec fn fix_tag_spec(s: Seq<char>) -> Seq<char> {
    seq!['#'] + canon_tag(s)
}

/// The light validity check: a `#`, then at least one character, all of
/// which are alphabet symbols up to case and `O`-for-`0`.
pub open spec fn is_valid_tag_spec(s: Seq<char>) -> bool {
    s.len() >= 2 && s[0] == '#' && (forall|i: int|
        1 <= i < s.len() ==> tag_index(norm_char(s[i])) >= 0)
}

/// The identifier: two unsigned 32-bit components and the canonical tag
/// derived from them.
#[derive(Clone, Debug, PartialEq, Eq, PartialOrd, Ord)]
pub struct LogicLong {
    pub high: u32,
    pub low: u32,
    pub tag: String,
}

impl LogicLong {
    /// The single combined value the pair stands for.
    pub open spec fn combined(&self) -> nat {
        self.high as nat + 0x100 * self.low as nat
    }

    /// The invariant of a constructed identifier: its tag field spells
    /// the combined value's digits behind `#`.
    pub open spec fn wf(&self) -> bool {
        self.tag@ == seq!['#'] + tag_digits(self.combined())
    }
}

impl Default for LogicLong {
    /// The zero identifier with an empty tag field.
    fn default() -> (d: LogicLong)
        ensures
            d.high == 0,
            d.low == 0,
            d.tag@ == Seq::<char>::empty(),
    {
        LogicLong { high: 0, low: 0, tag: String::new() }
    }
}

/// The alphabet symbol of a digit.
fn tag_char_of(d: u8) -> (r: char)
    requires
        d < 14,
    ensures
        r == tag_char(d as int),
{
    match d {
        0 => '0',
        1 => '2',
        2 => '8',
        3 => '9',
        4 => 'P',
        5 => 'Y',
        6 => 'L',
        7 => 'Q',
        8 => 'G',
        9 => 'R',
        10 => 'J',
        11 => 'C',
        12 => 'U',
        _ => 'V',
    }
}

/// The digit of an alphabet symbol, or -1.
fn tag_index_of(c: char) -> (r: i8)
    ensures
        r as int == tag_index(c),
{
    if c == '0' {
        0
    } else if c == '2' {
        1
    } else if c == '8' {
        2
    } else if c == '9' {
        3
    } else if c == 'P' {
        4
    } else if c == 'Y' {
        5
    } else if c == 'L' {
        6
    } else if c == 'Q' {
        7
    } else if c == 'G' {
        8
    } else if c == 'R' {
        9
    } else if c == 'J' {
        10
    } else if c == 'C' {
        11
    } else if c == 'U' {
        12
    } else if c == 'V' {
        13
    } else {
        -1
    }
}

/// Relies on rand's gen_range over `0..bound`: a value below the bound.
/// The call rejects an empty range, so the bound must be positive.
#[verifier::external_body]
fn random_below(bound: u32) -> (r: u32)
    requires
        bound > 0,
    ensures
        r < bound,
{
    rand::Rng::gen_range(&mut rand::thread_rng(), 0..bound)
}

/// Relies on rand's gen: some 32-bit value, with nothing promised of it.
#[verifier::external_body]
fn random_u32() -> u32 {
    rand::Rng::gen(&mut rand::thread_rng())
}

impl LogicLong {
    /// Builds the identifier for a component pair, deriving its canonical
    /// tag.
    pub fn new(high: u32, low: u32) -> (r: LogicLong)
        ensures
            r.high == high,
            r.low == low,
            r.wf(),
    {
        let mut logic_long = LogicLong { high, low, tag: String::new() };
        let tag = logic_long.to_tag();
        logic_long.tag = tag;
        logic_long
    }

    /// The canonical tag of this identifier's component pair: `#` before
    /// the base-14 digits of `high + 256 * low`.
    pub fn to_tag(&self) -> (r: String)
        ensures
            r@ == seq!['#'] + tag_digits(self.combined()),
    {
        let mut total: u64 = self.high as u64 + 0x100 * (self.low as u64);
        let ghost t0 = total as nat;
        let mut rev: Vec<char> = Vec::new();
        proof {
            assert(rev@.reverse() =~= Seq::<char>::empty());
        }
        while total != 0
            invariant
                tag_digits(t0) == tag_digits(total as nat) + rev@.reverse(),
            decreases total,
        {
            let d: u8 = (total % 14) as u8;
            let c = tag_char_of(d);
            proof {
                assert(rev@.push(c).reverse() =~= seq![c] + rev@.reverse());
                assert(tag_digits(total as nat) == tag_digits((total as nat) / 14) + seq![c]);
                assert(tag_digits((total as nat) / 14) + (seq![c] + rev@.reverse())
                    == (tag_digits((total as nat) / 14) + seq![c]) + rev@.reverse());
            }
            rev.push(c);
            total = total / 14;
        }
        let mut tag = String::new();
        let mut i: usize = rev.len();
        proof {
            assert(rev@.subrange(rev@.len() as int, rev@.len() as int).reverse()
                =~= Seq::<char>::empty());
        }
        while i > 0
            invariant
                i <= rev@.len(),
                tag@ == rev@.subrange(i as int, rev@.len() as int).reverse(),
            decreases i,
        {
            i = i - 1;
            let c = rev[i];
            push_char(&mut tag, c);
            proof {
                assert(rev@.subrange(i as int, rev@.len() as int).reverse() =~= rev@.subrange(
                    i + 1,
                    rev@.len() as int,
                ).reverse().push(rev@[i as int]));
            }
        }
        proof {
            assert(rev@.subrange(0, rev@.len() as int) =~= rev@);
            assert(tag@ == tag_digits(t0));
            lemma_tag_digits_valid(t0);
            lemma_canon_of_digits(tag_digits(t0));
        }
        LogicLong::fix_tag(tag.as_str())
    }

    /// The canonical form of any string as a tag: `#`, then the string
    /// uppercased, stripped to A-Z0-9, with `O` as `0`.
    pub fn fix_tag(tag: &str) -> (r: String)
        ensures
            r@ == fix_tag_spec(tag@),
    {
        let mut out = String::new();
        push_char(&mut out, '#');
        let n = tag.unicode_len();
        let mut i: usize = 0;
        proof {
            assert(canon_tag(tag@.subrange(0, 0)) =~= Seq::<char>::empty());
            assert(out@ =~= seq!['#'] + canon_tag(tag@.subrange(0, 0)));
        }
        while i < n
            invariant
                i <= n,
                n == tag@.len(),
                out@ == seq!['#'] + canon_tag(tag@.subrange(0, i as int)),
            decreases n - i,
        {
            let c = tag.get_char(i);
            let u = c as u32;
            let up: char = if 97 <= u && u <= 122 {
                ((u - 32) as u8) as char
            } else {
                c
            };
            let uu = up as u32;
            proof {
                assert(up == upper_char(tag@[i as int]));
                assert(tag@.subrange(0, i + 1).drop_last() =~= tag@.subrange(0, i as int));
                assert(tag@.subrange(0, i + 1).last() == tag@[i as int]);
            }
            if (65 <= uu && uu <= 90) || (48 <= uu && uu <= 57) {
                let emitted: char = if up == 'O' {
                    '0'
                } else {
                    up
                };
                push_char(&mut out, emitted);
            }
            i = i + 1;
        }
        proof {
            assert(tag@.subrange(0, n as int) =~= tag@);
        }
        out
    }

    /// Whether the string already has the outward shape of a tag: `#`
    /// plus one or more alphabet characters, case-insensitively and with
    /// `O` as `0`. No value decoding is performed.
    #[must_use]
    pub fn is_valid_tag(tag: &str) -> (r: bool)
        ensures
            r == is_valid_tag_spec(tag@),
    {
        let n = tag.unicode_len();
        if n < 2 {
            return false;
        }
        if tag.get_char(0) != '#' {
            return false;
        }
        let mut i: usize = 1;
        while i < n
            invariant
                1 <= i <= n,
                n == tag@.len(),
                forall|k: int| 1 <= k < i ==> tag_index(norm_char(tag@[k])) >= 0,
            decreases n - i,
        {
            let c = tag.get_char(i);
            let u = c as u32;
            let up: char = if 97 <= u && u <= 122 {
                ((u - 32) as u8) as char
            } else {
                c
            };
            let normed: char = if up == 'O' {
                '0'
            } else {
                up
            };
            proof {
                assert(normed == norm_char(tag@[i as int]));
            }
            if tag_index_of(normed) < 0 {
                return false;
            }
            i = i + 1;
        }
        true
    }

    /// Decodes a string into an identifier: the string is canonicalized
    /// first, then its digits are read in base 14 and split into the
    /// component pair. A character outside the alphabet, or a value too
    /// large for any pair, is rejected with the canonicalized tag.
    #[verifier::loop_isolation(false)]
    pub fn parse_tag(tag: &str) -> (r: Result<LogicLong, LogicLongError>)
        ensures
            ({
                let ds = canon_tag(tag@);
                &&& (tag_digits_valid(ds) && tag_value(ds) < 0x10000000000) ==> (r matches Ok(ll)
                    && ll.high as nat == tag_value(ds) % 256 && ll.low as nat == tag_value(ds)
                    / 256 && ll.tag@ == fix_tag_spec(tag@))
                &&& !(tag_digits_valid(ds) && tag_value(ds) < 0x10000000000) ==> (r matches Err(e)
                    && e matches LogicLongError::InvalidTag(t) && t@ == fix_tag_spec(tag@))
            }),
    {
        let fixed = LogicLong::fix_tag(tag);
        let ghost ds = canon_tag(tag@);
        let n = fixed.as_str().unicode_len();
        let mut total: u64 = 0;
        let mut i: usize = 1;
        proof {
            assert(ds.subrange(0, 0) =~= Seq::<char>::empty());
        }
        while i < n
            invariant
                1 <= i <= n,
                n == fixed@.len(),
                fixed@ == seq!['#'] + ds,
                tag_digits_valid(ds.subrange(0, i - 1)),
                total as nat == tag_value(ds.subrange(0, i - 1)),
                total < 0x10000000000,
            decreases n - i,
        {
            let c = fixed.as_str().get_char(i);
            proof {
                assert(c == ds[i - 1]);
            }
            let idx = tag_index_of(c);
            if idx < 0 {
                proof {
                    assert(!tag_digits_valid(ds));
                }
                return Err(LogicLongError::InvalidTag(fixed));
            }
            let next: u64 = total * 14 + (idx as u64);
            proof {
                assert(ds.subrange(0, i as int).drop_last() =~= ds.subrange(0, i - 1));
                assert(ds.subrange(0, i as int).last() == ds[i - 1]);
            }
            if next >= 0x10000000000 {
                proof {
                    if tag_digits_valid(ds) {
                        lemma_tag_value_prefix_le(ds, i as int);
                    }
                }
                return Err(LogicLongError::InvalidTag(fixed));
            }
            total = next;
            i = i + 1;
        }
        proof {
            assert(ds.subrange(0, n - 1) =~= ds);
        }
        let high: u32 = (total % 256) as u32;
        let low: u32 = (total / 256) as u32;
        Ok(LogicLong { high, low, tag: fixed })
    }

    /// A fresh identifier with `high` drawn below the given bound and
    /// `low` over the full 32 bits, tagged canonically.
    #[must_use]
    pub fn random(max_high: u32) -> (r: LogicLong)
        requires
            max_high > 0,
        ensures
            r.high < max_high,
            r.wf(),
    {
        let high = random_below(max_high);
        let low = random_u32();
        LogicLong::new(high, low)
    }
}

impl core::str::FromStr for LogicLong {
    type Err = LogicLongError;

    fn from_str(s: &str) -> Result<LogicLong, LogicLongError> {
        LogicLong::parse_tag(s)
    }
}

/// The alphabet is self-inverse: each digit's symbol reads back as the
/// digit, and each symbol's digit spells the symbol.
proof fn lemma_tag_alphabet(d: int, c: char)
    ensures
        0 <= d < 14 ==> tag_index(tag_char(d)) == d,
        tag_index(c) >= 0 ==> tag_char(tag_index(c)) == c,
{
}

/// A combined value's digit string is valid and, when there is one, never
/// starts with the zero symbol.
proof fn lemma_tag_digits_valid(t: nat)
    ensures
        tag_digits_valid(tag_digits(t)),
        t > 0 ==> tag_digits(t).len() >= 1 && tag_digits(t)[0] != '0',
        t == 0 ==> tag_digits(t).len() == 0,
    decreases t,
{
    if t > 0 {
        lemma_tag_digits_valid(t / 14);
        lemma_tag_alphabet((t % 14) as int, '0');
        if t / 14 == 0 {
            assert(t % 14 != 0) by {
                vstd::arithmetic::div_mod::lemma_fundamental_div_mod(t as int, 14);
            }
        }
    }
}

/// Reading back the digit string of any combined value gives the value.
pub proof fn lemma_tag_value_round_trip(t: nat)
    ensures
        tag_value(tag_digits(t)) == t,
    decreases t,
{
    if t > 0 {
        lemma_tag_value_round_trip(t / 14);
        lemma_tag_alphabet((t % 14) as int, '0');
        assert(tag_digits(t).drop_last() =~= tag_digits(t / 14));
        assert(tag_digits(t).last() == tag_char((t % 14) as int));
        vstd::arithmetic::div_mod::lemma_fundamental_div_mod(t as int, 14);
    }
}

/// Spelling the value of a valid digit string that does not start with
/// the zero symbol gives the string back: tags without leading zeros are
/// canonical.
pub proof fn lemma_tag_digits_round_trip(ds: Seq<char>)
    requires
        tag_digits_valid(ds),
        ds.len() == 0 || ds[0] != '0',
    ensures
        tag_digits(tag_value(ds)) == ds,
    decreases ds.len(),
{
    if ds.len() > 0 {
        let dd = ds.drop_last();
        let c = ds.last();
        let d = tag_index(c);
        assert(tag_index(ds[ds.len() - 1]) >= 0);
        lemma_tag_alphabet(d, c);
        lemma_tag_digits_round_trip(dd);
        let t = tag_value(ds);
        assert(t == tag_value(dd) * 14 + d);
        assert(t / 14 == tag_value(dd) && t % 14 == d) by {
            vstd::arithmetic::div_mod::lemma_fundamental_div_mod_converse(
                t as int,
                14,
                tag_value(dd) as int,
                d,
            );
        }
        lemma_tag_value_positive(ds);
        assert(t != 0);
        assert(tag_digits(t) == tag_digits(tag_value(dd)) + seq![c]);
        assert(tag_digits(tag_value(dd)) + seq![c] =~= ds);
    }
}

/// A valid digit string that does not start with the zero symbol and is
/// not empty stands for a positive value.
proof fn lemma_tag_value_positive(ds: Seq<char>)
    requires
        tag_digits_valid(ds),
        ds.len() > 0,
        ds[0] != '0',
    ensures
        tag_value(ds) >= 1,
    decreases ds.len(),
{
    if ds.len() == 1 {
        assert(tag_index(ds[0]) >= 1);
    } else {
        lemma_tag_value_positive(ds.drop_last());
        assert(ds.drop_last()[0] == ds[0]);
    }
}

/// A prefix of a digit string never stands for more than the whole.
proof fn lemma_tag_value_prefix_le(ds: Seq<char>, i: int)
    requires
        0 <= i <= ds.len(),
    ensures
        tag_value(ds.subrange(0, i)) <= tag_value(ds),
    decreases ds.len(),
{
    if i == ds.len() {
        assert(ds.subrange(0, i) =~= ds);
    } else {
        lemma_tag_value_prefix_le(ds.drop_last(), i);
        assert(ds.drop_last().subrange(0, i) =~= ds.subrange(0, i));
    }
}

/// Canonicalization distributes over concatenation.
proof fn lemma_canon_append(a: Seq<char>, b: Seq<char>)
    ensures
        canon_tag(a + b) == canon_tag(a) + canon_tag(b),
    decreases b.len(),
{
    if b.len() == 0 {
        assert(a + b =~= a);
        assert(canon_tag(a) + canon_tag(b) =~= canon_tag(a));
    } else {
        assert((a + b).drop_last() =~= a + b.drop_last());
        assert((a + b).last() == b.last());
        lemma_canon_append(a, b.drop_last());
        assert(canon_tag(a + b) == (canon_tag(a) + canon_tag(b.drop_last())) + (if keep_char(
            b.last(),
        ) {
            seq![norm_char(b.last())]
        } else {
            Seq::<char>::empty()
        }));
        assert((canon_tag(a) + canon_tag(b.drop_last())) + (if keep_char(b.last()) {
            seq![norm_char(b.last())]
        } else {
            Seq::<char>::empty()
        }) =~= canon_tag(a) + (canon_tag(b.drop_last()) + (if keep_char(b.last()) {
            seq![norm_char(b.last())]
        } else {
            Seq::<char>::empty()
        })));
    }
}

/// What canonicalization emits it leaves alone: emitted characters are
/// kept and unchanged by a second pass.
proof fn lemma_norm_fixed(c: char)
    requires
        keep_char(c),
    ensures
        keep_char(norm_char(c)),
        norm_char(norm_char(c)) == norm_char(c),
{
}

/// Canonicalizing an already canonical digit portion changes nothing.
proof fn lemma_canon_canon(s: Seq<char>)
    ensures
        canon_tag(canon_tag(s)) == canon_tag(s),
    decreases s.len(),
{
    if s.len() > 0 {
        lemma_canon_canon(s.drop_last());
        if keep_char(s.last()) {
            lemma_norm_fixed(s.last());
            lemma_canon_append(canon_tag(s.drop_last()), seq![norm_char(s.last())]);
            assert(canon_tag(Seq::<char>::empty()) == Seq::<char>::empty());
            assert(seq![norm_char(s.last())].drop_last() =~= Seq::<char>::empty());
            assert(canon_tag(seq![norm_char(s.last())]) =~= seq![norm_char(s.last())]);
        } else {
            assert(canon_tag(s) =~= canon_tag(s.drop_last()));
        }
    }
}

/// Alphabet symbols pass through canonicalization unchanged.
proof fn lemma_canon_of_digits(ds: Seq<char>)
    requires
        tag_digits_valid(ds),
    ensures
        canon_tag(ds) == ds,
    decreases ds.len(),
{
    if ds.len() > 0 {
        assert(tag_index(ds[ds.len() - 1]) >= 0);
        lemma_canon_of_digits(ds.drop_last());
        assert(keep_char(ds.last()));
        assert(norm_char(ds.last()) == ds.last());
        assert(canon_tag(ds) =~= ds);
    }
}

/// Canonicalization is idempotent: fixing a fixed tag changes nothing.
pub proof fn lemma_fix_tag_idempotent(s: Seq<char>)
    ensures
        fix_tag_spec(fix_tag_spec(s)) == fix_tag_spec(s),
{
    lemma_canon_append(seq!['#'], canon_tag(s));
    assert(canon_tag(Seq::<char>::empty()) == Seq::<char>::empty());
    assert(seq!['#'].drop_last() =~= Seq::<char>::empty());
    assert(!keep_char('#'));
    assert(canon_tag(seq!['#']) =~= Seq::<char>::empty());
    lemma_canon_canon(s);
    assert(fix_tag_spec(fix_tag_spec(s)) =~= fix_tag_spec(s));
}

/// A string of valid outward shape canonicalizes to alphabet symbols
/// only: the light check admits nothing the decoder's alphabet lookup
/// would reject.
pub proof fn lemma_valid_tag_canon(s: Seq<char>)
    requires
        is_valid_tag_spec(s),
    ensures
        tag_digits_valid(canon_tag(s)),
        canon_tag(s).len() >= 1,
{
    lemma_valid_canon_rec(s, s.len() as int);
    assert(s.subrange(0, s.len() as int) =~= s);
}

/// Helper induction for `lemma_valid_tag_canon`, over prefixes.
proof fn lemma_valid_canon_rec(s: Seq<char>, i: int)
    requires
        is_valid_tag_spec(s),
        1 <= i <= s.len(),
    ensures
        tag_digits_valid(canon_tag(s.subrange(0, i))),
        canon_tag(s.subrange(0, i)).len() == i - 1,
    decreases i,
{
    if i == 1 {
        assert(s.subrange(0, 1) =~= seq![s[0]]);
        assert(canon_tag(Seq::<char>::empty()) == Seq::<char>::empty());
        assert(seq![s[0]].drop_last() =~= Seq::<char>::empty());
        assert(s[0] == '#');
        assert(!keep_char('#'));
        assert(canon_tag(seq![s[0]]) =~= Seq::<char>::empty());
    } else {
        lemma_valid_canon_rec(s, i - 1);
        let p = s.subrange(0, i);
        assert(p.drop_last() =~= s.subrange(0, i - 1));
        assert(p.last() == s[i - 1]);
        assert(tag_index(norm_char(s[i - 1])) >= 0);
        assert(keep_char(s[i - 1]));
        let prev = canon_tag(s.subrange(0, i - 1));
        assert(canon_tag(p) == prev + seq![norm_char(s[i - 1])]);
        assert(forall|k: int|
            0 <= k < canon_tag(p).len() ==> tag_index(canon_tag(p)[k]) >= 0) by {
            assert(forall|k: int| 0 <= k < prev.len() ==> tag_index(prev[k]) >= 0);
            assert(canon_tag(p)[prev.len() as int] == norm_char(s[i - 1]));
        }
    }
}

/// Round trip of a component pair through its tag: with `high` below
/// 256, the combined value's digits are valid, spell the value back, and
/// split into the same pair; and the canonical tag re-canonicalizes to
/// the same digits, so decoding the derived tag restores the pair.
pub proof fn lemma_tag_pair_round_trip(high: u32, low: u32)
    requires
        high < 256,
    ensures
        ({
            let t = high as nat + 0x100 * low as nat;
            &&& tag_digits_valid(tag_digits(t))
            &&& tag_value(tag_digits(t)) == t
            &&& t < 0x10000000000
            &&& t % 256 == high
            &&& t / 256 == low
            &&& canon_tag(seq!['#'] + tag_digits(t)) == tag_digits(t)
        }),
{
    let t = high as nat + 0x100 * low as nat;
    lemma_tag_digits_valid(t);
    lemma_tag_value_round_trip(t);
    assert(low as nat * 0x100 <= 0xFFFFFFFF * 0x100) by (nonlinear_arith)
        requires
            low as nat <= 0xFFFFFFFF,
    ;
    assert(t % 256 == high && t / 256 == low) by {
        vstd::arithmetic::div_mod::lemma_fundamental_div_mod_converse(
            t as int,
            256,
            low as int,
            high as int,
        );
    }
    lemma_canon_append(seq!['#'], tag_digits(t));
    assert(canon_tag(Seq::<char>::empty()) == Seq::<char>::empty());
    assert(seq!['#'].drop_last() =~= Seq::<char>::empty());
    assert(!keep_char('#'));
    assert(canon_tag(seq!['#']) =~= Seq::<char>::empty());
    lemma_canon_of_digits(tag_digits(t));
    assert(canon_tag(seq!['#'] + tag_digits(t)) =~= tag_digits(t));
}

} // verus!
