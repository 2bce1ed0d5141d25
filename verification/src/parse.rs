//! Decoding input lines into records.
//!
//! One line holds, whitespace-trimmed and separated by single spaces: a signed
//! 32-bit `tag`, one reserved token (skipped, never interpreted), the count of
//! deletion keys, the count of insertions; then that many deletion-key tokens,
//! value tokens, and insertion-key tokens.  A key token is exactly 65
//! hexadecimal characters; a value token is a 32-bit floating-point literal.

use crate::key::Key;
use crate::record::{value_views, LineItem, Value};
use vstd::arithmetic::power::{lemma_pow1, lemma_pow_increases, lemma_pow_multiplies, pow};
use vstd::arithmetic::power2::{lemma2_to64, lemma_pow2, lemma_pow2_adds};
use vstd::prelude::*;
use vstd::string::StrSliceExecFns;

verus! {

/// Why a line failed to decode: a bad integer token (header fields, or a key
/// that is not 65 hexadecimal characters, or a wrong token count) or a bad
/// floating-point token.
#[derive(Clone, Copy, Debug, PartialEq, Eq, Structural)]
pub enum ParseError {
    IntegerError,
    FloatError,
}

// ---------------------------------------------------------------------------
// Character classes and numeric token values.
// ---------------------------------------------------------------------------
pub open spec fn is_dec_digit(c: char) -> bool {
    '0' as u32 <= c as u32 && c as u32 <= '9' as u32
}

pub open spec fn dec_val(c: char) -> int {
    c as u32 - '0' as u32
}

pub open spec fn is_hex_digit(c: char) -> bool {
    is_dec_digit(c) || ('a' as u32 <= c as u32 && c as u32 <= 'f' as u32) || ('A' as u32 <= c
        as u32 && c as u32 <= 'F' as u32)
}

pub open spec fn hex_val(c: char) -> int {
    if is_dec_digit(c) {
        dec_val(c)
    } else if 'a' as u32 <= c as u32 && c as u32 <= 'f' as u32 {
        c as u32 - 'a' as u32 + 10
    } else {
        c as u32 - 'A' as u32 + 10
    }
}

pub open spec fn all_dec_digits(s: Seq<char>) -> bool {
    forall|i: int| 0 <= i < s.len() ==> is_dec_digit(#[trigger] s[i])
}

pub open spec fn all_hex_digits(s: Seq<char>) -> bool {
    forall|i: int| 0 <= i < s.len() ==> is_hex_digit(#[trigger] s[i])
}

/// The value of a sequence of decimal digits, most significant first.
pub open spec fn dec_value(s: Seq<char>) -> int
    decreases s.len(),
{
    if s.len() == 0 {
        0
    } else {
        dec_value(s.drop_last()) * 10 + dec_val(s.last())
    }
}

/// The value of a sequence of hexadecimal digits, most significant first.
pub open spec fn hex_value(s: Seq<char>) -> int
    decreases s.len(),
{
    if s.len() == 0 {
        0
    } else {
        hex_value(s.drop_last()) * 16 + hex_val(s.last())
    }
}

proof fn lemma_pow16()
    ensures
        pow(16, 32) == 0x100000000000000000000000000000000int,
        pow(16, 1) == 16,
{
    lemma2_to64();
    lemma_pow2(4);
    lemma_pow2(128);
    lemma_pow2_adds(64, 64);
    lemma_pow_multiplies(2, 4, 32);
    lemma_pow1(16);
}

proof fn lemma_dec_value_nonneg(s: Seq<char>)
    requires
        all_dec_digits(s),
    ensures
        dec_value(s) >= 0,
    decreases s.len(),
{
    if s.len() > 0 {
        assert(forall|i: int| 0 <= i < s.len() - 1 ==> s.drop_last()[i] == s[i]);
        lemma_dec_value_nonneg(s.drop_last());
    }
}

/// A digit prefix of a digit string never exceeds the whole string's value.
proof fn lemma_dec_value_prefix(s: Seq<char>, i: int)
    requires
        all_dec_digits(s),
        0 <= i <= s.len(),
    ensures
        dec_value(s.take(i)) <= dec_value(s),
    decreases s.len(),
{
    if i == s.len() {
        assert(s.take(i) =~= s);
    } else {
        assert(forall|j: int| 0 <= j < s.len() - 1 ==> s.drop_last()[j] == s[j]);
        lemma_dec_value_prefix(s.drop_last(), i);
        assert(s.drop_last().take(i) =~= s.take(i));
        lemma_dec_value_nonneg(s.drop_last());
    }
}

proof fn lemma_hex_value_bound(s: Seq<char>)
    requires
        all_hex_digits(s),
    ensures
        0 <= hex_value(s) < pow(16, s.len() as nat),
    decreases s.len(),
{
    reveal(pow);
    if s.len() == 0 {
    } else {
        assert(forall|i: int| 0 <= i < s.len() - 1 ==> s.drop_last()[i] == s[i]);
        lemma_hex_value_bound(s.drop_last());
        assert(pow(16, s.len() as nat) == 16 * pow(16, (s.len() - 1) as nat)) by {
            reveal(pow);
        }
        assert(0 <= hex_val(s.last()) < 16);
    }
}

// ---------------------------------------------------------------------------
// Signed and unsigned decimal tokens.
// ---------------------------------------------------------------------------
pub open spec fn is_sign(c: char) -> bool {
    c == '+' || c == '-'
}

pub open spec fn strip_sign(s: Seq<char>) -> Seq<char> {
    if s.len() > 0 && is_sign(s[0]) {
        s.drop_first()
    } else {
        s
    }
}

pub open spec fn strip_plus(s: Seq<char>) -> Seq<char> {
    if s.len() > 0 && s[0] == '+' {
        s.drop_first()
    } else {
        s
    }
}

/// A signed decimal integer token: an optional sign, then one or more digits.
pub open spec fn is_int_token(s: Seq<char>) -> bool {
    strip_sign(s).len() > 0 && all_dec_digits(strip_sign(s))
}

pub open spec fn int_value(s: Seq<char>) -> int {
    if s.len() > 0 && s[0] == '-' {
        -dec_value(s.drop_first())
    } else {
        dec_value(strip_plus(s))
    }
}

/// An unsigned decimal integer token: an optional plus, then digits.
pub open spec fn is_uint_token(s: Seq<char>) -> bool {
    strip_plus(s).len() > 0 && all_dec_digits(strip_plus(s))
}

pub open spec fn uint_value(s: Seq<char>) -> int {
    dec_value(strip_plus(s))
}

fn is_digit_char(c: char) -> (r: bool)
    ensures
        r == is_dec_digit(c),
{
    let u = c as u32;
    48 <= u && u <= 57
}

/// Parses a signed 32-bit decimal token.
pub fn parse_i32(t: &Vec<char>) -> (r: Option<i32>)
    ensures
        match r {
            Some(v) => is_int_token(t@) && v as int == int_value(t@),
            None => !(is_int_token(t@) && i32::MIN as int <= int_value(t@) && int_value(t@)
                <= i32::MAX as int),
        },
{
    let n = t.len();
    let has_sign = n > 0 && (t[0] == '+' || t[0] == '-');
    let neg = n > 0 && t[0] == '-';
    let start: usize = if has_sign {
        1
    } else {
        0
    };
    proof {
        assert(t@.skip(start as int) =~= strip_sign(t@));
    }
    if n == start {
        return None;
    }
    let limit: u32 = if neg {
        0x8000_0000
    } else {
        0x7FFF_FFFF
    };
    let mut acc: u32 = 0;
    let mut i: usize = start;
    while i < n
        invariant
            start <= i <= n,
            n == t@.len(),
            start <= 1,
            has_sign == (n > 0 && is_sign(t@[0])),
            neg == (n > 0 && t@[0] == '-'),
            start == (if has_sign {
                1int
            } else {
                0int
            }),
            limit == (if neg {
                0x8000_0000u32
            } else {
                0x7FFF_FFFFu32
            }),
            forall|j: int| start <= j < i ==> is_dec_digit(#[trigger] t@[j]),
            acc as int == dec_value(t@.subrange(start as int, i as int)),
            acc <= limit,
        decreases n - i,
    {
        let c = t[i] as u32;
        if !(48 <= c && c <= 57) {
            proof {
                assert(strip_sign(t@)[i - start as int] == t@[i as int]);
            }
            return None;
        }
        let dg: u32 = c - 48;
        if acc > (limit - dg) / 10 {
            proof {
                assert(acc * 10 + dg > limit);
                if is_int_token(t@) {
                    assert(t@.subrange(start as int, i as int + 1) =~= strip_sign(t@).take(
                        i as int + 1 - start,
                    ));
                    assert(t@.subrange(start as int, i as int + 1).drop_last() =~= t@.subrange(
                        start as int,
                        i as int,
                    ));
                    assert(dec_value(strip_sign(t@).take(i as int + 1 - start)) == acc * 10 + dg);
                    lemma_dec_value_prefix(strip_sign(t@), i as int + 1 - start);
                    assert(dec_value(strip_sign(t@)) > limit);
                    assert(strip_plus(t@) == (if neg {
                        t@
                    } else {
                        strip_sign(t@)
                    }));
                }
            }
            return None;
        }
        proof {
            assert(acc <= (limit - dg) / 10);
            assert(acc * 10 <= limit - dg);
            assert(t@.subrange(start as int, i as int + 1).drop_last() =~= t@.subrange(
                start as int,
                i as int,
            ));
            assert(t@.subrange(start as int, i as int + 1).last() == t@[i as int]);
        }
        acc = acc * 10 + dg;
        i = i + 1;
    }
    proof {
        assert(t@.subrange(start as int, n as int) =~= strip_sign(t@));
        assert(acc as int == dec_value(strip_sign(t@)));
        if neg {
            assert(t@.drop_first() =~= strip_sign(t@));
        }
    }
    if neg {
        if acc == 0x8000_0000 {
            Some(i32::MIN)
        } else {
            Some(-(acc as i32))
        }
    } else {
        Some(acc as i32)
    }
}

/// Parses an unsigned decimal token into a `usize`.
pub fn parse_usize(t: &Vec<char>) -> (r: Option<usize>)
    ensures
        match r {
            Some(v) => is_uint_token(t@) && v as int == uint_value(t@),
            None => !(is_uint_token(t@) && uint_value(t@) <= usize::MAX as int),
        },
{
    let n = t.len();
    let start: usize = if n > 0 && t[0] == '+' {
        1
    } else {
        0
    };
    proof {
        assert(t@.skip(start as int) =~= strip_plus(t@));
    }
    if n == start {
        return None;
    }
    let mut acc: usize = 0;
    let mut i: usize = start;
    while i < n
        invariant
            start <= i <= n,
            n == t@.len(),
            start <= 1,
            start == (if n > 0 && t@[0] == '+' {
                1int
            } else {
                0int
            }),
            forall|j: int| start <= j < i ==> is_dec_digit(#[trigger] t@[j]),
            acc as int == dec_value(t@.subrange(start as int, i as int)),
        decreases n - i,
    {
        let c = t[i] as u32;
        if !(48 <= c && c <= 57) {
            proof {
                assert(strip_plus(t@)[i - start as int] == t@[i as int]);
            }
            return None;
        }
        let dg: usize = (c - 48) as usize;
        if acc > (usize::MAX - dg) / 10 {
            proof {
                assert(acc * 10 + dg > usize::MAX);
                if is_uint_token(t@) {
                    assert(t@.subrange(start as int, i as int + 1) =~= strip_plus(t@).take(
                        i as int + 1 - start,
                    ));
                    assert(t@.subrange(start as int, i as int + 1).drop_last() =~= t@.subrange(
                        start as int,
                        i as int,
                    ));
                    lemma_dec_value_prefix(strip_plus(t@), i as int + 1 - start);
                }
            }
            return None;
        }
        proof {
            assert(acc <= (usize::MAX - dg) / 10);
            assert(acc * 10 <= usize::MAX - dg);
            assert(t@.subrange(start as int, i as int + 1).drop_last() =~= t@.subrange(
                start as int,
                i as int,
            ));
            assert(t@.subrange(start as int, i as int + 1).last() == t@[i as int]);
        }
        acc = acc * 10 + dg;
        i = i + 1;
    }
    proof {
        assert(t@.subrange(start as int, n as int) =~= strip_plus(t@));
    }
    Some(acc)
}

// ---------------------------------------------------------------------------
// Key tokens: exactly 65 hexadecimal characters.
// ---------------------------------------------------------------------------
pub open spec fn is_key_token(s: Seq<char>) -> bool {
    s.len() == 65 && all_hex_digits(s)
}

/// The key a 65-character hexadecimal token denotes: characters [0, 32) give
/// `upper`, [32, 64) give `lower`, [64, 65) gives `tail`.
pub open spec fn key_of(s: Seq<char>) -> Key {
    Key {
        upper: hex_value(s.subrange(0, 32)) as u128,
        lower: hex_value(s.subrange(32, 64)) as u128,
        tail: hex_value(s.subrange(64, 65)) as u8,
    }
}

fn hex_digit_value(c: char) -> (r: Option<u32>)
    ensures
        match r {
            Some(v) => is_hex_digit(c) && v as int == hex_val(c) && v < 16,
            None => !is_hex_digit(c),
        },
{
    let u = c as u32;
    if 48 <= u && u <= 57 {
        Some(u - 48)
    } else if 97 <= u && u <= 102 {
        Some(u - 97 + 10)
    } else if 65 <= u && u <= 70 {
        Some(u - 65 + 10)
    } else {
        None
    }
}

/// Parses the hexadecimal digits `t[from..to]` (at most 32 of them).
fn parse_hex_range(t: &Vec<char>, from: usize, to: usize) -> (r: Option<u128>)
    requires
        from <= to <= t@.len(),
        to - from <= 32,
    ensures
        match r {
            Some(v) => all_hex_digits(t@.subrange(from as int, to as int)) && v as int == hex_value(
                t@.subrange(from as int, to as int),
            ),
            None => !all_hex_digits(t@.subrange(from as int, to as int)),
        },
{
    let mut acc: u128 = 0;
    let mut i: usize = from;
    proof {
        lemma_pow16();
    }
    while i < to
        invariant
            from <= i <= to <= t@.len(),
            to - from <= 32,
            forall|j: int| from <= j < i ==> is_hex_digit(#[trigger] t@[j]),
            acc as int == hex_value(t@.subrange(from as int, i as int)),
            pow(16, 32) == 0x100000000000000000000000000000000int,
        decreases to - i,
    {
        match hex_digit_value(t[i]) {
            None => {
                proof {
                    assert(t@.subrange(from as int, to as int)[i - from as int] == t@[i as int]);
                }
                return None;
            },
            Some(d) => {
                proof {
                    assert(t@.subrange(from as int, i as int + 1).drop_last() =~= t@.subrange(
                        from as int,
                        i as int,
                    ));
                    assert(t@.subrange(from as int, i as int + 1).last() == t@[i as int]);
                    assert(all_hex_digits(t@.subrange(from as int, i as int))) by {
                        assert(forall|j: int|
                            0 <= j < i - from ==> t@.subrange(from as int, i as int)[j] == t@[j
                                + from]);
                    }
                    lemma_hex_value_bound(t@.subrange(from as int, i as int));
                    lemma_pow_increases(16, (i - from) as nat, 31);
                    assert(pow(16, 31) * 16 == pow(16, 32)) by {
                        reveal(pow);
                    }
                    assert(acc as int * 16 + 15 < pow(16, 32));
                }
                acc = acc * 16 + (d as u128);
            },
        }
        i = i + 1;
    }
    Some(acc)
}

/// Parses a 65-character hexadecimal key token.
pub fn parse_key(t: &Vec<char>) -> (r: Option<Key>)
    ensures
        match r {
            Some(k) => is_key_token(t@) && k == key_of(t@),
            None => !is_key_token(t@),
        },
{
    if t.len() != 65 {
        return None;
    }
    proof {
        lemma_pow16();
    }
    let upper = match parse_hex_range(t, 0, 32) {
        Some(v) => v,
        None => {
            proof {
                let sub = t@.subrange(0, 32);
                let j = choose|j: int| 0 <= j < sub.len() && !is_hex_digit(#[trigger] sub[j]);
                assert(t@[j] == sub[j]);
            }
            return None;
        },
    };
    let lower = match parse_hex_range(t, 32, 64) {
        Some(v) => v,
        None => {
            proof {
                let sub = t@.subrange(32, 64);
                let j = choose|j: int| 0 <= j < sub.len() && !is_hex_digit(#[trigger] sub[j]);
                assert(t@[j + 32] == sub[j]);
            }
            return None;
        },
    };
    let tail128 = match parse_hex_range(t, 64, 65) {
        Some(v) => v,
        None => {
            proof {
                let sub = t@.subrange(64, 65);
                let j = choose|j: int| 0 <= j < sub.len() && !is_hex_digit(#[trigger] sub[j]);
                assert(t@[j + 64] == sub[j]);
            }
            return None;
        },
    };
    proof {
        lemma_hex_value_bound(t@.subrange(64, 65));
        assert(forall|j: int| 0 <= j < 65 ==> is_hex_digit(#[trigger] t@[j])) by {
            assert(forall|j: int| 0 <= j < 32 ==> t@[j] == t@.subrange(0, 32)[j]);
            assert(forall|j: int| 32 <= j < 64 ==> t@[j] == t@.subrange(32, 64)[j - 32]);
            assert(t@[64] == t@.subrange(64, 65)[0]);
        }
    }
    Some(Key { upper, lower, tail: tail128 as u8 })
}

// ---------------------------------------------------------------------------
// Floating-point tokens: the syntax `str::parse::<f32>` accepts.
// ---------------------------------------------------------------------------
pub open spec fn chr_ci(c: char, lo: char, up: char) -> bool {
    c == lo || c == up
}

pub open spec fn is_inf_seq(s: Seq<char>) -> bool {
    s.len() == 3 && chr_ci(s[0], 'i', 'I') && chr_ci(s[1], 'n', 'N') && chr_ci(s[2], 'f', 'F')
}

pub open spec fn is_infinity_seq(s: Seq<char>) -> bool {
    s.len() == 8 && chr_ci(s[0], 'i', 'I') && chr_ci(s[1], 'n', 'N') && chr_ci(s[2], 'f', 'F')
        && chr_ci(s[3], 'i', 'I') && chr_ci(s[4], 'n', 'N') && chr_ci(s[5], 'i', 'I') && chr_ci(
        s[6],
        't',
        'T',
    ) && chr_ci(s[7], 'y', 'Y')
}

pub open spec fn is_nan_seq(s: Seq<char>) -> bool {
    s.len() == 3 && chr_ci(s[0], 'n', 'N') && chr_ci(s[1], 'a', 'A') && chr_ci(s[2], 'n', 'N')
}

/// The length of the longest decimal-digit prefix.
pub open spec fn digits_prefix_len(s: Seq<char>) -> int
    decreases s.len(),
{
    if s.len() > 0 && is_dec_digit(s[0]) {
        1 + digits_prefix_len(s.drop_first())
    } else {
        0
    }
}

/// The length of the part before the first exponent marker `e`/`E`.
pub open spec fn before_exp_len(s: Seq<char>) -> int
    decreases s.len(),
{
    if s.len() == 0 {
        0
    } else if chr_ci(s[0], 'e', 'E') {
        0
    } else {
        1 + before_exp_len(s.drop_first())
    }
}

/// A mantissa: digits, optionally with one dot, with at least one digit.
pub open spec fn is_mantissa(s: Seq<char>) -> bool {
    let d = digits_prefix_len(s);
    if d == s.len() {
        d >= 1
    } else if s[d] == '.' {
        all_dec_digits(s.skip(d + 1)) && (d >= 1 || s.len() >= d + 2)
    } else {
        false
    }
}

/// An exponent part: `e`/`E`, an optional sign, then one or more digits.
pub open spec fn is_exp_part(s: Seq<char>) -> bool {
    s.len() >= 1 && chr_ci(s[0], 'e', 'E') && strip_sign(s.drop_first()).len() > 0
        && all_dec_digits(strip_sign(s.drop_first()))
}

/// An unsigned number: a mantissa, optionally followed by an exponent part.
pub open spec fn is_number_seq(s: Seq<char>) -> bool {
    let m = before_exp_len(s);
    is_mantissa(s.take(m)) && (m == s.len() || is_exp_part(s.skip(m)))
}

/// A floating-point token: an optional sign, then `inf`, `infinity`, `nan`
/// (each in any letter case) or an unsigned number.
pub open spec fn is_float_token(s: Seq<char>) -> bool {
    is_inf_seq(strip_sign(s)) || is_infinity_seq(strip_sign(s)) || is_nan_seq(strip_sign(s))
        || is_number_seq(strip_sign(s))
}

fn ci(c: char, lo: char, up: char) -> (r: bool)
    ensures
        r == chr_ci(c, lo, up),
{
    c == lo || c == up
}

/// Decides whether `t[from..to]` is a mantissa.
fn check_mantissa_range(t: &Vec<char>, from: usize, to: usize) -> (r: bool)
    requires
        from <= to <= t@.len(),
    ensures
        r == is_mantissa(t@.subrange(from as int, to as int)),
{
    let ghost sub = t@.subrange(from as int, to as int);
    let mut dp: usize = from;
    while dp < to && is_digit_char(t[dp])
        invariant
            from <= dp <= to <= t@.len(),
            sub == t@.subrange(from as int, to as int),
            digits_prefix_len(sub) == (dp - from) + digits_prefix_len(
                t@.subrange(dp as int, to as int),
            ),
            forall|j: int| from <= j < dp ==> is_dec_digit(#[trigger] t@[j]),
        decreases to - dp,
    {
        proof {
            assert(t@.subrange(dp as int, to as int)[0] == t@[dp as int]);
            assert(t@.subrange(dp as int, to as int).drop_first() =~= t@.subrange(
                dp as int + 1,
                to as int,
            ));
        }
        dp = dp + 1;
    }
    proof {
        if dp < to {
            assert(t@.subrange(dp as int, to as int)[0] == t@[dp as int]);
        }
        assert(digits_prefix_len(sub) == dp - from);
    }
    if dp == to {
        return to > from;
    }
    proof {
        assert(sub[dp - from as int] == t@[dp as int]);
    }
    if t[dp] != '.' {
        return false;
    }
    let mut j: usize = dp + 1;
    while j < to
        invariant
            from <= dp < to <= t@.len(),
            dp + 1 <= j <= to,
            sub == t@.subrange(from as int, to as int),
            digits_prefix_len(sub) == dp - from,
            sub[dp - from] == '.',
            forall|k: int| dp + 1 <= k < j ==> is_dec_digit(#[trigger] t@[k]),
        decreases to - j,
    {
        if !is_digit_char(t[j]) {
            proof {
                assert(sub.skip(dp - from as int + 1) =~= t@.subrange(dp as int + 1, to as int));
                assert(t@.subrange(dp as int + 1, to as int)[j - dp - 1] == t@[j as int]);
            }
            return false;
        }
        j = j + 1;
    }
    proof {
        assert(sub.skip(dp - from as int + 1) =~= t@.subrange(dp as int + 1, to as int));
        assert(forall|k: int|
            0 <= k < to - dp - 1 ==> #[trigger] t@.subrange(dp as int + 1, to as int)[k] == t@[k
                + dp + 1]);
    }
    dp > from || to - dp >= 2
}

/// Decides whether `t[be..]` is an exponent part.
fn check_exp_part(t: &Vec<char>, be: usize) -> (r: bool)
    requires
        be < t@.len(),
    ensures
        r == is_exp_part(t@.skip(be as int)),
{
    let n = t.len();
    let ghost epart = t@.skip(be as int);
    proof {
        assert(epart[0] == t@[be as int]);
        assert(epart.drop_first() =~= t@.skip(be as int + 1));
    }
    if !(t[be] == 'e' || t[be] == 'E') {
        return false;
    }
    let mut es: usize = be + 1;
    proof {
        if be + 1 < n {
            assert(t@.skip(be as int + 1)[0] == t@[be as int + 1]);
        }
    }
    if es < n && (t[es] == '+' || t[es] == '-') {
        es = es + 1;
    }
    proof {
        assert(strip_sign(t@.skip(be as int + 1)) =~= t@.skip(es as int));
    }
    if es == n {
        return false;
    }
    let mut j: usize = es;
    while j < n
        invariant
            be < es <= j <= n,
            n == t@.len(),
            t@.skip(be as int)[0] == t@[be as int],
            chr_ci(t@[be as int], 'e', 'E'),
            t@.skip(be as int).drop_first() == t@.skip(be as int + 1),
            strip_sign(t@.skip(be as int + 1)) == t@.skip(es as int),
            forall|k: int| es <= k < j ==> is_dec_digit(#[trigger] t@[k]),
        decreases n - j,
    {
        if !is_digit_char(t[j]) {
            proof {
                assert(t@.skip(es as int)[j - es as int] == t@[j as int]);
            }
            return false;
        }
        j = j + 1;
    }
    proof {
        assert(forall|k: int|
            0 <= k < t@.skip(es as int).len() ==> #[trigger] t@.skip(es as int)[k] == t@[k + es]);
    }
    true
}

/// Decides whether a token is a floating-point token.
pub fn check_float(t: &Vec<char>) -> (r: bool)
    ensures
        r == is_float_token(t@),
{
    let n = t.len();
    let start: usize = if n > 0 && (t[0] == '+' || t[0] == '-') {
        1
    } else {
        0
    };
    let ghost rest = strip_sign(t@);
    proof {
        assert(t@.skip(start as int) =~= rest);
        assert(forall|k: int| 0 <= k < rest.len() ==> #[trigger] rest[k] == t@[start + k]);
    }
    if n - start == 3 {
        if ci(t[start], 'i', 'I') && ci(t[start + 1], 'n', 'N') && ci(t[start + 2], 'f', 'F') {
            return true;
        }
        if ci(t[start], 'n', 'N') && ci(t[start + 1], 'a', 'A') && ci(t[start + 2], 'n', 'N') {
            return true;
        }
    }
    if n - start == 8 {
        if ci(t[start], 'i', 'I') && ci(t[start + 1], 'n', 'N') && ci(t[start + 2], 'f', 'F') && ci(
            t[start + 3],
            'i',
            'I',
        ) && ci(t[start + 4], 'n', 'N') && ci(t[start + 5], 'i', 'I') && ci(t[start + 6], 't', 'T')
            && ci(t[start + 7], 'y', 'Y') {
            return true;
        }
    }
    proof {
        assert(!is_inf_seq(rest) && !is_nan_seq(rest) && !is_infinity_seq(rest));
    }
    // Not one of the special forms; decide `is_number_seq(rest)`.
    let mut be: usize = start;
    while be < n && !(t[be] == 'e' || t[be] == 'E')
        invariant
            start <= be <= n,
            n == t@.len(),
            rest == strip_sign(t@),
            rest == t@.skip(start as int),
            before_exp_len(rest) == (be - start) + before_exp_len(t@.skip(be as int)),
            forall|j: int| start <= j < be ==> !chr_ci(#[trigger] t@[j], 'e', 'E'),
        decreases n - be,
    {
        proof {
            assert(t@.skip(be as int)[0] == t@[be as int]);
            assert(t@.skip(be as int).drop_first() =~= t@.skip(be as int + 1));
        }
        be = be + 1;
    }
    proof {
        if be < n {
            assert(t@.skip(be as int)[0] == t@[be as int]);
        }
        assert(before_exp_len(rest) == be - start);
        assert(rest.take(be - start as int) =~= t@.subrange(start as int, be as int));
    }
    let mant_ok = check_mantissa_range(t, start, be);
    if !mant_ok {
        return false;
    }
    if be == n {
        return true;
    }
    proof {
        assert(rest.skip(be - start as int) =~= t@.skip(be as int));
    }
    check_exp_part(t, be)
}

// ---------------------------------------------------------------------------
// Lines: trimming, splitting on spaces, and the full record format.
// ---------------------------------------------------------------------------
pub open spec fn is_space(c: char) -> bool {
    c == ' ' || c == '\t' || c == '\r' || c == '\n'
}

fn is_space_char(c: char) -> (r: bool)
    ensures
        r == is_space(c),
{
    c == ' ' || c == '\t' || c == '\r' || c == '\n'
}

pub open spec fn trim_start_spec(s: Seq<char>) -> Seq<char>
    decreases s.len(),
{
    if s.len() > 0 && is_space(s[0]) {
        trim_start_spec(s.drop_first())
    } else {
        s
    }
}

pub open spec fn trim_end_spec(s: Seq<char>) -> Seq<char>
    decreases s.len(),
{
    if s.len() > 0 && is_space(s.last()) {
        trim_end_spec(s.drop_last())
    } else {
        s
    }
}

/// A line with its leading and trailing whitespace removed.
pub open spec fn trim_spec(s: Seq<char>) -> Seq<char> {
    trim_end_spec(trim_start_spec(s))
}

/// The characters of a line.
fn chars_of(s: &str) -> (r: Vec<char>)
    ensures
        r@ == s@,
{
    let n = s.unicode_len();
    let mut r: Vec<char> = Vec::new();
    let mut i: usize = 0;
    while i < n
        invariant
            i <= n,
            n == s@.len(),
            r@ == s@.take(i as int),
        decreases n - i,
    {
        let c = s.get_char(i);
        r.push(c);
        proof {
            assert(r@ =~= s@.take(i as int + 1));
        }
        i = i + 1;
    }
    proof {
        assert(s@.take(n as int) =~= s@);
    }
    r
}

/// Removes leading and trailing whitespace.
fn trim_chars(t: &Vec<char>) -> (r: Vec<char>)
    ensures
        r@ == trim_spec(t@),
{
    let n = t.len();
    proof {
        assert(t@.skip(0) =~= t@);
    }
    let mut lo: usize = 0;
    while lo < n && is_space_char(t[lo])
        invariant
            lo <= n,
            n == t@.len(),
            trim_start_spec(t@) == trim_start_spec(t@.skip(lo as int)),
        decreases n - lo,
    {
        proof {
            assert(t@.skip(lo as int)[0] == t@[lo as int]);
            assert(t@.skip(lo as int).drop_first() =~= t@.skip(lo as int + 1));
        }
        lo = lo + 1;
    }
    proof {
        if lo < n {
            assert(t@.skip(lo as int)[0] == t@[lo as int]);
        }
        assert(trim_start_spec(t@) == t@.skip(lo as int));
        assert(t@.skip(lo as int) =~= t@.subrange(lo as int, n as int));
    }
    let mut hi: usize = n;
    while hi > lo && is_space_char(t[hi - 1])
        invariant
            lo <= hi <= n,
            n == t@.len(),
            trim_start_spec(t@) == t@.skip(lo as int),
            trim_end_spec(t@.skip(lo as int)) == trim_end_spec(t@.subrange(lo as int, hi as int)),
        decreases hi,
    {
        proof {
            assert(t@.subrange(lo as int, hi as int).last() == t@[hi - 1]);
            assert(t@.subrange(lo as int, hi as int).drop_last() =~= t@.subrange(
                lo as int,
                hi as int - 1,
            ));
        }
        hi = hi - 1;
    }
    proof {
        if hi > lo {
            assert(t@.subrange(lo as int, hi as int).last() == t@[hi - 1]);
        }
        assert(trim_end_spec(t@.subrange(lo as int, hi as int)) == t@.subrange(
            lo as int,
            hi as int,
        ));
    }
    let mut r: Vec<char> = Vec::new();
    let mut i: usize = lo;
    while i < hi
        invariant
            lo <= i <= hi <= n,
            n == t@.len(),
            r@ == t@.subrange(lo as int, i as int),
        decreases hi - i,
    {
        r.push(t[i]);
        proof {
            assert(r@ =~= t@.subrange(lo as int, i as int + 1));
        }
        i = i + 1;
    }
    r
}

/// The tokens of a trimmed line, split on single spaces; consecutive spaces
/// give empty tokens, and a line without spaces is one token.
pub open spec fn split_spaces(s: Seq<char>) -> Seq<Seq<char>>
    decreases s.len(),
{
    if s.len() == 0 {
        seq![Seq::<char>::empty()]
    } else if s[0] == ' ' {
        seq![Seq::<char>::empty()] + split_spaces(s.drop_first())
    } else {
        let rest = split_spaces(s.drop_first());
        rest.update(0, seq![s[0]] + rest[0])
    }
}

pub proof fn lemma_split_spaces_len(s: Seq<char>)
    ensures
        split_spaces(s).len() >= 1,
    decreases s.len(),
{
    if s.len() > 0 {
        lemma_split_spaces_len(s.drop_first());
    }
}

/// The views of a sequence of tokens.
pub open spec fn token_views(ts: Seq<Vec<char>>) -> Seq<Seq<char>> {
    Seq::new(ts.len(), |i: int| ts[i]@)
}

fn split_from(t: &Vec<char>, from: usize) -> (r: Vec<Vec<char>>)
    requires
        from <= t@.len(),
    ensures
        token_views(r@) == split_spaces(t@.skip(from as int)),
    decreases t@.len() - from,
{
    let ghost s = t@.skip(from as int);
    if from == t.len() {
        let mut r: Vec<Vec<char>> = Vec::new();
        r.push(Vec::new());
        proof {
            assert(s.len() == 0);
            assert(token_views(r@) =~~= seq![Seq::<char>::empty()]);
        }
        r
    } else {
        proof {
            assert(s[0] == t@[from as int]);
            assert(s.drop_first() =~= t@.skip(from as int + 1));
        }
        let mut r = split_from(t, from + 1);
        proof {
            lemma_split_spaces_len(t@.skip(from as int + 1));
        }
        if t[from] == ' ' {
            r.insert(0, Vec::new());
            proof {
                assert(token_views(r@) =~~= seq![Seq::<char>::empty()] + split_spaces(
                    t@.skip(from as int + 1),
                ));
            }
            r
        } else {
            let ghost r0 = r@;
            let mut first = r.remove(0);
            first.insert(0, t[from]);
            r.insert(0, first);
            proof {
                let rest = split_spaces(t@.skip(from as int + 1));
                assert(r@.len() == r0.len());
                assert(forall|i: int| 1 <= i < r@.len() ==> #[trigger] r@[i] == r0[i]);
                assert(r@[0]@ =~= seq![t@[from as int]] + r0[0]@);
                assert(token_views(r@) =~~= rest.update(0, seq![s[0]] + rest[0]));
            }
            r
        }
    }
}

/// The token at an index, or the empty token where the line has none.
pub open spec fn toks_get(toks: Seq<Seq<char>>, i: int) -> Seq<char> {
    if 0 <= i < toks.len() {
        toks[i]
    } else {
        Seq::empty()
    }
}

/// What one line denotes: the insertion keys, the values (each the header tag
/// paired with its amount token), and the deletion keys; or the error that
/// the first offending token yields.  The token layout is: tag, one reserved
/// token, the deletion count, the insertion count, then the deletion keys,
/// the value tokens, and the insertion keys, with nothing left over.
pub open spec fn spec_parse_line(s: Seq<char>) -> Result<
    (Seq<Key>, Seq<(i32, Seq<char>)>, Seq<Key>),
    ParseError,
> {
    let toks = split_spaces(trim_spec(s));
    let t0 = toks_get(toks, 0);
    let t2 = toks_get(toks, 2);
    let t3 = toks_get(toks, 3);
    if !(is_int_token(t0) && i32::MIN as int <= int_value(t0) && int_value(t0) <= i32::MAX as int) {
        Err(ParseError::IntegerError)
    } else if !(is_uint_token(t2) && uint_value(t2) <= usize::MAX as int) {
        Err(ParseError::IntegerError)
    } else if !(is_uint_token(t3) && uint_value(t3) <= usize::MAX as int) {
        Err(ParseError::IntegerError)
    } else {
        let tag = int_value(t0);
        let cl = uint_value(t2);
        let vl = uint_value(t3);
        if toks.len() != 4 + cl + 2 * vl {
            Err(ParseError::IntegerError)
        } else if !(forall|i: int| 0 <= i < cl ==> is_key_token(#[trigger] toks[4 + i])) {
            Err(ParseError::IntegerError)
        } else if !(forall|i: int|
            0 <= i < vl ==> is_float_token(#[trigger] toks[4 + cl + i])) {
            Err(ParseError::FloatError)
        } else if !(forall|i: int|
            0 <= i < vl ==> is_key_token(#[trigger] toks[4 + cl + vl + i])) {
            Err(ParseError::IntegerError)
        } else {
            Ok(
                (
                    Seq::new(vl as nat, |i: int| key_of(toks[4 + cl + vl + i])),
                    Seq::new(vl as nat, |i: int| (tag as i32, toks[4 + cl + i])),
                    Seq::new(cl as nat, |i: int| key_of(toks[4 + i])),
                ),
            )
        }
    }
}

fn copy_chars(t: &Vec<char>) -> (r: Vec<char>)
    ensures
        r@ == t@,
{
    let n = t.len();
    let mut r: Vec<char> = Vec::new();
    let mut i: usize = 0;
    while i < n
        invariant
            i <= n,
            n == t@.len(),
            r@ == t@.take(i as int),
        decreases n - i,
    {
        r.push(t[i]);
        proof {
            assert(r@ =~= t@.take(i as int + 1));
        }
        i = i + 1;
    }
    proof {
        assert(t@.take(n as int) =~= t@);
    }
    r
}

/// The facts the header of a line establishes while its token groups are
/// decoded.
spec fn header_facts(lv: Seq<char>, tv: Seq<Seq<char>>, tag: i32, cl: usize, vl: usize) -> bool {
    &&& tv == split_spaces(trim_spec(lv))
    &&& is_int_token(toks_get(tv, 0))
    &&& tag as int == int_value(toks_get(tv, 0))
    &&& is_uint_token(toks_get(tv, 2))
    &&& cl as int == uint_value(toks_get(tv, 2))
    &&& is_uint_token(toks_get(tv, 3))
    &&& vl as int == uint_value(toks_get(tv, 3))
    &&& tv.len() == 4 + cl as int + 2 * (vl as int)
}

impl LineItem {
    /// Decodes one line into a record, exactly as `spec_parse_line` says.
    pub fn try_from(l: &str) -> (r: Result<LineItem, ParseError>)
        ensures
            match r {
                Ok(item) => spec_parse_line(l@) == Ok::<
                    (Seq<Key>, Seq<(i32, Seq<char>)>, Seq<Key>),
                    ParseError,
                >(item@) && item.wf(),
                Err(e) => spec_parse_line(l@) == Err::<
                    (Seq<Key>, Seq<(i32, Seq<char>)>, Seq<Key>),
                    ParseError,
                >(e),
            },
    {
        let cs = chars_of(l);
        let trimmed = trim_chars(&cs);
        proof {
            assert(trimmed@.skip(0) =~= trimmed@);
        }
        let toks = split_from(&trimmed, 0);
        let ghost tv = token_views(toks@);
        proof {
            lemma_split_spaces_len(trim_spec(l@));
            assert(tv == split_spaces(trim_spec(l@)));
            assert(tv.len() == toks@.len());
        }
        let tag = match parse_i32(&toks[0]) {
            Some(v) => v,
            None => {
                return Err(ParseError::IntegerError);
            },
        };
        if toks.len() <= 2 {
            return Err(ParseError::IntegerError);
        }
        let cl = match parse_usize(&toks[2]) {
            Some(v) => v,
            None => {
                return Err(ParseError::IntegerError);
            },
        };
        if toks.len() <= 3 {
            return Err(ParseError::IntegerError);
        }
        let vl = match parse_usize(&toks[3]) {
            Some(v) => v,
            None => {
                return Err(ParseError::IntegerError);
            },
        };
        if toks.len() < 4 {
            return Err(ParseError::IntegerError);
        }
        let rest_count = toks.len() - 4;
        if cl > rest_count {
            return Err(ParseError::IntegerError);
        }
        let rest2 = rest_count - cl;
        if vl > rest2 {
            return Err(ParseError::IntegerError);
        }
        if rest2 - vl != vl {
            return Err(ParseError::IntegerError);
        }
        proof {
            assert(tv.len() == 4 + cl as int + 2 * (vl as int));
            assert(header_facts(l@, tv, tag, cl, vl));
        }
        let mut del_keys: Vec<Key> = Vec::new();
        let mut i: usize = 0;
        while i < cl
            invariant
                i <= cl,
                toks@.len() <= usize::MAX,
                tv == token_views(toks@),
                header_facts(l@, tv, tag, cl, vl),
                del_keys@.len() == i,
                forall|j: int|
                    0 <= j < i ==> is_key_token(#[trigger] tv[4 + j]) && del_keys@[j] == key_of(
                        tv[4 + j],
                    ),
            decreases cl - i,
        {
            proof {
                assert(tv[4 + i as int] == toks@[4 + i as int]@);
            }
            match parse_key(&toks[4 + i]) {
                Some(k) => {
                    del_keys.push(k);
                },
                None => {
                    return Err(ParseError::IntegerError);
                },
            }
            i = i + 1;
        }
        let mut values: Vec<Value> = Vec::new();
        i = 0;
        while i < vl
            invariant
                i <= vl,
                toks@.len() <= usize::MAX,
                tv == token_views(toks@),
                header_facts(l@, tv, tag, cl, vl),
                values@.len() == i,
                forall|j: int| 0 <= j < cl ==> is_key_token(#[trigger] tv[4 + j]),
                forall|j: int|
                    0 <= j < i ==> is_float_token(#[trigger] tv[4 + cl as int + j])
                        && values@[j].b == tag && values@[j].amount@ == tv[4 + cl as int + j],
            decreases vl - i,
        {
            proof {
                assert(tv[4 + cl as int + i as int] == toks@[4 + cl as int + i as int]@);
            }
            if !check_float(&toks[4 + cl + i]) {
                return Err(ParseError::FloatError);
            }
            let amount = copy_chars(&toks[4 + cl + i]);
            values.push(Value { b: tag, amount });
            proof {
                assert(values@[i as int].b == tag && values@[i as int].amount@ == tv[4
                    + cl as int + i as int]);
            }
            i = i + 1;
        }
        let mut keys: Vec<Key> = Vec::new();
        i = 0;
        while i < vl
            invariant
                i <= vl,
                toks@.len() <= usize::MAX,
                tv == token_views(toks@),
                header_facts(l@, tv, tag, cl, vl),
                keys@.len() == i,
                forall|j: int| 0 <= j < cl ==> is_key_token(#[trigger] tv[4 + j]),
                forall|j: int| 0 <= j < vl ==> is_float_token(#[trigger] tv[4 + cl as int + j]),
                forall|j: int|
                    0 <= j < i ==> is_key_token(#[trigger] tv[4 + cl as int + vl as int + j])
                        && keys@[j] == key_of(tv[4 + cl as int + vl as int + j]),
            decreases vl - i,
        {
            proof {
                assert(tv[4 + cl as int + vl as int + i as int] == toks@[4 + cl as int + vl as int
                    + i as int]@);
            }
            match parse_key(&toks[4 + cl + vl + i]) {
                Some(k) => {
                    keys.push(k);
                },
                None => {
                    return Err(ParseError::IntegerError);
                },
            }
            i = i + 1;
        }
        let item = LineItem { keys, values, del_keys };
        proof {
            let cli = cl as int;
            let vli = vl as int;
            assert(item.keys@ =~= Seq::new(vl as nat, |j: int| key_of(tv[4 + cli + vli + j])));
            assert(value_views(item.values@) =~~= Seq::new(
                vl as nat,
                |j: int| (tag, tv[4 + cli + j]),
            ));
            assert(item.del_keys@ =~= Seq::new(cl as nat, |j: int| key_of(tv[4 + j])));
        }
        Ok(item)
    }
}

/// The views of a sequence of records.
pub open spec fn item_views(items: Seq<LineItem>) -> Seq<(Seq<Key>, Seq<(i32, Seq<char>)>, Seq<Key>)> {
    Seq::new(items.len(), |i: int| items[i]@)
}

/// The views of a sequence of lines.
pub open spec fn line_views(ls: Seq<String>) -> Seq<Seq<char>> {
    Seq::new(ls.len(), |i: int| ls[i]@)
}

/// What a whole input denotes: every line's record, in order, or the first
/// line's error in line order.
pub open spec fn spec_parse_all(ls: Seq<Seq<char>>) -> Result<
    Seq<(Seq<Key>, Seq<(i32, Seq<char>)>, Seq<Key>)>,
    ParseError,
>
    decreases ls.len(),
{
    if ls.len() == 0 {
        Ok(Seq::empty())
    } else {
        match spec_parse_line(ls.first()) {
            Err(e) => Err(e),
            Ok(t) => match spec_parse_all(ls.drop_first()) {
                Err(e) => Err(e),
                Ok(rest) => Ok(seq![t] + rest),
            },
        }
    }
}

/// A successfully decoded input has one record per line.
pub proof fn lemma_parse_all_len(ls: Seq<Seq<char>>)
    ensures
        spec_parse_all(ls) is Ok ==> spec_parse_all(ls)->Ok_0.len() == ls.len(),
    decreases ls.len(),
{
    if ls.len() > 0 {
        lemma_parse_all_len(ls.drop_first());
    }
}

/// Decodes every line of an input, exactly as `spec_parse_all` says.
pub fn parse_records(lines: &Vec<String>) -> (r: Result<Vec<LineItem>, ParseError>)
    ensures
        match r {
            Ok(items) => spec_parse_all(line_views(lines@)) == Ok::<
                Seq<(Seq<Key>, Seq<(i32, Seq<char>)>, Seq<Key>)>,
                ParseError,
            >(item_views(items@)) && forall|i: int|
                0 <= i < items@.len() ==> (#[trigger] items@[i]).wf(),
            Err(e) => spec_parse_all(line_views(lines@)) == Err::<
                Seq<(Seq<Key>, Seq<(i32, Seq<char>)>, Seq<Key>)>,
                ParseError,
            >(e),
        },
{
    let n = lines.len();
    let mut out: Vec<LineItem> = Vec::new();
    let mut err: Option<ParseError> = None;
    let mut i: usize = n;
    proof {
        assert(line_views(lines@).skip(n as int) =~= Seq::<Seq<char>>::empty());
        assert(item_views(out@) =~= Seq::<(Seq<Key>, Seq<(i32, Seq<char>)>, Seq<Key>)>::empty());
    }
    while i > 0
        invariant
            i <= n,
            n == lines@.len(),
            match err {
                None => spec_parse_all(line_views(lines@).skip(i as int)) == Ok::<
                    Seq<(Seq<Key>, Seq<(i32, Seq<char>)>, Seq<Key>)>,
                    ParseError,
                >(item_views(out@)) && forall|j: int|
                    0 <= j < out@.len() ==> (#[trigger] out@[j]).wf(),
                Some(e) => spec_parse_all(line_views(lines@).skip(i as int)) == Err::<
                    Seq<(Seq<Key>, Seq<(i32, Seq<char>)>, Seq<Key>)>,
                    ParseError,
                >(e),
            },
        decreases i,
    {
        i = i - 1;
        let ghost pre = line_views(lines@).skip(i as int + 1);
        let res = LineItem::try_from(lines[i].as_str());
        proof {
            assert(line_views(lines@).skip(i as int).first() == lines@[i as int]@);
            assert(line_views(lines@).skip(i as int).drop_first() =~= pre);
        }
        match res {
            Ok(item) => {
                match err {
                    None => {
                        let ghost out0 = out@;
                        out.insert(0, item);
                        proof {
                            assert(item_views(out@) =~~= seq![item@] + item_views(out0));
                        }
                    },
                    Some(_) => {},
                }
            },
            Err(e) => {
                err = Some(e);
            },
        }
    }
    proof {
        assert(line_views(lines@).skip(0) =~= line_views(lines@));
    }
    match err {
        Some(e) => Err(e),
        None => Ok(out),
    }
}

} // verus!
