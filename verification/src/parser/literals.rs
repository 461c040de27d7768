//! Literal texts to values.

use crate::lexeme::{
    digits, grouped, int_text, is_exponent_mark, is_hex_digit, scientific_int, token_matches,
};
use crate::lexer::{Token, TokenKind};
use crate::parser::grammar;
use crate::parser::grammar::{
    digit_value, digits_value, exponent_mark, int_fits, int_literal, int_value, is_exponent,
    without_separators,
};
use crate::parser::ParseError;
use crate::text::{join3, slice};
use crate::token_stream::token_ok;
use vstd::arithmetic::power::{lemma_pow0, lemma_pow_increases, lemma_pow_positive, pow};
use vstd::prelude::*;
use vstd::string::*;
use vstd::utf8::*;

verus! {

/// A character of a number in a radix of at most 16: a digit or a separator.
spec fn counts(c: u8, radix: int) -> bool {
    c == 0x5f || (is_hex_digit(c) && digit_value(c) < radix)
}

proof fn lemma_digits_value_bounds(s: Seq<u8>, n: int, radix: int)
    requires
        0 <= n <= s.len(),
        2 <= radix,
        forall|i: int| 0 <= i < s.len() ==> counts(#[trigger] s[i], radix),
    ensures
        0 <= digits_value(s.take(n), radix) <= digits_value(s, radix),
    decreases s.len() - n, n,
{
    if n == s.len() {
        assert(s.take(n) =~= s);
        if n > 0 {
            let t = s.drop_last();
            lemma_digits_value_bounds(t, t.len() as int, radix);
            assert(t.take(t.len() as int) =~= t);
            assert(counts(s[n - 1], radix));
            assert(digits_value(t, radix) * radix >= 0) by (nonlinear_arith)
                requires
                    digits_value(t, radix) >= 0,
                    radix >= 2,
            ;
        }
    } else {
        lemma_digits_value_bounds(s, n + 1, radix);
        let t = s.take(n + 1);
        assert(t.drop_last() =~= s.take(n));
        assert(counts(s[n], radix));
        assert(t.last() == s[n]);
        lemma_digits_value_nonnegative(s.take(n), radix);
        let v = digits_value(s.take(n), radix);
        assert(v <= v * radix) by (nonlinear_arith)
            requires
                v >= 0,
                radix >= 2,
        ;
    }
}

proof fn lemma_digits_value_nonnegative(s: Seq<u8>, radix: int)
    requires
        2 <= radix,
        forall|i: int| 0 <= i < s.len() ==> counts(#[trigger] s[i], radix),
    ensures
        digits_value(s, radix) >= 0,
    decreases s.len(),
{
    if s.len() > 0 {
        let t = s.drop_last();
        assert forall|i: int| 0 <= i < t.len() implies counts(#[trigger] t[i], radix) by {
            assert(t[i] == s[i]);
        }
        lemma_digits_value_nonnegative(t, radix);
        assert(counts(s[s.len() - 1], radix));
        assert(digits_value(t, radix) * radix >= 0) by (nonlinear_arith)
            requires
                digits_value(t, radix) >= 0,
                radix >= 2,
        ;
    }
}

/// The number that the bytes from `start` to `end` denote, unless it does not fit.
fn number_value(s: &[u8], start: usize, end: usize, radix: i64) -> (value: Option<i64>)
    requires
        start <= end <= s.len(),
        2 <= radix <= 16,
        forall|i: int| start <= i < end ==> counts(#[trigger] s[i], radix as int),
    ensures
        ({
            let exact = digits_value(s@.subrange(start as int, end as int), radix as int);
            &&& exact >= 0
            &&& match value {
                Some(v) => v == exact,
                None => exact > i64::MAX,
            }
        }),
{
    let ghost part = s@.subrange(start as int, end as int);
    let ghost r = radix as int;
    assert forall|i: int| 0 <= i < part.len() implies counts(#[trigger] part[i], r) by {
        assert(part[i] == s@[start + i]);
    }
    let mut value: i64 = 0;
    let mut i: usize = start;
    assert(part.take(0).len() == 0);
    while i < end
        invariant
            start <= i <= end <= s.len(),
            r == radix,
            2 <= radix <= 16,
            part == s@.subrange(start as int, end as int),
            forall|i: int| 0 <= i < part.len() ==> counts(#[trigger] part[i], r),
            value == digits_value(part.take(i - start), r),
            value >= 0,
        decreases end - i,
    {
        let c: u8 = s[i];
        proof {
            let n = i - start;
            assert(part[n] == c);
            assert(counts(part[n], r));
            assert(part.take(n + 1).drop_last() =~= part.take(n));
            assert(part.take(n + 1).last() == c);
            lemma_digits_value_bounds(part, n + 1, r);
        }
        if c != 0x5f {
            let digit: i64 = if c <= 0x39 {
                (c - 0x30) as i64
            } else if c <= 0x46 {
                (c - 0x41 + 10) as i64
            } else {
                (c - 0x61 + 10) as i64
            };
            match value.checked_mul(radix) {
                None => {
                    return None;
                },
                Some(shifted) => match shifted.checked_add(digit) {
                    None => {
                        return None;
                    },
                    Some(sum) => {
                        value = sum;
                    },
                },
            }
        }
        i = i + 1;
    }
    assert(part.take(end - start) =~= part);
    proof {
        lemma_digits_value_nonnegative(part, r);
    }
    Some(value)
}

/// `10` to the power of `exponent`, unless it does not fit.
fn power_of_ten(exponent: i64) -> (power: Option<i64>)
    requires
        exponent >= 0,
    ensures
        match power {
            Some(p) => p == pow(10, exponent as nat),
            None => pow(10, exponent as nat) > i64::MAX,
        },
{
    let mut power: i64 = 1;
    let mut i: i64 = 0;
    proof {
        lemma_pow0(10);
    }
    while i < exponent
        invariant
            0 <= i <= exponent,
            power == pow(10, i as nat),
            power > 0,
        decreases exponent - i,
    {
        proof {
            vstd::arithmetic::power::lemma_pow_adds(10, i as nat, 1);
            vstd::arithmetic::power::lemma_pow1(10);
            assert(pow(10, (i + 1) as nat) == pow(10, i as nat) * 10);
            lemma_pow_increases(10, (i + 1) as nat, exponent as nat);
        }
        match power.checked_mul(10) {
            None => {
                return None;
            },
            Some(next) => {
                power = next;
            },
        }
        i = i + 1;
    }
    Some(power)
}

proof fn lemma_exponent_mark(s: Seq<u8>, from: int, k: int)
    requires
        0 <= from <= k <= s.len(),
        forall|i: int| from <= i < k ==> !is_exponent(#[trigger] s[i]),
        k == s.len() || is_exponent(s[k]),
    ensures
        exponent_mark(s, from) == k,
    decreases k - from,
{
    if from < k {
        lemma_exponent_mark(s, from + 1, k);
    }
}

/// Converts a lexically-valid integer literal to its value, rejecting anything that does not fit in
/// an `i64` (a too-large decimal, an over-long hex/binary string, or an overflowing
/// `mantissa*10^exp`) rather than panicking.
pub(crate) fn parse_int(text: &str) -> (r: Result<i64, ParseError>)
    requires
        int_text(text.spec_bytes()),
    ensures
        match r {
            Ok(value) => int_literal(text@) == Ok::<i64, crate::parser::grammar::ParseErrorView>(
                value,
            ),
            Err(error) => int_literal(text@) == Err::<i64, _>(error@),
        },
{
    proof {
        reveal(int_literal);
    }
    match literal_value(text.as_bytes()) {
        Some(value) => Ok(value),
        None => Err(
            ParseError::Unexpected(join3("Integer literal `", text, "` is out of range.")),
        ),
    }
}

fn literal_value(s: &[u8]) -> (value: Option<i64>)
    requires
        int_text(s@),
    ensures
        match value {
            Some(v) => int_fits(s@) && int_value(s@) == v,
            None => !int_fits(s@),
        },
{
    let ghost b = s@;
    if s.len() > 1 && (s[1] == 0x78 || s[1] == 0x62) {
        let radix: i64 = if s[1] == 0x78 {
            16
        } else {
            2
        };
        proof {
            lemma_radix_shape(b);
        }
        return number_value(s, 2, s.len(), radix);
    }
    let mut mark: usize = 0;
    while mark < s.len() && s[mark] != 0x65 && s[mark] != 0x45
        invariant
            mark <= s.len(),
            s@ == b,
            forall|i: int| 0 <= i < mark ==> !is_exponent(#[trigger] b[i]),
        decreases s.len() - mark,
    {
        mark = mark + 1;
    }
    proof {
        lemma_exponent_mark(b, 0, mark as int);
        lemma_decimal_shape(b, mark as int);
    }
    if mark == s.len() {
        assert(b.subrange(0, b.len() as int) =~= b);
        return number_value(s, 0, mark, 10);
    }
    let mantissa: Option<i64> = number_value(s, 0, mark, 10);
    let exponent: Option<i64> = number_value(s, mark + 1, s.len(), 10);
    let ghost e = digits_value(b.subrange(mark + 1, b.len() as int), 10);
    proof {
        lemma_pow_positive(10, e as nat);
    }
    let ghost m = digits_value(b.subrange(0, mark as int), 10);
    let ghost factor = pow(10, e as nat);
    match (mantissa, exponent) {
        // Nothing is nothing, whatever it is scaled by.
        (Some(0), _) => {
            assert(m * factor == 0) by (nonlinear_arith)
                requires
                    m == 0,
            ;
            Some(0)
        },
        (Some(mantissa), Some(exponent)) => match power_of_ten(exponent) {
            Some(factor) => mantissa.checked_mul(factor),
            None => {
                proof {
                    lemma_scaled(m, factor);
                }
                None
            },
        },
        (Some(_), None) => {
            proof {
                lemma_pow_exceeds(e as nat);
                lemma_scaled(m, factor);
            }
            None
        },
        (None, _) => {
            proof {
                lemma_scaled(m, factor);
            }
            None
        },
    }
}

/// Scaling a positive number makes it no smaller, and no smaller than what it is scaled by.
proof fn lemma_scaled(m: int, factor: int)
    requires
        m > 0,
        factor > 0,
    ensures
        m * factor >= m,
        m * factor >= factor,
{
    assert(m * factor >= m && m * factor >= factor) by (nonlinear_arith)
        requires
            m > 0,
            factor > 0,
    ;
}

proof fn lemma_pow_exceeds(e: nat)
    ensures
        pow(10, e) > e,
    decreases e,
{
    if e == 0 {
        lemma_pow0(10);
    } else {
        lemma_pow_exceeds((e - 1) as nat);
        vstd::arithmetic::power::lemma_pow_adds(10, (e - 1) as nat, 1);
        vstd::arithmetic::power::lemma_pow1(10);
    }
}

proof fn lemma_radix_shape(s: Seq<u8>)
    requires
        int_text(s),
        s.len() > 1,
        s[1] == 0x78 || s[1] == 0x62,
    ensures
        s.len() >= 3,
        forall|i: int|
            2 <= i < s.len() ==> counts(
                #[trigger] s[i],
                if s[1] == 0x78 {
                    16int
                } else {
                    2int
                },
            ),
{
    if scientific_int(s) {
        let k = choose|k: int|
            0 < k < s.len() && is_exponent_mark(#[trigger] s[k]) && digits(s.subrange(0, k))
                && digits(s.subrange(k + 1, s.len() as int));
        if k > 1 {
            assert(s.subrange(0, k)[1] == s[1]);
        }
    }
}

proof fn lemma_decimal_shape(s: Seq<u8>, mark: int)
    requires
        int_text(s),
        !(s.len() > 1 && (s[1] == 0x78 || s[1] == 0x62)),
        0 <= mark <= s.len(),
        forall|i: int| 0 <= i < mark ==> !is_exponent(#[trigger] s[i]),
        mark == s.len() || is_exponent(s[mark]),
    ensures
        forall|i: int| 0 <= i < mark ==> counts(#[trigger] s[i], 10),
        forall|i: int| mark < i < s.len() ==> counts(#[trigger] s[i], 10),
{
    if scientific_int(s) {
        let k = choose|k: int|
            0 < k < s.len() && is_exponent_mark(#[trigger] s[k]) && digits(s.subrange(0, k))
                && digits(s.subrange(k + 1, s.len() as int));
        assert(k == mark) by {
            if mark < k {
                assert(s.subrange(0, k)[mark] == s[mark]);
            }
        }
        assert forall|i: int| 0 <= i < mark implies counts(#[trigger] s[i], 10) by {
            assert(s.subrange(0, k)[i] == s[i]);
        }
        assert forall|i: int| mark < i < s.len() implies counts(#[trigger] s[i], 10) by {
            assert(s.subrange(k + 1, s.len() as int)[i - k - 1] == s[i]);
        }
    } else {
        assert(mark == s.len()) by {
            if mark < s.len() {
                assert(digits(s) || grouped(s));
            }
        }
    }
}

/// A float literal's digits, without the `_` separators.
pub(crate) fn parse_float(text: &str) -> (digits: String)
    ensures
        digits@ == without_separators(text@),
{
    let mut kept: String = String::new();
    let mut i: usize = 0;
    let n: usize = text.unicode_len();
    let ghost keep = |c: char| c != '_';
    assert(text@.take(0).filter(keep) =~= Seq::empty()) by {
        reveal(Seq::filter);
    }
    while i < n
        invariant
            i <= n == text@.len(),
            keep == (|c: char| c != '_'),
            kept@ == text@.take(i as int).filter(keep),
        decreases n - i,
    {
        let ghost before = kept@;
        proof {
            assert(text@.take(i + 1).drop_last() =~= text@.take(i as int));
            reveal(Seq::filter);
        }
        let piece: &str = text.substring_char(i, i + 1);
        if text.get_char(i) != '_' {
            kept.append(piece);
            assert(kept@ =~= before.push(text@[i as int]));
        }
        i = i + 1;
    }
    assert(text@.take(n as int) =~= text@);
    kept
}

/// The text of a quoted token between its first `head` bytes and its closing quote.
pub(crate) fn inside<'src>(
    token: Token<'src>,
    head: usize,
    Ghost(b): Ghost<Seq<u8>>,
) -> (text: &'src str)
    requires
        token_ok(b, token@),
        head == 1 && token@.kind == TokenKind::Str || head == 2 && token@.kind == TokenKind::FStr,
    ensures
        text.spec_bytes() == grammar::inside(token.text@, head as int),
        text@ == decode_utf8(grammar::inside(token.text@, head as int)),
        text.spec_bytes().len() + head + 1 == token.text.spec_bytes().len(),
{
    let ghost s = token.text.spec_bytes();
    proof {
        encode_utf8_valid_utf8(token.text@);
        crate::token_stream::lemma_kind_forms(b, token@);
        assert(token_matches(token@.kind, s));
        assert(s.len() >= head + 1);
        if head == 2 {
            let t = s.subrange(1, s.len() as int);
            assert(t[0] == s[1]);
            assert(t[t.len() - 1] == s[s.len() - 1]);
        }
        crate::text::lemma_ascii_ends_char(s, head - 1);
        crate::text::lemma_ascii_ends_char(s, s.len() - 1);
    }
    slice(token.text, head, token.text.as_bytes().len() - 1)
}

} // verus!
