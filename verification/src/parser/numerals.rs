//! What the literals of whole numbers denote.
//!
//! A number written out in decimal, hexadecimal or binary is read back as that number, and the `_`
//! between its digits change nothing.

use crate::parser::grammar::{digits_value, exponent_mark, int_literal, int_value, is_exponent};
use crate::runtime::string::digits;
use vstd::arithmetic::power::pow;
use vstd::prelude::*;
use vstd::utf8::encode_utf8;

verus! {

/// The digit for a number below sixteen.
pub open spec fn hex_digit(n: nat) -> u8 {
    if n < 10 {
        (0x30 + n) as u8
    } else {
        (0x61 + n - 10) as u8
    }
}

/// The hexadecimal digits of a number.
pub open spec fn hex_digits(n: nat) -> Seq<u8>
    decreases n,
{
    if n < 16 {
        seq![hex_digit(n)]
    } else {
        hex_digits(n / 16).push(hex_digit(n % 16))
    }
}

/// The binary digits of a number.
pub open spec fn bits(n: nat) -> Seq<u8>
    decreases n,
{
    if n < 2 {
        seq![(0x30 + n) as u8]
    } else {
        bits(n / 2).push((0x30 + n % 2) as u8)
    }
}

proof fn lemma_decimal(n: nat)
    ensures
        digits_value(digits(n), 10) == n,
        digits(n).len() > 0,
        forall|i: int| 0 <= i < digits(n).len() ==> 0x30 <= #[trigger] digits(n)[i] <= 0x39,
    decreases n,
{
    let s = digits(n);
    if n < 10 {
        assert(s.drop_last() =~= Seq::empty());
        assert(digits_value(s.drop_last(), 10) == 0);
    } else {
        lemma_decimal(n / 10);
        assert(s.drop_last() =~= digits(n / 10));
    }
}

proof fn lemma_hex(n: nat)
    ensures
        digits_value(hex_digits(n), 16) == n,
    decreases n,
{
    let s = hex_digits(n);
    if n < 16 {
        assert(s.drop_last() =~= Seq::empty());
        assert(digits_value(s.drop_last(), 16) == 0);
    } else {
        lemma_hex(n / 16);
        assert(s.drop_last() =~= hex_digits(n / 16));
    }
}

proof fn lemma_bits(n: nat)
    ensures
        digits_value(bits(n), 2) == n,
    decreases n,
{
    let s = bits(n);
    if n < 2 {
        assert(s.drop_last() =~= Seq::empty());
        assert(digits_value(s.drop_last(), 2) == 0);
    } else {
        lemma_bits(n / 2);
        assert(s.drop_last() =~= bits(n / 2));
    }
}

/// The mark is found where it first stands.
proof fn lemma_mark(s: Seq<u8>, from: int, at: int)
    requires
        0 <= from <= at <= s.len(),
        forall|i: int| from <= i < at ==> !is_exponent(#[trigger] s[i]),
        at < s.len() ==> is_exponent(s[at]),
    ensures
        exponent_mark(s, from) == at,
    decreases at - from,
{
    if from < at {
        lemma_mark(s, from + 1, at);
    }
}

/// A number written out in decimal is read back as that number.
pub proof fn decimal_literals_read_back(n: nat)
    ensures
        int_value(digits(n)) == n,
{
    lemma_decimal(n);
    let s = digits(n);
    assert forall|i: int| 0 <= i < s.len() implies !is_exponent(#[trigger] s[i]) by {}
    lemma_mark(s, 0, s.len() as int);
}

/// A number written out in hexadecimal behind `0x` is read back as that number.
pub proof fn hexadecimal_literals_read_back(n: nat)
    ensures
        int_value(seq![0x30u8, 0x78u8] + hex_digits(n)) == n,
{
    lemma_hex(n);
    let s = seq![0x30u8, 0x78u8] + hex_digits(n);
    assert(s[1] == 0x78);
    assert(s.subrange(2, s.len() as int) =~= hex_digits(n));
}

/// A number written out in binary behind `0b` is read back as that number.
pub proof fn binary_literals_read_back(n: nat)
    ensures
        int_value(seq![0x30u8, 0x62u8] + bits(n)) == n,
{
    lemma_bits(n);
    let s = seq![0x30u8, 0x62u8] + bits(n);
    assert(s[1] == 0x62);
    assert(s.subrange(2, s.len() as int) =~= bits(n));
}

/// A number with a power of ten behind `e` is the number times that power.
pub proof fn exponents_scale(n: nat, power: nat)
    ensures
        int_value(digits(n) + seq![0x65u8] + digits(power)) == n * pow(10, power),
{
    lemma_decimal(n);
    lemma_decimal(power);
    let s = digits(n) + seq![0x65u8] + digits(power);
    let k = digits(n).len() as int;
    assert(s[k] == 0x65);
    assert forall|i: int| 0 <= i < k implies !is_exponent(#[trigger] s[i]) by {
        assert(s[i] == digits(n)[i]);
    }
    lemma_mark(s, 0, k);
    assert(s.subrange(0, k) =~= digits(n));
    assert(s.subrange(k + 1, s.len() as int) =~= digits(power));
    assert(s[1] != 0x78 && s[1] != 0x62) by {
        if k > 1 {
            assert(s[1] == digits(n)[1]);
        } else {
            assert(s[1] == 0x65);
        }
    }
}

/// A `_` anywhere among digits changes nothing.
pub proof fn separators_count_for_nothing(s: Seq<u8>, at: int, radix: int)
    requires
        0 <= at <= s.len(),
    ensures
        digits_value(s.insert(at, 0x5f), radix) == digits_value(s, radix),
    decreases s.len(),
{
    let more = s.insert(at, 0x5f);
    if at == s.len() {
        assert(more.drop_last() =~= s);
    } else {
        assert(more.drop_last() =~= s.drop_last().insert(at, 0x5f));
        assert(more.last() == s.last());
        separators_count_for_nothing(s.drop_last(), at, radix);
    }
}

/// A literal is taken exactly where its number fits in 64 bits, and then it is that number.
pub proof fn literals_are_taken_where_they_fit(text: Seq<char>, n: nat)
    requires
        encode_utf8(text) == digits(n),
    ensures
        n <= i64::MAX ==> (int_literal(text) matches Ok(value) && value == n),
        n > i64::MAX ==> int_literal(text) is Err,
{
    reveal(int_literal);
    decimal_literals_read_back(n);
}

} // verus!
