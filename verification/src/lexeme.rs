//! Raw lexemes: which stretches of source text form one token, before layout is considered.
//!
//! A lexeme is described by the set of byte strings it [`forms`]. The scanner takes, at every
//! position, the longest stretch that matches anything; no two lexemes match the same text, so
//! that choice is unique.

use vstd::prelude::*;

verus! {

/// The kind of a lexical token the parser consumes. Beyond literals, identifiers, and operators,
/// this includes the `Kw*` keyword operators (`div`/`mod`/`is`) and synthetic layout tokens —
/// `Newline`, `Indent`, `Dedent`, and `Eof` — which carry no source text of their own.
#[derive(Debug, Clone, Copy, PartialEq, Eq, Structural)]
pub enum TokenKind {
    Int,
    Float,
    /// A string literal, delimiters included in `text` (the parser strips them).
    Str,
    /// An f-string literal (`f'…'`), prefix and delimiters included in `text`.
    FStr,
    Identifier,
    Plus,
    Minus,
    Star,
    Slash,
    Caret,
    Equal,
    EqEq,
    Ne,
    Lt,
    Gt,
    Le,
    Ge,
    PlusEq,
    MinusEq,
    StarEq,
    SlashEq,
    CaretEq,
    DivEq,
    ModEq,
    LParen,
    RParen,
    LBracket,
    RBracket,
    Colon,
    ColonColon,
    Comma,
    Semicolon,
    Dot,
    DotDot,
    DotDotLt,
    DotDotGt,
    KwDiv,
    KwMod,
    KwIs,
    KwTrue,
    KwFalse,
    KwAnd,
    KwOr,
    KwXor,
    KwNot,
    KwIf,
    KwElif,
    KwElse,
    KwWhile,
    KwUntil,
    KwLoop,
    KwFor,
    KwIn,
    /// The bare `_` character: the don't-care binder in `for` loops.
    Underscore,
    Newline,
    Indent,
    Dedent,
    Eof,
}

/// One raw lexeme. Words are all `Token(Identifier)` here; keywords are told apart later.
#[derive(Debug, Clone, Copy, PartialEq, Eq, Structural)]
pub enum Lexeme {
    /// Blanks and tabs between tokens.
    Space,
    /// From `#` to just before the end of the line.
    Comment,
    /// A line end together with the next line's leading spaces.
    Newline,
    /// A line end whose next line has a tab among its leading whitespace.
    TabIndent,
    Token(TokenKind),
}

// ---------------------------------------------------------------------------
// Character classes
// ---------------------------------------------------------------------------

pub open spec fn is_digit(c: u8) -> bool {
    0x30 <= c <= 0x39
}

pub open spec fn is_hex_digit(c: u8) -> bool {
    is_digit(c) || 0x61 <= c <= 0x66 || 0x41 <= c <= 0x46
}

pub open spec fn is_binary_digit(c: u8) -> bool {
    c == 0x30 || c == 0x31
}

pub open spec fn is_letter(c: u8) -> bool {
    0x61 <= c <= 0x7a || 0x41 <= c <= 0x5a
}

pub open spec fn is_word_char(c: u8) -> bool {
    is_letter(c) || is_digit(c) || c == 0x5f
}

pub open spec fn is_blank(c: u8) -> bool {
    c == 0x20 || c == 0x09
}

pub open spec fn is_exponent_mark(c: u8) -> bool {
    c == 0x65 || c == 0x45
}

pub open spec fn is_sign(c: u8) -> bool {
    c == 0x2b || c == 0x2d
}

pub open spec fn is_quote(c: u8) -> bool {
    c == 0x27 || c == 0x22
}

// ---------------------------------------------------------------------------
// The texts each lexeme matches
// ---------------------------------------------------------------------------

/// A non-empty run of decimal digits.
pub open spec fn digits(s: Seq<u8>) -> bool {
    s.len() > 0 && forall|i: int| 0 <= i < s.len() ==> is_digit(#[trigger] s[i])
}

/// One to three digits, then at least one `_` followed by exactly three digits: `12_000_321`.
pub open spec fn grouped(s: Seq<u8>) -> bool {
    &&& s.len() >= 5
    &&& s.len() % 4 != 0
    &&& forall|i: int|
        0 <= i < s.len() ==> (if i >= s.len() % 4 && (i - s.len() % 4) % 4 == 0 {
            #[trigger] s[i] == 0x5f
        } else {
            is_digit(s[i])
        })
}

pub open spec fn number(s: Seq<u8>) -> bool {
    digits(s) || grouped(s)
}

/// Digits, an exponent mark, digits: `12E3`.
pub open spec fn scientific_int(s: Seq<u8>) -> bool {
    exists|k: int|
        0 < k < s.len() && is_exponent_mark(#[trigger] s[k]) && digits(s.subrange(0, k)) && digits(
            s.subrange(k + 1, s.len() as int),
        )
}

/// `0`, the marker, then digits of the radix with single `_` between them.
pub open spec fn radix_int(s: Seq<u8>, marker: u8, digit: spec_fn(u8) -> bool) -> bool {
    &&& s.len() >= 3
    &&& s[0] == 0x30
    &&& s[1] == marker
    &&& digit(s[2])
    &&& digit(s[s.len() - 1])
    &&& forall|i: int| 2 <= i < s.len() ==> digit(#[trigger] s[i]) || s[i] == 0x5f
    &&& forall|i: int, j: int|
        2 <= i && j == i + 1
            && j < s.len() ==> !(#[trigger] s[i] == 0x5f && #[trigger] s[j] == 0x5f)
}

pub open spec fn int_text(s: Seq<u8>) -> bool {
    ||| digits(s)
    ||| scientific_int(s)
    ||| grouped(s)
    ||| radix_int(s, 0x78, |c: u8| is_hex_digit(c))
    ||| radix_int(s, 0x62, |c: u8| is_binary_digit(c))
}

/// A number with an optional sign: the exponent of a float.
pub open spec fn signed_number(s: Seq<u8>) -> bool {
    number(s) || (s.len() > 0 && is_sign(s[0]) && number(s.subrange(1, s.len() as int)))
}

/// The part of a float after its point: a number, optionally with an exponent.
pub open spec fn fraction(s: Seq<u8>) -> bool {
    number(s) || exists|k: int|
        0 < k < s.len() && is_exponent_mark(#[trigger] s[k]) && number(s.subrange(0, k))
            && signed_number(s.subrange(k + 1, s.len() as int))
}

/// An optional number, a point, and a fraction: `.12`, `3.14E12`.
pub open spec fn float_text(s: Seq<u8>) -> bool {
    exists|d: int|
        0 <= d < s.len() && #[trigger] s[d] == 0x2e && (d == 0 || number(s.subrange(0, d)))
            && fraction(s.subrange(d + 1, s.len() as int))
}

/// Anything between two equal quotes that does not hold that quote.
pub open spec fn quoted(s: Seq<u8>) -> bool {
    &&& s.len() >= 2
    &&& is_quote(s[0])
    &&& s[s.len() - 1] == s[0]
    &&& forall|i: int| 0 < i < s.len() - 1 ==> #[trigger] s[i] != s[0]
}

/// Leading `_`s, a letter, then letters, digits and `_`s.
pub open spec fn identifier_text(s: Seq<u8>) -> bool {
    &&& forall|i: int| 0 <= i < s.len() ==> is_word_char(#[trigger] s[i])
    &&& exists|k: int|
        0 <= k < s.len() && is_letter(#[trigger] s[k]) && forall|i: int|
            0 <= i < k ==> #[trigger] s[i] == 0x5f
}

/// A line end (`\n` or `\r\n`) followed by `blanks` spaces, and then `rest` more bytes.
pub open spec fn line_start(s: Seq<u8>, blanks: int, rest: int) -> bool {
    let feed = if s.len() > 0 && s[0] == 0x0d { 1int } else { 0int };
    &&& blanks >= 0
    &&& s.len() == feed + 1 + blanks + rest
    &&& s[feed] == 0x0a
    &&& forall|i: int| feed < i < feed + 1 + blanks ==> #[trigger] s[i] == 0x20
}

pub open spec fn is1(s: Seq<u8>, a: u8) -> bool {
    s.len() == 1 && s[0] == a
}

pub open spec fn is2(s: Seq<u8>, a: u8, b: u8) -> bool {
    s.len() == 2 && s[0] == a && s[1] == b
}

pub open spec fn is3(s: Seq<u8>, a: u8, b: u8, c: u8) -> bool {
    s.len() == 3 && s[0] == a && s[1] == b && s[2] == c
}

pub open spec fn is4(s: Seq<u8>, a: u8, b: u8, c: u8, d: u8) -> bool {
    s.len() == 4 && s[0] == a && s[1] == b && s[2] == c && s[3] == d
}

/// The texts that form a token of kind `kind`. Keywords are identifiers at this level, and layout
/// tokens have no text, so neither is ever matched.
pub open spec fn token_matches(kind: TokenKind, s: Seq<u8>) -> bool {
    match kind {
        TokenKind::Int => int_text(s),
        TokenKind::Float => float_text(s),
        TokenKind::Str => quoted(s),
        TokenKind::FStr => s.len() > 0 && s[0] == 0x66 && quoted(s.subrange(1, s.len() as int)),
        TokenKind::Identifier => identifier_text(s),
        TokenKind::Underscore => is1(s, 0x5f),
        TokenKind::Plus => is1(s, 0x2b),
        TokenKind::Minus => is1(s, 0x2d),
        TokenKind::Star => is1(s, 0x2a),
        TokenKind::Slash => is1(s, 0x2f),
        TokenKind::Caret => is1(s, 0x5e),
        TokenKind::Equal => is1(s, 0x3d),
        TokenKind::EqEq => is2(s, 0x3d, 0x3d),
        TokenKind::Ne => is2(s, 0x21, 0x3d),
        TokenKind::Lt => is1(s, 0x3c),
        TokenKind::Gt => is1(s, 0x3e),
        TokenKind::Le => is2(s, 0x3c, 0x3d),
        TokenKind::Ge => is2(s, 0x3e, 0x3d),
        TokenKind::PlusEq => is2(s, 0x2b, 0x3d),
        TokenKind::MinusEq => is2(s, 0x2d, 0x3d),
        TokenKind::StarEq => is2(s, 0x2a, 0x3d),
        TokenKind::SlashEq => is2(s, 0x2f, 0x3d),
        TokenKind::CaretEq => is2(s, 0x5e, 0x3d),
        TokenKind::DivEq => is4(s, 0x64, 0x69, 0x76, 0x3d),
        TokenKind::ModEq => is4(s, 0x6d, 0x6f, 0x64, 0x3d),
        TokenKind::LParen => is1(s, 0x28),
        TokenKind::RParen => is1(s, 0x29),
        TokenKind::LBracket => is1(s, 0x5b),
        TokenKind::RBracket => is1(s, 0x5d),
        TokenKind::Colon => is1(s, 0x3a),
        TokenKind::ColonColon => is2(s, 0x3a, 0x3a),
        TokenKind::Comma => is1(s, 0x2c),
        TokenKind::Semicolon => is1(s, 0x3b),
        TokenKind::Dot => is1(s, 0x2e),
        TokenKind::DotDot => is2(s, 0x2e, 0x2e),
        TokenKind::DotDotLt => is3(s, 0x2e, 0x2e, 0x3c),
        TokenKind::DotDotGt => is3(s, 0x2e, 0x2e, 0x3e),
        _ => false,
    }
}

/// The texts that form the lexeme `lexeme`.
pub open spec fn forms(lexeme: Lexeme, s: Seq<u8>) -> bool {
    match lexeme {
        Lexeme::Space => s.len() > 0 && forall|i: int|
            0 <= i < s.len() ==> is_blank(#[trigger] s[i]),
        Lexeme::Comment => s.len() > 0 && s[0] == 0x23 && forall|i: int|
            0 < i < s.len() ==> #[trigger] s[i] != 0x0a,
        Lexeme::Newline => exists|blanks: int| #[trigger] line_start(s, blanks, 0),
        Lexeme::TabIndent => s.len() > 0 && s[s.len() - 1] == 0x09 && exists|blanks: int|
            #[trigger] line_start(s, blanks, 1),
        Lexeme::Token(kind) => token_matches(kind, s),
    }
}

/// `lexeme` matches the bytes from `pos` up to `end`, and nothing matches a longer stretch.
pub open spec fn is_longest_match(b: Seq<u8>, pos: int, lexeme: Lexeme, end: int) -> bool {
    &&& pos < end <= b.len()
    &&& forms(lexeme, b.subrange(pos, end))
    &&& forall|other: Lexeme, further: int|
        end < further <= b.len() ==> !#[trigger] forms(other, b.subrange(pos, further))
}

/// Nothing at all matches at `pos`.
pub open spec fn no_match(b: Seq<u8>, pos: int) -> bool {
    forall|other: Lexeme, further: int|
        pos < further <= b.len() ==> !#[trigger] forms(other, b.subrange(pos, further))
}

// ---------------------------------------------------------------------------
// Numbers
// ---------------------------------------------------------------------------

proof fn lemma_digits_at(b: Seq<u8>, pos: int, end: int)
    requires
        0 <= pos <= end <= b.len(),
    ensures
        digits(b.subrange(pos, end)) <==> (pos < end && forall|i: int|
            pos <= i < end ==> is_digit(#[trigger] b[i])),
{
    let s = b.subrange(pos, end);
    if digits(s) {
        assert forall|i: int| pos <= i < end implies is_digit(#[trigger] b[i]) by {
            assert(is_digit(s[i - pos]));
        }
    }
}

/// `b[pos..end]` is a head of `head` digits followed by groups of `_` and three digits.
spec fn groups_at(b: Seq<u8>, pos: int, head: int, end: int) -> bool {
    forall|i: int|
        pos <= i < end ==> (if i >= pos + head && (i - pos - head) % 4 == 0 {
            #[trigger] b[i] == 0x5f
        } else {
            is_digit(b[i])
        })
}

proof fn lemma_grouped_at(b: Seq<u8>, pos: int, end: int)
    requires
        0 <= pos <= end <= b.len(),
    ensures
        grouped(b.subrange(pos, end)) <==> (end - pos >= 5 && (end - pos) % 4 != 0 && groups_at(
            b,
            pos,
            (end - pos) % 4,
            end,
        )),
{
    let s = b.subrange(pos, end);
    if grouped(s) {
        assert forall|i: int| pos <= i < end implies (if i >= pos + (end - pos) % 4 && (i - pos - (
        end - pos) % 4) % 4 == 0 {
            #[trigger] b[i] == 0x5f
        } else {
            is_digit(b[i])
        }) by {
            assert(s[i - pos] == b[i]);
        }
    }
}

fn digits_end(b: &[u8], pos: usize) -> (end: usize)
    requires
        pos <= b.len(),
    ensures
        pos <= end <= b.len(),
        forall|i: int| pos <= i < end ==> is_digit(#[trigger] b[i]),
        end < b.len() ==> !is_digit(b[end as int]),
{
    let mut end: usize = pos;
    while end < b.len() && 0x30 <= b[end] && b[end] <= 0x39
        invariant
            pos <= end <= b.len(),
            forall|i: int| pos <= i < end ==> is_digit(#[trigger] b[i]),
        decreases b.len() - end,
    {
        end = end + 1;
    }
    end
}

fn is_digit_at(b: &[u8], i: usize) -> (r: bool)
    ensures
        r == (i < b.len() && is_digit(b[i as int])),
{
    i < b.len() && 0x30 <= b[i] && b[i] <= 0x39
}

/// The longest number at `pos`, if there is any.
fn number_end(b: &[u8], pos: usize) -> (end: Option<usize>)
    requires
        pos <= b.len() < 0xffff_ffff,
    ensures
        end matches Some(e) ==> {
            &&& pos < e <= b.len()
            &&& number(b@.subrange(pos as int, e as int))
            &&& forall|f: int| e < f <= b.len() ==> !#[trigger] number(b@.subrange(pos as int, f))
        },
        end is None ==> forall|f: int|
            pos <= f <= b.len() ==> !#[trigger] number(b@.subrange(pos as int, f)),
        end is Some <==> pos < b.len() && is_digit(b[pos as int]),
{
    let head: usize = digits_end(b, pos);
    if head == pos {
        assert forall|f: int| pos <= f <= b.len() implies !#[trigger] number(
            b@.subrange(pos as int, f),
        ) by {
            lemma_digits_at(b@, pos as int, f);
            lemma_grouped_at(b@, pos as int, f);
            if grouped(b@.subrange(pos as int, f)) {
                assert(b@[pos as int] == b@.subrange(pos as int, f)[0]);
            }
        }
        return None;
    }
    proof {
        lemma_digits_at(b@, pos as int, head as int);
    }
    let ghost h = head - pos;
    let mut end: usize = head;
    while 3 < b.len() - end && b[end] == 0x5f && is_digit_at(b, end + 1) && is_digit_at(b, end + 2)
        && is_digit_at(b, end + 3)
        invariant
            h == head - pos,
            pos < head <= end <= b.len() < 0xffff_ffff,
            (end - head) % 4 == 0,
            groups_at(b@, pos as int, h, end as int),
            forall|i: int| pos <= i < head ==> is_digit(#[trigger] b[i]),
        decreases b.len() - end,
    {
        end = end + 4;
    }
    if head - pos > 3 || end == head {
        assert forall|f: int| head < f <= b.len() implies !#[trigger] number(
            b@.subrange(pos as int, f),
        ) by {
            lemma_digits_at(b@, pos as int, f);
            lemma_grouped_at(b@, pos as int, f);
            if digits(b@.subrange(pos as int, f)) {
                assert(is_digit(b@[head as int]));
            }
            if grouped(b@.subrange(pos as int, f)) {
                let k = (f - pos) % 4;
                assert(b@[pos + k] == 0x5f);
                assert(k == h);
                assert(is_digit(b@[head + 1]) && is_digit(b@[head + 2]) && is_digit(b@[head + 3]));
            }
        }
        return Some(head);
    }
    proof {
        assert((end - pos) % 4 == h);
        lemma_grouped_at(b@, pos as int, end as int);
        assert forall|f: int| end < f <= b.len() implies !#[trigger] number(
            b@.subrange(pos as int, f),
        ) by {
            lemma_digits_at(b@, pos as int, f);
            lemma_grouped_at(b@, pos as int, f);
            if digits(b@.subrange(pos as int, f)) {
                assert(is_digit(b@[head as int]));
            }
            if grouped(b@.subrange(pos as int, f)) {
                let k = (f - pos) % 4;
                assert(b@[pos + k] == 0x5f);
                assert(k == h);
                assert(b@[end as int] == 0x5f);
                assert(f >= end + 4);
                assert(is_digit(b@[end + 1]) && is_digit(b@[end + 2]) && is_digit(b@[end + 3]));
            }
        }
    }
    Some(end)
}

/// The longest stretch of radix digits with single `_` between them that starts at `pos`, written
/// `0x…` or `0b…`; `pos` itself when there is none.
fn radix_end(b: &[u8], pos: usize, hex: bool) -> (end: usize)
    requires
        pos < b.len() < 0xffff_ffff,
    ensures
        pos <= end <= b.len(),
        end > pos ==> radix_text(b@.subrange(pos as int, end as int), hex),
        forall|f: int| end < f <= b.len() ==> !#[trigger] radix_text(
            b@.subrange(pos as int, f),
            hex,
        ),
{
    let marker: u8 = if hex { 0x78 } else { 0x62 };
    if !(pos + 2 < b.len() && b[pos] == 0x30 && b[pos + 1] == marker && radix_digit(b[pos + 2], hex))
    {
        proof {
            assert forall|f: int| pos < f <= b.len() implies !#[trigger] radix_text(
                b@.subrange(pos as int, f),
                hex,
            ) by {
                let s = b@.subrange(pos as int, f);
                if radix_text(s, hex) {
                    assert(s[0] == b@[pos as int] && s[1] == b@[pos + 1] && s[2] == b@[pos + 2]);
                }
            }
        }
        return pos;
    }
    let mut end: usize = pos + 3;
    loop
        invariant
            pos + 3 <= end <= b.len() < 0xffff_ffff,
            marker == if hex { 0x78u8 } else { 0x62u8 },
            b@[pos as int] == 0x30,
            b@[pos + 1] == marker,
            is_radix_digit(b@[pos + 2], hex),
            is_radix_digit(b@[end - 1], hex),
            forall|i: int|
                pos + 2 <= i < end ==> is_radix_digit(#[trigger] b@[i], hex) || b@[i] == 0x5f,
            forall|i: int, j: int|
                pos + 2 <= i && j == i + 1 && j < end ==> !(#[trigger] b@[i] == 0x5f
                    && #[trigger] b@[j] == 0x5f),
        ensures
            end < b.len() ==> !is_radix_digit(b@[end as int], hex),
            end + 1 < b.len() ==> !(b@[end as int] == 0x5f && is_radix_digit(b@[end + 1], hex)),
        decreases b.len() - end,
    {
        if end < b.len() && radix_digit(b[end], hex) {
            end = end + 1;
        } else if end + 1 < b.len() && b[end] == 0x5f && radix_digit(b[end + 1], hex) {
            end = end + 2;
        } else {
            break;
        }
    }
    proof {
        let s = b@.subrange(pos as int, end as int);
        assert(s[0] == b@[pos as int] && s[1] == b@[pos + 1] && s[2] == b@[pos + 2]);
        assert(s[s.len() - 1] == b@[end - 1]);
        assert(radix_text(s, hex));
        assert forall|f: int| end < f <= b.len() implies !#[trigger] radix_text(
            b@.subrange(pos as int, f),
            hex,
        ) by {
            let t = b@.subrange(pos as int, f);
            if radix_text(t, hex) {
                assert(t[end - pos] == b@[end as int]);
                assert(t[t.len() - 1] == b@[f - 1]);
                assert(b@[end as int] == 0x5f);
                assert(end + 1 < f);
                assert(t[end + 1 - pos] == b@[end + 1]);
            }
        }
    }
    end
}

spec fn is_radix_digit(c: u8, hex: bool) -> bool {
    if hex {
        is_hex_digit(c)
    } else {
        is_binary_digit(c)
    }
}

spec fn radix_text(s: Seq<u8>, hex: bool) -> bool {
    if hex {
        radix_int(s, 0x78, |c: u8| is_hex_digit(c))
    } else {
        radix_int(s, 0x62, |c: u8| is_binary_digit(c))
    }
}

fn radix_digit(c: u8, hex: bool) -> (r: bool)
    ensures
        r == is_radix_digit(c, hex),
{
    if hex {
        (0x30 <= c && c <= 0x39) || (0x61 <= c && c <= 0x66) || (0x41 <= c && c <= 0x46)
    } else {
        c == 0x30 || c == 0x31
    }
}

/// The longest integer literal at `pos`.
fn int_end(b: &[u8], pos: usize) -> (end: usize)
    requires
        pos < b.len() < 0xffff_ffff,
        is_digit(b[pos as int]),
    ensures
        pos < end <= b.len(),
        int_text(b@.subrange(pos as int, end as int)),
        forall|f: int| end < f <= b.len() ==> !#[trigger] int_text(b@.subrange(pos as int, f)),
{
    let plain: usize = digits_end(b, pos);
    let mut scientific: usize = plain;
    if plain < b.len() && (b[plain] == 0x65 || b[plain] == 0x45) {
        let tail: usize = digits_end(b, plain + 1);
        if tail > plain + 1 {
            scientific = tail;
            proof {
                let s = b@.subrange(pos as int, tail as int);
                lemma_digits_at(b@, pos as int, plain as int);
                lemma_digits_at(b@, plain + 1, tail as int);
                assert(s.subrange(0, plain - pos) =~= b@.subrange(pos as int, plain as int));
                assert(s.subrange(plain - pos + 1, s.len() as int) =~= b@.subrange(
                    plain + 1,
                    tail as int,
                ));
                assert(is_exponent_mark(s[plain - pos]));
                assert(scientific_int(s));
            }
        }
    }
    proof {
        lemma_digits_at(b@, pos as int, plain as int);
        assert forall|f: int| scientific < f <= b.len() implies !digits(b@.subrange(pos as int, f))
            && !#[trigger] scientific_int(b@.subrange(pos as int, f)) by {
            let s = b@.subrange(pos as int, f);
            lemma_digits_at(b@, pos as int, f);
            if digits(s) {
                assert(is_digit(b@[plain as int]));
            }
            if scientific_int(s) {
                let k = choose|k: int|
                    0 < k < s.len() && is_exponent_mark(#[trigger] s[k]) && digits(s.subrange(0, k))
                        && digits(s.subrange(k + 1, s.len() as int));
                assert(s.subrange(0, k) =~= b@.subrange(pos as int, pos + k));
                assert(s.subrange(k + 1, s.len() as int) =~= b@.subrange(pos + k + 1, f));
                lemma_digits_at(b@, pos as int, pos + k);
                lemma_digits_at(b@, pos + k + 1, f);
                assert(b@[pos + k] == s[k]);
                assert(pos + k == plain);
                if scientific > plain {
                    assert(is_digit(b@[scientific as int]));
                } else {
                    assert(is_digit(b@[plain + 1]));
                }
            }
        }
    }
    let mut end: usize = scientific;
    let longest_number: Option<usize> = number_end(b, pos);
    if let Some(longest) = longest_number {
        if longest > end {
            end = longest;
        }
    }
    let hex: usize = radix_end(b, pos, true);
    if hex > end {
        end = hex;
    }
    let binary: usize = radix_end(b, pos, false);
    if binary > end {
        end = binary;
    }
    proof {
        assert forall|f: int| end < f <= b.len() implies !#[trigger] int_text(
            b@.subrange(pos as int, f),
        ) by {
            let s = b@.subrange(pos as int, f);
            assert(!scientific_int(s));
            assert(!number(s));
            assert(!radix_text(s, true));
            assert(!radix_text(s, false));
        }
        if end == plain {
            assert(digits(b@.subrange(pos as int, end as int)));
        } else if end == scientific {
            assert(scientific_int(b@.subrange(pos as int, end as int)));
        } else if longest_number == Some(end) {
            assert(number(b@.subrange(pos as int, end as int)));
        } else if end == hex {
            assert(radix_text(b@.subrange(pos as int, end as int), true));
        } else {
            assert(radix_text(b@.subrange(pos as int, end as int), false));
        }
    }
    end
}

/// A number holds only digits and `_`.
proof fn lemma_number_chars(b: Seq<u8>, pos: int, end: int, i: int)
    requires
        0 <= pos <= i < end <= b.len(),
        number(b.subrange(pos, end)),
    ensures
        is_digit(b[i]) || b[i] == 0x5f,
{
    assert(b.subrange(pos, end)[i - pos] == b[i]);
}

/// The number that ends where a byte that is neither a digit nor `_` stands is the longest one.
proof fn lemma_number_stops(b: Seq<u8>, pos: int, end: int, longest: int)
    requires
        0 <= pos <= end < b.len(),
        pos < longest <= b.len(),
        number(b.subrange(pos, end)),
        !is_digit(b[end]),
        b[end] != 0x5f,
        number(b.subrange(pos, longest)),
        forall|f: int| longest < f <= b.len() ==> !#[trigger] number(b.subrange(pos, f)),
    ensures
        end == longest,
{
    if longest > end {
        lemma_number_chars(b, pos, longest, end);
    }
}

/// The longest fraction at `pos`, if there is any.
fn fraction_end(b: &[u8], pos: usize) -> (end: Option<usize>)
    requires
        pos <= b.len() < 0xffff_ffff,
    ensures
        end matches Some(e) ==> {
            &&& pos < e <= b.len()
            &&& fraction(b@.subrange(pos as int, e as int))
            &&& forall|f: int| e < f <= b.len() ==> !#[trigger] fraction(b@.subrange(pos as int, f))
        },
        end is None ==> forall|f: int|
            pos <= f <= b.len() ==> !#[trigger] fraction(b@.subrange(pos as int, f)),
{
    let plain: usize = match number_end(b, pos) {
        None => {
            proof {
                assert forall|f: int| pos <= f <= b.len() implies !#[trigger] fraction(
                    b@.subrange(pos as int, f),
                ) by {
                    let s = b@.subrange(pos as int, f);
                    if fraction(s) {
                        let k = choose|k: int|
                            0 < k < s.len() && is_exponent_mark(#[trigger] s[k]) && number(
                                s.subrange(0, k),
                            ) && signed_number(s.subrange(k + 1, s.len() as int));
                        assert(s.subrange(0, k) =~= b@.subrange(pos as int, pos + k));
                    }
                }
            }
            return None;
        },
        Some(plain) => plain,
    };
    let mut end: usize = plain;
    let mut sign_end: usize = plain;
    if plain < b.len() && (b[plain] == 0x65 || b[plain] == 0x45) {
        sign_end = plain + 1;
        if sign_end < b.len() && (b[sign_end] == 0x2b || b[sign_end] == 0x2d) {
            sign_end = sign_end + 1;
        }
        if let Some(exponent) = number_end(b, sign_end) {
            end = exponent;
        }
    }
    proof {
        let s = b@.subrange(pos as int, end as int);
        if end > plain {
            assert(s.subrange(0, plain - pos) =~= b@.subrange(pos as int, plain as int));
            let t = s.subrange(plain - pos + 1, s.len() as int);
            assert(t =~= b@.subrange(plain + 1, end as int));
            if sign_end > plain + 1 {
                assert(t.subrange(1, t.len() as int) =~= b@.subrange(sign_end as int, end as int));
            }
            assert(signed_number(t));
            assert(is_exponent_mark(s[plain - pos]));
        }
        assert(fraction(s));
        assert forall|f: int| end < f <= b.len() implies !#[trigger] fraction(
            b@.subrange(pos as int, f),
        ) by {
            let s = b@.subrange(pos as int, f);
            assert(!number(s));
            if fraction(s) {
                let k = choose|k: int|
                    0 < k < s.len() && is_exponent_mark(#[trigger] s[k]) && number(s.subrange(0, k))
                        && signed_number(s.subrange(k + 1, s.len() as int));
                assert(s.subrange(0, k) =~= b@.subrange(pos as int, pos + k));
                assert(s[k] == b@[pos + k]);
                lemma_number_stops(b@, pos as int, pos + k, plain as int);
                let t = s.subrange(k + 1, s.len() as int);
                assert(t =~= b@.subrange(plain + 1, f));
                if number(t) {
                    assert(is_digit(b@[plain + 1])) by {
                        assert(t[0] == b@[plain + 1]);
                    }
                    assert(sign_end == plain + 1);
                } else {
                    assert(t[0] == b@[plain + 1]);
                    assert(sign_end == plain + 2);
                    assert(t.subrange(1, t.len() as int) =~= b@.subrange(sign_end as int, f));
                }
                assert(number(b@.subrange(sign_end as int, f)));
                assert(false);
            }
        }
    }
    Some(end)
}

/// The longest float literal at `pos`, if there is any.
fn float_end(b: &[u8], pos: usize) -> (end: Option<usize>)
    requires
        pos < b.len() < 0xffff_ffff,
    ensures
        end matches Some(e) ==> {
            &&& pos < e <= b.len()
            &&& float_text(b@.subrange(pos as int, e as int))
            &&& forall|f: int| e < f <= b.len() ==> !#[trigger] float_text(
                b@.subrange(pos as int, f),
            )
        },
        end is None ==> forall|f: int|
            pos <= f <= b.len() ==> !#[trigger] float_text(b@.subrange(pos as int, f)),
{
    let head: Option<usize> = number_end(b, pos);
    let point: usize = match head {
        None => pos,
        Some(end) => end,
    };
    proof {
        assert forall|f: int| pos <= f <= b.len() && #[trigger] float_text(
            b@.subrange(pos as int, f),
        ) implies point < f && b@[point as int] == 0x2e && fraction(b@.subrange(point + 1, f)) by {
            let s = b@.subrange(pos as int, f);
            let d = choose|d: int|
                0 <= d < s.len() && #[trigger] s[d] == 0x2e && (d == 0 || number(s.subrange(0, d)))
                    && fraction(s.subrange(d + 1, s.len() as int));
            assert(s[d] == b@[pos + d]);
            assert(s.subrange(0, d) =~= b@.subrange(pos as int, pos + d));
            assert(s.subrange(d + 1, s.len() as int) =~= b@.subrange(pos + d + 1, f));
            if d > 0 {
                lemma_number_stops(b@, pos as int, pos + d, point as int);
            }
        }
    }
    if point >= b.len() || b[point] != 0x2e {
        return None;
    }
    let end: Option<usize> = fraction_end(b, point + 1);
    proof {
        if let Some(e) = end {
            let s = b@.subrange(pos as int, e as int);
            let d = point - pos;
            assert(s.subrange(0, d) =~= b@.subrange(pos as int, point as int));
            assert(s.subrange(d + 1, s.len() as int) =~= b@.subrange(point + 1, e as int));
            assert(s[d] == 0x2e);
            assert(float_text(s));
        }
    }
    end
}

// ---------------------------------------------------------------------------
// What a first byte says about the lexeme
// ---------------------------------------------------------------------------

/// The bytes a lexeme can begin with.
spec fn starts(lexeme: Lexeme, c: u8) -> bool {
    match lexeme {
        Lexeme::Space => is_blank(c),
        Lexeme::Comment => c == 0x23,
        Lexeme::Newline | Lexeme::TabIndent => c == 0x0a || c == 0x0d,
        Lexeme::Token(kind) => match kind {
            TokenKind::Int => is_digit(c),
            TokenKind::Float => is_digit(c) || c == 0x2e,
            TokenKind::Str => is_quote(c),
            TokenKind::FStr => c == 0x66,
            TokenKind::Identifier => is_letter(c) || c == 0x5f,
            TokenKind::Underscore => c == 0x5f,
            TokenKind::Plus | TokenKind::PlusEq => c == 0x2b,
            TokenKind::Minus | TokenKind::MinusEq => c == 0x2d,
            TokenKind::Star | TokenKind::StarEq => c == 0x2a,
            TokenKind::Slash | TokenKind::SlashEq => c == 0x2f,
            TokenKind::Caret | TokenKind::CaretEq => c == 0x5e,
            TokenKind::Equal | TokenKind::EqEq => c == 0x3d,
            TokenKind::Ne => c == 0x21,
            TokenKind::Lt | TokenKind::Le => c == 0x3c,
            TokenKind::Gt | TokenKind::Ge => c == 0x3e,
            TokenKind::DivEq => c == 0x64,
            TokenKind::ModEq => c == 0x6d,
            TokenKind::LParen => c == 0x28,
            TokenKind::RParen => c == 0x29,
            TokenKind::LBracket => c == 0x5b,
            TokenKind::RBracket => c == 0x5d,
            TokenKind::Colon | TokenKind::ColonColon => c == 0x3a,
            TokenKind::Comma => c == 0x2c,
            TokenKind::Semicolon => c == 0x3b,
            TokenKind::Dot | TokenKind::DotDot | TokenKind::DotDotLt | TokenKind::DotDotGt => c
                == 0x2e,
            _ => false,
        },
    }
}

proof fn lemma_starts(lexeme: Lexeme, s: Seq<u8>)
    requires
        forms(lexeme, s),
    ensures
        s.len() > 0,
        starts(lexeme, s[0]),
{
    match lexeme {
        Lexeme::Token(TokenKind::Int) => {
            if scientific_int(s) {
                let k = choose|k: int|
                    0 < k < s.len() && is_exponent_mark(#[trigger] s[k]) && digits(s.subrange(0, k))
                        && digits(s.subrange(k + 1, s.len() as int));
                assert(is_digit(s.subrange(0, k)[0]));
            }
        },
        Lexeme::Token(TokenKind::Float) => {
            let d = choose|d: int|
                0 <= d < s.len() && #[trigger] s[d] == 0x2e && (d == 0 || number(s.subrange(0, d)))
                    && fraction(s.subrange(d + 1, s.len() as int));
            if d > 0 {
                assert(s.subrange(0, d)[0] == s[0]);
            }
        },
        _ => {},
    }
}

/// Every match at `pos` begins with the byte there.
proof fn lemma_starts_at(b: Seq<u8>, pos: int)
    requires
        0 <= pos < b.len(),
    ensures
        forall|other: Lexeme, f: int|
            pos <= f <= b.len() && #[trigger] forms(other, b.subrange(pos, f)) ==> pos < f
                && starts(other, b[pos]),
{
    assert forall|other: Lexeme, f: int|
        pos <= f <= b.len() && #[trigger] forms(other, b.subrange(pos, f)) implies pos < f
        && starts(other, b[pos]) by {
        lemma_starts(other, b.subrange(pos, f));
        assert(b.subrange(pos, f)[0] == b[pos]);
    }
}

/// Every lexeme begins with an ASCII byte, and every one but a comment ends with one.
pub proof fn lemma_ascii_ends(lexeme: Lexeme, s: Seq<u8>)
    requires
        forms(lexeme, s),
    ensures
        s.len() > 0,
        s[0] < 0x80,
        lexeme is Comment || s[s.len() - 1] < 0x80,
{
    lemma_starts(lexeme, s);
    match lexeme {
        Lexeme::Newline => {
            let blanks = choose|blanks: int| #[trigger] line_start(s, blanks, 0);
            assert(line_start(s, blanks, 0));
        },
        Lexeme::Token(TokenKind::Int) => {
            if scientific_int(s) {
                let k = choose|k: int|
                    0 < k < s.len() && is_exponent_mark(#[trigger] s[k]) && digits(s.subrange(0, k))
                        && digits(s.subrange(k + 1, s.len() as int));
                let t = s.subrange(k + 1, s.len() as int);
                assert(t[t.len() - 1] == s[s.len() - 1]);
            }
        },
        Lexeme::Token(TokenKind::Float) => {
            let d = choose|d: int|
                0 <= d < s.len() && #[trigger] s[d] == 0x2e && (d == 0 || number(s.subrange(0, d)))
                    && fraction(s.subrange(d + 1, s.len() as int));
            let t = s.subrange(d + 1, s.len() as int);
            lemma_fraction_last(t);
            assert(t[t.len() - 1] == s[s.len() - 1]);
        },
        Lexeme::Token(TokenKind::FStr) => {
            let t = s.subrange(1, s.len() as int);
            assert(t[t.len() - 1] == s[s.len() - 1]);
        },
        _ => {},
    }
}

proof fn lemma_fraction_last(s: Seq<u8>)
    requires
        fraction(s),
    ensures
        s.len() > 0,
        s[s.len() - 1] < 0x80,
{
    if !number(s) {
        let k = choose|k: int|
            0 < k < s.len() && is_exponent_mark(#[trigger] s[k]) && number(s.subrange(0, k))
                && signed_number(s.subrange(k + 1, s.len() as int));
        let t = s.subrange(k + 1, s.len() as int);
        assert(t[t.len() - 1] == s[s.len() - 1]);
        if !number(t) {
            let u = t.subrange(1, t.len() as int);
            assert(u[u.len() - 1] == t[t.len() - 1]);
        }
    }
}

/// A newline lexeme holds its line end.
pub proof fn lemma_newline_length(b: Seq<u8>, pos: int, end: int)
    requires
        0 <= pos < end <= b.len(),
        forms(Lexeme::Newline, b.subrange(pos, end)),
    ensures
        end - pos >= if b[pos] == 0x0d {
            2int
        } else {
            1int
        },
{
    let s = b.subrange(pos, end);
    let blanks = choose|blanks: int| #[trigger] line_start(s, blanks, 0);
    assert(line_start(s, blanks, 0));
    assert(s[0] == b[pos]);
}

/// No text forms two different lexemes.
pub proof fn lexemes_are_disjoint(one: Lexeme, two: Lexeme, s: Seq<u8>)
    requires
        forms(one, s),
        forms(two, s),
    ensures
        one == two,
{
    lemma_starts(one, s);
    lemma_starts(two, s);
    if forms(Lexeme::Token(TokenKind::Float), s) {
        let d = choose|d: int|
            0 <= d < s.len() && #[trigger] s[d] == 0x2e && (d == 0 || number(s.subrange(0, d)))
                && fraction(s.subrange(d + 1, s.len() as int));
        lemma_not_int(s, d);
        let t = s.subrange(d + 1, s.len() as int);
        lemma_fraction_first(t);
        assert(t[0] == s[d + 1]);
        if d > 0 {
            assert(s.subrange(0, d)[0] == s[0]);
        }
    }
    if forms(Lexeme::Token(TokenKind::FStr), s) {
        assert(s.subrange(1, s.len() as int)[0] == s[1]);
    }
    if identifier_text(s) && s.len() == 4 {
        assert(is_word_char(s[3]));
    }
    if forms(Lexeme::Newline, s) && forms(Lexeme::TabIndent, s) {
        let blanks = choose|blanks: int| #[trigger] line_start(s, blanks, 0);
        assert(line_start(s, blanks, 0));
        assert(s[s.len() - 1] == 0x0a || s[s.len() - 1] == 0x20);
    }
}

proof fn lemma_fraction_first(s: Seq<u8>)
    requires
        fraction(s),
    ensures
        s.len() > 0,
        is_digit(s[0]),
{
    if !number(s) {
        let k = choose|k: int|
            0 < k < s.len() && is_exponent_mark(#[trigger] s[k]) && number(s.subrange(0, k))
                && signed_number(s.subrange(k + 1, s.len() as int));
        assert(s.subrange(0, k)[0] == s[0]);
    }
}

/// An integer literal holds no point.
proof fn lemma_not_int(s: Seq<u8>, d: int)
    requires
        0 <= d < s.len(),
        s[d] == 0x2e,
    ensures
        !int_text(s),
{
    if scientific_int(s) {
        let k = choose|k: int|
            0 < k < s.len() && is_exponent_mark(#[trigger] s[k]) && digits(s.subrange(0, k))
                && digits(s.subrange(k + 1, s.len() as int));
        if d < k {
            assert(s.subrange(0, k)[d] == s[d]);
        } else {
            assert(s.subrange(k + 1, s.len() as int)[d - k - 1] == s[d]);
        }
    }
}

// ---------------------------------------------------------------------------
// The scanner
// ---------------------------------------------------------------------------

/// Scans at a digit or a point.
fn scan_number(b: &[u8], pos: usize) -> (found: (Lexeme, usize))
    requires
        pos < b.len() < 0xffff_ffff,
        is_digit(b[pos as int]) || b[pos as int] == 0x2e,
    ensures
        is_longest_match(b@, pos as int, found.0, found.1 as int),
{
    proof {
        lemma_starts_at(b@, pos as int);
    }
    let float: Option<usize> = float_end(b, pos);
    if b[pos] == 0x2e {
        if let Some(end) = float {
            proof {
                let s = b@.subrange(pos as int, end as int);
                assert(forms(Lexeme::Token(TokenKind::Float), s));
                assert forall|other: Lexeme, f: int| end < f <= b.len() implies !#[trigger] forms(
                    other,
                    b@.subrange(pos as int, f),
                ) by {
                    let d = choose|d: int|
                        0 <= d < s.len() && #[trigger] s[d] == 0x2e && (d == 0 || number(
                            s.subrange(0, d),
                        )) && fraction(s.subrange(d + 1, s.len() as int));
                    if d > 0 {
                        assert(s.subrange(0, d)[0] == b@[pos as int]);
                    }
                    let t = s.subrange(1, s.len() as int);
                    lemma_fraction_first(t);
                    assert(t[0] == b@[pos + 1]);
                    let u = b@.subrange(pos as int, f);
                    assert(u[1] == b@[pos + 1]);
                }
            }
            return (Lexeme::Token(TokenKind::Float), end);
        }
        let (kind, end): (TokenKind, usize) = if pos + 1 < b.len() && b[pos + 1] == 0x2e {
            if pos + 2 < b.len() && b[pos + 2] == 0x3c {
                (TokenKind::DotDotLt, pos + 3)
            } else if pos + 2 < b.len() && b[pos + 2] == 0x3e {
                (TokenKind::DotDotGt, pos + 3)
            } else {
                (TokenKind::DotDot, pos + 2)
            }
        } else {
            (TokenKind::Dot, pos + 1)
        };
        proof {
            assert forall|other: Lexeme, f: int| end < f <= b.len() implies !#[trigger] forms(
                other,
                b@.subrange(pos as int, f),
            ) by {
                let u = b@.subrange(pos as int, f);
                assert(!float_text(u));
                if f >= pos + 2 {
                    assert(u[1] == b@[pos + 1]);
                }
                if f >= pos + 3 {
                    assert(u[2] == b@[pos + 2]);
                }
            }
        }
        return (Lexeme::Token(kind), end);
    }
    let whole: usize = int_end(b, pos);
    proof {
        assert forall|f: int| pos <= f <= b.len() implies #[trigger] forms(
            Lexeme::Token(TokenKind::Int),
            b@.subrange(pos as int, f),
        ) == int_text(b@.subrange(pos as int, f)) by {}
        assert forall|f: int| pos <= f <= b.len() implies #[trigger] forms(
            Lexeme::Token(TokenKind::Float),
            b@.subrange(pos as int, f),
        ) == float_text(b@.subrange(pos as int, f)) by {}
    }
    if let Some(end) = float {
        if end > whole {
            return (Lexeme::Token(TokenKind::Float), end);
        }
        proof {
            if end == whole {
                lexemes_are_disjoint(
                    Lexeme::Token(TokenKind::Float),
                    Lexeme::Token(TokenKind::Int),
                    b@.subrange(pos as int, end as int),
                );
            }
        }
    }
    (Lexeme::Token(TokenKind::Int), whole)
}

/// The end of the quoted text whose opening quote stands at `pos`, if it is closed.
fn quoted_end(b: &[u8], pos: usize) -> (end: Option<usize>)
    requires
        pos < b.len() < 0xffff_ffff,
        is_quote(b[pos as int]),
    ensures
        end matches Some(e) ==> {
            &&& pos < e <= b.len()
            &&& quoted(b@.subrange(pos as int, e as int))
            &&& forall|f: int| e < f <= b.len() ==> !#[trigger] quoted(b@.subrange(pos as int, f))
        },
        end is None ==> forall|f: int|
            pos <= f <= b.len() ==> !#[trigger] quoted(b@.subrange(pos as int, f)),
{
    let quote: u8 = b[pos];
    let mut close: usize = pos + 1;
    while close < b.len() && b[close] != quote
        invariant
            pos < close <= b.len() < 0xffff_ffff,
            quote == b@[pos as int],
            forall|i: int| pos < i < close ==> #[trigger] b@[i] != quote,
        decreases b.len() - close,
    {
        close = close + 1;
    }
    if close == b.len() {
        proof {
            assert forall|f: int| pos <= f <= b.len() implies !#[trigger] quoted(
                b@.subrange(pos as int, f),
            ) by {
                let s = b@.subrange(pos as int, f);
                if quoted(s) {
                    assert(s[s.len() - 1] == b@[f - 1]);
                    assert(s[0] == b@[pos as int]);
                }
            }
        }
        return None;
    }
    proof {
        let s = b@.subrange(pos as int, close + 1);
        assert(s[s.len() - 1] == b@[close as int]);
        assert(s[0] == b@[pos as int]);
        assert(quoted(s));
        assert forall|f: int| close + 1 < f <= b.len() implies !#[trigger] quoted(
            b@.subrange(pos as int, f),
        ) by {
            let t = b@.subrange(pos as int, f);
            assert(t[close - pos] == b@[close as int]);
            assert(t[0] == b@[pos as int]);
        }
    }
    Some(close + 1)
}

fn is_letter_at(b: &[u8], i: usize) -> (r: bool)
    ensures
        r == (i < b.len() && is_letter(b[i as int])),
{
    i < b.len() && ((0x61 <= b[i] && b[i] <= 0x7a) || (0x41 <= b[i] && b[i] <= 0x5a))
}

/// Scans at a letter or `_`.
fn scan_word(b: &[u8], pos: usize) -> (found: (Lexeme, usize))
    requires
        pos < b.len() < 0xffff_ffff,
        is_letter(b[pos as int]) || b[pos as int] == 0x5f,
    ensures
        is_longest_match(b@, pos as int, found.0, found.1 as int),
{
    proof {
        lemma_starts_at(b@, pos as int);
    }
    if b[pos] == 0x66 && pos + 1 < b.len() && (b[pos + 1] == 0x27 || b[pos + 1] == 0x22) {
        if let Some(end) = quoted_end(b, pos + 1) {
            proof {
                let s = b@.subrange(pos as int, end as int);
                assert(s.subrange(1, s.len() as int) =~= b@.subrange(pos + 1, end as int));
                assert(s[0] == 0x66);
                assert(forms(Lexeme::Token(TokenKind::FStr), s));
                assert forall|other: Lexeme, f: int| end < f <= b.len() implies !#[trigger] forms(
                    other,
                    b@.subrange(pos as int, f),
                ) by {
                    let u = b@.subrange(pos as int, f);
                    assert(u.subrange(1, u.len() as int) =~= b@.subrange(pos + 1, f));
                    assert(u[1] == b@[pos + 1]);
                }
            }
            return (Lexeme::Token(TokenKind::FStr), end);
        }
    }
    proof {
        assert forall|f: int| pos <= f <= b.len() implies !#[trigger] forms(
            Lexeme::Token(TokenKind::FStr),
            b@.subrange(pos as int, f),
        ) by {
            let u = b@.subrange(pos as int, f);
            if forms(Lexeme::Token(TokenKind::FStr), u) {
                let v = u.subrange(1, u.len() as int);
                assert(v =~= b@.subrange(pos + 1, f));
                assert(v[0] == b@[pos + 1]);
            }
        }
    }
    let mut head: usize = pos;
    while head < b.len() && b[head] == 0x5f
        invariant
            pos <= head <= b.len() < 0xffff_ffff,
            forall|i: int| pos <= i < head ==> #[trigger] b@[i] == 0x5f,
        decreases b.len() - head,
    {
        head = head + 1;
    }
    if !is_letter_at(b, head) {
        proof {
            let s = b@.subrange(pos as int, pos + 1);
            assert(is1(s, 0x5f));
            assert(forms(Lexeme::Token(TokenKind::Underscore), s));
            assert forall|other: Lexeme, f: int| pos + 1 < f <= b.len() implies !#[trigger] forms(
                other,
                b@.subrange(pos as int, f),
            ) by {
                let u = b@.subrange(pos as int, f);
                if identifier_text(u) {
                    let k = choose|k: int|
                        0 <= k < u.len() && is_letter(#[trigger] u[k]) && forall|i: int|
                            0 <= i < k ==> #[trigger] u[i] == 0x5f;
                    assert(u[k] == b@[pos + k]);
                    if pos + k > head {
                        assert(u[head - pos] == b@[head as int]);
                    }
                }
            }
        }
        return (Lexeme::Token(TokenKind::Underscore), pos + 1);
    }
    let mut end: usize = head + 1;
    while end < b.len() && (is_letter_at(b, end) || is_digit_at(b, end) || b[end] == 0x5f)
        invariant
            pos <= head < end <= b.len() < 0xffff_ffff,
            is_letter(b@[head as int]),
            forall|i: int| pos <= i < end ==> is_word_char(#[trigger] b@[i]),
        decreases b.len() - end,
    {
        end = end + 1;
    }
    proof {
        let s = b@.subrange(pos as int, end as int);
        assert(is_letter(s[head - pos]));
        assert forall|i: int| 0 <= i < s.len() implies is_word_char(#[trigger] s[i]) by {
            assert(s[i] == b@[pos + i]);
        }
        assert(identifier_text(s));
        assert(forms(Lexeme::Token(TokenKind::Identifier), s));
        assert forall|f: int| end < f <= b.len() implies !#[trigger] identifier_text(
            b@.subrange(pos as int, f),
        ) by {
            let u = b@.subrange(pos as int, f);
            assert(u[end - pos] == b@[end as int]);
        }
    }
    // `div=` and `mod=` are one token each, when nothing stands between word and sign.
    if end - pos == 3 && end < b.len() && b[end] == 0x3d {
        if b[pos] == 0x64 && b[pos + 1] == 0x69 && b[pos + 2] == 0x76 {
            assert(forms(
                Lexeme::Token(TokenKind::DivEq),
                b@.subrange(pos as int, end + 1),
            ));
            return (Lexeme::Token(TokenKind::DivEq), end + 1);
        }
        if b[pos] == 0x6d && b[pos + 1] == 0x6f && b[pos + 2] == 0x64 {
            assert(forms(
                Lexeme::Token(TokenKind::ModEq),
                b@.subrange(pos as int, end + 1),
            ));
            return (Lexeme::Token(TokenKind::ModEq), end + 1);
        }
    }
    proof {
        assert forall|other: Lexeme, f: int| end < f <= b.len() implies !#[trigger] forms(
            other,
            b@.subrange(pos as int, f),
        ) by {
            let u = b@.subrange(pos as int, f);
            assert(!identifier_text(u));
            if f == pos + 4 {
                assert(u[0] == b@[pos as int] && u[1] == b@[pos + 1] && u[2] == b@[pos + 2] && u[3]
                    == b@[pos + 3]);
                if u[3] == 0x3d && is_letter(u[0]) && is_letter(u[1]) && is_letter(u[2]) {
                    assert(head == pos);
                    assert(end == pos + 3);
                }
            }
        }
    }
    (Lexeme::Token(TokenKind::Identifier), end)
}

/// Scans at a line feed, or at a carriage return with a line feed behind it.
fn scan_line_end(b: &[u8], pos: usize) -> (found: (Lexeme, usize))
    requires
        pos < b.len() < 0xffff_ffff,
        b[pos as int] == 0x0a || (b[pos as int] == 0x0d && pos + 1 < b.len() && b[pos + 1] == 0x0a),
    ensures
        is_longest_match(b@, pos as int, found.0, found.1 as int),
        found.0 == Lexeme::Newline || found.0 == Lexeme::TabIndent,
{
    proof {
        lemma_starts_at(b@, pos as int);
    }
    let feed: usize = if b[pos] == 0x0d { pos + 1 } else { pos };
    let mut end: usize = feed + 1;
    while end < b.len() && b[end] == 0x20
        invariant
            pos <= feed < end <= b.len() < 0xffff_ffff,
            forall|i: int| feed < i < end ==> #[trigger] b@[i] == 0x20,
        decreases b.len() - end,
    {
        end = end + 1;
    }
    proof {
        assert forall|f: int, blanks: int, rest: int| end < f <= b.len() && 0 <= rest <= 1
            && #[trigger] line_start(b@.subrange(pos as int, f), blanks, rest) implies rest == 1
            && f == end + 1 by {
            let u = b@.subrange(pos as int, f);
            assert(u[0] == b@[pos as int]);
            assert(u[end - pos] == b@[end as int]);
        }
    }
    if end < b.len() && b[end] == 0x09 {
        proof {
            let s = b@.subrange(pos as int, end + 1);
            assert(s[0] == b@[pos as int]);
            assert(s[feed - pos] == b@[feed as int]);
            assert(line_start(s, end - feed - 1, 1));
            assert(s[s.len() - 1] == b@[end as int]);
            assert(forms(Lexeme::TabIndent, s));
            assert forall|other: Lexeme, f: int| end + 1 < f <= b.len() implies !#[trigger] forms(
                other,
                b@.subrange(pos as int, f),
            ) by {}
        }
        return (Lexeme::TabIndent, end + 1);
    }
    proof {
        let s = b@.subrange(pos as int, end as int);
        assert(s[0] == b@[pos as int]);
        assert(s[feed - pos] == b@[feed as int]);
        assert(line_start(s, end - feed - 1, 0));
        assert(forms(Lexeme::Newline, s));
        assert forall|other: Lexeme, f: int| end < f <= b.len() implies !#[trigger] forms(
            other,
            b@.subrange(pos as int, f),
        ) by {
            let u = b@.subrange(pos as int, f);
            assert(u[u.len() - 1] == b@[f - 1]);
        }
    }
    (Lexeme::Newline, end)
}

/// Scans at a blank or a `#`.
fn scan_trivia(b: &[u8], pos: usize) -> (found: (Lexeme, usize))
    requires
        pos < b.len() < 0xffff_ffff,
        is_blank(b[pos as int]) || b[pos as int] == 0x23,
    ensures
        is_longest_match(b@, pos as int, found.0, found.1 as int),
{
    proof {
        lemma_starts_at(b@, pos as int);
    }
    let comment: bool = b[pos] == 0x23;
    let mut end: usize = pos + 1;
    while end < b.len() && ((comment && b[end] != 0x0a) || (!comment && (b[end] == 0x20 || b[end]
        == 0x09)))
        invariant
            pos < end <= b.len() < 0xffff_ffff,
            comment == (b@[pos as int] == 0x23),
            comment ==> forall|i: int| pos < i < end ==> #[trigger] b@[i] != 0x0a,
            !comment ==> forall|i: int| pos <= i < end ==> is_blank(#[trigger] b@[i]),
        decreases b.len() - end,
    {
        end = end + 1;
    }
    let lexeme: Lexeme = if comment { Lexeme::Comment } else { Lexeme::Space };
    proof {
        assert(forms(lexeme, b@.subrange(pos as int, end as int)));
        assert forall|other: Lexeme, f: int| end < f <= b.len() implies !#[trigger] forms(
            other,
            b@.subrange(pos as int, f),
        ) by {
            let u = b@.subrange(pos as int, f);
            assert(u[end - pos] == b@[end as int]);
        }
    }
    (lexeme, end)
}

/// The operator or punctuation mark at `pos`, if there is one, by its first two bytes.
fn scan_operator(b: &[u8], pos: usize) -> (found: Option<(Lexeme, usize)>)
    requires
        pos < b.len() < 0xffff_ffff,
        !is_digit(b[pos as int]) && !is_letter(b[pos as int]) && !is_quote(b[pos as int]),
        !is_blank(b[pos as int]) && b[pos as int] != 0x23 && b[pos as int] != 0x2e,
        b[pos as int] != 0x5f && b[pos as int] != 0x0a,
        !(b[pos as int] == 0x0d && pos + 1 < b.len() && b[pos + 1] == 0x0a),
    ensures
        match found {
            Some((lexeme, end)) => is_longest_match(b@, pos as int, lexeme, end as int),
            None => no_match(b@, pos as int),
        },
{
    proof {
        lemma_starts_at(b@, pos as int);
    }
    let c: u8 = b[pos];
    let equal: bool = pos + 1 < b.len() && b[pos + 1] == 0x3d;
    let (single, double): (Option<TokenKind>, Option<TokenKind>) = match c {
        0x2b => (Some(TokenKind::Plus), Some(TokenKind::PlusEq)),
        0x2d => (Some(TokenKind::Minus), Some(TokenKind::MinusEq)),
        0x2a => (Some(TokenKind::Star), Some(TokenKind::StarEq)),
        0x2f => (Some(TokenKind::Slash), Some(TokenKind::SlashEq)),
        0x5e => (Some(TokenKind::Caret), Some(TokenKind::CaretEq)),
        0x3d => (Some(TokenKind::Equal), Some(TokenKind::EqEq)),
        0x21 => (None, Some(TokenKind::Ne)),
        0x3c => (Some(TokenKind::Lt), Some(TokenKind::Le)),
        0x3e => (Some(TokenKind::Gt), Some(TokenKind::Ge)),
        0x28 => (Some(TokenKind::LParen), None),
        0x29 => (Some(TokenKind::RParen), None),
        0x5b => (Some(TokenKind::LBracket), None),
        0x5d => (Some(TokenKind::RBracket), None),
        0x2c => (Some(TokenKind::Comma), None),
        0x3b => (Some(TokenKind::Semicolon), None),
        0x3a => (Some(TokenKind::Colon), None),
        _ => (None, None),
    };
    if c == 0x3a && pos + 1 < b.len() && b[pos + 1] == 0x3a {
        assert(forms(Lexeme::Token(TokenKind::ColonColon), b@.subrange(pos as int, pos + 2)));
        return Some((Lexeme::Token(TokenKind::ColonColon), pos + 2));
    }
    proof {
        assert forall|other: Lexeme, f: int| pos + 1 < f <= b.len() && #[trigger] forms(
            other,
            b@.subrange(pos as int, f),
        ) implies equal && f == pos + 2 && double == Some(other->Token_0) && other is Token by {
            let u = b@.subrange(pos as int, f);
            assert(u[0] == b@[pos as int] && u[1] == b@[pos + 1]);
            if other is Newline || other is TabIndent {
                assert(u[0] == 0x0d);
                assert(u[1] == 0x0a);
            }
        }
        assert forall|other: Lexeme| #[trigger] forms(
            other,
            b@.subrange(pos as int, pos + 1),
        ) implies single == Some(other->Token_0) && other is Token by {
            let u = b@.subrange(pos as int, pos + 1);
            assert(u[0] == b@[pos as int]);
        }
    }
    if equal {
        if let Some(kind) = double {
            proof {
                let u = b@.subrange(pos as int, pos + 2);
                assert(u[0] == b@[pos as int] && u[1] == b@[pos + 1]);
                assert(forms(Lexeme::Token(kind), u));
            }
            return Some((Lexeme::Token(kind), pos + 2));
        }
    }
    match single {
        Some(kind) => {
            proof {
                let u = b@.subrange(pos as int, pos + 1);
                assert(u[0] == b@[pos as int]);
                assert(forms(Lexeme::Token(kind), u));
            }
            Some((Lexeme::Token(kind), pos + 1))
        },
        None => None,
    }
}

/// The longest lexeme at `pos`, or `None` when nothing matches there.
pub fn next_lexeme(b: &[u8], pos: usize) -> (found: Option<(Lexeme, usize)>)
    requires
        pos < b.len() < 0xffff_ffff,
    ensures
        match found {
            Some((lexeme, end)) => is_longest_match(b@, pos as int, lexeme, end as int),
            None => no_match(b@, pos as int),
        },
{
    let c: u8 = b[pos];
    if is_digit_at(b, pos) || c == 0x2e {
        Some(scan_number(b, pos))
    } else if is_letter_at(b, pos) || c == 0x5f {
        Some(scan_word(b, pos))
    } else if c == 0x20 || c == 0x09 || c == 0x23 {
        Some(scan_trivia(b, pos))
    } else if c == 0x0a || (c == 0x0d && pos + 1 < b.len() && b[pos + 1] == 0x0a) {
        Some(scan_line_end(b, pos))
    } else if c == 0x27 || c == 0x22 {
        proof {
            lemma_starts_at(b@, pos as int);
            assert forall|other: Lexeme, f: int| pos <= f <= b.len() && #[trigger] forms(
                other,
                b@.subrange(pos as int, f),
            ) implies other == Lexeme::Token(TokenKind::Str) && quoted(b@.subrange(pos as int, f)) by {}
        }
        match quoted_end(b, pos) {
            Some(end) => {
                assert(forms(
                    Lexeme::Token(TokenKind::Str),
                    b@.subrange(pos as int, end as int),
                ));
                Some((Lexeme::Token(TokenKind::Str), end))
            },
            None => None,
        }
    } else {
        scan_operator(b, pos)
    }
}

} // verus!
