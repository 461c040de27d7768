//! Line ends: a source reads the same whether its lines end in `\n` or in `\r\n`.

use crate::lexeme::{
    digits, forms, fraction, grouped, is_exponent_mark, is_longest_match,
    lexemes_are_disjoint, line_start, number, quoted, scientific_int, signed_number, token_matches,
    Lexeme,
};
use crate::lexer::{
    close_blocks, content_token, ended, feeds_before, flushed, initial_state, layout_token,
    lemma_feeds_prefix, lemma_lexeme_at, lex_run, lex_step, lexed, lexeme_at, LexState, TokenKind,
    TokenView,
};
use crate::token_stream::lemma_found_lexeme;
use vstd::prelude::*;

verus! {

/// A source with a carriage return before every line feed.
pub open spec fn with_returns(b: Seq<u8>) -> Seq<u8>
    decreases b.len(),
{
    if b.len() == 0 {
        Seq::empty()
    } else if b.last() == 0x0a {
        with_returns(b.drop_last()).push(0x0d).push(0x0a)
    } else {
        with_returns(b.drop_last()).push(b.last())
    }
}

/// Where the byte at `i` stands once the carriage returns are in.
#[verifier::opaque]
spec fn at(b: Seq<u8>, i: int) -> int {
    i + feeds_before(b, i)
}

spec fn no_returns(b: Seq<u8>) -> bool {
    forall|i: int| 0 <= i < b.len() ==> #[trigger] b[i] != 0x0d
}

/// `c` is `b` with the carriage returns in.
spec fn widened(b: Seq<u8>, c: Seq<u8>) -> bool {
    &&& no_returns(b)
    &&& c.len() == at(b, b.len() as int)
    &&& forall|i: int|
        0 <= i < b.len() ==> if #[trigger] b[i] == 0x0a {
            c[at(b, i)] == 0x0d && c[at(b, i) + 1] == 0x0a
        } else {
            c[at(b, i)] == b[i]
        }
}

proof fn lemma_widened(b: Seq<u8>)
    requires
        no_returns(b),
    ensures
        widened(b, with_returns(b)),
    decreases b.len(),
{
    lemma_at_grows(b, 0, 0);
    if b.len() > 0 {
        let head = b.drop_last();
        let c = with_returns(b);
        assert forall|i: int| 0 <= i < head.len() implies #[trigger] head[i] != 0x0d by {
            assert(b[i] == head[i]);
        }
        lemma_widened(head);
        lemma_at_prefix(b, head, head.len() as int);
        lemma_at_grows(b, head.len() as int, b.len() as int);
        assert forall|i: int| 0 <= i < b.len() implies if #[trigger] b[i] == 0x0a {
            c[at(b, i)] == 0x0d && c[at(b, i) + 1] == 0x0a
        } else {
            c[at(b, i)] == b[i]
        } by {
            lemma_at_prefix(b, head, i);
            if i < head.len() {
                assert(b[i] == head[i]);
                lemma_at_grows(head, i, head.len() as int);
                lemma_at_grows(head, i, i + 1);
                lemma_at_grows(head, i + 1, head.len() as int);
                assert(c[at(head, i)] == with_returns(head)[at(head, i)]);
                if b[i] == 0x0a {
                    assert(c[at(head, i) + 1] == with_returns(head)[at(head, i) + 1]);
                }
            }
        }
    }
}

proof fn lemma_at_prefix(b: Seq<u8>, head: Seq<u8>, i: int)
    requires
        head == b.drop_last(),
        i <= head.len(),
        b.len() > 0,
    ensures
        at(b, i) == at(head, i),
{
    reveal(at);
    lemma_feeds_prefix(b, head, i);
}

proof fn lemma_at_grows(b: Seq<u8>, i: int, k: int)
    requires
        0 <= i <= k,
    ensures
        at(b, 0) == 0,
        at(b, i) >= i,
        at(b, k) >= k,
        at(b, k) - at(b, i) >= k - i,
        k == i + 1 ==> at(b, k) == at(b, i) + if b[i] == 0x0a {
            2int
        } else {
            1int
        },
    decreases k - i,
{
    reveal(at);
    if k > i + 1 {
        lemma_at_grows(b, i, k - 1);
        lemma_at_grows(b, k - 1, k);
    }
}

/// A stretch without line feeds is the same stretch.
proof fn lemma_same_stretch(b: Seq<u8>, c: Seq<u8>, i: int, k: int)
    requires
        widened(b, c),
        0 <= i <= k <= b.len(),
        forall|x: int| i <= x < k ==> #[trigger] b[x] != 0x0a,
    ensures
        at(b, k) - at(b, i) == k - i,
        at(b, k) <= c.len(),
        forall|x: int| i <= x < k ==> #[trigger] b[x] == c[at(b, i) + x - i],
        c.subrange(at(b, i), at(b, k)) == b.subrange(i, k),
    decreases k - i,
{
    lemma_at_grows(b, k, b.len() as int);
    lemma_at_grows(b, i, k);
    if k > i {
        lemma_same_stretch(b, c, i, k - 1);
        lemma_at_grows(b, k - 1, k);
        assert(c[at(b, k - 1)] == b[k - 1]);
    }
    assert(c.subrange(at(b, i), at(b, k)) =~= b.subrange(i, k));
}

/// Every offset of the wider source belongs to a byte, or stands between a carriage return and its
/// line feed.
proof fn lemma_back(b: Seq<u8>, c: Seq<u8>, from: int, y: int) -> (k: int)
    requires
        widened(b, c),
        0 <= from <= b.len(),
        at(b, from) <= y <= c.len(),
    ensures
        from <= k <= b.len(),
        at(b, k) == y || (k < b.len() && b[k] == 0x0a && at(b, k) + 1 == y),
    decreases b.len() - from,
{
    if at(b, from) == y || from == b.len() {
        from
    } else {
        lemma_at_grows(b, from, from + 1);
        if at(b, from + 1) <= y {
            lemma_back(b, c, from + 1, y)
        } else {
            from
        }
    }
}

/// No text but that of a string holds a byte of a line end.
proof fn lemma_no_line_bytes(kind: TokenKind, s: Seq<u8>, j: int)
    requires
        token_matches(kind, s),
        kind != TokenKind::Str,
        kind != TokenKind::FStr,
        0 <= j < s.len(),
    ensures
        s[j] != 0x0a,
        s[j] != 0x0d,
{
    match kind {
        TokenKind::Int => {
            if scientific_int(s) {
                let k = choose|k: int|
                    0 < k < s.len() && is_exponent_mark(#[trigger] s[k]) && digits(s.subrange(0, k))
                        && digits(s.subrange(k + 1, s.len() as int));
                if j < k {
                    assert(s.subrange(0, k)[j] == s[j]);
                } else if j > k {
                    assert(s.subrange(k + 1, s.len() as int)[j - k - 1] == s[j]);
                }
            } else if digits(s) || grouped(s) {
                lemma_number_bytes(s, j);
            } else {
                assert(j >= 2 ==> s[j] == s[j]);
            }
        },
        TokenKind::Float => {
            let d = choose|d: int|
                0 <= d < s.len() && #[trigger] s[d] == 0x2e && (d == 0 || number(s.subrange(0, d)))
                    && fraction(s.subrange(d + 1, s.len() as int));
            if j < d {
                lemma_number_bytes(s.subrange(0, d), j);
            } else if j > d {
                lemma_fraction_bytes(s.subrange(d + 1, s.len() as int), j - d - 1);
            }
        },
        _ => {},
    }
}

proof fn lemma_number_bytes(s: Seq<u8>, j: int)
    requires
        number(s),
        0 <= j < s.len(),
    ensures
        s[j] != 0x0a,
        s[j] != 0x0d,
{
    assert(s[j] == s[j]);
}

proof fn lemma_fraction_bytes(s: Seq<u8>, j: int)
    requires
        fraction(s),
        0 <= j < s.len(),
    ensures
        s[j] != 0x0a,
        s[j] != 0x0d,
{
    if number(s) {
        lemma_number_bytes(s, j);
    } else {
        let k = choose|k: int|
            0 < k < s.len() && is_exponent_mark(#[trigger] s[k]) && number(s.subrange(0, k))
                && signed_number(s.subrange(k + 1, s.len() as int));
        if j < k {
            lemma_number_bytes(s.subrange(0, k), j);
        } else if j > k {
            let t = s.subrange(k + 1, s.len() as int);
            assert(t[j - k - 1] == s[j]);
            if number(t) {
                lemma_number_bytes(t, j - k - 1);
            } else if j - k - 1 > 0 {
                let u = t.subrange(1, t.len() as int);
                assert(u[j - k - 2] == t[j - k - 1]);
                lemma_number_bytes(u, j - k - 2);
            }
        }
    }
}

/// What is between two quotes stays between them.
proof fn lemma_quoted_same(b: Seq<u8>, c: Seq<u8>, i: int, k: int)
    requires
        widened(b, c),
        0 <= i < k <= b.len(),
    ensures
        quoted(b.subrange(i, k)) == quoted(c.subrange(at(b, i), at(b, k))),
{
    let s = b.subrange(i, k);
    let t = c.subrange(at(b, i), at(b, k));
    lemma_at_grows(b, i, k);
    lemma_at_grows(b, k - 1, k);
    lemma_at_grows(b, i, k - 1);
    lemma_at_grows(b, k, b.len() as int);
    assert(s[0] == b[i] && s[s.len() - 1] == b[k - 1]);
    assert(t[0] == c[at(b, i)]);
    assert(t[t.len() - 1] == c[at(b, k) - 1]);
    if quoted(s) {
        assert forall|y: int| 0 < y < t.len() - 1 implies #[trigger] t[y] != t[0] by {
            let x = lemma_back(b, c, i, at(b, i) + y);
            if x >= k {
                lemma_at_grows(b, k, x);
            }
            if x == i {
                assert(b[i] != 0x0a);
            }
            if x == k - 1 {
                assert(b[k - 1] != 0x0a);
            }
            assert(s[x - i] == b[x]);
        }
    }
    if quoted(t) {
        assert(b[i] != 0x0a);
        assert(b[k - 1] != 0x0a);
        assert forall|x: int| 0 < x < s.len() - 1 implies #[trigger] s[x] != s[0] by {
            assert(s[x] == b[i + x]);
            lemma_at_grows(b, i, i + x);
            lemma_at_grows(b, i + x, k - 1);
            if b[i + x] != 0x0a {
                assert(t[at(b, i + x) - at(b, i)] == b[i + x]);
            }
        }
        assert(k > i + 1) by {
            if k == i + 1 {
                assert(at(b, k) == at(b, i) + 1);
            }
        }
    }
}

/// A line end with the blanks behind it, and `rest` bytes more that are no line end.
proof fn lemma_line_same(b: Seq<u8>, c: Seq<u8>, i: int, k: int, blanks: int, rest: int)
    requires
        widened(b, c),
        0 <= i < k <= b.len(),
        rest == 0 || rest == 1,
        rest == 1 ==> b[k - 1] != 0x0a,
    ensures
        line_start(b.subrange(i, k), blanks, rest) == line_start(
            c.subrange(at(b, i), at(b, k)),
            blanks,
            rest,
        ),
{
    let s = b.subrange(i, k);
    let t = c.subrange(at(b, i), at(b, k));
    lemma_at_grows(b, i, k);
    lemma_at_grows(b, i, i + 1);
    lemma_at_grows(b, i + 1, k);
    lemma_at_grows(b, k, b.len() as int);
    assert(s[0] == b[i] && b[i] != 0x0d);
    assert(t[0] == c[at(b, i)]);
    if line_start(s, blanks, rest) {
        assert(b[i] == 0x0a);
        assert forall|x: int| i + 1 <= x < k implies #[trigger] b[x] != 0x0a by {
            assert(s[x - i] == b[x]);
        }
        lemma_same_stretch(b, c, i + 1, k);
        assert(t[1] == 0x0a);
        assert forall|y: int| 1 < y < 1 + 1 + blanks implies #[trigger] t[y] == 0x20 by {
            assert(t[y] == c[at(b, i + 1) + (i + y - 1) - (i + 1)]);
            assert(b[i + y - 1] == s[y - 1]);
        }
    }
    if line_start(t, blanks, rest) {
        assert(b[i] == 0x0a);
        assert forall|x: int| i + 1 <= x < k implies #[trigger] b[x] != 0x0a by {
            if b[x] == 0x0a {
                lemma_at_grows(b, i + 1, x);
                lemma_at_grows(b, x, x + 1);
                lemma_at_grows(b, x + 1, k);
                assert(t[at(b, x) - at(b, i)] == 0x0d);
                assert(t[at(b, x) + 1 - at(b, i)] == 0x0a);
            }
        }
        lemma_same_stretch(b, c, i + 1, k);
        assert forall|x: int| 0 < x < 1 + blanks implies #[trigger] s[x] == 0x20 by {
            assert(s[x] == b[i + x]);
            assert(t[x + 1] == c[at(b, i + 1) + (i + x) - (i + 1)]);
        }
    }
}

/// A whole stretch forms the same lexemes.
proof fn lemma_forms_same(b: Seq<u8>, c: Seq<u8>, lexeme: Lexeme, i: int, k: int)
    requires
        widened(b, c),
        0 <= i < k <= b.len(),
    ensures
        forms(lexeme, b.subrange(i, k)) == forms(lexeme, c.subrange(at(b, i), at(b, k))),
{
    let s = b.subrange(i, k);
    let t = c.subrange(at(b, i), at(b, k));
    lemma_at_grows(b, i, k);
    lemma_at_grows(b, k, b.len() as int);
    assert(s[0] == b[i]);
    assert(t[0] == c[at(b, i)]);
    if forall|x: int| i <= x < k ==> #[trigger] b[x] != 0x0a {
        lemma_same_stretch(b, c, i, k);
    } else {
        let x = choose|x: int| i <= x < k && #[trigger] b[x] == 0x0a;
        lemma_at_grows(b, i, x);
        lemma_at_grows(b, x, x + 1);
        lemma_at_grows(b, x + 1, k);
        let y = at(b, x) - at(b, i);
        assert(s[x - i] == 0x0a);
        assert(t[y] == 0x0d && t[y + 1] == 0x0a);
        match lexeme {
            Lexeme::Space => {},
            Lexeme::Comment => {
                assert(forms(lexeme, s) ==> x - i == 0);
            },
            Lexeme::Newline => {
                assert forall|blanks: int|
                    #![trigger line_start(s, blanks, 0)]
                    #![trigger line_start(t, blanks, 0)]
                    line_start(s, blanks, 0) == line_start(t, blanks, 0) by {
                    lemma_line_same(b, c, i, k, blanks, 0);
                }
            },
            Lexeme::TabIndent => {
                lemma_at_grows(b, k - 1, k);
                assert(s[s.len() - 1] == b[k - 1]);
                assert(t[t.len() - 1] == c[at(b, k) - 1]);
                if b[k - 1] != 0x0a {
                    assert forall|blanks: int|
                        #![trigger line_start(s, blanks, 1)]
                        #![trigger line_start(t, blanks, 1)]
                        line_start(s, blanks, 1) == line_start(t, blanks, 1) by {
                        lemma_line_same(b, c, i, k, blanks, 1);
                    }
                }
            },
            Lexeme::Token(kind) => {
                if kind == TokenKind::Str {
                    lemma_quoted_same(b, c, i, k);
                } else if kind == TokenKind::FStr {
                    if b[i] == 0x66 {
                        lemma_at_grows(b, i, i + 1);
                        assert(s.subrange(1, s.len() as int) =~= b.subrange(i + 1, k));
                        assert(t.subrange(1, t.len() as int) =~= c.subrange(
                            at(b, i + 1),
                            at(b, k),
                        ));
                        lemma_quoted_same(b, c, i + 1, k);
                    }
                } else {
                    if token_matches(kind, s) {
                        lemma_no_line_bytes(kind, s, x - i);
                    }
                    if token_matches(kind, t) {
                        lemma_no_line_bytes(kind, t, y);
                    }
                }
            },
        }
    }
}

/// A stretch that is cut off behind a carriage return is a comment, or nothing.
proof fn lemma_cut(b: Seq<u8>, c: Seq<u8>, lexeme: Lexeme, i: int, k: int)
    requires
        widened(b, c),
        0 <= i <= k < b.len(),
        b[k] == 0x0a,
    ensures
        forms(lexeme, c.subrange(at(b, i), at(b, k) + 1)) == (lexeme is Comment && k > i && forms(
            Lexeme::Comment,
            b.subrange(i, k),
        )),
{
    let u = c.subrange(at(b, i), at(b, k) + 1);
    lemma_at_grows(b, i, k);
    lemma_at_grows(b, k, k + 1);
    lemma_at_grows(b, k + 1, b.len() as int);
    let last = u.len() - 1;
    assert(u[last] == 0x0d);
    assert(u[0] == c[at(b, i)]);
    match lexeme {
        Lexeme::Space => {},
        Lexeme::Comment => {
            if k > i {
                let s = b.subrange(i, k);
                assert(s[0] == b[i]);
                if forms(lexeme, s) {
                    assert forall|x: int| i <= x < k implies #[trigger] b[x] != 0x0a by {
                        assert(s[x - i] == b[x]);
                    }
                    lemma_same_stretch(b, c, i, k);
                    assert forall|y: int| 0 < y < u.len() implies #[trigger] u[y] != 0x0a by {
                        if y < last {
                            assert(u[y] == c.subrange(at(b, i), at(b, k))[y]);
                        }
                    }
                }
                if forms(lexeme, u) {
                    assert forall|x: int| i <= x < k implies #[trigger] b[x] != 0x0a by {
                        if b[x] == 0x0a {
                            lemma_at_grows(b, i, x);
                            lemma_at_grows(b, x, x + 1);
                            lemma_at_grows(b, x + 1, k);
                            assert(u[at(b, x) + 1 - at(b, i)] == 0x0a);
                        }
                    }
                }
            }
        },
        Lexeme::Newline => {
            if forms(lexeme, u) {
                let blanks = choose|blanks: int| #[trigger] line_start(u, blanks, 0);
                assert(line_start(u, blanks, 0));
            }
        },
        Lexeme::TabIndent => {},
        Lexeme::Token(kind) => {
            if token_matches(kind, u) {
                if kind == TokenKind::FStr {
                    let q = u.subrange(1, u.len() as int);
                    assert(q[q.len() - 1] == u[last]);
                } else if kind != TokenKind::Str {
                    lemma_no_line_bytes(kind, u, last);
                }
            }
        },
    }
}

/// Where the lexeme that ends at `end` ends once the carriage returns are in. A comment takes in the
/// carriage return of its line.
spec fn end_of(b: Seq<u8>, lexeme: Lexeme, end: int) -> int {
    if lexeme is Comment && end < b.len() {
        at(b, end) + 1
    } else {
        at(b, end)
    }
}

/// The longest lexeme at a byte is the same.
proof fn lemma_longest_same(b: Seq<u8>, c: Seq<u8>, lexeme: Lexeme, i: int, end: int)
    requires
        widened(b, c),
        0 <= i,
        is_longest_match(b, i, lexeme, end),
    ensures
        is_longest_match(c, at(b, i), lexeme, end_of(b, lexeme, end)),
        lexeme is Comment && end < b.len() ==> b[end] == 0x0a,
{
    let s = b.subrange(i, end);
    let stop = end_of(b, lexeme, end);
    lemma_at_grows(b, i, end);
    lemma_at_grows(b, end, b.len() as int);
    lemma_forms_same(b, c, lexeme, i, end);
    if lexeme is Comment && end < b.len() {
        if b[end] != 0x0a {
            let longer = b.subrange(i, end + 1);
            assert forall|x: int| 0 < x < longer.len() implies #[trigger] longer[x] != 0x0a by {
                if x < s.len() {
                    assert(longer[x] == s[x]);
                }
            }
            assert(longer[0] == s[0]);
            assert(forms(Lexeme::Comment, longer));
        }
        lemma_cut(b, c, lexeme, i, end);
        lemma_at_grows(b, end, end + 1);
        lemma_at_grows(b, end + 1, b.len() as int);
    }
    assert forall|other: Lexeme, y: int| stop < y <= c.len() implies !#[trigger] forms(
        other,
        c.subrange(at(b, i), y),
    ) by {
        let k = lemma_back(b, c, end, y);
        if at(b, k) == y {
            lemma_forms_same(b, c, other, i, k);
            assert(k > end);
            assert(!forms(other, b.subrange(i, k)));
        } else {
            lemma_cut(b, c, other, i, k);
            if forms(other, c.subrange(at(b, i), y)) {
                if k == end {
                    lexemes_are_disjoint(lexeme, Lexeme::Comment, s);
                } else {
                    assert(!forms(Lexeme::Comment, b.subrange(i, k)));
                }
            }
        }
    }
}

/// Behind a comment the line end is the line feed alone.
proof fn lemma_line_feed_same(b: Seq<u8>, c: Seq<u8>, lexeme: Lexeme, i: int, end: int)
    requires
        widened(b, c),
        0 <= i < b.len(),
        b[i] == 0x0a,
        is_longest_match(b, i, lexeme, end),
        lexeme is Newline || lexeme is TabIndent,
    ensures
        is_longest_match(c, at(b, i) + 1, lexeme, at(b, end)),
{
    let p = at(b, i) + 1;
    let s = b.subrange(i, end);
    lemma_at_grows(b, i, i + 1);
    lemma_at_grows(b, i + 1, end);
    lemma_at_grows(b, end, b.len() as int);
    assert(s[0] == b[i]);
    lemma_one_line(s, lexeme);
    assert forall|x: int| i + 1 <= x < end implies #[trigger] b[x] != 0x0a by {
        assert(s[x - i] == b[x]);
    }
    lemma_same_stretch(b, c, i + 1, end);
    assert(c.subrange(p, at(b, end)) =~= s) by {
        assert forall|x: int| 0 <= x < s.len() implies s[x] == #[trigger] c.subrange(
            p,
            at(b, end),
        )[x] by {
            if x > 0 {
                assert(b[i + x] == c[at(b, i + 1) + (i + x) - (i + 1)]);
            }
        }
    }
    assert forall|other: Lexeme, y: int| at(b, end) < y <= c.len() implies !#[trigger] forms(
        other,
        c.subrange(p, y),
    ) by {
        let v = c.subrange(p, y);
        if forms(other, v) {
            assert(v[0] == 0x0a);
            lemma_starts_line(other, v);
            lemma_one_line(v, other);
            let k = lemma_back(b, c, end, y);
            if at(b, k) == y {
                assert forall|x: int| i + 1 <= x < k implies #[trigger] b[x] != 0x0a by {
                    if b[x] == 0x0a {
                        lemma_at_grows(b, i + 1, x);
                        lemma_at_grows(b, x, x + 1);
                        lemma_at_grows(b, x + 1, k);
                        assert(v[at(b, x) - p] == 0x0d);
                    }
                }
                lemma_same_stretch(b, c, i + 1, k);
                assert(b.subrange(i, k) =~= v) by {
                    assert forall|x: int| 0 <= x < v.len() implies v[x] == #[trigger] b.subrange(
                        i,
                        k,
                    )[x] by {
                        if x > 0 {
                            assert(b[i + x] == c[at(b, i + 1) + (i + x) - (i + 1)]);
                        }
                    }
                }
                assert(!forms(other, b.subrange(i, k)));
            } else {
                assert(v[at(b, k) - p] == 0x0d);
            }
        }
    }
}

/// What begins with a line feed is a line end.
proof fn lemma_starts_line(lexeme: Lexeme, s: Seq<u8>)
    requires
        forms(lexeme, s),
        s[0] == 0x0a,
    ensures
        lexeme is Newline || lexeme is TabIndent,
{
    if let Lexeme::Token(kind) = lexeme {
        if kind != TokenKind::Str && kind != TokenKind::FStr {
            assert(s.len() > 0) by {
                crate::lexeme::lemma_ascii_ends(lexeme, s);
            }
            lemma_no_line_bytes(kind, s, 0);
        }
    }
}

/// Behind its line feed a line end holds blanks only.
proof fn lemma_one_line(s: Seq<u8>, lexeme: Lexeme)
    requires
        forms(lexeme, s),
        lexeme is Newline || lexeme is TabIndent,
        s[0] == 0x0a,
    ensures
        forall|x: int| 0 < x < s.len() ==> #[trigger] s[x] == 0x20 || s[x] == 0x09,
{
    if lexeme is Newline {
        let blanks = choose|blanks: int| #[trigger] line_start(s, blanks, 0);
        assert(line_start(s, blanks, 0));
    } else {
        let blanks = choose|blanks: int| #[trigger] line_start(s, blanks, 1);
        assert(line_start(s, blanks, 1));
    }
}

/// The kinds of a list of tokens.
pub open spec fn kinds_of(tokens: Seq<TokenView>) -> Seq<TokenKind> {
    Seq::new(tokens.len(), |i: int| tokens[i].kind)
}

proof fn lemma_kinds_push(a: Seq<TokenView>, b: Seq<TokenView>, x: TokenView, y: TokenView)
    requires
        kinds_of(a) == kinds_of(b),
        x.kind == y.kind,
    ensures
        kinds_of(a.push(x)) == kinds_of(b.push(y)),
{
    assert(kinds_of(a.push(x)) =~= kinds_of(a).push(x.kind));
    assert(kinds_of(b.push(y)) =~= kinds_of(b).push(y.kind));
}

proof fn lemma_kinds_closed(
    a: Seq<TokenView>,
    b: Seq<TokenView>,
    levels: Seq<int>,
    indent: int,
    x: TokenView,
    y: TokenView,
)
    requires
        kinds_of(a) == kinds_of(b),
        x.kind == y.kind,
    ensures
        kinds_of(close_blocks(a, levels, indent, x).0) == kinds_of(
            close_blocks(b, levels, indent, y).0,
        ),
        close_blocks(a, levels, indent, x).1 == close_blocks(b, levels, indent, y).1,
    decreases levels.len(),
{
    if levels.len() > 0 && indent < levels.last() {
        lemma_kinds_push(a, b, x, y);
        lemma_kinds_closed(a.push(x), b.push(y), levels.drop_last(), indent, x, y);
    }
}

/// Lexing has come to the same place.
spec fn in_step(b: Seq<u8>, c: Seq<u8>, st: LexState, other: LexState) -> bool {
    &&& 0 <= st.pos <= b.len()
    &&& other.pos == at(b, st.pos) || (st.pos < b.len() && b[st.pos] == 0x0a && other.pos == at(
        b,
        st.pos,
    ) + 1)
    &&& kinds_of(other.out) == kinds_of(st.out)
    &&& other.indents == st.indents
    &&& other.depth == st.depth
    &&& match (st.pending, other.pending) {
        (Some(line), Some(same)) => line.indent == same.indent,
        (None, None) => true,
        _ => false,
    }
}

proof fn lemma_flushed_same(b: Seq<u8>, c: Seq<u8>, st: LexState, other: LexState)
    requires
        in_step(b, c, st, other),
    ensures
        flushed(b, st) matches Ok((out, indents)) ==> (flushed(c, other) matches Ok(
            (same, levels),
        ) && kinds_of(same) == kinds_of(out) && levels == indents),
{
    assert(kinds_of(st.out).len() == kinds_of(other.out).len());
    if st.out.len() > 0 {
        if let (Some(line), Some(same)) = (st.pending, other.pending) {
            let x = layout_token(b, TokenKind::Newline, line.offset);
            let y = layout_token(c, TokenKind::Newline, same.offset);
            lemma_kinds_push(st.out, other.out, x, y);
            lemma_kinds_push(
                st.out.push(x),
                other.out.push(y),
                layout_token(b, TokenKind::Indent, line.offset),
                layout_token(c, TokenKind::Indent, same.offset),
            );
            lemma_kinds_closed(
                st.out.push(x),
                other.out.push(y),
                st.indents,
                line.indent,
                layout_token(b, TokenKind::Dedent, line.offset),
                layout_token(c, TokenKind::Dedent, same.offset),
            );
        }
    }
}

/// A word is the same word.
proof fn lemma_content_same(b: Seq<u8>, c: Seq<u8>, raw: TokenKind, i: int, end: int)
    requires
        widened(b, c),
        0 <= i,
        is_longest_match(b, i, Lexeme::Token(raw), end),
    ensures
        content_token(c, raw, at(b, i), at(b, end)).kind == content_token(b, raw, i, end).kind,
{
    if raw == TokenKind::Identifier {
        let s = b.subrange(i, end);
        assert forall|x: int| i <= x < end implies #[trigger] b[x] != 0x0a by {
            lemma_no_line_bytes(raw, s, x - i);
            assert(s[x - i] == b[x]);
        }
        lemma_same_stretch(b, c, i, end);
    }
}

/// One lexeme taken on either side.
proof fn lemma_step_same(
    b: Seq<u8>,
    c: Seq<u8>,
    st: LexState,
    other: LexState,
    lexeme: Lexeme,
    end: int,
) -> (stop: int)
    requires
        widened(b, c),
        in_step(b, c, st, other),
        st.pos < b.len(),
        is_longest_match(b, st.pos, lexeme, end),
        lex_step(b, st, lexeme, end) is Ok,
    ensures
        is_longest_match(c, other.pos, lexeme, stop),
        lex_step(c, other, lexeme, stop) is Ok,
        in_step(b, c, lex_step(b, st, lexeme, end)->Ok_0, lex_step(c, other, lexeme, stop)->Ok_0),
        lex_step(c, other, lexeme, stop)->Ok_0.pos == stop,
{
    let i = st.pos;
    let s = b.subrange(i, end);
    assert(s[0] == b[i]);
    lemma_at_grows(b, i, end);
    lemma_at_grows(b, i, i + 1);
    if b[i] == 0x0a {
        lemma_starts_line(lexeme, s);
        lemma_one_line(s, lexeme);
        assert forall|x: int| i + 1 <= x < end implies #[trigger] b[x] != 0x0a by {
            assert(s[x - i] == b[x]);
        }
        lemma_same_stretch(b, c, i + 1, end);
        let stop = at(b, end);
        if other.pos == at(b, i) {
            lemma_longest_same(b, c, lexeme, i, end);
        } else {
            lemma_line_feed_same(b, c, lexeme, i, end);
        }
        stop
    } else {
        lemma_longest_same(b, c, lexeme, i, end);
        let stop = end_of(b, lexeme, end);
        match lexeme {
            Lexeme::Token(raw) => {
                lemma_flushed_same(b, c, st, other);
                lemma_content_same(b, c, raw, i, end);
                let (out, indents) = flushed(b, st)->Ok_0;
                let (same, levels) = flushed(c, other)->Ok_0;
                lemma_kinds_push(
                    out,
                    same,
                    content_token(b, raw, i, end),
                    content_token(c, raw, at(b, i), stop),
                );
            },
            Lexeme::Newline => {
                let blanks = choose|blanks: int| #[trigger] line_start(s, blanks, 0);
                assert(line_start(s, blanks, 0));
            },
            _ => {},
        }
        stop
    }
}

proof fn lemma_run_same(b: Seq<u8>, c: Seq<u8>, st: LexState, other: LexState)
    requires
        widened(b, c),
        in_step(b, c, st, other),
    ensures
        lex_run(b, st) matches Ok(done) ==> (lex_run(c, other) matches Ok(same) && in_step(
            b,
            c,
            done,
            same,
        )),
    decreases b.len() - st.pos,
{
    lemma_at_grows(b, st.pos, b.len() as int);
    if st.pos < b.len() {
        if let Some((lexeme, end)) = lexeme_at(b, st.pos) {
            lemma_found_lexeme(b, st.pos);
            if let Ok(next) = lex_step(b, st, lexeme, end) {
                if next.pos == end {
                    let stop = lemma_step_same(b, c, st, other, lexeme, end);
                    lemma_lexeme_at(c, other.pos, lexeme, stop);
                    lemma_run_same(b, c, next, lex_step(c, other, lexeme, stop)->Ok_0);
                }
            }
        }
    }
}

/// A source reads the same whether its lines end in `\n` or in `\r\n`: with a carriage return before
/// every line feed, a source that has tokens has tokens of the same kinds, in the same order.
pub proof fn carriage_returns_change_no_kind(b: Seq<u8>)
    requires
        forall|i: int| 0 <= i < b.len() ==> #[trigger] b[i] != 0x0d,
    ensures
        lexed(b) matches Ok(tokens) ==> (lexed(with_returns(b)) matches Ok(same) && kinds_of(same)
            == kinds_of(tokens)),
{
    let c = with_returns(b);
    let st = initial_state();
    lemma_widened(b);
    lemma_at_grows(b, 0, 0);
    lemma_run_same(b, c, st, st);
    if let Ok(done) = lex_run(b, st) {
        let same = lex_run(c, st)->Ok_0;
        let n = b.len() as int;
        let m = c.len() as int;
        assert(kinds_of(done.out).len() == kinds_of(same.out).len());
        if done.out.len() > 0 {
            if let (Some(line), Some(twin)) = (done.pending, same.pending) {
                let x = layout_token(b, TokenKind::Newline, line.offset);
                let y = layout_token(c, TokenKind::Newline, twin.offset);
                lemma_kinds_push(done.out, same.out, x, y);
                lemma_kinds_closed(
                    done.out.push(x),
                    same.out.push(y),
                    done.indents,
                    0,
                    layout_token(b, TokenKind::Dedent, line.offset),
                    layout_token(c, TokenKind::Dedent, twin.offset),
                );
            }
        }
        let (out, indents) = ended(b, done);
        let (twins, levels) = ended(c, same);
        assert(kinds_of(out) == kinds_of(twins) && indents == levels);
        let x = layout_token(b, TokenKind::Dedent, n);
        let y = layout_token(c, TokenKind::Dedent, m);
        lemma_kinds_closed(out, twins, indents, 0, x, y);
        lemma_kinds_push(
            close_blocks(out, indents, 0, x).0,
            close_blocks(twins, levels, 0, y).0,
            layout_token(b, TokenKind::Eof, n),
            layout_token(c, TokenKind::Eof, m),
        );
    }
}

} // verus!
