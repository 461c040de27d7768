//! Tokens, layout, spans and line resolution.

use pinp::lexer::TokenKind::{Int, Float, Str, FStr, Identifier, Plus, Equal, Comma, Colon, ColonColon, LParen, RParen, LBracket, RBracket, Dot, DotDot, DotDotLt, DotDotGt, Semicolon, PlusEq, MinusEq, StarEq, SlashEq, CaretEq, DivEq, ModEq, EqEq, Ne, Lt, Gt, Le, Ge, Newline, Indent, Dedent, Eof, KwAnd, KwDiv, KwElif, KwElse, KwFalse, KwFor, KwIf, KwIn, KwIs, KwLoop, KwMod, KwNot, KwOr, KwTrue, KwUntil, KwWhile, KwXor};
use pinp::lexer::{LineIndex, Span, TokenKind, lex};

fn kinds(src: &str) -> Vec<TokenKind> {
    lex(src)
        .unwrap()
        .into_iter()
        .map(|token| token.kind)
        .collect()
}

#[test]
fn numeric_groups_and_radixes() {
    assert_eq!(
        kinds("12_000_321 0xFF_a 0b1_010 16E10 3.14 1_000.000_000e-1_000 .5"),
        vec![Int, Int, Int, Int, Float, Float, Float, Eof]
    );
}

#[test]
fn identifier_patterns() {
    let toks = lex("a Fu _BAR _baz_baz_ _fu12_11_bar").unwrap();
    let idents: Vec<_> = toks
        .iter()
        .filter(|token| token.kind == TokenKind::Identifier)
        .map(|token| token.text)
        .collect();
    assert_eq!(idents, ["a", "Fu", "_BAR", "_baz_baz_", "_fu12_11_bar"]);
}

#[test]
fn keyword_classification() {
    assert_eq!(
        kinds("10 div 4 mod is divmod"),
        vec![Int, KwDiv, Int, KwMod, KwIs, Identifier, Eof]
    );
}

#[test]
fn comparison_and_logical_tokens() {
    assert_eq!(
        kinds("== != < > <= >="),
        vec![EqEq, Ne, Lt, Gt, Le, Ge, Eof]
    );
    // Logical/value words become keywords; `bool` stays an ordinary identifier (resolved
    // only in type-annotation position, like `int`/`float`/`void`).
    assert_eq!(
        kinds("true false and or xor not bool"),
        vec![KwTrue, KwFalse, KwAnd, KwOr, KwXor, KwNot, Identifier, Eof]
    );
}

#[test]
fn control_flow_keywords() {
    assert_eq!(
        kinds("if elif else while until loop"),
        vec![KwIf, KwElif, KwElse, KwWhile, KwUntil, KwLoop, Eof]
    );
}

#[test]
fn range_operators() {
    // Longest-match: `..<`/`..>` beat `..`; `for`/`in` classify as keywords.
    assert_eq!(
        kinds("1..10 1..<10 5..>1 for idx in"),
        vec![
            Int, DotDot, Int, Int, DotDotLt, Int, Int, DotDotGt, Int, KwFor, Identifier, KwIn,
            Eof
        ]
    );
}

#[test]
fn bracket_and_dot_tokens() {
    // `[` and `]` are their own tokens.
    assert_eq!(
        kinds("[1, 2]"),
        vec![LBracket, Int, Comma, Int, RBracket, Eof]
    );
    // `.len` is Dot + Identifier; `.5` stays a float; `..` is still DotDot.
    assert_eq!(kinds("arr.len"), vec![Identifier, Dot, Identifier, Eof]);
    assert_eq!(kinds(".5"), vec![Float, Eof]);
    assert_eq!(kinds("1..5"), vec![Int, DotDot, Int, Eof]);
    // Brackets join lines just like parentheses.
    let src = "[1,\n 2]\n";
    assert_eq!(
        kinds(src),
        vec![LBracket, Int, Comma, Int, RBracket, Newline, Eof]
    );
}

#[test]
fn dot_dot_does_not_disturb_floats() {
    // A dot followed by a digit is still a float; two dots are the range operator.
    assert_eq!(kinds(".5"), vec![Float, Eof]);
    assert_eq!(kinds("1..5"), vec![Int, DotDot, Int, Eof]);
    // A stepped range: `1..10:2` carries the step after a `Colon`.
    assert_eq!(kinds("1..10:2"), vec![Int, DotDot, Int, Colon, Int, Eof]);
}

#[test]
fn multichar_comparisons_beat_bare_operators() {
    // Longest-match: `==` over `= =`, `<=`/`>=` over `<`/`>` then `=`.
    assert_eq!(kinds("a == b"), vec![Identifier, EqEq, Identifier, Eof]);
    assert_eq!(kinds("a <= b"), vec![Identifier, Le, Identifier, Eof]);
    assert_eq!(kinds("a = b"), vec![Identifier, Equal, Identifier, Eof]);
}

#[test]
fn punctuation_and_compound_assign() {
    assert_eq!(
        kinds(":: : , += -= *= /= ^= div= mod="),
        vec![
            ColonColon, Colon, Comma, PlusEq, MinusEq, StarEq, SlashEq, CaretEq, DivEq, ModEq,
            Eof
        ]
    );
}

#[test]
fn compound_div_requires_contiguity() {
    // `div=` is one token; `div =` (spaced) is the keyword then `=`.
    assert_eq!(kinds("a div= b"), vec![Identifier, DivEq, Identifier, Eof]);
    assert_eq!(
        kinds("a div = b"),
        vec![Identifier, KwDiv, Equal, Identifier, Eof]
    );
}

#[test]
fn newline_and_eof() {
    let src = "a = 1\nb = 2\n";
    assert_eq!(
        kinds(src),
        vec![
            Identifier, Equal, Int, Newline, Identifier, Equal, Int, Newline, Eof
        ]
    );
}

#[test]
fn indent_dedent_from_leading_spaces() {
    let src = "a = 1\n    b = 2\nc = 3\n";
    assert_eq!(
        kinds(src),
        vec![
            Identifier, Equal, Int, Newline, Indent, // a = 1, then indented line
            Identifier, Equal, Int, Newline, Dedent, // b = 2, then back out
            Identifier, Equal, Int, Newline, // c = 3
            Eof
        ]
    );
}

#[test]
fn inconsistent_dedent_is_error() {
    let src = "a\n    b\n  c\n";
    assert!(lex(src).is_err());
}

#[test]
fn newlines_inside_parens_are_joined() {
    // Multi-line parameter list: the newline between params emits no structural
    // tokens, so the indent stack only reacts to the body indent.
    let src = "f(a: float,\n  b: float): float is\n    x\n";
    assert_eq!(
        kinds(src),
        vec![
            Identifier, LParen, Identifier, Colon, Identifier, Comma, // f(a: float,
            Identifier, Colon, Identifier, RParen, Colon, Identifier,
            KwIs, // b: float): float is
            Newline, Indent, Identifier, Newline, Dedent, // body `x`
            Eof
        ]
    );
}

#[test]
fn tracks_line_and_column() {
    let src = "a = 1\n  bb = 22\n";
    let toks = lex(src).unwrap();
    let bb = toks.iter().find(|token| token.text == "bb").unwrap();
    assert_eq!((bb.line, bb.col), (2, 3));
    assert_eq!((toks[0].line, toks[0].col), (1, 1));
}

#[test]
fn keeps_text_slice() {
    let toks = lex("g = 12_000_321").unwrap();
    assert_eq!(toks[0].text, "g");
    assert_eq!(toks[2].text, "12_000_321");
}

#[test]
fn trailing_comment_is_ignored() {
    // A comment after code leaves the code untouched and the line's newline intact.
    assert_eq!(
        kinds("a = 1  # the answer\n"),
        vec![Identifier, Equal, Int, Newline, Eof]
    );
}

#[test]
fn comment_only_line_emits_nothing() {
    let src = "# leading note\na = 1\n# trailing note\n";
    assert_eq!(kinds(src), vec![Identifier, Equal, Int, Newline, Eof]);
}

#[test]
fn blank_lines_do_not_break_a_block() {
    // A blank line at the left margin inside an indented block must not be read as the
    // block ending; the indent stack only reacts to lines that carry content.
    let src = "a = 1\n    b = 2\n\n    c = 3\nd = 4\n";
    assert_eq!(
        kinds(src),
        vec![
            Identifier, Equal, Int, Newline, Indent, // a = 1, then indent
            Identifier, Equal, Int, Newline, // b = 2 (blank line below skipped)
            Identifier, Equal, Int, Newline, Dedent, // c = 3, then back out
            Identifier, Equal, Int, Newline, // d = 4
            Eof
        ]
    );
}

#[test]
fn semicolon_is_a_token() {
    // `;` is the 2D matrix row separator; it appears inside `[…]` brackets so no
    // newline logic fires. Here we test it as a bare token and inside brackets.
    assert_eq!(kinds(";"), vec![Semicolon, Eof]);
    assert_eq!(
        kinds("[1, 2; 3, 4]"),
        vec![
            LBracket, Int, Comma, Int, Semicolon, Int, Comma, Int, RBracket, Eof
        ]
    );
    // Existing tokens are undisturbed around `;`.
    assert_eq!(kinds("a; b"), vec![Identifier, Semicolon, Identifier, Eof]);
}

// ── string literals ─────────────────────────────────────────────────────

#[test]
fn string_both_quote_styles() {
    // Single and double quotes are interchangeable; only the captured slice differs.
    assert_eq!(kinds("'hello'"), vec![Str, Eof]);
    assert_eq!(kinds("\"hello\""), vec![Str, Eof]);
    assert_eq!(lex("'hello'").unwrap()[0].text, "'hello'");
    assert_eq!(lex("\"hello\"").unwrap()[0].text, "\"hello\"");
}

#[test]
fn empty_string_literal() {
    // `''`/`""` is a single empty-string token — the two delimiters with no content between —
    // not two separate quote characters.
    assert_eq!(kinds("''"), vec![Str, Eof]);
    assert_eq!(lex("''").unwrap()[0].text, "''");
    assert_eq!(kinds("\"\""), vec![Str, Eof]);
    assert_eq!(lex("\"\"").unwrap()[0].text, "\"\"");
}

#[test]
fn string_content_is_opaque() {
    // Spaces, operators, digits, keywords, and `#` inside a literal are all just content:
    // no whitespace skipping, no comment, no sub-tokenisation.
    assert_eq!(kinds("'if 1 + 2  # x'"), vec![Str, Eof]);
    assert_eq!(lex("'if 1 + 2  # x'").unwrap()[0].text, "'if 1 + 2  # x'");
}

#[test]
fn opposite_quote_allowed_inside() {
    // The non-delimiter quote is ordinary content — no escaping, no mixed delimiters.
    assert_eq!(lex("\"can't\"").unwrap()[0].text, "\"can't\"");
    assert_eq!(lex("'say \"hi\"'").unwrap()[0].text, "'say \"hi\"'");
}

#[test]
fn fstring_both_quote_styles() {
    assert_eq!(kinds("f'hi'"), vec![FStr, Eof]);
    assert_eq!(kinds("f\"hi\""), vec![FStr, Eof]);
    assert_eq!(lex("f'hi'").unwrap()[0].text, "f'hi'");
}

#[test]
fn bare_f_stays_identifier() {
    // Longest-match yields FStr only when a quote immediately follows `f`.
    assert_eq!(kinds("f"), vec![Identifier, Eof]);
    assert_eq!(kinds("f + 1"), vec![Identifier, Plus, Int, Eof]);
    assert_eq!(kinds("foo"), vec![Identifier, Eof]);
    // A space splits it into an identifier and a plain string.
    assert_eq!(kinds("f 'hi'"), vec![Identifier, Str, Eof]);
}

#[test]
fn string_adjacent_to_tokens() {
    assert_eq!(kinds("a + 'b'"), vec![Identifier, Plus, Str, Eof]);
    assert_eq!(kinds("'a' 'b'"), vec![Str, Str, Eof]);
    // `.len` on a literal is unaffected: Str, Dot, Identifier.
    assert_eq!(kinds("'hi'.len"), vec![Str, Dot, Identifier, Eof]);
}

#[test]
fn unterminated_string_is_error_at_opening_quote() {
    // No closing quote before end of input: the opening quote is the failure site.
    let err = lex("'abc").unwrap_err();
    assert_eq!((err.line, err.col), (1, 1));
    assert!(lex("\"abc").is_err());
    assert!(lex("f'abc").is_err());
}

// ── spans and line resolution ───────────────────────────────────────────

#[test]
fn a_token_records_where_it_starts() {
    let src = "abc = 42";
    let tokens = lex(src).unwrap();
    assert_eq!(tokens[0].span().text(src), "abc");
    assert_eq!(tokens[1].span().text(src), "=");
    assert_eq!(tokens[2].span().text(src), "42");
}

#[test]
fn a_span_covers_a_whole_multiline_literal() {
    // The span is a byte range, so a token spanning lines needs no special handling.
    let src = "x = 'one\ntwo'";
    let literal = lex(src)
        .unwrap()
        .into_iter()
        .find(|token| token.kind == TokenKind::Str)
        .unwrap();
    assert_eq!(literal.span().text(src), "'one\ntwo'");
}

#[test]
fn line_index_resolves_offsets() {
    let src = "ab\ncde\n\nf";
    let index = LineIndex::new(src);
    assert_eq!(index.locate(0), (1, 1), "first byte");
    assert_eq!(index.locate(1), (1, 2));
    assert_eq!(index.locate(3), (2, 1), "first byte of a line");
    assert_eq!(index.locate(5), (2, 3));
    assert_eq!(index.locate(7), (3, 1), "an empty line");
    assert_eq!(index.locate(8), (4, 1));
    assert_eq!(
        index.locate(src.len() as u32),
        (4, 2),
        "one past the end, where EOF is reported"
    );
}

#[test]
fn line_index_agrees_with_reported_error_positions() {
    // The lexer places its errors through the same index, so the two can never drift.
    let src = "f() is\n\tx = 1\n";
    let error = lex(src).unwrap_err();
    let index = LineIndex::new(src);
    let tab_offset = src.find('\t').unwrap() as u32;
    assert_eq!((error.line, error.col), index.locate(tab_offset));
}

#[test]
fn an_unknown_span_is_recognisable() {
    assert!(Span::unknown().is_unknown());
    assert!(!Span::new(0, 1).is_unknown());
}

// ── multiline string literals ───────────────────────────────────────────
//
// The lexer's job here ends at the token: it captures the whole literal, delimiters included,
// and leaves the surrounding layout stream untouched. What the *content* becomes — stripping
// the delimiters, auto-dedenting the continuation lines — belongs to the parser, and is tested
// there against the AST rather than here against a raw slice.

#[test]
fn a_multiline_literal_is_one_token() {
    let src = "'first\nsecond\nthird'";
    assert_eq!(kinds(src), vec![Str, Eof]);
    assert_eq!(
        lex(src).unwrap()[0].text,
        src,
        "the whole literal, verbatim"
    );
    // Both quote styles, and the opposite quote is still ordinary content across lines.
    assert_eq!(kinds("\"first\nsecond\""), vec![Str, Eof]);
    assert_eq!(lex("'it\"s\nfine'").unwrap()[0].text, "'it\"s\nfine'");
}

#[test]
fn a_multiline_fstring_is_one_token() {
    let src = "f'first {x}\nsecond'";
    assert_eq!(kinds(src), vec![FStr, Eof]);
    assert_eq!(lex(src).unwrap()[0].text, src);
}

#[test]
fn a_multiline_literal_leaves_the_layout_stream_intact() {
    // The newlines inside the literal are content, not statement boundaries, so they must not
    // reach the indent/dedent logic: the block below opens once and closes once.
    let src = "f() is\n    x = 'first\n         second'\n    y = 2\nz = 3\n";
    assert_eq!(
        kinds(src),
        vec![
            Identifier, LParen, RParen, KwIs, Newline, Indent, // f() is
            Identifier, Equal, Str, Newline, // x = '…' spanning two physical lines
            Identifier, Equal, Int, Newline, Dedent, // y = 2, then back out
            Identifier, Equal, Int, Newline, // z = 3
            Eof
        ]
    );
}

#[test]
fn positions_after_a_multiline_literal_stay_correct() {
    // Everything downstream locates from its own byte offset, so a token following a literal
    // that spanned three lines still reports the line it is actually on.
    let src = "x = 'one\ntwo\nthree'\ny = 2";
    let tokens = lex(src).unwrap();
    let literal = tokens
        .iter()
        .find(|token| token.kind == TokenKind::Str)
        .unwrap();
    assert_eq!((literal.line, literal.col), (1, 5), "the opening quote");
    let last = tokens
        .iter()
        .rfind(|token| token.kind == TokenKind::Identifier)
        .unwrap();
    assert_eq!(last.text, "y");
    assert_eq!((last.line, last.col), (4, 1));
}

#[test]
fn an_unterminated_multiline_literal_fails_at_the_opening_quote() {
    // The accepted trade-off of spanning lines: a forgotten closing quote is only discovered at
    // end of input, but it is still reported where the literal began.
    let err = lex("x = 'abc\nmore text\n").unwrap_err();
    assert_eq!((err.line, err.col), (1, 5));
    assert!(lex("\"abc\nmore").is_err());
    assert!(lex("f'abc\nmore").is_err());
}

// ── tabs and CRLF ───────────────────────────────────────────────────────

#[test]
fn a_tab_in_indentation_is_rejected() {
    // pinp's layout is space-based. A tab used for indentation would otherwise be skipped as
    // ordinary whitespace, leaving the line at indent 0 and failing later with a confusing
    // "Expected Indent"; naming it here is far more useful.
    let err = lex("f() is\n\tx = 1\n").unwrap_err();
    assert_eq!((err.line, err.col), (2, 1));
    assert!(err.message.contains("Tab"), "message was {:?}", err.message);
    // A tab after some spaces is still indentation.
    assert!(lex("f() is\n    \tx = 1\n").is_err());
}

#[test]
fn a_tab_between_tokens_is_ordinary_whitespace() {
    // Only leading whitespace is layout; aligning inside a line is nobody's business.
    assert_eq!(kinds("a\t+\tb"), vec![Identifier, Plus, Identifier, Eof]);
    assert_eq!(
        kinds("'a\tb'"),
        vec![Str, Eof],
        "and a tab inside a literal"
    );
}

#[test]
fn crlf_line_endings_are_accepted() {
    // A Windows checkout must compile. `\r\n` is a line terminator like `\n`, indentation and
    // all.
    let src = "f() is\r\n    x = 1\r\n    x\r\ny = 2\r\n";
    assert_eq!(
        kinds(src),
        vec![
            Identifier, LParen, RParen, KwIs, Newline, Indent, // f() is
            Identifier, Equal, Int, Newline, // x = 1
            Identifier, Newline, Dedent, // x, then back out
            Identifier, Equal, Int, Newline, // y = 2
            Eof
        ]
    );
}

#[test]
fn a_lone_carriage_return_is_still_an_error() {
    // Only `\r\n` is a line ending; a bare `\r` (old-Mac style) is not something to guess at.
    assert!(lex("a = 1\rb = 2").is_err());
}

#[test]
fn comment_only_line_is_transparent_regardless_of_indent() {
    // An over-indented comment line inside a block contributes no Indent/Dedent.
    let src = "a = 1\n    b = 2\n            # an over-indented remark\n    c = 3\n";
    assert_eq!(
        kinds(src),
        vec![
            Identifier, Equal, Int, Newline, Indent, // a = 1, then indent
            Identifier, Equal, Int, Newline, // b = 2
            Identifier, Equal, Int, Newline, Dedent, // c = 3, then back out
            Eof
        ]
    );
}

#[test]
fn a_comment_at_the_very_end_closes_the_open_blocks() {
    assert_eq!(
        kinds("a\n    b\n  # c"),
        vec![Identifier, Newline, Indent, Identifier, Newline, Dedent, Eof]
    );
    assert_eq!(
        kinds("a\n    b\n            # an over-indented remark"),
        vec![Identifier, Newline, Indent, Identifier, Newline, Dedent, Eof]
    );
    assert_eq!(
        kinds("a\n    b\n  "),
        vec![Identifier, Newline, Indent, Identifier, Newline, Dedent, Eof]
    );
}

#[test]
fn the_last_line_end_carries_the_tokens_that_close() {
    let tokens = lex("a\n    b\n").unwrap();
    let places: Vec<_> = tokens.iter().map(|token| (token.kind, token.start)).collect();
    assert_eq!(
        places,
        vec![
            (Identifier, 0),
            (Newline, 1),
            (Indent, 1),
            (Identifier, 6),
            (Newline, 7),
            (Dedent, 7),
            (Eof, 8),
        ]
    );
}

#[test]
fn carriage_returns_change_no_kind() {
    for src in [
        "a = 1\nb = 2\n",
        "f() is\n    x = 1\n    x\ny = 2\n",
        "a = [1,\n2]\n\n# remark\nb\n",
        "s = 'one\ntwo'\ns",
    ] {
        assert_eq!(kinds(src), kinds(&src.replace('\n', "\r\n")), "{src:?}");
    }
}

#[test]
fn no_list_begins_with_layout() {
    assert_eq!(kinds("\n\n   # remark\n   a\n"), vec![Identifier, Newline, Eof]);
    assert_eq!(kinds("\n   \n"), vec![Eof]);
    assert_eq!(kinds(""), vec![Eof]);
}

#[test]
fn brackets_hold_no_layout() {
    assert_eq!(
        kinds("f(\n        a,\n  b\n)\nc"),
        vec![Identifier, LParen, Identifier, Comma, Identifier, RParen, Newline, Identifier, Eof]
    );
    // What nothing closed is left open; the end of the source closes the blocks all the same.
    assert_eq!(
        kinds("a\n    [b\n"),
        vec![Identifier, Newline, Indent, LBracket, Identifier, Dedent, Eof]
    );
}
