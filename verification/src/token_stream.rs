//! What holds of every token list the lexer makes.

use crate::lexeme::{forms, is_blank, is_longest_match, line_start, token_matches, Lexeme};
use crate::lexer::{
    close_blocks, content_token, depth_after, ended, flushed, initial_state, layout_token, lex_run,
    lex_step, lexed, lexeme_at, position, word_kind, LexState, TokenKind, TokenView,
};
use crate::text::lemma_prefix_boundary;
use vstd::prelude::*;
use vstd::utf8::*;

verus! {

/// The kinds that stand for layout rather than for text.
pub open spec fn is_layout(kind: TokenKind) -> bool {
    matches!(kind, TokenKind::Newline | TokenKind::Indent | TokenKind::Dedent | TokenKind::Eof)
}

/// A token of the source `b`: a layout token has no text; any other has for its text the bytes from
/// its start to its end, which form its kind (a word forms an identifier, and its kind is that of
/// the word).
pub open spec fn token_ok(b: Seq<u8>, t: TokenView) -> bool {
    &&& (t.line, t.col) == position(b, t.start)
    &&& 0 <= t.start <= t.end() <= b.len()
    &&& is_char_boundary(b, t.start)
    &&& is_char_boundary(b, t.end())
    &&& if is_layout(t.kind) {
        t.text.len() == 0
    } else {
        &&& t.start < t.end()
        &&& encode_utf8(t.text) == b.subrange(t.start, t.end())
        &&& if token_matches(TokenKind::Identifier, encode_utf8(t.text)) {
            t.kind == word_kind(t.text)
        } else {
            token_matches(t.kind, encode_utf8(t.text))
        }
    }
}

/// A literal's text forms the kind it has.
pub proof fn lemma_kind_forms(b: Seq<u8>, t: TokenView)
    requires
        token_ok(b, t),
        matches!(t.kind, TokenKind::Int | TokenKind::Float | TokenKind::Str | TokenKind::FStr),
    ensures
        token_matches(t.kind, encode_utf8(t.text)),
{
}

/// Tokens follow each other in the source without overlapping.
pub open spec fn ordered(tokens: Seq<TokenView>) -> bool {
    forall|i: int, j: int|
        0 <= i < j < tokens.len() ==> (#[trigger] tokens[i]).end() <= (#[trigger] tokens[j]).start
}

/// A complete token list: tokens of the source in order, with `Eof` last and nowhere else.
pub open spec fn token_list_ok(b: Seq<u8>, tokens: Seq<TokenView>) -> bool {
    &&& tokens.len() > 0
    &&& tokens.last().kind == TokenKind::Eof
    &&& tokens.last().start == b.len()
    &&& forall|i: int| 0 <= i < tokens.len() - 1 ==> (#[trigger] tokens[i]).kind != TokenKind::Eof
    &&& forall|i: int| 0 <= i < tokens.len() ==> token_ok(b, #[trigger] tokens[i])
    &&& ordered(tokens)
}

/// How many blocks are open behind a list of tokens.
pub open spec fn open_blocks(tokens: Seq<TokenView>) -> int
    decreases tokens.len(),
{
    if tokens.len() == 0 {
        0
    } else {
        open_blocks(tokens.drop_last()) + match tokens.last().kind {
            TokenKind::Indent => 1int,
            TokenKind::Dedent => -1int,
            _ => 0int,
        }
    }
}

/// No prefix of the list closes more blocks than it opened.
pub open spec fn never_overcloses(tokens: Seq<TokenView>) -> bool {
    forall|n: int| 0 <= n <= tokens.len() ==> open_blocks(#[trigger] tokens.take(n)) >= 0
}

/// The unfinished list behind which lexing stands at `limit`, with `levels` open indentations.
spec fn partial_ok(b: Seq<u8>, tokens: Seq<TokenView>, levels: Seq<int>, limit: int) -> bool {
    &&& 0 <= limit <= b.len()
    &&& forall|i: int| 0 <= i < tokens.len() ==> (#[trigger] tokens[i]).kind != TokenKind::Eof
    &&& forall|i: int| 0 <= i < tokens.len() ==> token_ok(b, #[trigger] tokens[i])
    &&& forall|i: int| 0 <= i < tokens.len() ==> (#[trigger] tokens[i]).end() <= limit
    &&& ordered(tokens)
    &&& levels.len() > 0
    &&& levels[0] == 0
    &&& forall|i: int, j: int| 0 <= i < j < levels.len() ==> levels[i] < levels[j]
    &&& open_blocks(tokens) == levels.len() - 1
    &&& never_overcloses(tokens)
}

proof fn lemma_push(b: Seq<u8>, tokens: Seq<TokenView>, levels: Seq<int>, limit: int, t: TokenView)
    requires
        partial_ok(b, tokens, levels, limit),
        token_ok(b, t),
        t.kind != TokenKind::Eof,
        t.start >= limit,
    ensures
        t.kind != TokenKind::Indent && t.kind != TokenKind::Dedent ==> partial_ok(
            b,
            tokens.push(t),
            levels,
            t.end(),
        ),
        forall|level: int|
            t.kind == TokenKind::Indent && level > levels.last() ==> #[trigger] partial_ok(
                b,
                tokens.push(t),
                levels.push(level),
                t.end(),
            ),
        t.kind == TokenKind::Dedent && levels.len() > 1 ==> partial_ok(
            b,
            tokens.push(t),
            levels.drop_last(),
            t.end(),
        ),
{
    let more = tokens.push(t);
    assert(more.drop_last() =~= tokens);
    if t.kind != TokenKind::Dedent || levels.len() > 1 {
        assert(never_overcloses(more)) by {
            assert forall|n: int| 0 <= n <= more.len() implies open_blocks(#[trigger] more.take(n))
                >= 0 by {
                if n < more.len() {
                    assert(more.take(n) =~= tokens.take(n));
                } else {
                    assert(more.take(n) =~= more);
                }
            }
        }
    }
}

proof fn lemma_layout_ok(b: Seq<u8>, kind: TokenKind, offset: int)
    requires
        is_layout(kind),
        0 <= offset <= b.len(),
        is_char_boundary(b, offset),
    ensures
        token_ok(b, layout_token(b, kind, offset)),
        layout_token(b, kind, offset).end() == offset,
{
    assert(encode_utf8(Seq::<char>::empty()).len() == 0);
}

proof fn lemma_close_blocks(
    b: Seq<u8>,
    tokens: Seq<TokenView>,
    levels: Seq<int>,
    limit: int,
    indent: int,
)
    requires
        partial_ok(b, tokens, levels, limit),
        is_char_boundary(b, limit),
        indent >= 0,
    ensures
        ({
            let closed = close_blocks(
                tokens,
                levels,
                indent,
                layout_token(b, TokenKind::Dedent, limit),
            );
            &&& partial_ok(b, closed.0, closed.1, limit)
            &&& closed.1.last() <= indent
            &&& indent == 0 ==> closed.1.len() == 1
        }),
    decreases levels.len(),
{
    let dedent = layout_token(b, TokenKind::Dedent, limit);
    if indent < levels.last() {
        lemma_layout_ok(b, TokenKind::Dedent, limit);
        lemma_push(b, tokens, levels, limit, dedent);
        lemma_close_blocks(b, tokens.push(dedent), levels.drop_last(), limit, indent);
    }
}

/// What holds of lexing under way.
spec fn state_ok(b: Seq<u8>, st: LexState) -> bool {
    &&& valid_utf8(b)
    &&& 0 <= st.pos <= b.len()
    &&& is_char_boundary(b, st.pos)
    &&& partial_ok(
        b,
        st.out,
        st.indents,
        match st.pending {
            Some(line) => line.offset,
            None => st.pos,
        },
    )
    &&& st.pending matches Some(line) ==> line.indent >= 0 && line.offset < st.pos
        && is_char_boundary(
        b,
        line.offset,
    )
}

proof fn lemma_weaken(b: Seq<u8>, tokens: Seq<TokenView>, levels: Seq<int>, limit: int, later: int)
    requires
        partial_ok(b, tokens, levels, limit),
        limit <= later <= b.len(),
    ensures
        partial_ok(b, tokens, levels, later),
{
}

proof fn lemma_flushed(b: Seq<u8>, st: LexState)
    requires
        state_ok(b, st),
    ensures
        flushed(b, st) matches Ok((out, indents)) ==> partial_ok(b, out, indents, st.pos),
{
    match st.pending {
        Some(line) if st.out.len() > 0 => {
            let newline = layout_token(b, TokenKind::Newline, line.offset);
            lemma_layout_ok(b, TokenKind::Newline, line.offset);
            lemma_push(b, st.out, st.indents, line.offset, newline);
            let started = st.out.push(newline);
            if line.indent > st.indents.last() {
                let indent = layout_token(b, TokenKind::Indent, line.offset);
                lemma_layout_ok(b, TokenKind::Indent, line.offset);
                lemma_push(b, started, st.indents, line.offset, indent);
                assert(partial_ok(
                    b,
                    started.push(indent),
                    st.indents.push(line.indent),
                    line.offset,
                ));
                lemma_weaken(
                    b,
                    started.push(indent),
                    st.indents.push(line.indent),
                    line.offset,
                    st.pos,
                );
            } else {
                lemma_close_blocks(b, started, st.indents, line.offset, line.indent);
                let closed = close_blocks(
                    started,
                    st.indents,
                    line.indent,
                    layout_token(b, TokenKind::Dedent, line.offset),
                );
                lemma_weaken(b, closed.0, closed.1, line.offset, st.pos);
            }
        },
        Some(line) => {
            lemma_weaken(b, st.out, st.indents, line.offset, st.pos);
        },
        None => {},
    }
}

proof fn lemma_ended(b: Seq<u8>, st: LexState)
    requires
        state_ok(b, st),
    ensures
        partial_ok(b, ended(b, st).0, ended(b, st).1, st.pos),
{
    match st.pending {
        Some(line) if st.out.len() > 0 => {
            let newline = layout_token(b, TokenKind::Newline, line.offset);
            lemma_layout_ok(b, TokenKind::Newline, line.offset);
            lemma_push(b, st.out, st.indents, line.offset, newline);
            lemma_close_blocks(b, st.out.push(newline), st.indents, line.offset, 0);
            lemma_weaken(b, ended(b, st).0, ended(b, st).1, line.offset, st.pos);
        },
        Some(line) => {
            lemma_weaken(b, st.out, st.indents, line.offset, st.pos);
        },
        None => {},
    }
}

proof fn lemma_content_ok(b: Seq<u8>, raw: TokenKind, start: int, end: int)
    requires
        valid_utf8(b),
        0 <= start,
        is_longest_match(b, start, Lexeme::Token(raw), end),
    ensures
        token_ok(b, content_token(b, raw, start, end)),
        content_token(b, raw, start, end).end() == end,
        content_token(b, raw, start, end).kind != TokenKind::Eof,
        content_token(b, raw, start, end).kind != TokenKind::Indent,
        content_token(b, raw, start, end).kind != TokenKind::Dedent,
{
    let s = b.subrange(start, end);
    crate::lexer::lemma_lexeme_boundaries(b, start, Lexeme::Token(raw), end);
    lemma_prefix_boundary(b, start, end);
    decode_utf8_encode_utf8(s);
    if token_matches(TokenKind::Identifier, s) {
        assert(forms(Lexeme::Token(TokenKind::Identifier), s));
        assert(forms(Lexeme::Token(raw), s));
        crate::lexeme::lexemes_are_disjoint(
            Lexeme::Token(raw),
            Lexeme::Token(TokenKind::Identifier),
            s,
        );
    }
}

/// The lexeme found at an offset is the longest there.
pub proof fn lemma_found_lexeme(b: Seq<u8>, pos: int)
    requires
        lexeme_at(b, pos) is Some,
    ensures
        lexeme_at(b, pos) matches Some((lexeme, end)) && is_longest_match(b, pos, lexeme, end),
{
    let (l, e) = choose|l: Lexeme, e: int| is_longest_match(b, pos, l, e);
    let pair = (l, e);
    assert(is_longest_match(b, pos, pair.0, pair.1));
}

proof fn lemma_step(b: Seq<u8>, st: LexState, lexeme: Lexeme, end: int)
    requires
        state_ok(b, st),
        is_longest_match(b, st.pos, lexeme, end),
    ensures
        lex_step(b, st, lexeme, end) matches Ok(next) ==> state_ok(b, next),
{
    crate::lexer::lemma_lexeme_boundaries(b, st.pos, lexeme, end);
    match lexeme {
        Lexeme::Space | Lexeme::Comment => {
            if st.pending is None {
                lemma_weaken(b, st.out, st.indents, st.pos, end);
            }
        },
        Lexeme::Newline => {
            crate::lexeme::lemma_newline_length(b, st.pos, end);
            if st.depth == 0 {
                if let Some(line) = st.pending {
                    lemma_weaken(b, st.out, st.indents, line.offset, st.pos);
                }
            } else if st.pending is None {
                lemma_weaken(b, st.out, st.indents, st.pos, end);
            }
        },
        Lexeme::Token(raw) => {
            lemma_flushed(b, st);
            lemma_content_ok(b, raw, st.pos, end);
            if let Ok((out, indents)) = flushed(b, st) {
                lemma_push(b, out, indents, st.pos, content_token(b, raw, st.pos, end));
            }
        },
        _ => {},
    }
}

proof fn lemma_run(b: Seq<u8>, st: LexState)
    requires
        state_ok(b, st),
    ensures
        lex_run(b, st) matches Ok(done) ==> state_ok(b, done) && done.pos == b.len(),
    decreases b.len() - st.pos,
{
    if st.pos < b.len() {
        match lexeme_at(b, st.pos) {
            Some((lexeme, end)) if st.pos < end <= b.len() => {
                lemma_found_lexeme(b, st.pos);
                match lex_step(b, st, lexeme, end) {
                    Ok(next) if next.pos == end => {
                        lemma_step(b, st, lexeme, end);
                        lemma_run(b, next);
                    },
                    _ => {},
                }
            },
            _ => {},
        }
    }
}

/// Every token list is complete and in order: each token's text is the stretch of source from its
/// start to its end and forms its kind, its line and column are those of its start, and `Eof`
/// stands at the very end.
pub proof fn lexed_tokens_are_well_formed(b: Seq<u8>)
    requires
        valid_utf8(b),
    ensures
        lexed(b) matches Ok(tokens) ==> token_list_ok(b, tokens),
{
    lemma_lexed(b);
}

/// Blocks nest: no prefix of a token list has more `Dedent`s than `Indent`s, and the whole list has
/// as many of the one as of the other.
pub proof fn lexed_blocks_balance(b: Seq<u8>)
    requires
        valid_utf8(b),
    ensures
        lexed(b) matches Ok(tokens) ==> never_overcloses(tokens) && open_blocks(tokens) == 0,
{
    lemma_lexed(b);
}

proof fn lemma_initial_ok(b: Seq<u8>)
    requires
        valid_utf8(b),
    ensures
        state_ok(b, initial_state()),
{
    let st = initial_state();
    is_char_boundary_start_end_of_seq(b);
    assert(never_overcloses(st.out)) by {
        assert forall|n: int| 0 <= n <= st.out.len() implies open_blocks(#[trigger] st.out.take(n))
            >= 0 by {
            assert(st.out.take(n) =~= st.out);
        }
    }
}

proof fn lemma_lexed(b: Seq<u8>)
    requires
        valid_utf8(b),
    ensures
        lexed(b) matches Ok(tokens) ==> token_list_ok(b, tokens) && never_overcloses(tokens)
            && open_blocks(tokens) == 0,
{
    let st = initial_state();
    lemma_initial_ok(b);
    lemma_run(b, st);
    if let Ok(done) = lex_run(b, st) {
        lemma_ended(b, done);
        let (out, indents) = ended(b, done);
        let n = b.len() as int;
        lemma_close_blocks(b, out, indents, n, 0);
        let closed = close_blocks(out, indents, 0, layout_token(b, TokenKind::Dedent, n));
        let eof = layout_token(b, TokenKind::Eof, n);
        lemma_layout_ok(b, TokenKind::Eof, n);
        let tokens = closed.0.push(eof);
        assert(tokens.drop_last() =~= closed.0);
        assert forall|i: int| 0 <= i <= tokens.len() implies open_blocks(
            #[trigger] tokens.take(i),
        ) >= 0 by {
            if i < tokens.len() {
                assert(tokens.take(i) =~= closed.0.take(i));
            } else {
                assert(tokens.take(i) =~= tokens);
            }
        }
    }
}

// ---------------------------------------------------------------------------
// Where layout stands
// ---------------------------------------------------------------------------

/// How many brackets are open behind a list of tokens. A closing one that nothing opened counts for
/// nothing.
pub open spec fn open_brackets(tokens: Seq<TokenView>) -> int
    decreases tokens.len(),
{
    if tokens.len() == 0 {
        0
    } else {
        depth_after(tokens.last().kind, open_brackets(tokens.drop_last()))
    }
}

/// The kinds that begin, indent or close a line.
pub open spec fn is_line_layout(kind: TokenKind) -> bool {
    matches!(kind, TokenKind::Newline | TokenKind::Indent | TokenKind::Dedent)
}

/// Layout that an open bracket rules out: every `Newline` and `Indent`, and every `Dedent` but those
/// that close the blocks at the end of the source.
pub open spec fn is_ruled_out(b: Seq<u8>, t: TokenView) -> bool {
    is_line_layout(t.kind) && (t.kind == TokenKind::Dedent ==> t.start < b.len())
}

/// Layout stands outside brackets only, but for the blocks that the end of the source closes.
pub open spec fn layout_outside_brackets(b: Seq<u8>, tokens: Seq<TokenView>) -> bool {
    forall|i: int|
        0 <= i < tokens.len() && is_ruled_out(b, #[trigger] tokens[i]) ==> open_brackets(
            tokens.take(i),
        ) == 0
}

/// A list that does not begin with layout.
pub open spec fn opens_with_content(tokens: Seq<TokenView>) -> bool {
    tokens.len() > 0 ==> !is_line_layout(tokens[0].kind)
}

/// What holds of the layout while lexing is under way.
spec fn layout_ok(b: Seq<u8>, st: LexState) -> bool {
    &&& layout_outside_brackets(b, st.out)
    &&& opens_with_content(st.out)
    &&& st.depth == open_brackets(st.out)
    &&& st.pending is Some ==> st.depth == 0
    &&& st.indents.len() > 0
    &&& st.indents[0] == 0
    &&& st.out.len() == 0 ==> st.indents.len() == 1
}

proof fn lemma_layout_push(b: Seq<u8>, tokens: Seq<TokenView>, t: TokenView)
    requires
        layout_outside_brackets(b, tokens),
        opens_with_content(tokens),
        is_line_layout(t.kind) ==> tokens.len() > 0,
        is_ruled_out(b, t) ==> open_brackets(tokens) == 0,
    ensures
        layout_outside_brackets(b, tokens.push(t)),
        opens_with_content(tokens.push(t)),
        open_brackets(tokens.push(t)) == depth_after(t.kind, open_brackets(tokens)),
{
    let more = tokens.push(t);
    assert(more.drop_last() =~= tokens);
    assert forall|i: int|
        0 <= i < more.len() && is_ruled_out(b, #[trigger] more[i]) implies open_brackets(
            more.take(i),
        ) == 0 by {
        assert(more.take(i) =~= tokens.take(i));
        if i == tokens.len() {
            assert(tokens.take(i) =~= tokens);
        } else {
            assert(more[i] == tokens[i]);
        }
    }
}

proof fn lemma_layout_closed(
    b: Seq<u8>,
    tokens: Seq<TokenView>,
    levels: Seq<int>,
    indent: int,
    dedent: TokenView,
)
    requires
        layout_outside_brackets(b, tokens),
        opens_with_content(tokens),
        dedent.kind == TokenKind::Dedent,
        dedent.start < b.len() ==> open_brackets(tokens) == 0,
        levels.len() > 0,
        levels[0] == 0,
        indent >= 0,
        levels.len() > 1 ==> tokens.len() > 0,
    ensures
        ({
            let closed = close_blocks(tokens, levels, indent, dedent);
            &&& layout_outside_brackets(b, closed.0)
            &&& opens_with_content(closed.0)
            &&& open_brackets(closed.0) == open_brackets(tokens)
            &&& closed.0.len() >= tokens.len()
            &&& closed.1.len() > 0
            &&& closed.1[0] == 0
        }),
    decreases levels.len(),
{
    if indent < levels.last() {
        lemma_layout_push(b, tokens, dedent);
        lemma_layout_closed(b, tokens.push(dedent), levels.drop_last(), indent, dedent);
    }
}

/// A token with text is no layout, and opens or closes a bracket as its text does.
proof fn lemma_content_kind(b: Seq<u8>, raw: TokenKind, start: int, end: int)
    requires
        is_longest_match(b, start, Lexeme::Token(raw), end),
    ensures
        ({
            let kind = content_token(b, raw, start, end).kind;
            &&& !is_line_layout(kind)
            &&& forall|depth: int| #[trigger] depth_after(kind, depth) == depth_after(raw, depth)
        }),
{
    assert(token_matches(raw, b.subrange(start, end)));
}

proof fn lemma_layout_flushed(b: Seq<u8>, st: LexState)
    requires
        layout_ok(b, st),
        st.pending matches Some(line) ==> line.indent >= 0,
    ensures
        flushed(b, st) matches Ok((out, indents)) ==> {
            &&& layout_outside_brackets(b, out)
            &&& opens_with_content(out)
            &&& open_brackets(out) == st.depth
            &&& indents.len() > 0
            &&& indents[0] == 0
        },
{
    match st.pending {
        Some(line) if st.out.len() > 0 => {
            let newline = layout_token(b, TokenKind::Newline, line.offset);
            lemma_layout_push(b, st.out, newline);
            let started = st.out.push(newline);
            let indent = layout_token(b, TokenKind::Indent, line.offset);
            lemma_layout_push(b, started, indent);
            let dedent = layout_token(b, TokenKind::Dedent, line.offset);
            lemma_layout_closed(b, started, st.indents, line.indent, dedent);
        },
        _ => {},
    }
}

proof fn lemma_layout_run(b: Seq<u8>, st: LexState)
    requires
        state_ok(b, st),
        layout_ok(b, st),
    ensures
        lex_run(b, st) matches Ok(done) ==> state_ok(b, done) && layout_ok(b, done),
    decreases b.len() - st.pos,
{
    lemma_run(b, st);
    if st.pos < b.len() {
        match lexeme_at(b, st.pos) {
            Some((lexeme, end)) if st.pos < end <= b.len() => {
                lemma_found_lexeme(b, st.pos);
                match lex_step(b, st, lexeme, end) {
                    Ok(next) if next.pos == end => {
                        lemma_step(b, st, lexeme, end);
                        if let Lexeme::Token(raw) = lexeme {
                            lemma_layout_flushed(b, st);
                            lemma_content_kind(b, raw, st.pos, end);
                            let (out, indents) = flushed(b, st)->Ok_0;
                            lemma_layout_push(b, out, content_token(b, raw, st.pos, end));
                        }
                        lemma_layout_run(b, next);
                    },
                    _ => {},
                }
            },
            _ => {},
        }
    }
}

/// Layout belongs to lines: a token list does not begin with it, and none stands inside brackets,
/// where line ends mean nothing. Only the blocks that the end of the source closes may close behind
/// a bracket that nothing closed.
pub proof fn layout_belongs_to_lines(b: Seq<u8>)
    requires
        valid_utf8(b),
    ensures
        lexed(b) matches Ok(tokens) ==> opens_with_content(tokens) && layout_outside_brackets(
            b,
            tokens,
        ),
{
    let st = initial_state();
    lemma_initial_ok(b);
    lemma_layout_run(b, st);
    if let Ok(done) = lex_run(b, st) {
        let n = b.len() as int;
        let (out, indents) = ended(b, done);
        match done.pending {
            Some(line) if done.out.len() > 0 => {
                let newline = layout_token(b, TokenKind::Newline, line.offset);
                let dedent = layout_token(b, TokenKind::Dedent, line.offset);
                lemma_layout_push(b, done.out, newline);
                lemma_layout_closed(b, done.out.push(newline), done.indents, 0, dedent);
            },
            _ => {},
        }
        lemma_layout_closed(b, out, indents, 0, layout_token(b, TokenKind::Dedent, n));
        let closed = close_blocks(out, indents, 0, layout_token(b, TokenKind::Dedent, n));
        lemma_layout_push(b, closed.0, layout_token(b, TokenKind::Eof, n));
    }
}

// ---------------------------------------------------------------------------
// What stands between tokens
// ---------------------------------------------------------------------------

/// The byte at `i` belongs to a token.
pub open spec fn in_token(tokens: Seq<TokenView>, i: int) -> bool {
    exists|k: int|
        0 <= k < tokens.len() && (#[trigger] tokens[k]).start <= i < tokens[k].end()
}

/// The byte at `i` is a blank or part of a line end.
pub open spec fn is_spacing(b: Seq<u8>, i: int) -> bool {
    is_blank(b[i]) || b[i] == 0x0a || (b[i] == 0x0d && i + 1 < b.len() && b[i + 1] == 0x0a)
}

/// The byte at `i` belongs to a comment: it stands on the line of a `#` that is in no token, at it or
/// behind it.
pub open spec fn in_comment(b: Seq<u8>, tokens: Seq<TokenView>, i: int) -> bool {
    exists|h: int|
        {
            &&& 0 <= h <= i
            &&& #[trigger] b[h] == 0x23
            &&& !in_token(tokens, h)
            &&& forall|j: int| h < j <= i ==> #[trigger] b[j] != 0x0a
        }
}

/// Every byte before `limit` is in a token, or spacing, or in a comment.
pub open spec fn accounted(b: Seq<u8>, tokens: Seq<TokenView>, limit: int) -> bool {
    forall|i: int|
        0 <= i < limit ==> #[trigger] in_token(tokens, i) || is_spacing(b, i) || in_comment(
            b,
            tokens,
            i,
        )
}

/// A token behind `limit`, or one without text, takes no byte before it.
proof fn lemma_accounted_push(b: Seq<u8>, tokens: Seq<TokenView>, limit: int, t: TokenView)
    requires
        accounted(b, tokens, limit),
        t.start >= limit || t.end() <= t.start,
    ensures
        accounted(b, tokens.push(t), limit),
{
    let more = tokens.push(t);
    assert forall|i: int| i < limit implies #[trigger] in_token(more, i) == in_token(tokens, i) by {
        if in_token(tokens, i) {
            let k = choose|k: int|
                0 <= k < tokens.len() && (#[trigger] tokens[k]).start <= i < tokens[k].end();
            assert(more[k] == tokens[k]);
        }
        if in_token(more, i) {
            let k = choose|k: int|
                0 <= k < more.len() && (#[trigger] more[k]).start <= i < more[k].end();
            assert(k < tokens.len());
            assert(more[k] == tokens[k]);
        }
    }
    assert forall|i: int| 0 <= i < limit implies #[trigger] in_token(more, i) || is_spacing(b, i)
        || in_comment(b, more, i) by {
        assert(in_token(tokens, i) || is_spacing(b, i) || in_comment(b, tokens, i));
        if in_comment(b, tokens, i) {
            let h = choose|h: int|
                {
                    &&& 0 <= h <= i
                    &&& #[trigger] b[h] == 0x23
                    &&& !in_token(tokens, h)
                    &&& forall|j: int| h < j <= i ==> #[trigger] b[j] != 0x0a
                };
            assert(in_token(more, h) == in_token(tokens, h));
        }
    }
}

proof fn lemma_accounted_closed(
    b: Seq<u8>,
    tokens: Seq<TokenView>,
    levels: Seq<int>,
    indent: int,
    dedent: TokenView,
    limit: int,
)
    requires
        accounted(b, tokens, limit),
        dedent.end() <= dedent.start,
    ensures
        accounted(b, close_blocks(tokens, levels, indent, dedent).0, limit),
    decreases levels.len(),
{
    if levels.len() > 0 && indent < levels.last() {
        lemma_accounted_push(b, tokens, limit, dedent);
        lemma_accounted_closed(b, tokens.push(dedent), levels.drop_last(), indent, dedent, limit);
    }
}

proof fn lemma_layout_empty(b: Seq<u8>, kind: TokenKind, offset: int)
    ensures
        layout_token(b, kind, offset).end() == layout_token(b, kind, offset).start,
{
    assert(encode_utf8(Seq::<char>::empty()).len() == 0);
}

proof fn lemma_accounted_flushed(b: Seq<u8>, st: LexState)
    requires
        accounted(b, st.out, st.pos),
    ensures
        flushed(b, st) matches Ok((out, indents)) ==> accounted(b, out, st.pos),
{
    if let Some(line) = st.pending {
        if st.out.len() > 0 {
            let newline = layout_token(b, TokenKind::Newline, line.offset);
            let indent = layout_token(b, TokenKind::Indent, line.offset);
            let dedent = layout_token(b, TokenKind::Dedent, line.offset);
            lemma_layout_empty(b, TokenKind::Newline, line.offset);
            lemma_layout_empty(b, TokenKind::Indent, line.offset);
            lemma_layout_empty(b, TokenKind::Dedent, line.offset);
            lemma_accounted_push(b, st.out, st.pos, newline);
            lemma_accounted_push(b, st.out.push(newline), st.pos, indent);
            lemma_accounted_closed(
                b,
                st.out.push(newline),
                st.indents,
                line.indent,
                dedent,
                st.pos,
            );
        }
    }
}

/// A lexeme that is no token is spacing or a comment.
proof fn lemma_accounted_trivia(b: Seq<u8>, st: LexState, lexeme: Lexeme, end: int)
    requires
        state_ok(b, st),
        accounted(b, st.out, st.pos),
        is_longest_match(b, st.pos, lexeme, end),
        lexeme is Space || lexeme is Comment || lexeme is Newline,
    ensures
        accounted(b, st.out, end),
{
    let pos = st.pos;
    let s = b.subrange(pos, end);
    assert forall|i: int| 0 <= i < end implies #[trigger] in_token(st.out, i) || is_spacing(b, i)
        || in_comment(b, st.out, i) by {
        if i >= pos {
            assert(s[i - pos] == b[i]);
            match lexeme {
                Lexeme::Comment => {
                    assert(s[0] == b[pos]);
                    assert(!in_token(st.out, pos)) by {
                        if in_token(st.out, pos) {
                            let k = choose|k: int|
                                0 <= k < st.out.len() && (#[trigger] st.out[k]).start <= pos
                                    < st.out[k].end();
                            assert(st.out[k].end() <= pos);
                        }
                    }
                    assert forall|j: int| pos < j <= i implies #[trigger] b[j] != 0x0a by {
                        assert(s[j - pos] == b[j]);
                    }
                    assert(in_comment(b, st.out, i));
                },
                Lexeme::Newline => {
                    let blanks = choose|blanks: int| #[trigger] line_start(s, blanks, 0);
                    assert(line_start(s, blanks, 0));
                    assert(s[0] == b[pos]);
                    if b[pos] == 0x0d {
                        assert(s[1] == b[pos + 1]);
                    }
                },
                _ => {},
            }
        }
    }
}

proof fn lemma_accounted_run(b: Seq<u8>, st: LexState)
    requires
        state_ok(b, st),
        accounted(b, st.out, st.pos),
    ensures
        lex_run(b, st) matches Ok(done) ==> accounted(b, done.out, b.len() as int),
    decreases b.len() - st.pos,
{
    if st.pos < b.len() {
        match lexeme_at(b, st.pos) {
            Some((lexeme, end)) if st.pos < end <= b.len() => {
                lemma_found_lexeme(b, st.pos);
                match lex_step(b, st, lexeme, end) {
                    Ok(next) if next.pos == end => {
                        lemma_step(b, st, lexeme, end);
                        if let Lexeme::Token(raw) = lexeme {
                            lemma_accounted_flushed(b, st);
                            lemma_content_ok(b, raw, st.pos, end);
                            let (out, indents) = flushed(b, st)->Ok_0;
                            let t = content_token(b, raw, st.pos, end);
                            lemma_accounted_push(b, out, st.pos, t);
                            let more = out.push(t);
                            assert forall|i: int| 0 <= i < end implies #[trigger] in_token(more, i)
                                || is_spacing(b, i) || in_comment(b, more, i) by {
                                if i >= st.pos {
                                    assert(more[out.len() as int] == t);
                                }
                            }
                        } else {
                            lemma_accounted_trivia(b, st, lexeme, end);
                        }
                        lemma_accounted_run(b, next);
                    },
                    _ => {},
                }
            },
            _ => {},
        }
    }
}

/// Nothing of a source is passed over in silence: every byte outside the tokens is a blank, part of a
/// line end, or in a comment.
pub proof fn lexed_tokens_leave_out_trivia_only(b: Seq<u8>)
    requires
        valid_utf8(b),
    ensures
        lexed(b) matches Ok(tokens) ==> accounted(b, tokens, b.len() as int),
{
    let st = initial_state();
    let n = b.len() as int;
    lemma_initial_ok(b);
    lemma_accounted_run(b, st);
    if let Ok(done) = lex_run(b, st) {
        let (out, indents) = ended(b, done);
        if let Some(line) = done.pending {
            if done.out.len() > 0 {
                let newline = layout_token(b, TokenKind::Newline, line.offset);
                let dedent = layout_token(b, TokenKind::Dedent, line.offset);
                lemma_layout_empty(b, TokenKind::Newline, line.offset);
                lemma_layout_empty(b, TokenKind::Dedent, line.offset);
                lemma_accounted_push(b, done.out, n, newline);
                lemma_accounted_closed(b, done.out.push(newline), done.indents, 0, dedent, n);
            }
        }
        let dedent = layout_token(b, TokenKind::Dedent, n);
        lemma_layout_empty(b, TokenKind::Dedent, n);
        lemma_layout_empty(b, TokenKind::Eof, n);
        lemma_accounted_closed(b, out, indents, 0, dedent, n);
        let closed = close_blocks(out, indents, 0, dedent);
        lemma_accounted_push(b, closed.0, n, layout_token(b, TokenKind::Eof, n));
    }
}

} // verus!
