//! The lexer: source text to a flat list of tokens, with indentation turned into tokens of its own.

use crate::lexeme::{is_longest_match, is_quote, forms, next_lexeme, no_match, Lexeme};
use crate::text::{join3, lemma_ascii_ends_char, same, slice};
use vstd::prelude::*;
use vstd::string::*;
use vstd::utf8::*;

pub use crate::lexeme::TokenKind;

verus! {

broadcast use encode_utf8_valid_utf8;

/// The longest source the parser takes, in bytes: arena ids are 32-bit, and an expression can need
/// two arena entries per byte.
pub const MAX_SOURCE_LEN: usize = 0x7fff_ffff;

// ---------------------------------------------------------------------------
// Spans and positions
// ---------------------------------------------------------------------------

/// A half-open byte range into the source.
///
/// Byte offsets rather than line/column: the parser copies them straight off a token with no
/// arithmetic, and [`LineIndex`] resolves them for display only when something is actually
/// reported. A span is what lets a diagnostic point at source text.
#[derive(Debug, Clone, Copy, PartialEq, Eq, Structural)]
pub struct Span {
    pub start: u32,
    pub end: u32,
}

/// The span that stands for a position never recorded.
pub open spec fn no_span() -> Span {
    Span { start: 0, end: 0 }
}

impl Span {
    /// The span of something whose position was never recorded. Analyses report it as "no
    /// position" rather than pointing at the start of the file.
    ///
    /// It is indistinguishable from a genuine empty span at offset 0, which no real token has.
    pub fn unknown() -> (span: Span)
        ensures
            span == no_span(),
    {
        Span { start: 0, end: 0 }
    }

    pub fn new(start: u32, end: u32) -> (span: Span)
        ensures
            span == (Span { start, end }),
    {
        Span { start, end }
    }

    pub fn is_unknown(&self) -> (r: bool)
        ensures
            r == (*self == no_span()),
    {
        self.start == 0 && self.end == 0
    }

    /// The source text this span covers.
    pub fn text<'src>(&self, src: &'src str) -> (r: &'src str)
        requires
            self.start <= self.end,
            is_char_boundary(src.spec_bytes(), self.start as int),
            is_char_boundary(src.spec_bytes(), self.end as int),
        ensures
            r.spec_bytes() == src.spec_bytes().subrange(self.start as int, self.end as int),
    {
        slice(src, self.start as usize, self.end as usize)
    }
}

/// Where the lines of a source begin: at 0, and behind every line feed.
pub open spec fn line_starts(b: Seq<u8>) -> Seq<int>
    decreases b.len(),
{
    if b.len() == 0 {
        seq![0]
    } else if b.last() == 0x0a {
        line_starts(b.drop_last()).push(b.len() as int)
    } else {
        line_starts(b.drop_last())
    }
}

/// How many of `starts` lie at or before `offset`.
pub open spec fn lines_up_to(starts: Seq<int>, offset: int) -> nat
    decreases starts.len(),
{
    if starts.len() == 0 {
        0
    } else {
        lines_up_to(starts.drop_last(), offset) + if starts.last() <= offset {
            1nat
        } else {
            0
        }
    }
}

/// The 1-based line and column of `offset`, given where the lines begin.
pub open spec fn locate_in(starts: Seq<int>, offset: int) -> (int, int) {
    let line = lines_up_to(starts, offset) as int;
    (line, offset - starts[line - 1] + 1)
}

/// The 1-based line and column of `offset` in a source.
pub open spec fn position(b: Seq<u8>, offset: int) -> (int, int) {
    locate_in(line_starts(b), offset)
}

/// The first line begins at 0, and each later one begins further on.
pub open spec fn ascending_from_zero(starts: Seq<int>) -> bool {
    &&& starts.len() > 0
    &&& starts[0] == 0
    &&& forall|i: int, j: int| 0 <= i < j < starts.len() ==> starts[i] < starts[j]
}

proof fn lemma_line_starts(b: Seq<u8>)
    ensures
        ascending_from_zero(line_starts(b)),
        line_starts(b).len() <= b.len() + 1,
        forall|i: int| 0 <= i < line_starts(b).len() ==> #[trigger] line_starts(b)[i] <= b.len(),
    decreases b.len(),
{
    if b.len() > 0 {
        lemma_line_starts(b.drop_last());
    }
}

proof fn lemma_lines_up_to(starts: Seq<int>, offset: int, line: int)
    requires
        0 <= line <= starts.len(),
        forall|i: int| 0 <= i < line ==> #[trigger] starts[i] <= offset,
        forall|i: int| line <= i < starts.len() ==> #[trigger] starts[i] > offset,
    ensures
        lines_up_to(starts, offset) == line,
    decreases starts.len(),
{
    if starts.len() > 0 {
        let rest = starts.drop_last();
        let n = if line == starts.len() { line - 1 } else { line };
        assert forall|i: int| n <= i < rest.len() implies #[trigger] rest[i] > offset by {
            assert(starts[i] > offset);
        }
        lemma_lines_up_to(rest, offset, n);
    }
}

/// How many line feeds stand before `offset`.
pub open spec fn feeds_before(b: Seq<u8>, offset: int) -> nat
    decreases offset,
{
    if offset <= 0 {
        0
    } else {
        feeds_before(b, offset - 1) + if b[offset - 1] == 0x0a {
            1nat
        } else {
            0
        }
    }
}

/// A position names the line by the line feeds before it, and the column by the bytes since the
/// last of them: no line feed stands between the line's first byte and the offset.
pub proof fn position_counts_line_feeds(b: Seq<u8>, offset: int)
    requires
        0 <= offset <= b.len(),
    ensures
        position(b, offset).0 == feeds_before(b, offset) + 1,
        1 <= position(b, offset).1 <= offset + 1,
        forall|i: int|
            offset + 1 - position(b, offset).1 <= i < offset ==> #[trigger] b[i] != 0x0a,
        offset + 1 - position(b, offset).1 == 0 || b[offset - position(b, offset).1] == 0x0a,
    decreases b.len(),
{
    let starts = line_starts(b);
    lemma_line_starts(b);
    if b.len() == 0 {
        lemma_lines_up_to(starts, 0, 1);
        assert(feeds_before(b, 0) == 0);
    } else {
        let head = b.drop_last();
        lemma_line_starts(head);
        if offset < b.len() {
            position_counts_line_feeds(head, offset);
            lemma_feeds_prefix(b, head, offset);
            if b.last() == 0x0a {
                assert(starts.drop_last() =~= line_starts(head));
                assert(lines_up_to(starts, offset) == lines_up_to(line_starts(head), offset));
            }
            assert(locate_in(starts, offset) == locate_in(line_starts(head), offset)) by {
                lemma_lines_bound(line_starts(head), offset);
            }
            let p = position(b, offset);
            assert forall|i: int| offset + 1 - p.1 <= i < offset implies #[trigger] b[i] != 0x0a by {
                assert(head[i] == b[i]);
            }
        } else {
            position_counts_line_feeds(head, offset - 1);
            lemma_feeds_prefix(b, head, offset - 1);
            lemma_lines_bound(line_starts(head), offset - 1);
            let p = position(head, offset - 1);
            assert forall|i: int| 0 <= i < line_starts(head).len() implies #[trigger] line_starts(
                head,
            )[i] <= offset - 1 by {}
            lemma_lines_up_to(line_starts(head), offset - 1, line_starts(head).len() as int);
            lemma_lines_up_to(starts, offset, starts.len() as int);
            if b.last() == 0x0a {
                assert(starts.last() == offset);
            } else {
                assert(starts == line_starts(head));
                let q = position(b, offset);
                assert(q.1 == p.1 + 1);
                assert forall|i: int| offset + 1 - q.1 <= i < offset implies #[trigger] b[i]
                    != 0x0a by {
                    if i < offset - 1 {
                        assert(head[i] == b[i]);
                    }
                }
            }
        }
    }
}

pub proof fn lemma_feeds_prefix(b: Seq<u8>, head: Seq<u8>, offset: int)
    requires
        head == b.drop_last(),
        offset <= head.len(),
        b.len() > 0,
    ensures
        feeds_before(b, offset) == feeds_before(head, offset),
    decreases offset,
{
    if offset > 0 {
        lemma_feeds_prefix(b, head, offset - 1);
        assert(head[offset - 1] == b[offset - 1]);
    }
}

proof fn lemma_lines_bound(starts: Seq<int>, offset: int)
    requires
        ascending_from_zero(starts),
        offset >= 0,
    ensures
        1 <= lines_up_to(starts, offset) <= starts.len(),
        starts[lines_up_to(starts, offset) as int - 1] <= offset,
    decreases starts.len(),
{
    if starts.len() > 1 {
        lemma_lines_bound(starts.drop_last(), offset);
        if starts.last() <= offset {
            assert forall|i: int| 0 <= i < starts.len() implies #[trigger] starts[i] <= offset by {}
            lemma_lines_up_to(starts, offset, starts.len() as int);
        }
    } else {
        lemma_lines_up_to(starts, offset, 1);
    }
}

/// Line-start offsets for one source, so a byte offset resolves to a 1-based line and column.
///
/// Built once and queried many times: the lexer uses it to place errors, and the analysis layer to
/// render diagnostics.
pub struct LineIndex {
    line_starts: Vec<u32>,
}

impl View for LineIndex {
    type V = Seq<int>;

    closed spec fn view(&self) -> Seq<int> {
        Seq::new(self.line_starts@.len(), |i: int| self.line_starts@[i] as int)
    }
}

impl LineIndex {
    #[verifier::type_invariant]
    spec fn well_formed(&self) -> bool {
        ascending_from_zero(self@)
    }

    pub fn new(src: &str) -> (index: LineIndex)
        requires
            src.spec_bytes().len() < u32::MAX,
        ensures
            index@ == line_starts(src.spec_bytes()),
    {
        let bytes: &[u8] = src.as_bytes();
        let mut starts: Vec<u32> = Vec::new();
        starts.push(0);
        let mut i: usize = 0;
        let ghost b = src.spec_bytes();
        proof {
            assert(b.subrange(0, 0).len() == 0);
            assert(Seq::new(starts@.len(), |i: int| starts@[i] as int) =~= line_starts(
                b.subrange(0, 0),
            ));
        }
        while i < bytes.len()
            invariant
                i <= bytes.len() < u32::MAX,
                bytes@ == b,
                b == src.spec_bytes(),
                Seq::new(starts@.len(), |i: int| starts@[i] as int) == line_starts(
                    b.subrange(0, i as int),
                ),
            decreases bytes.len() - i,
        {
            let ghost before = starts@;
            proof {
                assert(b.subrange(0, i + 1).drop_last() =~= b.subrange(0, i as int));
                assert(b.subrange(0, i + 1).last() == b[i as int]);
            }
            if bytes[i] == 0x0a {
                starts.push(i as u32 + 1);
                assert(Seq::new(starts@.len(), |i: int| starts@[i] as int) =~= Seq::new(
                    before.len(),
                    |i: int| before[i] as int,
                ).push(i + 1));
            }
            i = i + 1;
        }
        assert(b.subrange(0, i as int) =~= b);
        proof {
            lemma_line_starts(b);
        }
        LineIndex { line_starts: starts }
    }

    /// The 1-based line and column containing `offset`. A column counts bytes, not characters.
    pub fn locate(&self, offset: u32) -> (place: (u32, u32))
        requires
            offset < u32::MAX,
        ensures
            (place.0 as int, place.1 as int) == locate_in(self@, offset as int),
    {
        proof {
            use_type_invariant(self);
        }
        let starts: &Vec<u32> = &self.line_starts;
        let ghost s = self@;
        // The lines before `low` begin at or before `offset`; those from `high` on begin behind it.
        let mut low: usize = 1;
        let mut high: usize = starts.len();
        assert(s[0] == 0);
        assert(forall|i: int| 0 <= i < starts.len() ==> #[trigger] s[i] == starts@[i]);
        while low < high
            invariant
                1 <= low <= high <= starts.len(),
                s.len() == starts.len(),
                forall|i: int| 0 <= i < starts.len() ==> #[trigger] s[i] == starts@[i],
                ascending_from_zero(s),
                forall|i: int| 0 <= i < low ==> #[trigger] s[i] <= offset,
                forall|i: int| high <= i < starts.len() ==> #[trigger] s[i] > offset,
            decreases high - low,
        {
            let middle: usize = low + (high - low) / 2;
            if starts[middle] <= offset {
                assert forall|i: int| 0 <= i < middle + 1 implies #[trigger] s[i] <= offset by {
                    assert(s[middle as int] <= offset);
                }
                low = middle + 1;
            } else {
                assert forall|i: int| middle <= i < starts.len() implies #[trigger] s[i]
                    > offset by {
                    assert(s[middle as int] > offset);
                }
                high = middle;
            }
        }
        proof {
            lemma_lines_up_to(s, offset as int, low as int);
            assert(s[low - 1] == starts@[low - 1]);
            lemma_ascending_bounds(s, low as int);
        }
        (low as u32, offset - starts[low - 1] + 1)
    }
}

/// A strictly ascending sequence of naturals grows at least as fast as its index.
proof fn lemma_ascending_bounds(starts: Seq<int>, n: int)
    requires
        ascending_from_zero(starts),
        1 <= n <= starts.len(),
    ensures
        starts[n - 1] >= n - 1,
    decreases n,
{
    if n > 1 {
        lemma_ascending_bounds(starts, n - 1);
        assert(starts[n - 2] < starts[n - 1]);
    }
}

// ---------------------------------------------------------------------------
// Tokens
// ---------------------------------------------------------------------------

/// A lexical token: its [`TokenKind`], the `text` it spans (a slice of the source, empty for
/// synthetic layout tokens), the byte offset it starts at, and the 1-based `line`/`col` of that
/// start for diagnostics.
#[derive(Debug, Clone, Copy)]
pub struct Token<'src> {
    pub kind: TokenKind,
    pub text: &'src str,
    /// Byte offset of the token's first character. Synthetic layout tokens carry the offset of the
    /// position they were manufactured at.
    pub start: u32,
    pub line: u32,
    pub col: u32,
}

/// What a token says: its fields, with the text as characters.
pub struct TokenView {
    pub kind: TokenKind,
    pub text: Seq<char>,
    pub start: int,
    pub line: int,
    pub col: int,
}

impl<'src> View for Token<'src> {
    type V = TokenView;

    open spec fn view(&self) -> TokenView {
        TokenView {
            kind: self.kind,
            text: self.text@,
            start: self.start as int,
            line: self.line as int,
            col: self.col as int,
        }
    }
}

impl TokenView {
    /// Where the token's text ends.
    pub open spec fn end(self) -> int {
        self.start + encode_utf8(self.text).len()
    }
}

impl<'src> Token<'src> {
    /// The token's source range.
    pub fn span(&self) -> (span: Span)
        requires
            self@.end() <= u32::MAX,
        ensures
            span.start == self.start,
            span.end == self@.end(),
    {
        Span::new(self.start, self.start + self.text.len() as u32)
    }
}

/// A lexing failure: a [`message`](Self::message) plus the 1-based `line`/`col` where it occurred.
#[derive(Debug)]
pub struct LexError {
    pub message: String,
    pub line: u32,
    pub col: u32,
}

/// What a lexing failure says.
pub struct LexErrorView {
    pub message: Seq<char>,
    pub line: int,
    pub col: int,
}

impl View for LexError {
    type V = LexErrorView;

    open spec fn view(&self) -> LexErrorView {
        LexErrorView { message: self.message@, line: self.line as int, col: self.col as int }
    }
}

/// The views of a list of tokens.
pub open spec fn token_views(tokens: Seq<Token<'_>>) -> Seq<TokenView> {
    Seq::new(tokens.len(), |i: int| tokens[i]@)
}

// ---------------------------------------------------------------------------
// What lexing means
// ---------------------------------------------------------------------------

/// The token kind of a word: a keyword's own kind, or `Identifier`.
pub open spec fn word_kind(text: Seq<char>) -> TokenKind {
    if text == "div"@ {
        TokenKind::KwDiv
    } else if text == "mod"@ {
        TokenKind::KwMod
    } else if text == "is"@ {
        TokenKind::KwIs
    } else if text == "true"@ {
        TokenKind::KwTrue
    } else if text == "false"@ {
        TokenKind::KwFalse
    } else if text == "and"@ {
        TokenKind::KwAnd
    } else if text == "or"@ {
        TokenKind::KwOr
    } else if text == "xor"@ {
        TokenKind::KwXor
    } else if text == "not"@ {
        TokenKind::KwNot
    } else if text == "if"@ {
        TokenKind::KwIf
    } else if text == "elif"@ {
        TokenKind::KwElif
    } else if text == "else"@ {
        TokenKind::KwElse
    } else if text == "while"@ {
        TokenKind::KwWhile
    } else if text == "until"@ {
        TokenKind::KwUntil
    } else if text == "loop"@ {
        TokenKind::KwLoop
    } else if text == "for"@ {
        TokenKind::KwFor
    } else if text == "in"@ {
        TokenKind::KwIn
    } else {
        TokenKind::Identifier
    }
}

/// A token the lexer makes itself at `offset`; it has no text.
pub open spec fn layout_token(b: Seq<u8>, kind: TokenKind, offset: int) -> TokenView {
    TokenView {
        kind,
        text: Seq::empty(),
        start: offset,
        line: position(b, offset).0,
        col: position(b, offset).1,
    }
}

/// The token that the bytes from `start` to `end` form.
pub open spec fn content_token(b: Seq<u8>, raw: TokenKind, start: int, end: int) -> TokenView {
    let text = decode_utf8(b.subrange(start, end));
    TokenView {
        kind: if raw == TokenKind::Identifier {
            word_kind(text)
        } else {
            raw
        },
        text,
        start,
        line: position(b, start).0,
        col: position(b, start).1,
    }
}

/// The longest lexeme at `pos` and where it ends; `None` when nothing matches.
pub open spec fn lexeme_at(b: Seq<u8>, pos: int) -> Option<(Lexeme, int)> {
    if exists|lexeme: Lexeme, end: int| is_longest_match(b, pos, lexeme, end) {
        Some(choose|found: (Lexeme, int)| is_longest_match(b, pos, found.0, #[trigger] found.1))
    } else {
        None
    }
}

/// The first offset from `from` on where a character begins or the source ends.
pub open spec fn char_start_from(b: Seq<u8>, from: int) -> int
    decreases b.len() - from,
{
    if from < b.len() && is_continuation_byte(b[from]) {
        char_start_from(b, from + 1)
    } else {
        from
    }
}

/// The end of the text reported when nothing matches at `pos`: an opening quote runs to the end of
/// the source in search of its closing one; otherwise it is the one character there.
pub open spec fn unexpected_end(b: Seq<u8>, pos: int) -> int {
    if is_quote(b[pos]) {
        b.len() as int
    } else {
        char_start_from(b, pos + 1)
    }
}

pub open spec fn error_at(b: Seq<u8>, message: Seq<char>, offset: int) -> LexErrorView {
    LexErrorView { message, line: position(b, offset).0, col: position(b, offset).1 }
}

/// A line that awaits its first token: how far it is indented, and where its line end stands.
pub struct PendingLine {
    pub indent: int,
    pub offset: int,
}

/// How far lexing has come.
pub struct LexState {
    pub pos: int,
    /// The tokens so far.
    pub out: Seq<TokenView>,
    /// The indentations of the open blocks, outermost (0) first.
    pub indents: Seq<int>,
    /// How many brackets and parentheses are open.
    pub depth: int,
    pub pending: Option<PendingLine>,
}

pub open spec fn initial_state() -> LexState {
    LexState { pos: 0, out: Seq::empty(), indents: seq![0], depth: 0, pending: None }
}

/// Closes every block indented deeper than `indent`, with one `Dedent` each.
pub open spec fn close_blocks(
    out: Seq<TokenView>,
    indents: Seq<int>,
    indent: int,
    dedent: TokenView,
) -> (Seq<TokenView>, Seq<int>)
    decreases indents.len(),
{
    if indents.len() > 0 && indent < indents.last() {
        close_blocks(out.push(dedent), indents.drop_last(), indent, dedent)
    } else {
        (out, indents)
    }
}

/// Opens a line that turned out to have content: a `Newline`, then an `Indent` or the `Dedent`s
/// that its indentation calls for. The indentation it returns to must be that of an open block.
pub open spec fn open_line(
    b: Seq<u8>,
    out: Seq<TokenView>,
    indents: Seq<int>,
    line: PendingLine,
) -> Result<(Seq<TokenView>, Seq<int>), LexErrorView> {
    let started = out.push(layout_token(b, TokenKind::Newline, line.offset));
    if line.indent > indents.last() {
        Ok(
            (
                started.push(layout_token(b, TokenKind::Indent, line.offset)),
                indents.push(line.indent),
            ),
        )
    } else {
        let closed = close_blocks(
            started,
            indents,
            line.indent,
            layout_token(b, TokenKind::Dedent, line.offset),
        );
        if closed.1.last() == line.indent {
            Ok(closed)
        } else {
            Err(error_at(b, "Inconsistent indentation."@, line.offset))
        }
    }
}

/// The tokens and open blocks once the pending line, if any, is opened. Nothing precedes the first
/// token, so a line pending before it opens nothing.
pub open spec fn flushed(b: Seq<u8>, st: LexState) -> Result<
    (Seq<TokenView>, Seq<int>),
    LexErrorView,
> {
    match st.pending {
        Some(line) if st.out.len() > 0 => open_line(b, st.out, st.indents, line),
        _ => Ok((st.out, st.indents)),
    }
}

/// The bracket depth behind a token.
pub open spec fn depth_after(kind: TokenKind, depth: int) -> int {
    match kind {
        TokenKind::LParen | TokenKind::LBracket => depth + 1,
        TokenKind::RParen | TokenKind::RBracket => if depth > 0 {
            depth - 1
        } else {
            0
        },
        _ => depth,
    }
}

/// One lexeme taken. A line end outside brackets leaves its line pending; inside them it is
/// nothing. A token opens the pending line and is appended.
pub open spec fn lex_step(b: Seq<u8>, st: LexState, lexeme: Lexeme, end: int) -> Result<
    LexState,
    LexErrorView,
> {
    match lexeme {
        Lexeme::Space | Lexeme::Comment => Ok(LexState { pos: end, ..st }),
        Lexeme::Newline => {
            let feed = if b[st.pos] == 0x0d {
                2int
            } else {
                1int
            };
            Ok(
                LexState {
                    pos: end,
                    pending: if st.depth == 0 {
                        Some(PendingLine { indent: end - st.pos - feed, offset: st.pos })
                    } else {
                        st.pending
                    },
                    ..st
                },
            )
        },
        Lexeme::TabIndent => Err(error_at(b, "Tabs are not allowed in indentation."@, end - 1)),
        Lexeme::Token(kind) => match flushed(b, st) {
            Err(error) => Err(error),
            Ok((out, indents)) => Ok(
                LexState {
                    pos: end,
                    out: out.push(content_token(b, kind, st.pos, end)),
                    indents,
                    depth: depth_after(kind, st.depth),
                    pending: None,
                },
            ),
        },
    }
}

/// Takes lexemes until the source is used up or something fails.
pub open spec fn lex_run(b: Seq<u8>, st: LexState) -> Result<LexState, LexErrorView>
    decreases b.len() - st.pos,
{
    if st.pos >= b.len() {
        Ok(st)
    } else {
        match lexeme_at(b, st.pos) {
            Some((lexeme, end)) if st.pos < end <= b.len() => match lex_step(b, st, lexeme, end) {
                Ok(next) if next.pos == end => lex_run(b, next),
                other => other,
            },
            _ => Err(
                error_at(
                    b,
                    "Unexpected character `"@ + decode_utf8(
                        b.subrange(st.pos, unexpected_end(b, st.pos)),
                    ) + "`."@,
                    st.pos,
                ),
            ),
        }
    }
}

/// The tokens and open blocks where the source ends. A line still pending has nothing on it but
/// blanks and comments, so its indentation does not count: its `Newline` closes the last statement,
/// and the open blocks close with it.
pub open spec fn ended(b: Seq<u8>, st: LexState) -> (Seq<TokenView>, Seq<int>) {
    match st.pending {
        Some(line) if st.out.len() > 0 => close_blocks(
            st.out.push(layout_token(b, TokenKind::Newline, line.offset)),
            st.indents,
            0,
            layout_token(b, TokenKind::Dedent, line.offset),
        ),
        _ => (st.out, st.indents),
    }
}

/// The end of the source: a pending line end closes its statement, every open block is closed, and
/// `Eof` follows.
pub open spec fn lex_finish(b: Seq<u8>, st: LexState) -> Seq<TokenView> {
    let (out, indents) = ended(b, st);
    close_blocks(out, indents, 0, layout_token(b, TokenKind::Dedent, b.len() as int)).0.push(
        layout_token(b, TokenKind::Eof, b.len() as int),
    )
}

/// The tokens of a source, or its first error.
pub open spec fn lexed(b: Seq<u8>) -> Result<Seq<TokenView>, LexErrorView> {
    match lex_run(b, initial_state()) {
        Err(error) => Err(error),
        Ok(st) => Ok(lex_finish(b, st)),
    }
}

// ---------------------------------------------------------------------------
// The lexer itself
// ---------------------------------------------------------------------------

pub proof fn lemma_lexeme_at(b: Seq<u8>, pos: int, lexeme: Lexeme, end: int)
    requires
        is_longest_match(b, pos, lexeme, end),
    ensures
        lexeme_at(b, pos) == Some((lexeme, end)),
{
    let pair = (lexeme, end);
    assert(is_longest_match(b, pos, pair.0, pair.1));
    let found = choose|found: (Lexeme, int)|
        is_longest_match(b, pos, found.0, #[trigger] found.1);
    assert(is_longest_match(b, pos, found.0, found.1));
    if found.1 < end {
        assert(forms(lexeme, b.subrange(pos, end)));
    } else if end < found.1 {
        assert(forms(found.0, b.subrange(pos, found.1)));
    }
    crate::lexeme::lexemes_are_disjoint(lexeme, found.0, b.subrange(pos, end));
}

proof fn lemma_no_lexeme_at(b: Seq<u8>, pos: int)
    requires
        no_match(b, pos),
    ensures
        lexeme_at(b, pos) is None,
{
    if exists|lexeme: Lexeme, end: int| is_longest_match(b, pos, lexeme, end) {
        let (lexeme, end) = choose|lexeme: Lexeme, end: int| is_longest_match(b, pos, lexeme, end);
        assert(forms(lexeme, b.subrange(pos, end)));
    }
}

/// A lexeme that starts at a character boundary ends at one, and a token starts and ends in ASCII.
pub proof fn lemma_lexeme_boundaries(b: Seq<u8>, pos: int, lexeme: Lexeme, end: int)
    requires
        valid_utf8(b),
        0 <= pos,
        is_longest_match(b, pos, lexeme, end),
    ensures
        is_char_boundary(b, end),
        lexeme is Token ==> is_char_boundary(b, pos),
{
    let s = b.subrange(pos, end);
    crate::lexeme::lemma_ascii_ends(lexeme, s);
    assert(s[0] == b[pos]);
    assert(s[s.len() - 1] == b[end - 1]);
    lemma_ascii_ends_char(b, pos);
    if lexeme is Comment {
        if end < b.len() {
            if b[end] != 0x0a {
                let t = b.subrange(pos, end + 1);
                assert forall|i: int| 0 < i < t.len() implies #[trigger] t[i] != 0x0a by {
                    if i < s.len() {
                        assert(t[i] == s[i]);
                    } else {
                        assert(t[i] == b[end]);
                    }
                }
                assert(t[0] == s[0]);
                assert(forms(Lexeme::Comment, t));
            }
            is_char_boundary_iff_not_is_continuation_byte(b, end);
        } else {
            is_char_boundary_start_end_of_seq(b);
        }
    } else {
        lemma_ascii_ends_char(b, end - 1);
    }
}

/// The token kind of a word.
fn classify_word(text: &str) -> (kind: TokenKind)
    ensures
        kind == word_kind(text@),
{
    if same(text, "div") {
        TokenKind::KwDiv
    } else if same(text, "mod") {
        TokenKind::KwMod
    } else if same(text, "is") {
        TokenKind::KwIs
    } else if same(text, "true") {
        TokenKind::KwTrue
    } else if same(text, "false") {
        TokenKind::KwFalse
    } else if same(text, "and") {
        TokenKind::KwAnd
    } else if same(text, "or") {
        TokenKind::KwOr
    } else if same(text, "xor") {
        TokenKind::KwXor
    } else if same(text, "not") {
        TokenKind::KwNot
    } else if same(text, "if") {
        TokenKind::KwIf
    } else if same(text, "elif") {
        TokenKind::KwElif
    } else if same(text, "else") {
        TokenKind::KwElse
    } else if same(text, "while") {
        TokenKind::KwWhile
    } else if same(text, "until") {
        TokenKind::KwUntil
    } else if same(text, "loop") {
        TokenKind::KwLoop
    } else if same(text, "for") {
        TokenKind::KwFor
    } else if same(text, "in") {
        TokenKind::KwIn
    } else {
        TokenKind::Identifier
    }
}

/// Builds a token the lexer manufactures itself rather than matching from source:
/// `Newline`, `Indent`, `Dedent`, `Eof`. These have no backing source slice, so `text`
/// is empty — the empty `text` is what distinguishes them from lexed tokens.
fn synthetic<'src>(kind: TokenKind, start: u32, line: u32, col: u32) -> (token: Token<'src>)
    ensures
        token@ == (TokenView {
            kind,
            text: Seq::empty(),
            start: start as int,
            line: line as int,
            col: col as int,
        }),
{
    proof {
        reveal_strlit("");
        assert(""@ =~= Seq::<char>::empty());
    }
    Token { kind, text: "", start, line, col }
}

pub open spec fn indent_views(indents: Seq<usize>) -> Seq<int> {
    Seq::new(indents.len(), |i: int| indents[i] as int)
}

spec fn pending_view(pending: Option<(usize, u32, u32, u32)>) -> Option<PendingLine> {
    match pending {
        Some((indent, offset, _, _)) => Some(
            PendingLine { indent: indent as int, offset: offset as int },
        ),
        None => None,
    }
}

/// Indentations start at 0, and only the outermost one is 0.
spec fn rooted(indents: Seq<usize>) -> bool {
    &&& indents.len() > 0
    &&& indents[0] == 0
    &&& forall|i: int| 1 <= i < indents.len() ==> #[trigger] indents[i] > 0
}

/// Emits the `Newline` and any indent change recorded for a line boundary, once a content-bearing
/// line has been confirmed to follow. Does nothing if no newline is pending.
fn flush_pending_newline<'src>(
    out: &mut Vec<Token<'src>>,
    indents: &mut Vec<usize>,
    pending: &mut Option<(usize, u32, u32, u32)>,
    Ghost(b): Ghost<Seq<u8>>,
) -> (r: Result<(), LexError>)
    requires
        rooted(old(indents)@),
        *old(pending) matches Some(p) ==> position(b, p.1 as int) == (p.2 as int, p.3 as int),
    ensures
        *final(pending) is None,
        ({
            let done = match pending_view(*old(pending)) {
                Some(line) => open_line(
                    b,
                    token_views(old(out)@),
                    indent_views(old(indents)@),
                    line,
                ),
                None => Ok((token_views(old(out)@), indent_views(old(indents)@))),
            };
            match r {
                Ok(()) => {
                    &&& rooted(final(indents)@)
                    &&& done == Ok::<_, LexErrorView>(
                        (token_views(final(out)@), indent_views(final(indents)@)),
                    )
                },
                Err(error) => done == Err::<(Seq<TokenView>, Seq<int>), _>(error@),
            }
        }),
{
    if let Some((indent, offset, line, col)) = pending.take() {
        let ghost before = token_views(out@);
        out.push(synthetic(TokenKind::Newline, offset, line, col));
        assert(token_views(out@) =~= before.push(layout_token(b, TokenKind::Newline, offset as int)));
        emit_indent(out, indents, indent, offset, line, col, Ghost(b))
    } else {
        Ok(())
    }
}

fn emit_indent<'src>(
    out: &mut Vec<Token<'src>>,
    indents: &mut Vec<usize>,
    indent: usize,
    offset: u32,
    line: u32,
    col: u32,
    Ghost(b): Ghost<Seq<u8>>,
) -> (r: Result<(), LexError>)
    requires
        rooted(old(indents)@),
        position(b, offset as int) == (line as int, col as int),
    ensures
        ({
            let closed = close_blocks(
                token_views(old(out)@),
                indent_views(old(indents)@),
                indent as int,
                layout_token(b, TokenKind::Dedent, offset as int),
            );
            if indent > old(indents)@.last() {
                &&& r is Ok
                &&& rooted(final(indents)@)
                &&& token_views(final(out)@) == token_views(old(out)@).push(
                    layout_token(b, TokenKind::Indent, offset as int),
                )
                &&& indent_views(final(indents)@) == indent_views(old(indents)@).push(indent as int)
            } else {
                match r {
                    Ok(()) => {
                        &&& rooted(final(indents)@)
                        &&& (token_views(final(out)@), indent_views(final(indents)@)) == closed
                        &&& closed.1.last() == indent
                    },
                    Err(error) => {
                        &&& closed.1.last() != indent
                        &&& error@ == error_at(b, "Inconsistent indentation."@, offset as int)
                    },
                }
            }
        }),
{
    let top: usize = indents[indents.len() - 1];
    let ghost views = token_views(out@);
    let ghost levels = indent_views(indents@);
    if indent > top {
        indents.push(indent);
        out.push(synthetic(TokenKind::Indent, offset, line, col));
        assert(token_views(out@) =~= views.push(layout_token(b, TokenKind::Indent, offset as int)));
        assert(indent_views(indents@) =~= levels.push(indent as int));
        return Ok(());
    }
    let ghost dedent = layout_token(b, TokenKind::Dedent, offset as int);
    while indent < indents[indents.len() - 1]
        invariant
            rooted(indents@),
            position(b, offset as int) == (line as int, col as int),
            dedent == layout_token(b, TokenKind::Dedent, offset as int),
            close_blocks(views, levels, indent as int, dedent) == close_blocks(
                token_views(out@),
                indent_views(indents@),
                indent as int,
                dedent,
            ),
        decreases indents.len(),
    {
        let ghost views_now = token_views(out@);
        let ghost levels_now = indent_views(indents@);
        indents.pop();
        out.push(synthetic(TokenKind::Dedent, offset, line, col));
        assert(token_views(out@) =~= views_now.push(dedent));
        assert(indent_views(indents@) =~= levels_now.drop_last());
    }
    if indents[indents.len() - 1] != indent {
        return Err(LexError { message: String::from_str("Inconsistent indentation."), line, col });
    }
    Ok(())
}

/// Closes every open block, with one `Dedent` each.
fn close_all_blocks<'src>(
    out: &mut Vec<Token<'src>>,
    indents: &mut Vec<usize>,
    offset: u32,
    line: u32,
    col: u32,
    Ghost(b): Ghost<Seq<u8>>,
)
    requires
        rooted(old(indents)@),
        position(b, offset as int) == (line as int, col as int),
    ensures
        rooted(final(indents)@),
        (token_views(final(out)@), indent_views(final(indents)@)) == close_blocks(
            token_views(old(out)@),
            indent_views(old(indents)@),
            0,
            layout_token(b, TokenKind::Dedent, offset as int),
        ),
{
    let ghost views = token_views(out@);
    let ghost levels = indent_views(indents@);
    let ghost dedent = layout_token(b, TokenKind::Dedent, offset as int);
    while indents.len() > 1
        invariant
            rooted(indents@),
            position(b, offset as int) == (line as int, col as int),
            dedent == layout_token(b, TokenKind::Dedent, offset as int),
            close_blocks(views, levels, 0, dedent) == close_blocks(
                token_views(out@),
                indent_views(indents@),
                0,
                dedent,
            ),
        decreases indents.len(),
    {
        let ghost views_now = token_views(out@);
        let ghost levels_now = indent_views(indents@);
        indents.pop();
        out.push(synthetic(TokenKind::Dedent, offset, line, col));
        assert(token_views(out@) =~= views_now.push(dedent));
        assert(indent_views(indents@) =~= levels_now.drop_last());
    }
}

/// The end of the text to report when nothing matches at `pos`.
fn unexpected_text_end(bytes: &[u8], pos: usize) -> (end: usize)
    requires
        pos < bytes.len(),
        valid_utf8(bytes@),
    ensures
        end == unexpected_end(bytes@, pos as int),
        pos < end <= bytes.len(),
        is_char_boundary(bytes@, end as int),
{
    proof {
        is_char_boundary_start_end_of_seq(bytes@);
    }
    if bytes[pos] == 0x27 || bytes[pos] == 0x22 {
        return bytes.len();
    }
    let mut end: usize = pos + 1;
    while end < bytes.len() && 0x80 <= bytes[end] && bytes[end] <= 0xbf
        invariant
            pos < end <= bytes.len(),
            char_start_from(bytes@, pos + 1) == char_start_from(bytes@, end as int),
        decreases bytes.len() - end,
    {
        end = end + 1;
    }
    proof {
        if end < bytes.len() {
            is_char_boundary_iff_not_is_continuation_byte(bytes@, end as int);
        }
    }
    end
}

/// Lexes `src` into a flat `Vec` of [`Token`]s, turning indentation into `Indent`/`Dedent`
/// tokens and joining lines inside parentheses. Stops at and returns the first [`LexError`] —
/// an unexpected character or inconsistent indentation.
///
/// The whole source is lexed up front: the parser needs multi-token look-ahead, and one line end
/// can stand for several tokens.
pub fn lex<'src>(src: &'src str) -> (r: Result<Vec<Token<'src>>, LexError>)
    requires
        src.spec_bytes().len() < u32::MAX,
    ensures
        match r {
            Ok(tokens) => lexed(src.spec_bytes()) == Ok::<_, LexErrorView>(token_views(tokens@)),
            Err(error) => lexed(src.spec_bytes()) == Err::<Seq<TokenView>, _>(error@),
        },
{
    let line_index: LineIndex = LineIndex::new(src);
    let bytes: &[u8] = src.as_bytes();
    let ghost b = src.spec_bytes();
    let mut out: Vec<Token<'src>> = Vec::new();
    let mut indents: Vec<usize> = Vec::new();
    indents.push(0);
    let mut paren_depth: usize = 0;
    // A newline is not turned into tokens the moment it is seen; it waits here until a line with
    // real content follows. Blank and comment-only lines keep overwriting this record, so they
    // collapse away and only the newline before a content line survives — with that line's indent.
    let mut pending_newline: Option<(usize, u32, u32, u32)> = None;
    let mut pos: usize = 0;
    proof {
        assert(token_views(out@) =~= Seq::empty());
        assert(indent_views(indents@) =~= seq![0]);
        is_char_boundary_start_end_of_seq(b);
    }
    while pos < bytes.len()
        invariant
            bytes@ == b,
            b == src.spec_bytes(),
            valid_utf8(b),
            pos <= bytes.len() < u32::MAX,
            is_char_boundary(b, pos as int),
            line_index@ == line_starts(b),
            rooted(indents@),
            paren_depth <= pos,
            pending_newline matches Some(p) ==> position(b, p.1 as int) == (
                p.2 as int,
                p.3 as int,
            ),
            lex_run(b, initial_state()) == lex_run(
                b,
                LexState {
                    pos: pos as int,
                    out: token_views(out@),
                    indents: indent_views(indents@),
                    depth: paren_depth as int,
                    pending: pending_view(pending_newline),
                },
            ),
        decreases bytes.len() - pos,
    {
        let (line, col): (u32, u32) = line_index.locate(pos as u32);
        let (lexeme, end): (Lexeme, usize) = match next_lexeme(bytes, pos) {
            Some(found) => found,
            None => {
                let end: usize = unexpected_text_end(bytes, pos);
                proof {
                    lemma_no_lexeme_at(b, pos as int);
                }
                let text: &str = slice(src, pos, end);
                return Err(
                    LexError { message: join3("Unexpected character `", text, "`."), line, col },
                );
            },
        };
        proof {
            lemma_lexeme_at(b, pos as int, lexeme, end as int);
            lemma_lexeme_boundaries(b, pos as int, lexeme, end as int);
        }
        match lexeme {
            Lexeme::Space | Lexeme::Comment => {},
            Lexeme::Newline => {
                // Inside `( … )` a newline is implicit line-joining: record nothing, so the
                // indent stack only ever reacts to real block indentation.
                if paren_depth == 0 {
                    let feed: usize = if bytes[pos] == 0x0d {
                        2
                    } else {
                        1
                    };
                    proof {
                        crate::lexeme::lemma_newline_length(b, pos as int, end as int);
                    }
                    pending_newline = Some((end - pos - feed, pos as u32, line, col));
                }
            },
            Lexeme::TabIndent => {
                // The lexeme spans the newline and any spaces before the tab; report the tab
                // itself.
                let (tab_line, tab_col): (u32, u32) = line_index.locate((end - 1) as u32);
                return Err(
                    LexError {
                        message: String::from_str("Tabs are not allowed in indentation."),
                        line: tab_line,
                        col: tab_col,
                    },
                );
            },
            Lexeme::Token(raw) => {
                let text: &'src str = slice(src, pos, end);
                let kind: TokenKind = if raw == TokenKind::Identifier {
                    classify_word(text)
                } else {
                    raw
                };
                if raw == TokenKind::LParen || raw == TokenKind::LBracket {
                    paren_depth = paren_depth + 1;
                } else if raw == TokenKind::RParen || raw == TokenKind::RBracket {
                    if paren_depth > 0 {
                        paren_depth = paren_depth - 1;
                    }
                }
                // A content token has arrived: realise the recorded newline as the boundary before
                // it, unless nothing has been emitted yet — a leading separator has nothing to
                // separate.
                if out.len() > 0 {
                    match flush_pending_newline(
                        &mut out,
                        &mut indents,
                        &mut pending_newline,
                        Ghost(b),
                    ) {
                        Ok(()) => {},
                        Err(error) => return Err(error),
                    }
                } else {
                    pending_newline = None;
                }
                let ghost before = token_views(out@);
                out.push(Token { kind, text, start: pos as u32, line, col });
                assert(token_views(out@) =~= before.push(
                    content_token(b, raw, pos as int, end as int),
                ));
            },
        }
        pos = end;
    }
    // A newline still pending at end of input terminates the final statement, as a trailing
    // newline always did. (A file of only blank/comment lines emitted nothing, so there is none.)
    // What follows it is blank or a comment, so it counts as a line at the left margin.
    if out.len() > 0 {
        if let Some((_, offset, line, col)) = pending_newline {
            let ghost before = token_views(out@);
            out.push(synthetic(TokenKind::Newline, offset, line, col));
            assert(token_views(out@) =~= before.push(
                layout_token(b, TokenKind::Newline, offset as int),
            ));
            close_all_blocks(&mut out, &mut indents, offset, line, col, Ghost(b));
        }
    }
    let offset: u32 = bytes.len() as u32;
    let (line, col): (u32, u32) = line_index.locate(offset);
    close_all_blocks(&mut out, &mut indents, offset, line, col, Ghost(b));
    let ghost before = token_views(out@);
    out.push(synthetic(TokenKind::Eof, offset, line, col));
    assert(token_views(out@) =~= before.push(layout_token(b, TokenKind::Eof, b.len() as int)));
    Ok(out)
}

} // verus!
