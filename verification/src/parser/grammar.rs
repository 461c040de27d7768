//! The grammar: what a list of tokens parses to.
//!
//! Every function here takes the tokens and how far parsing has come, and says what a construct
//! that starts there yields: the state behind it and what was read, or the first error. `depth` is
//! the number of nested expressions and blocks that are open.

use crate::lexeme::TokenKind;
use crate::lexer::{lexed, Span, TokenView};
use crate::parser::ast::{
    intern_name, place_read, AstView, BinOp, BlockView, ExprId, FStrSegment, FuncDefView, IfArmView,
    NodeView, Param, PinpType, Place, RangeKind, StmtView, StrId, SymId, TopLevelView, UnOp,
};
use crate::text::decimal_text;
use vstd::prelude::*;
use vstd::utf8::*;

verus! {

/// Maximum parse-nesting depth (parenthesised expressions, ternaries, and `if`/`while`/`loop`
/// bodies). Real programs nest a few dozen levels at most; the limit exists only so adversarial
/// input — thousands of nested `(` — fails fast with an error rather than overflowing the stack.
/// Clang's analogous `-fbracket-depth` defaults to the same value.
pub const MAX_NESTING_DEPTH: usize = 256;

/// Maximum number of arms (the leading `if` plus its `elif`s) in one `if` construct. Unlike
/// nesting, an `elif` ladder is parsed iteratively, so it is *not* a stack risk — this is a
/// deliberate sanity cap: a construct this wide is far likelier a generation bug than intent.
pub const MAX_IF_ARMS: usize = 256;

/// Binding power of the comparison band. Looser than additive (60), tighter than the logicals
/// (`and`=30); chain operands are parsed just above it so a comparison never swallows another.
pub const COMPARISON_BP: u8 = 45;

/// Binding power of the one-line conditional `e1 if c else e2`. The loosest operator of all — below
/// `or` (20) — so `a or b if c else d` is `(a or b) if c else d`. Its else-tail is
/// right-associative (the right operand is parsed at this same power), giving `a if p else b if q
/// else c` = `a if p else (b if q else c)`. Handled apart from [`infix`], like the comparison
/// chain.
pub const CONDITIONAL_BP: u8 = 10;

/// Binding power of the range operators `.. ..< ..>`. Above the comparison band (45) yet below
/// additive (60), so `a+1..b-1` is `(a+1)..(b-1)`; the bounds are parsed one power above this, so a
/// range never nests directly inside another (`1..2..3` is rejected by sema, not silently chained).
pub const RANGE_BP: u8 = 50;

/// Binding power of `in` membership. It shares the comparison band's looseness (it yields a `Bool`
/// like a comparison) and does not chain — its range operand is parsed one power above.
pub const MEMBERSHIP_BP: u8 = 45;

/// Right binding power of the prefix operators `-` and `not`: above `*`/`/` (70), below `^` (80),
/// so `-a*b` is `(-a)*b` and `-a^b` is `-(a^b)`. `not` shares this level to match C's unary-tight
/// `!`, so `not a == b` is `(not a) == b`.
pub const UNARY_MINUS_BP: u8 = 75;

/// Postfix operators `arr[i]` and `obj.member` bind tighter than everything else — their left
/// binding power is above exponentiation (80) so `-arr[0]` is `-(arr[0])` and `a^b[0]` is
/// `a^(b[0])`.
pub const POSTFIX_BP: u8 = 90;

// ---------------------------------------------------------------------------
// Errors
// ---------------------------------------------------------------------------

/// What a [`crate::parser::ParseError`] says.
pub enum ParseErrorView {
    Lex(Seq<char>),
    Unexpected(Seq<char>),
    Layout(Seq<char>),
    TooDeeplyNested(Seq<char>),
    TooManyArms(Seq<char>),
}

/// A construct's outcome: the state behind it and what it yields, or the first error.
pub type Parsed<T> = Result<(ParseState, T), ParseErrorView>;

/// How far parsing has come.
#[verifier::ext_equal]
pub struct ParseState {
    /// The index of the next token.
    pub pos: int,
    /// The program so far.
    pub ast: AstView,
    /// How many `Dedent`s to come belong to wrapped lines rather than to blocks.
    pub pending: int,
}

/// A token kind's name in messages.
#[verifier::opaque]
pub open spec fn kind_text(kind: TokenKind) -> Seq<char> {
    match kind {
        TokenKind::Int => "Int"@,
        TokenKind::Float => "Float"@,
        TokenKind::Str => "Str"@,
        TokenKind::FStr => "FStr"@,
        TokenKind::Identifier => "Identifier"@,
        TokenKind::Plus => "Plus"@,
        TokenKind::Minus => "Minus"@,
        TokenKind::Star => "Star"@,
        TokenKind::Slash => "Slash"@,
        TokenKind::Caret => "Caret"@,
        TokenKind::Equal => "Equal"@,
        TokenKind::EqEq => "EqEq"@,
        TokenKind::Ne => "Ne"@,
        TokenKind::Lt => "Lt"@,
        TokenKind::Gt => "Gt"@,
        TokenKind::Le => "Le"@,
        TokenKind::Ge => "Ge"@,
        TokenKind::PlusEq => "PlusEq"@,
        TokenKind::MinusEq => "MinusEq"@,
        TokenKind::StarEq => "StarEq"@,
        TokenKind::SlashEq => "SlashEq"@,
        TokenKind::CaretEq => "CaretEq"@,
        TokenKind::DivEq => "DivEq"@,
        TokenKind::ModEq => "ModEq"@,
        TokenKind::LParen => "LParen"@,
        TokenKind::RParen => "RParen"@,
        TokenKind::LBracket => "LBracket"@,
        TokenKind::RBracket => "RBracket"@,
        TokenKind::Colon => "Colon"@,
        TokenKind::ColonColon => "ColonColon"@,
        TokenKind::Comma => "Comma"@,
        TokenKind::Semicolon => "Semicolon"@,
        TokenKind::Dot => "Dot"@,
        TokenKind::DotDot => "DotDot"@,
        TokenKind::DotDotLt => "DotDotLt"@,
        TokenKind::DotDotGt => "DotDotGt"@,
        TokenKind::KwDiv => "KwDiv"@,
        TokenKind::KwMod => "KwMod"@,
        TokenKind::KwIs => "KwIs"@,
        TokenKind::KwTrue => "KwTrue"@,
        TokenKind::KwFalse => "KwFalse"@,
        TokenKind::KwAnd => "KwAnd"@,
        TokenKind::KwOr => "KwOr"@,
        TokenKind::KwXor => "KwXor"@,
        TokenKind::KwNot => "KwNot"@,
        TokenKind::KwIf => "KwIf"@,
        TokenKind::KwElif => "KwElif"@,
        TokenKind::KwElse => "KwElse"@,
        TokenKind::KwWhile => "KwWhile"@,
        TokenKind::KwUntil => "KwUntil"@,
        TokenKind::KwLoop => "KwLoop"@,
        TokenKind::KwFor => "KwFor"@,
        TokenKind::KwIn => "KwIn"@,
        TokenKind::Underscore => "Underscore"@,
        TokenKind::Newline => "Newline"@,
        TokenKind::Indent => "Indent"@,
        TokenKind::Dedent => "Dedent"@,
        TokenKind::Eof => "Eof"@,
    }
}

pub open spec fn unexpected_token<T>(kind: TokenKind) -> Parsed<T> {
    Err(ParseErrorView::Unexpected("Unexpected token "@ + kind_text(kind) + "."@))
}

pub open spec fn unexpected<T>(message: Seq<char>) -> Parsed<T> {
    Err(ParseErrorView::Unexpected(message))
}

pub open spec fn too_deep<T>() -> Parsed<T> {
    Err(
        ParseErrorView::TooDeeplyNested(
            "Nesting is implausibly deep (over 256 levels); the input looks unbounded."@,
        ),
    )
}

/// What a repetition yields when a turn consumed nothing. No turn does: every construct takes at
/// least one token.
pub open spec fn stalled<T>() -> Parsed<T> {
    unexpected(Seq::empty())
}

// ---------------------------------------------------------------------------
// The token cursor
// ---------------------------------------------------------------------------

/// The state one token further.
pub open spec fn advanced(st: ParseState) -> ParseState {
    ParseState { pos: st.pos + 1, ..st }
}

/// `later` lies further on in the tokens than `st`.
pub open spec fn moved(toks: Seq<TokenView>, st: ParseState, later: ParseState) -> bool {
    st.pos < later.pos <= toks.len()
}

pub open spec fn expect(
    toks: Seq<TokenView>,
    st: ParseState,
    kind: TokenKind,
) -> Parsed<TokenView> {
    if toks[st.pos].kind == kind {
        Ok((advanced(st), toks[st.pos]))
    } else {
        unexpected(
            "Expected "@ + kind_text(kind) + ", found "@ + kind_text(toks[st.pos].kind) + "."@,
        )
    }
}

pub open spec fn is_separator(kind: TokenKind) -> bool {
    matches!(kind, TokenKind::Newline | TokenKind::Indent | TokenKind::Dedent)
}

/// The first token from `pos` on that is not a separator.
pub open spec fn after_separators(toks: Seq<TokenView>, pos: int) -> int
    decreases toks.len() - pos,
{
    if 0 <= pos < toks.len() && is_separator(toks[pos].kind) {
        after_separators(toks, pos + 1)
    } else {
        pos
    }
}

/// Skips the separators of a wrapped line, banking each `Indent` so the block around it ignores the
/// `Dedent` that will close it.
pub open spec fn skip_wrapping(toks: Seq<TokenView>, st: ParseState) -> ParseState
    decreases toks.len() - st.pos,
{
    if 0 <= st.pos < toks.len() && is_separator(toks[st.pos].kind) {
        skip_wrapping(
            toks,
            ParseState {
                pos: st.pos + 1,
                pending: if toks[st.pos].kind == TokenKind::Indent {
                    st.pending + 1
                } else {
                    st.pending
                },
                ..st
            },
        )
    } else {
        st
    }
}

// ---------------------------------------------------------------------------
// The arena
// ---------------------------------------------------------------------------

/// Adds a node that is written from `start` up to the last token taken.
pub open spec fn push(toks: Seq<TokenView>, st: ParseState, node: NodeView, start: u32) -> (
    ParseState,
    ExprId,
) {
    let span = Span { start, end: toks[st.pos - 1].end() as u32 };
    (
        ParseState {
            ast: AstView {
                nodes: st.ast.nodes.push(node),
                spans: st.ast.spans.push(span),
                ..st.ast
            },
            ..st
        },
        ExprId(st.ast.nodes.len() as u32),
    )
}

pub open spec fn intern(st: ParseState, name: Seq<char>) -> (ParseState, SymId) {
    let (names, sym_id) = intern_name(st.ast.names, name);
    (ParseState { ast: AstView { names, ..st.ast }, ..st }, sym_id)
}

pub open spec fn push_string(st: ParseState, content: Seq<char>) -> (ParseState, StrId) {
    (
        ParseState { ast: AstView { strings: st.ast.strings.push(content), ..st.ast }, ..st },
        StrId(st.ast.strings.len() as u32),
    )
}

/// Where the expression `expr_id` begins.
pub open spec fn start_of(st: ParseState, expr_id: ExprId) -> u32 {
    st.ast.spans[expr_id.0 as int].start
}

pub open spec fn offset(toks: Seq<TokenView>, pos: int) -> u32 {
    toks[pos].start as u32
}

// ---------------------------------------------------------------------------
// Operators
// ---------------------------------------------------------------------------

/// The left and right binding powers of an ordinary binary operator. A left-associative one binds
/// its right side one power tighter; `^` is right-associative.
pub open spec fn infix(kind: TokenKind) -> Option<(u8, u8, BinOp)> {
    match kind {
        TokenKind::KwOr => Some((20, 21, BinOp::Or)),
        TokenKind::KwXor => Some((25, 26, BinOp::Xor)),
        TokenKind::KwAnd => Some((30, 31, BinOp::And)),
        TokenKind::Plus => Some((60, 61, BinOp::Add)),
        TokenKind::Minus => Some((60, 61, BinOp::Sub)),
        TokenKind::Star => Some((70, 71, BinOp::Mul)),
        TokenKind::Slash => Some((70, 71, BinOp::Div)),
        TokenKind::KwDiv => Some((70, 71, BinOp::IntDiv)),
        TokenKind::KwMod => Some((70, 71, BinOp::Mod)),
        TokenKind::Caret => Some((80, 80, BinOp::Pow)),
        _ => None,
    }
}

pub open spec fn comparison_op(kind: TokenKind) -> Option<BinOp> {
    match kind {
        TokenKind::EqEq => Some(BinOp::Eq),
        TokenKind::Ne => Some(BinOp::Ne),
        TokenKind::Lt => Some(BinOp::Lt),
        TokenKind::Gt => Some(BinOp::Gt),
        TokenKind::Le => Some(BinOp::Le),
        TokenKind::Ge => Some(BinOp::Ge),
        _ => None,
    }
}

pub open spec fn range_kind(kind: TokenKind) -> Option<RangeKind> {
    match kind {
        TokenKind::DotDot => Some(RangeKind::Inclusive),
        TokenKind::DotDotLt => Some(RangeKind::UpExclusive),
        TokenKind::DotDotGt => Some(RangeKind::DownExclusive),
        _ => None,
    }
}

pub open spec fn compound_assign_op(kind: TokenKind) -> Option<BinOp> {
    match kind {
        TokenKind::PlusEq => Some(BinOp::Add),
        TokenKind::MinusEq => Some(BinOp::Sub),
        TokenKind::StarEq => Some(BinOp::Mul),
        TokenKind::SlashEq => Some(BinOp::Div),
        TokenKind::CaretEq => Some(BinOp::Pow),
        TokenKind::DivEq => Some(BinOp::IntDiv),
        TokenKind::ModEq => Some(BinOp::Mod),
        _ => None,
    }
}

/// The "direction" of a comparison operator. A chain of more than one comparison must keep a single
/// direction so the relation is transitive and reads across the chain (`a < b <= c`), as in maths.
/// `!=` is non-transitive (`a != b != c` is not "all distinct"), so it has no direction and never
/// chains.
#[derive(Clone, Copy, PartialEq, Eq, Structural)]
pub enum ChainDirection {
    /// `<` `<=`
    Ascending,
    /// `>` `>=`
    Descending,
    /// `==`
    Equality,
}

pub open spec fn chain_direction(op: BinOp) -> Option<ChainDirection> {
    match op {
        BinOp::Lt | BinOp::Le => Some(ChainDirection::Ascending),
        BinOp::Gt | BinOp::Ge => Some(ChainDirection::Descending),
        BinOp::Eq => Some(ChainDirection::Equality),
        _ => None,
    }
}

pub open spec fn comparison_text(op: BinOp) -> Seq<char> {
    match op {
        BinOp::Eq => "=="@,
        BinOp::Ne => "!="@,
        BinOp::Lt => "<"@,
        BinOp::Gt => ">"@,
        BinOp::Le => "<="@,
        _ => ">="@,
    }
}

/// A chain of more than one comparison must be monotonic: every operator shares one direction
/// (all ascending `< <=`, all descending `> >=`, or all `==`), and `!=` never chains. A lone
/// comparison is always fine — including `!=`.
pub open spec fn monotonic(operators: Seq<BinOp>) -> bool {
    operators.len() < 2 || {
        &&& chain_direction(operators[0]) is Some
        &&& forall|i: int|
            0 <= i < operators.len() ==> chain_direction(#[trigger] operators[i])
                == chain_direction(operators[0])
    }
}

/// The first operator from `from` on that does not go in the direction of the first one.
pub open spec fn first_break(operators: Seq<BinOp>, from: int) -> int
    decreases operators.len() - from,
{
    if 0 <= from < operators.len() && chain_direction(operators[from]) is Some && chain_direction(
        operators[from],
    ) == chain_direction(operators[0]) {
        first_break(operators, from + 1)
    } else {
        from
    }
}

/// What is wrong with a chain that is not monotonic.
pub open spec fn chain_error(operators: Seq<BinOp>) -> ParseErrorView {
    let first = operators[0];
    let culprit = operators[first_break(operators, 0)];
    ParseErrorView::Unexpected(
        if chain_direction(culprit) is None {
            "Cannot chain `"@ + comparison_text(culprit) + "`; it is not transitive."@
        } else {
            "Cannot chain `"@ + comparison_text(first) + "` with `"@ + comparison_text(culprit)
                + "`."@
        },
    )
}

// ---------------------------------------------------------------------------
// Literals
// ---------------------------------------------------------------------------

/// A text without its `_` separators.
pub open spec fn without_separators(text: Seq<char>) -> Seq<char> {
    text.filter(|c: char| c != '_')
}

/// What a digit counts for, in any radix up to 16.
pub open spec fn digit_value(c: u8) -> int {
    if c <= 0x39 {
        c - 0x30
    } else if c <= 0x46 {
        c - 0x41 + 10
    } else {
        c - 0x61 + 10
    }
}

/// The number that digits denote in a radix; `_` counts for nothing.
pub open spec fn digits_value(s: Seq<u8>, radix: int) -> int
    decreases s.len(),
{
    if s.len() == 0 {
        0
    } else if s.last() == 0x5f {
        digits_value(s.drop_last(), radix)
    } else {
        digits_value(s.drop_last(), radix) * radix + digit_value(s.last())
    }
}

pub open spec fn is_exponent(c: u8) -> bool {
    c == 0x65 || c == 0x45
}

/// The first exponent mark from `from` on.
pub open spec fn exponent_mark(s: Seq<u8>, from: int) -> int
    decreases s.len() - from,
{
    if 0 <= from < s.len() && !is_exponent(s[from]) {
        exponent_mark(s, from + 1)
    } else {
        from
    }
}

/// The number that an integer literal denotes: hexadecimal, binary, or decimal with an optional
/// power of ten.
pub open spec fn int_value(s: Seq<u8>) -> int {
    if s.len() > 1 && s[1] == 0x78 {
        digits_value(s.subrange(2, s.len() as int), 16)
    } else if s.len() > 1 && s[1] == 0x62 {
        digits_value(s.subrange(2, s.len() as int), 2)
    } else {
        let k = exponent_mark(s, 0);
        if k < s.len() {
            digits_value(s.subrange(0, k), 10) * vstd::arithmetic::power::pow(
                10,
                digits_value(s.subrange(k + 1, s.len() as int), 10) as nat,
            )
        } else {
            digits_value(s, 10)
        }
    }
}

/// Whether an integer literal can be taken: its value fits.
pub open spec fn int_fits(s: Seq<u8>) -> bool {
    int_value(s) <= i64::MAX
}

#[verifier::opaque]
pub open spec fn int_literal(text: Seq<char>) -> Result<i64, ParseErrorView> {
    let s = encode_utf8(text);
    if int_fits(s) {
        Ok(int_value(s) as i64)
    } else {
        Err(
            ParseErrorView::Unexpected(
                "Integer literal `"@ + text + "` is out of range."@,
            ),
        )
    }
}

/// The characters strictly between the first `head` bytes and the last byte of a text.
pub open spec fn inside(text: Seq<char>, head: int) -> Seq<u8> {
    let s = encode_utf8(text);
    s.subrange(head, s.len() - 1)
}

/// The first `}` from `from` on.
pub open spec fn closing_brace(s: Seq<u8>, from: int) -> int
    decreases s.len() - from,
{
    if 0 <= from < s.len() && s[from] != 0x7d {
        closing_brace(s, from + 1)
    } else {
        from
    }
}

/// The name in an f-string hole: its text must lex to exactly `name` or `::name`.
#[verifier::opaque]
pub open spec fn hole_place(st: ParseState, hole: Seq<u8>) -> Parsed<Place> {
    match lexed(hole) {
        Err(error) => Err(ParseErrorView::Lex(error.message)),
        Ok(tokens) => {
            if tokens.len() == 2 && tokens[0].kind == TokenKind::Identifier {
                let (s1, sym_id) = intern(st, tokens[0].text);
                Ok((s1, Place::Local(sym_id)))
            } else if tokens.len() == 3 && tokens[0].kind == TokenKind::ColonColon
                && tokens[1].kind == TokenKind::Identifier {
                let (s1, sym_id) = intern(st, tokens[1].text);
                Ok((s1, Place::Global(sym_id)))
            } else {
                unexpected(
                    "Invalid f-string interpolation `{"@ + decode_utf8(hole)
                        + "}`; expected a name."@,
                )
            }
        },
    }
}

/// The segments of an f-string's content from `index` on, the literal run under way having begun at
/// `literal`. A `{` opens a hole that the next `}` closes; every other character is literal text,
/// and a run of none makes no segment.
pub open spec fn fstring_segments(
    content: Seq<u8>,
    st: ParseState,
    literal: int,
    index: int,
    segments: Seq<FStrSegment>,
) -> Parsed<Seq<FStrSegment>>
    decreases content.len() - index,
{
    if index < 0 || index >= content.len() {
        if literal < content.len() {
            let (s1, str_id) = push_string(
                st,
                decode_utf8(content.subrange(literal, content.len() as int)),
            );
            Ok((s1, segments.push(FStrSegment::Literal(str_id))))
        } else {
            Ok((st, segments))
        }
    } else if content[index] == 0x7b {
        let (s1, with_literal) = if index > literal {
            let (s1, str_id) = push_string(st, decode_utf8(content.subrange(literal, index)));
            (s1, segments.push(FStrSegment::Literal(str_id)))
        } else {
            (st, segments)
        };
        let close = closing_brace(content, index + 1);
        if close >= content.len() {
            unexpected("Unterminated `{` in f-string."@)
        } else {
            match hole_place(s1, content.subrange(index + 1, close)) {
                Err(error) => Err(error),
                Ok((s2, place)) => if close + 1 > index {
                    fstring_segments(
                        content,
                        s2,
                        close + 1,
                        close + 1,
                        with_literal.push(FStrSegment::Interp(place)),
                    )
                } else {
                    stalled()
                },
            }
        }
    } else if content[index] == 0x7d {
        unexpected("Unmatched `}` in f-string."@)
    } else {
        fstring_segments(content, st, literal, index + 1, segments)
    }
}

/// A type annotation: `bool` / `int` / `float` / `void` / `str`.
#[verifier::opaque]
pub open spec fn type_annotation(toks: Seq<TokenView>, st: ParseState) -> Parsed<PinpType> {
    match expect(toks, st, TokenKind::Identifier) {
        Err(error) => Err(error),
        Ok((s1, token)) => {
            if token.text == "bool"@ {
                Ok((s1, PinpType::Bool))
            } else if token.text == "int"@ {
                Ok((s1, PinpType::Int))
            } else if token.text == "float"@ {
                Ok((s1, PinpType::Float))
            } else if token.text == "void"@ {
                Ok((s1, PinpType::Void))
            } else if token.text == "str"@ {
                Ok((s1, PinpType::Str))
            } else {
                unexpected("Unknown type `"@ + token.text + "`."@)
            }
        },
    }
}

// ---------------------------------------------------------------------------
// Expressions
// ---------------------------------------------------------------------------

/// Precedence climbing: a prefix, then every operator that binds at least as tight as `min_bp`.
#[verifier::opaque]
pub open spec fn expr(
    toks: Seq<TokenView>,
    depth: nat,
    st: ParseState,
    min_bp: u8,
) -> Parsed<ExprId>
    decreases 257 - depth, 0int, 0int, 1int,
{
    expr_rule(toks, depth, st, min_bp)
}

/// What [`expr`] stands for.
pub open spec fn expr_rule(
    toks: Seq<TokenView>,
    depth: nat,
    st: ParseState,
    min_bp: u8,
) -> Parsed<ExprId>
    decreases 257 - depth, 0int, 0int, 0int,
{
    if depth >= MAX_NESTING_DEPTH {
        too_deep()
    } else {
        match prefix(toks, depth + 1, st) {
            Err(error) => Err(error),
            Ok((s1, lhs)) => operators(toks, depth + 1, s1, toks[st.pos].col, min_bp, lhs),
        }
    }
}

/// Folds operators into `lhs` until one binds too loosely. `start_col` is the column where the
/// whole expression began.
#[verifier::opaque]
pub open spec fn operators(
    toks: Seq<TokenView>,
    depth: nat,
    st: ParseState,
    start_col: int,
    min_bp: u8,
    lhs: ExprId,
) -> Parsed<ExprId>
    decreases 257 - depth, 9int, toks.len() - st.pos, 1int,
{
    operators_rule(toks, depth, st, start_col, min_bp, lhs)
}

/// What [`operators`] stands for.
pub open spec fn operators_rule(
    toks: Seq<TokenView>,
    depth: nat,
    st: ParseState,
    start_col: int,
    min_bp: u8,
    lhs: ExprId,
) -> Parsed<ExprId>
    decreases 257 - depth, 9int, toks.len() - st.pos, 0int,
{
    match operator(toks, depth, st, start_col, min_bp, lhs) {
        None => Ok((st, lhs)),
        Some(Err(error)) => Err(error),
        Some(Ok((s1, folded))) => if moved(toks, st, s1) {
            operators(toks, depth, s1, start_col, min_bp, folded)
        } else {
            stalled()
        },
    }
}

/// The next operator applied to `lhs`, or `None` when none that binds tight enough follows.
#[verifier::opaque]
pub open spec fn operator(
    toks: Seq<TokenView>,
    depth: nat,
    st: ParseState,
    start_col: int,
    min_bp: u8,
    lhs: ExprId,
) -> Option<Parsed<ExprId>>
    decreases 257 - depth, 8int, 0int, 1int,
{
    operator_rule(toks, depth, st, start_col, min_bp, lhs)
}

/// What [`operator`] stands for.
pub open spec fn operator_rule(
    toks: Seq<TokenView>,
    depth: nat,
    st: ParseState,
    start_col: int,
    min_bp: u8,
    lhs: ExprId,
) -> Option<Parsed<ExprId>>
    decreases 257 - depth, 8int, 0int, 0int,
{
    let kind = toks[st.pos].kind;
    if kind == TokenKind::KwIf && CONDITIONAL_BP >= min_bp {
        Some(conditional(toks, depth, st, lhs, start_col))
    } else if comparison_op(kind) is Some && COMPARISON_BP >= min_bp {
        Some(
            match comparisons(toks, depth, st, lhs, Seq::empty(), None) {
                Err(error) => Err(error),
                Ok((s1, (chained, result))) => if monotonic(chained) {
                    Ok((s1, result))
                } else {
                    Err(chain_error(chained))
                },
            },
        )
    } else if range_kind(kind) is Some && RANGE_BP >= min_bp {
        Some(range_tail(toks, depth, st, lhs, range_kind(kind)->0))
    } else if kind == TokenKind::KwIn && MEMBERSHIP_BP >= min_bp {
        Some(
            match expr(toks, depth, advanced(st), 46) {
                Err(error) => Err(error),
                Ok((s1, range)) => Ok(
                    push(toks, s1, NodeView::Membership(lhs, range), start_of(s1, lhs)),
                ),
            },
        )
    } else if kind == TokenKind::LBracket && POSTFIX_BP >= min_bp {
        Some(index_tail(toks, depth, st, lhs))
    } else if kind == TokenKind::Dot && POSTFIX_BP >= min_bp {
        Some(
            match expect(toks, advanced(st), TokenKind::Identifier) {
                Err(error) => Err(error),
                Ok((s1, name)) => {
                    let (s2, member) = intern(s1, name.text);
                    Ok(push(toks, s2, NodeView::Member(lhs, member), start_of(s2, lhs)))
                },
            },
        )
    } else {
        match infix(kind) {
            Some((left_bp, right_bp, op)) if left_bp >= min_bp => Some(
                match expr(toks, depth, advanced(st), right_bp) {
                    Err(error) => Err(error),
                    Ok((s1, rhs)) => Ok(
                        push(toks, s1, NodeView::Bin(op, lhs, rhs), start_of(s1, lhs)),
                    ),
                },
            ),
            _ => None,
        }
    }
}

/// `lhs[…]`: one element or slice, or with a `,` a row and a column selector.
#[verifier::opaque]
pub open spec fn index_tail(
    toks: Seq<TokenView>,
    depth: nat,
    st: ParseState,
    lhs: ExprId,
) -> Parsed<
    ExprId,
>
    decreases 257 - depth, 7int, 0int, 1int,
{
    index_tail_rule(toks, depth, st, lhs)
}

/// What [`index_tail`] stands for.
pub open spec fn index_tail_rule(
    toks: Seq<TokenView>,
    depth: nat,
    st: ParseState,
    lhs: ExprId,
) -> Parsed<
    ExprId,
>
    decreases 257 - depth, 7int, 0int, 0int,
{
    match selector(toks, depth, advanced(st)) {
        Err(error) => Err(error),
        Ok((s1, first)) => {
            if toks[s1.pos].kind == TokenKind::Comma {
                match selector(toks, depth, advanced(s1)) {
                    Err(error) => Err(error),
                    Ok((s2, col)) => match expect(toks, s2, TokenKind::RBracket) {
                        Err(error) => Err(error),
                        Ok((s3, _)) => Ok(
                            push(toks, s3, NodeView::Index2D(lhs, first, col), start_of(s3, lhs)),
                        ),
                    },
                }
            } else {
                match expect(toks, s1, TokenKind::RBracket) {
                    Err(error) => Err(error),
                    Ok((s2, _)) => Ok(
                        push(toks, s2, NodeView::Index(lhs, first), start_of(s2, lhs)),
                    ),
                }
            }
        },
    }
}

/// One dimension selector: a bare `:` for the whole dimension, or an expression.
#[verifier::opaque]
pub open spec fn selector(toks: Seq<TokenView>, depth: nat, st: ParseState) -> Parsed<ExprId>
    decreases 257 - depth, 6int, 0int, 1int,
{
    selector_rule(toks, depth, st)
}

/// What [`selector`] stands for.
pub open spec fn selector_rule(toks: Seq<TokenView>, depth: nat, st: ParseState) -> Parsed<ExprId>
    decreases 257 - depth, 6int, 0int, 0int,
{
    if toks[st.pos].kind == TokenKind::Colon && (toks[st.pos + 1].kind == TokenKind::Comma
        || toks[st.pos + 1].kind == TokenKind::RBracket) {
        Ok(push(toks, advanced(st), NodeView::FullExtent, offset(toks, st.pos)))
    } else {
        expr(toks, depth, st, 0)
    }
}

/// The tail of `then_val if cond else else_val`. The `else` may stand on a later line, at the
/// column where the whole expression began.
#[verifier::opaque]
pub open spec fn conditional(
    toks: Seq<TokenView>,
    depth: nat,
    st: ParseState,
    then_val: ExprId,
    start_col: int,
) -> Parsed<ExprId>
    decreases 257 - depth, 7int, 0int, 1int,
{
    conditional_rule(toks, depth, st, then_val, start_col)
}

/// What [`conditional`] stands for.
pub open spec fn conditional_rule(
    toks: Seq<TokenView>,
    depth: nat,
    st: ParseState,
    then_val: ExprId,
    start_col: int,
) -> Parsed<ExprId>
    decreases 257 - depth, 7int, 0int, 0int,
{
    match expr(toks, depth, advanced(st), 0) {
        Err(error) => Err(error),
        Ok((s1, cond)) => {
            let s2 = skip_wrapping(toks, s1);
            let token = toks[s2.pos];
            if token.kind != TokenKind::KwElse {
                unexpected("Expected `else` in a conditional expression."@)
            } else if s2.pos != s1.pos && token.col != start_col {
                Err(
                    ParseErrorView::Layout(
                        "Continuation `else` at column "@ + decimal_text(token.col as nat)
                            + " must align to the conditional's column "@ + decimal_text(
                            start_col as nat,
                        ) + "."@,
                    ),
                )
            } else {
                match expr(toks, depth, advanced(s2), CONDITIONAL_BP) {
                    Err(error) => Err(error),
                    Ok((s3, else_val)) => Ok(
                        push(
                            toks,
                            s3,
                            NodeView::If(
                                seq![IfArmView { cond, body: only_result(then_val) }],
                                Some(only_result(else_val)),
                            ),
                            start_of(s3, then_val),
                        ),
                    ),
                }
            }
        },
    }
}

pub open spec fn only_result(expr_id: ExprId) -> BlockView {
    BlockView { stmts: Seq::empty(), result: Some(expr_id) }
}

/// The comparisons that follow each other: `a < b < c` becomes `(a < b) and (b < c)`, with the
/// middle operand shared. Yields the operators met and the last node made.
#[verifier::opaque]
pub open spec fn comparisons(
    toks: Seq<TokenView>,
    depth: nat,
    st: ParseState,
    prev: ExprId,
    chained: Seq<BinOp>,
    result: Option<ExprId>,
) -> Parsed<(Seq<BinOp>, ExprId)>
    decreases 257 - depth, 7int, toks.len() - st.pos, 1int,
{
    comparisons_rule(toks, depth, st, prev, chained, result)
}

/// What [`comparisons`] stands for.
pub open spec fn comparisons_rule(
    toks: Seq<TokenView>,
    depth: nat,
    st: ParseState,
    prev: ExprId,
    chained: Seq<BinOp>,
    result: Option<ExprId>,
) -> Parsed<(Seq<BinOp>, ExprId)>
    decreases 257 - depth, 7int, toks.len() - st.pos, 0int,
{
    match comparison_op(toks[st.pos].kind) {
        None => match result {
            Some(expr_id) => Ok((st, (chained, expr_id))),
            None => stalled(),
        },
        Some(op) => match expr(toks, depth, advanced(st), 46) {
            Err(error) => Err(error),
            Ok((s1, next)) => {
                let (s2, comparison) = push(
                    toks,
                    s1,
                    NodeView::Bin(op, prev, next),
                    start_of(s1, prev),
                );
                let (s3, so_far) = match result {
                    None => (s2, comparison),
                    Some(accumulated) => push(
                        toks,
                        s2,
                        NodeView::Bin(BinOp::And, accumulated, comparison),
                        start_of(s2, accumulated),
                    ),
                };
                if moved(toks, st, s3) {
                    comparisons(toks, depth, s3, next, chained.push(op), Some(so_far))
                } else {
                    stalled()
                }
            },
        },
    }
}

/// The tail of a range: the stop bound and an optional `:step`.
#[verifier::opaque]
pub open spec fn range_tail(
    toks: Seq<TokenView>,
    depth: nat,
    st: ParseState,
    start: ExprId,
    kind: RangeKind,
) -> Parsed<ExprId>
    decreases 257 - depth, 7int, 0int, 1int,
{
    range_tail_rule(toks, depth, st, start, kind)
}

/// What [`range_tail`] stands for.
pub open spec fn range_tail_rule(
    toks: Seq<TokenView>,
    depth: nat,
    st: ParseState,
    start: ExprId,
    kind: RangeKind,
) -> Parsed<ExprId>
    decreases 257 - depth, 7int, 0int, 0int,
{
    match expr(toks, depth, advanced(st), 51) {
        Err(error) => Err(error),
        Ok((s1, stop)) => if toks[s1.pos].kind == TokenKind::Colon {
            match expr(toks, depth, advanced(s1), 51) {
                Err(error) => Err(error),
                Ok((s2, step)) => Ok(
                    push(
                        toks,
                        s2,
                        NodeView::Range(start, stop, Some(step), kind),
                        start_of(s2, start),
                    ),
                ),
            }
        } else {
            Ok(push(toks, s1, NodeView::Range(start, stop, None, kind), start_of(s1, start)))
        },
    }
}

/// A prefix operator (`-` / `not`) applied to an operand, or else a primary.
#[verifier::opaque]
pub open spec fn prefix(toks: Seq<TokenView>, depth: nat, st: ParseState) -> Parsed<ExprId>
    decreases 257 - depth, 8int, 0int, 1int,
{
    prefix_rule(toks, depth, st)
}

/// What [`prefix`] stands for.
pub open spec fn prefix_rule(toks: Seq<TokenView>, depth: nat, st: ParseState) -> Parsed<ExprId>
    decreases 257 - depth, 8int, 0int, 0int,
{
    match toks[st.pos].kind {
        TokenKind::Minus => negated(toks, depth, st, UnOp::Neg),
        TokenKind::KwNot => negated(toks, depth, st, UnOp::Not),
        _ => primary(toks, depth, st),
    }
}

#[verifier::opaque]
pub open spec fn negated(
    toks: Seq<TokenView>,
    depth: nat,
    st: ParseState,
    op: UnOp,
) -> Parsed<ExprId>
    decreases 257 - depth, 7int, 0int, 1int,
{
    negated_rule(toks, depth, st, op)
}

/// What [`negated`] stands for.
pub open spec fn negated_rule(
    toks: Seq<TokenView>,
    depth: nat,
    st: ParseState,
    op: UnOp,
) -> Parsed<ExprId>
    decreases 257 - depth, 7int, 0int, 0int,
{
    match expr(toks, depth, advanced(st), UNARY_MINUS_BP) {
        Err(error) => Err(error),
        Ok((s1, operand)) => Ok(
            push(toks, s1, NodeView::Unary(op, operand), offset(toks, st.pos)),
        ),
    }
}

/// An atom: a literal, a name or `::global`, a parenthesised expression, a call, an array, or a
/// block-form `if`.
#[verifier::opaque]
pub open spec fn primary(toks: Seq<TokenView>, depth: nat, st: ParseState) -> Parsed<ExprId>
    decreases 257 - depth, 7int, 0int, 1int,
{
    primary_rule(toks, depth, st)
}

/// What [`primary`] stands for.
pub open spec fn primary_rule(toks: Seq<TokenView>, depth: nat, st: ParseState) -> Parsed<ExprId>
    decreases 257 - depth, 7int, 0int, 0int,
{
    let token = toks[st.pos];
    let s1 = advanced(st);
    let start = offset(toks, st.pos);
    match token.kind {
        TokenKind::Int => match int_literal(token.text) {
            Err(error) => Err(error),
            Ok(value) => Ok(push(toks, s1, NodeView::Int(value), start)),
        },
        TokenKind::Float => Ok(
            push(toks, s1, NodeView::Float(without_separators(token.text)), start),
        ),
        TokenKind::KwTrue => Ok(push(toks, s1, NodeView::Bool(true), start)),
        TokenKind::KwFalse => Ok(push(toks, s1, NodeView::Bool(false), start)),
        TokenKind::Str => {
            let (s2, str_id) = push_string(s1, decode_utf8(inside(token.text, 1)));
            Ok(push(toks, s2, NodeView::Str(str_id), start))
        },
        TokenKind::FStr => match fstring_segments(inside(token.text, 2), s1, 0, 0, Seq::empty()) {
            Err(error) => Err(error),
            Ok((s2, segments)) => Ok(push(toks, s2, NodeView::FStr(segments), start)),
        },
        TokenKind::Identifier => if toks[st.pos + 1].kind == TokenKind::LParen {
            call(toks, depth, st)
        } else {
            let (s2, sym_id) = intern(s1, token.text);
            Ok(push(toks, s2, NodeView::Var(sym_id), start))
        },
        TokenKind::ColonColon => match expect(toks, s1, TokenKind::Identifier) {
            Err(error) => Err(error),
            Ok((s2, name)) => {
                let (s3, sym_id) = intern(s2, name.text);
                Ok(push(toks, s3, NodeView::Global(sym_id), start))
            },
        },
        TokenKind::KwIf => if_expr(toks, depth, st),
        TokenKind::LParen => match expr(toks, depth, s1, 0) {
            Err(error) => Err(error),
            Ok((s2, inner)) => match expect(toks, s2, TokenKind::RParen) {
                Err(error) => Err(error),
                Ok((s3, _)) => Ok((s3, inner)),
            },
        },
        TokenKind::LBracket => array(toks, depth, st),
        other => unexpected_token(other),
    }
}

/// `<name>(<args>)` — a function call.
#[verifier::opaque]
pub open spec fn call(toks: Seq<TokenView>, depth: nat, st: ParseState) -> Parsed<ExprId>
    decreases 257 - depth, 6int, 0int, 1int,
{
    call_rule(toks, depth, st)
}

/// What [`call`] stands for.
pub open spec fn call_rule(toks: Seq<TokenView>, depth: nat, st: ParseState) -> Parsed<ExprId>
    decreases 257 - depth, 6int, 0int, 0int,
{
    let (s1, callee) = intern(advanced(st), toks[st.pos].text);
    match expect(toks, s1, TokenKind::LParen) {
        Err(error) => Err(error),
        Ok((s2, _)) => {
            let arguments = if toks[s2.pos].kind == TokenKind::RParen {
                Ok((s2, Seq::empty()))
            } else {
                call_args(toks, depth, s2, Seq::empty())
            };
            match arguments {
                Err(error) => Err(error),
                Ok((s3, args)) => match expect(toks, s3, TokenKind::RParen) {
                    Err(error) => Err(error),
                    Ok((s4, _)) => Ok(
                        push(toks, s4, NodeView::Call(callee, args), offset(toks, st.pos)),
                    ),
                },
            }
        },
    }
}

#[verifier::opaque]
pub open spec fn call_args(
    toks: Seq<TokenView>,
    depth: nat,
    st: ParseState,
    args: Seq<ExprId>,
) -> Parsed<Seq<ExprId>>
    decreases 257 - depth, 5int, toks.len() - st.pos, 1int,
{
    call_args_rule(toks, depth, st, args)
}

/// What [`call_args`] stands for.
pub open spec fn call_args_rule(
    toks: Seq<TokenView>,
    depth: nat,
    st: ParseState,
    args: Seq<ExprId>,
) -> Parsed<Seq<ExprId>>
    decreases 257 - depth, 5int, toks.len() - st.pos, 0int,
{
    match expr(toks, depth, st, 0) {
        Err(error) => Err(error),
        Ok((s1, arg)) => match toks[s1.pos].kind {
            TokenKind::Comma => if moved(toks, st, advanced(s1)) {
                call_args(toks, depth, advanced(s1), args.push(arg))
            } else {
                stalled()
            },
            TokenKind::RParen => Ok((s1, args.push(arg))),
            other => unexpected_token(other),
        },
    }
}

/// `[…]` — a 1D array literal, a matrix literal, or an array comprehension.
#[verifier::opaque]
pub open spec fn array(toks: Seq<TokenView>, depth: nat, st: ParseState) -> Parsed<ExprId>
    decreases 257 - depth, 6int, 0int, 1int,
{
    array_rule(toks, depth, st)
}

/// What [`array`] stands for.
pub open spec fn array_rule(toks: Seq<TokenView>, depth: nat, st: ParseState) -> Parsed<ExprId>
    decreases 257 - depth, 6int, 0int, 0int,
{
    let s1 = advanced(st);
    let start = offset(toks, st.pos);
    if toks[s1.pos].kind == TokenKind::RBracket {
        unexpected("Array literal cannot be empty."@)
    } else {
        match expr(toks, depth, s1, 0) {
            Err(error) => Err(error),
            Ok((s2, first)) => if toks[s2.pos].kind == TokenKind::KwFor {
                comprehension(toks, depth, s2, first, start)
            } else {
                match row(toks, depth, s2, seq![first]) {
                    Err(error) => Err(error),
                    Ok((s3, first_row)) => if toks[s3.pos].kind == TokenKind::Semicolon {
                        match rows(toks, depth, s3, seq![first_row], toks[s1.pos].col) {
                            Err(error) => Err(error),
                            Ok((s4, all)) => match expect(toks, s4, TokenKind::RBracket) {
                                Err(error) => Err(error),
                                Ok((s5, _)) => Ok(
                                    push(toks, s5, NodeView::MatrixLiteral(all), start),
                                ),
                            },
                        }
                    } else {
                        match expect(toks, s3, TokenKind::RBracket) {
                            Err(error) => Err(error),
                            Ok((s4, _)) => Ok(
                                push(toks, s4, NodeView::ArrayLiteral(first_row), start),
                            ),
                        }
                    },
                }
            },
        }
    }
}

/// The tail of `[element for var[:type] in source]`, from the `for` on.
#[verifier::opaque]
pub open spec fn comprehension(
    toks: Seq<TokenView>,
    depth: nat,
    st: ParseState,
    element: ExprId,
    start: u32,
) -> Parsed<ExprId>
    decreases 257 - depth, 5int, 0int, 1int,
{
    comprehension_rule(toks, depth, st, element, start)
}

/// What [`comprehension`] stands for.
pub open spec fn comprehension_rule(
    toks: Seq<TokenView>,
    depth: nat,
    st: ParseState,
    element: ExprId,
    start: u32,
) -> Parsed<ExprId>
    decreases 257 - depth, 5int, 0int, 0int,
{
    match expect(toks, advanced(st), TokenKind::Identifier) {
        Err(error) => Err(error),
        Ok((s1, name)) => {
            let (s2, var) = intern(s1, name.text);
            let annotated = if toks[s2.pos].kind == TokenKind::Colon {
                type_annotation(toks, advanced(s2))
            } else {
                Ok((s2, PinpType::Int))
            };
            match annotated {
                Err(error) => Err(error),
                Ok((s3, var_type)) => match expect(toks, s3, TokenKind::KwIn) {
                    Err(error) => Err(error),
                    Ok((s4, _)) => match expr(toks, depth, s4, 0) {
                        Err(error) => Err(error),
                        Ok((s5, source)) => match expect(toks, s5, TokenKind::RBracket) {
                            Err(error) => Err(error),
                            Ok((s6, _)) => Ok(
                                push(
                                    toks,
                                    s6,
                                    NodeView::Comprehension(element, var, var_type, source),
                                    start,
                                ),
                            ),
                        },
                    },
                },
            }
        },
    }
}

/// The rest of a row: elements separated by `,`, with one `,` allowed before `]` but none before
/// `;`.
#[verifier::opaque]
pub open spec fn row(
    toks: Seq<TokenView>,
    depth: nat,
    st: ParseState,
    elements: Seq<ExprId>,
) -> Parsed<Seq<ExprId>>
    decreases 257 - depth, 4int, toks.len() - st.pos, 1int,
{
    row_rule(toks, depth, st, elements)
}

/// What [`row`] stands for.
pub open spec fn row_rule(
    toks: Seq<TokenView>,
    depth: nat,
    st: ParseState,
    elements: Seq<ExprId>,
) -> Parsed<Seq<ExprId>>
    decreases 257 - depth, 4int, toks.len() - st.pos, 0int,
{
    if toks[st.pos].kind != TokenKind::Comma {
        Ok((st, elements))
    } else {
        let s1 = advanced(st);
        if toks[s1.pos].kind == TokenKind::RBracket {
            Ok((s1, elements))
        } else if toks[s1.pos].kind == TokenKind::Semicolon {
            unexpected("Trailing `,` before `;` in matrix row."@)
        } else {
            match expr(toks, depth, s1, 0) {
                Err(error) => Err(error),
                Ok((s2, element)) => if moved(toks, st, s2) {
                    row(toks, depth, s2, elements.push(element))
                } else {
                    stalled()
                },
            }
        }
    }
}

/// The remaining rows of a matrix. A row that begins on a new line must align with the first.
#[verifier::opaque]
pub open spec fn rows(
    toks: Seq<TokenView>,
    depth: nat,
    st: ParseState,
    done: Seq<Seq<ExprId>>,
    anchor_col: int,
) -> Parsed<Seq<Seq<ExprId>>>
    decreases 257 - depth, 5int, toks.len() - st.pos, 1int,
{
    rows_rule(toks, depth, st, done, anchor_col)
}

/// What [`rows`] stands for.
pub open spec fn rows_rule(
    toks: Seq<TokenView>,
    depth: nat,
    st: ParseState,
    done: Seq<Seq<ExprId>>,
    anchor_col: int,
) -> Parsed<Seq<Seq<ExprId>>>
    decreases 257 - depth, 5int, toks.len() - st.pos, 0int,
{
    if toks[st.pos].kind != TokenKind::Semicolon {
        Ok((st, done))
    } else {
        let s1 = advanced(st);
        let token = toks[s1.pos];
        if token.kind == TokenKind::RBracket {
            unexpected("Trailing `;` in matrix literal."@)
        } else if token.line != toks[st.pos].line && token.col != anchor_col {
            Err(
                ParseErrorView::Layout(
                    "Matrix row at column "@ + decimal_text(token.col as nat)
                        + " must align with the first row at column "@ + decimal_text(
                        anchor_col as nat,
                    ) + "."@,
                ),
            )
        } else {
            match expr(toks, depth, s1, 0) {
                Err(error) => Err(error),
                Ok((s2, first)) => match row(toks, depth, s2, seq![first]) {
                    Err(error) => Err(error),
                    Ok((s3, elements)) => if moved(toks, st, s3) {
                        rows(toks, depth, s3, done.push(elements), anchor_col)
                    } else {
                        stalled()
                    },
                },
            }
        }
    }
}

/// `if <cond> <block> (elif <cond> <block>)* (else <block>)?` — the block-form if-expression.
#[verifier::opaque]
pub open spec fn if_expr(toks: Seq<TokenView>, depth: nat, st: ParseState) -> Parsed<ExprId>
    decreases 257 - depth, 6int, 0int, 1int,
{
    if_expr_rule(toks, depth, st)
}

/// What [`if_expr`] stands for.
pub open spec fn if_expr_rule(toks: Seq<TokenView>, depth: nat, st: ParseState) -> Parsed<ExprId>
    decreases 257 - depth, 6int, 0int, 0int,
{
    match expr(toks, depth, advanced(st), 0) {
        Err(error) => Err(error),
        Ok((s1, cond)) => match block(toks, depth, s1) {
            Err(error) => Err(error),
            Ok((s2, body)) => match if_tail(toks, depth, s2, seq![IfArmView { cond, body }]) {
                Err(error) => Err(error),
                Ok((s3, (arms, else_block))) => Ok(
                    push(toks, s3, NodeView::If(arms, else_block), offset(toks, st.pos)),
                ),
            },
        },
    }
}

/// The arms that follow the first, and the trailing `else`.
#[verifier::opaque]
pub open spec fn if_tail(
    toks: Seq<TokenView>,
    depth: nat,
    st: ParseState,
    arms: Seq<IfArmView>,
) -> Parsed<(Seq<IfArmView>, Option<BlockView>)>
    decreases 257 - depth, 5int, toks.len() - st.pos, 1int,
{
    if_tail_rule(toks, depth, st, arms)
}

/// What [`if_tail`] stands for.
pub open spec fn if_tail_rule(
    toks: Seq<TokenView>,
    depth: nat,
    st: ParseState,
    arms: Seq<IfArmView>,
) -> Parsed<(Seq<IfArmView>, Option<BlockView>)>
    decreases 257 - depth, 5int, toks.len() - st.pos, 0int,
{
    match toks[st.pos].kind {
        TokenKind::KwElif => match expr(toks, depth, advanced(st), 0) {
            Err(error) => Err(error),
            Ok((s1, cond)) => match block(toks, depth, s1) {
                Err(error) => Err(error),
                Ok((s2, body)) => {
                    let more = arms.push(IfArmView { cond, body });
                    if more.len() > MAX_IF_ARMS {
                        Err(
                            ParseErrorView::TooManyArms(
                                "Excessive number of if-elif constructs. The maximum is 256."@,
                            ),
                        )
                    } else if moved(toks, st, s2) {
                        if_tail(toks, depth, s2, more)
                    } else {
                        stalled()
                    }
                },
            },
        },
        TokenKind::KwElse => match block(toks, depth, advanced(st)) {
            Err(error) => Err(error),
            Ok((s1, body)) => Ok((s1, (arms, Some(body)))),
        },
        _ => Ok((st, (arms, None))),
    }
}

// ---------------------------------------------------------------------------
// Blocks and statements
// ---------------------------------------------------------------------------

/// An indented block — `Newline Indent <stmts> Dedent`. A trailing expression statement becomes the
/// block's `result`; a block ending in any other statement has none.
#[verifier::opaque]
pub open spec fn block(toks: Seq<TokenView>, depth: nat, st: ParseState) -> Parsed<BlockView>
    decreases 257 - depth, 0int, 0int, 1int,
{
    block_rule(toks, depth, st)
}

/// What [`block`] stands for.
pub open spec fn block_rule(toks: Seq<TokenView>, depth: nat, st: ParseState) -> Parsed<BlockView>
    decreases 257 - depth, 0int, 0int, 0int,
{
    if depth >= MAX_NESTING_DEPTH {
        too_deep()
    } else {
        match expect(toks, st, TokenKind::Newline) {
            Err(error) => Err(error),
            Ok((s1, _)) => match expect(toks, s1, TokenKind::Indent) {
                Err(error) => Err(error),
                Ok((s2, _)) => match block_stmts(toks, depth + 1, s2, Seq::empty()) {
                    Err(error) => Err(error),
                    Ok((s3, stmts)) => Ok((s3, with_result(stmts))),
                },
            },
        }
    }
}

/// A trailing expression statement is the block's result value, not one of its statements.
pub open spec fn with_result(stmts: Seq<StmtView>) -> BlockView {
    if stmts.len() > 0 && stmts.last() is Expr {
        BlockView { stmts: stmts.drop_last(), result: Some(stmts.last()->Expr_0) }
    } else {
        BlockView { stmts, result: None }
    }
}

#[verifier::opaque]
pub open spec fn block_stmts(
    toks: Seq<TokenView>,
    depth: nat,
    st: ParseState,
    stmts: Seq<StmtView>,
) -> Parsed<Seq<StmtView>>
    decreases 257 - depth, 9int, toks.len() - st.pos, 1int,
{
    block_stmts_rule(toks, depth, st, stmts)
}

/// What [`block_stmts`] stands for.
pub open spec fn block_stmts_rule(
    toks: Seq<TokenView>,
    depth: nat,
    st: ParseState,
    stmts: Seq<StmtView>,
) -> Parsed<Seq<StmtView>>
    decreases 257 - depth, 9int, toks.len() - st.pos, 0int,
{
    match stmt(toks, depth, st) {
        Err(error) => Err(error),
        Ok((s1, read)) => match block_end(toks, swallow_dedents(toks, s1)) {
            Err(error) => Err(error),
            Ok((s2, ended)) => if ended {
                Ok((s2, stmts.push(read)))
            } else if moved(toks, st, s2) {
                block_stmts(toks, depth, s2, stmts.push(read))
            } else {
                stalled()
            },
        },
    }
}

/// Skips the `Dedent`s that close the wrapped lines of the statement just read, and the line end
/// before them.
pub open spec fn swallow_dedents(toks: Seq<TokenView>, st: ParseState) -> ParseState {
    if st.pending == 0 {
        st
    } else {
        drop_dedents(
            toks,
            if toks[st.pos].kind == TokenKind::Newline {
                advanced(st)
            } else {
                st
            },
        )
    }
}

pub open spec fn drop_dedents(toks: Seq<TokenView>, st: ParseState) -> ParseState
    decreases st.pending,
{
    if st.pending > 0 && toks[st.pos].kind == TokenKind::Dedent {
        drop_dedents(toks, ParseState { pos: st.pos + 1, pending: st.pending - 1, ..st })
    } else {
        st
    }
}

/// Whether a statement that ends before `pos` ended on a layout token, so that the next one may
/// follow without a separator.
pub open spec fn ended_at_layout(toks: Seq<TokenView>, pos: int) -> bool {
    is_separator(toks[pos - 1].kind)
}

/// Consumes the separator between two statements and says whether the block has ended.
#[verifier::opaque]
pub open spec fn block_end(toks: Seq<TokenView>, st: ParseState) -> Parsed<bool> {
    let kind = toks[st.pos].kind;
    if kind == TokenKind::Dedent {
        Ok((advanced(st), true))
    } else if kind == TokenKind::Eof {
        Ok((st, true))
    } else if kind == TokenKind::Newline || ended_at_layout(toks, st.pos) {
        let s1 = if kind == TokenKind::Newline {
            advanced(st)
        } else {
            st
        };
        if toks[s1.pos].kind == TokenKind::Dedent {
            Ok((advanced(s1), true))
        } else {
            Ok((s1, toks[s1.pos].kind == TokenKind::Eof))
        }
    } else {
        unexpected_token(kind)
    }
}

/// One statement: a control-flow construct (`while`/`loop`/`for`), an expression statement, or a
/// (parallel/chained/compound) assignment.
#[verifier::opaque]
pub open spec fn stmt(toks: Seq<TokenView>, depth: nat, st: ParseState) -> Parsed<StmtView>
    decreases 257 - depth, 8int, 0int, 1int,
{
    stmt_rule(toks, depth, st)
}

/// What [`stmt`] stands for.
pub open spec fn stmt_rule(toks: Seq<TokenView>, depth: nat, st: ParseState) -> Parsed<StmtView>
    decreases 257 - depth, 8int, 0int, 0int,
{
    match toks[st.pos].kind {
        TokenKind::KwWhile => match expr(toks, depth, advanced(st), 0) {
            Err(error) => Err(error),
            Ok((s1, cond)) => match block(toks, depth, s1) {
                Err(error) => Err(error),
                Ok((s2, body)) => Ok((s2, StmtView::While(cond, body))),
            },
        },
        TokenKind::KwLoop => loop_stmt(toks, depth, st),
        TokenKind::KwFor => for_stmt(toks, depth, st),
        _ => match expr_list(toks, depth, st) {
            Err(error) => Err(error),
            Ok((s1, first)) => after_list(toks, depth, s1, first),
        },
    }
}

/// `loop <block> (while | until) <cond>` — a post-tested loop (`until` flips the sense).
#[verifier::opaque]
pub open spec fn loop_stmt(toks: Seq<TokenView>, depth: nat, st: ParseState) -> Parsed<StmtView>
    decreases 257 - depth, 7int, 0int, 1int,
{
    loop_stmt_rule(toks, depth, st)
}

/// What [`loop_stmt`] stands for.
pub open spec fn loop_stmt_rule(
    toks: Seq<TokenView>,
    depth: nat,
    st: ParseState,
) -> Parsed<StmtView>
    decreases 257 - depth, 7int, 0int, 0int,
{
    match block(toks, depth, advanced(st)) {
        Err(error) => Err(error),
        Ok((s1, body)) => {
            let kind = toks[s1.pos].kind;
            if kind == TokenKind::KwWhile || kind == TokenKind::KwUntil {
                match expr(toks, depth, advanced(s1), 0) {
                    Err(error) => Err(error),
                    Ok((s2, cond)) => Ok(
                        (s2, StmtView::Loop(body, cond, kind == TokenKind::KwUntil)),
                    ),
                }
            } else {
                unexpected(
                    "Expected `while` or `until` after a loop body, found "@ + kind_text(kind)
                        + "."@,
                )
            }
        },
    }
}

/// `for <binder>[, <binder>…] in <source> <block>`, with one to three binders.
#[verifier::opaque]
pub open spec fn for_stmt(toks: Seq<TokenView>, depth: nat, st: ParseState) -> Parsed<StmtView>
    decreases 257 - depth, 7int, 0int, 1int,
{
    for_stmt_rule(toks, depth, st)
}

/// What [`for_stmt`] stands for.
pub open spec fn for_stmt_rule(toks: Seq<TokenView>, depth: nat, st: ParseState) -> Parsed<StmtView>
    decreases 257 - depth, 7int, 0int, 0int,
{
    match binder(toks, advanced(st)) {
        Err(error) => Err(error),
        Ok((s1, first)) => match more_binders(toks, s1, seq![first]) {
            Err(error) => Err(error),
            Ok((s2, binders)) => if binders.len() > 3 {
                unexpected("Too many binders in for loop."@)
            } else {
                match expect(toks, s2, TokenKind::KwIn) {
                    Err(error) => Err(error),
                    Ok((s3, _)) => match expr(toks, depth, s3, 0) {
                        Err(error) => Err(error),
                        Ok((s4, source)) => match block(toks, depth, s4) {
                            Err(error) => Err(error),
                            Ok((s5, body)) => Ok(
                                (
                                    s5,
                                    if binders.len() == 1 {
                                        StmtView::For(first, source, body)
                                    } else {
                                        StmtView::ForArray(binders, source, body)
                                    },
                                ),
                            ),
                        },
                    },
                }
            },
        },
    }
}

/// A for-loop binder: a name, or the don't-care `_`.
pub open spec fn binder(toks: Seq<TokenView>, st: ParseState) -> Parsed<SymId> {
    let token = toks[st.pos];
    if token.kind == TokenKind::Identifier || token.kind == TokenKind::Underscore {
        let (s1, sym_id) = intern(st, token.text);
        Ok((advanced(s1), sym_id))
    } else {
        unexpected("Expected a binder name or `_`, found `"@ + token.text + "`."@)
    }
}

pub open spec fn more_binders(
    toks: Seq<TokenView>,
    st: ParseState,
    binders: Seq<SymId>,
) -> Parsed<Seq<SymId>>
    decreases toks.len() - st.pos,
{
    if 0 <= st.pos < toks.len() && toks[st.pos].kind == TokenKind::Comma {
        match binder(toks, advanced(st)) {
            Err(error) => Err(error),
            Ok((s1, sym_id)) => if moved(toks, st, s1) {
                more_binders(toks, s1, binders.push(sym_id))
            } else {
                stalled()
            },
        }
    } else {
        Ok((st, binders))
    }
}

/// A comma-separated list of expressions. A comma at the end of a line continues the list onto the
/// next, at the column where the list began.
#[verifier::opaque]
pub open spec fn expr_list(toks: Seq<TokenView>, depth: nat, st: ParseState) -> Parsed<Seq<ExprId>>
    decreases 257 - depth, 5int, 0int, 1int,
{
    expr_list_rule(toks, depth, st)
}

/// What [`expr_list`] stands for.
pub open spec fn expr_list_rule(
    toks: Seq<TokenView>,
    depth: nat,
    st: ParseState,
) -> Parsed<Seq<ExprId>>
    decreases 257 - depth, 5int, 0int, 0int,
{
    match expr(toks, depth, st, 0) {
        Err(error) => Err(error),
        Ok((s1, first)) => list_tail(toks, depth, s1, toks[st.pos].col, seq![first]),
    }
}

#[verifier::opaque]
pub open spec fn list_tail(
    toks: Seq<TokenView>,
    depth: nat,
    st: ParseState,
    list_col: int,
    exprs: Seq<ExprId>,
) -> Parsed<Seq<ExprId>>
    decreases 257 - depth, 4int, toks.len() - st.pos, 1int,
{
    list_tail_rule(toks, depth, st, list_col, exprs)
}

/// What [`list_tail`] stands for.
pub open spec fn list_tail_rule(
    toks: Seq<TokenView>,
    depth: nat,
    st: ParseState,
    list_col: int,
    exprs: Seq<ExprId>,
) -> Parsed<Seq<ExprId>>
    decreases 257 - depth, 4int, toks.len() - st.pos, 0int,
{
    if toks[st.pos].kind != TokenKind::Comma {
        Ok((st, exprs))
    } else {
        let s1 = advanced(st);
        let continued = if toks[s1.pos].kind == TokenKind::Newline {
            skip_wrapping(toks, s1)
        } else {
            s1
        };
        let col = toks[continued.pos].col;
        if toks[s1.pos].kind == TokenKind::Newline && col != list_col {
            Err(
                ParseErrorView::Layout(
                    "Continuation at column "@ + decimal_text(col as nat)
                        + " must align to the list's column "@ + decimal_text(list_col as nat)
                        + "."@,
                ),
            )
        } else {
            match expr(toks, depth, continued, 0) {
                Err(error) => Err(error),
                Ok((s2, next)) => if moved(toks, st, s2) {
                    list_tail(toks, depth, s2, list_col, exprs.push(next))
                } else {
                    stalled()
                },
            }
        }
    }
}

/// The place that an expression names, if it names one.
pub open spec fn named_place(node: NodeView) -> Option<Place> {
    match node {
        NodeView::Var(sym_id) => Some(Place::Local(sym_id)),
        NodeView::Global(sym_id) => Some(Place::Global(sym_id)),
        _ => None,
    }
}

pub open spec fn expr_place(st: ParseState, expr_id: ExprId) -> Option<Place> {
    named_place(st.ast.nodes[expr_id.0 as int])
}

/// What follows the first list of a statement: a compound assignment, an assignment to part of an
/// array, nothing (an expression statement), or an assignment with further lists.
#[verifier::opaque]
pub open spec fn after_list(
    toks: Seq<TokenView>,
    depth: nat,
    st: ParseState,
    first: Seq<ExprId>,
) -> Parsed<StmtView>
    decreases 257 - depth, 7int, 0int, 1int,
{
    after_list_rule(toks, depth, st, first)
}

/// What [`after_list`] stands for.
pub open spec fn after_list_rule(
    toks: Seq<TokenView>,
    depth: nat,
    st: ParseState,
    first: Seq<ExprId>,
) -> Parsed<StmtView>
    decreases 257 - depth, 7int, 0int, 0int,
{
    let kind = toks[st.pos].kind;
    let target = st.ast.nodes[first[0].0 as int];
    if first.len() == 1 && compound_assign_op(kind) is Some {
        let op = compound_assign_op(kind)->0;
        if target is Index || target is Index2D {
            indexed_assign(toks, depth, st, target, Some(op))
        } else {
            match named_place(target) {
                None => unexpected(invalid_target()),
                Some(place) => match expr(toks, depth, advanced(st), 0) {
                    Err(error) => Err(error),
                    Ok((s1, rhs)) => Ok(compound(toks, s1, first[0], place, op, rhs)),
                },
            }
        }
    } else if first.len() == 1 && kind == TokenKind::Equal && (target is Index
        || target is Index2D) {
        indexed_assign(toks, depth, st, target, None)
    } else if kind != TokenKind::Equal {
        if first.len() == 1 {
            Ok((st, StmtView::Expr(first[0])))
        } else if toks[after_separators(toks, st.pos)].kind == TokenKind::Comma {
            Err(
                ParseErrorView::Layout("Multi-line assignment: comma must not start a line."@),
            )
        } else {
            unexpected("Expected `=` after a comma-separated target list."@)
        }
    } else {
        match groups(toks, depth, st, seq![first]) {
            Err(error) => Err(error),
            Ok((s1, all)) => assignment(s1, all),
        }
    }
}

pub open spec fn invalid_target() -> Seq<char> {
    "Invalid assignment target; only names and `::globals` can be assigned."@
}

/// `place <op>= e` read as `place = place <op> e`.
pub open spec fn compound(
    toks: Seq<TokenView>,
    st: ParseState,
    target: ExprId,
    place: Place,
    op: BinOp,
    rhs: ExprId,
) -> (ParseState, StmtView) {
    let span = st.ast.spans[target.0 as int];
    let (s1, read) = push(toks, st, place_read(place), span.start);
    let (s2, combined) = push(toks, s1, NodeView::Bin(op, read, rhs), span.start);
    (s2, StmtView::Assign(seq![seq![place]], seq![seq![span]], seq![combined]))
}

/// An assignment to the element that `target` selects.
#[verifier::opaque]
pub open spec fn indexed_assign(
    toks: Seq<TokenView>,
    depth: nat,
    st: ParseState,
    target: NodeView,
    op: Option<BinOp>,
) -> Parsed<StmtView>
    decreases 257 - depth, 6int, 0int, 1int,
{
    indexed_assign_rule(toks, depth, st, target, op)
}

/// What [`indexed_assign`] stands for.
pub open spec fn indexed_assign_rule(
    toks: Seq<TokenView>,
    depth: nat,
    st: ParseState,
    target: NodeView,
    op: Option<BinOp>,
) -> Parsed<StmtView>
    decreases 257 - depth, 6int, 0int, 0int,
{
    let object = match target {
        NodeView::Index(array, _) => array,
        NodeView::Index2D(matrix, _, _) => matrix,
        _ => ExprId(0),
    };
    match expr_place(st, object) {
        None => unexpected("Invalid assignment target."@),
        Some(place) => match expr(toks, depth, advanced(st), 0) {
            Err(error) => Err(error),
            Ok((s1, value)) => Ok(
                (
                    s1,
                    match target {
                        NodeView::Index(_, index) => StmtView::IndexedAssign(
                            place,
                            index,
                            value,
                            op,
                        ),
                        NodeView::Index2D(_, row, col) => StmtView::IndexedAssign2D(
                            place,
                            row,
                            col,
                            value,
                            op,
                        ),
                        _ => StmtView::Expr(value),
                    },
                ),
            ),
        },
    }
}

/// The lists that follow each `=`.
#[verifier::opaque]
pub open spec fn groups(
    toks: Seq<TokenView>,
    depth: nat,
    st: ParseState,
    done: Seq<Seq<ExprId>>,
) -> Parsed<Seq<Seq<ExprId>>>
    decreases 257 - depth, 6int, toks.len() - st.pos, 1int,
{
    groups_rule(toks, depth, st, done)
}

/// What [`groups`] stands for.
pub open spec fn groups_rule(
    toks: Seq<TokenView>,
    depth: nat,
    st: ParseState,
    done: Seq<Seq<ExprId>>,
) -> Parsed<Seq<Seq<ExprId>>>
    decreases 257 - depth, 6int, toks.len() - st.pos, 0int,
{
    if toks[st.pos].kind != TokenKind::Equal {
        Ok((st, done))
    } else {
        match expr_list(toks, depth, advanced(st)) {
            Err(error) => Err(error),
            Ok((s1, group)) => if moved(toks, st, s1) {
                groups(toks, depth, s1, done.push(group))
            } else {
                stalled()
            },
        }
    }
}

pub open spec fn places_of(st: ParseState, group: Seq<ExprId>) -> Seq<Place> {
    Seq::new(
        group.len(),
        |i: int|
            match expr_place(st, group[i]) {
                Some(place) => place,
                None => Place::Local(SymId(0)),
            },
    )
}

pub open spec fn spans_of(st: ParseState, group: Seq<ExprId>) -> Seq<Span> {
    Seq::new(group.len(), |i: int| st.ast.spans[group[i].0 as int])
}

/// What is wrong with a list of targets for `count` values, if anything: a target that is no place
/// first, then a number of targets other than that of the values.
pub open spec fn group_error(st: ParseState, group: Seq<ExprId>, count: int) -> Option<
    ParseErrorView,
> {
    if exists|i: int| 0 <= i < group.len() && expr_place(st, #[trigger] group[i]) is None {
        Some(ParseErrorView::Unexpected(invalid_target()))
    } else if group.len() != count {
        Some(
            ParseErrorView::Unexpected(
                "Assignment has "@ + decimal_text(group.len()) + " target(s) but "@ + decimal_text(
                    count as nat,
                ) + " value(s)."@,
            ),
        )
    } else {
        None
    }
}

/// The first list from `from` on that cannot be a target list.
pub open spec fn first_bad_group(
    st: ParseState,
    targets: Seq<Seq<ExprId>>,
    count: int,
    from: int,
) -> int
    decreases targets.len() - from,
{
    if 0 <= from < targets.len() && group_error(st, targets[from], count) is None {
        first_bad_group(st, targets, count, from + 1)
    } else {
        from
    }
}

/// `target_list = (target_list =)* value_list`: the last group holds the values, and each earlier
/// one is a target list of the same length.
#[verifier::opaque]
pub open spec fn assignment(st: ParseState, all: Seq<Seq<ExprId>>) -> Parsed<StmtView> {
    let values = all.last();
    let targets = all.drop_last();
    let bad = first_bad_group(st, targets, values.len() as int, 0);
    if bad < targets.len() {
        Err(group_error(st, targets[bad], values.len() as int)->0)
    } else {
        Ok(
            (
                st,
                StmtView::Assign(
                    Seq::new(targets.len(), |i: int| places_of(st, targets[i])),
                    Seq::new(targets.len(), |i: int| spans_of(st, targets[i])),
                    values,
                ),
            ),
        )
    }
}

// ---------------------------------------------------------------------------
// Functions and programs
// ---------------------------------------------------------------------------

/// Whether a function definition starts at `pos`: `Ident "(" … ")" [":" type] "is"`. The trailing
/// `is` is what tells it apart from a call statement `f(args)`.
#[verifier::opaque]
pub open spec fn looks_like_func_def(toks: Seq<TokenView>, pos: int) -> bool {
    &&& toks[pos].kind == TokenKind::Identifier
    &&& toks[pos + 1].kind == TokenKind::LParen
    &&& matching_paren(toks, pos + 1, 0) matches Some(close) && {
        let cursor = if close + 1 < toks.len() && toks[close + 1].kind == TokenKind::Colon {
            close + 3
        } else {
            close + 1
        };
        cursor < toks.len() && toks[cursor].kind == TokenKind::KwIs
    }
}

/// The `)` that closes the `(` before which `open` others are open, if the parentheses balance.
pub open spec fn matching_paren(toks: Seq<TokenView>, index: int, open: int) -> Option<int>
    decreases toks.len() - index,
{
    if index < 0 || index >= toks.len() {
        None
    } else {
        match toks[index].kind {
            TokenKind::LParen => matching_paren(toks, index + 1, open + 1),
            TokenKind::RParen => if open == 1 {
                Some(index)
            } else {
                matching_paren(toks, index + 1, open - 1)
            },
            TokenKind::Eof => None,
            _ => matching_paren(toks, index + 1, open),
        }
    }
}

/// The parameter list. A parameter on a line of its own aligns with the first; a first parameter
/// hung onto a later line is indented past the function.
#[verifier::opaque]
pub open spec fn params(
    toks: Seq<TokenView>,
    st: ParseState,
    function: TokenView,
) -> Parsed<Seq<Param>> {
    let first = toks[st.pos];
    if first.kind == TokenKind::RParen {
        Ok((st, Seq::empty()))
    } else if first.line != function.line && first.col <= function.col {
        Err(
            ParseErrorView::Layout(
                "Parameter at line "@ + decimal_text(first.line as nat) + " col "@ + decimal_text(
                    first.col as nat,
                ) + " must be indented past the function at column "@ + decimal_text(
                    function.col as nat,
                ) + "."@,
            ),
        )
    } else {
        param_list(toks, st, first, Seq::empty())
    }
}

pub open spec fn param_list(
    toks: Seq<TokenView>,
    st: ParseState,
    first: TokenView,
    done: Seq<Param>,
) -> Parsed<Seq<Param>>
    decreases toks.len() - st.pos,
{
    let token = toks[st.pos];
    if token.line != first.line && token.col != first.col {
        Err(
            ParseErrorView::Layout(
                "Parameter at line "@ + decimal_text(token.line as nat) + " col "@ + decimal_text(
                    token.col as nat,
                ) + " must align to the first parameter's column "@ + decimal_text(
                    first.col as nat,
                ) + "."@,
            ),
        )
    } else {
        match expect(toks, st, TokenKind::Identifier) {
            Err(error) => Err(error),
            Ok((s1, name_token)) => {
                let (s2, name) = intern(s1, name_token.text);
                match expect(toks, s2, TokenKind::Colon) {
                    Err(error) => Err(error),
                    Ok((s3, _)) => match type_annotation(toks, s3) {
                        Err(error) => Err(error),
                        Ok((s4, param_type)) => {
                            let more = done.push(Param { name, param_type });
                            if toks[s4.pos].kind != TokenKind::Comma {
                                Ok((s4, more))
                            } else if moved(toks, st, advanced(s4)) {
                                param_list(toks, advanced(s4), first, more)
                            } else {
                                stalled()
                            }
                        },
                    },
                }
            },
        }
    }
}

/// Whether an earlier parameter has the name of the one at `index`.
pub open spec fn repeats(all: Seq<Param>, index: int) -> bool {
    exists|i: int| 0 <= i < index && (#[trigger] all[i]).name == all[index].name
}

/// The first parameter from `from` on whose name was used before.
pub open spec fn first_repeat(all: Seq<Param>, from: int) -> int
    decreases all.len() - from,
{
    if 0 <= from < all.len() && !repeats(all, from) {
        first_repeat(all, from + 1)
    } else {
        from
    }
}

/// A function body: an indented block that ends in an expression, or the single-line form
/// `is <expr>` (which must declare a return type).
#[verifier::opaque]
pub open spec fn func_body(toks: Seq<TokenView>, st: ParseState, has_return_type: bool) -> Parsed<
    BlockView,
> {
    if toks[st.pos].kind == TokenKind::Newline {
        match block(toks, 0, st) {
            Err(error) => Err(error),
            Ok((s1, body)) => if body.result is None {
                unexpected("Function body must end with an expression."@)
            } else {
                Ok((s1, body))
            },
        }
    } else if !has_return_type {
        unexpected("Single-line function must declare a return type."@)
    } else {
        match expr(toks, 0, st, 0) {
            Err(error) => Err(error),
            Ok((s1, result)) => match toks[s1.pos].kind {
                TokenKind::Newline | TokenKind::Eof => Ok((s1, only_result(result))),
                other => unexpected_token(other),
            },
        }
    }
}

/// `<name>(<params>) [: <type>] is <body>` — a function definition.
#[verifier::opaque]
pub open spec fn func_def(toks: Seq<TokenView>, st: ParseState) -> Parsed<FuncDefView> {
    let name_token = toks[st.pos];
    let (s1, name) = intern(advanced(st), name_token.text);
    match expect(toks, s1, TokenKind::LParen) {
        Err(error) => Err(error),
        Ok((s2, _)) => match params(toks, s2, name_token) {
            Err(error) => Err(error),
            Ok((s3, all)) => match expect(toks, s3, TokenKind::RParen) {
                Err(error) => Err(error),
                Ok((s4, _)) => {
                    let has_return_type = toks[s4.pos].kind == TokenKind::Colon;
                    let annotated = if has_return_type {
                        type_annotation(toks, advanced(s4))
                    } else {
                        Ok((s4, PinpType::Void))
                    };
                    match annotated {
                        Err(error) => Err(error),
                        Ok((s5, return_type)) => match expect(toks, s5, TokenKind::KwIs) {
                            Err(error) => Err(error),
                            Ok((s6, _)) => {
                                let repeated = first_repeat(all, 0);
                                if repeated < all.len() {
                                    unexpected(
                                        "Duplicate parameter `"@
                                            + s6.ast.names[all[repeated].name.0 as int] + "`."@,
                                    )
                                } else {
                                    match func_body(toks, s6, has_return_type) {
                                        Err(error) => Err(error),
                                        Ok((s7, body)) => Ok(
                                            (
                                                s7,
                                                FuncDefView {
                                                    name,
                                                    params: all,
                                                    return_type,
                                                    body,
                                                },
                                            ),
                                        ),
                                    }
                                }
                            },
                        },
                    }
                },
            },
        },
    }
}

/// One item at the top level, with the state ready for the next.
#[verifier::opaque]
pub open spec fn top_level_item(toks: Seq<TokenView>, st: ParseState) -> Parsed<TopLevelView> {
    if looks_like_func_def(toks, st.pos) {
        match func_def(toks, st) {
            Err(error) => Err(error),
            Ok((s1, func)) => Ok((s1, TopLevelView::Func(func))),
        }
    } else {
        match stmt(toks, 0, st) {
            Err(error) => Err(error),
            Ok((s1, read)) => match toks[s1.pos].kind {
                TokenKind::Newline | TokenKind::Eof | TokenKind::Dedent => Ok(
                    (s1, TopLevelView::Stmt(read)),
                ),
                other => if ended_at_layout(toks, s1.pos) {
                    Ok((s1, TopLevelView::Stmt(read)))
                } else {
                    unexpected_token(other)
                },
            },
        }
    }
}

/// A run of function definitions and statements, up to `Eof`.
pub open spec fn program(toks: Seq<TokenView>, st: ParseState) -> Result<AstView, ParseErrorView>
    decreases toks.len() - st.pos,
{
    let s0 = ParseState { pos: after_separators(toks, st.pos), pending: 0, ..st };
    if toks[s0.pos].kind == TokenKind::Eof {
        Ok(s0.ast)
    } else {
        match top_level_item(toks, s0) {
            Err(error) => Err(error),
            Ok((s1, item)) => if moved(toks, st, s1) {
                program(
                    toks,
                    ParseState {
                        ast: AstView { top_level: s1.ast.top_level.push(item), ..s1.ast },
                        ..s1
                    },
                )
            } else {
                Err(ParseErrorView::Unexpected(Seq::empty()))
            },
        }
    }
}

/// The program that a source means, or its first error.
pub open spec fn parsed(source: Seq<u8>) -> Result<AstView, ParseErrorView> {
    match lexed(source) {
        Err(error) => Err(ParseErrorView::Lex(error.message)),
        Ok(toks) => program(
            toks,
            ParseState {
                pos: 0,
                ast: AstView {
                    nodes: Seq::empty(),
                    spans: Seq::empty(),
                    names: Seq::empty(),
                    strings: Seq::empty(),
                    top_level: Seq::empty(),
                },
                pending: 0,
            },
        ),
    }
}

// ---------------------------------------------------------------------------
// Each construct, unfolded once
// ---------------------------------------------------------------------------

pub proof fn unfold_expr(toks: Seq<TokenView>, depth: nat, st: ParseState, min_bp: u8)
    ensures
        expr(toks, depth, st, min_bp) == expr_rule(toks, depth, st, min_bp),
{
    reveal(expr);
}

pub proof fn unfold_operators(
    toks: Seq<TokenView>,
    depth: nat,
    st: ParseState,
    start_col: int,
    min_bp: u8,
    lhs: ExprId,
)
    ensures
        operators(toks, depth, st, start_col, min_bp, lhs) == operators_rule(
            toks,
            depth,
            st,
            start_col,
            min_bp,
            lhs,
        ),
{
    reveal(operators);
}

pub proof fn unfold_operator(
    toks: Seq<TokenView>,
    depth: nat,
    st: ParseState,
    start_col: int,
    min_bp: u8,
    lhs: ExprId,
)
    ensures
        operator(toks, depth, st, start_col, min_bp, lhs) == operator_rule(
            toks,
            depth,
            st,
            start_col,
            min_bp,
            lhs,
        ),
{
    reveal(operator);
}

pub proof fn unfold_index_tail(toks: Seq<TokenView>, depth: nat, st: ParseState, lhs: ExprId)
    ensures
        index_tail(toks, depth, st, lhs) == index_tail_rule(toks, depth, st, lhs),
{
    reveal(index_tail);
}

pub proof fn unfold_selector(toks: Seq<TokenView>, depth: nat, st: ParseState)
    ensures
        selector(toks, depth, st) == selector_rule(toks, depth, st),
{
    reveal(selector);
}

pub proof fn unfold_conditional(
    toks: Seq<TokenView>,
    depth: nat,
    st: ParseState,
    then_val: ExprId,
    start_col: int,
)
    ensures
        conditional(toks, depth, st, then_val, start_col) == conditional_rule(
            toks,
            depth,
            st,
            then_val,
            start_col,
        ),
{
    reveal(conditional);
}

pub proof fn unfold_comparisons(
    toks: Seq<TokenView>,
    depth: nat,
    st: ParseState,
    prev: ExprId,
    chained: Seq<BinOp>,
    result: Option<ExprId>,
)
    ensures
        comparisons(toks, depth, st, prev, chained, result) == comparisons_rule(
            toks,
            depth,
            st,
            prev,
            chained,
            result,
        ),
{
    reveal(comparisons);
}

pub proof fn unfold_range_tail(
    toks: Seq<TokenView>,
    depth: nat,
    st: ParseState,
    start: ExprId,
    kind: RangeKind,
)
    ensures
        range_tail(toks, depth, st, start, kind) == range_tail_rule(toks, depth, st, start, kind),
{
    reveal(range_tail);
}

pub proof fn unfold_prefix(toks: Seq<TokenView>, depth: nat, st: ParseState)
    ensures
        prefix(toks, depth, st) == prefix_rule(toks, depth, st),
{
    reveal(prefix);
}

pub proof fn unfold_negated(toks: Seq<TokenView>, depth: nat, st: ParseState, op: UnOp)
    ensures
        negated(toks, depth, st, op) == negated_rule(toks, depth, st, op),
{
    reveal(negated);
}

pub proof fn unfold_primary(toks: Seq<TokenView>, depth: nat, st: ParseState)
    ensures
        primary(toks, depth, st) == primary_rule(toks, depth, st),
{
    reveal(primary);
}

pub proof fn unfold_call(toks: Seq<TokenView>, depth: nat, st: ParseState)
    ensures
        call(toks, depth, st) == call_rule(toks, depth, st),
{
    reveal(call);
}

pub proof fn unfold_call_args(toks: Seq<TokenView>, depth: nat, st: ParseState, args: Seq<ExprId>)
    ensures
        call_args(toks, depth, st, args) == call_args_rule(toks, depth, st, args),
{
    reveal(call_args);
}

pub proof fn unfold_array(toks: Seq<TokenView>, depth: nat, st: ParseState)
    ensures
        array(toks, depth, st) == array_rule(toks, depth, st),
{
    reveal(array);
}

pub proof fn unfold_comprehension(
    toks: Seq<TokenView>,
    depth: nat,
    st: ParseState,
    element: ExprId,
    start: u32,
)
    ensures
        comprehension(toks, depth, st, element, start) == comprehension_rule(
            toks,
            depth,
            st,
            element,
            start,
        ),
{
    reveal(comprehension);
}

pub proof fn unfold_row(toks: Seq<TokenView>, depth: nat, st: ParseState, elements: Seq<ExprId>)
    ensures
        row(toks, depth, st, elements) == row_rule(toks, depth, st, elements),
{
    reveal(row);
}

pub proof fn unfold_rows(
    toks: Seq<TokenView>,
    depth: nat,
    st: ParseState,
    done: Seq<Seq<ExprId>>,
    anchor_col: int,
)
    ensures
        rows(toks, depth, st, done, anchor_col) == rows_rule(toks, depth, st, done, anchor_col),
{
    reveal(rows);
}

pub proof fn unfold_if_expr(toks: Seq<TokenView>, depth: nat, st: ParseState)
    ensures
        if_expr(toks, depth, st) == if_expr_rule(toks, depth, st),
{
    reveal(if_expr);
}

pub proof fn unfold_if_tail(toks: Seq<TokenView>, depth: nat, st: ParseState, arms: Seq<IfArmView>)
    ensures
        if_tail(toks, depth, st, arms) == if_tail_rule(toks, depth, st, arms),
{
    reveal(if_tail);
}

pub proof fn unfold_block(toks: Seq<TokenView>, depth: nat, st: ParseState)
    ensures
        block(toks, depth, st) == block_rule(toks, depth, st),
{
    reveal(block);
}

pub proof fn unfold_block_stmts(
    toks: Seq<TokenView>,
    depth: nat,
    st: ParseState,
    stmts: Seq<StmtView>,
)
    ensures
        block_stmts(toks, depth, st, stmts) == block_stmts_rule(toks, depth, st, stmts),
{
    reveal(block_stmts);
}

pub proof fn unfold_stmt(toks: Seq<TokenView>, depth: nat, st: ParseState)
    ensures
        stmt(toks, depth, st) == stmt_rule(toks, depth, st),
{
    reveal(stmt);
}

pub proof fn unfold_loop_stmt(toks: Seq<TokenView>, depth: nat, st: ParseState)
    ensures
        loop_stmt(toks, depth, st) == loop_stmt_rule(toks, depth, st),
{
    reveal(loop_stmt);
}

pub proof fn unfold_for_stmt(toks: Seq<TokenView>, depth: nat, st: ParseState)
    ensures
        for_stmt(toks, depth, st) == for_stmt_rule(toks, depth, st),
{
    reveal(for_stmt);
}

pub proof fn unfold_expr_list(toks: Seq<TokenView>, depth: nat, st: ParseState)
    ensures
        expr_list(toks, depth, st) == expr_list_rule(toks, depth, st),
{
    reveal(expr_list);
}

pub proof fn unfold_list_tail(
    toks: Seq<TokenView>,
    depth: nat,
    st: ParseState,
    list_col: int,
    exprs: Seq<ExprId>,
)
    ensures
        list_tail(toks, depth, st, list_col, exprs) == list_tail_rule(
            toks,
            depth,
            st,
            list_col,
            exprs,
        ),
{
    reveal(list_tail);
}

pub proof fn unfold_after_list(toks: Seq<TokenView>, depth: nat, st: ParseState, first: Seq<ExprId>)
    ensures
        after_list(toks, depth, st, first) == after_list_rule(toks, depth, st, first),
{
    reveal(after_list);
}

pub proof fn unfold_indexed_assign(
    toks: Seq<TokenView>,
    depth: nat,
    st: ParseState,
    target: NodeView,
    op: Option<BinOp>,
)
    ensures
        indexed_assign(toks, depth, st, target, op) == indexed_assign_rule(
            toks,
            depth,
            st,
            target,
            op,
        ),
{
    reveal(indexed_assign);
}

pub proof fn unfold_groups(toks: Seq<TokenView>, depth: nat, st: ParseState, done: Seq<Seq<ExprId>>)
    ensures
        groups(toks, depth, st, done) == groups_rule(toks, depth, st, done),
{
    reveal(groups);
}

} // verus!
