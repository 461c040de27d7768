//! Recursive-descent parser with Pratt (precedence-climbing) expression parsing.
//!
//! A program is a sequence of [`TopLevel`]s — top-level statements (which run in the global
//! scope) and function definitions ([`ast::FuncDef`]). Statements and function bodies are parsed
//! by straight recursive descent; expressions are parsed by `parse_expr`, a Pratt loop
//! driven by the binding-power table in `infix`. Each operator carries a (left, right)
//! binding power; left-associative ops use `right == left + 1`, right-associative ops (`^`)
//! use `right == left`. Prefix `-` is handled in `parse_prefix` at `UNARY_MINUS_BP`.
//!
//! Output is an arena, not a tree of boxes:
//! - **AST arena** — nodes live in `Ast::nodes: Vec<Node>` and reference each other by
//!   [`ExprId`] (an index), so there is no `Box`/`Rc`. The inferred type of each node
//!   sits in the parallel `Ast::types` vec at the same index, and where it is written in
//!   `Ast::spans`.
//! - **Interner** — identifiers map to [`SymId`] via `Ast::symbols`, backed by `&'src str`
//!   slices borrowed straight from the source (no string copies).
//!
//! Parsing is **purely syntactic**: it builds the structural AST and reports only lexical/layout
//! errors ([`ParseError`]). What each construct means is stated in [`grammar`], as a function from
//! tokens to the program they stand for; every function of the parser is proved to compute it.

pub mod ast;

mod expr;
pub mod grammar;
mod item;

pub(crate) mod literals;
pub mod numerals;
pub mod precedence;
pub mod sentences;
pub mod trees;

use crate::lexer::{lex, token_views, Token, TokenKind, TokenView, MAX_SOURCE_LEN};
use crate::parser::ast::{AstView, node_ok, symbol_ok, top_level_ok};
use crate::parser::grammar::{ParseErrorView, ParseState, Parsed, MAX_NESTING_DEPTH};
use crate::lexer::Span;
use crate::text::join5;
use crate::token_stream::{is_layout, token_list_ok, token_ok};
use vstd::prelude::*;
use vstd::string::*;
use vstd::utf8::*;

pub use ast::{
    ArrayElementType, Ast, BinOp, Block, ExprId, FStrSegment, FuncDef, IfArm, Node, Param, PinpType,
    Place, ProgramAst, RangeKind, Stmt, StrId, SymId, TopLevel, UnOp,
};

verus! {

/// A syntactic failure from lexing or parsing. pinp is fail-fast: the first error returned stops
/// the pass. Semantic errors live in [`crate::sema::SemaError`].
#[derive(Debug, Clone, PartialEq)]
pub enum ParseError {
    /// A lexing failure (carries the [`crate::lexer::LexError`] message).
    Lex(String),
    /// A syntax error: an unexpected/missing token, or a malformed declaration (a duplicate
    /// parameter, an unknown type name, a single-line body without a return type, ...).
    Unexpected(String),
    /// An indentation or parameter-alignment error.
    Layout(String),
    /// Parse nesting (parens, ternaries, or block bodies) ran past `MAX_NESTING_DEPTH` — refused
    /// as runaway input before it could overflow the stack, rather than reported as a bad token.
    TooDeeplyNested(String),
    /// A single `if` carried more arms than `MAX_IF_ARMS` — a deliberate sanity cap on an
    /// otherwise-unbounded (but stack-safe) `elif` ladder.
    TooManyArms(String),
}

impl View for ParseError {
    type V = ParseErrorView;

    open spec fn view(&self) -> ParseErrorView {
        match *self {
            ParseError::Lex(message) => ParseErrorView::Lex(message@),
            ParseError::Unexpected(message) => ParseErrorView::Unexpected(message@),
            ParseError::Layout(message) => ParseErrorView::Layout(message@),
            ParseError::TooDeeplyNested(message) => ParseErrorView::TooDeeplyNested(message@),
            ParseError::TooManyArms(message) => ParseErrorView::TooManyArms(message@),
        }
    }
}

/// A token kind's name in messages.
pub(crate) fn kind_name(kind: TokenKind) -> (name: &'static str)
    ensures
        name@ == grammar::kind_text(kind),
{
    proof {
        reveal(grammar::kind_text);
    }
    match kind {
        TokenKind::Int => "Int",
        TokenKind::Float => "Float",
        TokenKind::Str => "Str",
        TokenKind::FStr => "FStr",
        TokenKind::Identifier => "Identifier",
        TokenKind::Plus => "Plus",
        TokenKind::Minus => "Minus",
        TokenKind::Star => "Star",
        TokenKind::Slash => "Slash",
        TokenKind::Caret => "Caret",
        TokenKind::Equal => "Equal",
        TokenKind::EqEq => "EqEq",
        TokenKind::Ne => "Ne",
        TokenKind::Lt => "Lt",
        TokenKind::Gt => "Gt",
        TokenKind::Le => "Le",
        TokenKind::Ge => "Ge",
        TokenKind::PlusEq => "PlusEq",
        TokenKind::MinusEq => "MinusEq",
        TokenKind::StarEq => "StarEq",
        TokenKind::SlashEq => "SlashEq",
        TokenKind::CaretEq => "CaretEq",
        TokenKind::DivEq => "DivEq",
        TokenKind::ModEq => "ModEq",
        TokenKind::LParen => "LParen",
        TokenKind::RParen => "RParen",
        TokenKind::LBracket => "LBracket",
        TokenKind::RBracket => "RBracket",
        TokenKind::Colon => "Colon",
        TokenKind::ColonColon => "ColonColon",
        TokenKind::Comma => "Comma",
        TokenKind::Semicolon => "Semicolon",
        TokenKind::Dot => "Dot",
        TokenKind::DotDot => "DotDot",
        TokenKind::DotDotLt => "DotDotLt",
        TokenKind::DotDotGt => "DotDotGt",
        TokenKind::KwDiv => "KwDiv",
        TokenKind::KwMod => "KwMod",
        TokenKind::KwIs => "KwIs",
        TokenKind::KwTrue => "KwTrue",
        TokenKind::KwFalse => "KwFalse",
        TokenKind::KwAnd => "KwAnd",
        TokenKind::KwOr => "KwOr",
        TokenKind::KwXor => "KwXor",
        TokenKind::KwNot => "KwNot",
        TokenKind::KwIf => "KwIf",
        TokenKind::KwElif => "KwElif",
        TokenKind::KwElse => "KwElse",
        TokenKind::KwWhile => "KwWhile",
        TokenKind::KwUntil => "KwUntil",
        TokenKind::KwLoop => "KwLoop",
        TokenKind::KwFor => "KwFor",
        TokenKind::KwIn => "KwIn",
        TokenKind::Underscore => "Underscore",
        TokenKind::Newline => "Newline",
        TokenKind::Indent => "Indent",
        TokenKind::Dedent => "Dedent",
        TokenKind::Eof => "Eof",
    }
}

/// The spans of a program lie in its source, on character boundaries.
pub open spec fn spans_ok(source: Seq<u8>, ast: AstView) -> bool {
    forall|i: int|
        0 <= i < ast.spans.len() ==> span_ok(source, #[trigger] ast.spans[i], source.len() as int)
}

/// Lexes and parses `src` into a structural [`Ast`] (its `types` left for [`crate::sema::analyze`]
/// to fill). The returned AST borrows `src`. Stops at and returns the first [`ParseError`].
pub fn parse<'src>(src: &'src str) -> (r: Result<Ast<'src>, ParseError>)
    requires
        src.spec_bytes().len() <= MAX_SOURCE_LEN,
    ensures
        match r {
            Ok(ast) => {
                &&& grammar::parsed(src.spec_bytes()) == Ok::<AstView, ParseErrorView>(ast@)
                &&& ast.well_formed()
                &&& ast.untyped()
                &&& spans_ok(src.spec_bytes(), ast@)
            },
            Err(error) => grammar::parsed(src.spec_bytes()) == Err::<AstView, ParseErrorView>(
                error@,
            ),
        },
{
    let ghost b = src.spec_bytes();
    let tokens: Vec<Token<'src>> = match lex(src) {
        Ok(tokens) => tokens,
        Err(error) => return Err(ParseError::Lex(error.message)),
    };
    let mut parser: Parser<'src> = Parser {
        tokens,
        pos: 0,
        ast: Ast::new(),
        pending_dedents: 0,
        depth: 0,
        source: Ghost(b),
    };
    proof {
        reveal(sound);
        encode_utf8_valid_utf8(src@);
        crate::token_stream::lexed_tokens_are_well_formed(b);
    }
    match parser.parse_program() {
        Ok(()) => {},
        Err(error) => return Err(error),
    }
    proof {
        assert(parser.toks() == token_views(tokens@));
        let toks = parser.toks();
        assert forall|i: int| 0 <= i < parser.ast@.spans.len() implies span_ok(
            b,
            #[trigger] parser.ast@.spans[i],
            b.len() as int,
        ) by {
            assert(span_ok(b, parser.ast@.spans[i], parser.taken()));
            if parser.pos > 0 {
                assert(token_ok(b, toks[parser.pos - 1]));
            }
        }
    }
    Ok(parser.ast)
}

/// The parser: the tokens, how far it has come, and the program so far.
pub struct Parser<'src> {
    pub tokens: Vec<Token<'src>>,
    pub pos: usize,
    pub ast: Ast<'src>,
    /// A wrapped one-line conditional (`… if c` then `else …` on the next line, aligned to the
    /// expression's column) opens an `Indent` the layout will later close with a `Dedent`. That
    /// `Dedent` is *not* a block terminator, so `parse_conditional` records it here and the
    /// enclosing `parse_block` swallows it instead of ending the block. See `parse_conditional`.
    /// At the top level there is no enclosing `parse_block`; the stray `Dedent` is harmlessly
    /// absorbed by `skip_separators` and this counter is reset each `parse_program` iteration.
    pub pending_dedents: usize,
    /// Current nesting depth across the two recursion hubs `parse_expr` and `parse_block`, bounded
    /// by `MAX_NESTING_DEPTH` so adversarially nested input fails fast instead of overflowing the
    /// stack.
    pub depth: usize,
    /// The source the tokens are of.
    pub source: Ghost<Seq<u8>>,
}

/// A construct read: the grammar gives this state and this value.
pub open spec fn yields<T>(outcome: Parsed<T>, after: ParseState, value: T) -> bool {
    outcome == Ok::<(ParseState, T), ParseErrorView>((after, value))
}

/// A construct refused: the grammar gives this error.
pub open spec fn fails<T>(outcome: Parsed<T>, error: ParseError) -> bool {
    outcome == Err::<(ParseState, T), ParseErrorView>(error@)
}

/// Where the token before `pos` ends.
pub open spec fn end_before(toks: Seq<TokenView>, pos: int) -> int {
    if pos <= 0 {
        0
    } else {
        toks[pos - 1].end()
    }
}

/// A span that lies within the source before `limit`, on character boundaries.
pub open spec fn span_ok(b: Seq<u8>, span: Span, limit: int) -> bool {
    &&& span.start <= span.end <= limit
    &&& is_char_boundary(b, span.start as int)
    &&& is_char_boundary(b, span.end as int)
}

/// The tokens are those of a source, the program so far is well-formed, and its spans lie in what
/// was taken.
#[verifier::opaque]
pub open spec fn sound(b: Seq<u8>, toks: Seq<TokenView>, pos: int, ast: Ast<'_>) -> bool {
    &&& valid_utf8(b)
    &&& b.len() <= MAX_SOURCE_LEN
    &&& token_list_ok(b, toks)
    &&& ast.well_formed()
    &&& ast.untyped()
    &&& forall|i: int|
        0 <= i < ast@.spans.len() ==> span_ok(b, #[trigger] ast@.spans[i], end_before(toks, pos))
}

impl<'src> Parser<'src> {
    pub open spec fn toks(self) -> Seq<TokenView> {
        token_views(self.tokens@)
    }

    pub open spec fn state(self) -> ParseState {
        ParseState {
            pos: self.pos as int,
            ast: self.ast@,
            pending: self.pending_dedents as int,
        }
    }

    /// Where the last token taken ends.
    pub open spec fn taken(self) -> int {
        end_before(self.toks(), self.pos as int)
    }

    /// The parser is sound, and the arenas hold no more than the bytes taken pay for.
    pub open spec fn well_formed(self) -> bool {
        &&& sound(self.source@, self.toks(), self.pos as int, self.ast)
        &&& self.pos < self.tokens@.len()
        &&& self.pending_dedents <= self.pos
        &&& self.depth <= MAX_NESTING_DEPTH
        &&& self.ast@.nodes.len() <= 2 * self.taken()
        &&& self.ast@.names.len() <= self.taken()
        &&& self.ast@.strings.len() <= self.taken()
        &&& self.taken() <= MAX_SOURCE_LEN
    }

    /// `self` has gone on from `before` on the same tokens: nothing was taken back, and what the
    /// arenas gained is paid for by the bytes taken.
    pub open spec fn follows(self, before: Self) -> bool {
        &&& self.well_formed()
        &&& self.tokens == before.tokens
        &&& self.source == before.source
        &&& self.depth == before.depth
        &&& self.pos >= before.pos
        &&& self.taken() >= before.taken()
        &&& self.ast@.nodes.len() >= before.ast@.nodes.len()
        &&& self.ast@.names.len() >= before.ast@.names.len()
        &&& self.ast@.strings.len() >= before.ast@.strings.len()
        &&& self.ast@.nodes.len() - before.ast@.nodes.len() <= 2 * (self.taken() - before.taken())
        &&& self.ast@.names.len() - before.ast@.names.len() <= self.taken() - before.taken()
        &&& self.ast@.strings.len() - before.ast@.strings.len() <= self.taken() - before.taken()
    }

    // -------------------------------------------------------------------------
    // Token cursor
    // -------------------------------------------------------------------------

    /// The current token — the next one to be consumed.
    pub(crate) fn peek(&self) -> (token: Token<'src>)
        requires
            self.well_formed(),
        ensures
            token@ == self.toks()[self.pos as int],
            token_ok(self.source@, token@),
    {
        let token: Token<'src> = self.tokens[self.pos];
        proof {
            reveal(sound);
            assert(token@ == self.toks()[self.pos as int]);
        }
        token
    }

    /// The kind of the next token.
    pub(crate) fn kind(&self) -> (kind: TokenKind)
        requires
            self.well_formed(),
        ensures
            kind == self.toks()[self.pos as int].kind,
            kind != TokenKind::Eof ==> self.pos + 1 < self.tokens@.len(),
    {
        let token: Token<'src> = self.tokens[self.pos];
        proof {
            reveal(sound);
            assert(token@ == self.toks()[self.pos as int]);
        }
        token.kind
    }

    /// The kind of the token `offset` positions ahead — lookahead without consuming.
    pub(crate) fn at(&self, offset: usize) -> (kind: TokenKind)
        requires
            self.well_formed(),
            self.pos + offset < self.tokens@.len(),
        ensures
            kind == self.toks()[self.pos + offset].kind,
    {
        assert(self.tokens.len() == self.tokens@.len());
        let token: Token<'src> = self.tokens[self.pos + offset];
        proof {
            assert(token@ == self.toks()[self.pos + offset]);
        }
        token.kind
    }

    /// Consumes the current token and returns it.
    pub(crate) fn advance(&mut self) -> (token: Token<'src>)
        requires
            old(self).well_formed(),
            old(self).toks()[old(self).pos as int].kind != TokenKind::Eof,
        ensures
            final(self).follows(*old(self)),
            final(self).state() == grammar::advanced(old(self).state()),
            final(self).ast == old(self).ast,
            token@ == old(self).toks()[old(self).pos as int],
            token_ok(old(self).source@, token@),
            final(self).taken() == token@.end(),
            !is_layout(token@.kind) ==> final(self).taken() > old(self).taken(),
            token@.start >= old(self).taken(),
    {
        let token: Token<'src> = self.tokens[self.pos];
        let ghost toks = self.toks();
        let ghost p = self.pos as int;
        proof {
            reveal(sound);
            assert(token@ == toks[p]);
            assert(token_ok(self.source@, toks[p]));
            assert(self.tokens.len() == self.tokens@.len());
            if p > 0 {
                assert(toks[p - 1].end() <= toks[p].start);
            }
        }
        self.pos = self.pos + 1;
        proof {
            assert(self.toks() == toks);
            assert forall|i: int| 0 <= i < self.ast@.spans.len() implies span_ok(
                self.source@,
                #[trigger] self.ast@.spans[i],
                self.taken(),
            ) by {
                assert(span_ok(old(self).source@, old(self).ast@.spans[i], old(self).taken()));
            }
        }
        token
    }

    /// Enters one level of recursion (`parse_expr`/`parse_block`), failing fast past the depth
    /// limit. The matching `self.depth -= 1` runs on the success path; an error aborts the whole
    /// parse, so a leaked count is harmless.
    pub(crate) fn enter_nesting(&mut self) -> (r: Result<(), ParseError>)
        requires
            old(self).well_formed(),
        ensures
            match r {
                Ok(()) => {
                    &&& old(self).depth < MAX_NESTING_DEPTH
                    &&& final(self).well_formed()
                    &&& *final(self) == (Parser {
                        depth: (old(self).depth + 1) as usize,
                        ..*old(self)
                    })
                },
                Err(error) => {
                    &&& old(self).depth >= MAX_NESTING_DEPTH
                    &&& grammar::too_deep::<()>() == Err::<(ParseState, ()), _>(error@)
                },
            },
    {
        proof {
            reveal(sound);
        }
        if self.depth >= MAX_NESTING_DEPTH {
            return Err(
                ParseError::TooDeeplyNested(
                    String::from_str(
                        "Nesting is implausibly deep (over 256 levels); the input looks unbounded.",
                    ),
                ),
            );
        }
        self.depth = self.depth + 1;
        Ok(())
    }

    /// Consumes the current token if it is `kind`, otherwise reports a syntax error.
    pub(crate) fn expect(&mut self, kind: TokenKind) -> (r: Result<Token<'src>, ParseError>)
        requires
            old(self).well_formed(),
            kind != TokenKind::Eof,
        ensures
            match r {
                Ok(token) => {
                    &&& grammar::expect(old(self).toks(), old(self).state(), kind) == Ok::<
                        _,
                        ParseErrorView,
                    >((final(self).state(), token@))
                    &&& final(self).follows(*old(self))
                    &&& final(self).pos == old(self).pos + 1
                    &&& token_ok(old(self).source@, token@)
                    &&& !is_layout(kind) ==> final(self).taken() > old(self).taken()
                },
                Err(error) => grammar::expect(old(self).toks(), old(self).state(), kind) == Err::<
                    (ParseState, TokenView),
                    _,
                >(error@),
            },
    {
        let found: TokenKind = self.kind();
        if found == kind {
            Ok(self.advance())
        } else {
            Err(
                ParseError::Unexpected(
                    join5("Expected ", kind_name(kind), ", found ", kind_name(found), "."),
                ),
            )
        }
    }

    /// Skips any run of layout tokens (newlines, indents, dedents).
    pub(crate) fn skip_separators(&mut self)
        requires
            old(self).well_formed(),
        ensures
            final(self).follows(*old(self)),
            final(self).state() == (ParseState {
                pos: grammar::after_separators(old(self).toks(), old(self).pos as int),
                ..old(self).state()
            }),
            !grammar::is_separator(final(self).toks()[final(self).pos as int].kind),
    {
        let ghost start = *self;
        loop
            invariant
                self.follows(start),
                self.state() == (ParseState { pos: self.pos as int, ..start.state() }),
                grammar::after_separators(start.toks(), start.pos as int)
                    == grammar::after_separators(self.toks(), self.pos as int),
            ensures
                !grammar::is_separator(self.toks()[self.pos as int].kind),
            decreases self.tokens.len() - self.pos,
        {
            let kind: TokenKind = self.kind();
            if kind == TokenKind::Newline || kind == TokenKind::Indent || kind == TokenKind::Dedent {
                self.advance();
            } else {
                break;
            }
        }
    }

    /// Adds a node written from `start` up to the last token taken.
    pub(crate) fn push(&mut self, node: Node, start: u32) -> (expr_id: ExprId)
        requires
            old(self).well_formed(),
            old(self).pos > 0,
            node_ok(node@, old(self).ast@.bounds()),
            old(self).ast@.nodes.len() < 2 * old(self).taken(),
            start <= old(self).taken(),
            is_char_boundary(old(self).source@, start as int),
        ensures
            final(self).well_formed(),
            (final(self).state(), expr_id) == grammar::push(
                old(self).toks(),
                old(self).state(),
                node@,
                start,
            ),
            final(self).tokens == old(self).tokens,
            final(self).source == old(self).source,
            final(self).depth == old(self).depth,
            expr_id.0 == old(self).ast@.nodes.len(),
    {
        let ghost before = *self;
        let last: Token<'src> = self.tokens[self.pos - 1];
        proof {
            reveal(sound);
            assert(last@ == self.toks()[self.pos - 1]);
            assert(token_ok(self.source@, last@));
        }
        let span: Span = Span::new(start, last.span().end);
        let expr_id: ExprId = self.ast.push(node, span);
        proof {
            assert forall|i: int| 0 <= i < self.ast@.spans.len() implies span_ok(
                self.source@,
                #[trigger] self.ast@.spans[i],
                self.taken(),
            ) by {
                if i < before.ast@.spans.len() {
                    assert(span_ok(before.source@, before.ast@.spans[i], before.taken()));
                }
            }
        }
        expr_id
    }

    /// Interns a name whose bytes have been taken.
    pub(crate) fn intern(&mut self, name: &'src str) -> (sym_id: SymId)
        requires
            old(self).well_formed(),
            old(self).ast@.names.len() < old(self).taken(),
        ensures
            final(self).well_formed(),
            (final(self).state(), sym_id) == grammar::intern(old(self).state(), name@),
            final(self).tokens == old(self).tokens,
            final(self).source == old(self).source,
            final(self).depth == old(self).depth,
            final(self).pos == old(self).pos,
            final(self).ast@.nodes == old(self).ast@.nodes,
            final(self).ast@.spans == old(self).ast@.spans,
            final(self).ast@.strings == old(self).ast@.strings,
            old(self).ast@.names.len() <= final(self).ast@.names.len() <= old(self).ast@.names.len() + 1,
            symbol_ok(sym_id, final(self).ast@.bounds()),
    {
        proof {
            reveal(sound);
        }
        let sym_id: SymId = self.ast.intern(name);
        assert(self.state().ast == AstView { names: self.ast@.names, ..old(self).ast@ });
        sym_id
    }

    /// Stores the content of a string literal whose bytes have been taken.
    pub(crate) fn push_string(&mut self, content: &str) -> (str_id: StrId)
        requires
            old(self).well_formed(),
            old(self).ast@.strings.len() < old(self).taken(),
        ensures
            final(self).well_formed(),
            (final(self).state(), str_id) == grammar::push_string(old(self).state(), content@),
            final(self).tokens == old(self).tokens,
            final(self).source == old(self).source,
            final(self).depth == old(self).depth,
            final(self).pos == old(self).pos,
            str_id.0 < final(self).ast@.strings.len(),
    {
        proof {
            reveal(sound);
        }
        self.ast.push_string_literal(String::from_str(content))
    }

    /// Where an expression begins.
    pub(crate) fn start_of(&self, expr_id: ExprId) -> (start: u32)
        requires
            self.well_formed(),
            expr_id.0 < self.ast@.nodes.len(),
        ensures
            start == grammar::start_of(self.state(), expr_id),
            start <= self.taken(),
            is_char_boundary(self.source@, start as int),
    {
        proof {
            reveal(sound);
            assert(span_ok(self.source@, self.ast@.spans[expr_id.0 as int], self.taken()));
        }
        self.ast.spans[expr_id.value()].start
    }

    /// Appends an item to the program.
    pub(crate) fn push_top_level(&mut self, item: TopLevel)
        requires
            old(self).well_formed(),
            top_level_ok(item@, old(self).ast@.bounds()),
        ensures
            final(self).well_formed(),
            final(self).tokens == old(self).tokens,
            final(self).source == old(self).source,
            final(self).pos == old(self).pos,
            final(self).state() == (ParseState {
                ast: AstView {
                    top_level: old(self).ast@.top_level.push(item@),
                    ..old(self).ast@
                },
                ..old(self).state()
            }),
    {
        proof {
            reveal(sound);
        }
        self.ast.push_top_level(item);
    }
}

} // verus!
