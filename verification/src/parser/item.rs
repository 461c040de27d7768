//! Parsing statements, functions and programs.

use crate::lexer::{Span, Token, TokenKind};
use crate::parser::ast::{
    block_ok, expr_ok, exprs_ok, func_ok, lemma_block_ok_grows, lemma_stmt_ok_grows, nested,
    node_ok, places_ok, read_of, stmt_ok, stmt_views, symbol_of, symbol_ok, top_level_ok, within,
    AstView, BinOp, Block, Bounds, ExprId, FuncDef, Node, NodeView, Param, PinpType, Place, Stmt,
    StmtView, SymId, TopLevel,
};
use crate::parser::expr::{result_block, rows_ok};
use crate::parser::grammar;
use crate::parser::grammar::ParseErrorView;
use crate::parser::{fails, kind_name, sound, span_ok, yields, ParseError, Parser};
use crate::symbols::{set_insert, symbol_set, SymbolSet};
use crate::text::{decimal, decimal_text, join3, join5, join7, same};
use vstd::prelude::*;
use vstd::string::*;
use vstd::utf8::*;

verus! {

/// The binary operator behind a compound-assignment token (`+=` -> `Add`, …). Plain `=` is not a
/// compound op and is handled directly. Compound assignment is single-target, single-value.
fn compound_assign_op(kind: TokenKind) -> (r: Option<BinOp>)
    ensures
        r == grammar::compound_assign_op(kind),
{
    match kind {
        TokenKind::PlusEq => Some(BinOp::Add),
        TokenKind::MinusEq => Some(BinOp::Sub),
        TokenKind::StarEq => Some(BinOp::Mul),
        TokenKind::SlashEq => Some(BinOp::Div),
        TokenKind::CaretEq => Some(BinOp::Pow),
        TokenKind::DivEq => Some(BinOp::IntDiv),
        TokenKind::ModEq => Some(BinOp::Mod),
        _ => None,
    }
}

spec fn params_ok(params: Seq<Param>, at: Bounds) -> bool {
    forall|i: int| 0 <= i < params.len() ==> symbol_ok((#[trigger] params[i]).name, at)
}

spec fn binders_ok(binders: Seq<SymId>, at: Bounds) -> bool {
    forall|i: int| 0 <= i < binders.len() ==> symbol_ok(#[trigger] binders[i], at)
}

spec fn stmts_ok(stmts: Seq<StmtView>, at: Bounds) -> bool {
    forall|i: int| 0 <= i < stmts.len() ==> stmt_ok(#[trigger] stmts[i], at)
}

proof fn lemma_stmts_grow(stmts: Seq<StmtView>, small: Bounds, large: Bounds)
    requires
        stmts_ok(stmts, small),
        within(small, large),
    ensures
        stmts_ok(stmts, large),
{
    assert forall|i: int| 0 <= i < stmts.len() implies stmt_ok(#[trigger] stmts[i], large) by {
        lemma_stmt_ok_grows(stmts[i], small, large);
    }
}

/// The first parameter whose name an earlier one has, or the number of parameters.
fn first_repeat(params: &Vec<Param>) -> (r: usize)
    ensures
        r == grammar::first_repeat(params@, 0),
        r <= params@.len(),
        r == params@.len() ==> forall|i: int, j: int|
            0 <= i < j < params@.len() ==> (#[trigger] params@[i]).name != (
            #[trigger] params@[j]).name,
{
    let mut seen: SymbolSet = symbol_set();
    let mut index: usize = 0;
    while index < params.len()
        invariant
            index <= params@.len(),
            forall|sym: u32| #[trigger]
                seen@.contains(sym) <==> exists|i: int|
                    0 <= i < index && (#[trigger] params@[i]).name.0 == sym,
            forall|i: int, j: int|
                0 <= i < j < index ==> (#[trigger] params@[i]).name != (#[trigger] params@[j]).name,
            grammar::first_repeat(params@, 0) == grammar::first_repeat(params@, index as int),
        decreases params@.len() - index,
    {
        let ghost before = seen@;
        let sym: u32 = params[index].name.0;
        if !set_insert(&mut seen, sym) {
            proof {
                let i = choose|i: int| 0 <= i < index && (#[trigger] params@[i]).name.0 == sym;
                assert(params@[i].name == params@[index as int].name);
            }
            return index;
        }
        proof {
            assert forall|i: int| 0 <= i < index implies (#[trigger] params@[i]).name
                != params@[index as int].name by {
                if params@[i].name == params@[index as int].name {
                    assert(before.contains(sym));
                }
            }
            assert forall|other: u32| #[trigger] seen@.contains(other) <==> exists|i: int|
                0 <= i < index + 1 && (#[trigger] params@[i]).name.0 == other by {
                if seen@.contains(other) {
                    if other == sym {
                        assert(params@[index as int].name.0 == other);
                    } else {
                        assert(before.contains(other));
                    }
                }
                if exists|i: int| 0 <= i < index + 1 && (#[trigger] params@[i]).name.0 == other {
                    let i = choose|i: int|
                        0 <= i < index + 1 && (#[trigger] params@[i]).name.0 == other;
                    if i < index {
                        assert(before.contains(other));
                    }
                }
            }
        }
        index = index + 1;
    }
    index
}

/// A trailing expression statement is the block's result value, not one of its statements.
fn with_result(stmts: Vec<Stmt>) -> (block: Block)
    ensures
        block@ == grammar::with_result(stmt_views(stmts@)),
        forall|at: Bounds|
            stmts_ok(stmt_views(stmts@), at) ==> #[trigger] block_ok(block@, at),
{
    let ghost all = stmt_views(stmts@);
    let mut rest: Vec<Stmt> = stmts;
    let result: Option<ExprId> = if rest.len() > 0 {
        match &rest[rest.len() - 1] {
            Stmt::Expr(expr_id) => Some(*expr_id),
            _ => None,
        }
    } else {
        None
    };
    if result.is_some() {
        rest.pop();
    }
    let block: Block = Block { stmts: rest, result };
    proof {
        if all.len() > 0 {
            assert(all.last() == stmts@[stmts@.len() - 1]@);
        }
        assert(block@.stmts =~= grammar::with_result(all).stmts);
        assert forall|at: Bounds| stmts_ok(all, at) implies #[trigger] block_ok(block@, at) by {
            if all.len() > 0 {
                assert(stmt_ok(all[all.len() - 1], at));
            }
            assert forall|i: int| 0 <= i < block@.stmts.len() implies stmt_ok(
                #[trigger] block@.stmts[i],
                at,
            ) by {
                assert(block@.stmts[i] == all[i]);
                assert(stmt_ok(all[i], at));
            }
        }
    }
    block
}

impl<'src> Parser<'src> {
    /// A type annotation: `bool` / `int` / `float` / `void` / `str`.
    pub(crate) fn parse_type(&mut self) -> (r: Result<PinpType, ParseError>)
        requires
            old(self).well_formed(),
        ensures
            match r {
                Ok(t) => {
                    &&& yields(
                        grammar::type_annotation(
                            old(self).toks(),
                            old(self).state(),
                        ),
                        final(self).state(),
                        t,
                    )
                    &&& final(self).follows(*old(self))
                    &&& final(self).pos > old(self).pos
                },
                Err(error) => fails(
                    grammar::type_annotation(
                        old(self).toks(),
                        old(self).state(),
                    ),
                    error,
                ),
            },
    {
        proof {
            reveal(grammar::type_annotation);
        }
        let token: Token<'src> = match self.expect(TokenKind::Identifier) {
            Ok(token) => token,
            Err(error) => return Err(error),
        };
        if same(token.text, "bool") {
            Ok(PinpType::Bool)
        } else if same(token.text, "int") {
            Ok(PinpType::Int)
        } else if same(token.text, "float") {
            Ok(PinpType::Float)
        } else if same(token.text, "void") {
            Ok(PinpType::Void)
        } else if same(token.text, "str") {
            Ok(PinpType::Str)
        } else {
            Err(ParseError::Unexpected(join3("Unknown type `", token.text, "`.")))
        }
    }

    /// A function body: an indented block, or the single-line form `is <expr>` (which must declare
    /// a return type).
    fn parse_func_body(&mut self, has_return_type: bool) -> (r: Result<Block, ParseError>)
        requires
            old(self).well_formed(),
            old(self).depth == 0,
        ensures
            match r {
                Ok(body) => {
                    &&& yields(
                        grammar::func_body(
                            old(self).toks(),
                            old(self).state(),
                            has_return_type,
                        ),
                        final(self).state(),
                        body@,
                    )
                    &&& final(self).follows(*old(self))
                    &&& final(self).pos > old(self).pos
                    &&& body.result is Some
                    &&& block_ok(body@, final(self).ast@.bounds())
                },
                Err(error) => fails(
                    grammar::func_body(
                        old(self).toks(),
                        old(self).state(),
                        has_return_type,
                    ),
                    error,
                ),
            },
    {
        proof {
            reveal(grammar::func_body);
        }
        if self.kind() == TokenKind::Newline {
            // Block form: a run of statements ending in a result expression.
            let block: Block = match self.parse_block() {
                Ok(block) => block,
                Err(error) => return Err(error),
            };
            if block.result.is_none() {
                return Err(
                    ParseError::Unexpected(
                        String::from_str("Function body must end with an expression."),
                    ),
                );
            }
            return Ok(block);
        }
        // Single-line form: `is` then an expression — which must declare a return type.
        if !has_return_type {
            return Err(
                ParseError::Unexpected(
                    String::from_str("Single-line function must declare a return type."),
                ),
            );
        }
        let result: ExprId = match self.parse_expr(0) {
            Ok(result) => result,
            Err(error) => return Err(error),
        };
        match self.kind() {
            TokenKind::Newline | TokenKind::Eof => {},
            other => {
                return Err(
                    ParseError::Unexpected(join3("Unexpected token ", kind_name(other), ".")),
                );
            },
        }
        Ok(result_block(result))
    }

    /// The parenthesised parameter list `<name>: <type>, …`, enforcing the column-alignment rules.
    fn parse_params(&mut self, function: Token<'src>) -> (r: Result<Vec<Param>, ParseError>)
        requires
            old(self).well_formed(),
        ensures
            match r {
                Ok(params) => {
                    &&& yields(
                        grammar::params(
                            old(self).toks(),
                            old(self).state(),
                            function@,
                        ),
                        final(self).state(),
                        params@,
                    )
                    &&& final(self).follows(*old(self))
                    &&& params_ok(params@, final(self).ast@.bounds())
                },
                Err(error) => fails(
                    grammar::params(
                        old(self).toks(),
                        old(self).state(),
                        function@,
                    ),
                    error,
                ),
            },
    {
        proof {
            reveal(grammar::params);
        }
        let mut params: Vec<Param> = Vec::new();
        if self.kind() == TokenKind::RParen {
            return Ok(params);
        }
        // The first parameter fixes the column that continuation lines must align to.
        let first: Token<'src> = self.peek();
        // A first parameter hung onto a later line — the opening line left bare — must be indented
        // past the function's own line, mirroring how a block body indents under its header.
        if first.line != function.line && first.col <= function.col {
            return Err(
                ParseError::Layout(
                    join7(
                        "Parameter at line ",
                        decimal(first.line as u64).as_str(),
                        " col ",
                        decimal(first.col as u64).as_str(),
                        " must be indented past the function at column ",
                        decimal(function.col as u64).as_str(),
                        ".",
                    ),
                ),
            );
        }
        loop
            invariant
                self.follows(*old(self)),
                self.toks() == old(self).toks(),
                params_ok(params@, self.ast@.bounds()),
                grammar::params(old(self).toks(), old(self).state(), function@)
                    == grammar::param_list(self.toks(), self.state(), first@, params@),
            decreases self.tokens.len() - self.pos,
        {
            let token: Token<'src> = self.peek();
            if token.line != first.line && token.col != first.col {
                return Err(
                    ParseError::Layout(
                        join7(
                            "Parameter at line ",
                            decimal(token.line as u64).as_str(),
                            " col ",
                            decimal(token.col as u64).as_str(),
                            " must align to the first parameter's column ",
                            decimal(first.col as u64).as_str(),
                            ".",
                        ),
                    ),
                );
            }
            let name_token: Token<'src> = match self.expect(TokenKind::Identifier) {
                Ok(name_token) => name_token,
                Err(error) => return Err(error),
            };
            let name: SymId = self.intern(name_token.text);
            match self.expect(TokenKind::Colon) {
                Ok(_) => {},
                Err(error) => return Err(error),
            }
            let param_type: PinpType = match self.parse_type() {
                Ok(param_type) => param_type,
                Err(error) => return Err(error),
            };
            params.push(Param { name, param_type });
            if self.kind() == TokenKind::Comma {
                self.advance();
            } else {
                return Ok(params);
            }
        }
    }

    /// `<name>(<params>) [: <type>] is <body>` — a function definition.
    fn parse_func_def(&mut self) -> (r: Result<FuncDef, ParseError>)
        requires
            old(self).well_formed(),
            old(self).depth == 0,
            old(self).toks()[old(self).pos as int].kind == TokenKind::Identifier,
        ensures
            match r {
                Ok(func) => {
                    &&& yields(
                        grammar::func_def(
                            old(self).toks(),
                            old(self).state(),
                        ),
                        final(self).state(),
                        func@,
                    )
                    &&& final(self).follows(*old(self))
                    &&& final(self).pos > old(self).pos
                    &&& func_ok(func@, final(self).ast@.bounds())
                },
                Err(error) => fails(
                    grammar::func_def(
                        old(self).toks(),
                        old(self).state(),
                    ),
                    error,
                ),
            },
    {
        proof {
            reveal(grammar::func_def);
        }
        let name_token: Token<'src> = self.advance();  // Identifier
        let name: SymId = self.intern(name_token.text);
        match self.expect(TokenKind::LParen) {
            Ok(_) => {},
            Err(error) => return Err(error),
        }
        let params: Vec<Param> = match self.parse_params(name_token) {
            Ok(params) => params,
            Err(error) => return Err(error),
        };
        match self.expect(TokenKind::RParen) {
            Ok(_) => {},
            Err(error) => return Err(error),
        }
        let has_return_type: bool = self.kind() == TokenKind::Colon;
        let return_type: PinpType = if has_return_type {
            self.advance();  // ':'
            match self.parse_type() {
                Ok(return_type) => return_type,
                Err(error) => return Err(error),
            }
        } else {
            PinpType::Void
        };
        match self.expect(TokenKind::KwIs) {
            Ok(_) => {},
            Err(error) => return Err(error),
        }
        // Reject duplicate parameter names — a structural check (no types needed).
        let repeated: usize = first_repeat(&params);
        if repeated < params.len() {
            let sym_id: SymId = params[repeated].name;
            return Err(
                ParseError::Unexpected(
                    join3("Duplicate parameter `", self.name_of(sym_id), "`."),
                ),
            );
        }
        let body: Block = match self.parse_func_body(has_return_type) {
            Ok(body) => body,
            Err(error) => return Err(error),
        };
        Ok(FuncDef { name, params, return_type, body })
    }

    /// Parses an indented block — `Newline Indent <stmts> Dedent` — shared by function bodies and
    /// every control-flow body (`if`/`while`/`loop`). A trailing expression statement becomes the
    /// block's `result` (its value when the block is used as one); a block ending in any other
    /// statement has `result: None`.
    pub(crate) fn parse_block(&mut self) -> (r: Result<Block, ParseError>)
        requires
            old(self).well_formed(),
        ensures
            match r {
                Ok(block) => {
                    &&& yields(
                        grammar::block(
                            old(self).toks(),
                            old(self).depth as nat,
                            old(self).state(),
                        ),
                        final(self).state(),
                        block@,
                    )
                    &&& final(self).follows(*old(self))
                    &&& final(self).pos > old(self).pos
                    &&& block_ok(block@, final(self).ast@.bounds())
                },
                Err(error) => fails(
                    grammar::block(
                        old(self).toks(),
                        old(self).depth as nat,
                        old(self).state(),
                    ),
                    error,
                ),
            },
        decreases 257 - old(self).depth, 0int, 0int,
    {
        proof {
            grammar::unfold_block(self.toks(), self.depth as nat, self.state());
        }
        match self.enter_nesting() {
            Ok(_) => {},
            Err(error) => return Err(error),
        }
        match self.expect(TokenKind::Newline) {
            Ok(_) => {},
            Err(error) => return Err(error),
        }
        match self.expect(TokenKind::Indent) {
            Ok(_) => {},
            Err(error) => return Err(error),
        }
        let stmts: Vec<Stmt> = match self.parse_block_stmts() {
            Ok(stmts) => stmts,
            Err(error) => return Err(error),
        };
        self.depth = self.depth - 1;
        Ok(with_result(stmts))
    }

    /// The statements of a block, up to its end.
    fn parse_block_stmts(&mut self) -> (r: Result<Vec<Stmt>, ParseError>)
        requires
            old(self).well_formed(),
        ensures
            match r {
                Ok(stmts) => {
                    &&& yields(
                        grammar::block_stmts(
                            old(self).toks(),
                            old(self).depth as nat,
                            old(self).state(),
                            Seq::empty(),
                        ),
                        final(self).state(),
                        stmt_views(stmts@),
                    )
                    &&& final(self).follows(*old(self))
                    &&& final(self).pos > old(self).pos
                    &&& stmts_ok(stmt_views(stmts@), final(self).ast@.bounds())
                },
                Err(error) => fails(
                    grammar::block_stmts(
                        old(self).toks(),
                        old(self).depth as nat,
                        old(self).state(),
                        Seq::empty(),
                    ),
                    error,
                ),
            },
        decreases 257 - old(self).depth, 9int, 0int,
    {
        let ghost toks = self.toks();
        let ghost d = self.depth as nat;
        let mut stmts: Vec<Stmt> = Vec::new();
        assert(stmt_views(stmts@) =~= Seq::empty());
        loop
            invariant
                self.follows(*old(self)),
                toks == old(self).toks(),
                d == old(self).depth,
                stmts_ok(stmt_views(stmts@), self.ast@.bounds()),
                grammar::block_stmts(toks, d, old(self).state(), Seq::empty())
                    == grammar::block_stmts(toks, d, self.state(), stmt_views(stmts@)),
            decreases self.tokens.len() - self.pos,
        {
            let ghost before = stmt_views(stmts@);
            let ghost bounds_before = self.ast@.bounds();
            proof {
                grammar::unfold_block_stmts(toks, d, self.state(), before);
            }
            let stmt: Stmt = match self.parse_stmt() {
                Ok(stmt) => stmt,
                Err(error) => return Err(error),
            };
            stmts.push(stmt);
            proof {
                assert(stmt_views(stmts@) =~= before.push(stmt@));
                lemma_stmts_grow(before, bounds_before, self.ast@.bounds());
            }
            self.swallow_pending_dedents();
            match self.reached_block_end() {
                Ok(ended) => {
                    if ended {
                        return Ok(stmts);
                    }
                },
                Err(error) => return Err(error),
            }
        }
    }

    /// A wrapped one-line conditional inside the statement just parsed opened indents whose closing
    /// dedents sit just past the statement's newline; swallows them so they are not taken for the
    /// block's terminator.
    fn swallow_pending_dedents(&mut self)
        requires
            old(self).well_formed(),
        ensures
            final(self).follows(*old(self)),
            final(self).ast == old(self).ast,
            final(self).state() == grammar::swallow_dedents(old(self).toks(), old(self).state()),
    {
        if self.pending_dedents == 0 {
            return;
        }
        if self.kind() == TokenKind::Newline {
            self.advance();
        }
        let ghost start = *self;
        loop
            invariant
                self.follows(*old(self)),
                self.ast == old(self).ast,
                self.toks() == start.toks(),
                grammar::drop_dedents(start.toks(), start.state()) == grammar::drop_dedents(
                    self.toks(),
                    self.state(),
                ),
            ensures
                self.state() == grammar::drop_dedents(start.toks(), start.state()),
            decreases self.tokens.len() - self.pos,
        {
            if self.pending_dedents > 0 && self.kind() == TokenKind::Dedent {
                self.advance();
                self.pending_dedents = self.pending_dedents - 1;
            } else {
                break;
            }
        }
    }

    /// Whether the last token taken is a layout token, so that the next statement may follow with
    /// no separator of its own.
    fn ended_at_layout(&self) -> (r: bool)
        requires
            self.well_formed(),
            self.pos > 0,
        ensures
            r == grammar::ended_at_layout(self.toks(), self.pos as int),
    {
        let token: Token<'src> = self.tokens[self.pos - 1];
        assert(token@ == self.toks()[self.pos - 1]);
        token.kind == TokenKind::Newline || token.kind == TokenKind::Dedent || token.kind
            == TokenKind::Indent
    }

    /// Consumes the separator between two statements and reports whether the block has ended. A
    /// multiline construct (or a swallowed continuation) leaves the parser already on a layout
    /// token, so the next statement may follow with no separator of its own.
    fn reached_block_end(&mut self) -> (r: Result<bool, ParseError>)
        requires
            old(self).well_formed(),
            old(self).pos > 0,
        ensures
            match r {
                Ok(ended) => {
                    &&& yields(
                        grammar::block_end(old(self).toks(), old(self).state()),
                        final(self).state(),
                        ended,
                    )
                    &&& final(self).follows(*old(self))
                    &&& final(self).ast == old(self).ast
                },
                Err(error) => fails(
                    grammar::block_end(old(self).toks(), old(self).state()),
                    error,
                ),
            },
    {
        proof {
            reveal(grammar::block_end);
        }
        let kind: TokenKind = self.kind();
        if kind == TokenKind::Dedent {
            self.advance();
            return Ok(true);
        }
        if kind == TokenKind::Eof {
            return Ok(true);
        }
        if kind == TokenKind::Newline {
            self.advance();
        } else if !self.ended_at_layout() {
            return Err(
                ParseError::Unexpected(join3("Unexpected token ", kind_name(kind), ".")),
            );
        }
        let next: TokenKind = self.kind();
        if next == TokenKind::Dedent {
            self.advance();
            return Ok(true);
        }
        Ok(next == TokenKind::Eof)
    }

    /// `while <cond> <block>` — a pre-tested loop.
    fn parse_while(&mut self) -> (r: Result<Stmt, ParseError>)
        requires
            old(self).well_formed(),
            old(self).toks()[old(self).pos as int].kind == TokenKind::KwWhile,
        ensures
            match r {
                Ok(stmt) => {
                    &&& yields(
                        grammar::stmt(
                            old(self).toks(),
                            old(self).depth as nat,
                            old(self).state(),
                        ),
                        final(self).state(),
                        stmt@,
                    )
                    &&& final(self).follows(*old(self))
                    &&& final(self).pos > old(self).pos
                    &&& stmt_ok(stmt@, final(self).ast@.bounds())
                },
                Err(error) => fails(
                    grammar::stmt(
                        old(self).toks(),
                        old(self).depth as nat,
                        old(self).state(),
                    ),
                    error,
                ),
            },
        decreases 257 - old(self).depth, 7int, 0int,
    {
        proof {
            grammar::unfold_stmt(self.toks(), self.depth as nat, self.state());
        }
        self.advance();  // 'while'
        let cond: ExprId = match self.parse_expr(0) {
            Ok(cond) => cond,
            Err(error) => return Err(error),
        };
        let body: Block = match self.parse_block() {
            Ok(body) => body,
            Err(error) => return Err(error),
        };
        Ok(Stmt::While { cond, body })
    }

    /// `loop <block> (while | until) <cond>` — a post-tested loop (`until` flips the sense).
    fn parse_loop(&mut self) -> (r: Result<Stmt, ParseError>)
        requires
            old(self).well_formed(),
            old(self).toks()[old(self).pos as int].kind == TokenKind::KwLoop,
        ensures
            match r {
                Ok(stmt) => {
                    &&& yields(
                        grammar::loop_stmt(
                            old(self).toks(),
                            old(self).depth as nat,
                            old(self).state(),
                        ),
                        final(self).state(),
                        stmt@,
                    )
                    &&& final(self).follows(*old(self))
                    &&& final(self).pos > old(self).pos
                    &&& stmt_ok(stmt@, final(self).ast@.bounds())
                },
                Err(error) => fails(
                    grammar::loop_stmt(
                        old(self).toks(),
                        old(self).depth as nat,
                        old(self).state(),
                    ),
                    error,
                ),
            },
        decreases 257 - old(self).depth, 7int, 0int,
    {
        proof {
            grammar::unfold_loop_stmt(self.toks(), self.depth as nat, self.state());
        }
        self.advance();  // 'loop'
        let body: Block = match self.parse_block() {
            Ok(body) => body,
            Err(error) => return Err(error),
        };
        let ghost at_cond = self.ast@.bounds();
        let until: bool = match self.kind() {
            TokenKind::KwWhile => false,
            TokenKind::KwUntil => true,
            other => {
                return Err(
                    ParseError::Unexpected(
                        join3(
                            "Expected `while` or `until` after a loop body, found ",
                            kind_name(other),
                            ".",
                        ),
                    ),
                );
            },
        };
        self.advance();  // 'while' / 'until'
        let cond: ExprId = match self.parse_expr(0) {
            Ok(cond) => cond,
            Err(error) => return Err(error),
        };
        proof {
            lemma_block_ok_grows(body@, at_cond, self.ast@.bounds());
        }
        Ok(Stmt::Loop { body, cond, until })
    }

    /// `for <binder>[, <binder>…] in <source> <block>`. One binder makes a [`Stmt::For`], two or
    /// three a [`Stmt::ForArray`], more an error.
    fn parse_for(&mut self) -> (r: Result<Stmt, ParseError>)
        requires
            old(self).well_formed(),
            old(self).toks()[old(self).pos as int].kind == TokenKind::KwFor,
        ensures
            match r {
                Ok(stmt) => {
                    &&& yields(
                        grammar::for_stmt(
                            old(self).toks(),
                            old(self).depth as nat,
                            old(self).state(),
                        ),
                        final(self).state(),
                        stmt@,
                    )
                    &&& final(self).follows(*old(self))
                    &&& final(self).pos > old(self).pos
                    &&& stmt_ok(stmt@, final(self).ast@.bounds())
                },
                Err(error) => fails(
                    grammar::for_stmt(
                        old(self).toks(),
                        old(self).depth as nat,
                        old(self).state(),
                    ),
                    error,
                ),
            },
        decreases 257 - old(self).depth, 7int, 0int,
    {
        proof {
            grammar::unfold_for_stmt(self.toks(), self.depth as nat, self.state());
        }
        self.advance();  // 'for'
        let first: SymId = match self.expect_binder() {
            Ok(first) => first,
            Err(error) => return Err(error),
        };
        let binders: Vec<SymId> = match self.parse_more_binders(first) {
            Ok(binders) => binders,
            Err(error) => return Err(error),
        };
        if binders.len() > 3 {
            return Err(ParseError::Unexpected(String::from_str("Too many binders in for loop.")));
        }
        match self.expect(TokenKind::KwIn) {
            Ok(_) => {},
            Err(error) => return Err(error),
        }
        let source: ExprId = match self.parse_expr(0) {
            Ok(source) => source,
            Err(error) => return Err(error),
        };
        let body: Block = match self.parse_block() {
            Ok(body) => body,
            Err(error) => return Err(error),
        };
        if binders.len() == 1 {
            Ok(Stmt::For { var: first, source, body })
        } else {
            Ok(Stmt::ForArray { binders, source, body })
        }
    }

    /// The binders that follow the first, each after a comma.
    fn parse_more_binders(&mut self, first: SymId) -> (r: Result<Vec<SymId>, ParseError>)
        requires
            old(self).well_formed(),
            symbol_ok(first, old(self).ast@.bounds()),
        ensures
            match r {
                Ok(binders) => {
                    &&& yields(
                        grammar::more_binders(
                            old(self).toks(),
                            old(self).state(),
                            seq![first],
                        ),
                        final(self).state(),
                        binders@,
                    )
                    &&& final(self).follows(*old(self))
                    &&& binders@.len() > 0
                    &&& binders@[0] == first
                    &&& binders_ok(binders@, final(self).ast@.bounds())
                },
                Err(error) => fails(
                    grammar::more_binders(
                        old(self).toks(),
                        old(self).state(),
                        seq![first],
                    ),
                    error,
                ),
            },
    {
        let mut binders: Vec<SymId> = Vec::new();
        binders.push(first);
        assert(binders@ =~= seq![first]);
        while self.kind() == TokenKind::Comma
            invariant
                self.follows(*old(self)),
                self.toks() == old(self).toks(),
                binders@.len() > 0,
                binders@[0] == first,
                binders_ok(binders@, self.ast@.bounds()),
                grammar::more_binders(old(self).toks(), old(self).state(), seq![first])
                    == grammar::more_binders(self.toks(), self.state(), binders@),
            decreases self.tokens.len() - self.pos,
        {
            self.advance();  // ','
            match self.expect_binder() {
                Ok(binder) => {
                    binders.push(binder);
                },
                Err(error) => return Err(error),
            }
        }
        Ok(binders)
    }

    /// Consumes the next token as a for-loop binder name: either a plain `Identifier` or the
    /// don't-care `_` (`Underscore`). Returns the interned `SymId`; errors on anything else.
    fn expect_binder(&mut self) -> (r: Result<SymId, ParseError>)
        requires
            old(self).well_formed(),
            old(self).ast@.names.len() < old(self).taken(),
        ensures
            match r {
                Ok(binder) => {
                    &&& yields(
                        grammar::binder(
                            old(self).toks(),
                            old(self).state(),
                        ),
                        final(self).state(),
                        binder,
                    )
                    &&& final(self).follows(*old(self))
                    &&& final(self).pos > old(self).pos
                    &&& symbol_ok(binder, final(self).ast@.bounds())
                },
                Err(error) => fails(
                    grammar::binder(
                        old(self).toks(),
                        old(self).state(),
                    ),
                    error,
                ),
            },
    {
        let token: Token<'src> = self.peek();
        match token.kind {
            TokenKind::Identifier | TokenKind::Underscore => {
                let binder: SymId = self.intern(token.text);
                self.advance();
                Ok(binder)
            },
            _ => Err(
                ParseError::Unexpected(
                    join3("Expected a binder name or `_`, found `", token.text, "`."),
                ),
            ),
        }
    }

    /// One statement: a control-flow construct (`while`/`loop`/`for`), an expression statement, or
    /// a (parallel/chained/compound) assignment.
    fn parse_stmt(&mut self) -> (r: Result<Stmt, ParseError>)
        requires
            old(self).well_formed(),
        ensures
            match r {
                Ok(stmt) => {
                    &&& yields(
                        grammar::stmt(
                            old(self).toks(),
                            old(self).depth as nat,
                            old(self).state(),
                        ),
                        final(self).state(),
                        stmt@,
                    )
                    &&& final(self).follows(*old(self))
                    &&& final(self).pos > old(self).pos
                    &&& stmt_ok(stmt@, final(self).ast@.bounds())
                },
                Err(error) => fails(
                    grammar::stmt(
                        old(self).toks(),
                        old(self).depth as nat,
                        old(self).state(),
                    ),
                    error,
                ),
            },
        decreases 257 - old(self).depth, 8int, 0int,
    {
        proof {
            grammar::unfold_stmt(self.toks(), self.depth as nat, self.state());
        }
        match self.kind() {
            TokenKind::KwWhile => return self.parse_while(),
            TokenKind::KwLoop => return self.parse_loop(),
            TokenKind::KwFor => return self.parse_for(),
            _ => {},
        }
        // Otherwise one or more comma-separated lists joined by `=`. A single list with no
        // following `=` is an expression statement; a `place <op>= e` is compound assignment;
        // everything else is a plain (parallel/chained) assignment.
        let first: Vec<ExprId> = match self.parse_expr_list() {
            Ok(first) => first,
            Err(error) => return Err(error),
        };
        self.parse_after_list(first)
    }

    /// What follows the first list of a statement.
    fn parse_after_list(&mut self, first: Vec<ExprId>) -> (r: Result<Stmt, ParseError>)
        requires
            old(self).well_formed(),
            first@.len() > 0,
            exprs_ok(first@, old(self).ast@.bounds()),
            old(self).pos > 0,
        ensures
            match r {
                Ok(stmt) => {
                    &&& yields(
                        grammar::after_list(
                            old(self).toks(),
                            old(self).depth as nat,
                            old(self).state(),
                            first@,
                        ),
                        final(self).state(),
                        stmt@,
                    )
                    &&& final(self).follows(*old(self))
                    &&& stmt_ok(stmt@, final(self).ast@.bounds())
                },
                Err(error) => fails(
                    grammar::after_list(
                        old(self).toks(),
                        old(self).depth as nat,
                        old(self).state(),
                        first@,
                    ),
                    error,
                ),
            },
        decreases 257 - old(self).depth, 7int, 0int,
    {
        proof {
            grammar::unfold_after_list(self.toks(), self.depth as nat, self.state(), first@);
        }
        let kind: TokenKind = self.kind();
        // Compound assignment is single-target, single-value: `place <op>= e`.
        if first.len() == 1 {
            if let Some(op) = compound_assign_op(kind) {
                if self.is_indexing(first[0]) {
                    return self.parse_indexed_assign(first[0], Some(op));
                }
                let place: Place = match self.expr_as_place(first[0]) {
                    Ok(place) => place,
                    Err(error) => return Err(error),
                };
                self.advance();  // the compound operator
                let rhs: ExprId = match self.parse_expr(0) {
                    Ok(rhs) => rhs,
                    Err(error) => return Err(error),
                };
                return Ok(self.finish_compound(first[0], place, op, rhs));
            }
            // `arr[idx] = value` or `mat[row, col] = value` — an indexed assignment.
            if kind == TokenKind::Equal && self.is_indexing(first[0]) {
                return self.parse_indexed_assign(first[0], None);
            }
        }
        if kind != TokenKind::Equal {
            // No `=` — an expression statement, which is exactly one expression.
            if first.len() == 1 {
                return Ok(Stmt::Expr(first[0]));
            }
            // A comma-list with no `=`: if the next line starts with a comma, the user tried a
            // leading-comma continuation — the comma must instead trail the current line.
            if self.next_line_starts_with_comma() {
                return Err(
                    ParseError::Layout(
                        String::from_str("Multi-line assignment: comma must not start a line."),
                    ),
                );
            }
            return Err(
                ParseError::Unexpected(
                    String::from_str("Expected `=` after a comma-separated target list."),
                ),
            );
        }
        // Plain assignment: collect the `=`-separated groups, then resolve their targets and
        // values.
        let groups: Vec<Vec<ExprId>> = match self.parse_groups(first) {
            Ok(groups) => groups,
            Err(error) => return Err(error),
        };
        self.finish_assignment(groups)
    }

    /// The `=`-separated groups of an assignment, the first of them read.
    fn parse_groups(&mut self, first: Vec<ExprId>) -> (r: Result<Vec<Vec<ExprId>>, ParseError>)
        requires
            old(self).well_formed(),
            first@.len() > 0,
            exprs_ok(first@, old(self).ast@.bounds()),
            old(self).toks()[old(self).pos as int].kind == TokenKind::Equal,
        ensures
            match r {
                Ok(all) => {
                    &&& yields(
                        grammar::groups(
                            old(self).toks(),
                            old(self).depth as nat,
                            old(self).state(),
                            seq![first@],
                        ),
                        final(self).state(),
                        nested(all@),
                    )
                    &&& final(self).follows(*old(self))
                    &&& all@.len() > 1
                    &&& rows_ok(nested(all@), final(self).ast@.bounds())
                },
                Err(error) => fails(
                    grammar::groups(
                        old(self).toks(),
                        old(self).depth as nat,
                        old(self).state(),
                        seq![first@],
                    ),
                    error,
                ),
            },
        decreases 257 - old(self).depth, 6int, 0int,
    {
        let ghost toks = self.toks();
        let ghost d = self.depth as nat;
        let mut all: Vec<Vec<ExprId>> = Vec::new();
        all.push(first);
        assert(nested(all@) =~= seq![first@]);
        while self.kind() == TokenKind::Equal
            invariant
                self.follows(*old(self)),
                toks == old(self).toks(),
                d == old(self).depth,
                toks[old(self).pos as int].kind == TokenKind::Equal,
                all@.len() > 0,
                all@.len() == 1 ==> self.pos == old(self).pos,
                rows_ok(nested(all@), self.ast@.bounds()),
                grammar::groups(toks, d, old(self).state(), seq![first@]) == grammar::groups(
                    toks,
                    d,
                    self.state(),
                    nested(all@),
                ),
            decreases self.tokens.len() - self.pos,
        {
            let ghost before = nested(all@);
            proof {
                grammar::unfold_groups(toks, d, self.state(), before);
            }
            self.advance();  // '='
            let group: Vec<ExprId> = match self.parse_expr_list() {
                Ok(group) => group,
                Err(error) => return Err(error),
            };
            all.push(group);
            assert(nested(all@) =~= before.push(group@));
        }
        proof {
            grammar::unfold_groups(toks, d, self.state(), nested(all@));
        }
        Ok(all)
    }

    /// A comma-separated list of expressions, e.g. `1, 2, 3` or an assignment's target/value list.
    /// A trailing comma continues the list onto the next line (an assignment LHS or RHS that
    /// wraps); the continuation must align to the column where the list began.
    fn parse_expr_list(&mut self) -> (r: Result<Vec<ExprId>, ParseError>)
        requires
            old(self).well_formed(),
        ensures
            match r {
                Ok(exprs) => {
                    &&& yields(
                        grammar::expr_list(
                            old(self).toks(),
                            old(self).depth as nat,
                            old(self).state(),
                        ),
                        final(self).state(),
                        exprs@,
                    )
                    &&& final(self).follows(*old(self))
                    &&& final(self).pos > old(self).pos
                    &&& exprs@.len() > 0
                    &&& exprs_ok(exprs@, final(self).ast@.bounds())
                },
                Err(error) => fails(
                    grammar::expr_list(
                        old(self).toks(),
                        old(self).depth as nat,
                        old(self).state(),
                    ),
                    error,
                ),
            },
        decreases 257 - old(self).depth, 5int, 0int,
    {
        proof {
            grammar::unfold_expr_list(self.toks(), self.depth as nat, self.state());
        }
        let ghost toks = self.toks();
        let ghost d = self.depth as nat;
        let list_col: u32 = self.peek().col;
        let first: ExprId = match self.parse_expr(0) {
            Ok(first) => first,
            Err(error) => return Err(error),
        };
        let mut exprs: Vec<ExprId> = Vec::new();
        exprs.push(first);
        assert(exprs@ =~= seq![first]);
        while self.kind() == TokenKind::Comma
            invariant
                self.follows(*old(self)),
                self.pos > old(self).pos,
                toks == old(self).toks(),
                d == old(self).depth,
                exprs@.len() > 0,
                exprs_ok(exprs@, self.ast@.bounds()),
                grammar::expr_list(toks, d, old(self).state()) == grammar::list_tail(
                    toks,
                    d,
                    self.state(),
                    list_col as int,
                    exprs@,
                ),
            decreases self.tokens.len() - self.pos,
        {
            proof {
                grammar::unfold_list_tail(toks, d, self.state(), list_col as int, exprs@);
            }
            self.advance();  // ','
            // A comma at the end of a line continues the list; the next item aligns to `list_col`.
            if self.kind() == TokenKind::Newline {
                match self.consume_list_continuation(list_col) {
                    Ok(()) => {},
                    Err(error) => return Err(error),
                }
            }
            match self.parse_expr(0) {
                Ok(next) => {
                    exprs.push(next);
                },
                Err(error) => return Err(error),
            }
        }
        proof {
            grammar::unfold_list_tail(toks, d, self.state(), list_col as int, exprs@);
        }
        Ok(exprs)
    }

    /// Skips the layout tokens of a wrapped comma-list and requires the continuation to start at
    /// `list_col`. A continuation indented past the enclosing block opens an `Indent`, banked into
    /// `pending_dedents` so `parse_block` later swallows the matching `Dedent` (as for a wrapped
    /// `else`); a same-indent continuation is just a `Newline`.
    fn consume_list_continuation(&mut self, list_col: u32) -> (r: Result<(), ParseError>)
        requires
            old(self).well_formed(),
        ensures
            final(self).follows(*old(self)),
            final(self).state() == grammar::skip_wrapping(old(self).toks(), old(self).state()),
            match r {
                Ok(()) => final(self).toks()[final(self).pos as int].col == list_col,
                Err(error) => {
                    &&& final(self).toks()[final(self).pos as int].col != list_col
                    &&& error@ == ParseErrorView::Layout(
                        "Continuation at column "@ + decimal_text(
                            final(self).toks()[final(self).pos as int].col as nat,
                        ) + " must align to the list's column "@ + decimal_text(list_col as nat)
                            + "."@,
                    )
                },
            },
    {
        self.skip_wrapping();
        let col: u32 = self.peek().col;
        if col != list_col {
            return Err(
                ParseError::Layout(
                    join5(
                        "Continuation at column ",
                        decimal(col as u64).as_str(),
                        " must align to the list's column ",
                        decimal(list_col as u64).as_str(),
                        ".",
                    ),
                ),
            );
        }
        Ok(())
    }

    /// Non-consuming: does the next line (past the layout tokens at the cursor) begin with a comma?
    /// Used only to give the specific "comma must not start a line" diagnostic.
    fn next_line_starts_with_comma(&self) -> (r: bool)
        requires
            self.well_formed(),
        ensures
            r == (self.toks()[grammar::after_separators(self.toks(), self.pos as int)].kind
                == TokenKind::Comma),
    {
        let mut index: usize = self.pos;
        proof {
            reveal(sound);
        }
        loop
            invariant
                self.well_formed(),
                self.pos <= index < self.tokens@.len(),
                self.tokens@[self.tokens@.len() - 1].kind == TokenKind::Eof,
                grammar::after_separators(self.toks(), self.pos as int)
                    == grammar::after_separators(self.toks(), index as int),
            ensures
                index < self.tokens@.len(),
                index == grammar::after_separators(self.toks(), self.pos as int),
            decreases self.tokens@.len() - index,
        {
            let kind: TokenKind = self.tokens[index].kind;
            assert(self.tokens.len() == self.tokens@.len());
            assert(kind == self.toks()[index as int].kind);
            if kind == TokenKind::Newline || kind == TokenKind::Indent || kind == TokenKind::Dedent {
                index = index + 1;
            } else {
                break;
            }
        }
        assert(self.tokens@[index as int].kind == self.toks()[index as int].kind);
        self.tokens[index].kind == TokenKind::Comma
    }

    /// The place that an expression names, if it names one.
    fn named_place(&self, expr_id: ExprId) -> (r: Option<Place>)
        requires
            self.well_formed(),
            expr_ok(expr_id, self.ast@.bounds()),
        ensures
            r == grammar::expr_place(self.state(), expr_id),
            r matches Some(place) ==> symbol_ok(symbol_of(place), self.ast@.bounds()),
    {
        proof {
            reveal(sound);
            let i = expr_id.0 as int;
            assert(node_ok(self.ast@.nodes[i], self.ast@.bounds_before(i)));
        }
        match self.ast.node(expr_id) {
            Node::Var(sym_id) => Some(Place::Local(*sym_id)),
            Node::Global(sym_id) => Some(Place::Global(*sym_id)),
            _ => None,
        }
    }

    /// Reinterprets an already-parsed expression as an assignment target. Only a bare name or
    /// `::name` is a valid place; anything else (a literal, a call, an arithmetic node) is
    /// rejected. The read `Var`/`Global` node parsed for the target is left unused in the arena.
    fn expr_as_place(&self, expr_id: ExprId) -> (r: Result<Place, ParseError>)
        requires
            self.well_formed(),
            expr_ok(expr_id, self.ast@.bounds()),
        ensures
            match r {
                Ok(place) => {
                    &&& grammar::expr_place(self.state(), expr_id) == Some(place)
                    &&& symbol_ok(symbol_of(place), self.ast@.bounds())
                },
                Err(error) => {
                    &&& grammar::expr_place(self.state(), expr_id) is None
                    &&& error@ == ParseErrorView::Unexpected(grammar::invalid_target())
                },
            },
    {
        match self.named_place(expr_id) {
            Some(place) => Ok(place),
            None => Err(
                ParseError::Unexpected(
                    String::from_str(
                        "Invalid assignment target; only names and `::globals` can be assigned.",
                    ),
                ),
            ),
        }
    }

    /// Whether an expression selects part of an array or a matrix.
    fn is_indexing(&self, expr_id: ExprId) -> (r: bool)
        requires
            self.well_formed(),
            expr_ok(expr_id, self.ast@.bounds()),
        ensures
            r == (self.ast@.nodes[expr_id.0 as int] is Index
                || self.ast@.nodes[expr_id.0 as int] is Index2D),
    {
        proof {
            reveal(sound);
        }
        match self.ast.node(expr_id) {
            Node::Index { .. } => true,
            Node::Index2D { .. } => true,
            _ => false,
        }
    }

    /// The selection that an expression makes in an array or a matrix: the object, the first
    /// selector, and the second of a matrix.
    fn selection(&self, expr_id: ExprId) -> (r: (ExprId, ExprId, Option<ExprId>))
        requires
            self.well_formed(),
            expr_ok(expr_id, self.ast@.bounds()),
            self.ast@.nodes[expr_id.0 as int] is Index || self.ast@.nodes[expr_id.0 as int]
                is Index2D,
        ensures
            expr_ok(r.0, self.ast@.bounds()),
            expr_ok(r.1, self.ast@.bounds()),
            r.2 matches Some(col) ==> expr_ok(col, self.ast@.bounds()),
            self.ast@.nodes[expr_id.0 as int] == (match r.2 {
                None => NodeView::Index(r.0, r.1),
                Some(col) => NodeView::Index2D(r.0, r.1, col),
            }),
    {
        proof {
            reveal(sound);
            let i = expr_id.0 as int;
            assert(node_ok(self.ast@.nodes[i], self.ast@.bounds_before(i)));
        }
        match self.ast.node(expr_id) {
            Node::Index { array, index } => (*array, *index, None),
            Node::Index2D { matrix, row, col } => (*matrix, *row, Some(*col)),
            _ => (expr_id, expr_id, None),
        }
    }

    /// `arr[idx] <op>= rhs` and `mat[row, col] <op>= rhs`, entered at the operator — the value is
    /// just the right-hand side; `compound_op` carries the operator, and is `None` for a plain `=`.
    fn parse_indexed_assign(
        &mut self,
        target: ExprId,
        op: Option<BinOp>,
    ) -> (r: Result<Stmt, ParseError>)
        requires
            old(self).well_formed(),
            expr_ok(target, old(self).ast@.bounds()),
            old(self).ast@.nodes[target.0 as int] is Index || old(self).ast@.nodes[target.0 as int] is Index2D,
            old(self).toks()[old(self).pos as int].kind != TokenKind::Eof,
        ensures
            match r {
                Ok(stmt) => {
                    &&& yields(
                        grammar::indexed_assign(
                            old(self).toks(),
                            old(self).depth as nat,
                            old(self).state(),
                            old(self).ast@.nodes[target.0 as int],
                            op,
                        ),
                        final(self).state(),
                        stmt@,
                    )
                    &&& final(self).follows(*old(self))
                    &&& stmt_ok(stmt@, final(self).ast@.bounds())
                },
                Err(error) => fails(
                    grammar::indexed_assign(
                        old(self).toks(),
                        old(self).depth as nat,
                        old(self).state(),
                        old(self).ast@.nodes[target.0 as int],
                        op,
                    ),
                    error,
                ),
            },
        decreases 257 - old(self).depth, 6int, 0int,
    {
        proof {
            grammar::unfold_indexed_assign(
                self.toks(),
                self.depth as nat,
                self.state(),
                self.ast@.nodes[target.0 as int],
                op,
            );
        }
        let (object, first, second): (ExprId, ExprId, Option<ExprId>) = self.selection(target);
        let place: Place = match self.named_place(object) {
            Some(place) => place,
            None => {
                return Err(ParseError::Unexpected(String::from_str("Invalid assignment target.")));
            },
        };
        self.advance();  // the operator
        let value: ExprId = match self.parse_expr(0) {
            Ok(value) => value,
            Err(error) => return Err(error),
        };
        match second {
            None => Ok(
                Stmt::IndexedAssign { target: place, index: first, value, compound_op: op },
            ),
            Some(col) => Ok(
                Stmt::IndexedAssign2D { target: place, row: first, col, value, compound_op: op },
            ),
        }
    }

    /// Desugars `place <op>= e` into `place = place <op> e` — the single-target, single-value
    /// shape.
    fn finish_compound(&mut self, target: ExprId, place: Place, op: BinOp, rhs: ExprId) -> (stmt:
        Stmt)
        requires
            old(self).well_formed(),
            old(self).pos > 0,
            expr_ok(target, old(self).ast@.bounds()),
            expr_ok(rhs, old(self).ast@.bounds()),
            symbol_ok(symbol_of(place), old(self).ast@.bounds()),
            old(self).ast@.nodes.len() + 2 <= 2 * old(self).taken(),
        ensures
            (final(self).state(), stmt@) == grammar::compound(
                old(self).toks(),
                old(self).state(),
                target,
                place,
                op,
                rhs,
            ),
            final(self).well_formed(),
            final(self).tokens == old(self).tokens,
            final(self).source == old(self).source,
            final(self).depth == old(self).depth,
            final(self).pos == old(self).pos,
            final(self).ast@.nodes.len() == old(self).ast@.nodes.len() + 2,
            final(self).ast@.names == old(self).ast@.names,
            final(self).ast@.strings == old(self).ast@.strings,
            stmt_ok(stmt@, final(self).ast@.bounds()),
    {
        let span: Span = self.span_of(target);
        let read: ExprId = self.push(read_of(place), span.start);
        let combined: ExprId = self.push(Node::Bin { op, lhs: read, rhs }, span.start);
        let mut targets: Vec<Place> = Vec::new();
        targets.push(place);
        let mut target_lists: Vec<Vec<Place>> = Vec::new();
        target_lists.push(targets);
        let mut spans: Vec<Span> = Vec::new();
        spans.push(span);
        let mut target_spans: Vec<Vec<Span>> = Vec::new();
        target_spans.push(spans);
        let mut values: Vec<ExprId> = Vec::new();
        values.push(combined);
        proof {
            assert(targets@ =~= seq![place]);
            assert(spans@ =~= seq![span]);
            assert(nested(target_lists@) =~= seq![seq![place]]);
            assert(nested(target_spans@) =~= seq![seq![span]]);
            assert(values@ =~= seq![combined]);
        }
        Stmt::Assign { target_lists, target_spans, values }
    }

    /// Where an expression is written.
    fn span_of(&self, expr_id: ExprId) -> (span: Span)
        requires
            self.well_formed(),
            expr_ok(expr_id, self.ast@.bounds()),
        ensures
            span == self.ast@.spans[expr_id.0 as int],
            span.start <= self.taken(),
            is_char_boundary(self.source@, span.start as int),
    {
        proof {
            reveal(sound);
            assert(span_ok(self.source@, self.ast@.spans[expr_id.0 as int], self.taken()));
        }
        self.ast.span_of(expr_id)
    }

    /// The name of a symbol.
    fn name_of(&self, sym_id: SymId) -> (name: &'src str)
        requires
            self.well_formed(),
            symbol_ok(sym_id, self.ast@.bounds()),
        ensures
            name@ == self.ast@.names[sym_id.0 as int],
    {
        self.ast.names[sym_id.value()]
    }

    /// The targets of one group and where they are written.
    fn resolve_targets(&self, group: &Vec<ExprId>) -> (r: Result<
        (Vec<Place>, Vec<Span>),
        ParseError,
    >)
        requires
            self.well_formed(),
            exprs_ok(group@, self.ast@.bounds()),
        ensures
            match r {
                Ok((places, spans)) => {
                    &&& places@ == grammar::places_of(self.state(), group@)
                    &&& spans@ == grammar::spans_of(self.state(), group@)
                    &&& places_ok(places@, self.ast@.bounds())
                    &&& forall|i: int|
                        0 <= i < group@.len() ==> grammar::expr_place(
                            self.state(),
                            #[trigger] group@[i],
                        ) is Some
                },
                Err(error) => {
                    &&& exists|i: int|
                        0 <= i < group@.len() && grammar::expr_place(
                            self.state(),
                            #[trigger] group@[i],
                        ) is None
                    &&& error@ == ParseErrorView::Unexpected(grammar::invalid_target())
                },
            },
    {
        let mut places: Vec<Place> = Vec::new();
        let mut spans: Vec<Span> = Vec::new();
        let mut index: usize = 0;
        while index < group.len()
            invariant
                self.well_formed(),
                exprs_ok(group@, self.ast@.bounds()),
                index <= group@.len(),
                places@.len() == index,
                spans@.len() == index,
                places_ok(places@, self.ast@.bounds()),
                forall|i: int|
                    0 <= i < index ==> grammar::expr_place(self.state(), #[trigger] group@[i])
                        == Some(places@[i]),
                forall|i: int|
                    0 <= i < index ==> #[trigger] spans@[i]
                        == self.ast@.spans[group@[i].0 as int],
            decreases group@.len() - index,
        {
            let expr_id: ExprId = group[index];
            match self.expr_as_place(expr_id) {
                Ok(place) => {
                    places.push(place);
                },
                Err(error) => {
                    assert(grammar::expr_place(self.state(), group@[index as int]) is None);
                    return Err(error);
                },
            }
            spans.push(self.span_of(expr_id));
            index = index + 1;
        }
        proof {
            assert(places@ =~= grammar::places_of(self.state(), group@));
            assert(spans@ =~= grammar::spans_of(self.state(), group@));
        }
        Ok((places, spans))
    }

    /// Builds `target_list = (target_list =)* value_list` from its `=`-separated groups: the last
    /// group is the values; each earlier group is a target list checked for matching arity.
    fn finish_assignment(&self, groups: Vec<Vec<ExprId>>) -> (r: Result<Stmt, ParseError>)
        requires
            self.well_formed(),
            groups@.len() > 1,
            rows_ok(nested(groups@), self.ast@.bounds()),
        ensures
            match r {
                Ok(stmt) => {
                    &&& yields(
                        grammar::assignment(self.state(), nested(groups@)),
                        self.state(),
                        stmt@,
                    )
                    &&& stmt_ok(stmt@, self.ast@.bounds())
                },
                Err(error) => fails(
                    grammar::assignment(self.state(), nested(groups@)),
                    error,
                ),
            },
    {
        let ghost all = nested(groups@);
        let ghost targets = all.drop_last();
        let mut lists: Vec<Vec<ExprId>> = groups;
        let values: Vec<ExprId> = match lists.pop() {
            Some(values) => values,
            None => Vec::new(),
        };
        let ghost count = values@.len() as int;
        proof {
            reveal(grammar::assignment);
            assert(all[all.len() - 1] == values@);
            assert(all.last() == values@);
        }
        let mut target_lists: Vec<Vec<Place>> = Vec::new();
        let mut target_spans: Vec<Vec<Span>> = Vec::new();
        let mut index: usize = 0;
        while index < lists.len()
            invariant
                self.well_formed(),
                all == nested(groups@),
                all.len() > 1,
                targets == all.drop_last(),
                count == values@.len(),
                all.last() == values@,
                lists@.len() == targets.len(),
                forall|i: int| 0 <= i < lists@.len() ==> #[trigger] targets[i] == lists@[i]@,
                rows_ok(all, self.ast@.bounds()),
                index <= lists@.len(),
                target_lists@.len() == index,
                target_spans@.len() == index,
                forall|i: int|
                    0 <= i < index ==> {
                        &&& (#[trigger] target_lists@[i])@ == grammar::places_of(
                            self.state(),
                            targets[i],
                        )
                        &&& target_lists@[i]@.len() == count
                        &&& places_ok(target_lists@[i]@, self.ast@.bounds())
                    },
                forall|i: int|
                    0 <= i < index ==> {
                        &&& (#[trigger] target_spans@[i])@ == grammar::spans_of(
                            self.state(),
                            targets[i],
                        )
                        &&& target_spans@[i]@.len() == count
                    },
                grammar::first_bad_group(self.state(), targets, count, 0)
                    == grammar::first_bad_group(self.state(), targets, count, index as int),
            decreases lists@.len() - index,
        {
            proof {
                reveal(grammar::assignment);
                assert(targets[index as int] == lists@[index as int]@);
                assert(targets[index as int] == all[index as int]);
                assert(exprs_ok(all[index as int], self.ast@.bounds()));
            }
            // Convert each target before the arity check, so a non-place like `1, 2 = 3` reports
            // the more specific "invalid target" rather than an arity mismatch.
            let (places, spans): (Vec<Place>, Vec<Span>) = match self.resolve_targets(
                &lists[index],
            ) {
                Ok(resolved) => resolved,
                Err(error) => return Err(error),
            };
            if places.len() != values.len() {
                return Err(
                    ParseError::Unexpected(
                        join5(
                            "Assignment has ",
                            decimal(places.len() as u64).as_str(),
                            " target(s) but ",
                            decimal(values.len() as u64).as_str(),
                            " value(s).",
                        ),
                    ),
                );
            }
            target_lists.push(places);
            target_spans.push(spans);
            index = index + 1;
        }
        proof {
            assert(nested(target_lists@) =~= Seq::new(
                targets.len(),
                |i: int| grammar::places_of(self.state(), targets[i]),
            ));
            assert(nested(target_spans@) =~= Seq::new(
                targets.len(),
                |i: int| grammar::spans_of(self.state(), targets[i]),
            ));
            assert(exprs_ok(all[all.len() - 1], self.ast@.bounds()));
        }
        Ok(Stmt::Assign { target_lists, target_spans, values })
    }

    /// A func-def is `Ident "(" … ")" [":" type] "is"`. The trailing `is` is what tells it
    /// apart from a top-level call statement `f(args)`.
    fn looks_like_func_def(&self) -> (r: bool)
        requires
            self.well_formed(),
        ensures
            r == grammar::looks_like_func_def(self.toks(), self.pos as int),
    {
        proof {
            reveal(grammar::looks_like_func_def);
        }
        assert(self.tokens.len() == self.tokens@.len());
        if self.kind() != TokenKind::Identifier || self.at(1) != TokenKind::LParen {
            return false;
        }
        let close: usize = match self.matching_paren(self.pos + 1) {
            Some(index) => index,
            None => return false,
        };
        let mut cursor: usize = close + 1;
        if self.is_at(cursor, TokenKind::Colon) {
            if self.tokens.len() - cursor <= 2 {
                return false;
            }
            cursor = cursor + 2;  // ": type"
        }
        self.is_at(cursor, TokenKind::KwIs)
    }

    /// Whether there is a token of this kind at an index.
    fn is_at(&self, index: usize, kind: TokenKind) -> (r: bool)
        ensures
            r == (index < self.toks().len() && self.toks()[index as int].kind == kind),
    {
        if index >= self.tokens.len() {
            return false;
        }
        assert(self.tokens@[index as int].kind == self.toks()[index as int].kind);
        self.tokens[index].kind == kind
    }

    /// Index of the `)` that closes the `(` at `lparen`, found by counting nesting depth.
    /// A non-consuming lookahead (it indexes `tokens` directly, never advances `pos`).
    /// Used by `looks_like_func_def` to skip past the parameter list and peek at what follows.
    /// Returns `None` if the parens are unbalanced or `Eof` is hit first.
    fn matching_paren(&self, lparen: usize) -> (r: Option<usize>)
        requires
            lparen < self.tokens@.len(),
            self.toks()[lparen as int].kind == TokenKind::LParen,
        ensures
            match r {
                Some(index) => {
                    &&& grammar::matching_paren(self.toks(), lparen as int, 0) == Some(
                        index as int,
                    )
                    &&& index < self.tokens@.len()
                },
                None => grammar::matching_paren(self.toks(), lparen as int, 0) is None,
            },
    {
        assert(self.tokens.len() == self.tokens@.len());
        let mut depth: usize = 0;
        let mut index: usize = lparen;
        while index < self.tokens.len()
            invariant
                lparen <= index <= self.tokens@.len(),
                self.tokens@.len() <= usize::MAX,
                self.toks()[lparen as int].kind == TokenKind::LParen,
                index == lparen ==> depth == 0,
                index > lparen ==> depth > 0,
                depth <= index - lparen,
                grammar::matching_paren(self.toks(), lparen as int, 0) == grammar::matching_paren(
                    self.toks(),
                    index as int,
                    depth as int,
                ),
            decreases self.tokens@.len() - index,
        {
            let kind: TokenKind = self.tokens[index].kind;
            assert(kind == self.toks()[index as int].kind);
            match kind {
                TokenKind::LParen => {
                    depth = depth + 1;
                },
                TokenKind::RParen => {
                    if depth == 1 {
                        return Some(index);
                    }
                    depth = depth - 1;
                },
                TokenKind::Eof => return None,
                _ => {},
            }
            index = index + 1;
        }
        None
    }

    /// One item at the top level: a function definition or a statement.
    fn parse_top_level(&mut self) -> (r: Result<TopLevel, ParseError>)
        requires
            old(self).well_formed(),
            old(self).depth == 0,
        ensures
            match r {
                Ok(item) => {
                    &&& yields(
                        grammar::top_level_item(old(self).toks(), old(self).state()),
                        final(self).state(),
                        item@,
                    )
                    &&& final(self).follows(*old(self))
                    &&& final(self).pos > old(self).pos
                    &&& top_level_ok(item@, final(self).ast@.bounds())
                },
                Err(error) => fails(
                    grammar::top_level_item(old(self).toks(), old(self).state()),
                    error,
                ),
            },
    {
        proof {
            reveal(grammar::top_level_item);
            reveal(grammar::looks_like_func_def);
        }
        if self.looks_like_func_def() {
            return match self.parse_func_def() {
                Ok(func) => Ok(TopLevel::Func(func)),
                Err(error) => Err(error),
            };
        }
        let stmt: Stmt = match self.parse_stmt() {
            Ok(stmt) => stmt,
            Err(error) => return Err(error),
        };
        // A single-line statement must reach end of line; a multiline construct (`while`/`loop`/
        // block `if`) ends on a layout token, after which the next statement may begin straight
        // away. Any stray continuation dedents are absorbed by `skip_separators` on the next
        // iteration. (`parse_block` applies the same end-of-statement rule for nested blocks.)
        match self.kind() {
            TokenKind::Newline | TokenKind::Eof | TokenKind::Dedent => {},
            other => {
                if !self.ended_at_layout() {
                    return Err(
                        ParseError::Unexpected(join3("Unexpected token ", kind_name(other), ".")),
                    );
                }
            },
        }
        Ok(TopLevel::Stmt(stmt))
    }

    /// Top level: a run of function definitions and statements, parsed until `Eof`.
    pub(crate) fn parse_program(&mut self) -> (r: Result<(), ParseError>)
        requires
            old(self).well_formed(),
        ensures
            match r {
                Ok(()) => {
                    &&& grammar::program(old(self).toks(), old(self).state()) == Ok::<
                        AstView,
                        ParseErrorView,
                    >(final(self).ast@)
                    &&& final(self).well_formed()
                    &&& final(self).tokens == old(self).tokens
                    &&& final(self).source == old(self).source
                },
                Err(error) => grammar::program(old(self).toks(), old(self).state()) == Err::<
                    AstView,
                    ParseErrorView,
                >(error@),
            },
    {
        loop
            invariant
                self.well_formed(),
                self.tokens == old(self).tokens,
                self.source == old(self).source,
                grammar::program(old(self).toks(), old(self).state()) == grammar::program(
                    self.toks(),
                    self.state(),
                ),
            decreases self.tokens@.len() - self.pos,
        {
            self.pending_dedents = 0;
            self.depth = 0;
            self.skip_separators();
            if self.kind() == TokenKind::Eof {
                return Ok(());
            }
            match self.parse_top_level() {
                Ok(item) => self.push_top_level(item),
                Err(error) => return Err(error),
            }
        }
    }
}

} // verus!
