//! Parsing expressions.

use crate::lexer::{lex, token_views, Token, TokenKind};
use crate::parser::ast::{
    arm_views, block_ok, expr_ok, exprs_ok, lemma_block_ok_grows, nested, optional_block,
    segment_ok, symbol_ok, symbol_of, within, BinOp, Block, Bounds, ExprId, FStrSegment, IfArm,
    IfArmView, Node, PinpType, Place, RangeKind, StrId, SymId, UnOp,
};
use crate::parser::grammar;
use crate::parser::grammar::{
    ChainDirection, COMPARISON_BP, CONDITIONAL_BP, MAX_IF_ARMS, MEMBERSHIP_BP, POSTFIX_BP,
    RANGE_BP, UNARY_MINUS_BP,
};
use crate::parser::literals::{inside, parse_float, parse_int};
use crate::parser::{fails, kind_name, yields, ParseError, Parser};
use crate::text::{decimal, join3, join5, slice};
use vstd::prelude::*;
use vstd::string::*;
use vstd::utf8::*;

verus! {

broadcast use encode_utf8_valid_utf8;

// ---------------------------------------------------------------------------
// Operator tables
// ---------------------------------------------------------------------------

/// Binding-power "table". See articles on Pratt parsing.
fn infix(kind: TokenKind) -> (r: Option<(u8, u8, BinOp)>)
    ensures
        r == grammar::infix(kind),
{
    match kind {
        TokenKind::KwOr => Some((20, 21, BinOp::Or)),
        TokenKind::KwXor => Some((25, 26, BinOp::Xor)),
        TokenKind::KwAnd => Some((30, 31, BinOp::And)),
        TokenKind::Plus => Some((60, 61, BinOp::Add)),
        TokenKind::Minus => Some((60, 61, BinOp::Sub)),
        TokenKind::Star => Some((70, 71, BinOp::Mul)),
        TokenKind::Slash => Some((70, 71, BinOp::Div)),
        TokenKind::KwDiv => Some((70, 71, BinOp::IntDiv)),
        TokenKind::KwMod => Some((70, 71, BinOp::Mod)),
        TokenKind::Caret => Some((80, 80, BinOp::Pow)),
        _ => None,
    }
}

/// The comparison operators (`< > <= >= == !=`) form a single non-associative band that *chains*
/// (see `parse_comparison_chain`) rather than left-folding, so they live here, not in `infix`.
fn comparison_op(kind: TokenKind) -> (r: Option<BinOp>)
    ensures
        r == grammar::comparison_op(kind),
{
    match kind {
        TokenKind::EqEq => Some(BinOp::Eq),
        TokenKind::Ne => Some(BinOp::Ne),
        TokenKind::Lt => Some(BinOp::Lt),
        TokenKind::Gt => Some(BinOp::Gt),
        TokenKind::Le => Some(BinOp::Le),
        TokenKind::Ge => Some(BinOp::Ge),
        _ => None,
    }
}

/// The range operator a token introduces, if any.
fn range_kind(kind: TokenKind) -> (r: Option<RangeKind>)
    ensures
        r == grammar::range_kind(kind),
{
    match kind {
        TokenKind::DotDot => Some(RangeKind::Inclusive),
        TokenKind::DotDotLt => Some(RangeKind::UpExclusive),
        TokenKind::DotDotGt => Some(RangeKind::DownExclusive),
        _ => None,
    }
}

fn chain_direction(op: BinOp) -> (r: Option<ChainDirection>)
    ensures
        r == grammar::chain_direction(op),
{
    match op {
        BinOp::Lt | BinOp::Le => Some(ChainDirection::Ascending),
        BinOp::Gt | BinOp::Ge => Some(ChainDirection::Descending),
        BinOp::Eq => Some(ChainDirection::Equality),
        _ => None,
    }
}

fn comparison_symbol(op: BinOp) -> (r: &'static str)
    ensures
        r@ == grammar::comparison_text(op),
{
    match op {
        BinOp::Eq => "==",
        BinOp::Ne => "!=",
        BinOp::Lt => "<",
        BinOp::Gt => ">",
        BinOp::Le => "<=",
        _ => ">=",
    }
}

/// A chain of more than one comparison must be monotonic: every operator shares one direction
/// (all ascending `< <=`, all descending `> >=`, or all `==`), and `!=` never chains. A lone
/// comparison is always fine — including `!=`.
fn check_monotonic(operators: &Vec<BinOp>) -> (r: Result<(), ParseError>)
    ensures
        match r {
            Ok(()) => grammar::monotonic(operators@),
            Err(error) => !grammar::monotonic(operators@) && error@ == grammar::chain_error(
                operators@,
            ),
        },
{
    if operators.len() < 2 {
        return Ok(());
    }
    let first: BinOp = operators[0];
    let mut i: usize = 0;
    while i < operators.len()
        invariant
            i <= operators.len(),
            2 <= operators.len(),
            first == operators@[0],
            i > 0 ==> grammar::chain_direction(first) is Some,
            forall|j: int|
                0 <= j < i ==> grammar::chain_direction(#[trigger] operators@[j])
                    == grammar::chain_direction(first),
            grammar::first_break(operators@, 0) == grammar::first_break(operators@, i as int),
        decreases operators.len() - i,
    {
        let op: BinOp = operators[i];
        match (chain_direction(first), chain_direction(op)) {
            (Some(direction), Some(op_direction)) => {
                if op_direction != direction {
                    assert(!grammar::monotonic(operators@)) by {
                        assert(grammar::chain_direction(operators@[i as int])
                            != grammar::chain_direction(first));
                    }
                    return Err(
                        ParseError::Unexpected(
                            join5(
                                "Cannot chain `",
                                comparison_symbol(first),
                                "` with `",
                                comparison_symbol(op),
                                "`.",
                            ),
                        ),
                    );
                }
            },
            (_, None) => {
                assert(!grammar::monotonic(operators@)) by {
                    assert(grammar::chain_direction(operators@[i as int]) is None);
                }
                return Err(
                    ParseError::Unexpected(
                        join3(
                            "Cannot chain `",
                            comparison_symbol(op),
                            "`; it is not transitive.",
                        ),
                    ),
                );
            },
            (None, Some(_)) => {
                assert(i > 0);
            },
        }
        i = i + 1;
    }
    Ok(())
}

// ---------------------------------------------------------------------------
// Lists of arms
// ---------------------------------------------------------------------------

pub(crate) open spec fn arms_ok(arms: Seq<IfArmView>, at: Bounds) -> bool {
    forall|i: int|
        0 <= i < arms.len() ==> expr_ok((#[trigger] arms[i]).cond, at) && block_ok(arms[i].body, at)
}

proof fn lemma_arms_grow(arms: Seq<IfArmView>, small: Bounds, large: Bounds)
    requires
        arms_ok(arms, small),
        within(small, large),
    ensures
        arms_ok(arms, large),
{
    assert forall|i: int| 0 <= i < arms.len() implies expr_ok((#[trigger] arms[i]).cond, large)
        && block_ok(arms[i].body, large) by {
        lemma_block_ok_grows(arms[i].body, small, large);
    }
}

pub(crate) fn result_block(expr_id: ExprId) -> (block: Block)
    ensures
        block@ == grammar::only_result(expr_id),
{
    let block: Block = Block { stmts: Vec::new(), result: Some(expr_id) };
    assert(block@.stmts =~= Seq::empty());
    block
}

impl<'src> Parser<'src> {
    // -------------------------------------------------------------------------
    // If-expression
    // -------------------------------------------------------------------------

    /// `if <cond> <block> (elif <cond> <block>)* (else <block>)?` — the block-form if-expression.
    fn parse_if(&mut self) -> (r: Result<ExprId, ParseError>)
        requires
            old(self).well_formed(),
            old(self).toks()[old(self).pos as int].kind == TokenKind::KwIf,
        ensures
            match r {
                Ok(expr_id) => {
                    &&& yields(
                        grammar::if_expr(
                            old(self).toks(),
                            old(self).depth as nat,
                            old(self).state(),
                        ),
                        final(self).state(),
                        expr_id,
                    )
                    &&& final(self).follows(*old(self))
                    &&& final(self).pos > old(self).pos
                    &&& expr_ok(expr_id, final(self).ast@.bounds())
                },
                Err(error) => fails(
                    grammar::if_expr(old(self).toks(), old(self).depth as nat, old(self).state()),
                    error,
                ),
            },
        decreases 257 - old(self).depth, 6int, 0int,
    {
        proof {
            grammar::unfold_if_expr(self.toks(), self.depth as nat, self.state());
        }
        let token: Token<'src> = self.advance();  // 'if'
        let cond: ExprId = match self.parse_expr(0) {
            Ok(cond) => cond,
            Err(error) => return Err(error),
        };
        let body: Block = match self.parse_block() {
            Ok(body) => body,
            Err(error) => return Err(error),
        };
        let mut arms: Vec<IfArm> = Vec::new();
        arms.push(IfArm { cond, body });
        proof {
            assert(arm_views(arms@) =~= seq![IfArmView { cond, body: body@ }]);
        }
        let (arms, else_block): (Vec<IfArm>, Option<Block>) = match self.parse_if_tail(arms) {
            Ok(tail) => tail,
            Err(error) => return Err(error),
        };
        Ok(self.push(Node::If { arms, else_block }, token.start))
    }

    /// The `elif` arms and the trailing `else` that follow the arms read.
    fn parse_if_tail(&mut self, arms: Vec<IfArm>) -> (r: Result<
        (Vec<IfArm>, Option<Block>),
        ParseError,
    >)
        requires
            old(self).well_formed(),
            0 < arms@.len() <= MAX_IF_ARMS,
            arms_ok(arm_views(arms@), old(self).ast@.bounds()),
        ensures
            match r {
                Ok((all, else_block)) => {
                    &&& yields(
                        grammar::if_tail(
                            old(self).toks(),
                            old(self).depth as nat,
                            old(self).state(),
                            arm_views(arms@),
                        ),
                        final(self).state(),
                        (arm_views(all@), optional_block(else_block)),
                    )
                    &&& final(self).follows(*old(self))
                    &&& all@.len() > 0
                    &&& arms_ok(arm_views(all@), final(self).ast@.bounds())
                    &&& optional_block(else_block) matches Some(block) ==> block_ok(
                        block,
                        final(self).ast@.bounds(),
                    )
                },
                Err(error) => fails(
                    grammar::if_tail(
                        old(self).toks(),
                        old(self).depth as nat,
                        old(self).state(),
                        arm_views(arms@),
                    ),
                    error,
                ),
            },
        decreases 257 - old(self).depth, 5int, 0int,
    {
        let ghost toks = self.toks();
        let ghost d = self.depth as nat;
        let mut all: Vec<IfArm> = arms;
        loop
            invariant
                self.follows(*old(self)),
                toks == old(self).toks(),
                d == old(self).depth,
                0 < all@.len() <= MAX_IF_ARMS,
                arms_ok(arm_views(all@), self.ast@.bounds()),
                grammar::if_tail(toks, d, old(self).state(), arm_views(arms@)) == grammar::if_tail(
                    toks,
                    d,
                    self.state(),
                    arm_views(all@),
                ),
            decreases self.tokens.len() - self.pos,
        {
            let ghost before = *self;
            let ghost arms_before = arm_views(all@);
            proof {
                grammar::unfold_if_tail(toks, d, self.state(), arms_before);
            }
            let kind: TokenKind = self.kind();
            if kind == TokenKind::KwElif {
                self.advance();
                let cond: ExprId = match self.parse_expr(0) {
                    Ok(cond) => cond,
                    Err(error) => return Err(error),
                };
                let body: Block = match self.parse_block() {
                    Ok(body) => body,
                    Err(error) => return Err(error),
                };
                all.push(IfArm { cond, body });
                proof {
                    lemma_arms_grow(arms_before, before.ast@.bounds(), self.ast@.bounds());
                    assert(arm_views(all@) =~= arms_before.push(IfArmView { cond, body: body@ }));
                }
                if all.len() > MAX_IF_ARMS {
                    return Err(
                        ParseError::TooManyArms(
                            String::from_str(
                                "Excessive number of if-elif constructs. The maximum is 256.",
                            ),
                        ),
                    );
                }
            } else if kind == TokenKind::KwElse {
                self.advance();
                let body: Block = match self.parse_block() {
                    Ok(body) => body,
                    Err(error) => return Err(error),
                };
                proof {
                    lemma_arms_grow(arms_before, before.ast@.bounds(), self.ast@.bounds());
                }
                return Ok((all, Some(body)));
            } else {
                return Ok((all, None));
            }
        }
    }

    /// Tail of the one-line conditional `then_val if cond else else_val`, entered at `if` with
    /// `then_val` already parsed. `start_col` is the column where the whole expression began; a
    /// wrapped `else` (on its own line) must align to it.
    fn parse_conditional(&mut self, then_val: ExprId, start_col: u32) -> (r: Result<
        ExprId,
        ParseError,
    >)
        requires
            old(self).well_formed(),
            old(self).toks()[old(self).pos as int].kind == TokenKind::KwIf,
            expr_ok(then_val, old(self).ast@.bounds()),
        ensures
            match r {
                Ok(expr_id) => {
                    &&& yields(
                        grammar::conditional(
                            old(self).toks(),
                            old(self).depth as nat,
                            old(self).state(),
                            then_val,
                            start_col as int,
                        ),
                        final(self).state(),
                        expr_id,
                    )
                    &&& final(self).follows(*old(self))
                    &&& final(self).pos > old(self).pos
                    &&& expr_ok(expr_id, final(self).ast@.bounds())
                },
                Err(error) => fails(
                    grammar::conditional(
                        old(self).toks(),
                        old(self).depth as nat,
                        old(self).state(),
                        then_val,
                        start_col as int,
                    ),
                    error,
                ),
            },
        decreases 257 - old(self).depth, 7int, 0int,
    {
        proof {
            grammar::unfold_conditional(
                self.toks(),
                self.depth as nat,
                self.state(),
                then_val,
                start_col as int,
            );
        }
        self.advance();  // 'if'
        let cond: ExprId = match self.parse_expr(0) {
            Ok(cond) => cond,
            Err(error) => return Err(error),
        };
        // `else` may sit on the next line. Skip the continuation's layout tokens, recording any
        // `Indent` so the enclosing block ignores its later closing `Dedent`.
        let before: usize = self.pos;
        self.skip_wrapping();
        let wrapped: bool = self.pos != before;
        if self.kind() != TokenKind::KwElse {
            return Err(
                ParseError::Unexpected(
                    String::from_str("Expected `else` in a conditional expression."),
                ),
            );
        }
        let col: u32 = self.peek().col;
        if wrapped && col != start_col {
            return Err(
                ParseError::Layout(
                    join5(
                        "Continuation `else` at column ",
                        decimal(col as u64).as_str(),
                        " must align to the conditional's column ",
                        decimal(start_col as u64).as_str(),
                        ".",
                    ),
                ),
            );
        }
        self.advance();  // 'else'
        let else_val: ExprId = match self.parse_expr(CONDITIONAL_BP) {
            Ok(else_val) => else_val,
            Err(error) => return Err(error),
        };
        let mut arms: Vec<IfArm> = Vec::new();
        arms.push(IfArm { cond, body: result_block(then_val) });
        let start: u32 = self.start_of(then_val);
        let node: Node = Node::If { arms, else_block: Some(result_block(else_val)) };
        proof {
            assert(arm_views(arms@) =~= seq![
                IfArmView { cond, body: grammar::only_result(then_val) },
            ]);
        }
        Ok(self.push(node, start))
    }

    /// Skips the layout tokens of a wrapped line. A line indented past the enclosing block opens an
    /// `Indent`, banked into `pending_dedents` so `parse_block` later swallows the matching
    /// `Dedent`; a same-indent continuation is just a `Newline`.
    pub(crate) fn skip_wrapping(&mut self)
        requires
            old(self).well_formed(),
        ensures
            final(self).follows(*old(self)),
            final(self).state() == grammar::skip_wrapping(old(self).toks(), old(self).state()),
    {
        let ghost start = *self;
        loop
            invariant
                self.follows(start),
                grammar::skip_wrapping(start.toks(), start.state()) == grammar::skip_wrapping(
                    self.toks(),
                    self.state(),
                ),
            ensures
                self.state() == grammar::skip_wrapping(start.toks(), start.state()),
            decreases self.tokens.len() - self.pos,
        {
            let kind: TokenKind = self.kind();
            if kind == TokenKind::Newline || kind == TokenKind::Dedent {
                self.advance();
            } else if kind == TokenKind::Indent {
                self.advance();
                self.pending_dedents = self.pending_dedents + 1;
            } else {
                break;
            }
        }
    }

    // -------------------------------------------------------------------------
    // Pratt expression loop
    // -------------------------------------------------------------------------

    /// Precedence-climbing: parse a prefix, then fold operators binding at or above `min_bp`. The
    /// chaining bands (conditional, comparison, range, `in`) are handled explicitly before the
    /// `infix` binding-power table.
    pub(crate) fn parse_expr(&mut self, min_bp: u8) -> (r: Result<ExprId, ParseError>)
        requires
            old(self).well_formed(),
        ensures
            match r {
                Ok(expr_id) => {
                    &&& yields(
                        grammar::expr(
                            old(self).toks(),
                            old(self).depth as nat,
                            old(self).state(),
                            min_bp,
                        ),
                        final(self).state(),
                        expr_id,
                    )
                    &&& final(self).follows(*old(self))
                    &&& final(self).pos > old(self).pos
                    &&& expr_ok(expr_id, final(self).ast@.bounds())
                },
                Err(error) => fails(
                    grammar::expr(
                        old(self).toks(),
                        old(self).depth as nat,
                        old(self).state(),
                        min_bp,
                    ),
                    error,
                ),
            },
        decreases 257 - old(self).depth, 0int, 0int,
    {
        proof {
            grammar::unfold_expr(self.toks(), self.depth as nat, self.state(), min_bp);
        }
        match self.enter_nesting() {
            Ok(()) => {},
            Err(error) => return Err(error),
        }
        let start_col: u32 = self.peek().col;
        let lhs: ExprId = match self.parse_prefix() {
            Ok(lhs) => lhs,
            Err(error) => return Err(error),
        };
        let folded: ExprId = match self.parse_operators(lhs, start_col, min_bp) {
            Ok(folded) => folded,
            Err(error) => return Err(error),
        };
        self.depth = self.depth - 1;
        Ok(folded)
    }

    /// Folds operators into `lhs` until one binds too loosely.
    fn parse_operators(&mut self, lhs: ExprId, start_col: u32, min_bp: u8) -> (r: Result<
        ExprId,
        ParseError,
    >)
        requires
            old(self).well_formed(),
            expr_ok(lhs, old(self).ast@.bounds()),
        ensures
            match r {
                Ok(expr_id) => {
                    &&& yields(
                        grammar::operators(
                            old(self).toks(),
                            old(self).depth as nat,
                            old(self).state(),
                            start_col as int,
                            min_bp,
                            lhs,
                        ),
                        final(self).state(),
                        expr_id,
                    )
                    &&& final(self).follows(*old(self))
                    &&& expr_ok(expr_id, final(self).ast@.bounds())
                },
                Err(error) => fails(
                    grammar::operators(
                        old(self).toks(),
                        old(self).depth as nat,
                        old(self).state(),
                        start_col as int,
                        min_bp,
                        lhs,
                    ),
                    error,
                ),
            },
        decreases 257 - old(self).depth, 9int, 0int,
    {
        let ghost toks = self.toks();
        let ghost d = self.depth as nat;
        let mut folded: ExprId = lhs;
        loop
            invariant
                self.follows(*old(self)),
                toks == old(self).toks(),
                d == old(self).depth,
                expr_ok(folded, self.ast@.bounds()),
                grammar::operators(toks, d, old(self).state(), start_col as int, min_bp, lhs)
                    == grammar::operators(
                    toks,
                    d,
                    self.state(),
                    start_col as int,
                    min_bp,
                    folded,
                ),
            decreases self.tokens.len() - self.pos,
        {
            proof {
                grammar::unfold_operators(
                    toks,
                    d,
                    self.state(),
                    start_col as int,
                    min_bp,
                    folded,
                );
            }
            match self.parse_operator(folded, start_col, min_bp) {
                Ok(Some(more)) => {
                    folded = more;
                },
                Ok(None) => {
                    return Ok(folded);
                },
                Err(error) => return Err(error),
            }
        }
    }

    /// Folds the next operator into `lhs`, if one that binds tight enough follows.
    fn parse_operator(&mut self, lhs: ExprId, start_col: u32, min_bp: u8) -> (r: Result<
        Option<ExprId>,
        ParseError,
    >)
        requires
            old(self).well_formed(),
            expr_ok(lhs, old(self).ast@.bounds()),
        ensures
            ({
                let outcome = grammar::operator(
                    old(self).toks(),
                    old(self).depth as nat,
                    old(self).state(),
                    start_col as int,
                    min_bp,
                    lhs,
                );
                match r {
                    Ok(Some(expr_id)) => {
                        &&& outcome matches Some(parsed) && yields(
                            parsed,
                            final(self).state(),
                            expr_id,
                        )
                        &&& final(self).follows(*old(self))
                        &&& final(self).pos > old(self).pos
                        &&& expr_ok(expr_id, final(self).ast@.bounds())
                    },
                    Ok(None) => outcome is None && *final(self) == *old(self),
                    Err(error) => outcome matches Some(parsed) && fails(parsed, error),
                }
            }),
        decreases 257 - old(self).depth, 8int, 0int,
    {
        proof {
            grammar::unfold_operator(
                self.toks(),
                self.depth as nat,
                self.state(),
                start_col as int,
                min_bp,
                lhs,
            );
        }
        let kind: TokenKind = self.kind();
        // The one-line conditional `lhs if c else e` is the loosest operator and chains right;
        // like the comparison band it sits outside the `infix` table.
        if kind == TokenKind::KwIf && CONDITIONAL_BP >= min_bp {
            return match self.parse_conditional(lhs, start_col) {
                Ok(expr_id) => Ok(Some(expr_id)),
                Err(error) => Err(error),
            };
        }
        // The comparison band chains rather than left-folds, so it is handled apart from the
        // `infix` binding-power loop.
        if comparison_op(kind).is_some() && COMPARISON_BP >= min_bp {
            return match self.parse_comparison_chain(lhs) {
                Ok(expr_id) => Ok(Some(expr_id)),
                Err(error) => Err(error),
            };
        }
        // A range operator turns the operand so far into the range's `start`; like the
        // comparison band, its result is not an ordinary `Bin`, so it lives outside `infix`.
        if let Some(range) = range_kind(kind) {
            if RANGE_BP >= min_bp {
                return match self.parse_range_tail(lhs, range) {
                    Ok(expr_id) => Ok(Some(expr_id)),
                    Err(error) => Err(error),
                };
            }
        }
        // `value in range` — membership, yielding `Bool`.
        if kind == TokenKind::KwIn && MEMBERSHIP_BP >= min_bp {
            self.advance();  // 'in'
            let range: ExprId = match self.parse_expr(MEMBERSHIP_BP + 1) {
                Ok(range) => range,
                Err(error) => return Err(error),
            };
            let start: u32 = self.start_of(lhs);
            return Ok(Some(self.push(Node::Membership { value: lhs, range }, start)));
        }
        // Postfix `lhs[…]` — 1D element/slice, or 2D `lhs[row_sel, col_sel]`.
        if kind == TokenKind::LBracket && POSTFIX_BP >= min_bp {
            return match self.parse_index_tail(lhs) {
                Ok(expr_id) => Ok(Some(expr_id)),
                Err(error) => Err(error),
            };
        }
        // Postfix `lhs.member` — built-in member access (`.len`, etc.).
        if kind == TokenKind::Dot && POSTFIX_BP >= min_bp {
            self.advance();  // '.'
            let name: Token<'src> = match self.expect(TokenKind::Identifier) {
                Ok(name) => name,
                Err(error) => return Err(error),
            };
            let member: SymId = self.intern(name.text);
            let start: u32 = self.start_of(lhs);
            return Ok(Some(self.push(Node::Member { object: lhs, member }, start)));
        }
        match infix(kind) {
            Some((left_bp, right_bp, op)) => {
                if left_bp < min_bp {
                    return Ok(None);
                }
                self.advance();
                let rhs: ExprId = match self.parse_expr(right_bp) {
                    Ok(rhs) => rhs,
                    Err(error) => return Err(error),
                };
                let start: u32 = self.start_of(lhs);
                Ok(Some(self.push(Node::Bin { op, lhs, rhs }, start)))
            },
            None => Ok(None),
        }
    }

    /// The tail of `lhs[…]`, entered at the `[`.
    fn parse_index_tail(&mut self, lhs: ExprId) -> (r: Result<ExprId, ParseError>)
        requires
            old(self).well_formed(),
            old(self).toks()[old(self).pos as int].kind == TokenKind::LBracket,
            expr_ok(lhs, old(self).ast@.bounds()),
        ensures
            match r {
                Ok(expr_id) => {
                    &&& yields(
                        grammar::index_tail(
                            old(self).toks(),
                            old(self).depth as nat,
                            old(self).state(),
                            lhs,
                        ),
                        final(self).state(),
                        expr_id,
                    )
                    &&& final(self).follows(*old(self))
                    &&& final(self).pos > old(self).pos
                    &&& expr_ok(expr_id, final(self).ast@.bounds())
                },
                Err(error) => fails(
                    grammar::index_tail(
                        old(self).toks(),
                        old(self).depth as nat,
                        old(self).state(),
                        lhs,
                    ),
                    error,
                ),
            },
        decreases 257 - old(self).depth, 7int, 0int,
    {
        proof {
            grammar::unfold_index_tail(self.toks(), self.depth as nat, self.state(), lhs);
        }
        self.advance();  // '['
        let row_or_index: ExprId = match self.parse_dim_selector() {
            Ok(selector) => selector,
            Err(error) => return Err(error),
        };
        if self.kind() == TokenKind::Comma {
            self.advance();  // ','
            let col: ExprId = match self.parse_dim_selector() {
                Ok(selector) => selector,
                Err(error) => return Err(error),
            };
            match self.expect(TokenKind::RBracket) {
                Ok(_) => {},
                Err(error) => return Err(error),
            }
            let start: u32 = self.start_of(lhs);
            Ok(self.push(Node::Index2D { matrix: lhs, row: row_or_index, col }, start))
        } else {
            match self.expect(TokenKind::RBracket) {
                Ok(_) => {},
                Err(error) => return Err(error),
            }
            let start: u32 = self.start_of(lhs);
            Ok(self.push(Node::Index { array: lhs, index: row_or_index }, start))
        }
    }

    /// Parses `first op1 e1 op2 e2 …` (`first` already parsed) and desugars it to the `and` of its
    /// adjacent comparisons: `a < b < c` becomes `(a < b) and (b < c)`, with the middle operand
    /// shared. A chain of one comparison is just that comparison — no `and` is introduced.
    fn parse_comparison_chain(&mut self, first: ExprId) -> (r: Result<ExprId, ParseError>)
        requires
            old(self).well_formed(),
            grammar::comparison_op(old(self).toks()[old(self).pos as int].kind) is Some,
            expr_ok(first, old(self).ast@.bounds()),
        ensures
            ({
                let outcome = grammar::comparisons(
                    old(self).toks(),
                    old(self).depth as nat,
                    old(self).state(),
                    first,
                    Seq::empty(),
                    None,
                );
                match r {
                    Ok(expr_id) => {
                        &&& outcome matches Ok(
                            (after, (chained, result)),
                        ) && after == final(self).state() && result == expr_id && grammar::monotonic(chained)
                        &&& final(self).follows(*old(self))
                        &&& final(self).pos > old(self).pos
                        &&& expr_ok(expr_id, final(self).ast@.bounds())
                    },
                    Err(error) => match outcome {
                        Err(inner) => inner == error@,
                        Ok((after, (chained, result))) => !grammar::monotonic(chained) && error@
                            == grammar::chain_error(chained),
                    },
                }
            }),
        decreases 257 - old(self).depth, 7int, 0int,
    {
        let ghost start = *self;
        let ghost toks = self.toks();
        let ghost d = self.depth as nat;
        let mut prev: ExprId = first;
        let mut operators: Vec<BinOp> = Vec::new();
        let mut result: Option<ExprId> = None;
        loop
            invariant
                self.follows(start),
                start == *old(self),
                start.well_formed(),
                self.toks() == toks,
                self.depth == d,
                start.toks() == toks,
                d == start.depth,
                grammar::comparison_op(toks[start.pos as int].kind) is Some,
                result is None ==> self.pos == start.pos,
                result is Some ==> self.pos > start.pos,
                result matches Some(expr_id) ==> expr_ok(expr_id, self.ast@.bounds()),
                expr_ok(prev, self.ast@.bounds()),
                grammar::comparisons(toks, d, start.state(), first, Seq::empty(), None)
                    == grammar::comparisons(toks, d, self.state(), prev, operators@, result),
            ensures
                result is Some,
                grammar::comparison_op(toks[self.pos as int].kind) is None,
            decreases self.tokens.len() - self.pos,
        {
            proof {
                grammar::unfold_comparisons(toks, d, self.state(), prev, operators@, result);
            }
            let op: BinOp = match comparison_op(self.kind()) {
                Some(op) => op,
                None => {
                    break;
                },
            };
            self.advance();
            // Operands bind just above the band so a following comparison starts a new link
            // rather than nesting inside this one.
            let next: ExprId = match self.parse_expr(COMPARISON_BP + 1) {
                Ok(next) => next,
                Err(error) => return Err(error),
            };
            let prev_start: u32 = self.start_of(prev);
            let comparison: ExprId = self.push(Node::Bin { op, lhs: prev, rhs: next }, prev_start);
            result =
            Some(
                match result {
                    None => comparison,
                    Some(accumulated) => {
                        let start: u32 = self.start_of(accumulated);
                        self.push(
                            Node::Bin { op: BinOp::And, lhs: accumulated, rhs: comparison },
                            start,
                        )
                    },
                },
            );
            operators.push(op);
            prev = next;
        }
        proof {
            grammar::unfold_comparisons(toks, d, self.state(), prev, operators@, result);
        }
        match check_monotonic(&operators) {
            Ok(()) => {},
            Err(error) => return Err(error),
        }
        match result {
            Some(expr_id) => Ok(expr_id),
            None => Ok(first),
        }
    }

    /// Tail of a range, entered at the range operator with `start` already parsed. The stop bound
    /// (and the optional `:step`) bind one power above `RANGE_BP`, so neither swallows a following
    /// range, comparison, or `in`.
    fn parse_range_tail(
        &mut self,
        start: ExprId,
        kind: RangeKind,
    ) -> (r: Result<ExprId, ParseError>)
        requires
            old(self).well_formed(),
            grammar::range_kind(old(self).toks()[old(self).pos as int].kind) is Some,
            expr_ok(start, old(self).ast@.bounds()),
        ensures
            match r {
                Ok(expr_id) => {
                    &&& yields(
                        grammar::range_tail(
                            old(self).toks(),
                            old(self).depth as nat,
                            old(self).state(),
                            start,
                            kind,
                        ),
                        final(self).state(),
                        expr_id,
                    )
                    &&& final(self).follows(*old(self))
                    &&& final(self).pos > old(self).pos
                    &&& expr_ok(expr_id, final(self).ast@.bounds())
                },
                Err(error) => fails(
                    grammar::range_tail(
                        old(self).toks(),
                        old(self).depth as nat,
                        old(self).state(),
                        start,
                        kind,
                    ),
                    error,
                ),
            },
        decreases 257 - old(self).depth, 7int, 0int,
    {
        proof {
            grammar::unfold_range_tail(self.toks(), self.depth as nat, self.state(), start, kind);
        }
        self.advance();  // '..' / '..<' / '..>'
        let stop: ExprId = match self.parse_expr(RANGE_BP + 1) {
            Ok(stop) => stop,
            Err(error) => return Err(error),
        };
        let step: Option<ExprId> = if self.kind() == TokenKind::Colon {
            self.advance();  // ':'
            match self.parse_expr(RANGE_BP + 1) {
                Ok(step) => Some(step),
                Err(error) => return Err(error),
            }
        } else {
            None
        };
        let from: u32 = self.start_of(start);
        Ok(self.push(Node::Range { start, stop, step, kind }, from))
    }

    // -------------------------------------------------------------------------
    // Prefix, primary, and calls
    // -------------------------------------------------------------------------

    /// A prefix operator (`-` / `not`) applied to an operand, or else a primary.
    fn parse_prefix(&mut self) -> (r: Result<ExprId, ParseError>)
        requires
            old(self).well_formed(),
        ensures
            match r {
                Ok(expr_id) => {
                    &&& yields(
                        grammar::prefix(
                            old(self).toks(),
                            old(self).depth as nat,
                            old(self).state(),
                        ),
                        final(self).state(),
                        expr_id,
                    )
                    &&& final(self).follows(*old(self))
                    &&& final(self).pos > old(self).pos
                    &&& expr_ok(expr_id, final(self).ast@.bounds())
                },
                Err(error) => fails(
                    grammar::prefix(old(self).toks(), old(self).depth as nat, old(self).state()),
                    error,
                ),
            },
        decreases 257 - old(self).depth, 8int, 0int,
    {
        proof {
            grammar::unfold_prefix(self.toks(), self.depth as nat, self.state());
            grammar::unfold_negated(self.toks(), self.depth as nat, self.state(), UnOp::Neg);
            grammar::unfold_negated(self.toks(), self.depth as nat, self.state(), UnOp::Not);
        }
        let kind: TokenKind = self.kind();
        let op: UnOp = if kind == TokenKind::Minus {
            UnOp::Neg
        } else if kind == TokenKind::KwNot {
            UnOp::Not
        } else {
            return self.parse_primary();
        };
        let token: Token<'src> = self.advance();
        let operand: ExprId = match self.parse_expr(UNARY_MINUS_BP) {
            Ok(operand) => operand,
            Err(error) => return Err(error),
        };
        Ok(self.push(Node::Unary { op, operand }, token.start))
    }

    /// An atom: a literal, a name or `::global`, a parenthesised expression, a call, or a
    /// block-form `if`.
    fn parse_primary(&mut self) -> (r: Result<ExprId, ParseError>)
        requires
            old(self).well_formed(),
        ensures
            match r {
                Ok(expr_id) => {
                    &&& yields(
                        grammar::primary(
                            old(self).toks(),
                            old(self).depth as nat,
                            old(self).state(),
                        ),
                        final(self).state(),
                        expr_id,
                    )
                    &&& final(self).follows(*old(self))
                    &&& final(self).pos > old(self).pos
                    &&& expr_ok(expr_id, final(self).ast@.bounds())
                },
                Err(error) => fails(
                    grammar::primary(old(self).toks(), old(self).depth as nat, old(self).state()),
                    error,
                ),
            },
        decreases 257 - old(self).depth, 7int, 0int,
    {
        proof {
            grammar::unfold_primary(self.toks(), self.depth as nat, self.state());
        }
        let kind: TokenKind = self.kind();
        match kind {
            TokenKind::Int => {
                let token: Token<'src> = self.advance();
                proof {
                    crate::token_stream::lemma_kind_forms(self.source@, token@);
                }
                match parse_int(token.text) {
                    Ok(value) => Ok(self.push(Node::Int(value), token.start)),
                    Err(error) => Err(error),
                }
            },
            TokenKind::Float => {
                let token: Token<'src> = self.advance();
                let digits: String = parse_float(token.text);
                Ok(self.push(Node::Float(digits), token.start))
            },
            TokenKind::KwTrue => {
                let token: Token<'src> = self.advance();
                Ok(self.push(Node::Bool(true), token.start))
            },
            TokenKind::KwFalse => {
                let token: Token<'src> = self.advance();
                Ok(self.push(Node::Bool(false), token.start))
            },
            TokenKind::Str => {
                // Strip the matching quotes; the interior is the content (single-line for now).
                let token: Token<'src> = self.advance();
                let text: &'src str = inside(token, 1, Ghost(self.source@));
                let str_id: StrId = self.push_string(text);
                Ok(self.push(Node::Str(str_id), token.start))
            },
            TokenKind::FStr => {
                // Strip the leading `f` and the matching quotes, then split into segments.
                let token: Token<'src> = self.advance();
                let content: &'src str = inside(token, 2, Ghost(self.source@));
                match self.parse_fstring_segments(content) {
                    Ok(segments) => Ok(self.push(Node::FStr { segments }, token.start)),
                    Err(error) => Err(error),
                }
            },
            TokenKind::Identifier => {
                if self.at(1) == TokenKind::LParen {
                    return self.parse_call();
                }
                let token: Token<'src> = self.advance();
                let sym_id: SymId = self.intern(token.text);
                Ok(self.push(Node::Var(sym_id), token.start))
            },
            TokenKind::ColonColon => {
                let token: Token<'src> = self.advance();  // '::'
                let name: Token<'src> = match self.expect(TokenKind::Identifier) {
                    Ok(name) => name,
                    Err(error) => return Err(error),
                };
                let sym_id: SymId = self.intern(name.text);
                Ok(self.push(Node::Global(sym_id), token.start))
            },
            // `if` opening an expression is the block form; the one-line ternary is reached from
            // the `parse_expr` loop instead, after a left operand.
            TokenKind::KwIf => self.parse_if(),
            TokenKind::LParen => {
                self.advance();
                let expr_id: ExprId = match self.parse_expr(0) {
                    Ok(expr_id) => expr_id,
                    Err(error) => return Err(error),
                };
                match self.expect(TokenKind::RParen) {
                    Ok(_) => Ok(expr_id),
                    Err(error) => Err(error),
                }
            },
            TokenKind::LBracket => self.parse_array_or_comprehension(),
            other => Err(
                ParseError::Unexpected(join3("Unexpected token ", kind_name(other), ".")),
            ),
        }
    }

    /// `[…]` — a 1D array literal or an array comprehension.
    ///
    /// Literal: `[e0, e1, …]` — a comma-separated list of elements (trailing comma allowed).
    /// Comprehension: `[element for var[:type] in source]` — the `for` keyword after the first
    /// element is the discriminator. The `:type` annotation promotes the loop variable; without it
    /// the variable type defaults to `Int` (the range's native element type).
    fn parse_array_or_comprehension(&mut self) -> (r: Result<ExprId, ParseError>)
        requires
            old(self).well_formed(),
            old(self).toks()[old(self).pos as int].kind == TokenKind::LBracket,
        ensures
            match r {
                Ok(expr_id) => {
                    &&& yields(
                        grammar::array(old(self).toks(), old(self).depth as nat, old(self).state()),
                        final(self).state(),
                        expr_id,
                    )
                    &&& final(self).follows(*old(self))
                    &&& final(self).pos > old(self).pos
                    &&& expr_ok(expr_id, final(self).ast@.bounds())
                },
                Err(error) => fails(
                    grammar::array(old(self).toks(), old(self).depth as nat, old(self).state()),
                    error,
                ),
            },
        decreases 257 - old(self).depth, 6int, 0int,
    {
        proof {
            grammar::unfold_array(self.toks(), self.depth as nat, self.state());
        }
        let open: Token<'src> = self.advance();  // '['
        // Empty `[]` is always an error — a zero-length array literal has no deducible element
        // type.
        if self.kind() == TokenKind::RBracket {
            return Err(
                ParseError::Unexpected(String::from_str("Array literal cannot be empty.")),
            );
        }
        // The column of the first element is the alignment anchor for multi-line matrix rows.
        let anchor_col: u32 = self.peek().col;
        let first: ExprId = match self.parse_expr(0) {
            Ok(first) => first,
            Err(error) => return Err(error),
        };
        // Comprehension: `[element for var[:type] in source]`.
        if self.kind() == TokenKind::KwFor {
            return self.parse_comprehension_tail(first, open.start);
        }
        // Array or matrix literal: parse the first row.
        let first_row: Vec<ExprId> = match self.parse_row(first) {
            Ok(first_row) => first_row,
            Err(error) => return Err(error),
        };
        // Matrix literal: `[r0_e0, …; r1_e0, …; …]` — a `;` follows the first row.
        if self.kind() == TokenKind::Semicolon {
            let ghost first_rows = seq![first_row@];
            let mut rows: Vec<Vec<ExprId>> = Vec::new();
            rows.push(first_row);
            assert(nested(rows@) =~= first_rows);
            let rows: Vec<Vec<ExprId>> = match self.parse_rows(rows, anchor_col) {
                Ok(rows) => rows,
                Err(error) => return Err(error),
            };
            match self.expect(TokenKind::RBracket) {
                Ok(_) => {},
                Err(error) => return Err(error),
            }
            return Ok(self.push(Node::MatrixLiteral { rows }, open.start));
        }
        // 1D array literal.
        match self.expect(TokenKind::RBracket) {
            Ok(_) => {},
            Err(error) => return Err(error),
        }
        Ok(self.push(Node::ArrayLiteral { elements: first_row }, open.start))
    }

    /// The remaining rows of a matrix, entered at a `;`.
    fn parse_rows(&mut self, rows: Vec<Vec<ExprId>>, anchor_col: u32) -> (r: Result<
        Vec<Vec<ExprId>>,
        ParseError,
    >)
        requires
            old(self).well_formed(),
            old(self).toks()[old(self).pos as int].kind == TokenKind::Semicolon,
            rows@.len() == 1,
            rows_ok(nested(rows@), old(self).ast@.bounds()),
        ensures
            match r {
                Ok(all) => {
                    &&& yields(
                        grammar::rows(
                            old(self).toks(),
                            old(self).depth as nat,
                            old(self).state(),
                            nested(rows@),
                            anchor_col as int,
                        ),
                        final(self).state(),
                        nested(all@),
                    )
                    &&& final(self).follows(*old(self))
                    &&& all@.len() > 1
                    &&& rows_ok(nested(all@), final(self).ast@.bounds())
                },
                Err(error) => fails(
                    grammar::rows(
                        old(self).toks(),
                        old(self).depth as nat,
                        old(self).state(),
                        nested(rows@),
                        anchor_col as int,
                    ),
                    error,
                ),
            },
        decreases 257 - old(self).depth, 5int, 0int,
    {
        let ghost toks = self.toks();
        let ghost d = self.depth as nat;
        let mut all: Vec<Vec<ExprId>> = rows;
        while self.kind() == TokenKind::Semicolon
            invariant
                self.follows(*old(self)),
                toks == old(self).toks(),
                d == old(self).depth,
                toks[old(self).pos as int].kind == TokenKind::Semicolon,
                all@.len() > 0,
                all@.len() == 1 ==> self.pos == old(self).pos,
                rows_ok(nested(all@), self.ast@.bounds()),
                grammar::rows(toks, d, old(self).state(), nested(rows@), anchor_col as int)
                    == grammar::rows(toks, d, self.state(), nested(all@), anchor_col as int),
            decreases self.tokens.len() - self.pos,
        {
            let ghost before = nested(all@);
            proof {
                grammar::unfold_rows(toks, d, self.state(), before, anchor_col as int);
            }
            let separator: Token<'src> = self.advance();  // ';'
            if self.kind() == TokenKind::RBracket {
                return Err(
                    ParseError::Unexpected(String::from_str("Trailing `;` in matrix literal.")),
                );
            }
            // A row that begins on a new line must align its first element with row 0.
            let next: Token<'src> = self.peek();
            if next.line != separator.line && next.col != anchor_col {
                return Err(
                    ParseError::Layout(
                        join5(
                            "Matrix row at column ",
                            decimal(next.col as u64).as_str(),
                            " must align with the first row at column ",
                            decimal(anchor_col as u64).as_str(),
                            ".",
                        ),
                    ),
                );
            }
            let element: ExprId = match self.parse_expr(0) {
                Ok(element) => element,
                Err(error) => return Err(error),
            };
            let row: Vec<ExprId> = match self.parse_row(element) {
                Ok(row) => row,
                Err(error) => return Err(error),
            };
            all.push(row);
            assert(nested(all@) =~= before.push(row@));
        }
        proof {
            grammar::unfold_rows(toks, d, self.state(), nested(all@), anchor_col as int);
        }
        Ok(all)
    }

    /// The rest of a row whose first element is read.
    fn parse_row(&mut self, first: ExprId) -> (r: Result<Vec<ExprId>, ParseError>)
        requires
            old(self).well_formed(),
            expr_ok(first, old(self).ast@.bounds()),
        ensures
            match r {
                Ok(elements) => {
                    &&& yields(
                        grammar::row(
                            old(self).toks(),
                            old(self).depth as nat,
                            old(self).state(),
                            seq![first],
                        ),
                        final(self).state(),
                        elements@,
                    )
                    &&& final(self).follows(*old(self))
                    &&& elements@.len() > 0
                    &&& exprs_ok(elements@, final(self).ast@.bounds())
                },
                Err(error) => fails(
                    grammar::row(
                        old(self).toks(),
                        old(self).depth as nat,
                        old(self).state(),
                        seq![first],
                    ),
                    error,
                ),
            },
        decreases 257 - old(self).depth, 4int, 0int,
    {
        let ghost toks = self.toks();
        let ghost d = self.depth as nat;
        let mut elements: Vec<ExprId> = Vec::new();
        elements.push(first);
        assert(elements@ =~= seq![first]);
        while self.kind() == TokenKind::Comma
            invariant
                self.follows(*old(self)),
                toks == old(self).toks(),
                d == old(self).depth,
                elements@.len() > 0,
                exprs_ok(elements@, self.ast@.bounds()),
                grammar::row(toks, d, old(self).state(), seq![first]) == grammar::row(
                    toks,
                    d,
                    self.state(),
                    elements@,
                ),
            decreases self.tokens.len() - self.pos,
        {
            proof {
                grammar::unfold_row(toks, d, self.state(), elements@);
            }
            self.advance();  // ','
            if self.kind() == TokenKind::RBracket {
                // Trailing comma before `]`.
                return Ok(elements);
            }
            if self.kind() == TokenKind::Semicolon {
                return Err(
                    ParseError::Unexpected(
                        String::from_str("Trailing `,` before `;` in matrix row."),
                    ),
                );
            }
            match self.parse_expr(0) {
                Ok(element) => {
                    elements.push(element);
                },
                Err(error) => return Err(error),
            }
        }
        proof {
            grammar::unfold_row(toks, d, self.state(), elements@);
        }
        Ok(elements)
    }

    /// The tail of a comprehension, entered at `for`; the `[` began at `start`.
    fn parse_comprehension_tail(&mut self, element: ExprId, start: u32) -> (r: Result<
        ExprId,
        ParseError,
    >)
        requires
            old(self).well_formed(),
            old(self).toks()[old(self).pos as int].kind == TokenKind::KwFor,
            expr_ok(element, old(self).ast@.bounds()),
            start <= old(self).taken(),
            is_char_boundary(old(self).source@, start as int),
        ensures
            match r {
                Ok(expr_id) => {
                    &&& yields(
                        grammar::comprehension(
                            old(self).toks(),
                            old(self).depth as nat,
                            old(self).state(),
                            element,
                            start,
                        ),
                        final(self).state(),
                        expr_id,
                    )
                    &&& final(self).follows(*old(self))
                    &&& final(self).pos > old(self).pos
                    &&& expr_ok(expr_id, final(self).ast@.bounds())
                },
                Err(error) => fails(
                    grammar::comprehension(
                        old(self).toks(),
                        old(self).depth as nat,
                        old(self).state(),
                        element,
                        start,
                    ),
                    error,
                ),
            },
        decreases 257 - old(self).depth, 5int, 0int,
    {
        proof {
            grammar::unfold_comprehension(
                self.toks(),
                self.depth as nat,
                self.state(),
                element,
                start,
            );
        }
        self.advance();  // 'for'
        let name: Token<'src> = match self.expect(TokenKind::Identifier) {
            Ok(name) => name,
            Err(error) => return Err(error),
        };
        let var: SymId = self.intern(name.text);
        let var_type: PinpType = if self.kind() == TokenKind::Colon {
            self.advance();  // ':'
            match self.parse_type() {
                Ok(var_type) => var_type,
                Err(error) => return Err(error),
            }
        } else {
            PinpType::Int
        };
        match self.expect(TokenKind::KwIn) {
            Ok(_) => {},
            Err(error) => return Err(error),
        }
        let source: ExprId = match self.parse_expr(0) {
            Ok(source) => source,
            Err(error) => return Err(error),
        };
        match self.expect(TokenKind::RBracket) {
            Ok(_) => {},
            Err(error) => return Err(error),
        }
        Ok(self.push(Node::Comprehension { element, var, var_type, source }, start))
    }

    /// One dimension selector inside `obj[…, …]`:
    ///   `:` immediately followed by `,` or `]` → `Node::FullExtent` (full extent of that dimension)
    ///   otherwise → an arbitrary expression (scalar index or range)
    fn parse_dim_selector(&mut self) -> (r: Result<ExprId, ParseError>)
        requires
            old(self).well_formed(),
        ensures
            match r {
                Ok(expr_id) => {
                    &&& yields(
                        grammar::selector(
                            old(self).toks(),
                            old(self).depth as nat,
                            old(self).state(),
                        ),
                        final(self).state(),
                        expr_id,
                    )
                    &&& final(self).follows(*old(self))
                    &&& final(self).pos > old(self).pos
                    &&& expr_ok(expr_id, final(self).ast@.bounds())
                },
                Err(error) => fails(
                    grammar::selector(old(self).toks(), old(self).depth as nat, old(self).state()),
                    error,
                ),
            },
        decreases 257 - old(self).depth, 6int, 0int,
    {
        proof {
            grammar::unfold_selector(self.toks(), self.depth as nat, self.state());
        }
        if self.kind() == TokenKind::Colon && (self.at(1) == TokenKind::Comma || self.at(1)
            == TokenKind::RBracket) {
            let token: Token<'src> = self.advance();  // ':'
            return Ok(self.push(Node::FullExtent, token.start));
        }
        self.parse_expr(0)
    }

    /// `<name>(<args>)` — a function call.
    fn parse_call(&mut self) -> (r: Result<ExprId, ParseError>)
        requires
            old(self).well_formed(),
            old(self).toks()[old(self).pos as int].kind == TokenKind::Identifier,
        ensures
            match r {
                Ok(expr_id) => {
                    &&& yields(
                        grammar::call(old(self).toks(), old(self).depth as nat, old(self).state()),
                        final(self).state(),
                        expr_id,
                    )
                    &&& final(self).follows(*old(self))
                    &&& final(self).pos > old(self).pos
                    &&& expr_ok(expr_id, final(self).ast@.bounds())
                },
                Err(error) => fails(
                    grammar::call(old(self).toks(), old(self).depth as nat, old(self).state()),
                    error,
                ),
            },
        decreases 257 - old(self).depth, 6int, 0int,
    {
        proof {
            grammar::unfold_call(self.toks(), self.depth as nat, self.state());
        }
        let token: Token<'src> = self.advance();  // Identifier
        let callee: SymId = self.intern(token.text);
        match self.expect(TokenKind::LParen) {
            Ok(_) => {},
            Err(error) => return Err(error),
        }
        let args: Vec<ExprId> = if self.kind() == TokenKind::RParen {
            Vec::new()
        } else {
            match self.parse_call_args() {
                Ok(args) => args,
                Err(error) => return Err(error),
            }
        };
        match self.expect(TokenKind::RParen) {
            Ok(_) => {},
            Err(error) => return Err(error),
        }
        Ok(self.push(Node::Call { callee, args }, token.start))
    }

    /// The arguments of a call that has any, up to the `)`.
    fn parse_call_args(&mut self) -> (r: Result<Vec<ExprId>, ParseError>)
        requires
            old(self).well_formed(),
        ensures
            match r {
                Ok(args) => {
                    &&& yields(
                        grammar::call_args(
                            old(self).toks(),
                            old(self).depth as nat,
                            old(self).state(),
                            Seq::empty(),
                        ),
                        final(self).state(),
                        args@,
                    )
                    &&& final(self).follows(*old(self))
                    &&& exprs_ok(args@, final(self).ast@.bounds())
                },
                Err(error) => fails(
                    grammar::call_args(
                        old(self).toks(),
                        old(self).depth as nat,
                        old(self).state(),
                        Seq::empty(),
                    ),
                    error,
                ),
            },
        decreases 257 - old(self).depth, 5int, 0int,
    {
        let ghost toks = self.toks();
        let ghost d = self.depth as nat;
        let mut args: Vec<ExprId> = Vec::new();
        loop
            invariant
                self.follows(*old(self)),
                toks == old(self).toks(),
                d == old(self).depth,
                exprs_ok(args@, self.ast@.bounds()),
                grammar::call_args(toks, d, old(self).state(), Seq::empty())
                    == grammar::call_args(toks, d, self.state(), args@),
            decreases self.tokens.len() - self.pos,
        {
            proof {
                grammar::unfold_call_args(toks, d, self.state(), args@);
            }
            match self.parse_expr(0) {
                Ok(arg) => {
                    args.push(arg);
                },
                Err(error) => return Err(error),
            }
            match self.kind() {
                TokenKind::Comma => {
                    self.advance();
                },
                TokenKind::RParen => {
                    return Ok(args);
                },
                other => {
                    return Err(
                        ParseError::Unexpected(join3("Unexpected token ", kind_name(other), ".")),
                    );
                },
            }
        }
    }

    // -------------------------------------------------------------------------
    // F-strings
    // -------------------------------------------------------------------------

    /// Splits an f-string's inter-delimiter content into alternating literal/interpolation
    /// segments. A `{` opens a `{name}`/`{::name}` hole closed by the next `}`; every other
    /// character is literal text. Adjacent holes (and a leading/trailing `{`) emit no empty literal
    /// run. The content is single-line for now — multi-line auto-dedent of the literal runs is a
    /// later step.
    fn parse_fstring_segments(&mut self, content: &'src str) -> (r: Result<
        Vec<FStrSegment>,
        ParseError,
    >)
        requires
            old(self).well_formed(),
            old(self).ast@.names.len() + content.spec_bytes().len() <= old(self).taken(),
            old(self).ast@.strings.len() + content.spec_bytes().len() <= old(self).taken(),
        ensures
            match r {
                Ok(segments) => {
                    &&& yields(
                        grammar::fstring_segments(
                            content.spec_bytes(),
                            old(self).state(),
                            0,
                            0,
                            Seq::empty(),
                        ),
                        final(self).state(),
                        segments@,
                    )
                    &&& final(self).well_formed()
                    &&& final(self).tokens == old(self).tokens
                    &&& final(self).source == old(self).source
                    &&& final(self).depth == old(self).depth
                    &&& final(self).pos == old(self).pos
                    &&& final(self).ast@.nodes == old(self).ast@.nodes
                    &&& final(self).ast@.names.len() >= old(self).ast@.names.len()
                    &&& final(self).ast@.strings.len() >= old(self).ast@.strings.len()
                    &&& final(self).ast@.names.len() <= old(self).ast@.names.len()
                        + content.spec_bytes().len()
                    &&& final(self).ast@.strings.len() <= old(self).ast@.strings.len()
                        + content.spec_bytes().len()
                    &&& segments_ok(segments@, final(self).ast@.bounds())
                },
                Err(error) => fails(
                    grammar::fstring_segments(
                        content.spec_bytes(),
                        old(self).state(),
                        0,
                        0,
                        Seq::empty(),
                    ),
                    error,
                ),
            },
    {
        let mut segments: Vec<FStrSegment> = Vec::new();
        let bytes: &[u8] = content.as_bytes();
        let ghost c = content.spec_bytes();
        let ghost start = *self;
        let mut literal_start: usize = 0;
        let mut index: usize = 0;
        proof {
            is_char_boundary_start_end_of_seq(c);
        }
        while index < bytes.len()
            invariant
                bytes@ == c,
                c == content.spec_bytes(),
                valid_utf8(c),
                c.len() <= crate::lexer::MAX_SOURCE_LEN,
                literal_start <= index <= bytes.len(),
                is_char_boundary(c, literal_start as int),
                start == *old(self),
                self.well_formed(),
                self.tokens == start.tokens,
                self.source == start.source,
                self.depth == start.depth,
                self.pos == start.pos,
                self.ast@.nodes == start.ast@.nodes,
                self.ast@.names.len() >= start.ast@.names.len(),
                self.ast@.strings.len() >= start.ast@.strings.len(),
                start.ast@.names.len() + c.len() <= start.taken(),
                start.ast@.strings.len() + c.len() <= start.taken(),
                self.taken() == start.taken(),
                self.ast@.names.len() <= start.ast@.names.len() + literal_start,
                self.ast@.strings.len() <= start.ast@.strings.len() + literal_start,
                segments_ok(segments@, self.ast@.bounds()),
                grammar::fstring_segments(c, start.state(), 0, 0, Seq::empty())
                    == grammar::fstring_segments(
                    c,
                    self.state(),
                    literal_start as int,
                    index as int,
                    segments@,
                ),
            decreases bytes.len() - index,
        {
            let byte: u8 = bytes[index];
            if byte == 0x7b {
                proof {
                    crate::text::lemma_ascii_ends_char(c, index as int);
                }
                if index > literal_start {
                    let run: &str = slice(content, literal_start, index);
                    let str_id: StrId = self.push_string(run);
                    segments.push(FStrSegment::Literal(str_id));
                }
                let mut close: usize = index + 1;
                while close < bytes.len() && bytes[close] != 0x7d
                    invariant
                        bytes@ == c,
                        index < close <= bytes.len(),
                        grammar::closing_brace(c, index + 1) == grammar::closing_brace(
                            c,
                            close as int,
                        ),
                    decreases bytes.len() - close,
                {
                    close = close + 1;
                }
                if close == bytes.len() {
                    return Err(
                        ParseError::Unexpected(String::from_str("Unterminated `{` in f-string.")),
                    );
                }
                proof {
                    crate::text::lemma_ascii_ends_char(c, close as int);
                }
                let hole: &'src str = slice(content, index + 1, close);
                match self.fstring_place(hole) {
                    Ok(place) => {
                        segments.push(FStrSegment::Interp(place));
                    },
                    Err(error) => return Err(error),
                }
                index = close + 1;  // step past the `}`
                literal_start = index;
            } else if byte == 0x7d {
                return Err(
                    ParseError::Unexpected(String::from_str("Unmatched `}` in f-string.")),
                );
            } else {
                index = index + 1;
            }
        }
        if literal_start < bytes.len() {
            let run: &str = slice(content, literal_start, bytes.len());
            let str_id: StrId = self.push_string(run);
            segments.push(FStrSegment::Literal(str_id));
        }
        Ok(segments)
    }

    /// Resolves one f-string hole to its [`Place`]. The hole's text is re-lexed — the lexer is the
    /// single source of truth for what a name is — so it must tokenise to exactly `name` (a local)
    /// or `::name` (a global); anything else (empty, a number, an operator, two names) is a parse
    /// error.
    fn fstring_place(&mut self, hole: &'src str) -> (r: Result<Place, ParseError>)
        requires
            old(self).well_formed(),
            hole.spec_bytes().len() <= crate::lexer::MAX_SOURCE_LEN,
            old(self).ast@.names.len() < old(self).taken(),
        ensures
            match r {
                Ok(place) => {
                    &&& yields(
                        grammar::hole_place(old(self).state(), hole.spec_bytes()),
                        final(self).state(),
                        place,
                    )
                    &&& final(self).well_formed()
                    &&& final(self).tokens == old(self).tokens
                    &&& final(self).source == old(self).source
                    &&& final(self).depth == old(self).depth
                    &&& final(self).pos == old(self).pos
                    &&& final(self).ast@.nodes == old(self).ast@.nodes
                    &&& final(self).ast@.strings == old(self).ast@.strings
                    &&& old(self).ast@.names.len() <= final(self).ast@.names.len() <= old(self).ast@.names.len() + 1
                    &&& symbol_ok(symbol_of(place), final(self).ast@.bounds())
                },
                Err(error) => fails(
                    grammar::hole_place(old(self).state(), hole.spec_bytes()),
                    error,
                ),
            },
    {
        proof {
            reveal(grammar::hole_place);
        }
        let tokens: Vec<Token<'src>> = match lex(hole) {
            Ok(tokens) => tokens,
            Err(error) => return Err(ParseError::Lex(error.message)),
        };
        let ghost views = token_views(tokens@);
        assert(forall|i: int| 0 <= i < tokens@.len() ==> #[trigger] views[i] == tokens@[i]@);
        if tokens.len() == 2 && tokens[0].kind == TokenKind::Identifier {
            return Ok(Place::Local(self.intern(tokens[0].text)));
        }
        if tokens.len() == 3 && tokens[0].kind == TokenKind::ColonColon && tokens[1].kind
            == TokenKind::Identifier {
            return Ok(Place::Global(self.intern(tokens[1].text)));
        }
        proof {
            encode_utf8_decode_utf8(hole@);
        }
        Err(
            ParseError::Unexpected(
                join3("Invalid f-string interpolation `{", hole, "}`; expected a name."),
            ),
        )
    }
}

pub(crate) open spec fn segments_ok(segments: Seq<FStrSegment>, at: Bounds) -> bool {
    forall|i: int| 0 <= i < segments.len() ==> segment_ok(#[trigger] segments[i], at)
}

pub(crate) open spec fn rows_ok(rows: Seq<Seq<ExprId>>, at: Bounds) -> bool {
    forall|i: int|
        0 <= i < rows.len() ==> (#[trigger] rows[i]).len() > 0 && exprs_ok(rows[i], at)
}

} // verus!
