//! How tightly operators bind.
//!
//! Expressions are stated here as a grammar of levels, from the loosest to the tightest: the
//! one-line conditional (0), `or` (1), `xor` (2), `and` (3), comparisons and `in` (4), ranges (5),
//! `+` and `-` (6), `*`, `/`, `div` and `mod` (7), the prefixes `-` and `not` (8), `^` (9), indices
//! and members (10). An operand stands at the operator's own level or a tighter one, on the right
//! of a left-associative operator at a tighter one, unless it is in brackets. Names and constants
//! are those that the tokens spell. Whatever is parsed is derived in this grammar.

use crate::lexer::{TokenKind, TokenView};
use crate::parser::ast::{
    AstView, BinOp, ExprId, IfArmView, NodeView, RangeKind, StrId, SymId, UnOp,
};
use crate::parser::grammar::{
    advanced, array, call, call_args, comparison_op, comparisons, conditional, expect, expr,
    fstring_segments, index_tail, infix, inside, int_literal, intern, moved, negated, offset,
    only_result, operator, operators, prefix, primary, push, push_string, range_kind, range_tail,
    selector, skip_wrapping, start_of, unfold_array, unfold_call, unfold_call_args,
    unfold_comparisons, unfold_comprehension, unfold_conditional, unfold_expr, unfold_if_expr,
    unfold_index_tail, unfold_negated, unfold_operator, unfold_operators, unfold_prefix,
    unfold_primary, unfold_range_tail, unfold_selector, without_separators, COMPARISON_BP,
    CONDITIONAL_BP, MAX_NESTING_DEPTH, MEMBERSHIP_BP, POSTFIX_BP, ParseState, Parsed, RANGE_BP,
    UNARY_MINUS_BP,
};
use crate::parser::trees::{
    continues, grown, lemma_primary, lemma_push, lemma_segments, small, sound, texts_kept,
};
use vstd::prelude::*;
use vstd::utf8::decode_utf8;

verus! {

// ---------------------------------------------------------------------------
// The levels
// ---------------------------------------------------------------------------

/// The level of a left-associative operator, and the operation it stands for.
pub open spec fn binary(kind: TokenKind) -> Option<(int, BinOp)> {
    match kind {
        TokenKind::KwOr => Some((1, BinOp::Or)),
        TokenKind::KwXor => Some((2, BinOp::Xor)),
        TokenKind::KwAnd => Some((3, BinOp::And)),
        TokenKind::Plus => Some((6, BinOp::Add)),
        TokenKind::Minus => Some((6, BinOp::Sub)),
        TokenKind::Star => Some((7, BinOp::Mul)),
        TokenKind::Slash => Some((7, BinOp::Div)),
        TokenKind::KwDiv => Some((7, BinOp::IntDiv)),
        TokenKind::KwMod => Some((7, BinOp::Mod)),
        _ => None,
    }
}

/// The level of a left-associative operator.
pub open spec fn level_at(kind: TokenKind) -> int {
    match binary(kind) {
        Some((level, _)) => level,
        None => 0,
    }
}

/// The comparison that a token stands for.
pub open spec fn comparing(kind: TokenKind) -> Option<BinOp> {
    match kind {
        TokenKind::EqEq => Some(BinOp::Eq),
        TokenKind::Ne => Some(BinOp::Ne),
        TokenKind::Lt => Some(BinOp::Lt),
        TokenKind::Gt => Some(BinOp::Gt),
        TokenKind::Le => Some(BinOp::Le),
        TokenKind::Ge => Some(BinOp::Ge),
        _ => None,
    }
}

/// The way a chain of comparisons goes: up, down, or along equals. `!=` goes no way.
pub open spec fn way(op: BinOp) -> int {
    match op {
        BinOp::Lt | BinOp::Le => 1,
        BinOp::Gt | BinOp::Ge => 2,
        BinOp::Eq => 3,
        _ => 0,
    }
}

/// The range that a token stands for.
pub open spec fn ranging(kind: TokenKind) -> Option<RangeKind> {
    match kind {
        TokenKind::DotDot => Some(RangeKind::Inclusive),
        TokenKind::DotDotLt => Some(RangeKind::UpExclusive),
        TokenKind::DotDotGt => Some(RangeKind::DownExclusive),
        _ => None,
    }
}

/// The level at which an operator takes what stands before it; nothing, for a token that is no
/// operator behind an operand.
pub open spec fn takes(kind: TokenKind) -> Option<int> {
    if binary(kind) is Some {
        Some(level_at(kind))
    } else if comparing(kind) is Some || kind == TokenKind::KwIn {
        Some(4)
    } else if ranging(kind) is Some {
        Some(5)
    } else if kind == TokenKind::KwIf {
        Some(1)
    } else if kind == TokenKind::Caret || kind == TokenKind::LBracket || kind == TokenKind::Dot {
        Some(10)
    } else {
        None
    }
}

/// The last operand of a chain of comparisons.
pub open spec fn chain_last(ast: AstView, e: ExprId) -> ExprId {
    match ast.nodes[e.0 as int] {
        NodeView::Bin(BinOp::And, _, last) => ast.nodes[last.0 as int]->Bin_2,
        NodeView::Bin(_, _, next) => next,
        _ => e,
    }
}

/// The way that a chain of comparisons goes.
pub open spec fn chain_way(ast: AstView, e: ExprId) -> int {
    match ast.nodes[e.0 as int] {
        NodeView::Bin(BinOp::And, _, last) => way(ast.nodes[last.0 as int]->Bin_0),
        NodeView::Bin(op, _, _) => way(op),
        _ => 0,
    }
}

/// A symbol is the name that a token spells.
pub open spec fn spelled(ast: AstView, sym: SymId, token: TokenView) -> bool {
    ast.names.len() <= u32::MAX ==> sym.0 < ast.names.len() && ast.names[sym.0 as int]
        == token.text
}

/// A string constant is what a token holds between its quotes.
pub open spec fn quoted(ast: AstView, str_id: StrId, token: TokenView) -> bool {
    ast.strings.len() <= u32::MAX ==> str_id.0 < ast.strings.len()
        && ast.strings[str_id.0 as int] == decode_utf8(inside(token.text, 1))
}

/// The tokens between two places end lines and change the indentation only.
pub open spec fn wraps(toks: Seq<TokenView>, from: int, to: int) -> bool {
    forall|j: int|
        from <= j < to ==> (#[trigger] toks[j]).kind == TokenKind::Newline || toks[j].kind
            == TokenKind::Indent || toks[j].kind == TokenKind::Dedent
}

// ---------------------------------------------------------------------------
// The grammar
// ---------------------------------------------------------------------------

/// The tokens from `lo` up to `hi` are the expression `e`, at `level` or a tighter one. Brackets
/// stand up to `d` deep around one another.
pub open spec fn reads(
    toks: Seq<TokenView>,
    ast: AstView,
    lo: int,
    hi: int,
    e: ExprId,
    level: int,
    d: nat,
) -> bool
    decreases e.0, d, 3int, 0int,
{
    &&& e.0 < ast.nodes.len()
    &&& {
        ||| reads_node(toks, ast, lo, hi, e, level, d)
        ||| d > 0 && toks[lo].kind == TokenKind::LParen && toks[hi - 1].kind == TokenKind::RParen
            && reads(toks, ast, lo + 1, hi - 1, e, 0, (d - 1) as nat)
    }
}

/// The same without brackets around the whole.
pub open spec fn reads_node(
    toks: Seq<TokenView>,
    ast: AstView,
    lo: int,
    hi: int,
    e: ExprId,
    level: int,
    d: nat,
) -> bool
    decreases e.0, d, 2int, 0int,
{
    match ast.nodes[e.0 as int] {
        NodeView::Bin(op, l, r) => l.0 < e.0 && r.0 < e.0 && {
            ||| exists|k: int|
                {
                    let kind = (#[trigger] toks[k]).kind;
                    &&& binary(kind) matches Some((at, operation)) && {
                        &&& operation == op
                        &&& at >= level
                        &&& reads(toks, ast, lo, k, l, at, d)
                        &&& reads(toks, ast, k + 1, hi, r, at + 1, d)
                    }
                }
            ||| op == BinOp::Pow && level <= 9 && exists|k: int|
                {
                    &&& (#[trigger] toks[k]).kind == TokenKind::Caret
                    &&& reads(toks, ast, lo, k, l, 10, d)
                    &&& reads(toks, ast, k + 1, hi, r, 8, d)
                }
            ||| level <= 4 && reads_chain(toks, ast, lo, hi, e, d)
        },
        NodeView::Unary(op, x) => {
            &&& x.0 < e.0
            &&& level <= 8
            &&& toks[lo].kind == if op == UnOp::Neg {
                TokenKind::Minus
            } else {
                TokenKind::KwNot
            }
            &&& reads(toks, ast, lo + 1, hi, x, 8, d)
        },
        NodeView::Membership(_, _) => level <= 4 && reads_member(toks, ast, lo, hi, e, d),
        NodeView::Range(start, stop, step, kind) => {
            &&& start.0 < e.0 && stop.0 < e.0
            &&& level <= 5
            &&& exists|k: int|
                {
                    &&& ranging((#[trigger] toks[k]).kind) == Some(kind)
                    &&& reads(toks, ast, lo, k, start, 5, d)
                    &&& match step {
                        None => reads(toks, ast, k + 1, hi, stop, 6, d),
                        Some(by) => by.0 < e.0 && exists|m: int|
                            {
                                &&& (#[trigger] toks[m]).kind == TokenKind::Colon
                                &&& reads(toks, ast, k + 1, m, stop, 6, d)
                                &&& reads(toks, ast, m + 1, hi, by, 6, d)
                            },
                    }
                }
        },
        NodeView::Index(array, index) => {
            &&& array.0 < e.0 && index.0 < e.0
            &&& level <= 10
            &&& toks[hi - 1].kind == TokenKind::RBracket
            &&& exists|k: int|
                {
                    &&& (#[trigger] toks[k]).kind == TokenKind::LBracket
                    &&& reads(toks, ast, lo, k, array, 10, d)
                    &&& reads_selector(toks, ast, k + 1, hi - 1, index, d)
                }
        },
        NodeView::Index2D(matrix, row, col) => {
            &&& matrix.0 < e.0 && row.0 < e.0 && col.0 < e.0
            &&& level <= 10
            &&& toks[hi - 1].kind == TokenKind::RBracket
            &&& exists|k: int, m: int|
                {
                    &&& (#[trigger] toks[k]).kind == TokenKind::LBracket
                    &&& (#[trigger] toks[m]).kind == TokenKind::Comma
                    &&& reads(toks, ast, lo, k, matrix, 10, d)
                    &&& reads_selector(toks, ast, k + 1, m, row, d)
                    &&& reads_selector(toks, ast, m + 1, hi - 1, col, d)
                }
        },
        NodeView::Member(object, member) => {
            &&& object.0 < e.0
            &&& level <= 10
            &&& spelled(ast, member, toks[hi - 1])
            &&& toks[hi - 2].kind == TokenKind::Dot
            &&& toks[hi - 1].kind == TokenKind::Identifier
            &&& reads(toks, ast, lo, hi - 2, object, 10, d)
        },
        NodeView::If(arms, else_block) => {
            ||| toks[lo].kind == TokenKind::KwIf
            ||| level <= 0 && reads_conditional(toks, ast, lo, hi, e, d)
        },
        NodeView::Call(callee, args) => {
            &&& toks[lo].kind == TokenKind::Identifier
            &&& spelled(ast, callee, toks[lo])
            &&& toks[lo + 1].kind == TokenKind::LParen
            &&& toks[hi - 1].kind == TokenKind::RParen
            &&& if args.len() == 0 {
                hi == lo + 3
            } else {
                reads_args(toks, ast, lo + 2, hi - 1, args, 0, e.0 as int, d)
            }
        },
        NodeView::Int(value) => hi == lo + 1 && toks[lo].kind == TokenKind::Int && int_literal(
            toks[lo].text,
        ) == Ok::<i64, crate::parser::grammar::ParseErrorView>(value),
        NodeView::Float(digits) => hi == lo + 1 && toks[lo].kind == TokenKind::Float && digits
            == without_separators(toks[lo].text),
        NodeView::Bool(value) => hi == lo + 1 && toks[lo].kind == if value {
            TokenKind::KwTrue
        } else {
            TokenKind::KwFalse
        },
        NodeView::Str(str_id) => hi == lo + 1 && toks[lo].kind == TokenKind::Str && quoted(
            ast,
            str_id,
            toks[lo],
        ),
        NodeView::FStr(_) => hi == lo + 1 && toks[lo].kind == TokenKind::FStr,
        NodeView::Var(sym_id) => hi == lo + 1 && toks[lo].kind == TokenKind::Identifier && spelled(
            ast,
            sym_id,
            toks[lo],
        ),
        NodeView::Global(sym_id) => hi == lo + 2 && toks[lo].kind == TokenKind::ColonColon
            && toks[lo + 1].kind == TokenKind::Identifier && spelled(ast, sym_id, toks[lo + 1]),
        NodeView::ArrayLiteral(_) | NodeView::MatrixLiteral(_) | NodeView::Comprehension(
            ..,
        ) => toks[lo].kind == TokenKind::LBracket,
        NodeView::FullExtent => false,
    }
}

/// A chain of comparisons: one, or a chain and one more whose left operand is the chain's last.
pub open spec fn reads_chain(
    toks: Seq<TokenView>,
    ast: AstView,
    lo: int,
    hi: int,
    e: ExprId,
    d: nat,
) -> bool
    decreases e.0, d, 1int, 0int,
{
    &&& e.0 < ast.nodes.len()
    &&& ast.nodes[e.0 as int] matches NodeView::Bin(op, l, r) && {
        &&& l.0 < e.0 && r.0 < e.0
        &&& exists|k: int|
            comparing((#[trigger] toks[k]).kind) matches Some(relation) && {
                ||| {
                    &&& op == relation
                    &&& reads(toks, ast, lo, k, l, 5, d) || reads_member(toks, ast, lo, k, l, d)
                    &&& reads(toks, ast, k + 1, hi, r, 5, d)
                }
                ||| {
                    &&& op == BinOp::And
                    &&& ast.nodes[r.0 as int] matches NodeView::Bin(last, middle, next) && {
                        &&& last == relation
                        &&& next.0 < e.0
                        &&& middle == chain_last(ast, l)
                        &&& way(relation) == chain_way(ast, l) && way(relation) != 0
                        &&& reads_chain(toks, ast, lo, k, l, d)
                        &&& reads(toks, ast, k + 1, hi, next, 5, d)
                    }
                }
            }
    }
}

/// `value in range`.
pub open spec fn reads_member(
    toks: Seq<TokenView>,
    ast: AstView,
    lo: int,
    hi: int,
    e: ExprId,
    d: nat,
) -> bool
    decreases e.0, d, 0int, 0int,
{
    &&& e.0 < ast.nodes.len()
    &&& ast.nodes[e.0 as int] matches NodeView::Membership(value, range) && {
        &&& value.0 < e.0 && range.0 < e.0
        &&& exists|k: int|
            {
                &&& (#[trigger] toks[k]).kind == TokenKind::KwIn
                &&& reads(toks, ast, lo, k, value, 4, d)
                &&& reads(toks, ast, k + 1, hi, range, 5, d)
            }
    }
}

/// One dimension of an index: a bare `:`, or an expression.
pub open spec fn reads_selector(
    toks: Seq<TokenView>,
    ast: AstView,
    lo: int,
    hi: int,
    e: ExprId,
    d: nat,
) -> bool
    decreases e.0, d, 4int, 0int,
{
    ||| e.0 < ast.nodes.len() && ast.nodes[e.0 as int] is FullExtent && hi == lo + 1
        && toks[lo].kind == TokenKind::Colon
    ||| reads(toks, ast, lo, hi, e, 0, d)
}

/// `value if cond else other`. Lines may end before the `else`.
pub open spec fn reads_conditional(
    toks: Seq<TokenView>,
    ast: AstView,
    lo: int,
    hi: int,
    e: ExprId,
    d: nat,
) -> bool
    decreases e.0, d, 0int, 0int,
{
    ast.nodes[e.0 as int] matches NodeView::If(arms, Some(last)) && arms.len() == 1 && (
    arms[0].body.result matches Some(value) && last.result matches Some(other) && {
        let cond = arms[0].cond;
        &&& arms[0].body.stmts.len() == 0 && last.stmts.len() == 0
        &&& value.0 < e.0 && cond.0 < e.0 && other.0 < e.0
        &&& exists|k: int, m: int, n: int|
            {
                &&& (#[trigger] toks[k]).kind == TokenKind::KwIf
                &&& (#[trigger] toks[n]).kind == TokenKind::KwElse
                &&& #[trigger] wraps(toks, m, n)
                &&& reads(toks, ast, lo, k, value, 1, d)
                &&& reads(toks, ast, k + 1, m, cond, 0, d)
                &&& reads(toks, ast, n + 1, hi, other, 0, d)
            }
    })
}

/// The arguments of a call from the one at `from` on, with commas between them.
pub open spec fn reads_args(
    toks: Seq<TokenView>,
    ast: AstView,
    lo: int,
    hi: int,
    args: Seq<ExprId>,
    from: int,
    limit: int,
    d: nat,
) -> bool
    decreases limit, d, 1int, args.len() - from,
{
    &&& 0 <= from < args.len()
    &&& args[from].0 < limit
    &&& if from == args.len() - 1 {
        reads(toks, ast, lo, hi, args[from], 0, d)
    } else {
        exists|k: int|
            {
                &&& (#[trigger] toks[k]).kind == TokenKind::Comma
                &&& reads(toks, ast, lo, k, args[from], 0, d)
                &&& reads_args(toks, ast, k + 1, hi, args, from + 1, limit, d)
            }
    }
}

// ---------------------------------------------------------------------------
// What is read stays as it is when more is read
// ---------------------------------------------------------------------------

/// More has been read: the nodes, the names and the string constants go on from those there were.
pub open spec fn further(a: AstView, b: AstView) -> bool {
    grown(a, b) && texts_kept(a, b)
}

/// A name that has been entered is the one that was asked for.
pub proof fn lemma_interned(st: ParseState, token: TokenView)
    ensures
        ({
            let (s1, sym_id) = intern(st, token.text);
            &&& spelled(s1.ast, sym_id, token)
            &&& texts_kept(st.ast, s1.ast)
            &&& s1.pos == st.pos
        }),
{
    let names = st.ast.names;
    if names.contains(token.text) {
        assert(names[names.index_of(token.text)] == token.text);
    }
}

pub proof fn lemma_reads(
    toks: Seq<TokenView>,
    a: AstView,
    b: AstView,
    lo: int,
    hi: int,
    e: ExprId,
    from: int,
    to: int,
    few: nat,
    many: nat,
)
    requires
        further(a, b),
        reads(toks, a, lo, hi, e, from, few),
        to <= from,
        few <= many,
    ensures
        reads(toks, b, lo, hi, e, to, many),
    decreases e.0, few, 3int, 0int,
{
    assert(b.nodes[e.0 as int] == a.nodes[e.0 as int]);
    if reads_node(toks, a, lo, hi, e, from, few) {
        lemma_reads_node(toks, a, b, lo, hi, e, from, to, few, many);
    } else {
        lemma_reads(
            toks,
            a,
            b,
            lo + 1,
            hi - 1,
            e,
            0,
            0,
            (few - 1) as nat,
            (many - 1) as nat,
        );
    }
}

proof fn lemma_reads_node(
    toks: Seq<TokenView>,
    a: AstView,
    b: AstView,
    lo: int,
    hi: int,
    e: ExprId,
    from: int,
    to: int,
    few: nat,
    many: nat,
)
    requires
        further(a, b),
        e.0 < a.nodes.len(),
        reads_node(toks, a, lo, hi, e, from, few),
        to <= from,
        few <= many,
    ensures
        reads_node(toks, b, lo, hi, e, to, many),
    decreases e.0, few, 2int, 0int,
{
    assert(b.nodes[e.0 as int] == a.nodes[e.0 as int]);
    match a.nodes[e.0 as int] {
        NodeView::Bin(op, l, r) => {
            if exists|k: int|
                {
                    let kind = (#[trigger] toks[k]).kind;
                    &&& binary(kind) matches Some((at, operation)) && {
                        &&& operation == op
                        &&& at >= from
                        &&& reads(toks, a, lo, k, l, at, few)
                        &&& reads(toks, a, k + 1, hi, r, at + 1, few)
                    }
                } {
                let k = choose|k: int|
                    {
                        let kind = (#[trigger] toks[k]).kind;
                        &&& binary(kind) matches Some((at, operation)) && {
                            &&& operation == op
                            &&& at >= from
                            &&& reads(toks, a, lo, k, l, at, few)
                            &&& reads(toks, a, k + 1, hi, r, at + 1, few)
                        }
                    };
                let at = level_at(toks[k].kind);
                lemma_reads(toks, a, b, lo, k, l, at, at, few, many);
                lemma_reads(toks, a, b, k + 1, hi, r, at + 1, at + 1, few, many);
                assert(toks[k] == toks[k]);
            } else if op == BinOp::Pow && from <= 9 && exists|k: int|
                {
                    &&& (#[trigger] toks[k]).kind == TokenKind::Caret
                    &&& reads(toks, a, lo, k, l, 10, few)
                    &&& reads(toks, a, k + 1, hi, r, 8, few)
                } {
                let k = choose|k: int|
                    {
                        &&& (#[trigger] toks[k]).kind == TokenKind::Caret
                        &&& reads(toks, a, lo, k, l, 10, few)
                        &&& reads(toks, a, k + 1, hi, r, 8, few)
                    };
                lemma_reads(toks, a, b, lo, k, l, 10, 10, few, many);
                lemma_reads(toks, a, b, k + 1, hi, r, 8, 8, few, many);
                assert(toks[k] == toks[k]);
            } else {
                lemma_reads_chain(toks, a, b, lo, hi, e, few, many);
            }
        },
        NodeView::Unary(op, x) => {
            lemma_reads(toks, a, b, lo + 1, hi, x, 8, 8, few, many);
        },
        NodeView::Membership(_, _) => {
            lemma_reads_member(toks, a, b, lo, hi, e, few, many);
        },
        NodeView::Range(start, stop, step, kind) => {
            let k = choose|k: int|
                {
                    &&& ranging((#[trigger] toks[k]).kind) == Some(kind)
                    &&& reads(toks, a, lo, k, start, 5, few)
                    &&& match step {
                        None => reads(toks, a, k + 1, hi, stop, 6, few),
                        Some(by) => by.0 < e.0 && exists|m: int|
                            {
                                &&& (#[trigger] toks[m]).kind == TokenKind::Colon
                                &&& reads(toks, a, k + 1, m, stop, 6, few)
                                &&& reads(toks, a, m + 1, hi, by, 6, few)
                            },
                    }
                };
            lemma_reads(toks, a, b, lo, k, start, 5, 5, few, many);
            match step {
                None => {
                    lemma_reads(toks, a, b, k + 1, hi, stop, 6, 6, few, many);
                },
                Some(by) => {
                    let m = choose|m: int|
                        {
                            &&& (#[trigger] toks[m]).kind == TokenKind::Colon
                            &&& reads(toks, a, k + 1, m, stop, 6, few)
                            &&& reads(toks, a, m + 1, hi, by, 6, few)
                        };
                    lemma_reads(toks, a, b, k + 1, m, stop, 6, 6, few, many);
                    lemma_reads(toks, a, b, m + 1, hi, by, 6, 6, few, many);
                    assert(toks[m] == toks[m]);
                },
            }
            assert(toks[k] == toks[k]);
        },
        NodeView::Index(array, index) => {
            let k = choose|k: int|
                {
                    &&& (#[trigger] toks[k]).kind == TokenKind::LBracket
                    &&& reads(toks, a, lo, k, array, 10, few)
                    &&& reads_selector(toks, a, k + 1, hi - 1, index, few)
                };
            lemma_reads(toks, a, b, lo, k, array, 10, 10, few, many);
            lemma_reads_selector(toks, a, b, k + 1, hi - 1, index, few, many);
            assert(toks[k] == toks[k]);
        },
        NodeView::Index2D(matrix, row, col) => {
            let (k, m) = choose|k: int, m: int|
                {
                    &&& (#[trigger] toks[k]).kind == TokenKind::LBracket
                    &&& (#[trigger] toks[m]).kind == TokenKind::Comma
                    &&& reads(toks, a, lo, k, matrix, 10, few)
                    &&& reads_selector(toks, a, k + 1, m, row, few)
                    &&& reads_selector(toks, a, m + 1, hi - 1, col, few)
                };
            lemma_reads(toks, a, b, lo, k, matrix, 10, 10, few, many);
            lemma_reads_selector(toks, a, b, k + 1, m, row, few, many);
            lemma_reads_selector(toks, a, b, m + 1, hi - 1, col, few, many);
            assert(toks[k] == toks[k] && toks[m] == toks[m]);
        },
        NodeView::Member(object, _) => {
            lemma_reads(toks, a, b, lo, hi - 2, object, 10, 10, few, many);
        },
        NodeView::If(arms, else_block) => {
            if toks[lo].kind != TokenKind::KwIf {
                lemma_reads_conditional(toks, a, b, lo, hi, e, few, many);
            }
        },
        NodeView::Call(_, args) => {
            if args.len() > 0 {
                lemma_reads_args(toks, a, b, lo + 2, hi - 1, args, 0, e.0 as int, few, many);
            }
        },
        _ => {},
    }
}

proof fn lemma_reads_chain(
    toks: Seq<TokenView>,
    a: AstView,
    b: AstView,
    lo: int,
    hi: int,
    e: ExprId,
    few: nat,
    many: nat,
)
    requires
        further(a, b),
        reads_chain(toks, a, lo, hi, e, few),
        few <= many,
    ensures
        reads_chain(toks, b, lo, hi, e, many),
        chain_last(b, e) == chain_last(a, e),
        chain_way(b, e) == chain_way(a, e),
    decreases e.0, few, 1int, 0int,
{
    let (op, l, r) = match a.nodes[e.0 as int] {
        NodeView::Bin(op, l, r) => (op, l, r),
        _ => (BinOp::And, e, e),
    };
    assert(b.nodes[e.0 as int] == a.nodes[e.0 as int]);
    assert(b.nodes[l.0 as int] == a.nodes[l.0 as int]);
    assert(b.nodes[r.0 as int] == a.nodes[r.0 as int]);
    let k = choose|k: int|
        comparing((#[trigger] toks[k]).kind) matches Some(relation) && {
            ||| {
                &&& op == relation
                &&& reads(toks, a, lo, k, l, 5, few) || reads_member(toks, a, lo, k, l, few)
                &&& reads(toks, a, k + 1, hi, r, 5, few)
            }
            ||| {
                &&& op == BinOp::And
                &&& a.nodes[r.0 as int] matches NodeView::Bin(last, middle, next) && {
                    &&& last == relation
                    &&& next.0 < e.0
                    &&& middle == chain_last(a, l)
                    &&& way(relation) == chain_way(a, l) && way(relation) != 0
                    &&& reads_chain(toks, a, lo, k, l, few)
                    &&& reads(toks, a, k + 1, hi, next, 5, few)
                }
            }
        };
    if op == BinOp::And {
        let next = a.nodes[r.0 as int]->Bin_2;
        lemma_reads_chain(toks, a, b, lo, k, l, few, many);
        lemma_reads(toks, a, b, k + 1, hi, next, 5, 5, few, many);
    } else {
        if reads(toks, a, lo, k, l, 5, few) {
            lemma_reads(toks, a, b, lo, k, l, 5, 5, few, many);
        } else {
            lemma_reads_member(toks, a, b, lo, k, l, few, many);
        }
        lemma_reads(toks, a, b, k + 1, hi, r, 5, 5, few, many);
    }
    assert(toks[k] == toks[k]);
}

proof fn lemma_reads_member(
    toks: Seq<TokenView>,
    a: AstView,
    b: AstView,
    lo: int,
    hi: int,
    e: ExprId,
    few: nat,
    many: nat,
)
    requires
        further(a, b),
        reads_member(toks, a, lo, hi, e, few),
        few <= many,
    ensures
        reads_member(toks, b, lo, hi, e, many),
    decreases e.0, few, 0int, 0int,
{
    assert(b.nodes[e.0 as int] == a.nodes[e.0 as int]);
    if let NodeView::Membership(value, range) = a.nodes[e.0 as int] {
        let k = choose|k: int|
            {
                &&& (#[trigger] toks[k]).kind == TokenKind::KwIn
                &&& reads(toks, a, lo, k, value, 4, few)
                &&& reads(toks, a, k + 1, hi, range, 5, few)
            };
        lemma_reads(toks, a, b, lo, k, value, 4, 4, few, many);
        lemma_reads(toks, a, b, k + 1, hi, range, 5, 5, few, many);
        assert(toks[k] == toks[k]);
    }
}

proof fn lemma_reads_selector(
    toks: Seq<TokenView>,
    a: AstView,
    b: AstView,
    lo: int,
    hi: int,
    e: ExprId,
    few: nat,
    many: nat,
)
    requires
        further(a, b),
        reads_selector(toks, a, lo, hi, e, few),
        few <= many,
    ensures
        reads_selector(toks, b, lo, hi, e, many),
    decreases e.0, few, 4int, 0int,
{
    if reads(toks, a, lo, hi, e, 0, few) {
        lemma_reads(toks, a, b, lo, hi, e, 0, 0, few, many);
    } else {
        assert(b.nodes[e.0 as int] == a.nodes[e.0 as int]);
    }
}

proof fn lemma_reads_conditional(
    toks: Seq<TokenView>,
    a: AstView,
    b: AstView,
    lo: int,
    hi: int,
    e: ExprId,
    few: nat,
    many: nat,
)
    requires
        further(a, b),
        e.0 < a.nodes.len(),
        reads_conditional(toks, a, lo, hi, e, few),
        few <= many,
    ensures
        reads_conditional(toks, b, lo, hi, e, many),
    decreases e.0, few, 0int, 0int,
{
    assert(b.nodes[e.0 as int] == a.nodes[e.0 as int]);
    if let NodeView::If(arms, Some(last)) = a.nodes[e.0 as int] {
        let value = arms[0].body.result->0;
        let cond = arms[0].cond;
        let other = last.result->0;
        let (k, m, n) = choose|k: int, m: int, n: int|
            {
                &&& (#[trigger] toks[k]).kind == TokenKind::KwIf
                &&& (#[trigger] toks[n]).kind == TokenKind::KwElse
                &&& #[trigger] wraps(toks, m, n)
                &&& reads(toks, a, lo, k, value, 1, few)
                &&& reads(toks, a, k + 1, m, cond, 0, few)
                &&& reads(toks, a, n + 1, hi, other, 0, few)
            };
        lemma_reads(toks, a, b, lo, k, value, 1, 1, few, many);
        lemma_reads(toks, a, b, k + 1, m, cond, 0, 0, few, many);
        lemma_reads(toks, a, b, n + 1, hi, other, 0, 0, few, many);
        assert(toks[k] == toks[k] && toks[n] == toks[n] && wraps(toks, m, n));
    }
}

proof fn lemma_reads_args(
    toks: Seq<TokenView>,
    a: AstView,
    b: AstView,
    lo: int,
    hi: int,
    args: Seq<ExprId>,
    from: int,
    limit: int,
    few: nat,
    many: nat,
)
    requires
        further(a, b),
        reads_args(toks, a, lo, hi, args, from, limit, few),
        few <= many,
    ensures
        reads_args(toks, b, lo, hi, args, from, limit, many),
    decreases limit, few, 1int, args.len() - from,
{
    if from == args.len() - 1 {
        lemma_reads(toks, a, b, lo, hi, args[from], 0, 0, few, many);
    } else {
        let k = choose|k: int|
            {
                &&& (#[trigger] toks[k]).kind == TokenKind::Comma
                &&& reads(toks, a, lo, k, args[from], 0, few)
                &&& reads_args(toks, a, k + 1, hi, args, from + 1, limit, few)
            };
        lemma_reads(toks, a, b, lo, k, args[from], 0, 0, few, many);
        lemma_reads_args(toks, a, b, k + 1, hi, args, from + 1, limit, few, many);
        assert(toks[k] == toks[k]);
    }
}

// ---------------------------------------------------------------------------
// Binding powers and levels
// ---------------------------------------------------------------------------

/// The power with which an operator binds what stands before it; -1 for what is no operator.
pub open spec fn power(kind: TokenKind) -> int {
    if kind == TokenKind::KwIf {
        CONDITIONAL_BP as int
    } else if comparison_op(kind) is Some {
        COMPARISON_BP as int
    } else if range_kind(kind) is Some {
        RANGE_BP as int
    } else if kind == TokenKind::KwIn {
        MEMBERSHIP_BP as int
    } else if kind == TokenKind::LBracket || kind == TokenKind::Dot {
        POSTFIX_BP as int
    } else {
        match infix(kind) {
            Some((left, _, _)) => left as int,
            None => -1,
        }
    }
}

/// The loosest level of what is parsed with at least this power.
pub open spec fn loosest(min_bp: int) -> int {
    if min_bp <= 10 {
        0
    } else if min_bp <= 20 {
        1
    } else if min_bp <= 25 {
        2
    } else if min_bp <= 30 {
        3
    } else if min_bp <= 45 {
        4
    } else if min_bp <= 50 {
        5
    } else if min_bp <= 60 {
        6
    } else if min_bp <= 70 {
        7
    } else {
        8
    }
}

/// What has been read can stand before the next token, where that is an operator.
pub open spec fn fits(
    toks: Seq<TokenView>,
    ast: AstView,
    lo: int,
    hi: int,
    e: ExprId,
    d: nat,
) -> bool {
    let kind = toks[hi].kind;
    if comparing(kind) is Some {
        reads(toks, ast, lo, hi, e, 5, d) || reads_member(toks, ast, lo, hi, e, d)
    } else {
        takes(kind) matches Some(level) ==> reads(toks, ast, lo, hi, e, level, d)
    }
}

/// What stands at its own level can stand before every operator that binds no tighter.
proof fn lemma_fits(
    toks: Seq<TokenView>,
    ast: AstView,
    lo: int,
    hi: int,
    e: ExprId,
    own: int,
    d: nat,
)
    requires
        reads(toks, ast, lo, hi, e, own, d),
        takes(toks[hi].kind) matches Some(level) ==> level <= own,
        comparing(toks[hi].kind) is Some ==> own >= 5,
    ensures
        fits(toks, ast, lo, hi, e, d),
{
    let kind = toks[hi].kind;
    if comparing(kind) is Some {
        lemma_reads(toks, ast, ast, lo, hi, e, own, 5, d, d);
    } else if let Some(level) = takes(kind) {
        lemma_reads(toks, ast, ast, lo, hi, e, own, level, d, d);
    }
}

/// What a construct that starts at `lo` leaves: an expression at this level, behind which no
/// operator stands that binds at least this tight.
pub open spec fn derives(
    toks: Seq<TokenView>,
    before: AstView,
    lo: int,
    r: Parsed<ExprId>,
    level: int,
    d: nat,
    bound: int,
) -> bool {
    r matches Ok((s1, e)) ==> {
        &&& continues(before, s1.ast)
        &&& sound(s1.ast)
        &&& small(s1.ast) ==> reads(toks, s1.ast, lo, s1.pos, e, level, d)
        &&& power(toks[s1.pos].kind) < bound
    }
}

/// The same of an operator's outcome, which can stand before what follows.
pub open spec fn folds(
    toks: Seq<TokenView>,
    before: AstView,
    lo: int,
    r: Parsed<ExprId>,
    level: int,
    d: nat,
) -> bool {
    r matches Ok((s1, e)) ==> {
        &&& continues(before, s1.ast)
        &&& sound(s1.ast)
        &&& small(s1.ast) ==> reads(toks, s1.ast, lo, s1.pos, e, level, d) && fits(
            toks,
            s1.ast,
            lo,
            s1.pos,
            e,
            d,
        )
    }
}

pub proof fn lemma_derived(toks: Seq<TokenView>, depth: nat, st: ParseState, min_bp: u8)
    requires
        sound(st.ast),
        min_bp <= 80,
        depth <= 256,
    ensures
        derives(
            toks,
            st.ast,
            st.pos,
            expr(toks, depth, st, min_bp),
            loosest(min_bp as int),
            (257 - depth) as nat,
            min_bp as int,
        ),
    decreases 257 - depth, 0int, 0int,
{
    unfold_expr(toks, depth, st, min_bp);
    if depth < MAX_NESTING_DEPTH {
        lemma_prefix_derived(toks, depth + 1, st);
        if let Ok((s1, lhs)) = prefix(toks, depth + 1, st) {
            if small(s1.ast) {
                lemma_reads(
                    toks,
                    s1.ast,
                    s1.ast,
                    st.pos,
                    s1.pos,
                    lhs,
                    8,
                    loosest(min_bp as int),
                    (257 - depth) as nat,
                    (257 - depth) as nat,
                );
            }
            lemma_operators_derived(
                toks,
                depth + 1,
                s1,
                toks[st.pos].col,
                min_bp,
                lhs,
                st.pos,
            );
        }
    }
}

proof fn lemma_operators_derived(
    toks: Seq<TokenView>,
    depth: nat,
    st: ParseState,
    start_col: int,
    min_bp: u8,
    lhs: ExprId,
    lo: int,
)
    requires
        sound(st.ast),
        min_bp <= 80,
        1 <= depth <= 256,
        small(st.ast) ==> reads(
            toks,
            st.ast,
            lo,
            st.pos,
            lhs,
            loosest(min_bp as int),
            (258 - depth) as nat,
        ) && fits(toks, st.ast, lo, st.pos, lhs, (258 - depth) as nat),
    ensures
        derives(
            toks,
            st.ast,
            lo,
            operators(toks, depth, st, start_col, min_bp, lhs),
            loosest(min_bp as int),
            (258 - depth) as nat,
            min_bp as int,
        ),
    decreases 257 - depth, 9int, toks.len() - st.pos,
{
    unfold_operators(toks, depth, st, start_col, min_bp, lhs);
    lemma_operator_derived(toks, depth, st, start_col, min_bp, lhs, lo);
    if let Some(Ok((s1, folded))) = operator(toks, depth, st, start_col, min_bp, lhs) {
        if moved(toks, st, s1) {
            lemma_operators_derived(toks, depth, s1, start_col, min_bp, folded, lo);
        }
    }
}

/// A node over operands that have been read.
pub proof fn lemma_pushed(
    toks: Seq<TokenView>,
    before: AstView,
    st: ParseState,
    node: NodeView,
    start: u32,
)
    requires
        continues(before, st.ast),
        sound(st.ast),
        small(st.ast) ==> (node matches NodeView::Bin(_, l, r) ==> l.0 < st.ast.nodes.len() && r.0
            < st.ast.nodes.len()),
    ensures
        ({
            let (s1, id) = push(toks, st, node, start);
            &&& continues(before, s1.ast)
            &&& continues(st.ast, s1.ast)
            &&& sound(s1.ast)
            &&& s1.pos == st.pos
            &&& s1.ast.nodes == st.ast.nodes.push(node)
            &&& small(s1.ast) ==> small(st.ast) && id.0 == st.ast.nodes.len()
                && s1.ast.nodes[id.0 as int] == node
        }),
{
    lemma_push(toks, st, node, start);
    let (s1, id) = push(toks, st, node, start);
    assert forall|i: int| 0 <= i < before.nodes.len() implies #[trigger] s1.ast.nodes[i]
        == before.nodes[i] by {
        assert(st.ast.nodes[i] == before.nodes[i]);
    }
}

proof fn lemma_operator_derived(
    toks: Seq<TokenView>,
    depth: nat,
    st: ParseState,
    start_col: int,
    min_bp: u8,
    lhs: ExprId,
    lo: int,
)
    requires
        sound(st.ast),
        min_bp <= 80,
        1 <= depth <= 256,
        small(st.ast) ==> reads(
            toks,
            st.ast,
            lo,
            st.pos,
            lhs,
            loosest(min_bp as int),
            (258 - depth) as nat,
        ) && fits(toks, st.ast, lo, st.pos, lhs, (258 - depth) as nat),
    ensures
        operator(toks, depth, st, start_col, min_bp, lhs) matches Some(r) ==> folds(
            toks,
            st.ast,
            lo,
            r,
            loosest(min_bp as int),
            (258 - depth) as nat,
        ),
        operator(toks, depth, st, start_col, min_bp, lhs) is None ==> power(toks[st.pos].kind)
            < min_bp,
    decreases 257 - depth, 8int, 0int,
{
    unfold_operator(toks, depth, st, start_col, min_bp, lhs);
    let kind = toks[st.pos].kind;
    let d = (258 - depth) as nat;
    let least = loosest(min_bp as int);
    if kind == TokenKind::KwIf && CONDITIONAL_BP >= min_bp {
        lemma_conditional_derived(toks, depth, st, lhs, start_col, lo);
    } else if comparison_op(kind) is Some && COMPARISON_BP >= min_bp {
        lemma_comparisons_derived(toks, depth, st, lhs, Seq::empty(), None, lo);
        if let Ok((s1, (chained, e))) = comparisons(toks, depth, st, lhs, Seq::empty(), None) {
            if crate::parser::grammar::monotonic(chained) && small(s1.ast) {
                assert(reads_chain(toks, s1.ast, lo, s1.pos, e, d));
                assert(reads_node(toks, s1.ast, lo, s1.pos, e, 4, d));
                lemma_reads(toks, s1.ast, s1.ast, lo, s1.pos, e, 4, least, d, d);
                lemma_fits(toks, s1.ast, lo, s1.pos, e, 4, d);
            }
        }
    } else if range_kind(kind) is Some && RANGE_BP >= min_bp {
        lemma_range_derived(toks, depth, st, lhs, range_kind(kind)->0, lo);
        if let Ok((s1, e)) = range_tail(toks, depth, st, lhs, range_kind(kind)->0) {
            if small(s1.ast) {
                lemma_reads(toks, s1.ast, s1.ast, lo, s1.pos, e, 5, least, d, d);
                lemma_fits(toks, s1.ast, lo, s1.pos, e, 5, d);
            }
        }
    } else if kind == TokenKind::KwIn && MEMBERSHIP_BP >= min_bp {
        lemma_derived(toks, depth, advanced(st), 46);
        if let Ok((s1, range)) = expr(toks, depth, advanced(st), 46) {
            let node = NodeView::Membership(lhs, range);
            lemma_pushed(toks, st.ast, s1, node, start_of(s1, lhs));
            let (s2, e) = push(toks, s1, node, start_of(s1, lhs));
            if small(s2.ast) {
                lemma_reads(toks, st.ast, s2.ast, lo, st.pos, lhs, 4, 4, d, d);
                lemma_reads(
                    toks,
                    s1.ast,
                    s2.ast,
                    st.pos + 1,
                    s1.pos,
                    range,
                    5,
                    5,
                    (d - 1) as nat,
                    d,
                );
                assert(toks[st.pos].kind == TokenKind::KwIn);
                assert(reads_member(toks, s2.ast, lo, s2.pos, e, d));
                assert(reads_node(toks, s2.ast, lo, s2.pos, e, 4, d));
                lemma_reads(toks, s2.ast, s2.ast, lo, s2.pos, e, 4, least, d, d);
                if comparing(toks[s2.pos].kind) is None {
                    lemma_fits(toks, s2.ast, lo, s2.pos, e, 4, d);
                }
            }
        }
    } else if kind == TokenKind::LBracket && POSTFIX_BP >= min_bp {
        lemma_index_derived(toks, depth, st, lhs, lo);
        if let Ok((s1, e)) = index_tail(toks, depth, st, lhs) {
            if small(s1.ast) {
                lemma_reads(toks, s1.ast, s1.ast, lo, s1.pos, e, 10, least, d, d);
                lemma_fits(toks, s1.ast, lo, s1.pos, e, 10, d);
            }
        }
    } else if kind == TokenKind::Dot && POSTFIX_BP >= min_bp {
        if let Ok((s1, name)) = expect(toks, advanced(st), TokenKind::Identifier) {
            let (s2, member) = intern(s1, name.text);
            let node = NodeView::Member(lhs, member);
            lemma_interned(s1, name);
            assert(continues(st.ast, s2.ast) && sound(s2.ast));
            lemma_pushed(toks, st.ast, s2, node, start_of(s2, lhs));
            let (s3, e) = push(toks, s2, node, start_of(s2, lhs));
            if small(s3.ast) {
                lemma_reads(toks, st.ast, s3.ast, lo, st.pos, lhs, 10, 10, d, d);
                assert(reads_node(toks, s3.ast, lo, s3.pos, e, 10, d));
                lemma_reads(toks, s3.ast, s3.ast, lo, s3.pos, e, 10, least, d, d);
                lemma_fits(toks, s3.ast, lo, s3.pos, e, 10, d);
            }
        }
    } else if let Some((left_bp, right_bp, op)) = infix(kind) {
        if left_bp >= min_bp {
            lemma_binary_derived(toks, depth, st, lhs, lo);
            if let Ok((s1, rhs)) = expr(toks, depth, advanced(st), right_bp) {
                let (s2, e) = push(toks, s1, NodeView::Bin(op, lhs, rhs), start_of(s1, lhs));
                if small(s2.ast) {
                    let own = if op == BinOp::Pow {
                        9
                    } else {
                        level_at(kind)
                    };
                    lemma_reads(toks, s2.ast, s2.ast, lo, s2.pos, e, own, least, d, d);
                    lemma_fits(toks, s2.ast, lo, s2.pos, e, own, d);
                }
            }
        }
    }
}

/// An ordinary binary operator and its right operand.
proof fn lemma_binary_derived(
    toks: Seq<TokenView>,
    depth: nat,
    st: ParseState,
    lhs: ExprId,
    lo: int,
)
    requires
        sound(st.ast),
        1 <= depth <= 256,
        infix(toks[st.pos].kind) is Some,
        small(st.ast) ==> lhs.0 < st.ast.nodes.len() && fits(
            toks,
            st.ast,
            lo,
            st.pos,
            lhs,
            (258 - depth) as nat,
        ),
    ensures
        ({
            let kind = toks[st.pos].kind;
            let (left_bp, right_bp, op) = infix(kind)->0;
            let d = (258 - depth) as nat;
            expr(toks, depth, advanced(st), right_bp) matches Ok((s1, rhs)) ==> {
                let (s2, e) = push(toks, s1, NodeView::Bin(op, lhs, rhs), start_of(s1, lhs));
                &&& continues(st.ast, s2.ast)
                &&& sound(s2.ast)
                &&& small(s2.ast) ==> reads(
                    toks,
                    s2.ast,
                    lo,
                    s2.pos,
                    e,
                    if op == BinOp::Pow {
                        9
                    } else {
                        level_at(kind)
                    },
                    d,
                )
                &&& power(toks[s2.pos].kind) < right_bp
            }
        }),
    decreases 257 - depth, 7int, 0int,
{
    let kind = toks[st.pos].kind;
    let (left_bp, right_bp, op) = infix(kind)->0;
    let d = (258 - depth) as nat;
    lemma_derived(toks, depth, advanced(st), right_bp);
    if let Ok((s1, rhs)) = expr(toks, depth, advanced(st), right_bp) {
        let node = NodeView::Bin(op, lhs, rhs);
        lemma_pushed(toks, st.ast, s1, node, start_of(s1, lhs));
        let (s2, e) = push(toks, s1, node, start_of(s1, lhs));
        if small(s2.ast) {
            let right = loosest(right_bp as int);
            let left = if op == BinOp::Pow {
                10
            } else {
                level_at(kind)
            };
            assert(op != BinOp::Pow ==> right == left + 1);
            lemma_reads(toks, st.ast, s2.ast, lo, st.pos, lhs, left, left, d, d);
            lemma_reads(
                toks,
                s1.ast,
                s2.ast,
                st.pos + 1,
                s1.pos,
                rhs,
                right,
                right,
                (d - 1) as nat,
                d,
            );
            assert(toks[st.pos].kind == kind);
            let own = if op == BinOp::Pow {
                9
            } else {
                left
            };
            assert(reads_node(toks, s2.ast, lo, s2.pos, e, own, d));
        }
    }
}

proof fn lemma_index_derived(
    toks: Seq<TokenView>,
    depth: nat,
    st: ParseState,
    lhs: ExprId,
    lo: int,
)
    requires
        sound(st.ast),
        1 <= depth <= 256,
        toks[st.pos].kind == TokenKind::LBracket,
        small(st.ast) ==> reads(toks, st.ast, lo, st.pos, lhs, 10, (258 - depth) as nat),
    ensures
        index_tail(toks, depth, st, lhs) matches Ok((s1, e)) ==> {
            &&& continues(st.ast, s1.ast)
            &&& sound(s1.ast)
            &&& small(s1.ast) ==> reads(toks, s1.ast, lo, s1.pos, e, 10, (258 - depth) as nat)
        },
    decreases 257 - depth, 7int, 0int,
{
    let d = (258 - depth) as nat;
    let few = (d - 1) as nat;
    unfold_index_tail(toks, depth, st, lhs);
    lemma_selector_derived(toks, depth, advanced(st));
    if let Ok((s1, first)) = selector(toks, depth, advanced(st)) {
        if toks[s1.pos].kind == TokenKind::Comma {
            lemma_selector_derived(toks, depth, advanced(s1));
            if let Ok((s2, col)) = selector(toks, depth, advanced(s1)) {
                if let Ok((s3, _)) = expect(toks, s2, TokenKind::RBracket) {
                    let node = NodeView::Index2D(lhs, first, col);
                    assert(continues(st.ast, s3.ast));
                    lemma_pushed(toks, st.ast, s3, node, start_of(s3, lhs));
                    let (s4, e) = push(toks, s3, node, start_of(s3, lhs));
                    if small(s4.ast) {
                        lemma_reads(toks, st.ast, s4.ast, lo, st.pos, lhs, 10, 10, d, d);
                        lemma_reads_selector(
                            toks,
                            s1.ast,
                            s4.ast,
                            st.pos + 1,
                            s1.pos,
                            first,
                            few,
                            d,
                        );
                        lemma_reads_selector(
                            toks,
                            s2.ast,
                            s4.ast,
                            s1.pos + 1,
                            s2.pos,
                            col,
                            few,
                            d,
                        );
                        assert(toks[st.pos].kind == TokenKind::LBracket && toks[s1.pos].kind
                            == TokenKind::Comma);
                        assert(reads_node(toks, s4.ast, lo, s4.pos, e, 10, d));
                    }
                }
            }
        } else {
            if let Ok((s2, _)) = expect(toks, s1, TokenKind::RBracket) {
                let node = NodeView::Index(lhs, first);
                lemma_pushed(toks, st.ast, s2, node, start_of(s2, lhs));
                let (s3, e) = push(toks, s2, node, start_of(s2, lhs));
                if small(s3.ast) {
                    lemma_reads(toks, st.ast, s3.ast, lo, st.pos, lhs, 10, 10, d, d);
                    lemma_reads_selector(
                        toks,
                        s1.ast,
                        s3.ast,
                        st.pos + 1,
                        s1.pos,
                        first,
                        few,
                        d,
                    );
                    assert(toks[st.pos].kind == TokenKind::LBracket);
                    assert(reads_node(toks, s3.ast, lo, s3.pos, e, 10, d));
                }
            }
        }
    }
}

proof fn lemma_selector_derived(toks: Seq<TokenView>, depth: nat, st: ParseState)
    requires
        sound(st.ast),
        1 <= depth <= 256,
    ensures
        selector(toks, depth, st) matches Ok((s1, e)) ==> {
            &&& continues(st.ast, s1.ast)
            &&& sound(s1.ast)
            &&& small(s1.ast) ==> e.0 < s1.ast.nodes.len() && reads_selector(
                toks,
                s1.ast,
                st.pos,
                s1.pos,
                e,
                (257 - depth) as nat,
            )
        },
    decreases 257 - depth, 6int, 0int,
{
    unfold_selector(toks, depth, st);
    lemma_derived(toks, depth, st, 0);
    if toks[st.pos].kind == TokenKind::Colon && (toks[st.pos + 1].kind == TokenKind::Comma
        || toks[st.pos + 1].kind == TokenKind::RBracket) {
        lemma_pushed(
            toks,
            st.ast,
            advanced(st),
            NodeView::FullExtent,
            offset(toks, st.pos),
        );
    }
}

pub proof fn lemma_wrapped(toks: Seq<TokenView>, st: ParseState)
    ensures
        wraps(toks, st.pos, skip_wrapping(toks, st).pos),
        skip_wrapping(toks, st).ast == st.ast,
    decreases toks.len() - st.pos,
{
    if 0 <= st.pos < toks.len() && crate::parser::grammar::is_separator(toks[st.pos].kind) {
        lemma_wrapped(
            toks,
            ParseState {
                pos: st.pos + 1,
                pending: if toks[st.pos].kind == TokenKind::Indent {
                    st.pending + 1
                } else {
                    st.pending
                },
                ..st
            },
        );
    }
}

proof fn lemma_conditional_derived(
    toks: Seq<TokenView>,
    depth: nat,
    st: ParseState,
    lhs: ExprId,
    start_col: int,
    lo: int,
)
    requires
        sound(st.ast),
        1 <= depth <= 256,
        toks[st.pos].kind == TokenKind::KwIf,
        small(st.ast) ==> fits(toks, st.ast, lo, st.pos, lhs, (258 - depth) as nat),
    ensures
        folds(
            toks,
            st.ast,
            lo,
            conditional(toks, depth, st, lhs, start_col),
            0,
            (258 - depth) as nat,
        ),
    decreases 257 - depth, 7int, 0int,
{
    let d = (258 - depth) as nat;
    let few = (d - 1) as nat;
    unfold_conditional(toks, depth, st, lhs, start_col);
    lemma_derived(toks, depth, advanced(st), 0);
    if let Ok((s1, cond)) = expr(toks, depth, advanced(st), 0) {
        let s2 = skip_wrapping(toks, s1);
        lemma_wrapped(toks, s1);
        lemma_derived(toks, depth, advanced(s2), CONDITIONAL_BP);
        if toks[s2.pos].kind == TokenKind::KwElse {
            if let Ok((s3, other)) = expr(toks, depth, advanced(s2), CONDITIONAL_BP) {
                let arms = seq![IfArmView { cond, body: only_result(lhs) }];
                let node = NodeView::If(arms, Some(only_result(other)));
                assert(continues(st.ast, s3.ast));
                lemma_pushed(toks, st.ast, s3, node, start_of(s3, lhs));
                let (s4, e) = push(toks, s3, node, start_of(s3, lhs));
                if small(s4.ast) {
                    lemma_reads(toks, st.ast, s4.ast, lo, st.pos, lhs, 1, 1, d, d);
                    lemma_reads(
                        toks,
                        s1.ast,
                        s4.ast,
                        st.pos + 1,
                        s1.pos,
                        cond,
                        0,
                        0,
                        few,
                        d,
                    );
                    lemma_reads(
                        toks,
                        s3.ast,
                        s4.ast,
                        s2.pos + 1,
                        s3.pos,
                        other,
                        0,
                        0,
                        few,
                        d,
                    );
                    assert(toks[st.pos].kind == TokenKind::KwIf && toks[s2.pos].kind
                        == TokenKind::KwElse && wraps(toks, s1.pos, s2.pos));
                    assert(reads_conditional(toks, s4.ast, lo, s4.pos, e, d));
                    assert(reads_node(toks, s4.ast, lo, s4.pos, e, 0, d));
                    assert(takes(toks[s4.pos].kind) is None);
                }
            }
        }
    }
}

/// The comparisons of a chain behind those in `chained`, the last of which is `result`.
pub open spec fn chain_read(
    toks: Seq<TokenView>,
    ast: AstView,
    lo: int,
    hi: int,
    prev: ExprId,
    chained: Seq<BinOp>,
    result: Option<ExprId>,
    d: nat,
) -> bool {
    match result {
        None => fits(toks, ast, lo, hi, prev, d) && prev.0 < ast.nodes.len() && chained.len() == 0,
        Some(e) => {
            &&& chained.len() > 0
            &&& e.0 < ast.nodes.len()
            &&& chain_last(ast, e) == prev
            &&& prev.0 < ast.nodes.len()
            &&& chain_way(ast, e) == way(chained.last())
            &&& goes_one_way(chained) ==> reads_chain(toks, ast, lo, hi, e, d)
        },
    }
}

/// All comparisons go the same way, where there are several.
pub open spec fn goes_one_way(chained: Seq<BinOp>) -> bool {
    chained.len() < 2 || forall|i: int|
        0 <= i < chained.len() ==> way(#[trigger] chained[i]) == way(chained[0]) && way(chained[i])
            != 0
}

proof fn lemma_comparisons_derived(
    toks: Seq<TokenView>,
    depth: nat,
    st: ParseState,
    prev: ExprId,
    chained: Seq<BinOp>,
    result: Option<ExprId>,
    lo: int,
)
    requires
        sound(st.ast),
        1 <= depth <= 256,
        result is None ==> comparison_op(toks[st.pos].kind) is Some,
        result is Some ==> power(toks[st.pos].kind) <= 45,
        small(st.ast) ==> chain_read(
            toks,
            st.ast,
            lo,
            st.pos,
            prev,
            chained,
            result,
            (258 - depth) as nat,
        ),
    ensures
        comparisons(toks, depth, st, prev, chained, result) matches Ok((s1, (all, e))) ==> {
            &&& continues(st.ast, s1.ast)
            &&& sound(s1.ast)
            &&& comparing(toks[s1.pos].kind) is None
            &&& power(toks[s1.pos].kind) <= 45
            &&& small(s1.ast) && crate::parser::grammar::monotonic(all) ==> reads_chain(
                toks,
                s1.ast,
                lo,
                s1.pos,
                e,
                (258 - depth) as nat,
            )
        },
    decreases 257 - depth, 7int, toks.len() - st.pos,
{
    let d = (258 - depth) as nat;
    unfold_comparisons(toks, depth, st, prev, chained, result);
    assert(comparison_op(toks[st.pos].kind) == comparing(toks[st.pos].kind));
    match comparison_op(toks[st.pos].kind) {
        None => {
            if crate::parser::grammar::monotonic(chained) {
                assert(goes_one_way(chained)) by {
                    if chained.len() >= 2 {
                        assert forall|i: int| 0 <= i < chained.len() implies way(
                            #[trigger] chained[i],
                        ) == way(chained[0]) && way(chained[i]) != 0 by {
                            assert(crate::parser::grammar::chain_direction(chained[i])
                                == crate::parser::grammar::chain_direction(chained[0]));
                        }
                    }
                }
            }
        },
        Some(op) => {
            lemma_derived(toks, depth, advanced(st), 46);
            if let Ok((s1, next)) = expr(toks, depth, advanced(st), 46) {
                let node = NodeView::Bin(op, prev, next);
                lemma_pushed(toks, st.ast, s1, node, start_of(s1, prev));
                let (s2, pair) = push(toks, s1, node, start_of(s1, prev));
                let (s3, so_far) = match result {
                    None => (s2, pair),
                    Some(acc) => push(
                        toks,
                        s2,
                        NodeView::Bin(BinOp::And, acc, pair),
                        start_of(s2, acc),
                    ),
                };
                if let Some(acc) = result {
                    lemma_pushed(
                        toks,
                        st.ast,
                        s2,
                        NodeView::Bin(BinOp::And, acc, pair),
                        start_of(s2, acc),
                    );
                }
                if moved(toks, st, s3) {
                    let more = chained.push(op);
                    if small(s3.ast) {
                        lemma_reads(
                            toks,
                            s1.ast,
                            s3.ast,
                            st.pos + 1,
                            s1.pos,
                            next,
                            5,
                            5,
                            (d - 1) as nat,
                            d,
                        );
                        assert(toks[st.pos].kind == toks[st.pos].kind);
                        assert(s3.ast.nodes[pair.0 as int] == node);
                        match result {
                            None => {
                                if reads(toks, st.ast, lo, st.pos, prev, 5, d) {
                                    lemma_reads(
                                        toks,
                                        st.ast,
                                        s3.ast,
                                        lo,
                                        st.pos,
                                        prev,
                                        5,
                                        5,
                                        d,
                                        d,
                                    );
                                } else {
                                    lemma_reads_member(
                                        toks,
                                        st.ast,
                                        s3.ast,
                                        lo,
                                        st.pos,
                                        prev,
                                        d,
                                        d,
                                    );
                                }
                                assert(reads_chain(toks, s3.ast, lo, s3.pos, so_far, d));
                            },
                            Some(acc) => {
                                assert(s3.ast.nodes[acc.0 as int] == st.ast.nodes[acc.0 as int]);
                                if goes_one_way(more) {
                                    assert(goes_one_way(chained)) by {
                                        assert forall|i: int|
                                            0 <= i < chained.len() implies way(
                                            #[trigger] chained[i],
                                        ) == way(chained[0]) && way(chained[i]) != 0 by {
                                            assert(more[i] == chained[i]);
                                            assert(more[0] == chained[0]);
                                        }
                                    }
                                    lemma_reads_chain(
                                        toks,
                                        st.ast,
                                        s3.ast,
                                        lo,
                                        st.pos,
                                        acc,
                                        d,
                                        d,
                                    );
                                    assert(way(op) == way(chained.last())) by {
                                        assert(more[chained.len() as int] == op);
                                        assert(more[chained.len() - 1] == chained.last());
                                    }
                                    assert(reads_chain(toks, s3.ast, lo, s3.pos, so_far, d));
                                }
                            },
                        }
                        assert(more.last() == op);
                    }
                    lemma_comparisons_derived(
                        toks,
                        depth,
                        s3,
                        next,
                        more,
                        Some(so_far),
                        lo,
                    );
                }
            }
        },
    }
}

proof fn lemma_range_derived(
    toks: Seq<TokenView>,
    depth: nat,
    st: ParseState,
    lhs: ExprId,
    kind: RangeKind,
    lo: int,
)
    requires
        sound(st.ast),
        1 <= depth <= 256,
        ranging(toks[st.pos].kind) == Some(kind),
        small(st.ast) ==> fits(toks, st.ast, lo, st.pos, lhs, (258 - depth) as nat),
    ensures
        range_tail(toks, depth, st, lhs, kind) matches Ok((s1, e)) ==> {
            &&& continues(st.ast, s1.ast)
            &&& sound(s1.ast)
            &&& small(s1.ast) ==> reads(toks, s1.ast, lo, s1.pos, e, 5, (258 - depth) as nat)
            &&& power(toks[s1.pos].kind) <= 50
        },
    decreases 257 - depth, 7int, 0int,
{
    let d = (258 - depth) as nat;
    let few = (d - 1) as nat;
    unfold_range_tail(toks, depth, st, lhs, kind);
    lemma_derived(toks, depth, advanced(st), 51);
    if let Ok((s1, stop)) = expr(toks, depth, advanced(st), 51) {
        if toks[s1.pos].kind == TokenKind::Colon {
            lemma_derived(toks, depth, advanced(s1), 51);
            if let Ok((s2, by)) = expr(toks, depth, advanced(s1), 51) {
                let node = NodeView::Range(lhs, stop, Some(by), kind);
                assert(continues(st.ast, s2.ast));
                lemma_pushed(toks, st.ast, s2, node, start_of(s2, lhs));
                let (s3, e) = push(toks, s2, node, start_of(s2, lhs));
                if small(s3.ast) {
                    lemma_reads(toks, st.ast, s3.ast, lo, st.pos, lhs, 5, 5, d, d);
                    lemma_reads(
                        toks,
                        s1.ast,
                        s3.ast,
                        st.pos + 1,
                        s1.pos,
                        stop,
                        6,
                        6,
                        few,
                        d,
                    );
                    lemma_reads(toks, s2.ast, s3.ast, s1.pos + 1, s2.pos, by, 6, 6, few, d);
                    assert(ranging(toks[st.pos].kind) == Some(kind) && toks[s1.pos].kind
                        == TokenKind::Colon);
                    assert(reads_node(toks, s3.ast, lo, s3.pos, e, 5, d));
                }
            }
        } else {
            let node = NodeView::Range(lhs, stop, None, kind);
            lemma_pushed(toks, st.ast, s1, node, start_of(s1, lhs));
            let (s2, e) = push(toks, s1, node, start_of(s1, lhs));
            if small(s2.ast) {
                lemma_reads(toks, st.ast, s2.ast, lo, st.pos, lhs, 5, 5, d, d);
                lemma_reads(toks, s1.ast, s2.ast, st.pos + 1, s1.pos, stop, 6, 6, few, d);
                assert(ranging(toks[st.pos].kind) == Some(kind));
                assert(reads_node(toks, s2.ast, lo, s2.pos, e, 5, d));
            }
        }
    }
}

proof fn lemma_prefix_derived(toks: Seq<TokenView>, depth: nat, st: ParseState)
    requires
        sound(st.ast),
        1 <= depth <= 256,
    ensures
        folds(toks, st.ast, st.pos, prefix(toks, depth, st), 8, (258 - depth) as nat),
    decreases 257 - depth, 8int, 0int,
{
    unfold_prefix(toks, depth, st);
    match toks[st.pos].kind {
        TokenKind::Minus => {
            lemma_negated_derived(toks, depth, st, UnOp::Neg);
        },
        TokenKind::KwNot => {
            lemma_negated_derived(toks, depth, st, UnOp::Not);
        },
        _ => {
            lemma_primary_derived(toks, depth, st);
            if let Ok((s1, e)) = primary(toks, depth, st) {
                let d = (258 - depth) as nat;
                if small(s1.ast) {
                    lemma_fits(toks, s1.ast, st.pos, s1.pos, e, 11, d);
                    lemma_reads(toks, s1.ast, s1.ast, st.pos, s1.pos, e, 11, 8, d, d);
                }
            }
        },
    }
}

proof fn lemma_negated_derived(toks: Seq<TokenView>, depth: nat, st: ParseState, op: UnOp)
    requires
        sound(st.ast),
        1 <= depth <= 256,
        toks[st.pos].kind == if op == UnOp::Neg {
            TokenKind::Minus
        } else {
            TokenKind::KwNot
        },
    ensures
        folds(toks, st.ast, st.pos, negated(toks, depth, st, op), 8, (258 - depth) as nat),
    decreases 257 - depth, 7int, 0int,
{
    let d = (258 - depth) as nat;
    unfold_negated(toks, depth, st, op);
    lemma_derived(toks, depth, advanced(st), UNARY_MINUS_BP);
    if let Ok((s1, operand)) = expr(toks, depth, advanced(st), UNARY_MINUS_BP) {
        let node = NodeView::Unary(op, operand);
        let start = offset(toks, st.pos);
        lemma_pushed(toks, st.ast, s1, node, start);
        let (s2, e) = push(toks, s1, node, start);
        if small(s2.ast) {
            lemma_reads(
                toks,
                s1.ast,
                s2.ast,
                st.pos + 1,
                s1.pos,
                operand,
                8,
                8,
                (d - 1) as nat,
                d,
            );
            assert(reads_node(toks, s2.ast, st.pos, s2.pos, e, 8, d));
            lemma_fits(toks, s2.ast, st.pos, s2.pos, e, 8, d);
        }
    }
}

proof fn lemma_primary_derived(toks: Seq<TokenView>, depth: nat, st: ParseState)
    requires
        sound(st.ast),
        1 <= depth <= 256,
    ensures
        primary(toks, depth, st) matches Ok((s1, e)) ==> {
            &&& continues(st.ast, s1.ast)
            &&& sound(s1.ast)
            &&& small(s1.ast) ==> reads(
                toks,
                s1.ast,
                st.pos,
                s1.pos,
                e,
                11,
                (258 - depth) as nat,
            )
        },
    decreases 257 - depth, 7int, 0int,
{
    let d = (258 - depth) as nat;
    unfold_primary(toks, depth, st);
    lemma_primary(toks, depth, st);
    let token = toks[st.pos];
    let s1 = advanced(st);
    let start = offset(toks, st.pos);
    if let Ok((s2, e)) = primary(toks, depth, st) {
        match token.kind {
            TokenKind::LParen => {
                lemma_derived(toks, depth, s1, 0);
            },
            TokenKind::KwIf => {
                unfold_if_expr(toks, depth, st);
                if small(s2.ast) {
                    assert(s2.ast.nodes[e.0 as int] is If);
                    assert(reads_node(toks, s2.ast, st.pos, s2.pos, e, 11, d));
                }
            },
            TokenKind::LBracket => {
                lemma_array_derived(toks, depth, st);
            },
            TokenKind::Identifier => {
                if toks[st.pos + 1].kind == TokenKind::LParen {
                    lemma_call_derived(toks, depth, st);
                } else if small(s2.ast) {
                    lemma_interned(s1, token);
                    assert(reads_node(toks, s2.ast, st.pos, s2.pos, e, 11, d));
                }
            },
            TokenKind::FStr => {
                lemma_segments(inside(token.text, 2), s1, 0, 0, Seq::empty());
                lemma_segments_place(inside(token.text, 2), s1, 0, 0, Seq::empty());
                if small(s2.ast) {
                    assert(reads_node(toks, s2.ast, st.pos, s2.pos, e, 11, d));
                }
            },
            TokenKind::ColonColon => {
                if let Ok((s3, name)) = expect(toks, s1, TokenKind::Identifier) {
                    lemma_interned(s3, name);
                    if small(s2.ast) {
                        assert(reads_node(toks, s2.ast, st.pos, s2.pos, e, 11, d));
                    }
                }
            },
            _ => {
                if small(s2.ast) {
                    assert(reads_node(toks, s2.ast, st.pos, s2.pos, e, 11, d));
                }
            },
        }
    }
}

/// Reading the text of an f-string moves on over no token.
proof fn lemma_segments_place(
    content: Seq<u8>,
    st: ParseState,
    literal: int,
    index: int,
    segments: Seq<crate::parser::ast::FStrSegment>,
)
    ensures
        fstring_segments(content, st, literal, index, segments) matches Ok((s1, _)) ==> s1.pos
            == st.pos,
    decreases content.len() - index,
{
    reveal(crate::parser::grammar::hole_place);
    if 0 <= index < content.len() {
        if content[index] == 0x7b {
            let (s1, with_literal) = if index > literal {
                let (s1, str_id) = push_string(
                    st,
                    decode_utf8(content.subrange(literal, index)),
                );
                (s1, segments.push(crate::parser::ast::FStrSegment::Literal(str_id)))
            } else {
                (st, segments)
            };
            let close = crate::parser::grammar::closing_brace(content, index + 1);
            if close < content.len() && close + 1 > index {
                if let Ok((s2, place)) = crate::parser::grammar::hole_place(
                    s1,
                    content.subrange(index + 1, close),
                ) {
                    lemma_segments_place(
                        content,
                        s2,
                        close + 1,
                        close + 1,
                        with_literal.push(crate::parser::ast::FStrSegment::Interp(place)),
                    );
                }
            }
        } else {
            lemma_segments_place(content, st, literal, index + 1, segments);
        }
    }
}

proof fn lemma_array_derived(toks: Seq<TokenView>, depth: nat, st: ParseState)
    requires
        toks[st.pos].kind == TokenKind::LBracket,
        1 <= depth <= 256,
    ensures
        array(toks, depth, st) matches Ok((s1, e)) ==> (small(s1.ast) ==> reads(
            toks,
            s1.ast,
            st.pos,
            s1.pos,
            e,
            11,
            (258 - depth) as nat,
        )),
{
    let d = (258 - depth) as nat;
    unfold_array(toks, depth, st);
    if let Ok((s1, e)) = array(toks, depth, st) {
        let start = offset(toks, st.pos);
        if let Ok((s2, first)) = expr(toks, depth, advanced(st), 0) {
            unfold_comprehension(toks, depth, s2, first, start);
        }
        if small(s1.ast) {
            let node = s1.ast.nodes[e.0 as int];
            assert(node is ArrayLiteral || node is MatrixLiteral || node is Comprehension);
            assert(reads_node(toks, s1.ast, st.pos, s1.pos, e, 11, d));
        }
    }
}

proof fn lemma_call_derived(toks: Seq<TokenView>, depth: nat, st: ParseState)
    requires
        sound(st.ast),
        1 <= depth <= 256,
        toks[st.pos].kind == TokenKind::Identifier,
        toks[st.pos + 1].kind == TokenKind::LParen,
    ensures
        call(toks, depth, st) matches Ok((s1, e)) ==> (small(s1.ast) ==> reads(
            toks,
            s1.ast,
            st.pos,
            s1.pos,
            e,
            11,
            (258 - depth) as nat,
        )),
    decreases 257 - depth, 6int, 0int,
{
    let d = (258 - depth) as nat;
    unfold_call(toks, depth, st);
    let (s1, callee) = intern(advanced(st), toks[st.pos].text);
    lemma_interned(advanced(st), toks[st.pos]);
    if let Ok((s2, _)) = expect(toks, s1, TokenKind::LParen) {
        assert(sound(s2.ast));
        if toks[s2.pos].kind != TokenKind::RParen {
            lemma_args_derived(toks, depth, s2, Seq::empty());
        }
        if let Ok((s5, e)) = call(toks, depth, st) {
            if small(s5.ast) {
                if toks[s2.pos].kind == TokenKind::RParen {
                    assert(reads_node(toks, s5.ast, st.pos, s5.pos, e, 11, d));
                } else {
                    let (s3, args) = call_args(toks, depth, s2, Seq::empty())->Ok_0;
                    let s4 = advanced(s3);
                    lemma_push(toks, s4, NodeView::Call(callee, args), offset(toks, st.pos));
                    lemma_args_limit(
                        toks,
                        s3.ast,
                        s2.pos,
                        s3.pos,
                        args,
                        0,
                        s3.ast.nodes.len() as int,
                        (d - 1) as nat,
                    );
                    lemma_reads_args(
                        toks,
                        s3.ast,
                        s5.ast,
                        s2.pos,
                        s3.pos,
                        args,
                        0,
                        s3.ast.nodes.len() as int,
                        (d - 1) as nat,
                        d,
                    );
                    assert(reads_node(toks, s5.ast, st.pos, s5.pos, e, 11, d));
                }
            }
        }
    }
}

proof fn lemma_args_limit(
    toks: Seq<TokenView>,
    ast: AstView,
    lo: int,
    hi: int,
    args: Seq<ExprId>,
    from: int,
    limit: int,
    d: nat,
)
    ensures
        reads_args(toks, ast, lo, hi, args, from, limit, d) ==> args.len() > 0,
{
}

/// The arguments behind those in `done`.
proof fn lemma_args_derived(
    toks: Seq<TokenView>,
    depth: nat,
    st: ParseState,
    done: Seq<ExprId>,
)
    requires
        sound(st.ast),
        1 <= depth <= 256,
    ensures
        call_args(toks, depth, st, done) matches Ok((s1, args)) ==> {
            &&& continues(st.ast, s1.ast)
            &&& sound(s1.ast)
            &&& args.len() > done.len()
            &&& forall|i: int| 0 <= i < done.len() ==> #[trigger] args[i] == done[i]
            &&& toks[s1.pos].kind == TokenKind::RParen
            &&& small(s1.ast) ==> reads_args(
                toks,
                s1.ast,
                st.pos,
                s1.pos,
                args,
                done.len() as int,
                s1.ast.nodes.len() as int,
                (257 - depth) as nat,
            )
        },
    decreases 257 - depth, 5int, toks.len() - st.pos,
{
    let d = (257 - depth) as nat;
    unfold_call_args(toks, depth, st, done);
    lemma_derived(toks, depth, st, 0);
    if let Ok((s1, arg)) = expr(toks, depth, st, 0) {
        let more = done.push(arg);
        if toks[s1.pos].kind == TokenKind::Comma && moved(toks, st, advanced(s1)) {
            lemma_args_derived(toks, depth, advanced(s1), more);
            if let Ok((s2, args)) = call_args(toks, depth, advanced(s1), more) {
                assert(args[done.len() as int] == arg) by {
                    assert(args[done.len() as int] == more[done.len() as int]);
                }
                assert forall|i: int| 0 <= i < done.len() implies #[trigger] args[i] == done[i] by {
                    assert(args[i] == more[i]);
                }
                if small(s2.ast) {
                    lemma_reads(toks, s1.ast, s2.ast, st.pos, s1.pos, arg, 0, 0, d, d);
                    assert(toks[s1.pos].kind == TokenKind::Comma);
                }
            }
        }
    }
}

// ---------------------------------------------------------------------------
// The laws
// ---------------------------------------------------------------------------

/// Whatever is parsed as an expression is derived in the grammar of levels from the tokens it was
/// parsed from, and no operator stands behind it that could have gone on with it.
pub proof fn expressions_bind_by_their_levels(
    toks: Seq<TokenView>,
    depth: nat,
    st: ParseState,
)
    requires
        sound(st.ast),
        depth <= 256,
    ensures
        expr(toks, depth, st, 0) matches Ok((s1, e)) ==> {
            &&& small(s1.ast) ==> reads(
                toks,
                s1.ast,
                st.pos,
                s1.pos,
                e,
                0,
                (257 - depth) as nat,
            )
            &&& takes(toks[s1.pos].kind) is None
        },
{
    lemma_derived(toks, depth, st, 0);
}

/// The level of an operation.
pub open spec fn level_of(node: NodeView) -> int {
    match node {
        NodeView::Bin(op, _, _) => match op {
            BinOp::Or => 1,
            BinOp::Xor => 2,
            BinOp::And => 4,
            BinOp::Eq | BinOp::Ne | BinOp::Lt | BinOp::Gt | BinOp::Le | BinOp::Ge => 4,
            BinOp::Add | BinOp::Sub => 6,
            BinOp::Mul | BinOp::Div | BinOp::IntDiv | BinOp::Mod => 7,
            BinOp::Pow => 9,
        },
        NodeView::Membership(_, _) => 4,
        NodeView::Range(..) => 5,
        NodeView::Unary(_, _) => 8,
        _ => 11,
    }
}

/// An operand whose operation binds looser than its place asks for stands in brackets. So
/// `a + b mod c` is never the remainder of a sum. An `and` counts as a comparison, since a chain of
/// comparisons is one.
pub proof fn looser_operands_stand_in_brackets(
    toks: Seq<TokenView>,
    ast: AstView,
    lo: int,
    hi: int,
    e: ExprId,
    level: int,
    d: nat,
)
    requires
        reads(toks, ast, lo, hi, e, level, d),
        level_of(ast.nodes[e.0 as int]) < level <= 11,
    ensures
        toks[lo].kind == TokenKind::LParen,
        toks[hi - 1].kind == TokenKind::RParen,
{
    assert(!reads_node(toks, ast, lo, hi, e, level, d));
}

} // verus!
