//! What statements stand for.
//!
//! A statement is stated here by the words it is written with: `while` before its condition, `loop`
//! with `while` or `until` behind its body, `for` with its names before `in`, assignments with their
//! targets before each `=` and the values behind the last, and expressions as [`reads`] has them. A
//! body is indented, and its statements stand one after the other. Whatever is parsed as a statement
//! is one of these, from the tokens it was parsed from.

use crate::lexer::{lexed, TokenKind, TokenView};
use crate::parser::ast::{
    place_read, AstView, BinOp, BlockView, ExprId, FuncDefView, IfArmView, NodeView, Param, PinpType,
    Place, StmtView, SymId, TopLevelView,
};
use crate::parser::grammar::{
    advanced, after_list, after_separators, array, assignment, binder, block, block_end,
    block_stmts, compound, compound_assign_op, comprehension, drop_dedents, expect, expr,
    expr_list, expr_place, first_bad_group, for_stmt, func_body, func_def, group_error, groups,
    if_expr, if_tail, indexed_assign, intern, is_separator, list_tail, more_binders, moved,
    named_place, offset, param_list, params, parsed, places_of, program, push, row, rows,
    skip_wrapping, stmt, swallow_dedents, top_level_item, type_annotation, unfold_after_list,
    unfold_array, unfold_block, unfold_block_stmts, unfold_comprehension, unfold_expr_list,
    unfold_for_stmt, unfold_groups, unfold_if_expr, unfold_if_tail, unfold_indexed_assign,
    unfold_list_tail, unfold_loop_stmt, unfold_row, unfold_rows, unfold_stmt, with_result,
    MAX_NESTING_DEPTH, ParseState,
};
use crate::parser::precedence::{
    further, lemma_derived, lemma_interned, lemma_pushed, lemma_reads, lemma_wrapped, reads,
    reads_node, spelled, wraps,
};
use crate::parser::trees::{continues, lemma_stmt, small, sound};
use vstd::prelude::*;

verus! {

// ---------------------------------------------------------------------------
// Statements by their words
// ---------------------------------------------------------------------------

/// The operation in a compound assignment.
pub open spec fn updating(kind: TokenKind) -> Option<BinOp> {
    match kind {
        TokenKind::PlusEq => Some(BinOp::Add),
        TokenKind::MinusEq => Some(BinOp::Sub),
        TokenKind::StarEq => Some(BinOp::Mul),
        TokenKind::SlashEq => Some(BinOp::Div),
        TokenKind::CaretEq => Some(BinOp::Pow),
        TokenKind::DivEq => Some(BinOp::IntDiv),
        TokenKind::ModEq => Some(BinOp::Mod),
        _ => None,
    }
}

/// A whole expression.
pub open spec fn reads_whole(
    toks: Seq<TokenView>,
    ast: AstView,
    lo: int,
    hi: int,
    e: ExprId,
) -> bool {
    reads(toks, ast, lo, hi, e, 0, 257)
}

/// An expression that is a name.
pub open spec fn names_place(ast: AstView, e: ExprId, place: Place) -> bool {
    e.0 < ast.nodes.len() && ast.nodes[e.0 as int] == place_read(place)
}

/// A comma, and the line ends behind it.
pub open spec fn comma(toks: Seq<TokenView>, from: int, to: int) -> bool {
    toks[from].kind == TokenKind::Comma && wraps(toks, from + 1, to)
}

/// Expressions from the one at `from` on, with commas between them.
pub open spec fn reads_list(
    toks: Seq<TokenView>,
    ast: AstView,
    lo: int,
    hi: int,
    list: Seq<ExprId>,
    from: int,
) -> bool
    decreases list.len() - from,
{
    &&& 0 <= from < list.len()
    &&& if from == list.len() - 1 {
        reads_whole(toks, ast, lo, hi, list[from])
    } else {
        exists|k: int, m: int| #[trigger]
            comma(toks, k, m) && reads_whole(toks, ast, lo, k, list[from]) && reads_list(
                toks,
                ast,
                m,
                hi,
                list,
                from + 1,
            )
    }
}

/// Lists from the one at `from` on, with `=` between them.
pub open spec fn reads_lists(
    toks: Seq<TokenView>,
    ast: AstView,
    lo: int,
    hi: int,
    lists: Seq<Seq<ExprId>>,
    from: int,
) -> bool
    decreases lists.len() - from,
{
    &&& 0 <= from < lists.len()
    &&& if from == lists.len() - 1 {
        reads_list(toks, ast, lo, hi, lists[from], 0)
    } else {
        exists|k: int|
            (#[trigger] toks[k]).kind == TokenKind::Equal && reads_list(
                toks,
                ast,
                lo,
                k,
                lists[from],
                0,
            ) && reads_lists(toks, ast, k + 1, hi, lists, from + 1)
    }
}

/// The lists of an assignment: the targets in their order, and the values last.
pub open spec fn assigns(
    ast: AstView,
    lists: Seq<Seq<ExprId>>,
    targets: Seq<Seq<Place>>,
    values: Seq<ExprId>,
) -> bool {
    &&& lists.len() == targets.len() + 1
    &&& lists.last() == values
    &&& forall|i: int|
        0 <= i < targets.len() ==> (#[trigger] targets[i]).len() == values.len()
            && lists[i].len() == values.len()
    &&& forall|i: int, j: int|
        0 <= i < targets.len() && 0 <= j < values.len() ==> names_place(
            ast,
            lists[i][j],
            #[trigger] targets[i][j],
        )
}

/// A compound assignment: the target, the operator and the right side. The value is what the place
/// held, combined with the right side.
pub open spec fn updates(
    toks: Seq<TokenView>,
    ast: AstView,
    lo: int,
    hi: int,
    place: Place,
    value: ExprId,
) -> bool {
    &&& value.0 < ast.nodes.len()
    &&& ast.nodes[value.0 as int] matches NodeView::Bin(op, read, rhs) && {
        &&& names_place(ast, read, place)
        &&& exists|k: int, e: ExprId|
            {
                &&& #[trigger] names_place(ast, e, place)
                &&& updating((#[trigger] toks[k]).kind) == Some(op)
                &&& reads_whole(toks, ast, lo, k, e)
                &&& reads_whole(toks, ast, k + 1, hi, rhs)
            }
    }
}

/// An expression that selects an element of what a place holds, by one index or by two.
pub open spec fn selects(ast: AstView, e: ExprId, place: Place, by: Seq<ExprId>) -> bool {
    &&& e.0 < ast.nodes.len()
    &&& match ast.nodes[e.0 as int] {
        NodeView::Index(object, index) => names_place(ast, object, place) && by == seq![index],
        NodeView::Index2D(object, row, col) => names_place(ast, object, place) && by == seq![
            row,
            col,
        ],
        _ => false,
    }
}

/// An assignment to an element: its target, `=` or a compound assignment, and the value.
pub open spec fn stores(
    toks: Seq<TokenView>,
    ast: AstView,
    lo: int,
    hi: int,
    place: Place,
    by: Seq<ExprId>,
    value: ExprId,
    op: Option<BinOp>,
) -> bool {
    exists|k: int, e: ExprId|
        {
            let kind = (#[trigger] toks[k]).kind;
            &&& #[trigger] selects(ast, e, place, by)
            &&& if kind == TokenKind::Equal {
                op is None
            } else {
                op is Some && updating(kind) == op
            }
            &&& reads_whole(toks, ast, lo, k, e)
            &&& reads_whole(toks, ast, k + 1, hi, value)
        }
}

/// A name at a place in the tokens, behind a comma unless it is the first.
pub open spec fn bound_at(
    toks: Seq<TokenView>,
    ast: AstView,
    sym: SymId,
    at: int,
    first: bool,
) -> bool {
    spelled(ast, sym, toks[at]) && (first || toks[at - 1].kind == TokenKind::Comma)
}

/// The names of a `for`, with commas between them.
pub open spec fn binds(
    toks: Seq<TokenView>,
    ast: AstView,
    lo: int,
    binders: Seq<SymId>,
) -> bool {
    forall|i: int|
        0 <= i < binders.len() ==> bound_at(toks, ast, #[trigger] binders[i], lo + 2 * i, i == 0)
}

/// `for` with its names, `in`, the source and the body.
pub open spec fn counts_through(
    toks: Seq<TokenView>,
    ast: AstView,
    lo: int,
    middle: int,
    binders: Seq<SymId>,
    source: ExprId,
) -> bool {
    &&& toks[lo].kind == TokenKind::KwFor
    &&& binds(toks, ast, lo + 1, binders)
    &&& toks[lo + 2 * binders.len()].kind == TokenKind::KwIn
    &&& reads_whole(toks, ast, lo + 2 * binders.len() + 1, middle, source)
}

/// A place in the tokens.
pub open spec fn spot(at: int) -> bool {
    true
}

/// The tokens from `lo` up to `hi` are the statement.
pub open spec fn sentence(
    toks: Seq<TokenView>,
    ast: AstView,
    lo: int,
    hi: int,
    stmt: StmtView,
) -> bool
    decreases stmt, 0int,
{
    match stmt {
        StmtView::Expr(e) => reads_whole(toks, ast, lo, hi, e),
        StmtView::While(cond, body) => toks[lo].kind == TokenKind::KwWhile && exists|k: int|
            #[trigger] spot(k) && reads_whole(toks, ast, lo + 1, k, cond) && indented(
                toks,
                ast,
                k,
                hi,
                body,
            ),
        StmtView::Loop(body, cond, until) => toks[lo].kind == TokenKind::KwLoop && exists|k: int|
            {
                &&& (#[trigger] toks[k]).kind == if until {
                    TokenKind::KwUntil
                } else {
                    TokenKind::KwWhile
                }
                &&& indented(toks, ast, lo + 1, k, body)
                &&& reads_whole(toks, ast, k + 1, hi, cond)
            },
        StmtView::For(var, source, body) => exists|k: int|
            #[trigger] spot(k) && counts_through(toks, ast, lo, k, seq![var], source) && indented(
                toks,
                ast,
                k,
                hi,
                body,
            ),
        StmtView::ForArray(binders, source, body) => exists|k: int|
            #[trigger] spot(k) && counts_through(toks, ast, lo, k, binders, source) && indented(
                toks,
                ast,
                k,
                hi,
                body,
            ),
        StmtView::Assign(targets, _, values) => {
            ||| exists|lists: Seq<Seq<ExprId>>| #[trigger]
                reads_lists(toks, ast, lo, hi, lists, 0) && assigns(ast, lists, targets, values)
            ||| targets.len() == 1 && targets[0].len() == 1 && values.len() == 1 && updates(
                toks,
                ast,
                lo,
                hi,
                targets[0][0],
                values[0],
            )
        },
        StmtView::IndexedAssign(place, index, value, op) => stores(
            toks,
            ast,
            lo,
            hi,
            place,
            seq![index],
            value,
            op,
        ),
        StmtView::IndexedAssign2D(place, row, col, value, op) => stores(
            toks,
            ast,
            lo,
            hi,
            place,
            seq![row, col],
            value,
            op,
        ),
    }
}

/// An indented body.
pub open spec fn indented(
    toks: Seq<TokenView>,
    ast: AstView,
    lo: int,
    hi: int,
    body: BlockView,
) -> bool
    decreases body, body.stmts.len() + 2,
{
    &&& toks[lo].kind == TokenKind::Newline
    &&& toks[lo + 1].kind == TokenKind::Indent
    &&& in_turn(toks, ast, lo + 2, hi, body, 0)
}

/// The statements of a body from the one at `from` on, then the expression it ends in, with line
/// ends between them.
pub open spec fn in_turn(
    toks: Seq<TokenView>,
    ast: AstView,
    lo: int,
    hi: int,
    body: BlockView,
    from: int,
) -> bool
    decreases body, body.stmts.len() - from,
{
    if 0 <= from < body.stmts.len() {
        exists|k: int, m: int|
            k <= m && #[trigger] wraps(toks, k, m) && sentence(
                toks,
                ast,
                lo,
                k,
                body.stmts[from],
            ) && in_turn(toks, ast, m, hi, body, from + 1)
    } else {
        match body.result {
            Some(e) => exists|k: int|
                k <= hi && #[trigger] wraps(toks, k, hi) && reads_whole(toks, ast, lo, k, e),
            None => lo == hi,
        }
    }
}

// ---------------------------------------------------------------------------
// Branches, functions and programs
// ---------------------------------------------------------------------------

/// The arms of an `if` from the one at `from` on, then its `else`.
pub open spec fn branching(
    toks: Seq<TokenView>,
    ast: AstView,
    lo: int,
    hi: int,
    arms: Seq<IfArmView>,
    from: int,
    else_block: Option<BlockView>,
) -> bool
    decreases arms.len() - from,
{
    if 0 <= from < arms.len() {
        &&& toks[lo].kind == if from == 0 {
            TokenKind::KwIf
        } else {
            TokenKind::KwElif
        }
        &&& exists|k: int, m: int| #[trigger]
            spot(k) && #[trigger] spot(m) && reads_whole(toks, ast, lo + 1, k, arms[from].cond)
                && indented(toks, ast, k, m, arms[from].body) && branching(
                toks,
                ast,
                m,
                hi,
                arms,
                from + 1,
                else_block,
            )
    } else {
        match else_block {
            Some(body) => toks[lo].kind == TokenKind::KwElse && indented(
                toks,
                ast,
                lo + 1,
                hi,
                body,
            ),
            None => lo == hi,
        }
    }
}

/// The word for a type.
pub open spec fn names_type(token: TokenView, t: PinpType) -> bool {
    token.kind == TokenKind::Identifier && match t {
        PinpType::Bool => token.text == "bool"@,
        PinpType::Int => token.text == "int"@,
        PinpType::Float => token.text == "float"@,
        PinpType::Str => token.text == "str"@,
        PinpType::Void => token.text == "void"@,
        _ => false,
    }
}

/// A parameter with its type, behind a comma unless it is the first.
pub open spec fn param_at(
    toks: Seq<TokenView>,
    ast: AstView,
    param: Param,
    at: int,
    first: bool,
) -> bool {
    &&& spelled(ast, param.name, toks[at])
    &&& toks[at + 1].kind == TokenKind::Colon
    &&& names_type(toks[at + 2], param.param_type)
    &&& first || toks[at - 1].kind == TokenKind::Comma
}

/// Where the parameters end that begin at `lo`.
pub open spec fn params_end(lo: int, count: int) -> int {
    if count <= 0 {
        lo
    } else {
        lo + 4 * count - 1
    }
}

/// A body: indented, or one expression.
pub open spec fn carries_out(
    toks: Seq<TokenView>,
    ast: AstView,
    lo: int,
    hi: int,
    body: BlockView,
) -> bool {
    ||| indented(toks, ast, lo, hi, body)
    ||| body.stmts.len() == 0 && (body.result matches Some(e) && reads_whole(toks, ast, lo, hi, e))
}

/// A function: its name, its parameters, the type it returns, `is`, and its body.
pub open spec fn defines(
    toks: Seq<TokenView>,
    ast: AstView,
    lo: int,
    hi: int,
    func: FuncDefView,
) -> bool {
    let close = params_end(lo + 2, func.params.len() as int);
    &&& spelled(ast, func.name, toks[lo])
    &&& toks[lo + 1].kind == TokenKind::LParen
    &&& forall|i: int|
        0 <= i < func.params.len() ==> param_at(
            toks,
            ast,
            #[trigger] func.params[i],
            lo + 2 + 4 * i,
            i == 0,
        )
    &&& toks[close].kind == TokenKind::RParen
    &&& if toks[close + 1].kind == TokenKind::Colon {
        &&& names_type(toks[close + 2], func.return_type)
        &&& toks[close + 3].kind == TokenKind::KwIs
        &&& carries_out(toks, ast, close + 4, hi, func.body)
    } else {
        &&& func.return_type == PinpType::Void
        &&& toks[close + 1].kind == TokenKind::KwIs
        &&& carries_out(toks, ast, close + 2, hi, func.body)
    }
}

/// Where the elements of a row end: a comma may stand behind the last.
pub open spec fn row_end(toks: Seq<TokenView>, end: int, hi: int) -> bool {
    end == hi || (end + 1 == hi && toks[end].kind == TokenKind::Comma)
}

/// The elements of a row.
pub open spec fn reads_row(
    toks: Seq<TokenView>,
    ast: AstView,
    lo: int,
    hi: int,
    row: Seq<ExprId>,
) -> bool {
    exists|end: int| #[trigger] row_end(toks, end, hi) && reads_list(toks, ast, lo, end, row, 0)
}

/// Rows from the one at `from` on, with `;` between them.
pub open spec fn reads_rows(
    toks: Seq<TokenView>,
    ast: AstView,
    lo: int,
    hi: int,
    rows: Seq<Seq<ExprId>>,
    from: int,
) -> bool
    decreases rows.len() - from,
{
    &&& 0 <= from < rows.len()
    &&& if from == rows.len() - 1 {
        reads_row(toks, ast, lo, hi, rows[from])
    } else {
        exists|k: int|
            (#[trigger] toks[k]).kind == TokenKind::Semicolon && reads_row(
                toks,
                ast,
                lo,
                k,
                rows[from],
            ) && reads_rows(toks, ast, k + 1, hi, rows, from + 1)
    }
}

/// A comprehension between its brackets: the element, `for`, a name that may have a type, `in`, and
/// the source.
#[verifier::opaque]
pub open spec fn gathers(
    toks: Seq<TokenView>,
    ast: AstView,
    lo: int,
    hi: int,
    element: ExprId,
    var: SymId,
    t: PinpType,
    source: ExprId,
) -> bool {
    exists|k: int|
        {
            &&& (#[trigger] toks[k]).kind == TokenKind::KwFor
            &&& reads_whole(toks, ast, lo, k, element)
            &&& spelled(ast, var, toks[k + 1])
            &&& if toks[k + 2].kind == TokenKind::Colon {
                &&& names_type(toks[k + 3], t)
                &&& toks[k + 4].kind == TokenKind::KwIn
                &&& reads_whole(toks, ast, k + 5, hi, source)
            } else {
                &&& t == PinpType::Int
                &&& toks[k + 2].kind == TokenKind::KwIn
                &&& reads_whole(toks, ast, k + 3, hi, source)
            }
        }
}

/// What stands in square brackets.
pub open spec fn bracketed(
    toks: Seq<TokenView>,
    ast: AstView,
    lo: int,
    hi: int,
    node: NodeView,
) -> bool {
    match node {
        NodeView::ArrayLiteral(elements) => reads_row(toks, ast, lo, hi, elements),
        NodeView::MatrixLiteral(rows) => rows.len() > 1 && reads_rows(toks, ast, lo, hi, rows, 0),
        NodeView::Comprehension(element, var, t, source) => gathers(
            toks,
            ast,
            lo,
            hi,
            element,
            var,
            t,
            source,
        ),
        _ => false,
    }
}

/// An item of a program.
pub open spec fn item_at(
    toks: Seq<TokenView>,
    ast: AstView,
    lo: int,
    hi: int,
    item: TopLevelView,
) -> bool {
    match item {
        TopLevelView::Stmt(stmt) => sentence(toks, ast, lo, hi, stmt),
        TopLevelView::Func(func) => defines(toks, ast, lo, hi, func),
    }
}

/// The items of a program from the one at `from` on, with line ends around them, up to the end.
pub open spec fn follows_on(
    toks: Seq<TokenView>,
    ast: AstView,
    lo: int,
    items: Seq<TopLevelView>,
    from: int,
) -> bool
    decreases items.len() - from,
{
    if 0 <= from < items.len() {
        exists|k: int, m: int| #[trigger]
            wraps(toks, lo, k) && #[trigger] spot(m) && item_at(toks, ast, k, m, items[from])
                && follows_on(toks, ast, m, items, from + 1)
    } else {
        exists|k: int| #[trigger] wraps(toks, lo, k) && toks[k].kind == TokenKind::Eof
    }
}

// ---------------------------------------------------------------------------
// What is read stays as it is when more is read
// ---------------------------------------------------------------------------

proof fn lemma_whole_kept(
    toks: Seq<TokenView>,
    a: AstView,
    b: AstView,
    lo: int,
    hi: int,
    e: ExprId,
)
    requires
        further(a, b),
        reads_whole(toks, a, lo, hi, e),
    ensures
        reads_whole(toks, b, lo, hi, e),
{
    lemma_reads(toks, a, b, lo, hi, e, 0, 0, 257, 257);
}

proof fn lemma_list_kept(
    toks: Seq<TokenView>,
    a: AstView,
    b: AstView,
    lo: int,
    hi: int,
    list: Seq<ExprId>,
    from: int,
)
    requires
        further(a, b),
        reads_list(toks, a, lo, hi, list, from),
    ensures
        reads_list(toks, b, lo, hi, list, from),
    decreases list.len() - from,
{
    if from == list.len() - 1 {
        lemma_whole_kept(toks, a, b, lo, hi, list[from]);
    } else {
        let (k, m) = choose|k: int, m: int| #[trigger]
            comma(toks, k, m) && reads_whole(toks, a, lo, k, list[from]) && reads_list(
                toks,
                a,
                m,
                hi,
                list,
                from + 1,
            );
        lemma_whole_kept(toks, a, b, lo, k, list[from]);
        lemma_list_kept(toks, a, b, m, hi, list, from + 1);
        assert(comma(toks, k, m));
    }
}

proof fn lemma_lists_kept(
    toks: Seq<TokenView>,
    a: AstView,
    b: AstView,
    lo: int,
    hi: int,
    lists: Seq<Seq<ExprId>>,
    from: int,
)
    requires
        further(a, b),
        reads_lists(toks, a, lo, hi, lists, from),
    ensures
        reads_lists(toks, b, lo, hi, lists, from),
    decreases lists.len() - from,
{
    if from == lists.len() - 1 {
        lemma_list_kept(toks, a, b, lo, hi, lists[from], 0);
    } else {
        let k = choose|k: int|
            (#[trigger] toks[k]).kind == TokenKind::Equal && reads_list(
                toks,
                a,
                lo,
                k,
                lists[from],
                0,
            ) && reads_lists(toks, a, k + 1, hi, lists, from + 1);
        lemma_list_kept(toks, a, b, lo, k, lists[from], 0);
        lemma_lists_kept(toks, a, b, k + 1, hi, lists, from + 1);
        assert(toks[k] == toks[k]);
    }
}

proof fn lemma_updates_kept(
    toks: Seq<TokenView>,
    a: AstView,
    b: AstView,
    lo: int,
    hi: int,
    place: Place,
    value: ExprId,
)
    requires
        further(a, b),
        updates(toks, a, lo, hi, place, value),
    ensures
        updates(toks, b, lo, hi, place, value),
{
    let op = a.nodes[value.0 as int]->Bin_0;
    let rhs = a.nodes[value.0 as int]->Bin_2;
    let (k, e) = choose|k: int, e: ExprId|
        {
            &&& #[trigger] names_place(a, e, place)
            &&& updating((#[trigger] toks[k]).kind) == Some(op)
            &&& reads_whole(toks, a, lo, k, e)
            &&& reads_whole(toks, a, k + 1, hi, rhs)
        };
    lemma_whole_kept(toks, a, b, lo, k, e);
    lemma_whole_kept(toks, a, b, k + 1, hi, rhs);
    assert(names_place(b, e, place) && toks[k] == toks[k]);
}

proof fn lemma_stores_kept(
    toks: Seq<TokenView>,
    a: AstView,
    b: AstView,
    lo: int,
    hi: int,
    place: Place,
    by: Seq<ExprId>,
    value: ExprId,
    op: Option<BinOp>,
)
    requires
        further(a, b),
        stores(toks, a, lo, hi, place, by, value, op),
    ensures
        stores(toks, b, lo, hi, place, by, value, op),
{
    let (k, e) = choose|k: int, e: ExprId|
        {
            let kind = (#[trigger] toks[k]).kind;
            &&& #[trigger] selects(a, e, place, by)
            &&& if kind == TokenKind::Equal {
                op is None
            } else {
                op is Some && updating(kind) == op
            }
            &&& reads_whole(toks, a, lo, k, e)
            &&& reads_whole(toks, a, k + 1, hi, value)
        };
    lemma_whole_kept(toks, a, b, lo, k, e);
    lemma_whole_kept(toks, a, b, k + 1, hi, value);
    assert(toks[k] == toks[k] && selects(b, e, place, by));
}

proof fn lemma_through_kept(
    toks: Seq<TokenView>,
    a: AstView,
    b: AstView,
    lo: int,
    middle: int,
    binders: Seq<SymId>,
    source: ExprId,
)
    requires
        further(a, b),
        counts_through(toks, a, lo, middle, binders, source),
    ensures
        counts_through(toks, b, lo, middle, binders, source),
{
    lemma_whole_kept(toks, a, b, lo + 2 * binders.len() + 1, middle, source);
    assert forall|i: int| 0 <= i < binders.len() implies bound_at(
        toks,
        b,
        #[trigger] binders[i],
        lo + 1 + 2 * i,
        i == 0,
    ) by {
        assert(bound_at(toks, a, binders[i], lo + 1 + 2 * i, i == 0));
    }
}

proof fn lemma_sentence_kept(
    toks: Seq<TokenView>,
    a: AstView,
    b: AstView,
    lo: int,
    hi: int,
    stmt: StmtView,
)
    requires
        further(a, b),
        sentence(toks, a, lo, hi, stmt),
    ensures
        sentence(toks, b, lo, hi, stmt),
    decreases stmt, 0int,
{
    match stmt {
        StmtView::Expr(e) => {
            lemma_whole_kept(toks, a, b, lo, hi, e);
        },
        StmtView::While(cond, body) => {
            let k = choose|k: int|
                #[trigger] spot(k) && reads_whole(toks, a, lo + 1, k, cond) && indented(
                    toks,
                    a,
                    k,
                    hi,
                    body,
                );
            lemma_whole_kept(toks, a, b, lo + 1, k, cond);
            lemma_indented_kept(toks, a, b, k, hi, body);
            assert(spot(k));
        },
        StmtView::Loop(body, cond, until) => {
            let k = choose|k: int|
                {
                    &&& (#[trigger] toks[k]).kind == if until {
                        TokenKind::KwUntil
                    } else {
                        TokenKind::KwWhile
                    }
                    &&& indented(toks, a, lo + 1, k, body)
                    &&& reads_whole(toks, a, k + 1, hi, cond)
                };
            lemma_indented_kept(toks, a, b, lo + 1, k, body);
            lemma_whole_kept(toks, a, b, k + 1, hi, cond);
            assert(toks[k] == toks[k]);
        },
        StmtView::For(var, source, body) => {
            let k = choose|k: int|
                #[trigger] spot(k) && counts_through(toks, a, lo, k, seq![var], source)
                    && indented(toks, a, k, hi, body);
            lemma_through_kept(toks, a, b, lo, k, seq![var], source);
            lemma_indented_kept(toks, a, b, k, hi, body);
            assert(spot(k));
        },
        StmtView::ForArray(binders, source, body) => {
            let k = choose|k: int|
                #[trigger] spot(k) && counts_through(toks, a, lo, k, binders, source) && indented(
                    toks,
                    a,
                    k,
                    hi,
                    body,
                );
            lemma_through_kept(toks, a, b, lo, k, binders, source);
            lemma_indented_kept(toks, a, b, k, hi, body);
            assert(spot(k));
        },
        StmtView::Assign(targets, _, values) => {
            if exists|lists: Seq<Seq<ExprId>>| #[trigger]
                reads_lists(toks, a, lo, hi, lists, 0) && assigns(a, lists, targets, values) {
                let lists = choose|lists: Seq<Seq<ExprId>>| #[trigger]
                    reads_lists(toks, a, lo, hi, lists, 0) && assigns(a, lists, targets, values);
                lemma_lists_kept(toks, a, b, lo, hi, lists, 0);
                assert forall|i: int, j: int|
                    0 <= i < targets.len() && 0 <= j < values.len() implies names_place(
                    b,
                    lists[i][j],
                    #[trigger] targets[i][j],
                ) by {
                    assert(names_place(a, lists[i][j], targets[i][j]));
                }
                assert(assigns(b, lists, targets, values));
            } else {
                lemma_updates_kept(toks, a, b, lo, hi, targets[0][0], values[0]);
            }
        },
        StmtView::IndexedAssign(place, index, value, op) => {
            lemma_stores_kept(toks, a, b, lo, hi, place, seq![index], value, op);
        },
        StmtView::IndexedAssign2D(place, row, col, value, op) => {
            lemma_stores_kept(toks, a, b, lo, hi, place, seq![row, col], value, op);
        },
    }
}

proof fn lemma_indented_kept(
    toks: Seq<TokenView>,
    a: AstView,
    b: AstView,
    lo: int,
    hi: int,
    body: BlockView,
)
    requires
        further(a, b),
        indented(toks, a, lo, hi, body),
    ensures
        indented(toks, b, lo, hi, body),
    decreases body, body.stmts.len() + 2,
{
    lemma_in_turn_kept(toks, a, b, lo + 2, hi, body, 0);
}

proof fn lemma_in_turn_kept(
    toks: Seq<TokenView>,
    a: AstView,
    b: AstView,
    lo: int,
    hi: int,
    body: BlockView,
    from: int,
)
    requires
        further(a, b),
        in_turn(toks, a, lo, hi, body, from),
        0 <= from <= body.stmts.len(),
    ensures
        in_turn(toks, b, lo, hi, body, from),
    decreases body, body.stmts.len() - from,
{
    if from < body.stmts.len() {
        let (k, m) = choose|k: int, m: int|
            k <= m && #[trigger] wraps(toks, k, m) && sentence(
                toks,
                a,
                lo,
                k,
                body.stmts[from],
            ) && in_turn(toks, a, m, hi, body, from + 1);
        lemma_sentence_kept(toks, a, b, lo, k, body.stmts[from]);
        lemma_in_turn_kept(toks, a, b, m, hi, body, from + 1);
        assert(wraps(toks, k, m));
    } else if let Some(e) = body.result {
        let k = choose|k: int|
            k <= hi && #[trigger] wraps(toks, k, hi) && reads_whole(toks, a, lo, k, e);
        lemma_whole_kept(toks, a, b, lo, k, e);
        assert(wraps(toks, k, hi));
    }
}

// ---------------------------------------------------------------------------
// What is parsed is so written
// ---------------------------------------------------------------------------

proof fn lemma_whole(toks: Seq<TokenView>, depth: nat, st: ParseState)
    requires
        sound(st.ast),
        depth <= 256,
    ensures
        expr(toks, depth, st, 0) matches Ok((s1, e)) ==> {
            &&& continues(st.ast, s1.ast)
            &&& sound(s1.ast)
            &&& small(s1.ast) ==> reads_whole(toks, s1.ast, st.pos, s1.pos, e)
        },
{
    lemma_derived(toks, depth, st, 0);
    if let Ok((s1, e)) = expr(toks, depth, st, 0) {
        if small(s1.ast) {
            let few = (257 - depth) as nat;
            lemma_reads(toks, s1.ast, s1.ast, st.pos, s1.pos, e, 0, 0, few, 257);
        }
    }
}

/// What stands behind the first `done` expressions of a list.
pub open spec fn list_goes_on(
    toks: Seq<TokenView>,
    ast: AstView,
    lo: int,
    hi: int,
    list: Seq<ExprId>,
    done: int,
) -> bool {
    if list.len() == done {
        lo == hi
    } else {
        exists|m: int| #[trigger] comma(toks, lo, m) && reads_list(toks, ast, m, hi, list, done)
    }
}

proof fn lemma_list_on(
    toks: Seq<TokenView>,
    ast: AstView,
    lo: int,
    mid: int,
    hi: int,
    list: Seq<ExprId>,
    at: int,
)
    requires
        0 <= at < list.len(),
        reads_whole(toks, ast, lo, mid, list[at]),
        list_goes_on(toks, ast, mid, hi, list, at + 1),
    ensures
        reads_list(toks, ast, lo, hi, list, at),
{
    if list.len() != at + 1 {
        let m = choose|m: int| #[trigger]
            comma(toks, mid, m) && reads_list(toks, ast, m, hi, list, at + 1);
        assert(comma(toks, mid, m));
    }
}

proof fn lemma_tail_read(
    toks: Seq<TokenView>,
    depth: nat,
    st: ParseState,
    list_col: int,
    exprs: Seq<ExprId>,
)
    requires
        sound(st.ast),
        depth <= 256,
    ensures
        list_tail(toks, depth, st, list_col, exprs) matches Ok((s1, all)) ==> {
            &&& continues(st.ast, s1.ast)
            &&& sound(s1.ast)
            &&& all.len() >= exprs.len()
            &&& forall|i: int| 0 <= i < exprs.len() ==> #[trigger] all[i] == exprs[i]
            &&& small(s1.ast) ==> list_goes_on(
                toks,
                s1.ast,
                st.pos,
                s1.pos,
                all,
                exprs.len() as int,
            )
        },
    decreases toks.len() - st.pos,
{
    unfold_list_tail(toks, depth, st, list_col, exprs);
    if toks[st.pos].kind == TokenKind::Comma {
        let s1 = advanced(st);
        lemma_wrapped(toks, s1);
        let continued = if toks[s1.pos].kind == TokenKind::Newline {
            skip_wrapping(toks, s1)
        } else {
            s1
        };
        lemma_whole(toks, depth, continued);
        if let Ok((s2, next)) = expr(toks, depth, continued, 0) {
            if moved(toks, st, s2) {
                let more = exprs.push(next);
                lemma_tail_read(toks, depth, s2, list_col, more);
                if let Ok((s3, all)) = list_tail(toks, depth, s2, list_col, more) {
                    let at = exprs.len() as int;
                    assert(all[at] == more[at]);
                    assert forall|i: int| 0 <= i < exprs.len() implies #[trigger] all[i]
                        == exprs[i] by {
                        assert(all[i] == more[i]);
                    }
                    if small(s3.ast) {
                        lemma_whole_kept(toks, s2.ast, s3.ast, continued.pos, s2.pos, next);
                        lemma_list_on(toks, s3.ast, continued.pos, s2.pos, s3.pos, all, at);
                        assert(comma(toks, st.pos, continued.pos));
                    }
                }
            }
        }
    }
}

proof fn lemma_list_read(toks: Seq<TokenView>, depth: nat, st: ParseState)
    requires
        sound(st.ast),
        depth <= 256,
    ensures
        expr_list(toks, depth, st) matches Ok((s1, list)) ==> {
            &&& continues(st.ast, s1.ast)
            &&& sound(s1.ast)
            &&& list.len() > 0
            &&& small(s1.ast) ==> reads_list(toks, s1.ast, st.pos, s1.pos, list, 0)
        },
{
    unfold_expr_list(toks, depth, st);
    lemma_whole(toks, depth, st);
    if let Ok((s1, first)) = expr(toks, depth, st, 0) {
        let col = toks[st.pos].col;
        lemma_tail_read(toks, depth, s1, col, seq![first]);
        if let Ok((s2, list)) = list_tail(toks, depth, s1, col, seq![first]) {
            assert(list[0] == seq![first][0]);
            if small(s2.ast) {
                lemma_whole_kept(toks, s1.ast, s2.ast, st.pos, s1.pos, first);
                lemma_list_on(toks, s2.ast, st.pos, s1.pos, s2.pos, list, 0);
            }
        }
    }
}

/// What stands behind the first `done` lists of an assignment.
pub open spec fn lists_go_on(
    toks: Seq<TokenView>,
    ast: AstView,
    lo: int,
    hi: int,
    lists: Seq<Seq<ExprId>>,
    done: int,
) -> bool {
    if lists.len() == done {
        lo == hi
    } else {
        toks[lo].kind == TokenKind::Equal && reads_lists(toks, ast, lo + 1, hi, lists, done)
    }
}

proof fn lemma_lists_on(
    toks: Seq<TokenView>,
    ast: AstView,
    lo: int,
    mid: int,
    hi: int,
    lists: Seq<Seq<ExprId>>,
    at: int,
)
    requires
        0 <= at < lists.len(),
        reads_list(toks, ast, lo, mid, lists[at], 0),
        lists_go_on(toks, ast, mid, hi, lists, at + 1),
    ensures
        reads_lists(toks, ast, lo, hi, lists, at),
{
    assert(toks[mid] == toks[mid]);
}

proof fn lemma_groups_read(
    toks: Seq<TokenView>,
    depth: nat,
    st: ParseState,
    done: Seq<Seq<ExprId>>,
)
    requires
        sound(st.ast),
        depth <= 256,
    ensures
        groups(toks, depth, st, done) matches Ok((s1, all)) ==> {
            &&& continues(st.ast, s1.ast)
            &&& sound(s1.ast)
            &&& all.len() >= done.len()
            &&& forall|i: int| 0 <= i < done.len() ==> #[trigger] all[i] == done[i]
            &&& small(s1.ast) ==> lists_go_on(
                toks,
                s1.ast,
                st.pos,
                s1.pos,
                all,
                done.len() as int,
            )
        },
    decreases toks.len() - st.pos,
{
    unfold_groups(toks, depth, st, done);
    if toks[st.pos].kind == TokenKind::Equal {
        lemma_list_read(toks, depth, advanced(st));
        if let Ok((s1, group)) = expr_list(toks, depth, advanced(st)) {
            if moved(toks, st, s1) {
                let more = done.push(group);
                lemma_groups_read(toks, depth, s1, more);
                if let Ok((s2, all)) = groups(toks, depth, s1, more) {
                    let at = done.len() as int;
                    assert(all[at] == more[at]);
                    assert forall|i: int| 0 <= i < done.len() implies #[trigger] all[i]
                        == done[i] by {
                        assert(all[i] == more[i]);
                    }
                    if small(s2.ast) {
                        lemma_list_kept(toks, s1.ast, s2.ast, st.pos + 1, s1.pos, group, 0);
                        lemma_lists_on(toks, s2.ast, st.pos + 1, s1.pos, s2.pos, all, at);
                    }
                }
            }
        }
    }
}

/// What is read is there.
proof fn lemma_list_there(
    toks: Seq<TokenView>,
    ast: AstView,
    lo: int,
    hi: int,
    list: Seq<ExprId>,
    from: int,
)
    requires
        reads_list(toks, ast, lo, hi, list, from),
    ensures
        forall|i: int| from <= i < list.len() ==> (#[trigger] list[i]).0 < ast.nodes.len(),
    decreases list.len() - from,
{
    if from != list.len() - 1 {
        let (k, m) = choose|k: int, m: int| #[trigger]
            comma(toks, k, m) && reads_whole(toks, ast, lo, k, list[from]) && reads_list(
                toks,
                ast,
                m,
                hi,
                list,
                from + 1,
            );
        lemma_list_there(toks, ast, m, hi, list, from + 1);
    }
}

proof fn lemma_lists_there(
    toks: Seq<TokenView>,
    ast: AstView,
    lo: int,
    hi: int,
    lists: Seq<Seq<ExprId>>,
    from: int,
)
    requires
        reads_lists(toks, ast, lo, hi, lists, from),
    ensures
        forall|i: int, j: int|
            from <= i < lists.len() && 0 <= j < lists[i].len() ==> (#[trigger] lists[i][j]).0
                < ast.nodes.len(),
    decreases lists.len() - from,
{
    if from == lists.len() - 1 {
        lemma_list_there(toks, ast, lo, hi, lists[from], 0);
    } else {
        let k = choose|k: int|
            (#[trigger] toks[k]).kind == TokenKind::Equal && reads_list(
                toks,
                ast,
                lo,
                k,
                lists[from],
                0,
            ) && reads_lists(toks, ast, k + 1, hi, lists, from + 1);
        lemma_list_there(toks, ast, lo, k, lists[from], 0);
        lemma_lists_there(toks, ast, k + 1, hi, lists, from + 1);
    }
}

proof fn lemma_no_bad_group(
    st: ParseState,
    targets: Seq<Seq<ExprId>>,
    count: int,
    from: int,
)
    requires
        0 <= from,
        first_bad_group(st, targets, count, from) >= targets.len(),
    ensures
        forall|i: int|
            from <= i < targets.len() ==> group_error(st, #[trigger] targets[i], count) is None,
    decreases targets.len() - from,
{
    if from < targets.len() {
        if group_error(st, targets[from], count) is None {
            lemma_no_bad_group(st, targets, count, from + 1);
        }
    }
}

/// An element is selected from what was read before.
proof fn lemma_object_there(
    toks: Seq<TokenView>,
    ast: AstView,
    lo: int,
    hi: int,
    e: ExprId,
    level: int,
    d: nat,
)
    requires
        reads(toks, ast, lo, hi, e, level, d),
    ensures
        ast.nodes[e.0 as int] matches NodeView::Index(object, _) ==> object.0 < ast.nodes.len(),
        ast.nodes[e.0 as int] matches NodeView::Index2D(object, _, _) ==> object.0
            < ast.nodes.len(),
    decreases d,
{
    if !reads_node(toks, ast, lo, hi, e, level, d) {
        lemma_object_there(toks, ast, lo + 1, hi - 1, e, 0, (d - 1) as nat);
    }
}

proof fn lemma_after_list_read(
    toks: Seq<TokenView>,
    depth: nat,
    st: ParseState,
    first: Seq<ExprId>,
    lo: int,
)
    requires
        sound(st.ast),
        depth <= 256,
        first.len() > 0,
        small(st.ast) ==> reads_list(toks, st.ast, lo, st.pos, first, 0),
    ensures
        after_list(toks, depth, st, first) matches Ok((s1, read)) ==> (small(s1.ast) ==> sentence(
            toks,
            s1.ast,
            lo,
            s1.pos,
            read,
        )),
{
    unfold_after_list(toks, depth, st, first);
    let kind = toks[st.pos].kind;
    let target = st.ast.nodes[first[0].0 as int];
    assert(compound_assign_op(kind) == updating(kind));
    lemma_whole(toks, depth, advanced(st));
    lemma_groups_read(toks, depth, st, seq![first]);
    if let Ok((s1, read)) = after_list(toks, depth, st, first) {
        if first.len() == 1 && compound_assign_op(kind) is Some {
            let op = compound_assign_op(kind)->0;
            if target is Index || target is Index2D {
                lemma_indexed_read(toks, depth, st, first[0], Some(op), lo);
            } else {
                let place = named_place(target)->0;
                let (s2, rhs) = expr(toks, depth, advanced(st), 0)->Ok_0;
                lemma_compound_read(toks, st, s2, first[0], place, op, rhs, lo);
            }
        } else if first.len() == 1 && kind == TokenKind::Equal && (target is Index
            || target is Index2D) {
            lemma_indexed_read(toks, depth, st, first[0], None, lo);
        } else if kind == TokenKind::Equal {
            let (s2, all) = groups(toks, depth, st, seq![first])->Ok_0;
            reveal(assignment);
            assert(all[0] == seq![first][0]);
            if small(s2.ast) {
                lemma_list_kept(toks, st.ast, s2.ast, lo, st.pos, first, 0);
                lemma_lists_on(toks, s2.ast, lo, st.pos, s2.pos, all, 0);
                lemma_lists_there(toks, s2.ast, lo, s2.pos, all, 0);
                let values = all.last();
                let targets = all.drop_last();
                let count = values.len() as int;
                lemma_no_bad_group(s2, targets, count, 0);
                let places = Seq::new(targets.len(), |i: int| places_of(s2, targets[i]));
                assert forall|i: int| 0 <= i < places.len() implies (
                #[trigger] places[i]).len() == values.len() && all[i].len() == values.len() by {
                    assert(group_error(s2, targets[i], count) is None);
                }
                assert forall|i: int, j: int|
                    0 <= i < places.len() && 0 <= j < values.len() implies names_place(
                    s2.ast,
                    all[i][j],
                    #[trigger] places[i][j],
                ) by {
                    assert(group_error(s2, targets[i], count) is None);
                    assert(targets[i] == all[i]);
                    assert(expr_place(s2, targets[i][j]) is Some);
                    assert(all[i][j].0 < s2.ast.nodes.len());
                }
                assert(assigns(s2.ast, all, places, values));
            }
        }
    }
}

proof fn lemma_compound_read(
    toks: Seq<TokenView>,
    st: ParseState,
    s2: ParseState,
    target: ExprId,
    place: Place,
    op: BinOp,
    rhs: ExprId,
    lo: int,
)
    requires
        updating(toks[st.pos].kind) == Some(op),
        continues(st.ast, s2.ast),
        sound(s2.ast),
        small(st.ast) ==> reads_whole(toks, st.ast, lo, st.pos, target),
        named_place(st.ast.nodes[target.0 as int]) == Some(place),
        small(s2.ast) ==> reads_whole(toks, s2.ast, st.pos + 1, s2.pos, rhs),
    ensures
        ({
            let (s3, read) = compound(toks, s2, target, place, op, rhs);
            small(s3.ast) ==> sentence(toks, s3.ast, lo, s3.pos, read)
        }),
{
    let span = s2.ast.spans[target.0 as int];
    let (s3, read) = push(toks, s2, place_read(place), span.start);
    lemma_pushed(toks, st.ast, s2, place_read(place), span.start);
    let node = NodeView::Bin(op, read, rhs);
    lemma_pushed(toks, st.ast, s3, node, span.start);
    let (s4, value) = push(toks, s3, node, span.start);
    if small(s4.ast) {
        lemma_whole_kept(toks, st.ast, s4.ast, lo, st.pos, target);
        assert(further(s2.ast, s4.ast));
        lemma_whole_kept(toks, s2.ast, s4.ast, st.pos + 1, s2.pos, rhs);
        assert(s4.ast.nodes[target.0 as int] == st.ast.nodes[target.0 as int]);
        assert(s4.ast.nodes[read.0 as int] == s3.ast.nodes[read.0 as int]);
        assert(names_place(s4.ast, target, place) && toks[st.pos] == toks[st.pos]);
        assert(updates(toks, s4.ast, lo, s4.pos, place, value));
        assert(seq![seq![place]][0] == seq![place] && seq![place][0] == place);
        assert(seq![value][0] == value);
    }
}

proof fn lemma_indexed_read(
    toks: Seq<TokenView>,
    depth: nat,
    st: ParseState,
    target: ExprId,
    op: Option<BinOp>,
    lo: int,
)
    requires
        sound(st.ast),
        depth <= 256,
        st.ast.nodes[target.0 as int] is Index || st.ast.nodes[target.0 as int] is Index2D,
        toks[st.pos].kind == TokenKind::Equal ==> op is None,
        toks[st.pos].kind != TokenKind::Equal ==> op is Some && updating(toks[st.pos].kind) == op,
        small(st.ast) ==> reads_whole(toks, st.ast, lo, st.pos, target),
    ensures
        indexed_assign(toks, depth, st, st.ast.nodes[target.0 as int], op) matches Ok((s1, read))
            ==> (small(s1.ast) ==> sentence(toks, s1.ast, lo, s1.pos, read)),
{
    let node = st.ast.nodes[target.0 as int];
    unfold_indexed_assign(toks, depth, st, node, op);
    lemma_whole(toks, depth, advanced(st));
    if let Ok((s1, read)) = indexed_assign(toks, depth, st, node, op) {
        if small(s1.ast) {
            lemma_object_there(toks, st.ast, lo, st.pos, target, 0, 257);
            lemma_whole_kept(toks, st.ast, s1.ast, lo, st.pos, target);
            let (object, by) = match node {
                NodeView::Index(array, index) => (array, seq![index]),
                NodeView::Index2D(matrix, row, col) => (matrix, seq![row, col]),
                _ => (target, Seq::empty()),
            };
            let place = expr_place(st, object)->0;
            assert(s1.ast.nodes[target.0 as int] == node);
            assert(s1.ast.nodes[object.0 as int] == st.ast.nodes[object.0 as int]);
            assert(names_place(s1.ast, object, place));
            assert(selects(s1.ast, target, place, by) && toks[st.pos] == toks[st.pos]);
        }
    }
}

/// Statements from the one at `from` on, with line ends between them.
pub open spec fn one_by_one(
    toks: Seq<TokenView>,
    ast: AstView,
    lo: int,
    hi: int,
    stmts: Seq<StmtView>,
    from: int,
) -> bool
    decreases stmts.len() - from,
{
    if 0 <= from < stmts.len() {
        exists|k: int, m: int|
            k <= m && #[trigger] wraps(toks, k, m) && sentence(toks, ast, lo, k, stmts[from])
                && one_by_one(toks, ast, m, hi, stmts, from + 1)
    } else {
        lo == hi
    }
}

/// The statements of a body are in turn what was read one by one.
proof fn lemma_body_in_turn(
    toks: Seq<TokenView>,
    ast: AstView,
    lo: int,
    hi: int,
    stmts: Seq<StmtView>,
    from: int,
)
    requires
        one_by_one(toks, ast, lo, hi, stmts, from),
        0 <= from <= with_result(stmts).stmts.len(),
    ensures
        in_turn(toks, ast, lo, hi, with_result(stmts), from),
    decreases stmts.len() - from,
{
    let body = with_result(stmts);
    if from < stmts.len() {
        let (k, m) = choose|k: int, m: int|
            k <= m && #[trigger] wraps(toks, k, m) && sentence(toks, ast, lo, k, stmts[from])
                && one_by_one(toks, ast, m, hi, stmts, from + 1);
        assert(wraps(toks, k, m));
        if from < body.stmts.len() {
            assert(body.stmts[from] == stmts[from]);
            lemma_body_in_turn(toks, ast, m, hi, stmts, from + 1);
        } else {
            assert(m == hi);
        }
    }
}

proof fn lemma_dropped(toks: Seq<TokenView>, st: ParseState)
    ensures
        wraps(toks, st.pos, drop_dedents(toks, st).pos),
        st.pos <= drop_dedents(toks, st).pos,
        drop_dedents(toks, st).ast == st.ast,
    decreases st.pending,
{
    if st.pending > 0 && toks[st.pos].kind == TokenKind::Dedent {
        lemma_dropped(toks, ParseState { pos: st.pos + 1, pending: st.pending - 1, ..st });
    }
}

/// Between two statements, and behind the last one, lines end.
proof fn lemma_line_ends(toks: Seq<TokenView>, st: ParseState)
    ensures
        block_end(toks, swallow_dedents(toks, st)) matches Ok((s1, _)) ==> wraps(
            toks,
            st.pos,
            s1.pos,
        ) && st.pos <= s1.pos && s1.ast == st.ast,
{
    reveal(block_end);
    lemma_dropped(toks, st);
    lemma_dropped(toks, advanced(st));
}

proof fn lemma_stmts_read(
    toks: Seq<TokenView>,
    depth: nat,
    st: ParseState,
    done: Seq<StmtView>,
)
    requires
        sound(st.ast),
        depth <= 256,
    ensures
        block_stmts(toks, depth, st, done) matches Ok((s1, all)) ==> {
            &&& continues(st.ast, s1.ast)
            &&& sound(s1.ast)
            &&& all.len() >= done.len()
            &&& forall|i: int| 0 <= i < done.len() ==> #[trigger] all[i] == done[i]
            &&& small(s1.ast) ==> one_by_one(
                toks,
                s1.ast,
                st.pos,
                s1.pos,
                all,
                done.len() as int,
            )
        },
    decreases 257 - depth, 9int, toks.len() - st.pos,
{
    unfold_block_stmts(toks, depth, st, done);
    lemma_stmt(toks, depth, st);
    lemma_stmt_read(toks, depth, st);
    if let Ok((s1, read)) = stmt(toks, depth, st) {
        lemma_line_ends(toks, s1);
        if let Ok((s2, ended)) = block_end(toks, swallow_dedents(toks, s1)) {
            let more = done.push(read);
            let at = done.len() as int;
            if ended {
                assert(wraps(toks, s1.pos, s2.pos));
                assert(one_by_one(toks, s2.ast, s2.pos, s2.pos, more, at + 1));
            } else if moved(toks, st, s2) {
                lemma_stmts_read(toks, depth, s2, more);
                if let Ok((s3, all)) = block_stmts(toks, depth, s2, more) {
                    assert(all[at] == more[at]);
                    assert forall|i: int| 0 <= i < done.len() implies #[trigger] all[i]
                        == done[i] by {
                        assert(all[i] == more[i]);
                    }
                    if small(s3.ast) {
                        lemma_sentence_kept(toks, s1.ast, s3.ast, st.pos, s1.pos, read);
                        assert(wraps(toks, s1.pos, s2.pos));
                    }
                }
            }
        }
    }
}

proof fn lemma_block_read(toks: Seq<TokenView>, depth: nat, st: ParseState)
    requires
        sound(st.ast),
        depth <= 256,
    ensures
        block(toks, depth, st) matches Ok((s1, body)) ==> {
            &&& continues(st.ast, s1.ast)
            &&& sound(s1.ast)
            &&& small(s1.ast) ==> indented(toks, s1.ast, st.pos, s1.pos, body)
        },
    decreases 257 - depth, 0int, 0int,
{
    unfold_block(toks, depth, st);
    if depth < MAX_NESTING_DEPTH {
        if let Ok((s1, _)) = expect(toks, st, TokenKind::Newline) {
            if let Ok((s2, _)) = expect(toks, s1, TokenKind::Indent) {
                lemma_stmts_read(toks, depth + 1, s2, Seq::empty());
                if let Ok((s3, stmts)) = block_stmts(toks, depth + 1, s2, Seq::empty()) {
                    if small(s3.ast) {
                        lemma_body_in_turn(toks, s3.ast, s2.pos, s3.pos, stmts, 0);
                    }
                }
            }
        }
    }
}

/// The names of a `for` behind those in `done`.
proof fn lemma_binders_read(toks: Seq<TokenView>, st: ParseState, done: Seq<SymId>)
    ensures
        more_binders(toks, st, done) matches Ok((s1, all)) ==> {
            &&& continues(st.ast, s1.ast)
            &&& s1.ast.nodes == st.ast.nodes
            &&& all.len() >= done.len()
            &&& s1.pos == st.pos + 2 * (all.len() - done.len())
            &&& forall|i: int| 0 <= i < done.len() ==> #[trigger] all[i] == done[i]
            &&& forall|i: int|
                done.len() <= i < all.len() ==> bound_at(
                    toks,
                    s1.ast,
                    #[trigger] all[i],
                    st.pos + 2 * (i - done.len()) + 1,
                    false,
                )
        },
    decreases toks.len() - st.pos,
{
    if 0 <= st.pos < toks.len() && toks[st.pos].kind == TokenKind::Comma {
        let s0 = advanced(st);
        lemma_interned(s0, toks[s0.pos]);
        if let Ok((s1, sym_id)) = binder(toks, s0) {
            if moved(toks, st, s1) {
                let more = done.push(sym_id);
                lemma_binders_read(toks, s1, more);
                if let Ok((s2, all)) = more_binders(toks, s1, more) {
                    let at = done.len() as int;
                    assert(all[at] == more[at]);
                    assert forall|i: int| 0 <= i < done.len() implies #[trigger] all[i]
                        == done[i] by {
                        assert(all[i] == more[i]);
                    }
                    assert forall|i: int| done.len() <= i < all.len() implies bound_at(
                        toks,
                        s2.ast,
                        #[trigger] all[i],
                        st.pos + 2 * (i - done.len()) + 1,
                        false,
                    ) by {
                        if i > at {
                            let k = s1.pos + 2 * (i - more.len()) + 1;
                            assert(bound_at(toks, s2.ast, all[i], k, false));
                            assert(k == st.pos + 2 * (i - done.len()) + 1);
                        } else {
                            assert(spelled(s1.ast, sym_id, toks[s0.pos]));
                        }
                    }
                    assert(continues(st.ast, s1.ast));
                    assert(continues(st.ast, s2.ast));
                }
            }
        }
    }
}

proof fn lemma_for_read(toks: Seq<TokenView>, depth: nat, st: ParseState)
    requires
        sound(st.ast),
        depth <= 256,
        toks[st.pos].kind == TokenKind::KwFor,
    ensures
        for_stmt(toks, depth, st) matches Ok((s1, read)) ==> (small(s1.ast) ==> sentence(
            toks,
            s1.ast,
            st.pos,
            s1.pos,
            read,
        )),
    decreases 257 - depth, 7int, 0int,
{
    unfold_for_stmt(toks, depth, st);
    let s0 = advanced(st);
    lemma_interned(s0, toks[s0.pos]);
    if let Ok((s1, first)) = binder(toks, s0) {
        lemma_binders_read(toks, s1, seq![first]);
        if let Ok((s2, binders)) = more_binders(toks, s1, seq![first]) {
            if let Ok((s3, _)) = expect(toks, s2, TokenKind::KwIn) {
                assert(sound(s3.ast));
                lemma_whole(toks, depth, s3);
                if let Ok((s4, source)) = expr(toks, depth, s3, 0) {
                    lemma_block_read(toks, depth, s4);
                    if let Ok((s5, body)) = block(toks, depth, s4) {
                        if small(s5.ast) {
                            let n = binders.len() as int;
                            assert(binders[0] == seq![first][0]);
                            lemma_whole_kept(toks, s4.ast, s5.ast, s3.pos, s4.pos, source);
                            assert(further(s2.ast, s5.ast));
                            assert forall|i: int| 0 <= i < binders.len() implies bound_at(
                                toks,
                                s5.ast,
                                #[trigger] binders[i],
                                st.pos + 1 + 2 * i,
                                i == 0,
                            ) by {
                                if i > 0 {
                                    let k = s1.pos + 2 * (i - 1) + 1;
                                    assert(bound_at(toks, s2.ast, binders[i], k, false));
                                    assert(k == st.pos + 1 + 2 * i);
                                } else {
                                    assert(spelled(s1.ast, first, toks[s0.pos]));
                                }
                            }
                            assert(s2.pos == st.pos + 2 * n);
                            assert(s3.pos == st.pos + 2 * binders.len() + 1);
                            assert(toks[st.pos + 2 * binders.len()].kind == TokenKind::KwIn);
                            assert(binds(toks, s5.ast, st.pos + 1, binders));
                            assert(counts_through(toks, s5.ast, st.pos, s4.pos, binders, source));
                            assert(n == 1 ==> binders =~= seq![first]);
                            assert(spot(s4.pos));
                        }
                    }
                }
            }
        }
    }
}

proof fn lemma_stmt_read(toks: Seq<TokenView>, depth: nat, st: ParseState)
    requires
        sound(st.ast),
        depth <= 256,
    ensures
        stmt(toks, depth, st) matches Ok((s1, read)) ==> (small(s1.ast) ==> sentence(
            toks,
            s1.ast,
            st.pos,
            s1.pos,
            read,
        )),
    decreases 257 - depth, 8int, 0int,
{
    unfold_stmt(toks, depth, st);
    match toks[st.pos].kind {
        TokenKind::KwWhile => {
            lemma_whole(toks, depth, advanced(st));
            if let Ok((s1, cond)) = expr(toks, depth, advanced(st), 0) {
                lemma_block_read(toks, depth, s1);
                if let Ok((s2, body)) = block(toks, depth, s1) {
                    if small(s2.ast) {
                        lemma_whole_kept(toks, s1.ast, s2.ast, st.pos + 1, s1.pos, cond);
                        assert(spot(s1.pos));
                    }
                }
            }
        },
        TokenKind::KwLoop => {
            unfold_loop_stmt(toks, depth, st);
            lemma_block_read(toks, depth, advanced(st));
            if let Ok((s1, body)) = block(toks, depth, advanced(st)) {
                lemma_whole(toks, depth, advanced(s1));
                if let Ok((s2, cond)) = expr(toks, depth, advanced(s1), 0) {
                    if small(s2.ast) {
                        lemma_indented_kept(toks, s1.ast, s2.ast, st.pos + 1, s1.pos, body);
                        assert(toks[s1.pos] == toks[s1.pos]);
                    }
                }
            }
        },
        TokenKind::KwFor => {
            lemma_for_read(toks, depth, st);
        },
        _ => {
            lemma_list_read(toks, depth, st);
            if let Ok((s1, first)) = expr_list(toks, depth, st) {
                lemma_after_list_read(toks, depth, s1, first, st.pos);
            }
        },
    }
}

proof fn lemma_branching_kept(
    toks: Seq<TokenView>,
    a: AstView,
    b: AstView,
    lo: int,
    hi: int,
    arms: Seq<IfArmView>,
    from: int,
    else_block: Option<BlockView>,
)
    requires
        further(a, b),
        0 <= from <= arms.len(),
        branching(toks, a, lo, hi, arms, from, else_block),
    ensures
        branching(toks, b, lo, hi, arms, from, else_block),
    decreases arms.len() - from,
{
    if from < arms.len() {
        let (k, m) = choose|k: int, m: int| #[trigger]
            spot(k) && #[trigger] spot(m) && reads_whole(toks, a, lo + 1, k, arms[from].cond)
                && indented(toks, a, k, m, arms[from].body) && branching(
                toks,
                a,
                m,
                hi,
                arms,
                from + 1,
                else_block,
            );
        lemma_whole_kept(toks, a, b, lo + 1, k, arms[from].cond);
        lemma_indented_kept(toks, a, b, k, m, arms[from].body);
        lemma_branching_kept(toks, a, b, m, hi, arms, from + 1, else_block);
        assert(spot(k) && spot(m));
    } else if let Some(body) = else_block {
        lemma_indented_kept(toks, a, b, lo + 1, hi, body);
    }
}

proof fn lemma_arms_read(
    toks: Seq<TokenView>,
    depth: nat,
    st: ParseState,
    done: Seq<IfArmView>,
)
    requires
        sound(st.ast),
        depth <= 256,
        done.len() > 0,
    ensures
        if_tail(toks, depth, st, done) matches Ok((s1, (arms, else_block))) ==> {
            &&& continues(st.ast, s1.ast)
            &&& sound(s1.ast)
            &&& arms.len() >= done.len()
            &&& forall|i: int| 0 <= i < done.len() ==> #[trigger] arms[i] == done[i]
            &&& small(s1.ast) ==> branching(
                toks,
                s1.ast,
                st.pos,
                s1.pos,
                arms,
                done.len() as int,
                else_block,
            )
        },
    decreases toks.len() - st.pos,
{
    unfold_if_tail(toks, depth, st, done);
    match toks[st.pos].kind {
        TokenKind::KwElif => {
            lemma_whole(toks, depth, advanced(st));
            if let Ok((s1, cond)) = expr(toks, depth, advanced(st), 0) {
                lemma_block_read(toks, depth, s1);
                if let Ok((s2, body)) = block(toks, depth, s1) {
                    if moved(toks, st, s2) {
                        let more = done.push(IfArmView { cond, body });
                        lemma_arms_read(toks, depth, s2, more);
                        if let Ok((s3, (arms, else_block))) = if_tail(toks, depth, s2, more) {
                            let at = done.len() as int;
                            assert(arms[at] == more[at]);
                            assert forall|i: int| 0 <= i < done.len() implies #[trigger] arms[i]
                                == done[i] by {
                                assert(arms[i] == more[i]);
                            }
                            if small(s3.ast) {
                                lemma_whole_kept(toks, s1.ast, s3.ast, st.pos + 1, s1.pos, cond);
                                lemma_indented_kept(toks, s2.ast, s3.ast, s1.pos, s2.pos, body);
                                assert(spot(s1.pos) && spot(s2.pos));
                            }
                        }
                    }
                }
            }
        },
        TokenKind::KwElse => {
            lemma_block_read(toks, depth, advanced(st));
        },
        _ => {},
    }
}

proof fn lemma_params_read(
    toks: Seq<TokenView>,
    st: ParseState,
    first: TokenView,
    done: Seq<Param>,
)
    ensures
        param_list(toks, st, first, done) matches Ok((s1, all)) ==> {
            &&& continues(st.ast, s1.ast)
            &&& s1.ast.nodes == st.ast.nodes
            &&& all.len() > done.len()
            &&& s1.pos == st.pos + 4 * (all.len() - done.len()) - 1
            &&& forall|i: int| 0 <= i < done.len() ==> #[trigger] all[i] == done[i]
            &&& forall|i: int|
                done.len() <= i < all.len() ==> param_at(
                    toks,
                    s1.ast,
                    #[trigger] all[i],
                    st.pos + 4 * (i - done.len()),
                    i == done.len(),
                )
        },
    decreases toks.len() - st.pos,
{
    reveal(type_annotation);
    if let Ok((s1, name_token)) = expect(toks, st, TokenKind::Identifier) {
        let (s2, name) = intern(s1, name_token.text);
        lemma_interned(s1, name_token);
        if let Ok((s3, _)) = expect(toks, s2, TokenKind::Colon) {
            if let Ok((s4, param_type)) = type_annotation(toks, s3) {
                let param = Param { name, param_type };
                let more = done.push(param);
                let at = done.len() as int;
                assert(continues(st.ast, s4.ast));
                assert(param_at(toks, s4.ast, param, st.pos, true));
                if toks[s4.pos].kind != TokenKind::Comma {
                    assert(more[at] == param);
                } else if moved(toks, st, advanced(s4)) {
                    lemma_params_read(toks, advanced(s4), first, more);
                    if let Ok((s5, all)) = param_list(toks, advanced(s4), first, more) {
                        assert(all[at] == more[at]);
                        assert forall|i: int| 0 <= i < done.len() implies #[trigger] all[i]
                            == done[i] by {
                            assert(all[i] == more[i]);
                        }
                        assert(continues(st.ast, s5.ast));
                        assert forall|i: int| done.len() <= i < all.len() implies param_at(
                            toks,
                            s5.ast,
                            #[trigger] all[i],
                            st.pos + 4 * (i - done.len()),
                            i == done.len(),
                        ) by {
                            if i > at {
                                let k = s4.pos + 1 + 4 * (i - more.len());
                                assert(k == st.pos + 4 * (i - done.len()));
                                assert(param_at(toks, s5.ast, all[i], k, i == more.len()));
                                assert(i == at + 1 ==> toks[k - 1].kind == TokenKind::Comma);
                            }
                        }
                    }
                }
            }
        }
    }
}

proof fn lemma_func_body_read(toks: Seq<TokenView>, st: ParseState, has_return_type: bool)
    requires
        sound(st.ast),
    ensures
        func_body(toks, st, has_return_type) matches Ok((s1, body)) ==> {
            &&& continues(st.ast, s1.ast)
            &&& sound(s1.ast)
            &&& small(s1.ast) ==> carries_out(toks, s1.ast, st.pos, s1.pos, body)
        },
{
    reveal(func_body);
    lemma_block_read(toks, 0, st);
    lemma_whole(toks, 0, st);
}

proof fn lemma_func_read(toks: Seq<TokenView>, st: ParseState)
    requires
        sound(st.ast),
    ensures
        func_def(toks, st) matches Ok((s1, func)) ==> {
            &&& continues(st.ast, s1.ast)
            &&& sound(s1.ast)
            &&& small(s1.ast) ==> defines(toks, s1.ast, st.pos, s1.pos, func)
        },
{
    reveal(func_def);
    reveal(params);
    reveal(type_annotation);
    let name_token = toks[st.pos];
    let (s1, name) = intern(advanced(st), name_token.text);
    lemma_interned(advanced(st), name_token);
    if let Ok((s2, _)) = expect(toks, s1, TokenKind::LParen) {
        lemma_params_read(toks, s2, toks[s2.pos], Seq::empty());
        if let Ok((s3, all)) = params(toks, s2, name_token) {
            if let Ok((s4, _)) = expect(toks, s3, TokenKind::RParen) {
                let has_return_type = toks[s4.pos].kind == TokenKind::Colon;
                let annotated = if has_return_type {
                    type_annotation(toks, advanced(s4))
                } else {
                    Ok((s4, PinpType::Void))
                };
                if let Ok((s5, return_type)) = annotated {
                    if let Ok((s6, _)) = expect(toks, s5, TokenKind::KwIs) {
                        assert(continues(st.ast, s6.ast) && sound(s6.ast));
                        lemma_func_body_read(toks, s6, has_return_type);
                        if let Ok((s7, body)) = func_body(toks, s6, has_return_type) {
                            if small(s7.ast) {
                                let close = params_end(st.pos + 2, all.len() as int);
                                assert(s3.pos == close);
                                assert forall|i: int| 0 <= i < all.len() implies param_at(
                                    toks,
                                    s7.ast,
                                    #[trigger] all[i],
                                    st.pos + 2 + 4 * i,
                                    i == 0,
                                ) by {
                                    assert(param_at(toks, s3.ast, all[i], s2.pos + 4 * i, i == 0));
                                }
                            }
                        }
                    }
                }
            }
        }
    }
}

proof fn lemma_skipped(toks: Seq<TokenView>, pos: int)
    ensures
        wraps(toks, pos, after_separators(toks, pos)),
    decreases toks.len() - pos,
{
    if 0 <= pos < toks.len() && is_separator(toks[pos].kind) {
        lemma_skipped(toks, pos + 1);
    }
}

proof fn lemma_item_kept(
    toks: Seq<TokenView>,
    a: AstView,
    b: AstView,
    lo: int,
    hi: int,
    item: TopLevelView,
)
    requires
        further(a, b),
        item_at(toks, a, lo, hi, item),
    ensures
        item_at(toks, b, lo, hi, item),
{
    match item {
        TopLevelView::Stmt(stmt) => {
            lemma_sentence_kept(toks, a, b, lo, hi, stmt);
        },
        TopLevelView::Func(func) => {
            let close = params_end(lo + 2, func.params.len() as int);
            let start = if toks[close + 1].kind == TokenKind::Colon {
                close + 4
            } else {
                close + 2
            };
            if indented(toks, a, start, hi, func.body) {
                lemma_indented_kept(toks, a, b, start, hi, func.body);
            } else {
                lemma_whole_kept(toks, a, b, start, hi, func.body.result->0);
            }
            assert forall|i: int| 0 <= i < func.params.len() implies param_at(
                toks,
                b,
                #[trigger] func.params[i],
                lo + 2 + 4 * i,
                i == 0,
            ) by {
                assert(param_at(toks, a, func.params[i], lo + 2 + 4 * i, i == 0));
            }
        },
    }
}

proof fn lemma_program_read(toks: Seq<TokenView>, st: ParseState)
    requires
        sound(st.ast),
    ensures
        program(toks, st) matches Ok(ast) ==> {
            &&& further(st.ast, ast)
            &&& ast.top_level.len() >= st.ast.top_level.len()
            &&& forall|i: int|
                0 <= i < st.ast.top_level.len() ==> #[trigger] ast.top_level[i]
                    == st.ast.top_level[i]
            &&& small(ast) ==> follows_on(
                toks,
                ast,
                st.pos,
                ast.top_level,
                st.ast.top_level.len() as int,
            )
        },
    decreases toks.len() - st.pos,
{
    let s0 = ParseState { pos: after_separators(toks, st.pos), pending: 0, ..st };
    lemma_skipped(toks, st.pos);
    assert(wraps(toks, st.pos, s0.pos));
    if toks[s0.pos].kind != TokenKind::Eof {
        reveal(top_level_item);
        lemma_stmt(toks, 0, s0);
        lemma_stmt_read(toks, 0, s0);
        lemma_func_read(toks, s0);
        if let Ok((s1, item)) = top_level_item(toks, s0) {
            if moved(toks, st, s1) {
                let at = st.ast.top_level.len() as int;
                let s2 = ParseState {
                    ast: AstView { top_level: s1.ast.top_level.push(item), ..s1.ast },
                    ..s1
                };
                assert(sound(s2.ast));
                lemma_program_read(toks, s2);
                if let Ok(ast) = program(toks, s2) {
                    assert(ast.top_level[at] == s2.ast.top_level[at]);
                    assert forall|i: int| 0 <= i < st.ast.top_level.len() implies
                        #[trigger] ast.top_level[i] == st.ast.top_level[i] by {
                        assert(ast.top_level[i] == s2.ast.top_level[i]);
                    }
                    assert(further(s1.ast, ast));
                    if small(ast) {
                        lemma_item_kept(toks, s1.ast, ast, s0.pos, s1.pos, item);
                        assert(spot(s1.pos));
                    }
                }
            }
        }
    }
}

proof fn lemma_row_kept(
    toks: Seq<TokenView>,
    a: AstView,
    b: AstView,
    lo: int,
    hi: int,
    row: Seq<ExprId>,
)
    requires
        further(a, b),
        reads_row(toks, a, lo, hi, row),
    ensures
        reads_row(toks, b, lo, hi, row),
{
    let end = choose|end: int| #[trigger]
        row_end(toks, end, hi) && reads_list(toks, a, lo, end, row, 0);
    lemma_list_kept(toks, a, b, lo, end, row, 0);
    assert(row_end(toks, end, hi));
}

proof fn lemma_rows_kept(
    toks: Seq<TokenView>,
    a: AstView,
    b: AstView,
    lo: int,
    hi: int,
    rows: Seq<Seq<ExprId>>,
    from: int,
)
    requires
        further(a, b),
        reads_rows(toks, a, lo, hi, rows, from),
    ensures
        reads_rows(toks, b, lo, hi, rows, from),
    decreases rows.len() - from,
{
    if from == rows.len() - 1 {
        lemma_row_kept(toks, a, b, lo, hi, rows[from]);
    } else {
        let k = choose|k: int|
            (#[trigger] toks[k]).kind == TokenKind::Semicolon && reads_row(
                toks,
                a,
                lo,
                k,
                rows[from],
            ) && reads_rows(toks, a, k + 1, hi, rows, from + 1);
        lemma_row_kept(toks, a, b, lo, k, rows[from]);
        lemma_rows_kept(toks, a, b, k + 1, hi, rows, from + 1);
        assert(toks[k] == toks[k]);
    }
}

/// The elements of a row behind those in `done`.
proof fn lemma_row_tail(
    toks: Seq<TokenView>,
    depth: nat,
    st: ParseState,
    done: Seq<ExprId>,
)
    requires
        sound(st.ast),
        depth <= 256,
    ensures
        row(toks, depth, st, done) matches Ok((s1, all)) ==> {
            &&& continues(st.ast, s1.ast)
            &&& sound(s1.ast)
            &&& all.len() >= done.len()
            &&& forall|i: int| 0 <= i < done.len() ==> #[trigger] all[i] == done[i]
            &&& small(s1.ast) ==> exists|end: int| #[trigger]
                row_end(toks, end, s1.pos) && list_goes_on(
                    toks,
                    s1.ast,
                    st.pos,
                    end,
                    all,
                    done.len() as int,
                )
        },
    decreases toks.len() - st.pos,
{
    unfold_row(toks, depth, st, done);
    let s1 = advanced(st);
    if toks[st.pos].kind != TokenKind::Comma {
        assert(row_end(toks, st.pos, st.pos));
    } else if toks[s1.pos].kind == TokenKind::RBracket {
        assert(row_end(toks, st.pos, s1.pos));
    } else {
        lemma_whole(toks, depth, s1);
        if let Ok((s2, element)) = expr(toks, depth, s1, 0) {
            if moved(toks, st, s2) {
                let more = done.push(element);
                lemma_row_tail(toks, depth, s2, more);
                if let Ok((s3, all)) = row(toks, depth, s2, more) {
                    let at = done.len() as int;
                    assert(all[at] == more[at]);
                    assert forall|i: int| 0 <= i < done.len() implies #[trigger] all[i]
                        == done[i] by {
                        assert(all[i] == more[i]);
                    }
                    if small(s3.ast) {
                        let end = choose|end: int| #[trigger]
                            row_end(toks, end, s3.pos) && list_goes_on(
                                toks,
                                s3.ast,
                                s2.pos,
                                end,
                                all,
                                at + 1,
                            );
                        lemma_whole_kept(toks, s2.ast, s3.ast, s1.pos, s2.pos, element);
                        lemma_list_on(toks, s3.ast, s1.pos, s2.pos, end, all, at);
                        assert(comma(toks, st.pos, s1.pos));
                        assert(row_end(toks, end, s3.pos));
                    }
                }
            }
        }
    }
}

/// A row whose first element has been read.
proof fn lemma_row_read(
    toks: Seq<TokenView>,
    depth: nat,
    st: ParseState,
    first: ExprId,
    lo: int,
)
    requires
        sound(st.ast),
        depth <= 256,
        small(st.ast) ==> reads_whole(toks, st.ast, lo, st.pos, first),
    ensures
        row(toks, depth, st, seq![first]) matches Ok((s1, all)) ==> {
            &&& continues(st.ast, s1.ast)
            &&& sound(s1.ast)
            &&& small(s1.ast) ==> reads_row(toks, s1.ast, lo, s1.pos, all)
        },
{
    lemma_row_tail(toks, depth, st, seq![first]);
    if let Ok((s1, all)) = row(toks, depth, st, seq![first]) {
        assert(all[0] == seq![first][0]);
        if small(s1.ast) {
            let end = choose|end: int| #[trigger]
                row_end(toks, end, s1.pos) && list_goes_on(toks, s1.ast, st.pos, end, all, 1);
            lemma_whole_kept(toks, st.ast, s1.ast, lo, st.pos, first);
            lemma_list_on(toks, s1.ast, lo, st.pos, end, all, 0);
            assert(row_end(toks, end, s1.pos));
        }
    }
}

/// The rows of a matrix behind those in `done`, the last of which begins at `lo`.
proof fn lemma_rows_read(
    toks: Seq<TokenView>,
    depth: nat,
    st: ParseState,
    done: Seq<Seq<ExprId>>,
    anchor_col: int,
    lo: int,
)
    requires
        sound(st.ast),
        depth <= 256,
        done.len() > 0,
        small(st.ast) ==> reads_row(toks, st.ast, lo, st.pos, done.last()),
    ensures
        rows(toks, depth, st, done, anchor_col) matches Ok((s1, all)) ==> {
            &&& continues(st.ast, s1.ast)
            &&& sound(s1.ast)
            &&& all.len() >= done.len()
            &&& toks[st.pos].kind == TokenKind::Semicolon ==> all.len() > done.len()
            &&& forall|i: int| 0 <= i < done.len() ==> #[trigger] all[i] == done[i]
            &&& small(s1.ast) ==> reads_rows(toks, s1.ast, lo, s1.pos, all, done.len() - 1)
        },
    decreases toks.len() - st.pos,
{
    unfold_rows(toks, depth, st, done, anchor_col);
    if toks[st.pos].kind == TokenKind::Semicolon {
        let s1 = advanced(st);
        lemma_whole(toks, depth, s1);
        if let Ok((s2, first)) = expr(toks, depth, s1, 0) {
            lemma_row_read(toks, depth, s2, first, s1.pos);
            if let Ok((s3, elements)) = row(toks, depth, s2, seq![first]) {
                if moved(toks, st, s3) {
                    let more = done.push(elements);
                    lemma_rows_read(toks, depth, s3, more, anchor_col, s1.pos);
                    if let Ok((s4, all)) = rows(toks, depth, s3, more, anchor_col) {
                        assert forall|i: int| 0 <= i < done.len() implies #[trigger] all[i]
                            == done[i] by {
                            assert(all[i] == more[i]);
                        }
                        if small(s4.ast) {
                            lemma_row_kept(toks, st.ast, s4.ast, lo, st.pos, done.last());
                            assert(toks[st.pos].kind == TokenKind::Semicolon);
                        }
                    }
                }
            }
        }
    }
}

/// An annotation is the word for its type.
proof fn lemma_annotated(toks: Seq<TokenView>, st: ParseState)
    ensures
        type_annotation(toks, st) matches Ok((s1, t)) ==> s1 == advanced(st) && names_type(
            toks[st.pos],
            t,
        ),
{
    reveal(type_annotation);
}

/// The parts of a comprehension, each as it was when it had been read.
proof fn lemma_gathered(
    toks: Seq<TokenView>,
    before: AstView,
    named: AstView,
    after: AstView,
    b: AstView,
    lo: int,
    k: int,
    hi: int,
    element: ExprId,
    var: SymId,
    t: PinpType,
    source: ExprId,
)
    requires
        further(before, b),
        further(named, b),
        further(after, b),
        toks[k].kind == TokenKind::KwFor,
        reads_whole(toks, before, lo, k, element),
        spelled(named, var, toks[k + 1]),
        if toks[k + 2].kind == TokenKind::Colon {
            &&& names_type(toks[k + 3], t)
            &&& toks[k + 4].kind == TokenKind::KwIn
            &&& reads_whole(toks, after, k + 5, hi, source)
        } else {
            &&& t == PinpType::Int
            &&& toks[k + 2].kind == TokenKind::KwIn
            &&& reads_whole(toks, after, k + 3, hi, source)
        },
    ensures
        gathers(toks, b, lo, hi, element, var, t, source),
{
    reveal(gathers);
    lemma_whole_kept(toks, before, b, lo, k, element);
    if toks[k + 2].kind == TokenKind::Colon {
        lemma_whole_kept(toks, after, b, k + 5, hi, source);
    } else {
        lemma_whole_kept(toks, after, b, k + 3, hi, source);
    }
    assert(spelled(b, var, toks[k + 1]));
}

/// What goes on from what goes on is further.
proof fn lemma_further(a: AstView, b: AstView, c: AstView)
    requires
        further(a, b),
        further(b, c),
    ensures
        further(a, c),
{
}

/// A comprehension behind its element.
proof fn lemma_comprehension_read(
    toks: Seq<TokenView>,
    depth: nat,
    st: ParseState,
    element: ExprId,
    start: u32,
    lo: int,
)
    requires
        sound(st.ast),
        depth <= 256,
        toks[st.pos].kind == TokenKind::KwFor,
        small(st.ast) ==> reads_whole(toks, st.ast, lo, st.pos, element),
    ensures
        comprehension(toks, depth, st, element, start) matches Ok((s1, e)) ==> (small(s1.ast)
            ==> e.0 < s1.ast.nodes.len() && toks[s1.pos - 1].kind == TokenKind::RBracket
            && bracketed(toks, s1.ast, lo, s1.pos - 1, s1.ast.nodes[e.0 as int])),
{
    unfold_comprehension(toks, depth, st, element, start);
    let s0 = advanced(st);
    if let Ok((s1, name)) = expect(toks, s0, TokenKind::Identifier) {
        let (s2, var) = intern(s1, name.text);
        lemma_interned(s1, name);
        lemma_annotated(toks, advanced(s2));
        assert(s2.ast.nodes == st.ast.nodes && further(st.ast, s2.ast));
        let annotated = if toks[s2.pos].kind == TokenKind::Colon {
            type_annotation(toks, advanced(s2))
        } else {
            Ok((s2, PinpType::Int))
        };
        if let Ok((s3, var_type)) = annotated {
            assert(s3.ast == s2.ast);
            if let Ok((s4, _)) = expect(toks, s3, TokenKind::KwIn) {
                lemma_source_read(toks, depth, st, s2, s4, element, var, var_type, start, lo);
            }
        }
    }
}

/// The source of a comprehension, and the bracket behind it.
proof fn lemma_source_read(
    toks: Seq<TokenView>,
    depth: nat,
    st: ParseState,
    s2: ParseState,
    s4: ParseState,
    element: ExprId,
    var: SymId,
    t: PinpType,
    start: u32,
    lo: int,
)
    requires
        sound(st.ast),
        depth <= 256,
        toks[st.pos].kind == TokenKind::KwFor,
        small(st.ast) ==> reads_whole(toks, st.ast, lo, st.pos, element),
        s4.ast == s2.ast,
        s2.ast.nodes == st.ast.nodes,
        further(st.ast, s2.ast),
        spelled(s2.ast, var, toks[st.pos + 1]),
        if toks[st.pos + 2].kind == TokenKind::Colon {
            &&& names_type(toks[st.pos + 3], t)
            &&& toks[st.pos + 4].kind == TokenKind::KwIn
            &&& s4.pos == st.pos + 5
        } else {
            &&& t == PinpType::Int
            &&& toks[st.pos + 2].kind == TokenKind::KwIn
            &&& s4.pos == st.pos + 3
        },
    ensures
        expr(toks, depth, s4, 0) matches Ok((s5, source)) ==> (expect(
            toks,
            s5,
            TokenKind::RBracket,
        ) matches Ok((s6, _)) ==> {
            let node = NodeView::Comprehension(element, var, t, source);
            let (s7, e) = push(toks, s6, node, start);
            small(s7.ast) ==> e.0 < s7.ast.nodes.len() && toks[s7.pos - 1].kind
                == TokenKind::RBracket && bracketed(
                toks,
                s7.ast,
                lo,
                s7.pos - 1,
                s7.ast.nodes[e.0 as int],
            )
        }),
{
    assert(sound(s4.ast));
    lemma_whole(toks, depth, s4);
    if let Ok((s5, source)) = expr(toks, depth, s4, 0) {
        if let Ok((s6, _)) = expect(toks, s5, TokenKind::RBracket) {
            let node = NodeView::Comprehension(element, var, t, source);
            lemma_pushed(toks, s5.ast, s6, node, start);
            let (s7, e) = push(toks, s6, node, start);
            if small(s7.ast) {
                assert(further(s5.ast, s7.ast));
                lemma_further(s2.ast, s5.ast, s7.ast);
                lemma_further(st.ast, s2.ast, s7.ast);
                lemma_gathered(
                    toks,
                    st.ast,
                    s2.ast,
                    s5.ast,
                    s7.ast,
                    lo,
                    st.pos,
                    s5.pos,
                    element,
                    var,
                    t,
                    source,
                );
            }
        }
    }
}

// ---------------------------------------------------------------------------
// The laws
// ---------------------------------------------------------------------------

/// Whatever is parsed as a statement is written with the words of that statement, in their order,
/// and its expressions and the statements of its body stand where they belong.
pub proof fn statements_are_written_so(toks: Seq<TokenView>, depth: nat, st: ParseState)
    requires
        sound(st.ast),
        depth <= 256,
    ensures
        stmt(toks, depth, st) matches Ok((s1, read)) ==> (small(s1.ast) ==> sentence(
            toks,
            s1.ast,
            st.pos,
            s1.pos,
            read,
        )),
{
    lemma_stmt_read(toks, depth, st);
}

/// An `if` over several lines is written as its arms in their order, each condition before its body,
/// and the `else` last.
pub proof fn branches_are_written_so(toks: Seq<TokenView>, depth: nat, st: ParseState)
    requires
        sound(st.ast),
        depth <= 256,
        toks[st.pos].kind == TokenKind::KwIf,
    ensures
        if_expr(toks, depth, st) matches Ok((s1, e)) ==> (small(s1.ast) ==> e.0
            < s1.ast.nodes.len() && (s1.ast.nodes[e.0 as int] matches NodeView::If(
            arms,
            else_block,
        ) && arms.len() > 0 && branching(toks, s1.ast, st.pos, s1.pos, arms, 0, else_block))),
{
    unfold_if_expr(toks, depth, st);
    lemma_whole(toks, depth, advanced(st));
    if let Ok((s1, cond)) = expr(toks, depth, advanced(st), 0) {
        lemma_block_read(toks, depth, s1);
        if let Ok((s2, body)) = block(toks, depth, s1) {
            let first = seq![IfArmView { cond, body }];
            lemma_arms_read(toks, depth, s2, first);
            if let Ok((s3, (arms, else_block))) = if_tail(toks, depth, s2, first) {
                let node = NodeView::If(arms, else_block);
                let start = offset(toks, st.pos);
                lemma_pushed(toks, st.ast, s3, node, start);
                let (s4, e) = push(toks, s3, node, start);
                assert(arms[0] == first[0]);
                if small(s4.ast) {
                    assert(further(s3.ast, s4.ast));
                    lemma_branching_kept(toks, s3.ast, s4.ast, s2.pos, s3.pos, arms, 1, else_block);
                    lemma_whole_kept(toks, s1.ast, s4.ast, st.pos + 1, s1.pos, cond);
                    lemma_indented_kept(toks, s2.ast, s4.ast, s1.pos, s2.pos, body);
                    assert(spot(s1.pos) && spot(s2.pos));
                }
            }
        }
    }
}

/// What stands in square brackets is written as its elements in their order, with `,` between the
/// elements of a row and `;` between rows, or as a comprehension.
pub proof fn brackets_are_written_so(toks: Seq<TokenView>, depth: nat, st: ParseState)
    requires
        sound(st.ast),
        depth <= 256,
        toks[st.pos].kind == TokenKind::LBracket,
    ensures
        array(toks, depth, st) matches Ok((s1, e)) ==> (small(s1.ast) ==> e.0
            < s1.ast.nodes.len() && toks[s1.pos - 1].kind == TokenKind::RBracket && bracketed(
            toks,
            s1.ast,
            st.pos + 1,
            s1.pos - 1,
            s1.ast.nodes[e.0 as int],
        )),
{
    unfold_array(toks, depth, st);
    let s1 = advanced(st);
    let start = offset(toks, st.pos);
    lemma_whole(toks, depth, s1);
    if let Ok((s2, first)) = expr(toks, depth, s1, 0) {
        if toks[s2.pos].kind == TokenKind::KwFor {
            lemma_comprehension_read(toks, depth, s2, first, start, s1.pos);
        } else {
            lemma_row_read(toks, depth, s2, first, s1.pos);
            if let Ok((s3, first_row)) = row(toks, depth, s2, seq![first]) {
                if toks[s3.pos].kind == TokenKind::Semicolon {
                    let col = toks[s1.pos].col;
                    lemma_rows_read(toks, depth, s3, seq![first_row], col, s1.pos);
                    if let Ok((s4, all)) = rows(toks, depth, s3, seq![first_row], col) {
                        if let Ok((s5, _)) = expect(toks, s4, TokenKind::RBracket) {
                            let node = NodeView::MatrixLiteral(all);
                            lemma_pushed(toks, s4.ast, s5, node, start);
                            let (s6, e) = push(toks, s5, node, start);
                            if small(s6.ast) {
                                lemma_rows_kept(toks, s4.ast, s6.ast, s1.pos, s4.pos, all, 0);
                            }
                        }
                    }
                } else if let Ok((s4, _)) = expect(toks, s3, TokenKind::RBracket) {
                    let node = NodeView::ArrayLiteral(first_row);
                    lemma_pushed(toks, s3.ast, s4, node, start);
                    let (s5, e) = push(toks, s4, node, start);
                    if small(s5.ast) {
                        lemma_row_kept(toks, s3.ast, s5.ast, s1.pos, s3.pos, first_row);
                    }
                }
            }
        }
    }
}

/// A program is its functions and statements in the order in which they are written, with nothing
/// left out and nothing behind the last one.
pub proof fn programs_are_written_so(source: Seq<u8>)
    ensures
        parsed(source) matches Ok(ast) ==> (small(ast) ==> (lexed(source) matches Ok(toks)
            && follows_on(toks, ast, 0, ast.top_level, 0))),
{
    if let Ok(toks) = lexed(source) {
        let st = ParseState {
            pos: 0,
            ast: AstView {
                nodes: Seq::empty(),
                spans: Seq::empty(),
                names: Seq::empty(),
                strings: Seq::empty(),
                top_level: Seq::empty(),
            },
            pending: 0,
        };
        assert(sound(st.ast));
        lemma_program_read(toks, st);
    }
}

} // verus!
