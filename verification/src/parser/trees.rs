//! What is parsed is a tree.
//!
//! Every construct mentions the expressions that were read for it and no others, so in a parsed
//! program no expression is mentioned twice, except for the operand that two comparisons of a chain
//! share.

use crate::lexer::{lexed, TokenKind, TokenView};
use crate::parser::ast::{
    AstView, BinOp, BlockView, ExprId, FStrSegment, IfArmView, NodeView, Param,
    PinpType, Place, StmtView, SymId, TopLevelView, UnOp,
};
use crate::parser::grammar::{
    advanced, after_list, after_separators, array, assignment, binder, block, block_end,
    block_stmts, call, call_args, closing_brace, comparison_op, comparisons, compound,
    compound_assign_op, comprehension, conditional, drop_dedents, expect, expr, expr_list, for_stmt,
    fstring_segments, func_body, func_def, groups, hole_place, if_expr, if_tail, index_tail,
    indexed_assign, infix, int_literal, intern, is_separator, list_tail, loop_stmt, more_binders,
    moved, named_place, negated, offset, only_result, operator, operators, param_list, params,
    parsed, prefix, primary, program, push, push_string, range_kind, range_tail, row, rows,
    selector, skip_wrapping, start_of, stmt, swallow_dedents, top_level_item, type_annotation,
    unfold_after_list, unfold_array, unfold_block, unfold_block_stmts, unfold_call,
    unfold_call_args, unfold_comparisons, unfold_comprehension, unfold_conditional, unfold_expr,
    unfold_expr_list, unfold_for_stmt, unfold_groups, unfold_if_expr, unfold_if_tail,
    unfold_index_tail, unfold_indexed_assign, unfold_list_tail, unfold_loop_stmt, unfold_negated,
    unfold_operator, unfold_operators, unfold_prefix, unfold_primary, unfold_range_tail, unfold_row,
    unfold_rows, unfold_selector, unfold_stmt, with_result, without_separators, COMPARISON_BP,
    CONDITIONAL_BP, MAX_NESTING_DEPTH, MEMBERSHIP_BP, POSTFIX_BP, ParseState, Parsed, RANGE_BP,
    UNARY_MINUS_BP,
};
use crate::sema::is_comparison;
use crate::typing::{
    arms_visits, block_visits, chain_end, expr_visits, exprs_visits, first_operand, items_visits,
    last_operand, lemma_joined, links, node_visits, result_visits, stmt_visits, stmts_visits,
    unshared,
};
use vstd::prelude::*;

verus! {

/// More than any index of an expression.
pub open spec fn unlimited() -> int {
    0x1_0000_0000
}

/// `after` has the nodes of `before`, and maybe more behind them.
pub open spec fn grown(before: AstView, after: AstView) -> bool {
    &&& before.nodes.len() <= after.nodes.len()
    &&& forall|i: int| 0 <= i < before.nodes.len() ==> #[trigger] after.nodes[i] == before.nodes[i]
}

/// Whether an id can name every expression.
pub open spec fn small(ast: AstView) -> bool {
    ast.nodes.len() <= u32::MAX
}

/// The operands of a binary operation come before it.
pub open spec fn ordered(ast: AstView) -> bool {
    forall|i: int|
        0 <= i < ast.nodes.len() ==> (#[trigger] ast.nodes[i] matches NodeView::Bin(_, lhs, rhs)
            ==> lhs.0 < i && rhs.0 < i)
}

/// Expressions that are there, from the one at `lo` on, each mentioned once.
pub open spec fn apart(ast: AstView, visited: Seq<int>, lo: int) -> bool {
    &&& visited.no_duplicates()
    &&& forall|i: int| #[trigger] visited.contains(i) ==> 0 <= i && lo <= i < ast.nodes.len()
}

pub open spec fn expr_apart(ast: AstView, expr_id: ExprId, lo: int) -> bool {
    apart(ast, expr_visits(ast, expr_id, unlimited()), lo)
}

pub open spec fn exprs_apart(ast: AstView, exprs: Seq<ExprId>, lo: int) -> bool {
    apart(ast, exprs_visits(ast, exprs, 0, unlimited()), lo)
}

pub open spec fn arms_apart(ast: AstView, arms: Seq<IfArmView>, lo: int) -> bool {
    apart(ast, arms_visits(ast, arms, 0, unlimited()), lo)
}

pub open spec fn block_apart(ast: AstView, block: BlockView, lo: int) -> bool {
    apart(ast, block_visits(ast, block, unlimited()), lo)
}

pub open spec fn stmt_apart(ast: AstView, stmt: StmtView, lo: int) -> bool {
    apart(ast, stmt_visits(ast, stmt, unlimited()), lo)
}

/// Statements in a row, as a block without a result.
pub open spec fn in_a_row(stmts: Seq<StmtView>) -> BlockView {
    BlockView { stmts, result: None }
}

// ---------------------------------------------------------------------------
// What is read stays as it is when more is read
// ---------------------------------------------------------------------------

/// Every one of the expressions is there, below `limit`.
pub open spec fn there(ast: AstView, visited: Seq<int>, limit: int) -> bool {
    forall|i: int| #[trigger] visited.contains(i) ==> 0 <= i < ast.nodes.len() && i < limit
}

proof fn lemma_there(ast: AstView, a: Seq<int>, b: Seq<int>, limit: int)
    requires
        there(ast, a + b, limit),
    ensures
        there(ast, a, limit),
        there(ast, b, limit),
{
    lemma_joined(a, b);
    assert forall|i: int| #[trigger] a.contains(i) implies 0 <= i < ast.nodes.len() && i < limit by {
        assert((a + b).contains(i));
    }
    assert forall|i: int| #[trigger] b.contains(i) implies 0 <= i < ast.nodes.len() && i < limit by {
        assert((a + b).contains(i));
    }
}

proof fn lemma_pushed_contains(a: Seq<int>, x: int)
    ensures
        forall|i: int| #[trigger] a.push(x).contains(i) <==> a.contains(i) || i == x,
        a.push(x).no_duplicates() <==> a.no_duplicates() && !a.contains(x),
{
    let single = seq![x];
    assert(a.push(x) =~= a + single);
    lemma_joined(a, single);
    assert(single[0] == x);
    assert forall|i: int| #[trigger] single.contains(i) <==> i == x by {
        assert(single[0] == x);
    }
    if a.no_duplicates() && !a.contains(x) {
        let c = a.push(x);
        assert forall|j: int, k: int| 0 <= j < c.len() && 0 <= k < c.len() && j != k implies c[j]
            != c[k] by {
            if j < a.len() && k == a.len() {
                assert(a.contains(a[j]));
            }
            if k < a.len() && j == a.len() {
                assert(a.contains(a[k]));
            }
        }
    }
    if a.push(x).no_duplicates() {
        assert(!a.contains(x)) by {
            if a.contains(x) {
                assert(single.contains(x));
            }
        }
    }
}

proof fn lemma_expr_stable(
    a: AstView,
    b: AstView,
    expr_id: ExprId,
    la: int,
    lb: int,
)
    requires
        grown(a, b),
        ordered(a),
        expr_id.0 < la,
        there(a, expr_visits(a, expr_id, la), lb),
    ensures
        expr_visits(b, expr_id, lb) == expr_visits(a, expr_id, la),
    decreases la, 0int, a, 0int,
{
    let id = expr_id.0 as int;
    let below = node_visits(a, a.nodes[id], id);
    lemma_pushed_contains(below, id);
    assert(expr_visits(a, expr_id, la).contains(id));
    assert(there(a, below, id)) by {
        assert forall|i: int| #[trigger] below.contains(i) implies 0 <= i < a.nodes.len() && i
            < id by {
            assert(expr_visits(a, expr_id, la).contains(i));
            lemma_node_below(a, a.nodes[id], id, i);
        }
    }
    lemma_node_stable(a, b, a.nodes[id], id);
}

/// What a node comes to lies below it.
proof fn lemma_node_below(ast: AstView, node: NodeView, limit: int, i: int)
    requires
        node_visits(ast, node, limit).contains(i),
    ensures
        i < limit,
    decreases limit, 3int, ast, 0int,
{
    match node {
        NodeView::Unary(_, operand) => {
            lemma_expr_below(ast, operand, limit, i);
        },
        NodeView::Bin(op, lhs, rhs) => {
            let a = expr_visits(ast, lhs, limit);
            if rhs.0 < limit && op == BinOp::And && links(ast, lhs, rhs) {
                let y = last_operand(ast.nodes[rhs.0 as int])->0;
                let w = expr_visits(ast, y, rhs.0 as int);
                lemma_joined(a, w.push(rhs.0 as int));
                lemma_pushed_contains(w, rhs.0 as int);
                if a.contains(i) {
                    lemma_expr_below(ast, lhs, limit, i);
                } else if w.contains(i) {
                    lemma_expr_below(ast, y, rhs.0 as int, i);
                }
            } else {
                lemma_joined(a, expr_visits(ast, rhs, limit));
                if a.contains(i) {
                    lemma_expr_below(ast, lhs, limit, i);
                } else {
                    lemma_expr_below(ast, rhs, limit, i);
                }
            }
        },
        NodeView::Call(_, args) => {
            lemma_exprs_below(ast, args, 0, limit, i);
        },
        NodeView::If(arms, else_block) => {
            let behind = match else_block {
                None => Seq::empty(),
                Some(block) => block_visits(ast, block, limit),
            };
            lemma_joined(arms_visits(ast, arms, 0, limit), behind);
            if arms_visits(ast, arms, 0, limit).contains(i) {
                lemma_arms_below(ast, arms, 0, limit, i);
            } else if let Some(block) = else_block {
                lemma_block_below(ast, block, limit, i);
            }
        },
        _ => {},
    }
}

proof fn lemma_expr_below(ast: AstView, expr_id: ExprId, limit: int, i: int)
    requires
        expr_visits(ast, expr_id, limit).contains(i),
    ensures
        i < limit,
    decreases limit, 0int, ast, 0int,
{
    if expr_id.0 < limit {
        let id = expr_id.0 as int;
        let below = node_visits(ast, ast.nodes[id], id);
        lemma_pushed_contains(below, id);
        if below.contains(i) {
            lemma_node_below(ast, ast.nodes[id], id, i);
        }
    }
}

proof fn lemma_exprs_below(ast: AstView, exprs: Seq<ExprId>, from: int, limit: int, i: int)
    requires
        exprs_visits(ast, exprs, from, limit).contains(i),
    ensures
        i < limit,
    decreases limit, 0int, ast, exprs.len() - from + 1,
{
    if 0 <= from < exprs.len() {
        lemma_joined(
            expr_visits(ast, exprs[from], limit),
            exprs_visits(ast, exprs, from + 1, limit),
        );
        if expr_visits(ast, exprs[from], limit).contains(i) {
            lemma_expr_below(ast, exprs[from], limit, i);
        } else {
            lemma_exprs_below(ast, exprs, from + 1, limit, i);
        }
    }
}

proof fn lemma_arms_below(ast: AstView, arms: Seq<IfArmView>, from: int, limit: int, i: int)
    requires
        arms_visits(ast, arms, from, limit).contains(i),
    ensures
        i < limit,
    decreases limit, 2int, ast, arms.len() - from,
{
    if 0 <= from < arms.len() {
        let a = expr_visits(ast, arms[from].cond, limit);
        let b = block_visits(ast, arms[from].body, limit);
        let c = arms_visits(ast, arms, from + 1, limit);
        lemma_joined(a, b + c);
        lemma_joined(b, c);
        if a.contains(i) {
            lemma_expr_below(ast, arms[from].cond, limit, i);
        } else if b.contains(i) {
            lemma_block_below(ast, arms[from].body, limit, i);
        } else {
            lemma_arms_below(ast, arms, from + 1, limit, i);
        }
    }
}

proof fn lemma_block_below(ast: AstView, block: BlockView, limit: int, i: int)
    requires
        block_visits(ast, block, limit).contains(i),
    ensures
        i < limit,
    decreases limit, 1int, block, block.stmts.len() + 1,
{
    let a = stmts_visits(ast, block, 0, limit);
    lemma_joined(a, result_visits(ast, block.result, limit));
    if a.contains(i) {
        lemma_stmts_below(ast, block, 0, limit, i);
    } else if let Some(result) = block.result {
        lemma_expr_below(ast, result, limit, i);
    }
}

proof fn lemma_stmts_below(ast: AstView, block: BlockView, from: int, limit: int, i: int)
    requires
        stmts_visits(ast, block, from, limit).contains(i),
    ensures
        i < limit,
    decreases limit, 1int, block, block.stmts.len() - from,
{
    if 0 <= from < block.stmts.len() {
        let a = stmt_visits(ast, block.stmts[from], limit);
        lemma_joined(a, stmts_visits(ast, block, from + 1, limit));
        if a.contains(i) {
            lemma_stmt_below(ast, block.stmts[from], limit, i);
        } else {
            lemma_stmts_below(ast, block, from + 1, limit, i);
        }
    }
}

proof fn lemma_stmt_below(ast: AstView, stmt: StmtView, limit: int, i: int)
    requires
        stmt_visits(ast, stmt, limit).contains(i),
    ensures
        i < limit,
    decreases limit, 1int, stmt, 0int,
{
    match stmt {
        StmtView::Expr(expr_id) => {
            lemma_expr_below(ast, expr_id, limit, i);
        },
        StmtView::Assign(_, _, values) => {
            lemma_exprs_below(ast, values, 0, limit, i);
        },
        StmtView::While(cond, body) => {
            let a = expr_visits(ast, cond, limit);
            lemma_joined(a, block_visits(ast, body, limit));
            if a.contains(i) {
                lemma_expr_below(ast, cond, limit, i);
            } else {
                lemma_block_below(ast, body, limit, i);
            }
        },
        StmtView::Loop(body, cond, _) => {
            let a = block_visits(ast, body, limit);
            lemma_joined(a, expr_visits(ast, cond, limit));
            if a.contains(i) {
                lemma_block_below(ast, body, limit, i);
            } else {
                lemma_expr_below(ast, cond, limit, i);
            }
        },
        _ => {},
    }
}

proof fn lemma_node_stable(a: AstView, b: AstView, node: NodeView, limit: int)
    requires
        grown(a, b),
        ordered(a),
        limit <= a.nodes.len(),
        there(a, node_visits(a, node, limit), limit),
        node matches NodeView::Bin(_, lhs, rhs) ==> lhs.0 < limit && rhs.0 < limit,
    ensures
        node_visits(b, node, limit) == node_visits(a, node, limit),
    decreases limit, 3int, a, 0int,
{
    match node {
        NodeView::Unary(_, operand) => {
            lemma_expr_same(a, b, operand, limit, limit);
        },
        NodeView::Bin(op, lhs, rhs) => {
            let v = expr_visits(a, lhs, limit);
            assert(a.nodes[lhs.0 as int] == b.nodes[lhs.0 as int]);
            assert(a.nodes[rhs.0 as int] == b.nodes[rhs.0 as int]);
            if let NodeView::Bin(_, _, inner) = a.nodes[lhs.0 as int] {
                assert(a.nodes[inner.0 as int] == b.nodes[inner.0 as int]);
            }
            assert(links(a, lhs, rhs) == links(b, lhs, rhs));
            if op == BinOp::And && links(a, lhs, rhs) {
                let at = rhs.0 as int;
                let y = last_operand(a.nodes[at])->0;
                let w = expr_visits(a, y, at);
                lemma_there(a, v, w.push(at), limit);
                lemma_pushed_contains(w, at);
                assert(there(a, w, at)) by {
                    assert forall|i: int| #[trigger] w.contains(i) implies 0 <= i < a.nodes.len()
                        && i < at by {
                        assert(w.push(at).contains(i));
                        lemma_expr_below(a, y, at, i);
                    }
                }
                lemma_expr_same(a, b, y, at, at);
            } else {
                lemma_there(a, v, expr_visits(a, rhs, limit), limit);
                lemma_expr_same(a, b, rhs, limit, limit);
            }
            lemma_expr_same(a, b, lhs, limit, limit);
        },
        NodeView::Call(_, args) => {
            lemma_exprs_stable(a, b, args, 0, limit, limit);
        },
        NodeView::If(arms, else_block) => {
            let behind = match else_block {
                None => Seq::empty(),
                Some(block) => block_visits(a, block, limit),
            };
            lemma_there(a, arms_visits(a, arms, 0, limit), behind, limit);
            lemma_arms_stable(a, b, arms, 0, limit, limit);
            if let Some(block) = else_block {
                lemma_block_stable(a, b, block, limit, limit);
            }
        },
        _ => {},
    }
}

/// The same, also for an expression that is out of reach.
proof fn lemma_expr_same(a: AstView, b: AstView, expr_id: ExprId, la: int, lb: int)
    requires
        grown(a, b),
        ordered(a),
        la == lb || expr_id.0 < la,
        there(a, expr_visits(a, expr_id, la), lb),
    ensures
        expr_visits(b, expr_id, lb) == expr_visits(a, expr_id, la),
    decreases la, 0int, a, 1int,
{
    if expr_id.0 < la {
        lemma_expr_stable(a, b, expr_id, la, lb);
    }
}

proof fn lemma_exprs_stable(
    a: AstView,
    b: AstView,
    exprs: Seq<ExprId>,
    from: int,
    la: int,
    lb: int,
)
    requires
        grown(a, b),
        ordered(a),
        la == lb || la == unlimited(),
        there(a, exprs_visits(a, exprs, from, la), lb),
    ensures
        exprs_visits(b, exprs, from, lb) == exprs_visits(a, exprs, from, la),
    decreases la, 0int, a, exprs.len() - from + 2,
{
    if 0 <= from < exprs.len() {
        lemma_there(
            a,
            expr_visits(a, exprs[from], la),
            exprs_visits(a, exprs, from + 1, la),
            lb,
        );
        lemma_expr_same(a, b, exprs[from], la, lb);
        lemma_exprs_stable(a, b, exprs, from + 1, la, lb);
    }
}

proof fn lemma_arms_stable(
    a: AstView,
    b: AstView,
    arms: Seq<IfArmView>,
    from: int,
    la: int,
    lb: int,
)
    requires
        grown(a, b),
        ordered(a),
        la == lb || la == unlimited(),
        there(a, arms_visits(a, arms, from, la), lb),
    ensures
        arms_visits(b, arms, from, lb) == arms_visits(a, arms, from, la),
    decreases la, 2int, a, arms.len() - from,
{
    if 0 <= from < arms.len() {
        let v = block_visits(a, arms[from].body, la);
        let w = arms_visits(a, arms, from + 1, la);
        lemma_there(a, expr_visits(a, arms[from].cond, la), v + w, lb);
        lemma_there(a, v, w, lb);
        lemma_expr_same(a, b, arms[from].cond, la, lb);
        lemma_block_stable(a, b, arms[from].body, la, lb);
        lemma_arms_stable(a, b, arms, from + 1, la, lb);
    }
}

proof fn lemma_block_stable(a: AstView, b: AstView, block: BlockView, la: int, lb: int)
    requires
        grown(a, b),
        ordered(a),
        la == lb || la == unlimited(),
        there(a, block_visits(a, block, la), lb),
    ensures
        block_visits(b, block, lb) == block_visits(a, block, la),
    decreases la, 1int, block, block.stmts.len() + 1,
{
    lemma_there(a, stmts_visits(a, block, 0, la), result_visits(a, block.result, la), lb);
    lemma_stmts_stable(a, b, block, 0, la, lb);
    if let Some(result) = block.result {
        lemma_expr_same(a, b, result, la, lb);
    }
}

proof fn lemma_stmts_stable(
    a: AstView,
    b: AstView,
    block: BlockView,
    from: int,
    la: int,
    lb: int,
)
    requires
        grown(a, b),
        ordered(a),
        la == lb || la == unlimited(),
        there(a, stmts_visits(a, block, from, la), lb),
    ensures
        stmts_visits(b, block, from, lb) == stmts_visits(a, block, from, la),
    decreases la, 1int, block, block.stmts.len() - from,
{
    if 0 <= from < block.stmts.len() {
        lemma_there(
            a,
            stmt_visits(a, block.stmts[from], la),
            stmts_visits(a, block, from + 1, la),
            lb,
        );
        lemma_stmt_stable(a, b, block.stmts[from], la, lb);
        lemma_stmts_stable(a, b, block, from + 1, la, lb);
    }
}

proof fn lemma_stmt_stable(a: AstView, b: AstView, stmt: StmtView, la: int, lb: int)
    requires
        grown(a, b),
        ordered(a),
        la == lb || la == unlimited(),
        there(a, stmt_visits(a, stmt, la), lb),
    ensures
        stmt_visits(b, stmt, lb) == stmt_visits(a, stmt, la),
    decreases la, 1int, stmt, 0int,
{
    match stmt {
        StmtView::Expr(expr_id) => {
            lemma_expr_same(a, b, expr_id, la, lb);
        },
        StmtView::Assign(_, _, values) => {
            lemma_exprs_stable(a, b, values, 0, la, lb);
        },
        StmtView::While(cond, body) => {
            lemma_there(a, expr_visits(a, cond, la), block_visits(a, body, la), lb);
            lemma_expr_same(a, b, cond, la, lb);
            lemma_block_stable(a, b, body, la, lb);
        },
        StmtView::Loop(body, cond, _) => {
            lemma_there(a, block_visits(a, body, la), expr_visits(a, cond, la), lb);
            lemma_block_stable(a, b, body, la, lb);
            lemma_expr_same(a, b, cond, la, lb);
        },
        _ => {},
    }
}

// ---------------------------------------------------------------------------
// What a construct leaves
// ---------------------------------------------------------------------------

/// More has been read behind `before`, and no item has ended.
pub open spec fn continues(before: AstView, after: AstView) -> bool {
    grown(before, after) && after.top_level == before.top_level && texts_kept(before, after)
}

/// The names and the string constants go on from those there were.
pub open spec fn texts_kept(before: AstView, after: AstView) -> bool {
    &&& before.names.len() <= after.names.len()
    &&& before.strings.len() <= after.strings.len()
    &&& forall|i: int|
        0 <= i < before.names.len() ==> #[trigger] after.names[i] == before.names[i]
    &&& forall|i: int|
        0 <= i < before.strings.len() ==> #[trigger] after.strings[i] == before.strings[i]
}

pub open spec fn sound(ast: AstView) -> bool {
    small(ast) ==> ordered(ast)
}

/// What is read is in order.
pub open spec fn advances<T>(before: AstView, r: Parsed<T>) -> bool {
    r matches Ok((s1, _)) ==> continues(before, s1.ast) && sound(s1.ast)
}

/// The expression read is a tree of expressions from the one at `lo` on.
pub open spec fn yields_expr(before: AstView, lo: int, r: Parsed<ExprId>) -> bool {
    &&& advances(before, r)
    &&& r matches Ok((s1, expr_id)) ==> (small(s1.ast) ==> expr_apart(s1.ast, expr_id, lo))
}

pub open spec fn yields_exprs(before: AstView, lo: int, r: Parsed<Seq<ExprId>>) -> bool {
    &&& advances(before, r)
    &&& r matches Ok((s1, exprs)) ==> (small(s1.ast) ==> exprs_apart(s1.ast, exprs, lo))
}

pub open spec fn yields_block(before: AstView, lo: int, r: Parsed<BlockView>) -> bool {
    &&& advances(before, r)
    &&& r matches Ok((s1, block)) ==> (small(s1.ast) ==> block_apart(s1.ast, block, lo))
}

pub open spec fn yields_stmt(before: AstView, lo: int, r: Parsed<StmtView>) -> bool {
    &&& advances(before, r)
    &&& r matches Ok((s1, stmt)) ==> (small(s1.ast) ==> stmt_apart(s1.ast, stmt, lo))
}

/// What an `if` comes to.
pub open spec fn if_visits(
    ast: AstView,
    arms: Seq<IfArmView>,
    else_block: Option<BlockView>,
    limit: int,
) -> Seq<int> {
    arms_visits(ast, arms, 0, limit) + (match else_block {
        None => Seq::empty(),
        Some(block) => block_visits(ast, block, limit),
    })
}

pub open spec fn yields_arms(
    before: AstView,
    lo: int,
    r: Parsed<(Seq<IfArmView>, Option<BlockView>)>,
) -> bool {
    &&& advances(before, r)
    &&& r matches Ok((s1, (arms, else_block))) ==> (small(s1.ast) ==> apart(
        s1.ast,
        if_visits(s1.ast, arms, else_block, unlimited()),
        lo,
    ))
}

// ---------------------------------------------------------------------------
// Putting trees together
// ---------------------------------------------------------------------------

/// Expressions that were there in `low` and expressions that came after it do not meet.
proof fn lemma_combined(ast: AstView, low: AstView, a: Seq<int>, b: Seq<int>, lo: int)
    requires
        grown(low, ast),
        apart(low, a, lo),
        apart(ast, b, low.nodes.len() as int),
        lo <= low.nodes.len(),
    ensures
        apart(ast, a + b, lo),
        apart(ast, b + a, lo),
{
    lemma_disjoint(a, b);
    lemma_disjoint(b, a);
    lemma_joined(a, b);
    lemma_joined(b, a);
}

proof fn lemma_disjoint(a: Seq<int>, b: Seq<int>)
    requires
        a.no_duplicates(),
        b.no_duplicates(),
        forall|i: int| #[trigger] a.contains(i) ==> !b.contains(i),
    ensures
        (a + b).no_duplicates(),
{
    let c = a + b;
    assert forall|j: int, k: int| 0 <= j < c.len() && 0 <= k < c.len() && j != k implies c[j]
        != c[k] by {
        if j < a.len() && k >= a.len() {
            assert(a.contains(a[j]));
            assert(b.contains(b[k - a.len()]));
        }
        if k < a.len() && j >= a.len() {
            assert(a.contains(a[k]));
            assert(b.contains(b[j - a.len()]));
        }
    }
}

/// What was read before is still what it was.
proof fn lemma_kept(a: AstView, b: AstView, expr_id: ExprId, lo: int, limit: int)
    requires
        grown(a, b),
        ordered(a),
        expr_apart(a, expr_id, lo),
        a.nodes.len() <= limit,
    ensures
        expr_visits(b, expr_id, limit) == expr_visits(a, expr_id, unlimited()),
        expr_visits(b, expr_id, unlimited()) == expr_visits(a, expr_id, unlimited()),
        expr_apart(b, expr_id, lo),
        expr_id.0 < a.nodes.len(),
        lo <= expr_id.0,
{
    let v = expr_visits(a, expr_id, unlimited());
    assert(v.contains(expr_id.0 as int)) by {
        lemma_pushed_contains(
            node_visits(a, a.nodes[expr_id.0 as int], expr_id.0 as int),
            expr_id.0 as int,
        );
    }
    assert(there(a, v, limit));
    assert(there(a, v, unlimited())) by {
        assert forall|i: int| #[trigger] v.contains(i) implies 0 <= i < a.nodes.len() && i
            < unlimited() by {
            lemma_expr_below(a, expr_id, unlimited(), i);
        }
    }
    lemma_expr_stable(a, b, expr_id, unlimited(), limit);
    lemma_expr_stable(a, b, expr_id, unlimited(), unlimited());
}

proof fn lemma_exprs_kept(a: AstView, b: AstView, exprs: Seq<ExprId>, lo: int, limit: int)
    requires
        grown(a, b),
        ordered(a),
        exprs_apart(a, exprs, lo),
        a.nodes.len() <= limit,
    ensures
        exprs_visits(b, exprs, 0, limit) == exprs_visits(a, exprs, 0, unlimited()),
        exprs_visits(b, exprs, 0, unlimited()) == exprs_visits(a, exprs, 0, unlimited()),
        exprs_apart(b, exprs, lo),
{
    let v = exprs_visits(a, exprs, 0, unlimited());
    assert(there(a, v, unlimited())) by {
        assert forall|i: int| #[trigger] v.contains(i) implies 0 <= i < a.nodes.len() && i
            < unlimited() by {
            lemma_exprs_below(a, exprs, 0, unlimited(), i);
        }
    }
    lemma_exprs_stable(a, b, exprs, 0, unlimited(), limit);
    lemma_exprs_stable(a, b, exprs, 0, unlimited(), unlimited());
}

proof fn lemma_arms_kept(a: AstView, b: AstView, arms: Seq<IfArmView>, lo: int, limit: int)
    requires
        grown(a, b),
        ordered(a),
        arms_apart(a, arms, lo),
        a.nodes.len() <= limit,
    ensures
        arms_visits(b, arms, 0, limit) == arms_visits(a, arms, 0, unlimited()),
        arms_visits(b, arms, 0, unlimited()) == arms_visits(a, arms, 0, unlimited()),
        arms_apart(b, arms, lo),
{
    let v = arms_visits(a, arms, 0, unlimited());
    assert(there(a, v, unlimited())) by {
        assert forall|i: int| #[trigger] v.contains(i) implies 0 <= i < a.nodes.len() && i
            < unlimited() by {
            lemma_arms_below(a, arms, 0, unlimited(), i);
        }
    }
    lemma_arms_stable(a, b, arms, 0, unlimited(), limit);
    lemma_arms_stable(a, b, arms, 0, unlimited(), unlimited());
}

proof fn lemma_block_kept(a: AstView, b: AstView, block: BlockView, lo: int, limit: int)
    requires
        grown(a, b),
        ordered(a),
        block_apart(a, block, lo),
        a.nodes.len() <= limit,
    ensures
        block_visits(b, block, limit) == block_visits(a, block, unlimited()),
        block_visits(b, block, unlimited()) == block_visits(a, block, unlimited()),
        block_apart(b, block, lo),
{
    let v = block_visits(a, block, unlimited());
    assert(there(a, v, unlimited())) by {
        assert forall|i: int| #[trigger] v.contains(i) implies 0 <= i < a.nodes.len() && i
            < unlimited() by {
            lemma_block_below(a, block, unlimited(), i);
        }
    }
    lemma_block_stable(a, b, block, unlimited(), limit);
    lemma_block_stable(a, b, block, unlimited(), unlimited());
}

proof fn lemma_if_kept(
    a: AstView,
    b: AstView,
    arms: Seq<IfArmView>,
    else_block: Option<BlockView>,
    lo: int,
    limit: int,
)
    requires
        grown(a, b),
        ordered(a),
        apart(a, if_visits(a, arms, else_block, unlimited()), lo),
        a.nodes.len() <= limit,
    ensures
        if_visits(b, arms, else_block, limit) == if_visits(a, arms, else_block, unlimited()),
{
    let v = arms_visits(a, arms, 0, unlimited());
    let w = match else_block {
        None => Seq::empty(),
        Some(block) => block_visits(a, block, unlimited()),
    };
    lemma_joined(v, w);
    assert(apart(a, v, lo)) by {
        assert forall|i: int| #[trigger] v.contains(i) implies 0 <= i && lo <= i < a.nodes.len() by {
            assert((v + w).contains(i));
        }
    }
    lemma_arms_kept(a, b, arms, lo, limit);
    if let Some(block) = else_block {
        assert(apart(a, w, lo)) by {
            assert forall|i: int| #[trigger] w.contains(i) implies 0 <= i && lo <= i < a.nodes.len() by {
                assert((v + w).contains(i));
            }
        }
        lemma_block_kept(a, b, block, lo, limit);
    }
}

/// One expression more in a list.
proof fn lemma_exprs_pushed(
    ast: AstView,
    exprs: Seq<ExprId>,
    expr_id: ExprId,
    from: int,
    limit: int,
)
    requires
        0 <= from <= exprs.len(),
    ensures
        exprs_visits(ast, exprs.push(expr_id), from, limit) == exprs_visits(
            ast,
            exprs,
            from,
            limit,
        ) + expr_visits(ast, expr_id, limit),
    decreases exprs.len() - from,
{
    let more = exprs.push(expr_id);
    let last = expr_visits(ast, expr_id, limit);
    if from < exprs.len() {
        lemma_exprs_pushed(ast, exprs, expr_id, from + 1, limit);
        let here = expr_visits(ast, exprs[from], limit);
        let rest = exprs_visits(ast, exprs, from + 1, limit);
        assert(more[from] == exprs[from]);
        assert(here + (rest + last) =~= (here + rest) + last);
    } else {
        assert(more[from] == expr_id);
        assert(exprs_visits(ast, more, from + 1, limit) =~= Seq::empty());
        assert(last + Seq::<int>::empty() =~= last);
        assert(Seq::<int>::empty() + last =~= last);
    }
}

/// One arm more.
proof fn lemma_arms_pushed(
    ast: AstView,
    arms: Seq<IfArmView>,
    arm: IfArmView,
    from: int,
    limit: int,
)
    requires
        0 <= from <= arms.len(),
    ensures
        arms_visits(ast, arms.push(arm), from, limit) == arms_visits(ast, arms, from, limit) + (
        expr_visits(ast, arm.cond, limit) + block_visits(ast, arm.body, limit)),
    decreases arms.len() - from,
{
    let more = arms.push(arm);
    let cond = expr_visits(ast, arm.cond, limit);
    let body = block_visits(ast, arm.body, limit);
    if from < arms.len() {
        lemma_arms_pushed(ast, arms, arm, from + 1, limit);
        let a = expr_visits(ast, arms[from].cond, limit);
        let b = block_visits(ast, arms[from].body, limit);
        let rest = arms_visits(ast, arms, from + 1, limit);
        assert(more[from] == arms[from]);
        assert(a + (b + (rest + (cond + body))) =~= (a + (b + rest)) + (cond + body));
    } else {
        assert(more[from] == arm);
        assert(arms_visits(ast, more, from + 1, limit) =~= Seq::empty());
        assert(cond + (body + Seq::<int>::empty()) =~= Seq::<int>::empty() + (cond + body));
    }
}

/// One statement more in a row.
proof fn lemma_stmts_pushed(
    ast: AstView,
    stmts: Seq<StmtView>,
    stmt: StmtView,
    from: int,
    limit: int,
)
    requires
        0 <= from <= stmts.len(),
    ensures
        stmts_visits(ast, in_a_row(stmts.push(stmt)), from, limit) == stmts_visits(
            ast,
            in_a_row(stmts),
            from,
            limit,
        ) + stmt_visits(ast, stmt, limit),
    decreases stmts.len() - from,
{
    let more = stmts.push(stmt);
    let last = stmt_visits(ast, stmt, limit);
    if from < stmts.len() {
        lemma_stmts_pushed(ast, stmts, stmt, from + 1, limit);
        let here = stmt_visits(ast, stmts[from], limit);
        let rest = stmts_visits(ast, in_a_row(stmts), from + 1, limit);
        assert(in_a_row(more).stmts[from] == stmts[from]);
        assert(here + (rest + last) =~= (here + rest) + last);
    } else {
        assert(in_a_row(more).stmts[from] == stmt);
        assert(stmts_visits(ast, in_a_row(more), from + 1, limit) =~= Seq::empty());
        assert(last + Seq::<int>::empty() =~= last);
        assert(Seq::<int>::empty() + last =~= last);
    }
}

/// The result of a block does not matter to its statements.
proof fn lemma_stmts_of(ast: AstView, block: BlockView, from: int, limit: int)
    ensures
        stmts_visits(ast, block, from, limit) == stmts_visits(
            ast,
            in_a_row(block.stmts),
            from,
            limit,
        ),
    decreases block.stmts.len() - from,
{
    if 0 <= from < block.stmts.len() {
        lemma_stmts_of(ast, block, from + 1, limit);
    }
}

proof fn lemma_with_result(ast: AstView, stmts: Seq<StmtView>, limit: int)
    ensures
        block_visits(ast, with_result(stmts), limit) == block_visits(ast, in_a_row(stmts), limit),
{
    let block = with_result(stmts);
    lemma_stmts_of(ast, block, 0, limit);
    if stmts.len() > 0 && stmts.last() is Expr {
        let shorter = stmts.drop_last();
        assert(shorter.push(stmts.last()) =~= stmts);
        lemma_stmts_pushed(ast, shorter, stmts.last(), 0, limit);
        let all = stmts_visits(ast, in_a_row(stmts), 0, limit);
        assert(all + Seq::<int>::empty() =~= all);
    }
}

// ---------------------------------------------------------------------------
// New nodes
// ---------------------------------------------------------------------------

pub proof fn lemma_push(toks: Seq<TokenView>, st: ParseState, node: NodeView, start: u32)
    ensures
        ({
            let (s1, id) = push(toks, st, node, start);
            &&& continues(st.ast, s1.ast)
            &&& s1.ast.nodes == st.ast.nodes.push(node)
            &&& small(s1.ast) ==> id.0 == st.ast.nodes.len() && expr_visits(
                s1.ast,
                id,
                unlimited(),
            ) == node_visits(s1.ast, node, st.ast.nodes.len() as int).push(
                st.ast.nodes.len() as int,
            )
            &&& ordered(st.ast) && (node matches NodeView::Bin(_, lhs, rhs) ==> lhs.0
                < st.ast.nodes.len() && rhs.0 < st.ast.nodes.len()) ==> ordered(s1.ast)
        }),
{
    let (s1, id) = push(toks, st, node, start);
    assert(s1.ast.nodes[st.ast.nodes.len() as int] == node);
}

/// A node over expressions that do not meet is a tree.
proof fn lemma_tree(
    toks: Seq<TokenView>,
    before: AstView,
    st: ParseState,
    node: NodeView,
    start: u32,
    lo: int,
)
    requires
        continues(before, st.ast),
        sound(st.ast),
        lo <= st.ast.nodes.len(),
        ({
            let (s1, _) = push(toks, st, node, start);
            small(s1.ast) ==> {
                &&& apart(st.ast, node_visits(s1.ast, node, st.ast.nodes.len() as int), lo)
                &&& node matches NodeView::Bin(_, lhs, rhs) ==> lhs.0 < st.ast.nodes.len() && rhs.0
                    < st.ast.nodes.len()
            }
        }),
    ensures
        yields_expr(before, lo, Ok(push(toks, st, node, start))),
{
    lemma_push(toks, st, node, start);
    let (s1, _) = push(toks, st, node, start);
    lemma_pushed_contains(
        node_visits(s1.ast, node, st.ast.nodes.len() as int),
        st.ast.nodes.len() as int,
    );
}

/// A node that is not checked any further is a tree.
proof fn lemma_leaf(
    toks: Seq<TokenView>,
    before: AstView,
    st: ParseState,
    node: NodeView,
    start: u32,
    lo: int,
)
    requires
        continues(before, st.ast),
        sound(st.ast),
        lo <= st.ast.nodes.len(),
        !(node is Unary) && !(node is Bin) && !(node is Call) && !(node is If),
    ensures
        yields_expr(before, lo, Ok(push(toks, st, node, start))),
{
    lemma_tree(toks, before, st, node, start, lo);
}

/// The operands of a comparison, and the end of a chain, are among what it comes to.
proof fn lemma_operands_visited(ast: AstView, expr_id: ExprId)
    requires
        ordered(ast),
        expr_id.0 < ast.nodes.len(),
    ensures
        first_operand(ast.nodes[expr_id.0 as int]) matches Some(x) ==> expr_visits(
            ast,
            expr_id,
            unlimited(),
        ).contains(x.0 as int),
        chain_end(ast, ast.nodes[expr_id.0 as int]) matches Some(x) ==> expr_visits(
            ast,
            expr_id,
            unlimited(),
        ).contains(x.0 as int),
{
    let id = expr_id.0 as int;
    let node = ast.nodes[id];
    let below = node_visits(ast, node, id);
    lemma_pushed_contains(below, id);
    if let NodeView::Bin(op, lhs, rhs) = node {
        let a = expr_visits(ast, lhs, id);
        let at = rhs.0 as int;
        lemma_pushed_contains(node_visits(ast, ast.nodes[lhs.0 as int], lhs.0 as int), lhs.0 as int);
        lemma_pushed_contains(node_visits(ast, ast.nodes[at], at), at);
        if op == BinOp::And {
            if let Some(x) = last_operand(ast.nodes[at]) {
                let v = expr_visits(ast, x, at);
                lemma_pushed_contains(
                    node_visits(ast, ast.nodes[x.0 as int], x.0 as int),
                    x.0 as int,
                );
                lemma_pushed_contains(v, at);
                if links(ast, lhs, rhs) {
                    lemma_joined(a, v.push(at));
                } else {
                    let first = first_operand(ast.nodes[at])->0;
                    lemma_joined(expr_visits(ast, first, at), v);
                    lemma_joined(a, expr_visits(ast, rhs, id));
                    assert(expr_visits(ast, rhs, id).contains(x.0 as int));
                }
            }
        } else {
            lemma_joined(a, expr_visits(ast, rhs, id));
        }
    }
}

/// A binary operation on an expression and one read behind it.
proof fn lemma_bin(
    toks: Seq<TokenView>,
    low: AstView,
    st: ParseState,
    op: BinOp,
    lhs: ExprId,
    rhs: ExprId,
    start: u32,
    lo: int,
)
    requires
        continues(low, st.ast),
        sound(st.ast),
        lo <= low.nodes.len(),
        small(st.ast) ==> {
            &&& ordered(low)
            &&& expr_apart(low, lhs, lo)
            &&& expr_apart(st.ast, rhs, low.nodes.len() as int)
        },
    ensures
        yields_expr(low, lo, Ok(push(toks, st, NodeView::Bin(op, lhs, rhs), start))),
{
    let node = NodeView::Bin(op, lhs, rhs);
    let (s1, _) = push(toks, st, node, start);
    let n = st.ast.nodes.len() as int;
    lemma_push(toks, st, node, start);
    if small(s1.ast) {
        lemma_kept(low, s1.ast, lhs, lo, n);
        lemma_kept(st.ast, s1.ast, rhs, low.nodes.len() as int, n);
        lemma_kept(low, st.ast, lhs, lo, n);
        let a = expr_visits(low, lhs, unlimited());
        let b = expr_visits(st.ast, rhs, unlimited());
        assert(!links(s1.ast, lhs, rhs)) by {
            if links(s1.ast, lhs, rhs) {
                let x = first_operand(s1.ast.nodes[rhs.0 as int])->0;
                lemma_operands_visited(s1.ast, rhs);
                lemma_operands_visited(s1.ast, lhs);
                assert(b.contains(x.0 as int));
                assert(a.contains(x.0 as int));
            }
        }
        lemma_combined(st.ast, low, a, b, lo);
        assert(node_visits(s1.ast, node, n) == a + b);
    }
    lemma_tree(toks, low, st, node, start, lo);
}

// ---------------------------------------------------------------------------
// What reads no expression
// ---------------------------------------------------------------------------

proof fn lemma_wrapping(toks: Seq<TokenView>, st: ParseState)
    ensures
        skip_wrapping(toks, st).ast == st.ast,
    decreases toks.len() - st.pos,
{
    if 0 <= st.pos < toks.len() && is_separator(toks[st.pos].kind) {
        lemma_wrapping(
            toks,
            ParseState {
                pos: st.pos + 1,
                pending: if toks[st.pos].kind == TokenKind::Indent {
                    st.pending + 1
                } else {
                    st.pending
                },
                ..st
            },
        );
    }
}

proof fn lemma_dedents(toks: Seq<TokenView>, st: ParseState)
    ensures
        drop_dedents(toks, st).ast == st.ast,
    decreases st.pending,
{
    if st.pending > 0 && toks[st.pos].kind == TokenKind::Dedent {
        lemma_dedents(toks, ParseState { pos: st.pos + 1, pending: st.pending - 1, ..st });
    }
}

pub open spec fn same_nodes(a: AstView, b: AstView) -> bool {
    a.nodes == b.nodes && a.top_level == b.top_level && texts_kept(a, b)
}

pub proof fn lemma_segments(
    content: Seq<u8>,
    st: ParseState,
    literal: int,
    index: int,
    segments: Seq<FStrSegment>,
)
    ensures
        fstring_segments(content, st, literal, index, segments) matches Ok((s1, _)) ==> same_nodes(
            st.ast,
            s1.ast,
        ),
    decreases content.len() - index,
{
    reveal(hole_place);
    if 0 <= index < content.len() {
        if content[index] == 0x7b {
            let (s1, with_literal) = if index > literal {
                let (s1, str_id) = push_string(
                    st,
                    vstd::utf8::decode_utf8(content.subrange(literal, index)),
                );
                (s1, segments.push(FStrSegment::Literal(str_id)))
            } else {
                (st, segments)
            };
            let close = closing_brace(content, index + 1);
            if close < content.len() && close + 1 > index {
                if let Ok((s2, place)) = hole_place(s1, content.subrange(index + 1, close)) {
                    lemma_segments(
                        content,
                        s2,
                        close + 1,
                        close + 1,
                        with_literal.push(FStrSegment::Interp(place)),
                    );
                }
            }
        } else {
            lemma_segments(content, st, literal, index + 1, segments);
        }
    }
}

proof fn lemma_binders(toks: Seq<TokenView>, st: ParseState, binders: Seq<SymId>)
    ensures
        more_binders(toks, st, binders) matches Ok((s1, _)) ==> same_nodes(st.ast, s1.ast),
    decreases toks.len() - st.pos,
{
    if 0 <= st.pos < toks.len() && toks[st.pos].kind == TokenKind::Comma {
        if let Ok((s1, sym_id)) = binder(toks, advanced(st)) {
            if moved(toks, st, s1) {
                lemma_binders(toks, s1, binders.push(sym_id));
            }
        }
    }
}

/// Annotations name types that values have, or `Void`.
pub open spec fn annotated(t: PinpType) -> bool {
    t == PinpType::Bool || t == PinpType::Int || t == PinpType::Float || t == PinpType::Str || t
        == PinpType::Void
}

proof fn lemma_params(
    toks: Seq<TokenView>,
    st: ParseState,
    first: TokenView,
    done: Seq<Param>,
)
    requires
        forall|i: int| 0 <= i < done.len() ==> annotated((#[trigger] done[i]).param_type),
    ensures
        param_list(toks, st, first, done) matches Ok((s1, all)) ==> {
            &&& same_nodes(st.ast, s1.ast)
            &&& forall|i: int| 0 <= i < all.len() ==> annotated((#[trigger] all[i]).param_type)
        },
    decreases toks.len() - st.pos,
{
    reveal(type_annotation);
    if let Ok((s1, name_token)) = expect(toks, st, TokenKind::Identifier) {
        let (s2, name) = intern(s1, name_token.text);
        if let Ok((s3, _)) = expect(toks, s2, TokenKind::Colon) {
            if let Ok((s4, param_type)) = type_annotation(toks, s3) {
                let more = done.push(Param { name, param_type });
                if moved(toks, st, advanced(s4)) {
                    lemma_params(toks, advanced(s4), first, more);
                }
            }
        }
    }
}

// ---------------------------------------------------------------------------
// Expressions
// ---------------------------------------------------------------------------

proof fn lemma_expr(toks: Seq<TokenView>, depth: nat, st: ParseState, min_bp: u8)
    requires
        sound(st.ast),
    ensures
        yields_expr(st.ast, st.ast.nodes.len() as int, expr(toks, depth, st, min_bp)),
    decreases 257 - depth, 0int, 0int,
{
    unfold_expr(toks, depth, st, min_bp);
    if depth < MAX_NESTING_DEPTH {
        lemma_prefix(toks, depth + 1, st);
        if let Ok((s1, lhs)) = prefix(toks, depth + 1, st) {
            lemma_operators(
                toks,
                depth + 1,
                s1,
                toks[st.pos].col,
                min_bp,
                lhs,
                st.ast.nodes.len() as int,
            );
        }
    }
}

proof fn lemma_operators(
    toks: Seq<TokenView>,
    depth: nat,
    st: ParseState,
    start_col: int,
    min_bp: u8,
    lhs: ExprId,
    lo: int,
)
    requires
        sound(st.ast),
        small(st.ast) ==> expr_apart(st.ast, lhs, lo),
        lo <= st.ast.nodes.len(),
    ensures
        yields_expr(st.ast, lo, operators(toks, depth, st, start_col, min_bp, lhs)),
    decreases 257 - depth, 9int, toks.len() - st.pos,
{
    unfold_operators(toks, depth, st, start_col, min_bp, lhs);
    lemma_operator(toks, depth, st, start_col, min_bp, lhs, lo);
    if let Some(Ok((s1, folded))) = operator(toks, depth, st, start_col, min_bp, lhs) {
        if moved(toks, st, s1) {
            lemma_operators(toks, depth, s1, start_col, min_bp, folded, lo);
        }
    }
}

proof fn lemma_operator(
    toks: Seq<TokenView>,
    depth: nat,
    st: ParseState,
    start_col: int,
    min_bp: u8,
    lhs: ExprId,
    lo: int,
)
    requires
        sound(st.ast),
        small(st.ast) ==> expr_apart(st.ast, lhs, lo),
        lo <= st.ast.nodes.len(),
    ensures
        operator(toks, depth, st, start_col, min_bp, lhs) matches Some(r) ==> yields_expr(
            st.ast,
            lo,
            r,
        ),
    decreases 257 - depth, 8int, 0int,
{
    unfold_operator(toks, depth, st, start_col, min_bp, lhs);
    let kind = toks[st.pos].kind;
    if kind == TokenKind::KwIf && CONDITIONAL_BP >= min_bp {
        lemma_conditional(toks, depth, st, lhs, start_col, lo);
    } else if comparison_op(kind) is Some && COMPARISON_BP >= min_bp {
        lemma_comparisons(toks, depth, st, lhs, Seq::empty(), None, lo);
    } else if range_kind(kind) is Some && RANGE_BP >= min_bp {
        lemma_range_tail(toks, depth, st, lhs, range_kind(kind)->0, lo);
    } else if kind == TokenKind::KwIn && MEMBERSHIP_BP >= min_bp {
        lemma_expr(toks, depth, advanced(st), 46);
        if let Ok((s1, range)) = expr(toks, depth, advanced(st), 46) {
            lemma_leaf(
                toks,
                st.ast,
                s1,
                NodeView::Membership(lhs, range),
                start_of(s1, lhs),
                lo,
            );
        }
    } else if kind == TokenKind::LBracket && POSTFIX_BP >= min_bp {
        lemma_index_tail(toks, depth, st, lhs, lo);
    } else if kind == TokenKind::Dot && POSTFIX_BP >= min_bp {
        if let Ok((s1, name)) = expect(toks, advanced(st), TokenKind::Identifier) {
            let (s2, member) = intern(s1, name.text);
            lemma_leaf(toks, st.ast, s2, NodeView::Member(lhs, member), start_of(s2, lhs), lo);
        }
    } else if let Some((left_bp, right_bp, op)) = infix(kind) {
        if left_bp >= min_bp {
            lemma_expr(toks, depth, advanced(st), right_bp);
            if let Ok((s1, rhs)) = expr(toks, depth, advanced(st), right_bp) {
                lemma_bin(toks, st.ast, s1, op, lhs, rhs, start_of(s1, lhs), lo);
            }
        }
    }
}

proof fn lemma_index_tail(
    toks: Seq<TokenView>,
    depth: nat,
    st: ParseState,
    lhs: ExprId,
    lo: int,
)
    requires
        sound(st.ast),
        lo <= st.ast.nodes.len(),
    ensures
        yields_expr(st.ast, lo, index_tail(toks, depth, st, lhs)),
    decreases 257 - depth, 7int, 0int,
{
    unfold_index_tail(toks, depth, st, lhs);
    lemma_selector(toks, depth, advanced(st));
    if let Ok((s1, first)) = selector(toks, depth, advanced(st)) {
        if toks[s1.pos].kind == TokenKind::Comma {
            lemma_selector(toks, depth, advanced(s1));
            if let Ok((s2, col)) = selector(toks, depth, advanced(s1)) {
                if let Ok((s3, _)) = expect(toks, s2, TokenKind::RBracket) {
                    lemma_leaf(
                        toks,
                        st.ast,
                        s3,
                        NodeView::Index2D(lhs, first, col),
                        start_of(s3, lhs),
                        lo,
                    );
                }
            }
        } else if let Ok((s2, _)) = expect(toks, s1, TokenKind::RBracket) {
            lemma_leaf(toks, st.ast, s2, NodeView::Index(lhs, first), start_of(s2, lhs), lo);
        }
    }
}

proof fn lemma_selector(toks: Seq<TokenView>, depth: nat, st: ParseState)
    requires
        sound(st.ast),
    ensures
        yields_expr(st.ast, st.ast.nodes.len() as int, selector(toks, depth, st)),
    decreases 257 - depth, 6int, 0int,
{
    unfold_selector(toks, depth, st);
    lemma_leaf(
        toks,
        st.ast,
        advanced(st),
        NodeView::FullExtent,
        offset(toks, st.pos),
        st.ast.nodes.len() as int,
    );
    lemma_expr(toks, depth, st, 0);
}

proof fn lemma_conditional(
    toks: Seq<TokenView>,
    depth: nat,
    st: ParseState,
    then_val: ExprId,
    start_col: int,
    lo: int,
)
    requires
        sound(st.ast),
        small(st.ast) ==> expr_apart(st.ast, then_val, lo),
        lo <= st.ast.nodes.len(),
    ensures
        yields_expr(st.ast, lo, conditional(toks, depth, st, then_val, start_col)),
    decreases 257 - depth, 7int, 0int,
{
    unfold_conditional(toks, depth, st, then_val, start_col);
    lemma_expr(toks, depth, advanced(st), 0);
    if let Ok((s1, cond)) = expr(toks, depth, advanced(st), 0) {
        lemma_wrapping(toks, s1);
        let s2 = skip_wrapping(toks, s1);
        lemma_expr(toks, depth, advanced(s2), CONDITIONAL_BP);
        if let Ok((s3, else_val)) = expr(toks, depth, advanced(s2), CONDITIONAL_BP) {
            let arms = seq![IfArmView { cond, body: only_result(then_val) }];
            let otherwise = Some(only_result(else_val));
            let node = NodeView::If(arms, otherwise);
            let start = start_of(s3, then_val);
            lemma_push(toks, s3, node, start);
            let (s4, _) = push(toks, s3, node, start);
            let n = s3.ast.nodes.len() as int;
            if small(s4.ast) {
                lemma_kept(st.ast, s4.ast, then_val, lo, n);
                lemma_kept(s1.ast, s4.ast, cond, st.ast.nodes.len() as int, n);
                lemma_kept(s3.ast, s4.ast, else_val, s1.ast.nodes.len() as int, n);
                let a = expr_visits(s4.ast, cond, n);
                let b = expr_visits(s4.ast, then_val, n);
                let c = expr_visits(s4.ast, else_val, n);
                lemma_combined(s1.ast, st.ast, b, a, lo);
                lemma_combined(s3.ast, s1.ast, a + b, c, lo);
                let none = Seq::<int>::empty();
                assert(arms[0].cond == cond && arms[0].body == only_result(then_val));
                assert(block_visits(s4.ast, only_result(then_val), n) =~= b) by {
                    assert(stmts_visits(s4.ast, only_result(then_val), 0, n) =~= none);
                }
                assert(block_visits(s4.ast, only_result(else_val), n) =~= c) by {
                    assert(stmts_visits(s4.ast, only_result(else_val), 0, n) =~= none);
                }
                assert(arms_visits(s4.ast, arms, 1, n) =~= none);
                assert(arms_visits(s4.ast, arms, 0, n) =~= a + b);
                assert(node_visits(s4.ast, node, n) =~= (a + b) + c);
            }
            lemma_tree(toks, st.ast, s3, node, start, lo);
        }
    }
}

proof fn lemma_comparisons(
    toks: Seq<TokenView>,
    depth: nat,
    st: ParseState,
    prev: ExprId,
    chained: Seq<BinOp>,
    result: Option<ExprId>,
    lo: int,
)
    requires
        sound(st.ast),
        lo <= st.ast.nodes.len(),
        small(st.ast) ==> match result {
            None => expr_apart(st.ast, prev, lo),
            Some(so_far) => {
                &&& expr_apart(st.ast, so_far, lo)
                &&& chain_end(st.ast, st.ast.nodes[so_far.0 as int]) == Some(prev)
            },
        },
    ensures
        comparisons(toks, depth, st, prev, chained, result) matches Ok((s1, (_, expr_id)))
            ==> yields_expr(st.ast, lo, Ok((s1, expr_id))),
    decreases 257 - depth, 7int, toks.len() - st.pos,
{
    unfold_comparisons(toks, depth, st, prev, chained, result);
    if let Some(op) = comparison_op(toks[st.pos].kind) {
        lemma_expr(toks, depth, advanced(st), 46);
        if let Ok((s1, next)) = expr(toks, depth, advanced(st), 46) {
            let node = NodeView::Bin(op, prev, next);
            let start = start_of(s1, prev);
            lemma_push(toks, s1, node, start);
            let (s2, comparison) = push(toks, s1, node, start);
            let n = s1.ast.nodes.len() as int;
            match result {
                None => {
                    lemma_bin(toks, st.ast, s1, op, prev, next, start, lo);
                    if moved(toks, st, s2) {
                        lemma_comparisons(
                            toks,
                            depth,
                            s2,
                            next,
                            chained.push(op),
                            Some(comparison),
                            lo,
                        );
                    }
                },
                Some(so_far) => {
                    let both = NodeView::Bin(BinOp::And, so_far, comparison);
                    let from = start_of(s2, so_far);
                    lemma_push(toks, s2, both, from);
                    let (s3, linked) = push(toks, s2, both, from);
                    if small(s3.ast) {
                        lemma_link(st.ast, s1.ast, s3.ast, op, so_far, prev, next, lo);
                        assert(s3.ast.nodes[n] == node);
                        assert(s3.ast.nodes[n + 1] == both);
                        lemma_pushed_contains(node_visits(s3.ast, both, n + 1), n + 1);
                        assert(ordered(s2.ast)) by {
                            lemma_kept(s1.ast, s2.ast, next, st.ast.nodes.len() as int, n);
                            lemma_end_below(st.ast, so_far, prev, lo);
                        }
                        lemma_kept(st.ast, s3.ast, so_far, lo, n);
                        assert(ordered(s3.ast));
                    }
                    if moved(toks, st, s3) {
                        lemma_comparisons(
                            toks,
                            depth,
                            s3,
                            next,
                            chained.push(op),
                            Some(linked),
                            lo,
                        );
                    }
                },
            }
        }
    }
}

/// The end of a chain comes before the chain.
proof fn lemma_end_below(ast: AstView, so_far: ExprId, prev: ExprId, lo: int)
    requires
        ordered(ast),
        expr_apart(ast, so_far, lo),
        chain_end(ast, ast.nodes[so_far.0 as int]) == Some(prev),
    ensures
        so_far.0 < ast.nodes.len(),
        prev.0 < so_far.0,
{
    lemma_kept(ast, ast, so_far, lo, ast.nodes.len() as int);
    let node = ast.nodes[so_far.0 as int];
    if let NodeView::Bin(op, _, r) = node {
        if op == BinOp::And {
            assert(ast.nodes[r.0 as int] is Bin);
        }
    }
}

/// A chain with one comparison more is a tree: its middle operand is listed once.
proof fn lemma_link(
    low: AstView,
    mid: AstView,
    ast: AstView,
    op: BinOp,
    so_far: ExprId,
    prev: ExprId,
    next: ExprId,
    lo: int,
)
    requires
        grown(low, mid),
        grown(mid, ast),
        ordered(low),
        ordered(mid),
        small(ast),
        lo <= low.nodes.len(),
        is_comparison(op),
        ast.nodes.len() == mid.nodes.len() + 2,
        ast.nodes[mid.nodes.len() as int] == NodeView::Bin(op, prev, next),
        expr_apart(low, so_far, lo),
        chain_end(low, low.nodes[so_far.0 as int]) == Some(prev),
        expr_apart(mid, next, low.nodes.len() as int),
    ensures
        ({
            let n = mid.nodes.len() as int;
            let both = NodeView::Bin(BinOp::And, so_far, ExprId(n as u32));
            let v = node_visits(ast, both, n + 1);
            &&& v.no_duplicates()
            &&& forall|i: int| #[trigger] v.contains(i) ==> 0 <= i && lo <= i < n + 1
            &&& so_far.0 < n
            &&& next.0 < n
        }),
{
    let n = mid.nodes.len() as int;
    let comparison = ExprId(n as u32);
    let both = NodeView::Bin(BinOp::And, so_far, comparison);
    lemma_kept(low, ast, so_far, lo, n + 1);
    lemma_kept(mid, ast, next, low.nodes.len() as int, n);
    lemma_end_below(low, so_far, prev, lo);
    let a = expr_visits(low, so_far, unlimited());
    let w = expr_visits(mid, next, unlimited());
    let node = low.nodes[so_far.0 as int];
    assert(ast.nodes[so_far.0 as int] == node);
    if let NodeView::Bin(BinOp::And, _, r) = node {
        assert(ast.nodes[r.0 as int] == low.nodes[r.0 as int]);
    }
    assert(chain_end(ast, ast.nodes[so_far.0 as int]) == Some(prev));
    assert(links(ast, so_far, comparison));
    assert(node_visits(ast, both, n + 1) == a + w.push(n));
    lemma_pushed_contains(w, n);
    assert forall|i: int| #[trigger] a.contains(i) implies !w.push(n).contains(i) by {}
    lemma_disjoint(a, w.push(n));
    lemma_joined(a, w.push(n));
}

proof fn lemma_range_tail(
    toks: Seq<TokenView>,
    depth: nat,
    st: ParseState,
    start: ExprId,
    kind: crate::parser::ast::RangeKind,
    lo: int,
)
    requires
        sound(st.ast),
        lo <= st.ast.nodes.len(),
    ensures
        yields_expr(st.ast, lo, range_tail(toks, depth, st, start, kind)),
    decreases 257 - depth, 7int, 0int,
{
    unfold_range_tail(toks, depth, st, start, kind);
    lemma_expr(toks, depth, advanced(st), 51);
    if let Ok((s1, stop)) = expr(toks, depth, advanced(st), 51) {
        if toks[s1.pos].kind == TokenKind::Colon {
            lemma_expr(toks, depth, advanced(s1), 51);
            if let Ok((s2, step)) = expr(toks, depth, advanced(s1), 51) {
                lemma_leaf(
                    toks,
                    st.ast,
                    s2,
                    NodeView::Range(start, stop, Some(step), kind),
                    start_of(s2, start),
                    lo,
                );
            }
        } else {
            lemma_leaf(
                toks,
                st.ast,
                s1,
                NodeView::Range(start, stop, None, kind),
                start_of(s1, start),
                lo,
            );
        }
    }
}

proof fn lemma_prefix(toks: Seq<TokenView>, depth: nat, st: ParseState)
    requires
        sound(st.ast),
    ensures
        yields_expr(st.ast, st.ast.nodes.len() as int, prefix(toks, depth, st)),
    decreases 257 - depth, 8int, 0int,
{
    unfold_prefix(toks, depth, st);
    lemma_negated(toks, depth, st, UnOp::Neg);
    lemma_negated(toks, depth, st, UnOp::Not);
    lemma_primary(toks, depth, st);
}

proof fn lemma_negated(toks: Seq<TokenView>, depth: nat, st: ParseState, op: UnOp)
    requires
        sound(st.ast),
    ensures
        yields_expr(st.ast, st.ast.nodes.len() as int, negated(toks, depth, st, op)),
    decreases 257 - depth, 7int, 0int,
{
    unfold_negated(toks, depth, st, op);
    lemma_expr(toks, depth, advanced(st), UNARY_MINUS_BP);
    if let Ok((s1, operand)) = expr(toks, depth, advanced(st), UNARY_MINUS_BP) {
        let node = NodeView::Unary(op, operand);
        let start = offset(toks, st.pos);
        let lo = st.ast.nodes.len() as int;
        lemma_push(toks, s1, node, start);
        let (s2, _) = push(toks, s1, node, start);
        if small(s2.ast) {
            lemma_kept(s1.ast, s2.ast, operand, lo, s1.ast.nodes.len() as int);
        }
        lemma_tree(toks, st.ast, s1, node, start, lo);
    }
}

pub proof fn lemma_primary(toks: Seq<TokenView>, depth: nat, st: ParseState)
    requires
        sound(st.ast),
    ensures
        yields_expr(st.ast, st.ast.nodes.len() as int, primary(toks, depth, st)),
    decreases 257 - depth, 7int, 0int,
{
    unfold_primary(toks, depth, st);
    let token = toks[st.pos];
    let s1 = advanced(st);
    let start = offset(toks, st.pos);
    let lo = st.ast.nodes.len() as int;
    match token.kind {
        TokenKind::Int => {
            if let Ok(value) = int_literal(token.text) {
                lemma_leaf(toks, st.ast, s1, NodeView::Int(value), start, lo);
            }
        },
        TokenKind::Float => {
            lemma_leaf(
                toks,
                st.ast,
                s1,
                NodeView::Float(without_separators(token.text)),
                start,
                lo,
            );
        },
        TokenKind::KwTrue => {
            lemma_leaf(toks, st.ast, s1, NodeView::Bool(true), start, lo);
        },
        TokenKind::KwFalse => {
            lemma_leaf(toks, st.ast, s1, NodeView::Bool(false), start, lo);
        },
        TokenKind::Str => {
            let (s2, str_id) = push_string(
                s1,
                vstd::utf8::decode_utf8(crate::parser::grammar::inside(token.text, 1)),
            );
            lemma_leaf(toks, st.ast, s2, NodeView::Str(str_id), start, lo);
        },
        TokenKind::FStr => {
            let content = crate::parser::grammar::inside(token.text, 2);
            lemma_segments(content, s1, 0, 0, Seq::empty());
            if let Ok((s2, segments)) = fstring_segments(content, s1, 0, 0, Seq::empty()) {
                lemma_leaf(toks, st.ast, s2, NodeView::FStr(segments), start, lo);
            }
        },
        TokenKind::Identifier => {
            lemma_call(toks, depth, st);
            let (s2, sym_id) = intern(s1, token.text);
            lemma_leaf(toks, st.ast, s2, NodeView::Var(sym_id), start, lo);
        },
        TokenKind::ColonColon => {
            if let Ok((s2, name)) = expect(toks, s1, TokenKind::Identifier) {
                let (s3, sym_id) = intern(s2, name.text);
                lemma_leaf(toks, st.ast, s3, NodeView::Global(sym_id), start, lo);
            }
        },
        TokenKind::KwIf => {
            lemma_if_expr(toks, depth, st);
        },
        TokenKind::LParen => {
            lemma_expr(toks, depth, s1, 0);
        },
        TokenKind::LBracket => {
            lemma_array(toks, depth, st);
        },
        _ => {},
    }
}

proof fn lemma_call(toks: Seq<TokenView>, depth: nat, st: ParseState)
    requires
        sound(st.ast),
    ensures
        yields_expr(st.ast, st.ast.nodes.len() as int, call(toks, depth, st)),
    decreases 257 - depth, 6int, 0int,
{
    unfold_call(toks, depth, st);
    let lo = st.ast.nodes.len() as int;
    let (s1, callee) = intern(advanced(st), toks[st.pos].text);
    if let Ok((s2, _)) = expect(toks, s1, TokenKind::LParen) {
        let arguments = if toks[s2.pos].kind == TokenKind::RParen {
            Ok((s2, Seq::empty()))
        } else {
            lemma_call_args(toks, depth, s2, Seq::empty(), lo);
            call_args(toks, depth, s2, Seq::empty())
        };
        if let Ok((s3, args)) = arguments {
            if let Ok((s4, _)) = expect(toks, s3, TokenKind::RParen) {
                let node = NodeView::Call(callee, args);
                let start = offset(toks, st.pos);
                lemma_push(toks, s4, node, start);
                let (s5, _) = push(toks, s4, node, start);
                if small(s5.ast) {
                    lemma_exprs_kept(s4.ast, s5.ast, args, lo, s4.ast.nodes.len() as int);
                }
                lemma_tree(toks, st.ast, s4, node, start, lo);
            }
        }
    }
}

/// One expression more, read behind the others.
proof fn lemma_exprs_grown(
    low: AstView,
    ast: AstView,
    exprs: Seq<ExprId>,
    expr_id: ExprId,
    lo: int,
)
    requires
        grown(low, ast),
        ordered(low),
        lo <= low.nodes.len(),
        exprs_apart(low, exprs, lo),
        expr_apart(ast, expr_id, low.nodes.len() as int),
    ensures
        exprs_apart(ast, exprs.push(expr_id), lo),
{
    lemma_exprs_kept(low, ast, exprs, lo, low.nodes.len() as int);
    lemma_exprs_pushed(ast, exprs, expr_id, 0, unlimited());
    lemma_combined(
        ast,
        low,
        exprs_visits(low, exprs, 0, unlimited()),
        expr_visits(ast, expr_id, unlimited()),
        lo,
    );
}

proof fn lemma_call_args(
    toks: Seq<TokenView>,
    depth: nat,
    st: ParseState,
    args: Seq<ExprId>,
    lo: int,
)
    requires
        sound(st.ast),
        lo <= st.ast.nodes.len(),
        small(st.ast) ==> exprs_apart(st.ast, args, lo),
    ensures
        yields_exprs(st.ast, lo, call_args(toks, depth, st, args)),
    decreases 257 - depth, 5int, toks.len() - st.pos,
{
    unfold_call_args(toks, depth, st, args);
    lemma_expr(toks, depth, st, 0);
    if let Ok((s1, arg)) = expr(toks, depth, st, 0) {
        if small(s1.ast) {
            lemma_exprs_grown(st.ast, s1.ast, args, arg, lo);
        }
        if moved(toks, st, advanced(s1)) {
            lemma_call_args(toks, depth, advanced(s1), args.push(arg), lo);
        }
    }
}

proof fn lemma_array(toks: Seq<TokenView>, depth: nat, st: ParseState)
    requires
        sound(st.ast),
    ensures
        yields_expr(st.ast, st.ast.nodes.len() as int, array(toks, depth, st)),
    decreases 257 - depth, 6int, 0int,
{
    unfold_array(toks, depth, st);
    let lo = st.ast.nodes.len() as int;
    let s1 = advanced(st);
    let start = offset(toks, st.pos);
    lemma_expr(toks, depth, s1, 0);
    if let Ok((s2, first)) = expr(toks, depth, s1, 0) {
        if toks[s2.pos].kind == TokenKind::KwFor {
            lemma_comprehension(toks, depth, s2, first, start, lo);
        } else {
            lemma_row(toks, depth, s2, seq![first]);
            if let Ok((s3, first_row)) = row(toks, depth, s2, seq![first]) {
                if toks[s3.pos].kind == TokenKind::Semicolon {
                    let col = toks[s1.pos].col;
                    lemma_rows(toks, depth, s3, seq![first_row], col);
                    if let Ok((s4, all)) = rows(toks, depth, s3, seq![first_row], col) {
                        if let Ok((s5, _)) = expect(toks, s4, TokenKind::RBracket) {
                            lemma_leaf(
                                toks,
                                st.ast,
                                s5,
                                NodeView::MatrixLiteral(all),
                                start,
                                lo,
                            );
                        }
                    }
                } else if let Ok((s4, _)) = expect(toks, s3, TokenKind::RBracket) {
                    lemma_leaf(toks, st.ast, s4, NodeView::ArrayLiteral(first_row), start, lo);
                }
            }
        }
    }
}

proof fn lemma_comprehension(
    toks: Seq<TokenView>,
    depth: nat,
    st: ParseState,
    element: ExprId,
    start: u32,
    lo: int,
)
    requires
        sound(st.ast),
        lo <= st.ast.nodes.len(),
    ensures
        yields_expr(st.ast, lo, comprehension(toks, depth, st, element, start)),
    decreases 257 - depth, 5int, 0int,
{
    reveal(type_annotation);
    unfold_comprehension(toks, depth, st, element, start);
    if let Ok((s1, name)) = expect(toks, advanced(st), TokenKind::Identifier) {
        let (s2, var) = intern(s1, name.text);
        let found = if toks[s2.pos].kind == TokenKind::Colon {
            type_annotation(toks, advanced(s2))
        } else {
            Ok((s2, PinpType::Int))
        };
        if let Ok((s3, var_type)) = found {
            if let Ok((s4, _)) = expect(toks, s3, TokenKind::KwIn) {
                lemma_expr(toks, depth, s4, 0);
                if let Ok((s5, source)) = expr(toks, depth, s4, 0) {
                    if let Ok((s6, _)) = expect(toks, s5, TokenKind::RBracket) {
                        lemma_leaf(
                            toks,
                            st.ast,
                            s6,
                            NodeView::Comprehension(element, var, var_type, source),
                            start,
                            lo,
                        );
                    }
                }
            }
        }
    }
}

proof fn lemma_row(toks: Seq<TokenView>, depth: nat, st: ParseState, elements: Seq<ExprId>)
    requires
        sound(st.ast),
    ensures
        advances(st.ast, row(toks, depth, st, elements)),
    decreases 257 - depth, 4int, toks.len() - st.pos,
{
    unfold_row(toks, depth, st, elements);
    let s1 = advanced(st);
    lemma_expr(toks, depth, s1, 0);
    if let Ok((s2, element)) = expr(toks, depth, s1, 0) {
        if moved(toks, st, s2) {
            lemma_row(toks, depth, s2, elements.push(element));
        }
    }
}

proof fn lemma_rows(
    toks: Seq<TokenView>,
    depth: nat,
    st: ParseState,
    done: Seq<Seq<ExprId>>,
    anchor_col: int,
)
    requires
        sound(st.ast),
    ensures
        advances(st.ast, rows(toks, depth, st, done, anchor_col)),
    decreases 257 - depth, 5int, toks.len() - st.pos,
{
    unfold_rows(toks, depth, st, done, anchor_col);
    let s1 = advanced(st);
    lemma_expr(toks, depth, s1, 0);
    if let Ok((s2, first)) = expr(toks, depth, s1, 0) {
        lemma_row(toks, depth, s2, seq![first]);
        if let Ok((s3, elements)) = row(toks, depth, s2, seq![first]) {
            if moved(toks, st, s3) {
                lemma_rows(toks, depth, s3, done.push(elements), anchor_col);
            }
        }
    }
}

/// One arm more, read behind the others.
proof fn lemma_arms_grown(
    low: AstView,
    mid: AstView,
    ast: AstView,
    arms: Seq<IfArmView>,
    arm: IfArmView,
    lo: int,
)
    requires
        grown(low, mid),
        grown(mid, ast),
        ordered(low),
        ordered(mid),
        lo <= low.nodes.len(),
        arms_apart(low, arms, lo),
        expr_apart(mid, arm.cond, low.nodes.len() as int),
        block_apart(ast, arm.body, mid.nodes.len() as int),
    ensures
        arms_apart(ast, arms.push(arm), lo),
{
    let far = mid.nodes.len() as int;
    lemma_arms_kept(low, ast, arms, lo, far);
    lemma_kept(mid, ast, arm.cond, low.nodes.len() as int, far);
    lemma_arms_pushed(ast, arms, arm, 0, unlimited());
    let a = arms_visits(low, arms, 0, unlimited());
    let b = expr_visits(mid, arm.cond, unlimited());
    let c = block_visits(ast, arm.body, unlimited());
    lemma_combined(mid, low, a, b, lo);
    lemma_combined(ast, mid, a + b, c, lo);
    assert(a + (b + c) =~= (a + b) + c);
}

proof fn lemma_if_expr(toks: Seq<TokenView>, depth: nat, st: ParseState)
    requires
        sound(st.ast),
    ensures
        yields_expr(st.ast, st.ast.nodes.len() as int, if_expr(toks, depth, st)),
    decreases 257 - depth, 6int, 0int,
{
    unfold_if_expr(toks, depth, st);
    let lo = st.ast.nodes.len() as int;
    lemma_expr(toks, depth, advanced(st), 0);
    if let Ok((s1, cond)) = expr(toks, depth, advanced(st), 0) {
        lemma_block(toks, depth, s1);
        if let Ok((s2, body)) = block(toks, depth, s1) {
            let arm = IfArmView { cond, body };
            let arms = seq![arm];
            if small(s2.ast) {
                let none = Seq::<IfArmView>::empty();
                assert(none.push(arm) =~= arms);
                assert(arms_visits(st.ast, none, 0, unlimited()) =~= Seq::empty());
                lemma_arms_grown(st.ast, s1.ast, s2.ast, none, arm, lo);
            }
            lemma_if_tail(toks, depth, s2, arms, lo);
            if let Ok((s3, (all, else_block))) = if_tail(toks, depth, s2, arms) {
                let node = NodeView::If(all, else_block);
                let start = offset(toks, st.pos);
                lemma_push(toks, s3, node, start);
                let (s4, _) = push(toks, s3, node, start);
                let n = s3.ast.nodes.len() as int;
                if small(s4.ast) {
                    lemma_if_kept(s3.ast, s4.ast, all, else_block, lo, n);
                    assert(node_visits(s4.ast, node, n) == if_visits(s4.ast, all, else_block, n));
                }
                lemma_tree(toks, st.ast, s3, node, start, lo);
            }
        }
    }
}

proof fn lemma_if_tail(
    toks: Seq<TokenView>,
    depth: nat,
    st: ParseState,
    arms: Seq<IfArmView>,
    lo: int,
)
    requires
        sound(st.ast),
        lo <= st.ast.nodes.len(),
        small(st.ast) ==> arms_apart(st.ast, arms, lo),
    ensures
        yields_arms(st.ast, lo, if_tail(toks, depth, st, arms)),
    decreases 257 - depth, 5int, toks.len() - st.pos,
{
    unfold_if_tail(toks, depth, st, arms);
    match toks[st.pos].kind {
        TokenKind::KwElif => {
            lemma_expr(toks, depth, advanced(st), 0);
            if let Ok((s1, cond)) = expr(toks, depth, advanced(st), 0) {
                lemma_block(toks, depth, s1);
                if let Ok((s2, body)) = block(toks, depth, s1) {
                    let arm = IfArmView { cond, body };
                    if small(s2.ast) {
                        lemma_arms_grown(st.ast, s1.ast, s2.ast, arms, arm, lo);
                    }
                    if moved(toks, st, s2) {
                        lemma_if_tail(toks, depth, s2, arms.push(arm), lo);
                    }
                }
            }
        },
        TokenKind::KwElse => {
            lemma_block(toks, depth, advanced(st));
            if let Ok((s1, body)) = block(toks, depth, advanced(st)) {
                if small(s1.ast) {
                    lemma_arms_kept(
                        st.ast,
                        s1.ast,
                        arms,
                        lo,
                        st.ast.nodes.len() as int,
                    );
                    lemma_combined(
                        s1.ast,
                        st.ast,
                        arms_visits(st.ast, arms, 0, unlimited()),
                        block_visits(s1.ast, body, unlimited()),
                        lo,
                    );
                }
            }
        },
        _ => {
            let v = arms_visits(st.ast, arms, 0, unlimited());
            assert(v + Seq::<int>::empty() =~= v);
        },
    }
}

// ---------------------------------------------------------------------------
// Statements
// ---------------------------------------------------------------------------

proof fn lemma_block(toks: Seq<TokenView>, depth: nat, st: ParseState)
    requires
        sound(st.ast),
    ensures
        yields_block(st.ast, st.ast.nodes.len() as int, block(toks, depth, st)),
    decreases 257 - depth, 0int, 0int,
{
    unfold_block(toks, depth, st);
    if depth < MAX_NESTING_DEPTH {
        if let Ok((s1, _)) = expect(toks, st, TokenKind::Newline) {
            if let Ok((s2, _)) = expect(toks, s1, TokenKind::Indent) {
                let none = Seq::<StmtView>::empty();
                assert(block_visits(s2.ast, in_a_row(none), unlimited()) =~= Seq::empty());
                lemma_block_stmts(toks, depth + 1, s2, none, st.ast.nodes.len() as int);
                if let Ok((s3, stmts)) = block_stmts(toks, depth + 1, s2, none) {
                    lemma_with_result(s3.ast, stmts, unlimited());
                }
            }
        }
    }
}

proof fn lemma_block_stmts(
    toks: Seq<TokenView>,
    depth: nat,
    st: ParseState,
    stmts: Seq<StmtView>,
    lo: int,
)
    requires
        sound(st.ast),
        lo <= st.ast.nodes.len(),
        small(st.ast) ==> block_apart(st.ast, in_a_row(stmts), lo),
    ensures
        advances(st.ast, block_stmts(toks, depth, st, stmts)),
        block_stmts(toks, depth, st, stmts) matches Ok((s1, all)) ==> (small(s1.ast)
            ==> block_apart(s1.ast, in_a_row(all), lo)),
    decreases 257 - depth, 9int, toks.len() - st.pos,
{
    reveal(block_end);
    unfold_block_stmts(toks, depth, st, stmts);
    lemma_stmt(toks, depth, st);
    if let Ok((s1, read)) = stmt(toks, depth, st) {
        lemma_dedents(toks, s1);
        lemma_dedents(toks, advanced(s1));
        let more = stmts.push(read);
        if small(s1.ast) {
            let far = st.ast.nodes.len() as int;
            lemma_block_kept(st.ast, s1.ast, in_a_row(stmts), lo, far);
            lemma_stmts_pushed(s1.ast, stmts, read, 0, unlimited());
            let a = block_visits(st.ast, in_a_row(stmts), unlimited());
            let b = stmt_visits(s1.ast, read, unlimited());
            lemma_combined(s1.ast, st.ast, a, b, lo);
            assert(block_visits(s1.ast, in_a_row(stmts), unlimited()) =~= stmts_visits(
                s1.ast,
                in_a_row(stmts),
                0,
                unlimited(),
            ));
            assert(block_visits(s1.ast, in_a_row(more), unlimited()) =~= a + b);
        }
        if let Ok((s2, ended)) = block_end(toks, swallow_dedents(toks, s1)) {
            assert(s2.ast == s1.ast);
            if !ended && moved(toks, st, s2) {
                lemma_block_stmts(toks, depth, s2, more, lo);
            }
        }
    }
}

pub proof fn lemma_stmt(toks: Seq<TokenView>, depth: nat, st: ParseState)
    requires
        sound(st.ast),
    ensures
        yields_stmt(st.ast, st.ast.nodes.len() as int, stmt(toks, depth, st)),
    decreases 257 - depth, 8int, 0int,
{
    unfold_stmt(toks, depth, st);
    let lo = st.ast.nodes.len() as int;
    match toks[st.pos].kind {
        TokenKind::KwWhile => {
            lemma_expr(toks, depth, advanced(st), 0);
            if let Ok((s1, cond)) = expr(toks, depth, advanced(st), 0) {
                lemma_block(toks, depth, s1);
                if let Ok((s2, body)) = block(toks, depth, s1) {
                    if small(s2.ast) {
                        lemma_kept(
                            s1.ast,
                            s2.ast,
                            cond,
                            lo,
                            s1.ast.nodes.len() as int,
                        );
                        lemma_combined(
                            s2.ast,
                            s1.ast,
                            expr_visits(s1.ast, cond, unlimited()),
                            block_visits(s2.ast, body, unlimited()),
                            lo,
                        );
                    }
                }
            }
        },
        TokenKind::KwLoop => {
            lemma_loop_stmt(toks, depth, st);
        },
        TokenKind::KwFor => {
            lemma_for_stmt(toks, depth, st);
        },
        _ => {
            lemma_expr_list(toks, depth, st);
            if let Ok((s1, first)) = expr_list(toks, depth, st) {
                lemma_after_list(toks, depth, s1, first, lo);
            }
        },
    }
}

proof fn lemma_loop_stmt(toks: Seq<TokenView>, depth: nat, st: ParseState)
    requires
        sound(st.ast),
    ensures
        yields_stmt(st.ast, st.ast.nodes.len() as int, loop_stmt(toks, depth, st)),
    decreases 257 - depth, 7int, 0int,
{
    unfold_loop_stmt(toks, depth, st);
    let lo = st.ast.nodes.len() as int;
    lemma_block(toks, depth, advanced(st));
    if let Ok((s1, body)) = block(toks, depth, advanced(st)) {
        lemma_expr(toks, depth, advanced(s1), 0);
        if let Ok((s2, cond)) = expr(toks, depth, advanced(s1), 0) {
            if small(s2.ast) {
                lemma_block_kept(
                    s1.ast,
                    s2.ast,
                    body,
                    lo,
                    s1.ast.nodes.len() as int,
                );
                lemma_combined(
                    s2.ast,
                    s1.ast,
                    block_visits(s1.ast, body, unlimited()),
                    expr_visits(s2.ast, cond, unlimited()),
                    lo,
                );
            }
        }
    }
}

proof fn lemma_for_stmt(toks: Seq<TokenView>, depth: nat, st: ParseState)
    requires
        sound(st.ast),
    ensures
        yields_stmt(st.ast, st.ast.nodes.len() as int, for_stmt(toks, depth, st)),
    decreases 257 - depth, 7int, 0int,
{
    unfold_for_stmt(toks, depth, st);
    if let Ok((s1, first)) = binder(toks, advanced(st)) {
        lemma_binders(toks, s1, seq![first]);
        if let Ok((s2, binders)) = more_binders(toks, s1, seq![first]) {
            if let Ok((s3, _)) = expect(toks, s2, TokenKind::KwIn) {
                lemma_expr(toks, depth, s3, 0);
                if let Ok((s4, source)) = expr(toks, depth, s3, 0) {
                    lemma_block(toks, depth, s4);
                }
            }
        }
    }
}

proof fn lemma_expr_list(toks: Seq<TokenView>, depth: nat, st: ParseState)
    requires
        sound(st.ast),
    ensures
        yields_exprs(st.ast, st.ast.nodes.len() as int, expr_list(toks, depth, st)),
    decreases 257 - depth, 5int, 0int,
{
    unfold_expr_list(toks, depth, st);
    lemma_expr(toks, depth, st, 0);
    if let Ok((s1, first)) = expr(toks, depth, st, 0) {
        let lo = st.ast.nodes.len() as int;
        if small(s1.ast) {
            let none = Seq::<ExprId>::empty();
            assert(none.push(first) =~= seq![first]);
            assert(exprs_visits(st.ast, none, 0, unlimited()) =~= Seq::empty());
            lemma_exprs_grown(st.ast, s1.ast, none, first, lo);
        }
        lemma_list_tail(toks, depth, s1, toks[st.pos].col, seq![first], lo);
    }
}

proof fn lemma_list_tail(
    toks: Seq<TokenView>,
    depth: nat,
    st: ParseState,
    list_col: int,
    exprs: Seq<ExprId>,
    lo: int,
)
    requires
        sound(st.ast),
        lo <= st.ast.nodes.len(),
        small(st.ast) ==> exprs_apart(st.ast, exprs, lo),
    ensures
        yields_exprs(st.ast, lo, list_tail(toks, depth, st, list_col, exprs)),
    decreases 257 - depth, 4int, toks.len() - st.pos,
{
    unfold_list_tail(toks, depth, st, list_col, exprs);
    let s1 = advanced(st);
    lemma_wrapping(toks, s1);
    let continued = if toks[s1.pos].kind == TokenKind::Newline {
        skip_wrapping(toks, s1)
    } else {
        s1
    };
    lemma_expr(toks, depth, continued, 0);
    if let Ok((s2, next)) = expr(toks, depth, continued, 0) {
        if small(s2.ast) {
            lemma_exprs_grown(st.ast, s2.ast, exprs, next, lo);
        }
        if moved(toks, st, s2) {
            lemma_list_tail(toks, depth, s2, list_col, exprs.push(next), lo);
        }
    }
}

/// A list of one expression comes to what the expression does.
proof fn lemma_single(ast: AstView, exprs: Seq<ExprId>, limit: int)
    requires
        exprs.len() == 1,
    ensures
        exprs_visits(ast, exprs, 0, limit) == expr_visits(ast, exprs[0], limit),
{
    let v = expr_visits(ast, exprs[0], limit);
    assert(exprs_visits(ast, exprs, 1, limit) =~= Seq::empty());
    assert(v + Seq::<int>::empty() =~= v);
}

proof fn lemma_after_list(
    toks: Seq<TokenView>,
    depth: nat,
    st: ParseState,
    first: Seq<ExprId>,
    lo: int,
)
    requires
        sound(st.ast),
        lo <= st.ast.nodes.len(),
        small(st.ast) ==> exprs_apart(st.ast, first, lo),
    ensures
        yields_stmt(st.ast, lo, after_list(toks, depth, st, first)),
    decreases 257 - depth, 7int, 0int,
{
    unfold_after_list(toks, depth, st, first);
    let kind = toks[st.pos].kind;
    let target = st.ast.nodes[first[0].0 as int];
    if first.len() == 1 && compound_assign_op(kind) is Some {
        let op = compound_assign_op(kind)->0;
        if target is Index || target is Index2D {
            lemma_indexed_assign(toks, depth, st, target, Some(op), lo);
        } else if let Some(place) = named_place(target) {
            lemma_expr(toks, depth, advanced(st), 0);
            if let Ok((s1, rhs)) = expr(toks, depth, advanced(st), 0) {
                lemma_compound(toks, st.ast, s1, first[0], place, op, rhs, lo);
            }
        }
    } else if first.len() == 1 && kind == TokenKind::Equal && (target is Index
        || target is Index2D) {
        lemma_indexed_assign(toks, depth, st, target, None, lo);
    } else if kind != TokenKind::Equal {
        if first.len() == 1 {
            lemma_single(st.ast, first, unlimited());
        }
    } else {
        assert(seq![first].last() == first);
        lemma_groups(toks, depth, st, seq![first], lo);
        reveal(assignment);
    }
}

/// `place <op>= e`: the place is read once more, behind `e`.
proof fn lemma_compound(
    toks: Seq<TokenView>,
    low: AstView,
    st: ParseState,
    target: ExprId,
    place: Place,
    op: BinOp,
    rhs: ExprId,
    lo: int,
)
    requires
        continues(low, st.ast),
        sound(st.ast),
        lo <= low.nodes.len(),
        small(st.ast) ==> expr_apart(st.ast, rhs, low.nodes.len() as int),
    ensures
        yields_stmt(low, lo, Ok(compound(toks, st, target, place, op, rhs))),
{
    let span = st.ast.spans[target.0 as int];
    let node = crate::parser::ast::place_read(place);
    lemma_push(toks, st, node, span.start);
    let (s1, read) = push(toks, st, node, span.start);
    let sum = NodeView::Bin(op, read, rhs);
    lemma_push(toks, s1, sum, span.start);
    let (s2, combined) = push(toks, s1, sum, span.start);
    let n = st.ast.nodes.len() as int;
    if small(s2.ast) {
        let mid = low.nodes.len() as int;
        lemma_kept(st.ast, s2.ast, rhs, mid, n + 1);
        let b = expr_visits(st.ast, rhs, unlimited());
        assert(s2.ast.nodes[n] == node);
        assert(s1.ast.nodes[n] == node);
        assert(expr_visits(s2.ast, read, n + 1) =~= seq![n]);
        assert(!links(s2.ast, read, rhs));
        let v = node_visits(s2.ast, sum, n + 1);
        assert(v == seq![n] + b);
        lemma_joined(seq![n], b);
        assert(seq![n][0] == n);
        assert forall|i: int| #[trigger] seq![n].contains(i) implies !b.contains(i) by {
            assert(i == n);
        }
        lemma_disjoint(seq![n], b);
        lemma_pushed_contains(v, n + 1);
        let values = seq![combined];
        lemma_single(s2.ast, values, unlimited());
        assert(exprs_apart(s2.ast, values, lo));
    }
}

proof fn lemma_indexed_assign(
    toks: Seq<TokenView>,
    depth: nat,
    st: ParseState,
    target: NodeView,
    op: Option<BinOp>,
    lo: int,
)
    requires
        sound(st.ast),
        target is Index || target is Index2D,
    ensures
        yields_stmt(st.ast, lo, indexed_assign(toks, depth, st, target, op)),
    decreases 257 - depth, 6int, 0int,
{
    unfold_indexed_assign(toks, depth, st, target, op);
    lemma_expr(toks, depth, advanced(st), 0);
}

proof fn lemma_groups(
    toks: Seq<TokenView>,
    depth: nat,
    st: ParseState,
    done: Seq<Seq<ExprId>>,
    lo: int,
)
    requires
        sound(st.ast),
        done.len() > 0,
        lo <= st.ast.nodes.len(),
        small(st.ast) ==> exprs_apart(st.ast, done.last(), lo),
    ensures
        advances(st.ast, groups(toks, depth, st, done)),
        groups(toks, depth, st, done) matches Ok((s1, all)) ==> (small(s1.ast) ==> exprs_apart(
            s1.ast,
            all.last(),
            lo,
        )),
    decreases 257 - depth, 6int, toks.len() - st.pos,
{
    unfold_groups(toks, depth, st, done);
    lemma_expr_list(toks, depth, advanced(st));
    if let Ok((s1, group)) = expr_list(toks, depth, advanced(st)) {
        if moved(toks, st, s1) {
            assert(done.push(group).last() == group);
            lemma_groups(toks, depth, s1, done.push(group), lo);
        }
    }
}

// ---------------------------------------------------------------------------
// Programs
// ---------------------------------------------------------------------------

/// What an item comes to.
pub open spec fn item_visits(ast: AstView, item: TopLevelView, limit: int) -> Seq<int> {
    match item {
        TopLevelView::Stmt(stmt) => stmt_visits(ast, stmt, limit),
        TopLevelView::Func(func) => block_visits(ast, func.body, limit),
    }
}

/// Whether a function's parameters and result are declared with types that values have, or `Void`.
pub open spec fn annotated_item(item: TopLevelView) -> bool {
    item matches TopLevelView::Func(func) ==> {
        &&& annotated(func.return_type)
        &&& forall|i: int|
            0 <= i < func.params.len() ==> annotated((#[trigger] func.params[i]).param_type)
    }
}

pub open spec fn yields_item(before: AstView, lo: int, r: Parsed<TopLevelView>) -> bool {
    &&& advances(before, r)
    &&& r matches Ok((s1, item)) ==> {
        &&& annotated_item(item)
        &&& small(s1.ast) ==> apart(s1.ast, item_visits(s1.ast, item, unlimited()), lo)
    }
}

proof fn lemma_func_body(toks: Seq<TokenView>, st: ParseState, has_return_type: bool)
    requires
        sound(st.ast),
    ensures
        yields_block(
            st.ast,
            st.ast.nodes.len() as int,
            func_body(toks, st, has_return_type),
        ),
{
    reveal(func_body);
    lemma_block(toks, 0, st);
    lemma_expr(toks, 0, st, 0);
    if let Ok((s1, result)) = expr(toks, 0, st, 0) {
        let block = only_result(result);
        let none = Seq::<int>::empty();
        assert(stmts_visits(s1.ast, block, 0, unlimited()) =~= none);
        assert(block_visits(s1.ast, block, unlimited()) =~= expr_visits(
            s1.ast,
            result,
            unlimited(),
        ));
    }
}

proof fn lemma_item(toks: Seq<TokenView>, st: ParseState)
    requires
        sound(st.ast),
    ensures
        yields_item(st.ast, st.ast.nodes.len() as int, top_level_item(toks, st)),
{
    reveal(top_level_item);
    reveal(func_def);
    reveal(params);
    reveal(type_annotation);
    lemma_stmt(toks, 0, st);
    let name_token = toks[st.pos];
    let (s1, _) = intern(advanced(st), name_token.text);
    if let Ok((s2, _)) = expect(toks, s1, TokenKind::LParen) {
        lemma_params(toks, s2, toks[s2.pos], Seq::empty());
        if let Ok((s3, all)) = params(toks, s2, name_token) {
            if let Ok((s4, _)) = expect(toks, s3, TokenKind::RParen) {
                let has_return_type = toks[s4.pos].kind == TokenKind::Colon;
                let found = if has_return_type {
                    type_annotation(toks, advanced(s4))
                } else {
                    Ok((s4, PinpType::Void))
                };
                if let Ok((s5, return_type)) = found {
                    if let Ok((s6, _)) = expect(toks, s5, TokenKind::KwIs) {
                        lemma_func_body(toks, s6, has_return_type);
                    }
                }
            }
        }
    }
}

/// What the items from the one at `from` on come to.
pub open spec fn listed(ast: AstView, items: Seq<TopLevelView>, from: int, limit: int) -> Seq<int>
    decreases items.len() - from,
{
    if from < 0 || from >= items.len() {
        Seq::empty()
    } else {
        item_visits(ast, items[from], limit) + listed(ast, items, from + 1, limit)
    }
}

proof fn lemma_listed_pushed(
    ast: AstView,
    items: Seq<TopLevelView>,
    item: TopLevelView,
    from: int,
    limit: int,
)
    requires
        0 <= from <= items.len(),
    ensures
        listed(ast, items.push(item), from, limit) == listed(ast, items, from, limit) + item_visits(
            ast,
            item,
            limit,
        ),
    decreases items.len() - from,
{
    let more = items.push(item);
    let last = item_visits(ast, item, limit);
    if from < items.len() {
        lemma_listed_pushed(ast, items, item, from + 1, limit);
        let here = item_visits(ast, items[from], limit);
        let rest = listed(ast, items, from + 1, limit);
        assert(more[from] == items[from]);
        assert(here + (rest + last) =~= (here + rest) + last);
    } else {
        assert(more[from] == item);
        assert(listed(ast, more, from + 1, limit) =~= Seq::empty());
        assert(last + Seq::<int>::empty() =~= last);
        assert(Seq::<int>::empty() + last =~= last);
    }
}

proof fn lemma_listed_stable(
    a: AstView,
    b: AstView,
    items: Seq<TopLevelView>,
    from: int,
    lb: int,
)
    requires
        grown(a, b),
        ordered(a),
        there(a, listed(a, items, from, unlimited()), lb),
    ensures
        listed(b, items, from, lb) == listed(a, items, from, unlimited()),
    decreases items.len() - from,
{
    if 0 <= from < items.len() {
        lemma_there(
            a,
            item_visits(a, items[from], unlimited()),
            listed(a, items, from + 1, unlimited()),
            lb,
        );
        match items[from] {
            TopLevelView::Stmt(stmt) => {
                lemma_stmt_stable(a, b, stmt, unlimited(), lb);
            },
            TopLevelView::Func(func) => {
                lemma_block_stable(a, b, func.body, unlimited(), lb);
            },
        }
        lemma_listed_stable(a, b, items, from + 1, lb);
    }
}

proof fn lemma_listed_items(ast: AstView, from: int)
    ensures
        items_visits(ast, from) == listed(ast, ast.top_level, from, ast.nodes.len() as int),
    decreases ast.top_level.len() - from,
{
    if 0 <= from < ast.top_level.len() {
        lemma_listed_items(ast, from + 1);
    }
}

/// What a program comes to lies below every id.
proof fn lemma_listed_below(ast: AstView, items: Seq<TopLevelView>, from: int, i: int)
    requires
        listed(ast, items, from, unlimited()).contains(i),
    ensures
        i < unlimited(),
    decreases items.len() - from,
{
    if 0 <= from < items.len() {
        let here = item_visits(ast, items[from], unlimited());
        lemma_joined(here, listed(ast, items, from + 1, unlimited()));
        if here.contains(i) {
            match items[from] {
                TopLevelView::Stmt(stmt) => lemma_stmt_below(ast, stmt, unlimited(), i),
                TopLevelView::Func(func) => lemma_block_below(ast, func.body, unlimited(), i),
            }
        } else {
            lemma_listed_below(ast, items, from + 1, i);
        }
    }
}

pub open spec fn annotated_items(items: Seq<TopLevelView>) -> bool {
    forall|k: int| 0 <= k < items.len() ==> annotated_item(#[trigger] items[k])
}

proof fn lemma_program(toks: Seq<TokenView>, st: ParseState)
    requires
        sound(st.ast),
        annotated_items(st.ast.top_level),
        small(st.ast) ==> apart(st.ast, listed(st.ast, st.ast.top_level, 0, unlimited()), 0),
    ensures
        program(toks, st) matches Ok(ast) ==> {
            &&& annotated_items(ast.top_level)
            &&& small(ast) ==> ordered(ast) && apart(
                ast,
                listed(ast, ast.top_level, 0, unlimited()),
                0,
            )
        },
    decreases toks.len() - st.pos,
{
    let s0 = ParseState { pos: after_separators(toks, st.pos), pending: 0, ..st };
    lemma_item(toks, s0);
    if let Ok((s1, item)) = top_level_item(toks, s0) {
        if moved(toks, st, s1) {
            let items = st.ast.top_level;
            let after = AstView { top_level: items.push(item), ..s1.ast };
            assert(s1.ast.top_level == items);
            if small(after) {
                let v = listed(st.ast, items, 0, unlimited());
                assert(there(st.ast, v, unlimited())) by {
                    assert forall|i: int| #[trigger] v.contains(i) implies 0 <= i
                        < st.ast.nodes.len() && i < unlimited() by {
                        lemma_listed_below(st.ast, items, 0, i);
                    }
                }
                lemma_listed_stable(st.ast, after, items, 0, unlimited());
                let w = item_visits(s1.ast, item, unlimited());
                assert(there(s1.ast, w, unlimited())) by {
                    assert forall|i: int| #[trigger] w.contains(i) implies 0 <= i
                        < s1.ast.nodes.len() && i < unlimited() by {
                        match item {
                            TopLevelView::Stmt(stmt) => lemma_stmt_below(
                                s1.ast,
                                stmt,
                                unlimited(),
                                i,
                            ),
                            TopLevelView::Func(func) => lemma_block_below(
                                s1.ast,
                                func.body,
                                unlimited(),
                                i,
                            ),
                        }
                    }
                }
                match item {
                    TopLevelView::Stmt(stmt) => {
                        lemma_stmt_stable(s1.ast, after, stmt, unlimited(), unlimited());
                    },
                    TopLevelView::Func(func) => {
                        lemma_block_stable(s1.ast, after, func.body, unlimited(), unlimited());
                    },
                }
                lemma_combined(s1.ast, st.ast, v, w, 0);
                lemma_listed_pushed(after, items, item, 0, unlimited());
            }
            lemma_program(toks, ParseState { ast: after, ..s1 });
        }
    }
}

/// In a parsed program no expression is mentioned twice, except for the operand that two
/// comparisons of a chain share, where ids tell its expressions apart. Its functions are declared
/// with types that values have, or `Void`.
pub proof fn parsed_programs_are_trees(source: Seq<u8>)
    ensures
        parsed(source) matches Ok(ast) ==> {
            &&& annotated_items(ast.top_level)
            &&& ast.nodes.len() <= u32::MAX ==> unshared(ast)
        },
{
    if let Ok(toks) = lexed(source) {
        let empty = AstView {
            nodes: Seq::empty(),
            spans: Seq::empty(),
            names: Seq::empty(),
            strings: Seq::empty(),
            top_level: Seq::empty(),
        };
        assert(listed(empty, empty.top_level, 0, unlimited()) =~= Seq::empty());
        lemma_program(toks, ParseState { pos: 0, ast: empty, pending: 0 });
        if let Ok(ast) = parsed(source) {
            if small(ast) {
                let n = ast.nodes.len() as int;
                lemma_listed_stable(ast, ast, ast.top_level, 0, n);
                lemma_listed_items(ast, 0);
            }
        }
    }
}

} // verus!
