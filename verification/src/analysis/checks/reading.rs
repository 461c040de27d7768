//! What the liveness check reports about.
//!
//! An expression reads what its parts read, down to the names that are written in it, and nothing
//! else. A binding is reported as unused exactly where nothing in the graph reads it, and a store as
//! dead exactly where what it stores to is read somewhere but is not needed behind it.

use crate::analysis::cfg::{ActionView, BlockData, CfgView, Terminator};
use crate::analysis::checks::liveness::{
    action_reads, actions_reported, blocks_reported, exempt, live_before,
    reads_in_actions, reads_in_arms, reads_in_block, reads_in_blocks, reads_in_expr, reads_in_list,
    reads_in_node, reads_in_rows, reads_in_segments, reads_in_stmt, reads_in_stmts, reads_of, stored,
    terminator_reads, unread_values, write_reported, writes_in, writes_in_group, writes_in_groups,
    writes_reported, written, Grounds, Report,
};
use crate::analysis::dataflow::numbers;
use crate::analysis::diagnostic::{finding, DiagnosticCode, DiagnosticView};
use crate::lexer::Span;
use crate::parser::ast::{
    symbol_of, AstView, BlockView, ExprId, FStrSegment, IfArmView, NodeView, Place, StmtView, SymId,
};
use vstd::prelude::*;

verus! {

// ---------------------------------------------------------------------------
// Parts
// ---------------------------------------------------------------------------

/// An expression stands in a node: it is an operand, an argument, an element, an index, a bound, a
/// condition, or stands in a block of the node.
pub open spec fn part_of_node(node: NodeView, part: ExprId) -> bool {
    match node {
        NodeView::Unary(_, a) => part == a,
        NodeView::Bin(_, a, b) => part == a || part == b,
        NodeView::Call(_, args) => args.contains(part),
        NodeView::If(arms, else_block) => {
            ||| exists|k: int|
                0 <= k < arms.len() && ((#[trigger] arms[k]).cond == part || part_of_block(
                    arms[k].body,
                    part,
                ))
            ||| else_block matches Some(block) && part_of_block(block, part)
        },
        NodeView::Range(start, stop, step, _) => part == start || part == stop || step == Some(part),
        NodeView::Membership(value, range) => part == value || part == range,
        NodeView::ArrayLiteral(elements) => elements.contains(part),
        NodeView::MatrixLiteral(rows) => exists|r: int|
            0 <= r < rows.len() && (#[trigger] rows[r]).contains(part),
        NodeView::Index(array, index) => part == array || part == index,
        NodeView::Index2D(matrix, row, col) => part == matrix || part == row || part == col,
        NodeView::Member(object, _) => part == object,
        NodeView::Comprehension(element, _, _, source) => part == element || part == source,
        NodeView::Int(_) | NodeView::Float(_) | NodeView::Bool(_) | NodeView::Str(_)
        | NodeView::FStr(_) | NodeView::Var(_) | NodeView::Global(_) | NodeView::FullExtent => false,
    }
}

/// An expression stands in a block.
pub open spec fn part_of_block(block: BlockView, part: ExprId) -> bool
    decreases block,
{
    ||| block.result == Some(part)
    ||| exists|k: int|
        0 <= k < block.stmts.len() && part_of_stmt(#[trigger] block.stmts[k], part)
}

/// An expression stands in a statement.
pub open spec fn part_of_stmt(stmt: StmtView, part: ExprId) -> bool
    decreases stmt,
{
    match stmt {
        StmtView::Assign(_, _, values) => values.contains(part),
        StmtView::Expr(expr_id) => part == expr_id,
        StmtView::While(cond, body) => part == cond || part_of_block(body, part),
        StmtView::Loop(body, cond, _) => part == cond || part_of_block(body, part),
        StmtView::For(_, source, body) => part == source || part_of_block(body, part),
        StmtView::ForArray(_, source, body) => part == source || part_of_block(body, part),
        StmtView::IndexedAssign(_, index, value, _) => part == index || part == value,
        StmtView::IndexedAssign2D(_, row, col, value, _) => part == row || part == col || part
            == value,
    }
}

/// A name is written in a node itself: as a variable, a global, or in a hole of an f-string.
pub open spec fn names(node: NodeView, sym: u32) -> bool {
    match node {
        NodeView::Var(sym_id) => sym_id.0 == sym,
        NodeView::Global(sym_id) => sym_id.0 == sym,
        NodeView::FStr(segments) => exists|k: int|
            0 <= k < segments.len() && (#[trigger] segments[k] matches FStrSegment::Interp(place)
                && symbol_of(place).0 == sym),
        _ => false,
    }
}

/// A block updates an element of what a name stands for.
pub open spec fn block_updates(block: BlockView, sym: u32) -> bool
    decreases block,
{
    exists|k: int| 0 <= k < block.stmts.len() && updates(#[trigger] block.stmts[k], sym)
}

/// A statement updates an element of what a name stands for.
pub open spec fn updates(stmt: StmtView, sym: u32) -> bool
    decreases stmt,
{
    match stmt {
        StmtView::IndexedAssign(target, _, _, _) => symbol_of(target).0 == sym,
        StmtView::IndexedAssign2D(target, _, _, _, _) => symbol_of(target).0 == sym,
        StmtView::While(_, body) => block_updates(body, sym),
        StmtView::Loop(body, _, _) => block_updates(body, sym),
        StmtView::For(_, _, body) => block_updates(body, sym),
        StmtView::ForArray(_, _, body) => block_updates(body, sym),
        _ => false,
    }
}

/// A block of a node updates an element of what a name stands for.
pub open spec fn node_updates(node: NodeView, sym: u32) -> bool {
    node matches NodeView::If(arms, else_block) && {
        ||| exists|k: int| 0 <= k < arms.len() && block_updates((#[trigger] arms[k]).body, sym)
        ||| else_block matches Some(block) && block_updates(block, sym)
    }
}

proof fn lemma_list_reads(ast: AstView, exprs: Seq<ExprId>, count: int, limit: int, sym: u32)
    requires
        0 <= count <= exprs.len(),
    ensures
        reads_in_list(ast, exprs, count, limit).contains(sym) <==> exists|k: int|
            0 <= k < count && reads_in_expr(ast, #[trigger] exprs[k], limit).contains(sym),
    decreases count,
{
    if count > 0 {
        lemma_list_reads(ast, exprs, count - 1, limit, sym);
        if reads_in_expr(ast, exprs[count - 1], limit).contains(sym) {
            assert(reads_in_expr(ast, exprs[count - 1], limit).contains(sym));
        }
    }
}

/// Several expressions read what each of them does.
proof fn lemma_listed(ast: AstView, exprs: Seq<ExprId>, limit: int, sym: u32)
    ensures
        reads_in_list(ast, exprs, exprs.len() as int, limit).contains(sym) <==> exists|e: ExprId|
            exprs.contains(e) && #[trigger] reads_in_expr(ast, e, limit).contains(sym),
{
    lemma_list_reads(ast, exprs, exprs.len() as int, limit, sym);
    if reads_in_list(ast, exprs, exprs.len() as int, limit).contains(sym) {
        let k = choose|k: int|
            0 <= k < exprs.len() && reads_in_expr(ast, #[trigger] exprs[k], limit).contains(sym);
        assert(exprs.contains(exprs[k]));
    }
    if exists|e: ExprId|
        exprs.contains(e) && #[trigger] reads_in_expr(ast, e, limit).contains(sym) {
        let e = choose|e: ExprId|
            exprs.contains(e) && #[trigger] reads_in_expr(ast, e, limit).contains(sym);
        let k = choose|k: int| 0 <= k < exprs.len() && exprs[k] == e;
        assert(reads_in_expr(ast, exprs[k], limit).contains(sym));
    }
}

proof fn lemma_rows_reads(ast: AstView, rows: Seq<Seq<ExprId>>, count: int, limit: int, sym: u32)
    requires
        0 <= count <= rows.len(),
    ensures
        reads_in_rows(ast, rows, count, limit).contains(sym) <==> exists|r: int|
            0 <= r < count && reads_in_list(
                ast,
                #[trigger] rows[r],
                rows[r].len() as int,
                limit,
            ).contains(sym),
    decreases count,
{
    if count > 0 {
        lemma_rows_reads(ast, rows, count - 1, limit, sym);
        assert(rows[count - 1] == rows[count - 1]);
    }
}

proof fn lemma_segments_reads(segments: Seq<FStrSegment>, count: int, sym: u32)
    requires
        0 <= count <= segments.len(),
    ensures
        reads_in_segments(segments, count).contains(sym) <==> exists|k: int|
            0 <= k < count && (#[trigger] segments[k] matches FStrSegment::Interp(place)
                && symbol_of(place).0 == sym),
    decreases count,
{
    if count > 0 {
        lemma_segments_reads(segments, count - 1, sym);
        assert(segments[count - 1] == segments[count - 1]);
    }
}

/// A statement reads what its parts read, and what it updates an element of.
proof fn lemma_stmt_reads(ast: AstView, stmt: StmtView, limit: int, sym: u32)
    ensures
        reads_in_stmt(ast, stmt, limit).contains(sym) <==> updates(stmt, sym) || exists|e: ExprId|
            part_of_stmt(stmt, e) && #[trigger] reads_in_expr(ast, e, limit).contains(sym),
    decreases stmt,
{
    let all = reads_in_stmt(ast, stmt, limit);
    match stmt {
        StmtView::Assign(_, _, values) => {
            assert(all == reads_in_list(ast, values, values.len() as int, limit));
            lemma_listed(ast, values, limit, sym);
            if all.contains(sym) {
                let e = choose|e: ExprId|
                    values.contains(e) && #[trigger] reads_in_expr(ast, e, limit).contains(sym);
                assert(part_of_stmt(stmt, e) && reads_in_expr(ast, e, limit).contains(sym));
            }
        },
        StmtView::Expr(expr_id) => {
            assert(all == reads_in_expr(ast, expr_id, limit));
            assert(part_of_stmt(stmt, expr_id));
        },
        StmtView::While(cond, body) => {
            lemma_block_reads(ast, body, limit, sym);
            assert(all.contains(sym) <==> reads_in_expr(ast, cond, limit).contains(sym)
                || reads_in_block(ast, body, limit).contains(sym));
            lemma_one_more(ast, stmt, cond, body, limit, sym);
        },
        StmtView::Loop(body, cond, _) => {
            lemma_block_reads(ast, body, limit, sym);
            assert(all.contains(sym) <==> reads_in_expr(ast, cond, limit).contains(sym)
                || reads_in_block(ast, body, limit).contains(sym));
            lemma_one_more(ast, stmt, cond, body, limit, sym);
        },
        StmtView::For(_, source, body) => {
            lemma_block_reads(ast, body, limit, sym);
            assert(all.contains(sym) <==> reads_in_expr(ast, source, limit).contains(sym)
                || reads_in_block(ast, body, limit).contains(sym));
            lemma_one_more(ast, stmt, source, body, limit, sym);
        },
        StmtView::ForArray(_, source, body) => {
            lemma_block_reads(ast, body, limit, sym);
            assert(all.contains(sym) <==> reads_in_expr(ast, source, limit).contains(sym)
                || reads_in_block(ast, body, limit).contains(sym));
            lemma_one_more(ast, stmt, source, body, limit, sym);
        },
        StmtView::IndexedAssign(_, index, value, _) => {
            assert(part_of_stmt(stmt, index) && part_of_stmt(stmt, value));
            assert(all.contains(sym) <==> updates(stmt, sym) || reads_in_expr(
                ast,
                index,
                limit,
            ).contains(sym) || reads_in_expr(ast, value, limit).contains(sym));
        },
        StmtView::IndexedAssign2D(_, row, col, value, _) => {
            assert(part_of_stmt(stmt, row) && part_of_stmt(stmt, col) && part_of_stmt(stmt, value));
            assert(all.contains(sym) <==> updates(stmt, sym) || reads_in_expr(
                ast,
                row,
                limit,
            ).contains(sym) || reads_in_expr(ast, col, limit).contains(sym) || reads_in_expr(
                ast,
                value,
                limit,
            ).contains(sym));
        },
    }
}

/// A statement of one expression and a block.
proof fn lemma_one_more(
    ast: AstView,
    stmt: StmtView,
    first: ExprId,
    body: BlockView,
    limit: int,
    sym: u32,
)
    requires
        forall|e: ExprId| #[trigger] part_of_stmt(stmt, e) <==> e == first || part_of_block(body, e),
        reads_in_block(ast, body, limit).contains(sym) <==> block_updates(body, sym) || exists|
            e: ExprId,
        |
            part_of_block(body, e) && #[trigger] reads_in_expr(ast, e, limit).contains(sym),
    ensures
        reads_in_expr(ast, first, limit).contains(sym) || reads_in_block(ast, body, limit).contains(
            sym,
        ) <==> block_updates(body, sym) || exists|e: ExprId|
            part_of_stmt(stmt, e) && #[trigger] reads_in_expr(ast, e, limit).contains(sym),
{
    assert(part_of_stmt(stmt, first));
    if exists|e: ExprId|
        part_of_block(body, e) && #[trigger] reads_in_expr(ast, e, limit).contains(sym) {
        let e = choose|e: ExprId|
            part_of_block(body, e) && #[trigger] reads_in_expr(ast, e, limit).contains(sym);
        assert(part_of_stmt(stmt, e));
    }
}

proof fn lemma_stmts_reads(ast: AstView, block: BlockView, count: int, limit: int, sym: u32)
    requires
        0 <= count <= block.stmts.len(),
    ensures
        reads_in_stmts(ast, block, count, limit).contains(sym) <==> exists|k: int|
            0 <= k < count && reads_in_stmt(ast, #[trigger] block.stmts[k], limit).contains(sym),
    decreases count,
{
    if count > 0 {
        lemma_stmts_reads(ast, block, count - 1, limit, sym);
        assert(block.stmts[count - 1] == block.stmts[count - 1]);
    }
}

proof fn lemma_block_reads(ast: AstView, block: BlockView, limit: int, sym: u32)
    ensures
        reads_in_block(ast, block, limit).contains(sym) <==> block_updates(block, sym) || exists|
            e: ExprId,
        |
            part_of_block(block, e) && #[trigger] reads_in_expr(ast, e, limit).contains(sym),
    decreases block,
{
    let n = block.stmts.len() as int;
    lemma_stmts_reads(ast, block, n, limit, sym);
    assert forall|k: int| 0 <= k < n implies (reads_in_stmt(
        ast,
        #[trigger] block.stmts[k],
        limit,
    ).contains(sym) <==> updates(block.stmts[k], sym) || exists|e: ExprId|
        part_of_stmt(block.stmts[k], e) && #[trigger] reads_in_expr(ast, e, limit).contains(
            sym,
        )) by {
        lemma_stmt_reads(ast, block.stmts[k], limit, sym);
    }
    if reads_in_block(ast, block, limit).contains(sym) {
        if reads_in_stmts(ast, block, n, limit).contains(sym) {
            let k = choose|k: int|
                0 <= k < n && reads_in_stmt(ast, #[trigger] block.stmts[k], limit).contains(sym);
            if updates(block.stmts[k], sym) {
                assert(block_updates(block, sym));
            } else {
                let e = choose|e: ExprId|
                    part_of_stmt(block.stmts[k], e) && #[trigger] reads_in_expr(
                        ast,
                        e,
                        limit,
                    ).contains(sym);
                assert(part_of_block(block, e));
            }
        } else {
            let e = block.result->0;
            assert(part_of_block(block, e));
            assert(reads_in_expr(ast, e, limit).contains(sym));
        }
    }
    if exists|e: ExprId|
        part_of_block(block, e) && #[trigger] reads_in_expr(ast, e, limit).contains(sym) {
        let e = choose|e: ExprId|
            part_of_block(block, e) && #[trigger] reads_in_expr(ast, e, limit).contains(sym);
        if block.result != Some(e) {
            let k = choose|k: int| 0 <= k < n && part_of_stmt(#[trigger] block.stmts[k], e);
            assert(reads_in_stmt(ast, block.stmts[k], limit).contains(sym));
        }
    }
    if block_updates(block, sym) {
        let k = choose|k: int| 0 <= k < n && updates(#[trigger] block.stmts[k], sym);
        assert(reads_in_stmt(ast, block.stmts[k], limit).contains(sym));
    }
}

/// What the first arms of an `if` read.
pub open spec fn arm_reads(ast: AstView, arm: IfArmView, limit: int, sym: u32) -> bool {
    reads_in_expr(ast, arm.cond, limit).contains(sym) || reads_in_block(
        ast,
        arm.body,
        limit,
    ).contains(sym)
}

proof fn lemma_arms_reads(ast: AstView, arms: Seq<IfArmView>, count: int, limit: int, sym: u32)
    requires
        0 <= count <= arms.len(),
    ensures
        reads_in_arms(ast, arms, count, limit).contains(sym) <==> exists|k: int|
            0 <= k < count && arm_reads(ast, #[trigger] arms[k], limit, sym),
    decreases count,
{
    if count > 0 {
        lemma_arms_reads(ast, arms, count - 1, limit, sym);
        assert(arms[count - 1] == arms[count - 1]);
    }
}

/// A node reads the names written in it, what its parts read, and what its blocks update an element
/// of, and nothing else.
pub proof fn nodes_read_what_their_parts_read(ast: AstView, node: NodeView, limit: int, sym: u32)
    ensures
        reads_in_node(ast, node, limit).contains(sym) <==> names(node, sym) || node_updates(
            node,
            sym,
        ) || exists|e: ExprId|
            part_of_node(node, e) && #[trigger] reads_in_expr(ast, e, limit).contains(sym),
{
    let all = reads_in_node(ast, node, limit);
    match node {
        NodeView::FStr(segments) => {
            lemma_segments_reads(segments, segments.len() as int, sym);
        },
        NodeView::Unary(_, a) => {
            assert(part_of_node(node, a));
            assert(all.contains(sym) <==> reads_in_expr(ast, a, limit).contains(sym));
        },
        NodeView::Bin(_, a, b) => {
            assert(part_of_node(node, a) && part_of_node(node, b));
            assert(all.contains(sym) <==> {
                ||| reads_in_expr(ast, a, limit).contains(sym)
                ||| reads_in_expr(ast, b, limit).contains(sym)
            });
        },
        NodeView::Call(_, args) => {
            lemma_listed(ast, args, limit, sym);
            if all.contains(sym) {
                let e = choose|e: ExprId|
                    args.contains(e) && #[trigger] reads_in_expr(ast, e, limit).contains(sym);
                assert(part_of_node(node, e) && reads_in_expr(ast, e, limit).contains(sym));
            }
        },
        NodeView::If(arms, else_block) => {
            lemma_if_reads(ast, arms, else_block, limit, sym);
        },
        NodeView::Range(start, stop, step, _) => {
            assert(part_of_node(node, start) && part_of_node(node, stop));
            if let Some(by) = step {
                assert(part_of_node(node, by));
                assert(all.contains(sym) <==> reads_in_expr(ast, start, limit).contains(sym)
                    || reads_in_expr(ast, stop, limit).contains(sym) || reads_in_expr(
                    ast,
                    by,
                    limit,
                ).contains(sym));
            } else {
                assert(all.contains(sym) <==> reads_in_expr(ast, start, limit).contains(sym)
                    || reads_in_expr(ast, stop, limit).contains(sym));
            }
        },
        NodeView::Membership(value, range) => {
            assert(part_of_node(node, value) && part_of_node(node, range));
            assert(all.contains(sym) <==> {
                ||| reads_in_expr(ast, value, limit).contains(sym)
                ||| reads_in_expr(ast, range, limit).contains(sym)
            });
        },
        NodeView::ArrayLiteral(elements) => {
            lemma_listed(ast, elements, limit, sym);
            if all.contains(sym) {
                let e = choose|e: ExprId|
                    elements.contains(e) && #[trigger] reads_in_expr(ast, e, limit).contains(sym);
                assert(part_of_node(node, e) && reads_in_expr(ast, e, limit).contains(sym));
            }
        },
        NodeView::MatrixLiteral(rows) => {
            lemma_rows_reads(ast, rows, rows.len() as int, limit, sym);
            if reads_in_node(ast, node, limit).contains(sym) {
                let r = choose|r: int|
                    0 <= r < rows.len() && reads_in_list(
                        ast,
                        #[trigger] rows[r],
                        rows[r].len() as int,
                        limit,
                    ).contains(sym);
                lemma_listed(ast, rows[r], limit, sym);
                let e = choose|e: ExprId|
                    rows[r].contains(e) && #[trigger] reads_in_expr(ast, e, limit).contains(sym);
                assert(part_of_node(node, e));
            }
            if exists|e: ExprId|
                part_of_node(node, e) && #[trigger] reads_in_expr(ast, e, limit).contains(sym) {
                let e = choose|e: ExprId|
                    part_of_node(node, e) && #[trigger] reads_in_expr(ast, e, limit).contains(sym);
                let r = choose|r: int| 0 <= r < rows.len() && (#[trigger] rows[r]).contains(e);
                lemma_listed(ast, rows[r], limit, sym);
            }
        },
        NodeView::Index(array, index) => {
            assert(part_of_node(node, array) && part_of_node(node, index));
            assert(all.contains(sym) <==> {
                ||| reads_in_expr(ast, array, limit).contains(sym)
                ||| reads_in_expr(ast, index, limit).contains(sym)
            });
        },
        NodeView::Index2D(matrix, row, col) => {
            assert(part_of_node(node, matrix) && part_of_node(node, row) && part_of_node(node, col));
            assert(all.contains(sym) <==> {
                ||| reads_in_expr(ast, matrix, limit).contains(sym)
                ||| reads_in_expr(ast, row, limit).contains(sym)
                ||| reads_in_expr(ast, col, limit).contains(sym)
            });
        },
        NodeView::Member(object, _) => {
            assert(part_of_node(node, object));
            assert(all.contains(sym) <==> reads_in_expr(ast, object, limit).contains(sym));
        },
        NodeView::Comprehension(element, _, _, source) => {
            assert(part_of_node(node, element) && part_of_node(node, source));
            assert(all.contains(sym) <==> {
                ||| reads_in_expr(ast, element, limit).contains(sym)
                ||| reads_in_expr(ast, source, limit).contains(sym)
            });
        },
        _ => {},
    }
}

proof fn lemma_if_reads(
    ast: AstView,
    arms: Seq<IfArmView>,
    else_block: Option<BlockView>,
    limit: int,
    sym: u32,
)
    ensures
        ({
            let node = NodeView::If(arms, else_block);
            reads_in_node(ast, node, limit).contains(sym) <==> node_updates(node, sym) || exists|
                e: ExprId,
            |
                part_of_node(node, e) && #[trigger] reads_in_expr(ast, e, limit).contains(sym)
        }),
{
    let node = NodeView::If(arms, else_block);
    let n = arms.len() as int;
    lemma_arms_reads(ast, arms, n, limit, sym);
    assert forall|k: int| 0 <= k < n implies (reads_in_block(
        ast,
        (#[trigger] arms[k]).body,
        limit,
    ).contains(sym) <==> block_updates(arms[k].body, sym) || exists|e: ExprId|
        part_of_block(arms[k].body, e) && #[trigger] reads_in_expr(ast, e, limit).contains(
            sym,
        )) by {
        lemma_block_reads(ast, arms[k].body, limit, sym);
    }
    if let Some(block) = else_block {
        lemma_block_reads(ast, block, limit, sym);
    }
    if reads_in_node(ast, node, limit).contains(sym) {
        if reads_in_arms(ast, arms, n, limit).contains(sym) {
            let k = choose|k: int| 0 <= k < n && arm_reads(ast, #[trigger] arms[k], limit, sym);
            if reads_in_expr(ast, arms[k].cond, limit).contains(sym) {
                assert(part_of_node(node, arms[k].cond));
            } else if !block_updates(arms[k].body, sym) {
                let e = choose|e: ExprId|
                    part_of_block(arms[k].body, e) && #[trigger] reads_in_expr(
                        ast,
                        e,
                        limit,
                    ).contains(sym);
                assert(part_of_node(node, e));
            }
        } else {
            let block = else_block->0;
            if !block_updates(block, sym) {
                let e = choose|e: ExprId|
                    part_of_block(block, e) && #[trigger] reads_in_expr(ast, e, limit).contains(
                        sym,
                    );
                assert(part_of_node(node, e));
            }
        }
    }
    if exists|e: ExprId|
        part_of_node(node, e) && #[trigger] reads_in_expr(ast, e, limit).contains(sym) {
        let e = choose|e: ExprId|
            part_of_node(node, e) && #[trigger] reads_in_expr(ast, e, limit).contains(sym);
        if exists|k: int|
            0 <= k < arms.len() && ((#[trigger] arms[k]).cond == e || part_of_block(
                arms[k].body,
                e,
            )) {
            let k = choose|k: int|
                0 <= k < arms.len() && ((#[trigger] arms[k]).cond == e || part_of_block(
                    arms[k].body,
                    e,
                ));
            assert(arm_reads(ast, arms[k], limit, sym));
        }
    }
    if node_updates(node, sym) {
        if exists|k: int| 0 <= k < arms.len() && block_updates((#[trigger] arms[k]).body, sym) {
            let k = choose|k: int|
                0 <= k < arms.len() && block_updates((#[trigger] arms[k]).body, sym);
            assert(arm_reads(ast, arms[k], limit, sym));
        }
    }
}

/// One expression below another: `way` leads from an expression to its part, and on to parts of
/// parts.
pub open spec fn is_below(ast: AstView, way: Seq<ExprId>) -> bool {
    &&& way.len() > 0
    &&& way[0].0 < ast.nodes.len()
    &&& forall|k: int|
        0 <= k < way.len() - 1 ==> (#[trigger] way[k + 1]).0 < way[k].0 && part_of_node(
            ast.nodes[way[k].0 as int],
            way[k + 1],
        )
}

/// A name written anywhere below an expression is read by it.
pub proof fn names_below_are_read(ast: AstView, way: Seq<ExprId>, sym: u32)
    requires
        is_below(ast, way),
        names(ast.nodes[way.last().0 as int], sym) || node_updates(
            ast.nodes[way.last().0 as int],
            sym,
        ),
    ensures
        reads_of(ast, way[0]).contains(sym),
    decreases way.len(),
{
    let root = way[0];
    let node = ast.nodes[root.0 as int];
    nodes_read_what_their_parts_read(ast, node, root.0 as int, sym);
    if way.len() > 1 {
        let rest = way.skip(1);
        assert(way[0int + 1].0 < way[0].0);
        assert forall|k: int| 0 <= k < rest.len() - 1 implies (#[trigger] rest[k + 1]).0 < rest[k].0
            && part_of_node(ast.nodes[rest[k].0 as int], rest[k + 1]) by {
            assert(way[(k + 1) + 1].0 < way[k + 1].0);
        }
        assert(rest.last() == way.last());
        names_below_are_read(ast, rest, sym);
        let e = way[1];
        assert(part_of_node(node, e));
        assert(reads_in_expr(ast, e, root.0 as int) == reads_of(ast, e));
        assert(reads_in_expr(ast, e, root.0 as int).contains(sym));
    } else {
        assert(way.last() == way[0]);
    }
}

/// What an expression reads is written somewhere below it.
pub proof fn reads_are_written_below(ast: AstView, root: ExprId, limit: int, sym: u32) -> (way: Seq<
    ExprId,
>)
    requires
        root.0 < limit <= ast.nodes.len(),
        reads_in_expr(ast, root, limit).contains(sym),
    ensures
        is_below(ast, way),
        way[0] == root,
        names(ast.nodes[way.last().0 as int], sym) || node_updates(
            ast.nodes[way.last().0 as int],
            sym,
        ),
    decreases limit,
{
    let node = ast.nodes[root.0 as int];
    nodes_read_what_their_parts_read(ast, node, root.0 as int, sym);
    if names(node, sym) || node_updates(node, sym) {
        seq![root]
    } else {
        let e = choose|e: ExprId|
            part_of_node(node, e) && #[trigger] reads_in_expr(ast, e, root.0 as int).contains(sym);
        let rest = reads_are_written_below(ast, e, root.0 as int, sym);
        let way = seq![root] + rest;
        assert forall|k: int| 0 <= k < way.len() - 1 implies (#[trigger] way[k + 1]).0 < way[k].0
            && part_of_node(ast.nodes[way[k].0 as int], way[k + 1]) by {
            if k > 0 {
                assert(rest[(k - 1) + 1].0 < rest[k - 1].0);
                assert(way[k] == rest[k - 1] && way[k + 1] == rest[(k - 1) + 1]);
            }
        }
        assert(way.last() == rest.last());
        way
    }
}

// ---------------------------------------------------------------------------
// Graphs
// ---------------------------------------------------------------------------

/// What an action reads: the names below the expressions that stand in it, and what it updates an
/// element of.
pub proof fn actions_read_what_stands_in_them(ast: AstView, action: ActionView, sym: u32)
    ensures
        action_reads(ast, action).contains(sym) <==> match action {
            ActionView::Statement(stmt) => updates(stmt, sym) || exists|e: ExprId|
                part_of_stmt(stmt, e) && #[trigger] reads_in_expr(
                    ast,
                    e,
                    ast.nodes.len() as int,
                ).contains(sym),
            ActionView::Evaluate(expr_id) => reads_of(ast, expr_id).contains(sym),
            ActionView::Bind(_) => false,
        },
{
    if let ActionView::Statement(stmt) = action {
        lemma_stmt_reads(ast, stmt, ast.nodes.len() as int, sym);
    }
}

/// Something in a graph reads a symbol: an action, a condition, or a result.
pub open spec fn read_in(ast: AstView, blocks: Seq<BlockData>, sym: u32) -> bool {
    exists|b: int|
        0 <= b < blocks.len() && block_reads(ast, #[trigger] blocks[b], sym)
}

pub open spec fn block_reads(ast: AstView, data: BlockData, sym: u32) -> bool {
    ||| exists|k: int|
        0 <= k < data.actions.len() && action_reads(ast, #[trigger] data.actions[k]).contains(sym)
    ||| match data.terminator {
        Terminator::Branch { cond, then_block, else_block } => reads_of(ast, cond).contains(sym),
        Terminator::Return(Some(result)) => reads_of(ast, result).contains(sym),
        _ => false,
    }
}

proof fn lemma_actions_read(ast: AstView, actions: Seq<ActionView>, count: int, sym: u32)
    requires
        0 <= count <= actions.len(),
    ensures
        reads_in_actions(ast, actions, count).contains(sym) <==> exists|k: int|
            0 <= k < count && action_reads(ast, #[trigger] actions[k]).contains(sym),
    decreases count,
{
    if count > 0 {
        lemma_actions_read(ast, actions, count - 1, sym);
        assert(actions[count - 1] == actions[count - 1]);
    }
}

proof fn lemma_blocks_read(ast: AstView, blocks: Seq<BlockData>, count: int, sym: u32)
    requires
        0 <= count <= blocks.len(),
    ensures
        reads_in_blocks(ast, blocks, count).contains(sym) <==> exists|b: int|
            0 <= b < count && block_reads(ast, #[trigger] blocks[b], sym),
    decreases count,
{
    if count > 0 {
        let data = blocks[count - 1];
        lemma_blocks_read(ast, blocks, count - 1, sym);
        lemma_actions_read(ast, data.actions, data.actions.len() as int, sym);
        assert(blocks[count - 1] == data);
    }
}

proof fn lemma_group_writes(places: Seq<Place>, spans: Seq<Span>, count: int)
    ensures
        count >= 0 ==> writes_in_group(places, spans, count).len() == count,
        forall|k: int|
            0 <= k < count ==> #[trigger] writes_in_group(places, spans, count)[k] == (
                symbol_of(places[k]),
                spans[k],
            ),
    decreases count,
{
    if count > 0 {
        lemma_group_writes(places, spans, count - 1);
    }
}

proof fn lemma_groups_writes(
    targets: Seq<Seq<Place>>,
    spans: Seq<Seq<Span>>,
    count: int,
    write: (SymId, Span),
)
    requires
        0 <= count <= targets.len(),
    ensures
        writes_in_groups(targets, spans, count).contains(write) <==> exists|g: int, k: int|
            0 <= g < count && 0 <= k < targets[g].len() && #[trigger] target_write(
                targets,
                spans,
                g,
                k,
            ) == write,
    decreases count,
{
    if count > 0 {
        let g = count - 1;
        let before = writes_in_groups(targets, spans, g);
        let last = writes_in_group(targets[g], spans[g], targets[g].len() as int);
        let all = writes_in_groups(targets, spans, count);
        lemma_groups_writes(targets, spans, g, write);
        lemma_group_writes(targets[g], spans[g], targets[g].len() as int);
        assert(all =~= before + last);
        if all.contains(write) {
            let i = choose|i: int| 0 <= i < all.len() && all[i] == write;
            if i < before.len() {
                assert(before[i] == write);
            } else {
                let k = i - before.len();
                assert(last[k] == write);
                assert(target_write(targets, spans, g, k) == write);
            }
        }
        if before.contains(write) {
            let i = choose|i: int| 0 <= i < before.len() && before[i] == write;
            assert(all[i] == write);
        }
        assert forall|h: int, k: int|
            0 <= h < count && 0 <= k < targets[h].len() && #[trigger] target_write(
                targets,
                spans,
                h,
                k,
            ) == write implies all.contains(write) by {
            if h == g {
                assert(last[k] == write);
                assert(all[before.len() + k] == write);
            }
        }
    } else {
        assert(writes_in_groups(targets, spans, count) =~= Seq::empty());
    }
}

/// A target of an assignment, and where it is written.
pub open spec fn target_write(
    targets: Seq<Seq<Place>>,
    spans: Seq<Seq<Span>>,
    g: int,
    k: int,
) -> (SymId, Span) {
    (symbol_of(targets[g][k]), spans[g][k])
}

/// A statement writes the targets of an assignment, all of them and no others.
pub proof fn assignments_write_their_targets(stmt: StmtView, write: (SymId, Span))
    ensures
        writes_in(stmt).contains(write) <==> (stmt matches StmtView::Assign(targets, spans, _)
            && exists|g: int, k: int|
            0 <= g < targets.len() && 0 <= k < targets[g].len() && #[trigger] target_write(
                targets,
                spans,
                g,
                k,
            ) == write),
{
    if let StmtView::Assign(targets, spans, _) = stmt {
        lemma_groups_writes(targets, spans, targets.len() as int, write);
    }
}

proof fn lemma_written(writes: Seq<(SymId, Span)>, count: int, sym: u32)
    requires
        0 <= count <= writes.len(),
    ensures
        written(writes, count).contains(sym) <==> exists|k: int|
            0 <= k < count && (#[trigger] writes[k]).0.0 == sym,
    decreases count,
{
    if count > 0 {
        lemma_written(writes, count - 1, sym);
        assert(writes[count - 1].0.0 == writes[count - 1].0.0);
    }
}

/// Before an action a symbol is needed where the action reads it, or where it is needed behind the
/// action and the action does not write it.
pub proof fn needs_go_back_across_actions(
    ast: AstView,
    action: ActionView,
    live: Set<int>,
    sym: u32,
)
    ensures
        live_before(ast, action, live).contains(sym as int) <==> {
            ||| action_reads(ast, action).contains(sym)
            ||| live.contains(sym as int) && match action {
                ActionView::Statement(stmt) => forall|k: int|
                    0 <= k < writes_in(stmt).len() ==> (#[trigger] writes_in(stmt)[k]).0.0 != sym,
                ActionView::Evaluate(_) => true,
                ActionView::Bind(sym_id) => sym_id.0 != sym,
            }
        },
{
    if let ActionView::Statement(stmt) = action {
        lemma_written(writes_in(stmt), writes_in(stmt).len() as int, sym);
    }
}

// ---------------------------------------------------------------------------
// Findings
// ---------------------------------------------------------------------------

/// The finding that a binding is never read.
pub open spec fn unused_finding(ast: AstView, write: (SymId, Span)) -> DiagnosticView {
    finding(
        DiagnosticCode::UnusedBinding,
        write.1,
        "Binding `"@ + ast.names[write.0.0 as int] + "` is never read."@,
    )
}

/// The finding that a stored value is never read.
pub open spec fn dead_finding(ast: AstView, write: (SymId, Span)) -> DiagnosticView {
    finding(
        DiagnosticCode::DeadStore,
        write.1,
        "Value assigned to `"@ + ast.names[write.0.0 as int] + "` is never read."@,
    )
}

/// A finding is founded: it is of a write to a symbol that the check reports about, which nothing
/// reads, or which is read and not needed behind the write.
pub open spec fn founded(
    grounds: Grounds,
    live: Set<int>,
    write: (SymId, Span),
    found: DiagnosticView,
) -> bool {
    &&& !exempt(grounds.ast, grounds.escaping, write.0)
    &&& {
        ||| found == unused_finding(grounds.ast, write) && !grounds.ever_read.contains(write.0.0)
        ||| found == dead_finding(grounds.ast, write) && grounds.ever_read.contains(write.0.0)
            && !live.contains(write.0.0 as int)
    }
}

/// What is needed behind the first `count` actions of a block, when `live` is needed behind all of
/// them.
pub open spec fn needed_at(
    ast: AstView,
    actions: Seq<ActionView>,
    count: int,
    live: Set<int>,
) -> Set<int>
    decreases actions.len() - count,
{
    if count < 0 || count >= actions.len() {
        live
    } else {
        live_before(ast, actions[count], needed_at(ast, actions, count + 1, live))
    }
}

/// The write at `k` of the action at `at` of a block.
pub open spec fn is_write(actions: Seq<ActionView>, at: int, k: int) -> bool {
    0 <= at < actions.len() && (actions[at] matches ActionView::Statement(stmt) && 0 <= k
        < writes_in(stmt).len())
}

pub open spec fn write_at(actions: Seq<ActionView>, at: int, k: int) -> (SymId, Span) {
    writes_in(actions[at]->Statement_0)[k]
}

/// A report goes on from another one.
pub open spec fn reports_on(before: Report, after: Report) -> bool {
    &&& before.findings.len() <= after.findings.len()
    &&& forall|i: int|
        0 <= i < before.findings.len() ==> #[trigger] after.findings[i] == before.findings[i]
    &&& before.unused.subset_of(after.unused)
}

/// A binding that has been reported as unused has a finding.
pub open spec fn backed(ast: AstView, report: Report) -> bool {
    forall|sym: u32| #[trigger] report.unused.contains(sym) ==> unused_found(ast, report, sym)
}

pub open spec fn unused_found(ast: AstView, report: Report, sym: u32) -> bool {
    exists|i: int, write: (SymId, Span)|
        0 <= i < report.findings.len() && write.0.0 == sym && #[trigger] report.findings[i]
            == #[trigger] unused_finding(ast, write)
}

proof fn lemma_backed(
    grounds: Grounds,
    report: Report,
    live: Set<int>,
    earlier: Set<u32>,
    write: (SymId, Span),
)
    requires
        backed(grounds.ast, report),
    ensures
        backed(grounds.ast, write_reported(grounds, report, live, earlier, write)),
{
    let after = write_reported(grounds, report, live, earlier, write);
    assert forall|sym: u32| #[trigger] after.unused.contains(sym) implies unused_found(
        grounds.ast,
        after,
        sym,
    ) by {
        if report.unused.contains(sym) {
            let (i, w) = choose|i: int, w: (SymId, Span)|
                0 <= i < report.findings.len() && w.0.0 == sym && #[trigger] report.findings[i]
                    == #[trigger] unused_finding(grounds.ast, w);
            assert(after.findings[i] == unused_finding(grounds.ast, w));
        } else {
            let i = report.findings.len() as int;
            assert(after.findings[i] == unused_finding(grounds.ast, write));
        }
    }
}

proof fn lemma_writes_backed(
    grounds: Grounds,
    report: Report,
    live: Set<int>,
    earlier: Set<u32>,
    writes: Seq<(SymId, Span)>,
    count: int,
)
    requires
        backed(grounds.ast, report),
    ensures
        backed(grounds.ast, writes_reported(grounds, report, live, earlier, writes, count)),
    decreases count,
{
    if count > 0 {
        lemma_writes_backed(grounds, report, live, earlier, writes, count - 1);
        let before = writes_reported(grounds, report, live, earlier, writes, count - 1);
        lemma_backed(grounds, before, live, earlier, writes[count - 1]);
    }
}

proof fn lemma_actions_backed(
    grounds: Grounds,
    report: Report,
    actions: Seq<ActionView>,
    count: int,
    live: Set<int>,
)
    requires
        backed(grounds.ast, report),
    ensures
        backed(grounds.ast, actions_reported(grounds, report, actions, count, live)),
    decreases count,
{
    if count > 0 {
        let action = actions[count - 1];
        let next = match action {
            ActionView::Statement(stmt) => writes_reported(
                grounds,
                report,
                live,
                stored(actions, count - 1),
                writes_in(stmt),
                writes_in(stmt).len() as int,
            ),
            _ => report,
        };
        if let ActionView::Statement(stmt) = action {
            lemma_writes_backed(
                grounds,
                report,
                live,
                stored(actions, count - 1),
                writes_in(stmt),
                writes_in(stmt).len() as int,
            );
        }
        lemma_actions_backed(
            grounds,
            next,
            actions,
            count - 1,
            live_before(grounds.ast, action, live),
        );
    }
}

proof fn lemma_blocks_backed(
    grounds: Grounds,
    blocks: Seq<BlockData>,
    after: Seq<Set<int>>,
    count: int,
)
    ensures
        backed(grounds.ast, blocks_reported(grounds, blocks, after, count)),
    decreases count,
{
    if count > 0 {
        let data = blocks[count - 1];
        lemma_blocks_backed(grounds, blocks, after, count - 1);
        lemma_actions_backed(
            grounds,
            blocks_reported(grounds, blocks, after, count - 1),
            data.actions,
            data.actions.len() as int,
            after[count - 1].union(numbers(terminator_reads(grounds.ast, data.terminator))),
        );
    }
}

proof fn lemma_writes_report(
    grounds: Grounds,
    report: Report,
    live: Set<int>,
    earlier: Set<u32>,
    writes: Seq<(SymId, Span)>,
    count: int,
)
    requires
        0 <= count <= writes.len(),
    ensures
        ({
            let after = writes_reported(grounds, report, live, earlier, writes, count);
            &&& reports_on(report, after)
            &&& forall|i: int|
                report.findings.len() <= i < after.findings.len() ==> exists|k: int|
                    0 <= k < count && founded(
                        grounds,
                        live,
                        #[trigger] writes[k],
                        #[trigger] after.findings[i],
                    )
            &&& forall|k: int|
                0 <= k < count && !exempt(grounds.ast, grounds.escaping, (#[trigger] writes[k]).0)
                    && !grounds.ever_read.contains(writes[k].0.0) && !earlier.contains(
                    writes[k].0.0,
                ) ==> after.unused.contains(writes[k].0.0)
            &&& forall|k: int|
                0 <= k < count && !exempt(grounds.ast, grounds.escaping, (#[trigger] writes[k]).0)
                    && grounds.ever_read.contains(writes[k].0.0) && !live.contains(
                    writes[k].0.0 as int,
                ) ==> after.findings.contains(dead_finding(grounds.ast, writes[k]))
            &&& forall|sym: u32| #[trigger]
                after.unused.contains(sym) ==> report.unused.contains(sym)
                    || !grounds.ever_read.contains(sym)
        }),
    decreases count,
{
    if count > 0 {
        lemma_writes_report(grounds, report, live, earlier, writes, count - 1);
        let before = writes_reported(grounds, report, live, earlier, writes, count - 1);
        let write = writes[count - 1];
        let after = write_reported(grounds, before, live, earlier, write);
        assert(after == writes_reported(grounds, report, live, earlier, writes, count));
        assert forall|i: int| report.findings.len() <= i < after.findings.len() implies exists|k: int|
            0 <= k < count && founded(
                grounds,
                live,
                #[trigger] writes[k],
                #[trigger] after.findings[i],
            ) by {
            if i < before.findings.len() {
                assert(after.findings[i] == before.findings[i]);
                let k = choose|k: int|
                    0 <= k < count - 1 && founded(
                        grounds,
                        live,
                        #[trigger] writes[k],
                        before.findings[i],
                    );
                assert(founded(grounds, live, writes[k], after.findings[i]));
            } else {
                assert(founded(grounds, live, writes[count - 1], after.findings[i]));
            }
        }
        assert forall|k: int|
            0 <= k < count && !exempt(grounds.ast, grounds.escaping, (#[trigger] writes[k]).0)
                && grounds.ever_read.contains(writes[k].0.0) && !live.contains(
                writes[k].0.0 as int,
            ) implies after.findings.contains(dead_finding(grounds.ast, writes[k])) by {
            let found = dead_finding(grounds.ast, writes[k]);
            if k < count - 1 {
                let i = choose|i: int|
                    0 <= i < before.findings.len() && before.findings[i] == found;
                assert(after.findings[i] == found);
            } else {
                assert(after.findings[before.findings.len() as int] == found);
            }
        }
    }
}

proof fn lemma_stored_split(actions: Seq<ActionView>, count: int, sym: u32)
    requires
        0 <= count <= actions.len(),
    ensures
        stored(actions, count).contains(sym) <==> exists|at: int, k: int|
            at < count && #[trigger] is_write(actions, at, k) && write_at(actions, at, k).0.0 == sym,
    decreases count,
{
    if count > 0 {
        lemma_stored_split(actions, count - 1, sym);
        if let ActionView::Statement(stmt) = actions[count - 1] {
            lemma_written(writes_in(stmt), writes_in(stmt).len() as int, sym);
            if written(writes_in(stmt), writes_in(stmt).len() as int).contains(sym) {
                let k = choose|k: int|
                    0 <= k < writes_in(stmt).len() && (#[trigger] writes_in(stmt)[k]).0.0 == sym;
                assert(is_write(actions, count - 1, k) && write_at(actions, count - 1, k).0.0 == sym);
            }
        }
        if exists|at: int, k: int|
            at < count && #[trigger] is_write(actions, at, k) && write_at(actions, at, k).0.0
                == sym {
            let (at, k) = choose|at: int, k: int|
                at < count && #[trigger] is_write(actions, at, k) && write_at(actions, at, k).0.0
                    == sym;
            if at == count - 1 {
                let stmt = actions[at]->Statement_0;
                assert(writes_in(stmt)[k].0.0 == sym);
            }
        }
    }
}

/// A finding is of a write among the first `count` actions of a block.
pub open spec fn found_among(
    grounds: Grounds,
    actions: Seq<ActionView>,
    count: int,
    live: Set<int>,
    found: DiagnosticView,
) -> bool {
    exists|at: int, k: int|
        at < count && #[trigger] is_write(actions, at, k) && founded(
            grounds,
            needed_at(grounds.ast, actions, at + 1, live),
            write_at(actions, at, k),
            found,
        )
}

/// A finding is of a write among the first `count` blocks.
pub open spec fn found_in_blocks(
    grounds: Grounds,
    blocks: Seq<BlockData>,
    after: Seq<Set<int>>,
    count: int,
    found: DiagnosticView,
) -> bool {
    exists|b: int, at: int, k: int|
        0 <= b < count && #[trigger] is_write(blocks[b].actions, at, k) && founded(
            grounds,
            needed_behind(grounds.ast, blocks, after, b, at),
            write_at(blocks[b].actions, at, k),
            found,
        )
}

/// The report on one block, up to the first `count` of its actions.
proof fn lemma_actions_report(
    grounds: Grounds,
    report: Report,
    actions: Seq<ActionView>,
    count: int,
    live: Set<int>,
)
    requires
        0 <= count <= actions.len(),
    ensures
        ({
            let behind = needed_at(grounds.ast, actions, count, live);
            let after = actions_reported(grounds, report, actions, count, behind);
            &&& reports_on(report, after)
            &&& forall|i: int|
                report.findings.len() <= i < after.findings.len() ==> found_among(
                    grounds,
                    actions,
                    count,
                    live,
                    #[trigger] after.findings[i],
                )
            &&& forall|at: int, k: int|
                at < count && #[trigger] is_write(actions, at, k) && !exempt(
                    grounds.ast,
                    grounds.escaping,
                    write_at(actions, at, k).0,
                ) && !grounds.ever_read.contains(write_at(actions, at, k).0.0)
                    ==> after.unused.contains(write_at(actions, at, k).0.0)
            &&& forall|at: int, k: int|
                at < count && #[trigger] is_write(actions, at, k) && !exempt(
                    grounds.ast,
                    grounds.escaping,
                    write_at(actions, at, k).0,
                ) && grounds.ever_read.contains(write_at(actions, at, k).0.0) && !needed_at(
                    grounds.ast,
                    actions,
                    at + 1,
                    live,
                ).contains(write_at(actions, at, k).0.0 as int) ==> after.findings.contains(
                    dead_finding(grounds.ast, write_at(actions, at, k)),
                )
            &&& forall|sym: u32| #[trigger]
                after.unused.contains(sym) ==> report.unused.contains(sym)
                    || !grounds.ever_read.contains(sym)
        }),
    decreases count,
{
    if count > 0 {
        let behind = needed_at(grounds.ast, actions, count, live);
        let action = actions[count - 1];
        let earlier = stored(actions, count - 1);
        let next = match action {
            ActionView::Statement(stmt) => writes_reported(
                grounds,
                report,
                behind,
                earlier,
                writes_in(stmt),
                writes_in(stmt).len() as int,
            ),
            _ => report,
        };
        if let ActionView::Statement(stmt) = action {
            lemma_writes_report(
                grounds,
                report,
                behind,
                earlier,
                writes_in(stmt),
                writes_in(stmt).len() as int,
            );
        }
        assert(needed_at(grounds.ast, actions, count - 1, live) == live_before(
            grounds.ast,
            action,
            behind,
        ));
        lemma_actions_report(grounds, next, actions, count - 1, live);
        let after = actions_reported(grounds, report, actions, count, behind);
        assert(reports_on(report, after)) by {
            assert forall|i: int| 0 <= i < report.findings.len() implies #[trigger] after.findings[i]
                == report.findings[i] by {
                assert(next.findings[i] == report.findings[i]);
            }
        }
        assert forall|i: int| report.findings.len() <= i < after.findings.len() implies found_among(
            grounds,
            actions,
            count,
            live,
            #[trigger] after.findings[i],
        ) by {
            if i < next.findings.len() {
                assert(after.findings[i] == next.findings[i]);
                let stmt = action->Statement_0;
                let k = choose|k: int|
                    0 <= k < writes_in(stmt).len() && founded(
                        grounds,
                        behind,
                        #[trigger] writes_in(stmt)[k],
                        next.findings[i],
                    );
                assert(is_write(actions, count - 1, k));
                assert(needed_at(grounds.ast, actions, (count - 1) + 1, live) == behind);
                assert(founded(
                    grounds,
                    needed_at(grounds.ast, actions, (count - 1) + 1, live),
                    write_at(actions, count - 1, k),
                    after.findings[i],
                ));
            } else {
                let (at, k) = choose|at: int, k: int|
                    at < count - 1 && #[trigger] is_write(actions, at, k) && founded(
                        grounds,
                        needed_at(grounds.ast, actions, at + 1, live),
                        write_at(actions, at, k),
                        after.findings[i],
                    );
                assert(is_write(actions, at, k));
            }
        }
        assert forall|at: int, k: int|
            at < count && #[trigger] is_write(actions, at, k) && !exempt(
                grounds.ast,
                grounds.escaping,
                write_at(actions, at, k).0,
            ) && !grounds.ever_read.contains(
                write_at(actions, at, k).0.0,
            ) implies after.unused.contains(write_at(actions, at, k).0.0) by {
            if at == count - 1 {
                let stmt = action->Statement_0;
                let sym_id = writes_in(stmt)[k].0;
                if earlier.contains(sym_id.0) {
                    lemma_stored_split(actions, count - 1, sym_id.0);
                    let (first, j) = choose|first: int, j: int|
                        first < count - 1 && #[trigger] is_write(actions, first, j) && write_at(
                            actions,
                            first,
                            j,
                        ).0.0 == sym_id.0;
                    assert(is_write(actions, first, j));
                    assert(write_at(actions, first, j).0 == sym_id);
                } else {
                    assert(next.unused.contains(sym_id.0));
                }
            }
        }
        assert forall|at: int, k: int|
            at < count && #[trigger] is_write(actions, at, k) && !exempt(
                grounds.ast,
                grounds.escaping,
                write_at(actions, at, k).0,
            ) && grounds.ever_read.contains(write_at(actions, at, k).0.0) && !needed_at(
                grounds.ast,
                actions,
                at + 1,
                live,
            ).contains(write_at(actions, at, k).0.0 as int) implies after.findings.contains(
            dead_finding(grounds.ast, write_at(actions, at, k)),
        ) by {
            if at == count - 1 {
                let stmt = action->Statement_0;
                let found = dead_finding(grounds.ast, writes_in(stmt)[k]);
                assert(next.findings.contains(found));
                let i = choose|i: int| 0 <= i < next.findings.len() && next.findings[i] == found;
                assert(after.findings[i] == found);
            }
        }
    }
}

/// What is needed behind the action at `at` of a block.
pub open spec fn needed_behind(
    ast: AstView,
    blocks: Seq<BlockData>,
    after: Seq<Set<int>>,
    b: int,
    at: int,
) -> Set<int> {
    needed_at(
        ast,
        blocks[b].actions,
        at + 1,
        after[b].union(numbers(terminator_reads(ast, blocks[b].terminator))),
    )
}

proof fn lemma_blocks_report(
    grounds: Grounds,
    blocks: Seq<BlockData>,
    after: Seq<Set<int>>,
    count: int,
)
    requires
        0 <= count <= blocks.len(),
    ensures
        ({
            let report = blocks_reported(grounds, blocks, after, count);
            &&& forall|i: int|
                0 <= i < report.findings.len() ==> found_in_blocks(
                    grounds,
                    blocks,
                    after,
                    count,
                    #[trigger] report.findings[i],
                )
            &&& forall|b: int, at: int, k: int|
                0 <= b < count && #[trigger] is_write(blocks[b].actions, at, k) && !exempt(
                    grounds.ast,
                    grounds.escaping,
                    write_at(blocks[b].actions, at, k).0,
                ) && !grounds.ever_read.contains(write_at(blocks[b].actions, at, k).0.0)
                    ==> report.unused.contains(write_at(blocks[b].actions, at, k).0.0)
            &&& forall|b: int, at: int, k: int|
                0 <= b < count && #[trigger] is_write(blocks[b].actions, at, k) && !exempt(
                    grounds.ast,
                    grounds.escaping,
                    write_at(blocks[b].actions, at, k).0,
                ) && grounds.ever_read.contains(write_at(blocks[b].actions, at, k).0.0)
                    && !needed_behind(grounds.ast, blocks, after, b, at).contains(
                    write_at(blocks[b].actions, at, k).0.0 as int,
                ) ==> report.findings.contains(
                    dead_finding(grounds.ast, write_at(blocks[b].actions, at, k)),
                )
            &&& forall|sym: u32| #[trigger]
                report.unused.contains(sym) ==> !grounds.ever_read.contains(sym)
        }),
    decreases count,
{
    if count > 0 {
        let data = blocks[count - 1];
        let n = data.actions.len() as int;
        let live = after[count - 1].union(numbers(terminator_reads(grounds.ast, data.terminator)));
        let before = blocks_reported(grounds, blocks, after, count - 1);
        let report = blocks_reported(grounds, blocks, after, count);
        lemma_blocks_report(grounds, blocks, after, count - 1);
        lemma_actions_report(grounds, before, data.actions, n, live);
        assert(needed_at(grounds.ast, data.actions, n, live) == live);
        assert(report == actions_reported(grounds, before, data.actions, n, live));
        assert forall|i: int| 0 <= i < report.findings.len() implies found_in_blocks(
            grounds,
            blocks,
            after,
            count,
            #[trigger] report.findings[i],
        ) by {
            if i < before.findings.len() {
                assert(report.findings[i] == before.findings[i]);
                let (b, at, k) = choose|b: int, at: int, k: int|
                    0 <= b < count - 1 && #[trigger] is_write(blocks[b].actions, at, k) && founded(
                        grounds,
                        needed_behind(grounds.ast, blocks, after, b, at),
                        write_at(blocks[b].actions, at, k),
                        before.findings[i],
                    );
                assert(is_write(blocks[b].actions, at, k));
            } else {
                let (at, k) = choose|at: int, k: int|
                    at < n && #[trigger] is_write(data.actions, at, k) && founded(
                        grounds,
                        needed_at(grounds.ast, data.actions, at + 1, live),
                        write_at(data.actions, at, k),
                        report.findings[i],
                    );
                assert(is_write(blocks[count - 1].actions, at, k));
                assert(needed_behind(grounds.ast, blocks, after, count - 1, at) == needed_at(
                    grounds.ast,
                    data.actions,
                    at + 1,
                    live,
                ));
            }
        }
        assert forall|b: int, at: int, k: int|
            0 <= b < count && #[trigger] is_write(blocks[b].actions, at, k) && !exempt(
                grounds.ast,
                grounds.escaping,
                write_at(blocks[b].actions, at, k).0,
            ) && grounds.ever_read.contains(write_at(blocks[b].actions, at, k).0.0)
                && !needed_behind(grounds.ast, blocks, after, b, at).contains(
                write_at(blocks[b].actions, at, k).0.0 as int,
            ) implies report.findings.contains(
            dead_finding(grounds.ast, write_at(blocks[b].actions, at, k)),
        ) by {
            let found = dead_finding(grounds.ast, write_at(blocks[b].actions, at, k));
            if b < count - 1 {
                let i = choose|i: int|
                    0 <= i < before.findings.len() && before.findings[i] == found;
                assert(report.findings[i] == found);
            } else {
                assert(is_write(data.actions, at, k));
            }
        }
        assert forall|b: int, at: int, k: int|
            0 <= b < count && #[trigger] is_write(blocks[b].actions, at, k) && !exempt(
                grounds.ast,
                grounds.escaping,
                write_at(blocks[b].actions, at, k).0,
            ) && !grounds.ever_read.contains(
                write_at(blocks[b].actions, at, k).0.0,
            ) implies report.unused.contains(write_at(blocks[b].actions, at, k).0.0) by {
            if b == count - 1 {
                assert(is_write(data.actions, at, k));
            }
        }
    }
}

/// Every finding is of a write in the graph to a symbol that the check reports about. One that says
/// that a binding is unused is of a symbol that nothing in the graph reads; one that says that a
/// store is dead is of a symbol that something reads, but that is not needed behind the write.
pub proof fn findings_are_founded(
    ast: AstView,
    cfg: CfgView,
    escaping: Set<u32>,
    after: Seq<Set<int>>,
    i: int,
)
    requires
        0 <= i < unread_values(ast, cfg, escaping, after).len(),
    ensures
        exists|b: int, at: int, k: int|
            {
                let write = write_at(cfg.blocks[b].actions, at, k);
                let found = unread_values(ast, cfg, escaping, after)[i];
                &&& 0 <= b < cfg.blocks.len()
                &&& #[trigger] is_write(cfg.blocks[b].actions, at, k)
                &&& ast.names[write.0.0 as int] != "_"@
                &&& !escaping.contains(write.0.0)
                &&& {
                    ||| found == unused_finding(ast, write) && !read_in(ast, cfg.blocks, write.0.0)
                    ||| found == dead_finding(ast, write) && read_in(ast, cfg.blocks, write.0.0)
                        && !needed_behind(ast, cfg.blocks, after, b, at).contains(
                        write.0.0 as int,
                    )
                }
            },
{
    let n = cfg.blocks.len() as int;
    let grounds = Grounds { ast, escaping, ever_read: reads_in_blocks(ast, cfg.blocks, n) };
    lemma_blocks_report(grounds, cfg.blocks, after, n);
    let report = blocks_reported(grounds, cfg.blocks, after, n);
    assert(report.findings[i] == unread_values(ast, cfg, escaping, after)[i]);
    let (b, at, k) = choose|b: int, at: int, k: int|
        0 <= b < n && #[trigger] is_write(cfg.blocks[b].actions, at, k) && founded(
            grounds,
            needed_behind(ast, cfg.blocks, after, b, at),
            write_at(cfg.blocks[b].actions, at, k),
            report.findings[i],
        );
    let write = write_at(cfg.blocks[b].actions, at, k);
    lemma_blocks_read(ast, cfg.blocks, n, write.0.0);
    assert(is_write(cfg.blocks[b].actions, at, k));
}

/// Every store to a symbol that the check reports about, that something reads and that is not needed
/// behind the store is reported as dead.
pub proof fn dead_stores_are_reported(
    ast: AstView,
    cfg: CfgView,
    escaping: Set<u32>,
    after: Seq<Set<int>>,
    b: int,
    at: int,
    k: int,
)
    requires
        0 <= b < cfg.blocks.len(),
        is_write(cfg.blocks[b].actions, at, k),
        ({
            let write = write_at(cfg.blocks[b].actions, at, k);
            &&& ast.names[write.0.0 as int] != "_"@
            &&& !escaping.contains(write.0.0)
            &&& read_in(ast, cfg.blocks, write.0.0)
            &&& !needed_behind(ast, cfg.blocks, after, b, at).contains(write.0.0 as int)
        }),
    ensures
        unread_values(ast, cfg, escaping, after).contains(
            dead_finding(ast, write_at(cfg.blocks[b].actions, at, k)),
        ),
{
    let n = cfg.blocks.len() as int;
    let grounds = Grounds { ast, escaping, ever_read: reads_in_blocks(ast, cfg.blocks, n) };
    lemma_blocks_report(grounds, cfg.blocks, after, n);
    lemma_blocks_read(ast, cfg.blocks, n, write_at(cfg.blocks[b].actions, at, k).0.0);
}

/// Every binding that the check reports about and that nothing in the graph reads is reported as
/// unused.
pub proof fn unused_bindings_are_reported(
    ast: AstView,
    cfg: CfgView,
    escaping: Set<u32>,
    after: Seq<Set<int>>,
    b: int,
    at: int,
    k: int,
)
    requires
        0 <= b < cfg.blocks.len(),
        is_write(cfg.blocks[b].actions, at, k),
        ({
            let write = write_at(cfg.blocks[b].actions, at, k);
            &&& ast.names[write.0.0 as int] != "_"@
            &&& !escaping.contains(write.0.0)
            &&& !read_in(ast, cfg.blocks, write.0.0)
        }),
    ensures
        exists|i: int, write: (SymId, Span)|
            {
                &&& 0 <= i < unread_values(ast, cfg, escaping, after).len()
                &&& write.0 == write_at(cfg.blocks[b].actions, at, k).0
                &&& #[trigger] unread_values(ast, cfg, escaping, after)[i]
                    == #[trigger] unused_finding(ast, write)
            },
{
    let n = cfg.blocks.len() as int;
    let grounds = Grounds { ast, escaping, ever_read: reads_in_blocks(ast, cfg.blocks, n) };
    let sym = write_at(cfg.blocks[b].actions, at, k).0.0;
    lemma_blocks_report(grounds, cfg.blocks, after, n);
    lemma_blocks_backed(grounds, cfg.blocks, after, n);
    lemma_blocks_read(ast, cfg.blocks, n, sym);
    let report = blocks_reported(grounds, cfg.blocks, after, n);
    assert(report.unused.contains(sym));
    let (i, write) = choose|i: int, write: (SymId, Span)|
        0 <= i < report.findings.len() && write.0.0 == sym && #[trigger] report.findings[i]
            == #[trigger] unused_finding(ast, write);
    assert(unread_values(ast, cfg, escaping, after)[i] == unused_finding(ast, write));
}

} // verus!
