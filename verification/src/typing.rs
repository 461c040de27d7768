//! What the type checker records: the type of every expression it comes across.
//!
//! The type checker writes an expression's type down each time it comes to it. In a program that
//! mentions no expression twice it comes to each of them once, so what is written in the end is
//! what the checker found on its way.

use crate::parser::ast::{
    block_ok, func_ok, node_ok, stmt_ok, top_level_ok, AstView, BinOp, BlockView, ExprId,
    FStrSegment, FuncDefView, IfArmView, NodeView, PinpType, Place, StmtView, SymId, TopLevelView,
};
use crate::sema::{
    analyzed, args_checked, arms_checked, binds_values, block_locals_do_not_escape, block_type,
    built_in_type, condition, definitions_add_their_own_function, expr_type, first_unbound, func_checked,
    group_assigned, groups_assigned, is_comparison, items_checked, lemma_arms_names,
    lemma_expr_names, lemma_first_void, lemma_params_frame, lemma_stmts_names, node_type, opened,
    params_frame, place_assigned, result_type, same_names, statements_keep_bindings, stmt_checked,
    stmts_checked, value_types, SemaState,
};
use vstd::prelude::*;

verus! {

// ---------------------------------------------------------------------------
// The order in which expressions come up
// ---------------------------------------------------------------------------

/// The operands of a comparison.
pub open spec fn first_operand(node: NodeView) -> Option<ExprId> {
    match node {
        NodeView::Bin(op, lhs, _) => if is_comparison(op) {
            Some(lhs)
        } else {
            None
        },
        _ => None,
    }
}

pub open spec fn last_operand(node: NodeView) -> Option<ExprId> {
    match node {
        NodeView::Bin(op, _, rhs) => if is_comparison(op) {
            Some(rhs)
        } else {
            None
        },
        _ => None,
    }
}

/// The operand that a chain of comparisons ends in.
pub open spec fn chain_end(ast: AstView, node: NodeView) -> Option<ExprId> {
    match node {
        NodeView::Bin(BinOp::And, _, rhs) => last_operand(ast.nodes[rhs.0 as int]),
        _ => last_operand(node),
    }
}

/// Whether `rhs` is the next comparison of a chain: `a < b < c` is `a < b and b < c`, with one `b`.
pub open spec fn links(ast: AstView, lhs: ExprId, rhs: ExprId) -> bool {
    &&& first_operand(ast.nodes[rhs.0 as int]) is Some
    &&& first_operand(ast.nodes[rhs.0 as int]) == chain_end(ast, ast.nodes[lhs.0 as int])
}

/// The expressions that checking one comes to, itself last. The operand that two comparisons of a
/// chain share is listed once.
pub open spec fn expr_visits(ast: AstView, expr_id: ExprId, limit: int) -> Seq<int>
    decreases limit, 0int, ast, 0int,
{
    if expr_id.0 >= limit {
        Seq::empty()
    } else {
        node_visits(ast, ast.nodes[expr_id.0 as int], expr_id.0 as int).push(expr_id.0 as int)
    }
}

/// The expressions that the parts of a node come to.
pub open spec fn node_visits(ast: AstView, node: NodeView, limit: int) -> Seq<int>
    decreases limit, 3int, ast, 0int,
{
    match node {
        NodeView::Unary(_, operand) => expr_visits(ast, operand, limit),
        NodeView::Bin(op, lhs, rhs) => expr_visits(ast, lhs, limit) + (if rhs.0 < limit
            && op == BinOp::And && links(ast, lhs, rhs) {
            expr_visits(ast, last_operand(ast.nodes[rhs.0 as int])->0, rhs.0 as int).push(
                rhs.0 as int,
            )
        } else {
            expr_visits(ast, rhs, limit)
        }),
        NodeView::Call(_, args) => exprs_visits(ast, args, 0, limit),
        NodeView::If(arms, else_block) => arms_visits(ast, arms, 0, limit) + (match else_block {
            None => Seq::empty(),
            Some(block) => block_visits(ast, block, limit),
        }),
        _ => Seq::empty(),
    }
}

/// The expressions that a list of them comes to, from the one at `from` on.
pub open spec fn exprs_visits(ast: AstView, exprs: Seq<ExprId>, from: int, limit: int) -> Seq<int>
    decreases limit, 0int, ast, exprs.len() - from + 1,
{
    if from < 0 || from >= exprs.len() {
        Seq::empty()
    } else {
        expr_visits(ast, exprs[from], limit) + exprs_visits(ast, exprs, from + 1, limit)
    }
}

/// The expressions that the arms of an `if` come to, from the one at `from` on.
pub open spec fn arms_visits(ast: AstView, arms: Seq<IfArmView>, from: int, limit: int) -> Seq<int>
    decreases limit, 2int, ast, arms.len() - from,
{
    if from < 0 || from >= arms.len() {
        Seq::empty()
    } else {
        expr_visits(ast, arms[from].cond, limit) + (block_visits(ast, arms[from].body, limit)
            + arms_visits(ast, arms, from + 1, limit))
    }
}

/// The expressions that an expression at the end of a block comes to.
pub open spec fn result_visits(ast: AstView, result: Option<ExprId>, limit: int) -> Seq<int>
    decreases limit, 0int, ast, 1int,
{
    match result {
        None => Seq::empty(),
        Some(expr_id) => expr_visits(ast, expr_id, limit),
    }
}

/// The expressions that a block comes to.
pub open spec fn block_visits(ast: AstView, block: BlockView, limit: int) -> Seq<int>
    decreases limit, 1int, block, block.stmts.len() + 1,
{
    stmts_visits(ast, block, 0, limit) + result_visits(ast, block.result, limit)
}

/// The expressions that the statements of a block come to, from the one at `from` on.
pub open spec fn stmts_visits(ast: AstView, block: BlockView, from: int, limit: int) -> Seq<int>
    decreases limit, 1int, block, block.stmts.len() - from,
{
    if from < 0 || from >= block.stmts.len() {
        Seq::empty()
    } else {
        stmt_visits(ast, block.stmts[from], limit) + stmts_visits(ast, block, from + 1, limit)
    }
}

/// The expressions that a statement comes to.
pub open spec fn stmt_visits(ast: AstView, stmt: StmtView, limit: int) -> Seq<int>
    decreases limit, 1int, stmt, 0int,
{
    match stmt {
        StmtView::Expr(expr_id) => expr_visits(ast, expr_id, limit),
        StmtView::Assign(_, _, values) => exprs_visits(ast, values, 0, limit),
        StmtView::While(cond, body) => expr_visits(ast, cond, limit) + block_visits(
            ast,
            body,
            limit,
        ),
        StmtView::Loop(body, cond, _) => block_visits(ast, body, limit) + expr_visits(
            ast,
            cond,
            limit,
        ),
        _ => Seq::empty(),
    }
}

/// The expressions that the items of a program come to, from the one at `from` on.
pub open spec fn items_visits(ast: AstView, from: int) -> Seq<int>
    decreases ast.top_level.len() - from,
{
    if from < 0 || from >= ast.top_level.len() {
        Seq::empty()
    } else {
        let limit = ast.nodes.len() as int;
        (match ast.top_level[from] {
            TopLevelView::Stmt(stmt) => stmt_visits(ast, stmt, limit),
            TopLevelView::Func(func) => block_visits(ast, func.body, limit),
        }) + items_visits(ast, from + 1)
    }
}

/// No expression is mentioned twice, except for the operand that two comparisons of a chain share.
pub open spec fn unshared(ast: AstView) -> bool {
    items_visits(ast, 0).no_duplicates()
}

// ---------------------------------------------------------------------------
// The types that come up
// ---------------------------------------------------------------------------

/// Wherever checking an expression comes to one, `types` has the type it finds.
pub open spec fn expr_typed(
    ast: AstView,
    types: Seq<PinpType>,
    st: SemaState,
    expr_id: ExprId,
    limit: int,
) -> bool
    decreases limit, 0int, ast, 0int,
{
    &&& expr_id.0 < limit
    &&& expr_type(ast, st, expr_id, limit).1 matches Ok(t) && t == types[expr_id.0 as int]
    &&& node_typed(ast, types, st, ast.nodes[expr_id.0 as int], expr_id.0 as int)
}

pub open spec fn node_typed(
    ast: AstView,
    types: Seq<PinpType>,
    st: SemaState,
    node: NodeView,
    limit: int,
) -> bool
    decreases limit, 3int, ast, 0int,
{
    match node {
        NodeView::Unary(_, operand) => expr_typed(ast, types, st, operand, limit),
        NodeView::Bin(_, lhs, rhs) => {
            &&& expr_typed(ast, types, st, lhs, limit)
            &&& expr_typed(ast, types, expr_type(ast, st, lhs, limit).0, rhs, limit)
        },
        NodeView::Call(_, args) => exprs_typed(ast, types, st, args, 0, limit),
        NodeView::If(arms, else_block) => {
            &&& arms_typed(ast, types, st, arms, Seq::empty(), limit)
            &&& else_block matches Some(block) ==> block_typed(
                ast,
                types,
                arms_checked(ast, st, arms, Seq::empty(), limit).0,
                block,
                limit,
            )
        },
        _ => true,
    }
}

pub open spec fn exprs_typed(
    ast: AstView,
    types: Seq<PinpType>,
    st: SemaState,
    exprs: Seq<ExprId>,
    from: int,
    limit: int,
) -> bool
    decreases limit, 0int, ast, exprs.len() - from + 1,
{
    0 <= from < exprs.len() ==> {
        &&& expr_typed(ast, types, st, exprs[from], limit)
        &&& exprs_typed(
            ast,
            types,
            expr_type(ast, st, exprs[from], limit).0,
            exprs,
            from + 1,
            limit,
        )
    }
}

/// The type of the expression a block ends in, if it ends in one.
pub open spec fn ending(types: Seq<PinpType>, block: BlockView) -> Option<PinpType> {
    match block.result {
        None => None,
        Some(expr_id) => Some(types[expr_id.0 as int]),
    }
}

pub open spec fn arms_typed(
    ast: AstView,
    types: Seq<PinpType>,
    st: SemaState,
    arms: Seq<IfArmView>,
    done: Seq<Option<PinpType>>,
    limit: int,
) -> bool
    decreases limit, 2int, ast, arms.len() - done.len(),
{
    done.len() < arms.len() ==> {
        let arm = arms[done.len() as int];
        let s1 = condition(ast, st, arm.cond, limit).0;
        &&& condition(ast, st, arm.cond, limit).1 is Ok
        &&& expr_typed(ast, types, st, arm.cond, limit)
        &&& block_typed(ast, types, s1, arm.body, limit)
        &&& arms_typed(
            ast,
            types,
            block_type(ast, s1, arm.body, limit).0,
            arms,
            done.push(ending(types, arm.body)),
            limit,
        )
    }
}

pub open spec fn result_typed(
    ast: AstView,
    types: Seq<PinpType>,
    st: SemaState,
    result: Option<ExprId>,
    limit: int,
) -> bool
    decreases limit, 0int, ast, 1int,
{
    result matches Some(expr_id) ==> expr_typed(ast, types, st, expr_id, limit)
}

pub open spec fn block_typed(
    ast: AstView,
    types: Seq<PinpType>,
    st: SemaState,
    block: BlockView,
    limit: int,
) -> bool
    decreases limit, 1int, block, block.stmts.len() + 1,
{
    let inner = opened(st, Map::empty());
    &&& block_type(ast, st, block, limit).1 matches Ok(t) && t == ending(types, block)
    &&& stmts_typed(ast, types, inner, block, 0, limit)
    &&& result_typed(
        ast,
        types,
        stmts_checked(ast, inner, block, 0, limit).0,
        block.result,
        limit,
    )
}

pub open spec fn stmts_typed(
    ast: AstView,
    types: Seq<PinpType>,
    st: SemaState,
    block: BlockView,
    from: int,
    limit: int,
) -> bool
    decreases limit, 1int, block, block.stmts.len() - from,
{
    0 <= from < block.stmts.len() ==> {
        &&& stmt_typed(ast, types, st, block.stmts[from], limit)
        &&& stmts_typed(
            ast,
            types,
            stmt_checked(ast, st, block.stmts[from], limit).0,
            block,
            from + 1,
            limit,
        )
    }
}

pub open spec fn stmt_typed(
    ast: AstView,
    types: Seq<PinpType>,
    st: SemaState,
    stmt: StmtView,
    limit: int,
) -> bool
    decreases limit, 1int, stmt, 0int,
{
    &&& stmt_checked(ast, st, stmt, limit).1 is Ok
    &&& match stmt {
        StmtView::Expr(expr_id) => expr_typed(ast, types, st, expr_id, limit),
        StmtView::Assign(_, _, values) => exprs_typed(ast, types, st, values, 0, limit),
        StmtView::While(cond, body) => {
            &&& expr_typed(ast, types, st, cond, limit)
            &&& block_typed(ast, types, condition(ast, st, cond, limit).0, body, limit)
        },
        StmtView::Loop(body, cond, _) => {
            &&& block_typed(ast, types, st, body, limit)
            &&& expr_typed(ast, types, block_type(ast, st, body, limit).0, cond, limit)
        },
        _ => true,
    }
}

/// The state in which a function's body is checked.
pub open spec fn inside(st: SemaState, func: FuncDefView) -> SemaState {
    SemaState {
        base: st.scopes.len() as int,
        ..opened(st, params_frame(func.params, func.params.len() as int))
    }
}

pub open spec fn func_typed(
    ast: AstView,
    types: Seq<PinpType>,
    st: SemaState,
    func: FuncDefView,
) -> bool {
    let limit = ast.nodes.len() as int;
    &&& func_checked(ast, st, func).1 is Ok
    &&& stmts_typed(ast, types, inside(st, func), func.body, 0, limit)
    &&& result_typed(
        ast,
        types,
        stmts_checked(ast, inside(st, func), func.body, 0, limit).0,
        func.body.result,
        limit,
    )
}

/// Wherever checking the items from the one at `from` on comes to an expression, `types` has the
/// type it finds.
pub open spec fn items_typed(ast: AstView, types: Seq<PinpType>, st: SemaState, from: int) -> bool
    decreases ast.top_level.len() - from,
{
    0 <= from < ast.top_level.len() ==> {
        match ast.top_level[from] {
            TopLevelView::Stmt(stmt) => {
                let limit = ast.nodes.len() as int;
                &&& stmt_typed(ast, types, st, stmt, limit)
                &&& items_typed(ast, types, stmt_checked(ast, st, stmt, limit).0, from + 1)
            },
            TopLevelView::Func(func) => {
                &&& func_typed(ast, types, st, func)
                &&& items_typed(ast, types, func_checked(ast, st, func).0, from + 1)
            },
        }
    }
}

// ---------------------------------------------------------------------------
// What is written stays
// ---------------------------------------------------------------------------

/// Only types of `visited` expressions differ.
pub open spec fn written(before: SemaState, after: SemaState, visited: Seq<int>) -> bool {
    &&& after.types.len() == before.types.len()
    &&& forall|i: int|
        0 <= i < before.types.len() && !visited.contains(i) ==> #[trigger] after.types[i]
            == before.types[i]
}

/// The types of `visited` expressions are as `types` has them.
pub open spec fn agree(types: Seq<PinpType>, st: SemaState, visited: Seq<int>) -> bool {
    forall|i: int|
        0 <= i < st.types.len() && #[trigger] visited.contains(i) ==> types[i] == st.types[i]
}

pub proof fn lemma_joined(a: Seq<int>, b: Seq<int>)
    ensures
        forall|i: int| #[trigger] (a + b).contains(i) <==> a.contains(i) || b.contains(i),
        (a + b).no_duplicates() ==> {
            &&& a.no_duplicates()
            &&& b.no_duplicates()
            &&& forall|i: int| #[trigger] a.contains(i) ==> !b.contains(i)
        },
{
    let c = a + b;
    assert forall|i: int| #[trigger] c.contains(i) <==> a.contains(i) || b.contains(i) by {
        if a.contains(i) {
            let k = a.index_of(i);
            assert(c[k] == i);
        }
        if b.contains(i) {
            let k = b.index_of(i);
            assert(c[a.len() + k] == i);
        }
        if c.contains(i) {
            let k = c.index_of(i);
            assert(if k < a.len() {
                a[k] == i
            } else {
                b[k - a.len()] == i
            });
        }
    }
    if c.no_duplicates() {
        assert forall|j: int, k: int| 0 <= j < a.len() && 0 <= k < a.len() && j != k implies a[j]
            != a[k] by {
            assert(c[j] == a[j] && c[k] == a[k]);
        }
        assert forall|j: int, k: int| 0 <= j < b.len() && 0 <= k < b.len() && j != k implies b[j]
            != b[k] by {
            assert(c[a.len() + j] == b[j] && c[a.len() + k] == b[k]);
        }
        assert forall|i: int| #[trigger] a.contains(i) implies !b.contains(i) by {
            if b.contains(i) {
                let j = a.index_of(i);
                let k = b.index_of(i);
                assert(c[j] == i && c[a.len() + k] == i);
            }
        }
    }
}

proof fn lemma_expr_written(ast: AstView, st: SemaState, expr_id: ExprId, limit: int)
    requires
        ast.well_formed(),
        st.types.len() == ast.nodes.len(),
        limit <= ast.nodes.len(),
    ensures
        expr_type(ast, st, expr_id, limit).1 is Ok ==> written(
            st,
            expr_type(ast, st, expr_id, limit).0,
            expr_visits(ast, expr_id, limit),
        ),
    decreases limit, 0int, ast, 0int,
{
    if expr_id.0 < limit {
        let node = ast.nodes[expr_id.0 as int];
        let below = node_visits(ast, node, expr_id.0 as int);
        lemma_node_written(ast, st, node, expr_id.0 as int);
        assert(below.push(expr_id.0 as int) =~= below + seq![expr_id.0 as int]);
        lemma_joined(below, seq![expr_id.0 as int]);
        assert(seq![expr_id.0 as int][0] == expr_id.0);
        assert(seq![expr_id.0 as int].contains(expr_id.0 as int));
    }
}

/// What the operand at the end of a chain comes to, the chain comes to.
proof fn lemma_chain_end_visited(ast: AstView, lhs: ExprId, limit: int, x: ExprId, below: int)
    requires
        chain_end(ast, ast.nodes[lhs.0 as int]) == Some(x),
        lhs.0 < limit <= ast.nodes.len(),
        x.0 < below,
        ast.well_formed(),
    ensures
        forall|i: int| #[trigger]
            expr_visits(ast, x, below).contains(i) ==> expr_visits(ast, lhs, limit).contains(i),
{
    let id = lhs.0 as int;
    let node = ast.nodes[id];
    assert(node_ok(node, ast.bounds_before(id)));
    let v = expr_visits(ast, x, below);
    let inner = node_visits(ast, node, id);
    assert(inner.push(id) =~= inner + seq![id]);
    lemma_joined(inner, seq![id]);
    assert(expr_visits(ast, lhs, limit) == inner.push(id));
    match node {
        NodeView::Bin(BinOp::And, l, r) => {
            let at = r.0 as int;
            let last = ast.nodes[at];
            assert(node_ok(last, ast.bounds_before(at)));
            let first = first_operand(last)->0;
            assert(v == expr_visits(ast, x, at));
            let tail = v.push(at);
            assert(tail =~= v + seq![at]);
            lemma_joined(v, seq![at]);
            if links(ast, l, r) {
                lemma_joined(expr_visits(ast, l, id), tail);
            } else {
                let a = expr_visits(ast, first, at);
                assert(node_visits(ast, last, at) == a + v);
                assert((a + v).push(at) =~= a + tail);
                lemma_joined(a, tail);
                assert(expr_visits(ast, r, id) == a + tail);
                lemma_joined(expr_visits(ast, l, id), a + tail);
            }
        },
        NodeView::Bin(op, l, r) => {
            assert(v == expr_visits(ast, x, id));
            lemma_joined(expr_visits(ast, l, id), v);
        },
        _ => {},
    }
}

proof fn lemma_node_written(ast: AstView, st: SemaState, node: NodeView, limit: int)
    requires
        ast.well_formed(),
        st.types.len() == ast.nodes.len(),
        limit <= ast.nodes.len(),
    ensures
        node_type(ast, st, node, limit).1 is Ok ==> written(
            st,
            node_type(ast, st, node, limit).0,
            node_visits(ast, node, limit),
        ),
    decreases limit, 3int, ast, 0int,
{
    match node {
        NodeView::Unary(_, operand) => {
            lemma_expr_written(ast, st, operand, limit);
        },
        NodeView::Bin(op, lhs, rhs) => {
            lemma_expr_written(ast, st, lhs, limit);
            let (s1, left) = expr_type(ast, st, lhs, limit);
            if left is Ok {
                lemma_expr_written(ast, s1, rhs, limit);
            }
            let a = expr_visits(ast, lhs, limit);
            lemma_joined(a, expr_visits(ast, rhs, limit));
            if left is Ok && rhs.0 < limit && op == BinOp::And && links(ast, lhs, rhs) {
                let id = rhs.0 as int;
                let x = first_operand(ast.nodes[id])->0;
                let y = last_operand(ast.nodes[id])->0;
                let (v, w) = (expr_visits(ast, x, id), expr_visits(ast, y, id));
                lemma_chain_end_visited(ast, lhs, limit, x, id);
                assert(node_visits(ast, ast.nodes[id], id) == v + w);
                assert((v + w).push(id) =~= v + w.push(id));
                lemma_joined(v, w.push(id));
                lemma_joined(a, w.push(id));
                assert(expr_visits(ast, rhs, limit) == v + w.push(id));
            }
        },
        NodeView::Call(callee, args) => {
            if st.funcs.contains_key(callee.0) {
                lemma_args_written(ast, st, callee, args, st.funcs[callee.0].params, 0, limit);
            } else {
                assert(built_in_type(ast, st, callee, args, limit) == built_in_type(
                    ast,
                    st,
                    callee,
                    args,
                    limit,
                ));
                if args.len() == 1 {
                    lemma_expr_written(ast, st, args[0], limit);
                    assert(exprs_visits(ast, args, 1, limit) =~= Seq::empty());
                    assert(exprs_visits(ast, args, 0, limit) =~= expr_visits(ast, args[0], limit));
                }
            }
        },
        NodeView::If(arms, else_block) => {
            lemma_arms_written(ast, st, arms, Seq::empty(), limit);
            let (s1, branches) = arms_checked(ast, st, arms, Seq::empty(), limit);
            let behind = match else_block {
                None => Seq::empty(),
                Some(block) => block_visits(ast, block, limit),
            };
            if branches is Ok {
                if let Some(block) = else_block {
                    lemma_block_written(ast, s1, block, limit);
                }
            }
            lemma_joined(arms_visits(ast, arms, 0, limit), behind);
        },
        _ => {},
    }
}

proof fn lemma_args_written(
    ast: AstView,
    st: SemaState,
    callee: SymId,
    args: Seq<ExprId>,
    params: Seq<PinpType>,
    from: int,
    limit: int,
)
    requires
        ast.well_formed(),
        st.types.len() == ast.nodes.len(),
        limit <= ast.nodes.len(),
    ensures
        args_checked(ast, st, callee, args, params, from, limit).1 is Ok ==> written(
            st,
            args_checked(ast, st, callee, args, params, from, limit).0,
            exprs_visits(ast, args, from, limit),
        ),
    decreases limit, 0int, ast, args.len() - from + 1,
{
    if 0 <= from < args.len() {
        lemma_expr_written(ast, st, args[from], limit);
        let (s1, t) = expr_type(ast, st, args[from], limit);
        if t is Ok {
            lemma_args_written(ast, s1, callee, args, params, from + 1, limit);
        }
        lemma_joined(
            expr_visits(ast, args[from], limit),
            exprs_visits(ast, args, from + 1, limit),
        );
    }
}

proof fn lemma_arms_written(
    ast: AstView,
    st: SemaState,
    arms: Seq<IfArmView>,
    done: Seq<Option<PinpType>>,
    limit: int,
)
    requires
        ast.well_formed(),
        st.types.len() == ast.nodes.len(),
        limit <= ast.nodes.len(),
    ensures
        arms_checked(ast, st, arms, done, limit).1 is Ok ==> written(
            st,
            arms_checked(ast, st, arms, done, limit).0,
            arms_visits(ast, arms, done.len() as int, limit),
        ),
    decreases limit, 2int, ast, arms.len() - done.len(),
{
    if done.len() < arms.len() {
        let from = done.len() as int;
        let arm = arms[from];
        lemma_expr_written(ast, st, arm.cond, limit);
        let (s1, held) = condition(ast, st, arm.cond, limit);
        if held is Ok {
            lemma_block_written(ast, s1, arm.body, limit);
            let (s2, branch) = block_type(ast, s1, arm.body, limit);
            if let Ok(t) = branch {
                lemma_arms_written(ast, s2, arms, done.push(t), limit);
            }
        }
        let rest = arms_visits(ast, arms, from + 1, limit);
        lemma_joined(block_visits(ast, arm.body, limit), rest);
        lemma_joined(
            expr_visits(ast, arm.cond, limit),
            block_visits(ast, arm.body, limit) + rest,
        );
    }
}

proof fn lemma_block_written(ast: AstView, st: SemaState, block: BlockView, limit: int)
    requires
        ast.well_formed(),
        st.types.len() == ast.nodes.len(),
        limit <= ast.nodes.len(),
    ensures
        block_type(ast, st, block, limit).1 is Ok ==> written(
            st,
            block_type(ast, st, block, limit).0,
            block_visits(ast, block, limit),
        ),
    decreases limit, 1int, block, block.stmts.len() + 1,
{
    let inner = opened(st, Map::empty());
    lemma_stmts_written(ast, inner, block, 0, limit);
    let (s1, r) = stmts_checked(ast, inner, block, 0, limit);
    if r is Ok {
        if let Some(result) = block.result {
            lemma_expr_written(ast, s1, result, limit);
        }
    }
    lemma_joined(stmts_visits(ast, block, 0, limit), result_visits(ast, block.result, limit));
}

proof fn lemma_stmts_written(
    ast: AstView,
    st: SemaState,
    block: BlockView,
    from: int,
    limit: int,
)
    requires
        ast.well_formed(),
        st.types.len() == ast.nodes.len(),
        limit <= ast.nodes.len(),
    ensures
        stmts_checked(ast, st, block, from, limit).1 is Ok ==> written(
            st,
            stmts_checked(ast, st, block, from, limit).0,
            stmts_visits(ast, block, from, limit),
        ),
    decreases limit, 1int, block, block.stmts.len() - from,
{
    if 0 <= from < block.stmts.len() {
        lemma_stmt_written(ast, st, block.stmts[from], limit);
        let (s1, r) = stmt_checked(ast, st, block.stmts[from], limit);
        if r is Ok {
            lemma_stmts_written(ast, s1, block, from + 1, limit);
        }
        lemma_joined(
            stmt_visits(ast, block.stmts[from], limit),
            stmts_visits(ast, block, from + 1, limit),
        );
    }
}

proof fn lemma_values_written(
    ast: AstView,
    st: SemaState,
    values: Seq<ExprId>,
    done: Seq<PinpType>,
    limit: int,
)
    requires
        ast.well_formed(),
        st.types.len() == ast.nodes.len(),
        limit <= ast.nodes.len(),
    ensures
        value_types(ast, st, values, done, limit).1 is Ok ==> written(
            st,
            value_types(ast, st, values, done, limit).0,
            exprs_visits(ast, values, done.len() as int, limit),
        ),
    decreases limit, 0int, ast, values.len() - done.len() + 1,
{
    if done.len() < values.len() {
        let from = done.len() as int;
        lemma_expr_written(ast, st, values[from], limit);
        let (s1, r) = expr_type(ast, st, values[from], limit);
        if let Ok(t) = r {
            if t != PinpType::Void {
                lemma_values_written(ast, s1, values, done.push(t), limit);
            }
        }
        lemma_joined(
            expr_visits(ast, values[from], limit),
            exprs_visits(ast, values, from + 1, limit),
        );
    }
}

/// An assignment to a group of targets writes no type down.
proof fn lemma_group_written(
    ast: AstView,
    st: SemaState,
    group: Seq<Place>,
    values: Seq<PinpType>,
    from: int,
)
    ensures
        group_assigned(ast, st, group, values, from).0.types == st.types,
    decreases group.len() - from,
{
    if 0 <= from < group.len() {
        let (s1, r) = place_assigned(ast, st, group[from], values[from]);
        if r is Ok {
            lemma_group_written(ast, s1, group, values, from + 1);
        }
    }
}

proof fn lemma_groups_written(
    ast: AstView,
    st: SemaState,
    groups: Seq<Seq<Place>>,
    values: Seq<PinpType>,
    from: int,
)
    ensures
        groups_assigned(ast, st, groups, values, from).0.types == st.types,
    decreases groups.len() - from,
{
    if 0 <= from < groups.len() {
        lemma_group_written(ast, st, groups[from], values, 0);
        let (s1, r) = group_assigned(ast, st, groups[from], values, 0);
        if r is Ok {
            lemma_groups_written(ast, s1, groups, values, from + 1);
        }
    }
}

proof fn lemma_stmt_written(ast: AstView, st: SemaState, stmt: StmtView, limit: int)
    requires
        ast.well_formed(),
        st.types.len() == ast.nodes.len(),
        limit <= ast.nodes.len(),
    ensures
        stmt_checked(ast, st, stmt, limit).1 is Ok ==> written(
            st,
            stmt_checked(ast, st, stmt, limit).0,
            stmt_visits(ast, stmt, limit),
        ),
    decreases limit, 1int, stmt, 0int,
{
    match stmt {
        StmtView::Expr(expr_id) => {
            lemma_expr_written(ast, st, expr_id, limit);
        },
        StmtView::Assign(targets, _, values) => {
            lemma_values_written(ast, st, values, Seq::empty(), limit);
            let (s1, r) = value_types(ast, st, values, Seq::empty(), limit);
            if let Ok(types) = r {
                lemma_groups_written(ast, s1, targets, types, 0);
            }
        },
        StmtView::While(cond, body) => {
            lemma_expr_written(ast, st, cond, limit);
            let (s1, r) = condition(ast, st, cond, limit);
            if r is Ok {
                lemma_block_written(ast, s1, body, limit);
            }
            lemma_joined(expr_visits(ast, cond, limit), block_visits(ast, body, limit));
        },
        StmtView::Loop(body, cond, _) => {
            lemma_block_written(ast, st, body, limit);
            let (s1, r) = block_type(ast, st, body, limit);
            if r is Ok {
                lemma_expr_written(ast, s1, cond, limit);
            }
            lemma_joined(block_visits(ast, body, limit), expr_visits(ast, cond, limit));
        },
        _ => {},
    }
}

proof fn lemma_func_written(ast: AstView, st: SemaState, func: FuncDefView)
    requires
        ast.well_formed(),
        st.types.len() == ast.nodes.len(),
        func.body.result is Some,
    ensures
        func_checked(ast, st, func).1 is Ok ==> {
            let limit = ast.nodes.len() as int;
            let (s1, r1) = stmts_checked(ast, inside(st, func), func.body, 0, limit);
            let (s2, r2) = result_type(ast, s1, func.body.result, limit);
            &&& r1 is Ok
            &&& r2 is Ok
            &&& func_checked(ast, st, func).0.types == s2.types
            &&& written(st, func_checked(ast, st, func).0, block_visits(ast, func.body, limit))
        },
{
    reveal(func_checked);
    let limit = ast.nodes.len() as int;
    lemma_stmts_written(ast, inside(st, func), func.body, 0, limit);
    let (s1, r) = stmts_checked(ast, inside(st, func), func.body, 0, limit);
    if r is Ok {
        lemma_expr_written(ast, s1, func.body.result->0, limit);
    }
    lemma_joined(
        stmts_visits(ast, func.body, 0, limit),
        result_visits(ast, func.body.result, limit),
    );
}

// ---------------------------------------------------------------------------
// What is found depends on names alone
// ---------------------------------------------------------------------------

proof fn lemma_expr_alike(
    ast: AstView,
    types: Seq<PinpType>,
    st: SemaState,
    other: SemaState,
    expr_id: ExprId,
    limit: int,
)
    requires
        same_names(st, other),
    ensures
        expr_type(ast, st, expr_id, limit).1 == expr_type(ast, other, expr_id, limit).1,
        same_names(
            expr_type(ast, st, expr_id, limit).0,
            expr_type(ast, other, expr_id, limit).0,
        ),
        expr_typed(ast, types, st, expr_id, limit) == expr_typed(
            ast,
            types,
            other,
            expr_id,
            limit,
        ),
    decreases limit, 0int, ast, 0int,
{
    if expr_id.0 < limit {
        lemma_node_alike(ast, types, st, other, ast.nodes[expr_id.0 as int], expr_id.0 as int);
    }
}

proof fn lemma_node_alike(
    ast: AstView,
    types: Seq<PinpType>,
    st: SemaState,
    other: SemaState,
    node: NodeView,
    limit: int,
)
    requires
        same_names(st, other),
    ensures
        node_type(ast, st, node, limit).1 == node_type(ast, other, node, limit).1,
        same_names(node_type(ast, st, node, limit).0, node_type(ast, other, node, limit).0),
        node_typed(ast, types, st, node, limit) == node_typed(ast, types, other, node, limit),
    decreases limit, 3int, ast, 0int,
{
    match node {
        NodeView::FStr(segments) => {
            lemma_segments_alike(ast, st, other, segments, 0);
        },
        NodeView::Unary(_, operand) => {
            lemma_expr_alike(ast, types, st, other, operand, limit);
        },
        NodeView::Bin(_, lhs, rhs) => {
            lemma_expr_alike(ast, types, st, other, lhs, limit);
            lemma_expr_alike(
                ast,
                types,
                expr_type(ast, st, lhs, limit).0,
                expr_type(ast, other, lhs, limit).0,
                rhs,
                limit,
            );
        },
        NodeView::Call(callee, args) => {
            let params = st.funcs[callee.0].params;
            lemma_args_alike(ast, st, other, callee, args, params, 0, limit);
            assert(built_in_type(ast, st, callee, args, limit) == built_in_type(
                ast,
                st,
                callee,
                args,
                limit,
            ));
            assert(built_in_type(ast, other, callee, args, limit) == built_in_type(
                ast,
                other,
                callee,
                args,
                limit,
            ));
            if args.len() == 1 {
                lemma_expr_alike(ast, types, st, other, args[0], limit);
            }
            lemma_exprs_alike(ast, types, st, other, args, 0, limit);
        },
        NodeView::If(arms, else_block) => {
            lemma_arms_checked_alike(ast, st, other, arms, Seq::empty(), limit);
            lemma_arms_typed_alike(ast, types, st, other, arms, Seq::empty(), limit);
            if let Some(block) = else_block {
                lemma_block_alike(
                    ast,
                    types,
                    arms_checked(ast, st, arms, Seq::empty(), limit).0,
                    arms_checked(ast, other, arms, Seq::empty(), limit).0,
                    block,
                    limit,
                );
            }
        },
        _ => {},
    }
}

proof fn lemma_segments_alike(
    ast: AstView,
    st: SemaState,
    other: SemaState,
    segments: Seq<FStrSegment>,
    from: int,
)
    requires
        same_names(st, other),
    ensures
        first_unbound(ast, st, segments, from) == first_unbound(ast, other, segments, from),
    decreases segments.len() - from,
{
    if 0 <= from < segments.len() {
        lemma_segments_alike(ast, st, other, segments, from + 1);
    }
}

proof fn lemma_args_alike(
    ast: AstView,
    st: SemaState,
    other: SemaState,
    callee: SymId,
    args: Seq<ExprId>,
    params: Seq<PinpType>,
    from: int,
    limit: int,
)
    requires
        same_names(st, other),
    ensures
        args_checked(ast, st, callee, args, params, from, limit).1 == args_checked(
            ast,
            other,
            callee,
            args,
            params,
            from,
            limit,
        ).1,
        same_names(
            args_checked(ast, st, callee, args, params, from, limit).0,
            args_checked(ast, other, callee, args, params, from, limit).0,
        ),
    decreases limit, 0int, ast, args.len() - from + 1,
{
    if 0 <= from < args.len() {
        lemma_expr_alike(ast, Seq::empty(), st, other, args[from], limit);
        lemma_args_alike(
            ast,
            expr_type(ast, st, args[from], limit).0,
            expr_type(ast, other, args[from], limit).0,
            callee,
            args,
            params,
            from + 1,
            limit,
        );
    }
}

proof fn lemma_exprs_alike(
    ast: AstView,
    types: Seq<PinpType>,
    st: SemaState,
    other: SemaState,
    exprs: Seq<ExprId>,
    from: int,
    limit: int,
)
    requires
        same_names(st, other),
    ensures
        exprs_typed(ast, types, st, exprs, from, limit) == exprs_typed(
            ast,
            types,
            other,
            exprs,
            from,
            limit,
        ),
    decreases limit, 0int, ast, exprs.len() - from + 1,
{
    if 0 <= from < exprs.len() {
        lemma_expr_alike(ast, types, st, other, exprs[from], limit);
        lemma_exprs_alike(
            ast,
            types,
            expr_type(ast, st, exprs[from], limit).0,
            expr_type(ast, other, exprs[from], limit).0,
            exprs,
            from + 1,
            limit,
        );
    }
}

proof fn lemma_arms_checked_alike(
    ast: AstView,
    st: SemaState,
    other: SemaState,
    arms: Seq<IfArmView>,
    done: Seq<Option<PinpType>>,
    limit: int,
)
    requires
        same_names(st, other),
    ensures
        arms_checked(ast, st, arms, done, limit).1 == arms_checked(
            ast,
            other,
            arms,
            done,
            limit,
        ).1,
        same_names(
            arms_checked(ast, st, arms, done, limit).0,
            arms_checked(ast, other, arms, done, limit).0,
        ),
    decreases limit, 2int, ast, arms.len() - done.len(),
{
    if done.len() < arms.len() {
        let arm = arms[done.len() as int];
        lemma_expr_alike(ast, Seq::empty(), st, other, arm.cond, limit);
        let s1 = condition(ast, st, arm.cond, limit).0;
        let o1 = condition(ast, other, arm.cond, limit).0;
        lemma_block_alike(ast, Seq::empty(), s1, o1, arm.body, limit);
        let (s2, branch) = block_type(ast, s1, arm.body, limit);
        let o2 = block_type(ast, o1, arm.body, limit).0;
        if let Ok(t) = branch {
            lemma_arms_checked_alike(ast, s2, o2, arms, done.push(t), limit);
        }
    }
}

proof fn lemma_arms_typed_alike(
    ast: AstView,
    types: Seq<PinpType>,
    st: SemaState,
    other: SemaState,
    arms: Seq<IfArmView>,
    done: Seq<Option<PinpType>>,
    limit: int,
)
    requires
        same_names(st, other),
    ensures
        arms_typed(ast, types, st, arms, done, limit) == arms_typed(
            ast,
            types,
            other,
            arms,
            done,
            limit,
        ),
    decreases limit, 2int, ast, arms.len() - done.len(),
{
    if done.len() < arms.len() {
        let arm = arms[done.len() as int];
        lemma_expr_alike(ast, types, st, other, arm.cond, limit);
        let s1 = condition(ast, st, arm.cond, limit).0;
        let o1 = condition(ast, other, arm.cond, limit).0;
        lemma_block_alike(ast, types, s1, o1, arm.body, limit);
        let s2 = block_type(ast, s1, arm.body, limit).0;
        let o2 = block_type(ast, o1, arm.body, limit).0;
        lemma_arms_typed_alike(
            ast,
            types,
            s2,
            o2,
            arms,
            done.push(ending(types, arm.body)),
            limit,
        );
    }
}

proof fn lemma_block_alike(
    ast: AstView,
    types: Seq<PinpType>,
    st: SemaState,
    other: SemaState,
    block: BlockView,
    limit: int,
)
    requires
        same_names(st, other),
    ensures
        block_type(ast, st, block, limit).1 == block_type(ast, other, block, limit).1,
        same_names(block_type(ast, st, block, limit).0, block_type(ast, other, block, limit).0),
        block_typed(ast, types, st, block, limit) == block_typed(ast, types, other, block, limit),
    decreases limit, 1int, block, block.stmts.len() + 1,
{
    let inner = opened(st, Map::empty());
    let beside = opened(other, Map::empty());
    lemma_stmts_alike(ast, types, inner, beside, block, 0, limit);
    if let Some(result) = block.result {
        lemma_expr_alike(
            ast,
            types,
            stmts_checked(ast, inner, block, 0, limit).0,
            stmts_checked(ast, beside, block, 0, limit).0,
            result,
            limit,
        );
    }
}

proof fn lemma_stmts_alike(
    ast: AstView,
    types: Seq<PinpType>,
    st: SemaState,
    other: SemaState,
    block: BlockView,
    from: int,
    limit: int,
)
    requires
        same_names(st, other),
    ensures
        stmts_checked(ast, st, block, from, limit).1 == stmts_checked(
            ast,
            other,
            block,
            from,
            limit,
        ).1,
        same_names(
            stmts_checked(ast, st, block, from, limit).0,
            stmts_checked(ast, other, block, from, limit).0,
        ),
        stmts_typed(ast, types, st, block, from, limit) == stmts_typed(
            ast,
            types,
            other,
            block,
            from,
            limit,
        ),
    decreases limit, 1int, block, block.stmts.len() - from,
{
    if 0 <= from < block.stmts.len() {
        lemma_stmt_alike(ast, types, st, other, block.stmts[from], limit);
        lemma_stmts_alike(
            ast,
            types,
            stmt_checked(ast, st, block.stmts[from], limit).0,
            stmt_checked(ast, other, block.stmts[from], limit).0,
            block,
            from + 1,
            limit,
        );
    }
}

proof fn lemma_values_alike(
    ast: AstView,
    st: SemaState,
    other: SemaState,
    values: Seq<ExprId>,
    done: Seq<PinpType>,
    limit: int,
)
    requires
        same_names(st, other),
    ensures
        value_types(ast, st, values, done, limit).1 == value_types(
            ast,
            other,
            values,
            done,
            limit,
        ).1,
        same_names(
            value_types(ast, st, values, done, limit).0,
            value_types(ast, other, values, done, limit).0,
        ),
    decreases limit, 0int, ast, values.len() - done.len() + 1,
{
    if done.len() < values.len() {
        let value = values[done.len() as int];
        lemma_expr_alike(ast, Seq::empty(), st, other, value, limit);
        let (s1, r) = expr_type(ast, st, value, limit);
        if let Ok(t) = r {
            lemma_values_alike(
                ast,
                s1,
                expr_type(ast, other, value, limit).0,
                values,
                done.push(t),
                limit,
            );
        }
    }
}

proof fn lemma_group_alike(
    ast: AstView,
    st: SemaState,
    other: SemaState,
    group: Seq<Place>,
    values: Seq<PinpType>,
    from: int,
)
    requires
        same_names(st, other),
    ensures
        group_assigned(ast, st, group, values, from).1 == group_assigned(
            ast,
            other,
            group,
            values,
            from,
        ).1,
        same_names(
            group_assigned(ast, st, group, values, from).0,
            group_assigned(ast, other, group, values, from).0,
        ),
    decreases group.len() - from,
{
    if 0 <= from < group.len() {
        lemma_group_alike(
            ast,
            place_assigned(ast, st, group[from], values[from]).0,
            place_assigned(ast, other, group[from], values[from]).0,
            group,
            values,
            from + 1,
        );
    }
}

proof fn lemma_groups_alike(
    ast: AstView,
    st: SemaState,
    other: SemaState,
    groups: Seq<Seq<Place>>,
    values: Seq<PinpType>,
    from: int,
)
    requires
        same_names(st, other),
    ensures
        groups_assigned(ast, st, groups, values, from).1 == groups_assigned(
            ast,
            other,
            groups,
            values,
            from,
        ).1,
        same_names(
            groups_assigned(ast, st, groups, values, from).0,
            groups_assigned(ast, other, groups, values, from).0,
        ),
    decreases groups.len() - from,
{
    if 0 <= from < groups.len() {
        lemma_group_alike(ast, st, other, groups[from], values, 0);
        lemma_groups_alike(
            ast,
            group_assigned(ast, st, groups[from], values, 0).0,
            group_assigned(ast, other, groups[from], values, 0).0,
            groups,
            values,
            from + 1,
        );
    }
}

proof fn lemma_stmt_alike(
    ast: AstView,
    types: Seq<PinpType>,
    st: SemaState,
    other: SemaState,
    stmt: StmtView,
    limit: int,
)
    requires
        same_names(st, other),
    ensures
        stmt_checked(ast, st, stmt, limit).1 == stmt_checked(ast, other, stmt, limit).1,
        same_names(stmt_checked(ast, st, stmt, limit).0, stmt_checked(ast, other, stmt, limit).0),
        stmt_typed(ast, types, st, stmt, limit) == stmt_typed(ast, types, other, stmt, limit),
    decreases limit, 1int, stmt, 0int,
{
    match stmt {
        StmtView::Expr(expr_id) => {
            lemma_expr_alike(ast, types, st, other, expr_id, limit);
        },
        StmtView::Assign(targets, _, values) => {
            lemma_values_alike(ast, st, other, values, Seq::empty(), limit);
            lemma_exprs_alike(ast, types, st, other, values, 0, limit);
            let (s1, r) = value_types(ast, st, values, Seq::empty(), limit);
            if let Ok(found) = r {
                lemma_groups_alike(
                    ast,
                    s1,
                    value_types(ast, other, values, Seq::empty(), limit).0,
                    targets,
                    found,
                    0,
                );
            }
        },
        StmtView::While(cond, body) => {
            lemma_expr_alike(ast, types, st, other, cond, limit);
            lemma_block_alike(
                ast,
                types,
                condition(ast, st, cond, limit).0,
                condition(ast, other, cond, limit).0,
                body,
                limit,
            );
        },
        StmtView::Loop(body, cond, _) => {
            lemma_block_alike(ast, types, st, other, body, limit);
            lemma_expr_alike(
                ast,
                types,
                block_type(ast, st, body, limit).0,
                block_type(ast, other, body, limit).0,
                cond,
                limit,
            );
        },
        _ => {},
    }
}

// ---------------------------------------------------------------------------
// Checking again changes nothing
// ---------------------------------------------------------------------------

proof fn lemma_expr_again(ast: AstView, st: SemaState, expr_id: ExprId, limit: int)
    requires
        st.types.len() == ast.nodes.len(),
        limit <= ast.nodes.len(),
        expr_typed(ast, st.types, st, expr_id, limit),
    ensures
        expr_type(ast, st, expr_id, limit).0.types == st.types,
    decreases limit, 0int, ast, 0int,
{
    let id = expr_id.0 as int;
    lemma_node_again(ast, st, ast.nodes[id], id);
    assert(st.types.update(id, st.types[id]) =~= st.types);
}

proof fn lemma_node_again(ast: AstView, st: SemaState, node: NodeView, limit: int)
    requires
        st.types.len() == ast.nodes.len(),
        limit <= ast.nodes.len(),
        node_typed(ast, st.types, st, node, limit),
    ensures
        node_type(ast, st, node, limit).0.types == st.types,
    decreases limit, 3int, ast, 0int,
{
    match node {
        NodeView::Unary(_, operand) => {
            lemma_expr_again(ast, st, operand, limit);
        },
        NodeView::Bin(_, lhs, rhs) => {
            lemma_expr_again(ast, st, lhs, limit);
            lemma_expr_again(ast, expr_type(ast, st, lhs, limit).0, rhs, limit);
        },
        NodeView::Call(callee, args) => {
            if st.funcs.contains_key(callee.0) {
                lemma_args_again(ast, st, callee, args, st.funcs[callee.0].params, 0, limit);
            } else if args.len() == 1 {
                lemma_expr_again(ast, st, args[0], limit);
            }
        },
        NodeView::If(arms, else_block) => {
            lemma_arms_again(ast, st, arms, Seq::empty(), limit);
            if let Some(block) = else_block {
                lemma_block_again(
                    ast,
                    arms_checked(ast, st, arms, Seq::empty(), limit).0,
                    block,
                    limit,
                );
            }
        },
        _ => {},
    }
}

proof fn lemma_args_again(
    ast: AstView,
    st: SemaState,
    callee: SymId,
    args: Seq<ExprId>,
    params: Seq<PinpType>,
    from: int,
    limit: int,
)
    requires
        st.types.len() == ast.nodes.len(),
        limit <= ast.nodes.len(),
        exprs_typed(ast, st.types, st, args, from, limit),
    ensures
        args_checked(ast, st, callee, args, params, from, limit).0.types == st.types,
    decreases limit, 0int, ast, args.len() - from + 1,
{
    if 0 <= from < args.len() {
        assert(expr_typed(ast, st.types, st, args[from], limit));
        lemma_expr_again(ast, st, args[from], limit);
        let s1 = expr_type(ast, st, args[from], limit).0;
        lemma_args_again(ast, s1, callee, args, params, from + 1, limit);
    }
}

proof fn lemma_arms_again(
    ast: AstView,
    st: SemaState,
    arms: Seq<IfArmView>,
    done: Seq<Option<PinpType>>,
    limit: int,
)
    requires
        st.types.len() == ast.nodes.len(),
        limit <= ast.nodes.len(),
        arms_typed(ast, st.types, st, arms, done, limit),
    ensures
        arms_checked(ast, st, arms, done, limit).0.types == st.types,
    decreases limit, 2int, ast, arms.len() - done.len(),
{
    if done.len() < arms.len() {
        let arm = arms[done.len() as int];
        assert(expr_typed(ast, st.types, st, arm.cond, limit));
        lemma_expr_again(ast, st, arm.cond, limit);
        let s1 = condition(ast, st, arm.cond, limit).0;
        assert(block_typed(ast, st.types, s1, arm.body, limit));
        lemma_block_again(ast, s1, arm.body, limit);
        let s2 = block_type(ast, s1, arm.body, limit).0;
        lemma_arms_again(ast, s2, arms, done.push(ending(st.types, arm.body)), limit);
    }
}

proof fn lemma_block_again(ast: AstView, st: SemaState, block: BlockView, limit: int)
    requires
        st.types.len() == ast.nodes.len(),
        limit <= ast.nodes.len(),
        block_typed(ast, st.types, st, block, limit),
    ensures
        block_type(ast, st, block, limit).0.types == st.types,
    decreases limit, 1int, block, block.stmts.len() + 1,
{
    let inner = opened(st, Map::empty());
    lemma_stmts_again(ast, inner, block, 0, limit);
    if let Some(result) = block.result {
        lemma_expr_again(ast, stmts_checked(ast, inner, block, 0, limit).0, result, limit);
    }
}

proof fn lemma_stmts_again(ast: AstView, st: SemaState, block: BlockView, from: int, limit: int)
    requires
        st.types.len() == ast.nodes.len(),
        limit <= ast.nodes.len(),
        stmts_typed(ast, st.types, st, block, from, limit),
    ensures
        stmts_checked(ast, st, block, from, limit).0.types == st.types,
    decreases limit, 1int, block, block.stmts.len() - from,
{
    if 0 <= from < block.stmts.len() {
        lemma_stmt_again(ast, st, block.stmts[from], limit);
        let s1 = stmt_checked(ast, st, block.stmts[from], limit).0;
        lemma_stmts_again(ast, s1, block, from + 1, limit);
    }
}

proof fn lemma_values_again(
    ast: AstView,
    st: SemaState,
    values: Seq<ExprId>,
    done: Seq<PinpType>,
    limit: int,
)
    requires
        st.types.len() == ast.nodes.len(),
        limit <= ast.nodes.len(),
        exprs_typed(ast, st.types, st, values, done.len() as int, limit),
    ensures
        value_types(ast, st, values, done, limit).0.types == st.types,
    decreases limit, 0int, ast, values.len() - done.len() + 1,
{
    if done.len() < values.len() {
        let value = values[done.len() as int];
        assert(expr_typed(ast, st.types, st, value, limit));
        lemma_expr_again(ast, st, value, limit);
        let (s1, r) = expr_type(ast, st, value, limit);
        lemma_values_again(ast, s1, values, done.push(r->Ok_0), limit);
    }
}

proof fn lemma_stmt_again(ast: AstView, st: SemaState, stmt: StmtView, limit: int)
    requires
        st.types.len() == ast.nodes.len(),
        limit <= ast.nodes.len(),
        stmt_typed(ast, st.types, st, stmt, limit),
    ensures
        stmt_checked(ast, st, stmt, limit).0.types == st.types,
    decreases limit, 1int, stmt, 0int,
{
    match stmt {
        StmtView::Expr(expr_id) => {
            lemma_expr_again(ast, st, expr_id, limit);
        },
        StmtView::Assign(targets, _, values) => {
            lemma_values_again(ast, st, values, Seq::empty(), limit);
            let (s1, r) = value_types(ast, st, values, Seq::empty(), limit);
            lemma_groups_written(ast, s1, targets, r->Ok_0, 0);
        },
        StmtView::While(cond, body) => {
            lemma_expr_again(ast, st, cond, limit);
            lemma_block_again(ast, condition(ast, st, cond, limit).0, body, limit);
        },
        StmtView::Loop(body, cond, _) => {
            lemma_block_again(ast, st, body, limit);
            lemma_expr_again(ast, block_type(ast, st, body, limit).0, cond, limit);
        },
        _ => {},
    }
}

// ---------------------------------------------------------------------------
// What is written is what was found
// ---------------------------------------------------------------------------

proof fn lemma_expr_typed(
    ast: AstView,
    types: Seq<PinpType>,
    st: SemaState,
    expr_id: ExprId,
    limit: int,
)
    requires
        ast.well_formed(),
        binds_values(st),
        st.types.len() == ast.nodes.len(),
        0 <= limit <= ast.nodes.len(),
        expr_type(ast, st, expr_id, limit).1 is Ok,
        expr_visits(ast, expr_id, limit).no_duplicates(),
        agree(types, expr_type(ast, st, expr_id, limit).0, expr_visits(ast, expr_id, limit)),
    ensures
        expr_typed(ast, types, st, expr_id, limit),
    decreases limit, 0int, ast, 0int,
{
    let id = expr_id.0 as int;
    let node = ast.nodes[id];
    let below = node_visits(ast, node, id);
    lemma_node_written(ast, st, node, id);
    let s1 = node_type(ast, st, node, id).0;
    let s2 = expr_type(ast, st, expr_id, limit).0;
    assert(node_ok(node, ast.bounds_before(id)));
    assert(below.push(id) =~= below + seq![id]);
    lemma_joined(below, seq![id]);
    assert(seq![id][0] == id);
    assert(seq![id].contains(id));
    assert(expr_visits(ast, expr_id, limit).contains(id));
    assert forall|i: int| 0 <= i < s1.types.len() && #[trigger] below.contains(i) implies types[i]
        == s1.types[i] by {
        assert(expr_visits(ast, expr_id, limit).contains(i));
        assert(i != id);
        assert(s2.types[i] == s1.types[i]);
    }
    lemma_node_typed(ast, types, st, node, id);
}

proof fn lemma_node_typed(
    ast: AstView,
    types: Seq<PinpType>,
    st: SemaState,
    node: NodeView,
    limit: int,
)
    requires
        ast.well_formed(),
        binds_values(st),
        st.types.len() == ast.nodes.len(),
        0 <= limit <= ast.nodes.len(),
        node_ok(node, ast.bounds_before(limit)),
        node_type(ast, st, node, limit).1 is Ok,
        node_visits(ast, node, limit).no_duplicates(),
        agree(types, node_type(ast, st, node, limit).0, node_visits(ast, node, limit)),
    ensures
        node_typed(ast, types, st, node, limit),
    decreases limit, 3int, ast, 0int,
{
    match node {
        NodeView::Unary(_, operand) => {
            lemma_expr_typed(ast, types, st, operand, limit);
        },
        NodeView::Bin(op, lhs, rhs) => {
            let s1 = expr_type(ast, st, lhs, limit).0;
            lemma_expr_names(ast, st, lhs, limit);
            if op == BinOp::And && links(ast, lhs, rhs) {
                lemma_link_typed(ast, types, st, lhs, rhs, limit);
            } else {
                let (a, b) = (expr_visits(ast, lhs, limit), expr_visits(ast, rhs, limit));
                lemma_expr_written(ast, st, lhs, limit);
                lemma_expr_written(ast, s1, rhs, limit);
                let s2 = expr_type(ast, s1, rhs, limit).0;
                lemma_joined(a, b);
                lemma_first_agrees(types, s1, s2, a, b);
                lemma_expr_typed(ast, types, st, lhs, limit);
                lemma_expr_typed(ast, types, s1, rhs, limit);
            }
        },
        NodeView::Call(callee, args) => {
            if st.funcs.contains_key(callee.0) {
                lemma_args_typed(ast, types, st, callee, args, st.funcs[callee.0].params, 0, limit);
            } else {
                assert(built_in_type(ast, st, callee, args, limit) == built_in_type(
                    ast,
                    st,
                    callee,
                    args,
                    limit,
                ));
                if args.len() == 1 {
                    assert(exprs_visits(ast, args, 1, limit) =~= Seq::empty());
                    assert(exprs_visits(ast, args, 0, limit) =~= expr_visits(ast, args[0], limit));
                    lemma_expr_typed(ast, types, st, args[0], limit);
                    let s1 = expr_type(ast, st, args[0], limit).0;
                    assert(exprs_typed(ast, types, s1, args, 1, limit));
                    assert(exprs_typed(ast, types, st, args, 0, limit));
                }
            }
        },
        NodeView::If(arms, else_block) => {
            let a = arms_visits(ast, arms, 0, limit);
            let b = match else_block {
                None => Seq::empty(),
                Some(block) => block_visits(ast, block, limit),
            };
            let s1 = arms_checked(ast, st, arms, Seq::empty(), limit).0;
            lemma_arms_names(ast, st, arms, Seq::empty(), limit);
            lemma_arms_written(ast, st, arms, Seq::empty(), limit);
            lemma_joined(a, b);
            match else_block {
                None => {
                    assert(a + b =~= a);
                },
                Some(block) => {
                    lemma_block_written(ast, s1, block, limit);
                    let s2 = block_type(ast, s1, block, limit).0;
                    lemma_first_agrees(types, s1, s2, a, b);
                    lemma_block_typed(ast, types, s1, block, limit);
                },
            }
            lemma_arms_typed(ast, types, st, arms, Seq::empty(), limit);
        },
        _ => {},
    }
}

/// The parameters of a function that is accepted are bound to values.
proof fn lemma_inside(ast: AstView, st: SemaState, func: FuncDefView)
    requires
        binds_values(st),
        func_checked(ast, st, func).1 is Ok,
    ensures
        binds_values(inside(st, func)),
{
    reveal(func_checked);
    lemma_first_void(func.params, 0);
    lemma_params_frame(func.params, func.params.len() as int);
}

/// Two comparisons of a chain: the operand between them is found to have the same type twice.
proof fn lemma_link_typed(
    ast: AstView,
    types: Seq<PinpType>,
    st: SemaState,
    lhs: ExprId,
    rhs: ExprId,
    limit: int,
)
    requires
        ast.well_formed(),
        binds_values(st),
        st.types.len() == ast.nodes.len(),
        0 <= limit <= ast.nodes.len(),
        lhs.0 < limit,
        rhs.0 < limit,
        links(ast, lhs, rhs),
        expr_type(ast, st, lhs, limit).1 is Ok,
        expr_type(ast, expr_type(ast, st, lhs, limit).0, rhs, limit).1 is Ok,
        node_visits(ast, NodeView::Bin(BinOp::And, lhs, rhs), limit).no_duplicates(),
        agree(
            types,
            expr_type(ast, expr_type(ast, st, lhs, limit).0, rhs, limit).0,
            node_visits(ast, NodeView::Bin(BinOp::And, lhs, rhs), limit),
        ),
    ensures
        expr_typed(ast, types, st, lhs, limit),
        expr_typed(ast, types, expr_type(ast, st, lhs, limit).0, rhs, limit),
    decreases limit, 2int, ast, 0int,
{
    let id = rhs.0 as int;
    let node = ast.nodes[id];
    assert(node_ok(node, ast.bounds_before(id)));
    let x = first_operand(node)->0;
    let y = last_operand(node)->0;
    let a = expr_visits(ast, lhs, limit);
    let w = expr_visits(ast, y, id);
    let s1 = expr_type(ast, st, lhs, limit).0;
    let sx = expr_type(ast, s1, x, id).0;
    let sy = expr_type(ast, sx, y, id).0;
    let s2 = expr_type(ast, s1, rhs, limit).0;
    lemma_expr_names(ast, st, lhs, limit);
    lemma_expr_names(ast, s1, x, id);
    lemma_expr_written(ast, st, lhs, limit);
    lemma_expr_written(ast, s1, x, id);
    lemma_expr_written(ast, sx, y, id);
    lemma_joined(a, w.push(id));
    assert(w.push(id) =~= w + seq![id]);
    lemma_joined(w, seq![id]);
    assert(seq![id][0] == id);
    assert(seq![id].contains(id));
    // Behind `lhs`, the shared operand has been found to have the type it is found to have again.
    lemma_expr_typed(ast, s1.types, st, lhs, limit);
    lemma_chain_end_typed(ast, s1.types, st, lhs, limit, x, id);
    lemma_expr_again(ast, s1, x, id);
    assert(written(s1, s2, w.push(id))) by {
        assert(sx.types == s1.types);
    }
    lemma_first_agrees(types, s1, s2, a, w.push(id));
    lemma_expr_typed(ast, types, st, lhs, limit);
    lemma_chain_end_typed(ast, types, st, lhs, limit, x, id);
    assert(agree(types, sy, w)) by {
        assert forall|i: int| 0 <= i < sy.types.len() && #[trigger] w.contains(i) implies types[i]
            == sy.types[i] by {
            assert(w.push(id).contains(i));
            assert(i != id);
            assert(s2.types[i] == sy.types[i]);
        }
    }
    lemma_expr_typed(ast, types, sx, y, id);
    assert(types[id] == s2.types[id]) by {
        assert(w.push(id).contains(id));
    }
}

/// What the operand at the end of a chain is found to be, it is found to be behind the chain.
proof fn lemma_chain_end_typed(
    ast: AstView,
    types: Seq<PinpType>,
    st: SemaState,
    lhs: ExprId,
    limit: int,
    x: ExprId,
    below: int,
)
    requires
        ast.well_formed(),
        binds_values(st),
        0 <= limit <= ast.nodes.len(),
        expr_typed(ast, types, st, lhs, limit),
        chain_end(ast, ast.nodes[lhs.0 as int]) == Some(x),
        x.0 < below,
    ensures
        expr_typed(ast, types, expr_type(ast, st, lhs, limit).0, x, below),
{
    let id = lhs.0 as int;
    let node = ast.nodes[id];
    let s1 = expr_type(ast, st, lhs, limit).0;
    lemma_expr_names(ast, st, lhs, limit);
    assert(node_ok(node, ast.bounds_before(id)));
    assert(node_typed(ast, types, st, node, id));
    match node {
        NodeView::Bin(op, l, r) => {
            let u = expr_type(ast, st, l, id).0;
            assert(expr_typed(ast, types, st, l, id));
            assert(expr_typed(ast, types, u, r, id));
            lemma_expr_names(ast, st, l, id);
            if op == BinOp::And {
                let at = r.0 as int;
                let last = ast.nodes[at];
                assert(node_ok(last, ast.bounds_before(at)));
                assert(node_typed(ast, types, u, last, at));
                let first = first_operand(last)->0;
                let v = expr_type(ast, u, first, at).0;
                assert(expr_typed(ast, types, u, first, at));
                assert(expr_typed(ast, types, v, x, at));
                lemma_expr_names(ast, u, first, at);
                lemma_expr_alike(ast, types, v, s1, x, at);
                assert(expr_typed(ast, types, s1, x, at));
            } else {
                lemma_expr_alike(ast, types, u, s1, x, id);
                assert(expr_typed(ast, types, s1, x, id));
            }
        },
        _ => {},
    }
}

/// What agrees behind two steps agrees behind the first of them, where they come to different
/// expressions.
proof fn lemma_first_agrees(
    types: Seq<PinpType>,
    s1: SemaState,
    s2: SemaState,
    a: Seq<int>,
    b: Seq<int>,
)
    requires
        written(s1, s2, b),
        (a + b).no_duplicates(),
        agree(types, s2, a + b),
    ensures
        agree(types, s1, a),
        agree(types, s2, b),
{
    lemma_joined(a, b);
    assert forall|i: int| 0 <= i < s1.types.len() && #[trigger] a.contains(i) implies types[i]
        == s1.types[i] by {
        assert((a + b).contains(i));
        assert(s2.types[i] == s1.types[i]);
    }
    assert forall|i: int| 0 <= i < s2.types.len() && #[trigger] b.contains(i) implies types[i]
        == s2.types[i] by {
        assert((a + b).contains(i));
    }
}

proof fn lemma_args_typed(
    ast: AstView,
    types: Seq<PinpType>,
    st: SemaState,
    callee: SymId,
    args: Seq<ExprId>,
    params: Seq<PinpType>,
    from: int,
    limit: int,
)
    requires
        ast.well_formed(),
        binds_values(st),
        st.types.len() == ast.nodes.len(),
        0 <= limit <= ast.nodes.len(),
        args_checked(ast, st, callee, args, params, from, limit).1 is Ok,
        exprs_visits(ast, args, from, limit).no_duplicates(),
        agree(
            types,
            args_checked(ast, st, callee, args, params, from, limit).0,
            exprs_visits(ast, args, from, limit),
        ),
    ensures
        exprs_typed(ast, types, st, args, from, limit),
    decreases limit, 0int, ast, args.len() - from + 1,
{
    if 0 <= from < args.len() {
        let a = expr_visits(ast, args[from], limit);
        let b = exprs_visits(ast, args, from + 1, limit);
        lemma_expr_written(ast, st, args[from], limit);
        let s1 = expr_type(ast, st, args[from], limit).0;
        lemma_args_written(ast, s1, callee, args, params, from + 1, limit);
        let s2 = args_checked(ast, s1, callee, args, params, from + 1, limit).0;
        lemma_expr_names(ast, st, args[from], limit);
        lemma_joined(a, b);
        lemma_first_agrees(types, s1, s2, a, b);
        lemma_expr_typed(ast, types, st, args[from], limit);
        lemma_args_typed(ast, types, s1, callee, args, params, from + 1, limit);
    }
}

proof fn lemma_arms_typed(
    ast: AstView,
    types: Seq<PinpType>,
    st: SemaState,
    arms: Seq<IfArmView>,
    done: Seq<Option<PinpType>>,
    limit: int,
)
    requires
        ast.well_formed(),
        binds_values(st),
        st.types.len() == ast.nodes.len(),
        0 <= limit <= ast.nodes.len(),
        forall|i: int|
            0 <= i < arms.len() ==> block_ok((#[trigger] arms[i]).body, ast.bounds_before(limit)),
        arms_checked(ast, st, arms, done, limit).1 is Ok,
        arms_visits(ast, arms, done.len() as int, limit).no_duplicates(),
        agree(
            types,
            arms_checked(ast, st, arms, done, limit).0,
            arms_visits(ast, arms, done.len() as int, limit),
        ),
    ensures
        arms_typed(ast, types, st, arms, done, limit),
    decreases limit, 2int, ast, arms.len() - done.len(),
{
    if done.len() < arms.len() {
        let from = done.len() as int;
        let arm = arms[from];
        let a = expr_visits(ast, arm.cond, limit);
        let b = block_visits(ast, arm.body, limit);
        let c = arms_visits(ast, arms, from + 1, limit);
        lemma_expr_written(ast, st, arm.cond, limit);
        let s1 = condition(ast, st, arm.cond, limit).0;
        lemma_block_written(ast, s1, arm.body, limit);
        let (s2, branch) = block_type(ast, s1, arm.body, limit);
        lemma_expr_names(ast, st, arm.cond, limit);
        block_locals_do_not_escape(ast, s1, arm.body, limit);
        lemma_arms_written(ast, s2, arms, done.push(branch->Ok_0), limit);
        let s3 = arms_checked(ast, s2, arms, done.push(branch->Ok_0), limit).0;
        lemma_joined(a, b + c);
        lemma_joined(b, c);
        assert(written(s1, s3, b + c));
        lemma_first_agrees(types, s1, s3, a, b + c);
        lemma_first_agrees(types, s2, s3, b, c);
        lemma_expr_typed(ast, types, st, arm.cond, limit);
        lemma_block_typed(ast, types, s1, arm.body, limit);
        lemma_arms_typed(ast, types, s2, arms, done.push(branch->Ok_0), limit);
    }
}

proof fn lemma_block_typed(
    ast: AstView,
    types: Seq<PinpType>,
    st: SemaState,
    block: BlockView,
    limit: int,
)
    requires
        ast.well_formed(),
        binds_values(st),
        st.types.len() == ast.nodes.len(),
        0 <= limit <= ast.nodes.len(),
        block_ok(block, ast.bounds_before(limit)),
        block_type(ast, st, block, limit).1 is Ok,
        block_visits(ast, block, limit).no_duplicates(),
        agree(types, block_type(ast, st, block, limit).0, block_visits(ast, block, limit)),
    ensures
        block_typed(ast, types, st, block, limit),
    decreases limit, 1int, block, block.stmts.len() + 1,
{
    let inner = opened(st, Map::empty());
    let a = stmts_visits(ast, block, 0, limit);
    let b = result_visits(ast, block.result, limit);
    lemma_stmts_written(ast, inner, block, 0, limit);
    let s1 = stmts_checked(ast, inner, block, 0, limit).0;
    assert(binds_values(inner));
    lemma_stmts_names(ast, inner, block, 0, limit);
    lemma_joined(a, b);
    match block.result {
        None => {
            assert(a + b =~= a);
        },
        Some(result) => {
            lemma_expr_written(ast, s1, result, limit);
            let s2 = expr_type(ast, s1, result, limit).0;
            assert(agree(types, s2, a + b));
            lemma_first_agrees(types, s1, s2, a, b);
            lemma_expr_typed(ast, types, s1, result, limit);
        },
    }
    lemma_stmts_typed(ast, types, inner, block, 0, limit);
}

proof fn lemma_stmts_typed(
    ast: AstView,
    types: Seq<PinpType>,
    st: SemaState,
    block: BlockView,
    from: int,
    limit: int,
)
    requires
        ast.well_formed(),
        binds_values(st),
        st.types.len() == ast.nodes.len(),
        0 <= limit <= ast.nodes.len(),
        block_ok(block, ast.bounds_before(limit)),
        stmts_checked(ast, st, block, from, limit).1 is Ok,
        stmts_visits(ast, block, from, limit).no_duplicates(),
        agree(
            types,
            stmts_checked(ast, st, block, from, limit).0,
            stmts_visits(ast, block, from, limit),
        ),
    ensures
        stmts_typed(ast, types, st, block, from, limit),
    decreases limit, 1int, block, block.stmts.len() - from,
{
    if 0 <= from < block.stmts.len() {
        let a = stmt_visits(ast, block.stmts[from], limit);
        let b = stmts_visits(ast, block, from + 1, limit);
        lemma_stmt_written(ast, st, block.stmts[from], limit);
        let s1 = stmt_checked(ast, st, block.stmts[from], limit).0;
        lemma_stmts_written(ast, s1, block, from + 1, limit);
        let s2 = stmts_checked(ast, s1, block, from + 1, limit).0;
        lemma_joined(a, b);
        lemma_first_agrees(types, s1, s2, a, b);
        statements_keep_bindings(ast, st, block.stmts[from], limit);
        lemma_stmt_typed(ast, types, st, block.stmts[from], limit);
        lemma_stmts_typed(ast, types, s1, block, from + 1, limit);
    }
}

proof fn lemma_values_typed(
    ast: AstView,
    types: Seq<PinpType>,
    st: SemaState,
    values: Seq<ExprId>,
    done: Seq<PinpType>,
    limit: int,
)
    requires
        ast.well_formed(),
        binds_values(st),
        st.types.len() == ast.nodes.len(),
        0 <= limit <= ast.nodes.len(),
        value_types(ast, st, values, done, limit).1 is Ok,
        exprs_visits(ast, values, done.len() as int, limit).no_duplicates(),
        agree(
            types,
            value_types(ast, st, values, done, limit).0,
            exprs_visits(ast, values, done.len() as int, limit),
        ),
    ensures
        exprs_typed(ast, types, st, values, done.len() as int, limit),
    decreases limit, 0int, ast, values.len() - done.len() + 1,
{
    if done.len() < values.len() {
        let from = done.len() as int;
        let a = expr_visits(ast, values[from], limit);
        let b = exprs_visits(ast, values, from + 1, limit);
        lemma_expr_written(ast, st, values[from], limit);
        let (s1, r) = expr_type(ast, st, values[from], limit);
        lemma_values_written(ast, s1, values, done.push(r->Ok_0), limit);
        let s2 = value_types(ast, s1, values, done.push(r->Ok_0), limit).0;
        lemma_joined(a, b);
        lemma_first_agrees(types, s1, s2, a, b);
        lemma_expr_names(ast, st, values[from], limit);
        lemma_expr_typed(ast, types, st, values[from], limit);
        lemma_values_typed(ast, types, s1, values, done.push(r->Ok_0), limit);
    }
}

proof fn lemma_stmt_typed(
    ast: AstView,
    types: Seq<PinpType>,
    st: SemaState,
    stmt: StmtView,
    limit: int,
)
    requires
        ast.well_formed(),
        binds_values(st),
        st.types.len() == ast.nodes.len(),
        0 <= limit <= ast.nodes.len(),
        stmt_ok(stmt, ast.bounds_before(limit)),
        stmt_checked(ast, st, stmt, limit).1 is Ok,
        stmt_visits(ast, stmt, limit).no_duplicates(),
        agree(types, stmt_checked(ast, st, stmt, limit).0, stmt_visits(ast, stmt, limit)),
    ensures
        stmt_typed(ast, types, st, stmt, limit),
    decreases limit, 1int, stmt, 0int,
{
    match stmt {
        StmtView::Expr(expr_id) => {
            lemma_expr_typed(ast, types, st, expr_id, limit);
        },
        StmtView::Assign(targets, _, values) => {
            let (s1, r) = value_types(ast, st, values, Seq::empty(), limit);
            lemma_groups_written(ast, s1, targets, r->Ok_0, 0);
            lemma_values_typed(ast, types, st, values, Seq::empty(), limit);
        },
        StmtView::While(cond, body) => {
            let (a, b) = (expr_visits(ast, cond, limit), block_visits(ast, body, limit));
            lemma_expr_written(ast, st, cond, limit);
            let s1 = condition(ast, st, cond, limit).0;
            lemma_block_written(ast, s1, body, limit);
            let s2 = block_type(ast, s1, body, limit).0;
            lemma_joined(a, b);
            lemma_first_agrees(types, s1, s2, a, b);
            lemma_expr_names(ast, st, cond, limit);
            lemma_expr_typed(ast, types, st, cond, limit);
            lemma_block_typed(ast, types, s1, body, limit);
        },
        StmtView::Loop(body, cond, _) => {
            let (a, b) = (block_visits(ast, body, limit), expr_visits(ast, cond, limit));
            lemma_block_written(ast, st, body, limit);
            let s1 = block_type(ast, st, body, limit).0;
            lemma_expr_written(ast, s1, cond, limit);
            let s2 = expr_type(ast, s1, cond, limit).0;
            lemma_joined(a, b);
            lemma_first_agrees(types, s1, s2, a, b);
            block_locals_do_not_escape(ast, st, body, limit);
            lemma_block_typed(ast, types, st, body, limit);
            lemma_expr_typed(ast, types, s1, cond, limit);
        },
        _ => {},
    }
}

proof fn lemma_items_written(ast: AstView, st: SemaState, from: int)
    requires
        ast.well_formed(),
        st.types.len() == ast.nodes.len(),
    ensures
        items_checked(ast, st, from).1 is Ok ==> written(
            st,
            items_checked(ast, st, from).0,
            items_visits(ast, from),
        ),
    decreases ast.top_level.len() - from,
{
    if 0 <= from < ast.top_level.len() {
        let limit = ast.nodes.len() as int;
        assert(top_level_ok(ast.top_level[from], ast.bounds()));
        let (here, s1) = match ast.top_level[from] {
            TopLevelView::Stmt(stmt) => {
                lemma_stmt_written(ast, st, stmt, limit);
                (stmt_visits(ast, stmt, limit), stmt_checked(ast, st, stmt, limit).0)
            },
            TopLevelView::Func(func) => {
                lemma_func_written(ast, st, func);
                (block_visits(ast, func.body, limit), func_checked(ast, st, func).0)
            },
        };
        if items_checked(ast, st, from).1 is Ok {
            lemma_items_written(ast, s1, from + 1);
        }
        lemma_joined(here, items_visits(ast, from + 1));
    }
}

proof fn lemma_items_typed(ast: AstView, types: Seq<PinpType>, st: SemaState, from: int)
    requires
        ast.well_formed(),
        binds_values(st),
        st.types.len() == ast.nodes.len(),
        items_checked(ast, st, from).1 is Ok,
        items_visits(ast, from).no_duplicates(),
        agree(types, items_checked(ast, st, from).0, items_visits(ast, from)),
    ensures
        items_typed(ast, types, st, from),
    decreases ast.top_level.len() - from,
{
    if 0 <= from < ast.top_level.len() {
        let limit = ast.nodes.len() as int;
        assert(top_level_ok(ast.top_level[from], ast.bounds()));
        assert(ast.bounds_before(limit) == ast.bounds());
        let b = items_visits(ast, from + 1);
        match ast.top_level[from] {
            TopLevelView::Stmt(stmt) => {
                let a = stmt_visits(ast, stmt, limit);
                lemma_stmt_written(ast, st, stmt, limit);
                let s1 = stmt_checked(ast, st, stmt, limit).0;
                lemma_items_written(ast, s1, from + 1);
                let s2 = items_checked(ast, s1, from + 1).0;
                lemma_joined(a, b);
                lemma_first_agrees(types, s1, s2, a, b);
                statements_keep_bindings(ast, st, stmt, limit);
                lemma_stmt_typed(ast, types, st, stmt, limit);
                lemma_items_typed(ast, types, s1, from + 1);
            },
            TopLevelView::Func(func) => {
                let a = block_visits(ast, func.body, limit);
                lemma_func_written(ast, st, func);
                let s1 = func_checked(ast, st, func).0;
                lemma_items_written(ast, s1, from + 1);
                let s2 = items_checked(ast, s1, from + 1).0;
                lemma_joined(a, b);
                lemma_first_agrees(types, s1, s2, a, b);
                definitions_add_their_own_function(ast, st, func);
                lemma_func_typed(ast, types, st, func);
                lemma_items_typed(ast, types, s1, from + 1);
            },
        }
    }
}

proof fn lemma_func_typed(
    ast: AstView,
    types: Seq<PinpType>,
    st: SemaState,
    func: FuncDefView,
)
    requires
        ast.well_formed(),
        binds_values(st),
        st.types.len() == ast.nodes.len(),
        func_ok(func, ast.bounds()),
        func_checked(ast, st, func).1 is Ok,
        block_visits(ast, func.body, ast.nodes.len() as int).no_duplicates(),
        agree(
            types,
            func_checked(ast, st, func).0,
            block_visits(ast, func.body, ast.nodes.len() as int),
        ),
    ensures
        func_typed(ast, types, st, func),
{
    let limit = ast.nodes.len() as int;
    lemma_func_written(ast, st, func);
    let a = stmts_visits(ast, func.body, 0, limit);
    let b = result_visits(ast, func.body.result, limit);
    lemma_stmts_written(ast, inside(st, func), func.body, 0, limit);
    let s1 = stmts_checked(ast, inside(st, func), func.body, 0, limit).0;
    let result = func.body.result->0;
    lemma_inside(ast, st, func);
    assert(ast.bounds_before(limit) == ast.bounds());
    lemma_stmts_names(ast, inside(st, func), func.body, 0, limit);
    lemma_expr_written(ast, s1, result, limit);
    let s2 = expr_type(ast, s1, result, limit).0;
    lemma_joined(a, b);
    assert(agree(types, s2, a + b));
    lemma_first_agrees(types, s1, s2, a, b);
    lemma_stmts_typed(ast, types, inside(st, func), func.body, 0, limit);
    lemma_expr_typed(ast, types, s1, result, limit);
}

/// The types an accepted program is left with are those that the type checker found, wherever it
/// came to an expression. No expression is mentioned twice: one that is may be found to have two
/// types, and only the last of them is written down.
pub proof fn recorded_types_are_the_types_found(ast: AstView, types: Seq<PinpType>)
    requires
        ast.well_formed(),
        types.len() == ast.nodes.len(),
        unshared(ast),
        analyzed(ast, types).1 is Ok,
    ensures
        items_typed(
            ast,
            analyzed(ast, types).0.types,
            SemaState { scopes: seq![Map::empty()], base: 0, funcs: Map::empty(), types },
            0,
        ),
{
    lemma_items_typed(
        ast,
        analyzed(ast, types).0.types,
        SemaState { scopes: seq![Map::empty()], base: 0, funcs: Map::empty(), types },
        0,
    );
}

} // verus!
