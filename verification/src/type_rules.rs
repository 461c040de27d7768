//! What the types of operations are.
//!
//! The numbers are `Bool`, `Int` and `Float`, each wider than the one before. Arithmetic on numbers
//! always has a type; what the parts of a checked construct may be is said here by the widths.

use crate::parser::ast::{AstView, BinOp, ExprId, NodeView, PinpType, Place, StmtView, SymId, UnOp};
use crate::sema::{
    args_checked, assignable_to, binary_result, block_type, bound, branches_joined, condition,
    expr_type, is_logical, joined, lookup, node_type, place_assigned, place_type, resolved,
    stmt_checked, value_types, SemaState,
};
use vstd::prelude::*;

verus! {

/// How wide a number's type is; -1 for a type that is no number's.
pub open spec fn width(t: PinpType) -> int {
    match t {
        PinpType::Bool => 0,
        PinpType::Int => 1,
        PinpType::Float => 2,
        _ => -1,
    }
}

pub open spec fn is_number(t: PinpType) -> bool {
    width(t) >= 0
}

/// Whether a value of one type can stand where the other is asked for: the same type, or a number
/// where a wider number is.
pub open spec fn widens(from: PinpType, to: PinpType) -> bool {
    from == to || 0 <= width(from) <= width(to)
}

/// The types of two operands, checked one after the other.
pub open spec fn operand_types(
    ast: AstView,
    st: SemaState,
    lhs: ExprId,
    rhs: ExprId,
    limit: int,
    left: PinpType,
    right: PinpType,
) -> bool {
    let (s1, first) = expr_type(ast, st, lhs, limit);
    let (s2, second) = expr_type(ast, s1, rhs, limit);
    &&& first matches Ok(found) && found == left
    &&& second matches Ok(found) && found == right
}

/// The state behind two operands.
pub open spec fn behind_operands(
    ast: AstView,
    st: SemaState,
    lhs: ExprId,
    rhs: ExprId,
    limit: int,
) -> SemaState {
    expr_type(ast, expr_type(ast, st, lhs, limit).0, rhs, limit).0
}

/// Arithmetic on numbers is total. `+`, `-`, `*` and `^` yield an `Int`, or a `Float` where an
/// operand is one; `/` yields a `Float`; `div` and `mod` yield an `Int` and refuse a `Float` alone.
/// Comparisons of numbers yield a `Bool`; `and`, `or` and `xor` take and yield `Bool` only.
pub proof fn operations_on_numbers(
    ast: AstView,
    st: SemaState,
    expr_id: ExprId,
    op: BinOp,
    lhs: ExprId,
    rhs: ExprId,
    limit: int,
    left: PinpType,
    right: PinpType,
)
    requires
        expr_id.0 < limit,
        ast.nodes[expr_id.0 as int] == NodeView::Bin(op, lhs, rhs),
        operand_types(ast, st, lhs, rhs, expr_id.0 as int, left, right),
        is_number(left),
        is_number(right),
    ensures
        ({
            let (after, t) = expr_type(ast, st, expr_id, limit);
            let float = left == PinpType::Float || right == PinpType::Float;
            let bools = left == PinpType::Bool && right == PinpType::Bool;
            &&& match op {
                BinOp::Add | BinOp::Sub | BinOp::Mul | BinOp::Pow => t matches Ok(found) && found
                    == if float {
                    PinpType::Float
                } else {
                    PinpType::Int
                },
                BinOp::Div => t matches Ok(found) && found == PinpType::Float,
                BinOp::IntDiv | BinOp::Mod => if float {
                    t is Err
                } else {
                    t matches Ok(found) && found == PinpType::Int
                },
                BinOp::Eq | BinOp::Ne | BinOp::Lt | BinOp::Gt | BinOp::Le | BinOp::Ge => {
                    t matches Ok(found) && found == PinpType::Bool
                },
                BinOp::And | BinOp::Or | BinOp::Xor => if bools {
                    t matches Ok(found) && found == PinpType::Bool
                } else {
                    t is Err
                },
            }
            &&& t matches Ok(found) ==> expr_id.0 < behind_operands(
                ast,
                st,
                lhs,
                rhs,
                expr_id.0 as int,
            ).types.len() ==> after.types[expr_id.0 as int] == found
        }),
{
    let node = NodeView::Bin(op, lhs, rhs);
    assert(node_type(ast, st, node, expr_id.0 as int) == node_type(
        ast,
        st,
        node,
        expr_id.0 as int,
    ));
}

/// `+` joins a string with a string or with a number, in either order, and strings compare with
/// strings. No other operation takes a string.
pub proof fn operations_on_strings(
    ast: AstView,
    st: SemaState,
    op: BinOp,
    lhs: ExprId,
    rhs: ExprId,
    limit: int,
    left: PinpType,
    right: PinpType,
)
    requires
        operand_types(ast, st, lhs, rhs, limit, left, right),
        left == PinpType::Str || right == PinpType::Str,
    ensures
        ({
            let t = node_type(ast, st, NodeView::Bin(op, lhs, rhs), limit).1;
            let other = if left == PinpType::Str {
                right
            } else {
                left
            };
            match op {
                BinOp::Add => if other == PinpType::Str || is_number(other) {
                    t matches Ok(found) && found == PinpType::Str
                } else {
                    t is Err
                },
                BinOp::Eq | BinOp::Ne | BinOp::Lt | BinOp::Gt | BinOp::Le | BinOp::Ge => if other
                    == PinpType::Str {
                    t matches Ok(found) && found == PinpType::Bool
                } else {
                    t is Err
                },
                _ => t is Err,
            }
        }),
{
}

/// An operation on anything that is neither a number nor a string is refused, and so is one whose
/// operand is.
pub proof fn operations_take_values(
    ast: AstView,
    st: SemaState,
    op: BinOp,
    lhs: ExprId,
    rhs: ExprId,
    limit: int,
)
    ensures
        ({
            let (s1, first) = expr_type(ast, st, lhs, limit);
            let (s2, second) = expr_type(ast, s1, rhs, limit);
            node_type(ast, st, NodeView::Bin(op, lhs, rhs), limit).1 is Ok ==> {
                &&& first matches Ok(left) && (is_number(left) || left == PinpType::Str)
                &&& second matches Ok(right) && (is_number(right) || right == PinpType::Str)
            }
        }),
{
}

/// A wider operand never makes a result narrower, and operands can be swapped.
pub proof fn wider_operands_make_wider_results(
    op: BinOp,
    left: PinpType,
    right: PinpType,
    wider_left: PinpType,
    wider_right: PinpType,
)
    requires
        is_number(left),
        is_number(right),
        widens(left, wider_left),
        widens(right, wider_right),
        binary_result(op, wider_left, wider_right) is Ok,
        !is_logical(op),
    ensures
        ({
            let t = binary_result(op, left, right);
            let wider = binary_result(op, wider_left, wider_right);
            let swapped = binary_result(op, right, left);
            &&& t is Ok
            &&& widens(t->Ok_0, wider->Ok_0)
            &&& swapped == t
        }),
{
}

/// A number can be negated and is then an `Int` or a `Float`; only a `Bool` can be denied.
pub proof fn operations_on_one_value(
    ast: AstView,
    st: SemaState,
    operand: ExprId,
    limit: int,
)
    ensures
        ({
            let found = expr_type(ast, st, operand, limit).1;
            let negated = node_type(ast, st, NodeView::Unary(UnOp::Neg, operand), limit).1;
            let denied = node_type(ast, st, NodeView::Unary(UnOp::Not, operand), limit).1;
            match found {
                Ok(t) => {
                    &&& is_number(t) ==> (negated matches Ok(n) && n == if t == PinpType::Float {
                        PinpType::Float
                    } else {
                        PinpType::Int
                    })
                    &&& !is_number(t) ==> negated is Err
                    &&& t == PinpType::Bool ==> (denied matches Ok(d) && d == PinpType::Bool)
                    &&& t != PinpType::Bool ==> denied is Err
                },
                Err(_) => negated is Err && denied is Err,
            }
        }),
{
}

/// A literal has the type of its value.
pub proof fn literals_have_their_types(ast: AstView, st: SemaState, node: NodeView, limit: int)
    ensures
        ({
            let t = node_type(ast, st, node, limit).1;
            &&& node is Int ==> (t matches Ok(found) && found == PinpType::Int)
            &&& node is Float ==> (t matches Ok(found) && found == PinpType::Float)
            &&& node is Bool ==> (t matches Ok(found) && found == PinpType::Bool)
            &&& node is Str ==> (t matches Ok(found) && found == PinpType::Str)
            &&& node is FStr && t is Ok ==> t->Ok_0 == PinpType::Str
        }),
{
}

/// What one type is assignable to are the types at least as wide.
pub proof fn assignable_means_wider(from: PinpType, to: PinpType)
    ensures
        assignable_to(from, to) <==> widens(from, to),
{
}

/// A condition checks exactly where it is a `Bool`, in every construct that has one.
pub proof fn conditions_are_bools(
    ast: AstView,
    st: SemaState,
    stmt: StmtView,
    cond: ExprId,
    limit: int,
)
    ensures
        condition(ast, st, cond, limit).1 is Ok <==> (expr_type(ast, st, cond, limit).1 matches Ok(
            t,
        ) && t == PinpType::Bool),
        stmt matches StmtView::While(test, _) ==> stmt_checked(ast, st, stmt, limit).1 is Ok ==> (
        expr_type(ast, st, test, limit).1 matches Ok(t) && t == PinpType::Bool),
        stmt matches StmtView::Loop(body, test, _) ==> stmt_checked(ast, st, stmt, limit).1 is Ok
            ==> (expr_type(ast, block_type(ast, st, body, limit).0, test, limit).1 matches Ok(t)
            && t == PinpType::Bool),
{
    if let StmtView::While(test, body) = stmt {
        assert(condition(ast, st, test, limit) == condition(ast, st, test, limit));
    }
    if let StmtView::Loop(body, test, until) = stmt {
        let s1 = block_type(ast, st, body, limit).0;
        assert(condition(ast, s1, test, limit) == condition(ast, s1, test, limit));
    }
}

proof fn lemma_lookup_found(scopes: Seq<Map<u32, PinpType>>, base: int, top: int, sym: u32)
    requires
        0 <= base < top,
        scopes[top - 1].contains_key(sym),
    ensures
        lookup(scopes, base, top, sym) == Some(scopes[top - 1][sym]),
{
}

/// Behind an assignment that checks the name has a type at least as wide as the value's: the one it
/// had, or the value's own where the name is new. Where the name is known and too narrow, the
/// assignment is refused.
pub proof fn assigned_names_hold_their_values(
    ast: AstView,
    st: SemaState,
    place: Place,
    value: PinpType,
)
    requires
        0 <= st.base < st.scopes.len(),
    ensures
        ({
            let (after, r) = place_assigned(ast, st, place, value);
            let before = place_type(ast, st, place);
            &&& r is Ok ==> (place_type(ast, after, place) matches Ok(t) && widens(value, t))
            &&& r is Ok && before is Ok ==> place_type(ast, after, place) == before && after == st
            &&& r is Ok && before is Err ==> place is Local && (place_type(
                ast,
                after,
                place,
            ) matches Ok(t) && t == value)
            &&& (before matches Ok(t) && !widens(value, t)) ==> r is Err
            &&& (before matches Ok(t) && widens(value, t)) ==> r is Ok
            &&& before is Err && place is Local ==> r is Ok
            &&& before is Err && place is Global ==> r is Err
        }),
{
    if let Place::Local(sym_id) = place {
        if resolved(st, sym_id) is None {
            let after = bound(st, sym_id, value);
            let top = st.scopes.len() as int;
            assert(after.scopes.len() == top);
            lemma_lookup_found(after.scopes, st.base, top, sym_id.0);
        }
    }
}

/// Nothing without a value is assigned.
pub proof fn assigned_values_are_values(
    ast: AstView,
    st: SemaState,
    values: Seq<ExprId>,
    done: Seq<PinpType>,
    limit: int,
)
    requires
        done.len() <= values.len(),
        forall|k: int| 0 <= k < done.len() ==> #[trigger] done[k] != PinpType::Void,
    ensures
        value_types(ast, st, values, done, limit).1 matches Ok(types) ==> types.len()
            == values.len() && forall|k: int|
            0 <= k < types.len() ==> #[trigger] types[k] != PinpType::Void,
    decreases values.len() - done.len(),
{
    if done.len() < values.len() {
        let (s1, t) = expr_type(ast, st, values[done.len() as int], limit);
        if let Ok(found) = t {
            if found != PinpType::Void {
                assigned_values_are_values(ast, s1, values, done.push(found), limit);
            }
        }
    }
}

/// The type of an `if` is at least as wide as each of its branches and is the type of one of them.
/// Where every branch is a number, the `if` is one.
pub proof fn branches_meet_in_the_widest(
    so_far: PinpType,
    branches: Seq<Option<PinpType>>,
    from: int,
)
    requires
        0 <= from,
    ensures
        ({
            let t = branches_joined(so_far, branches, from);
            &&& t != PinpType::Void ==> {
                &&& widens(so_far, t)
                &&& forall|k: int|
                    from <= k < branches.len() ==> (#[trigger] branches[k] matches Some(b)
                        && widens(b, t))
                &&& t == so_far || exists|k: int|
                    from <= k < branches.len() && #[trigger] branches[k] == Some(t)
            }
            &&& is_number(so_far) && (forall|k: int|
                from <= k < branches.len() ==> (#[trigger] branches[k] matches Some(b)
                    && is_number(b))) ==> is_number(t)
        }),
    decreases branches.len() - from,
{
    if from < branches.len() {
        if let Some(branch) = branches[from] {
            if let Some(wider) = joined(so_far, branch) {
                branches_meet_in_the_widest(wider, branches, from + 1);
                let t = branches_joined(wider, branches, from + 1);
                if t == wider && wider == branch {
                    assert(branches[from] == Some(t));
                }
            }
        }
    }
}

/// The arguments of a call check exactly where each is at least as narrow as its parameter.
pub proof fn arguments_fit_their_parameters(
    ast: AstView,
    st: SemaState,
    callee: SymId,
    args: Seq<ExprId>,
    params: Seq<PinpType>,
    from: int,
    limit: int,
)
    requires
        0 <= from < args.len(),
    ensures
        ({
            let (s1, t) = expr_type(ast, st, args[from], limit);
            args_checked(ast, st, callee, args, params, from, limit).1 is Ok <==> {
                &&& t matches Ok(found) && widens(found, params[from])
                &&& args_checked(ast, s1, callee, args, params, from + 1, limit).1 is Ok
            }
        }),
{
}

} // verus!
