//! Semantic analysis: the pass between [`crate::parser`] and code generation.
//!
//! The parser produces a structural [`Ast`] with an unpopulated `types` arena. [`analyze`] walks
//! it, **resolves names** against a scope stack, **infers** every expression's [`PinpType`]
//! (writing it back into the arena), and **checks** the semantic rules — reporting the first
//! [`SemaError`]. Codegen then consumes the now-typed AST.
//!
//! Scoping mirrors the language: `scopes[0]` is global; a function pushes a frame seeded with its
//! parameters. A bare name resolves against the innermost frame only (never reaching globals from
//! inside a function); `::name` always targets the global frame. Function signatures are recorded
//! *after* each definition is analysed, giving define-before-use with no recursion.
//!
//! The rules cover scalars, strings and functions over them. Ranges, arrays and matrices, and the
//! loops and assignments over them, are refused.

use crate::parser::ast::{
    arm_views, block_ok, exprs_ok, func_ok, nested, node_ok, optional_block, segment_ok, stmt_ok,
    symbol_of, symbol_ok, top_level_ok, Ast, AstView, BinOp, Block, BlockView, ExprId, FStrSegment,
    FuncDef, FuncDefView, IfArm, IfArmView, Node, NodeView, Param, PinpType, Place, Stmt, StmtView,
    SymId, TopLevel, TopLevelView, UnOp,
};
use crate::symbols::{map_get, map_insert, symbol_map, SymbolMap};
use crate::text::{decimal, decimal_text, join3, join5, join7, same};
use vstd::prelude::*;
use vstd::string::*;

verus! {

/// A semantic failure. pinp is fail-fast: the first error stops the pass.
#[derive(Debug, Clone, PartialEq)]
pub enum SemaError {
    /// A name used but not bound: unknown variable, global, or function.
    UnknownSymbol(String),
    /// A type error: a mismatch, a bad promotion, or an operation on `Void`.
    Type(String),
}

/// What a [`SemaError`] says.
pub enum SemaErrorView {
    UnknownSymbol(Seq<char>),
    Type(Seq<char>),
}

impl View for SemaError {
    type V = SemaErrorView;

    open spec fn view(&self) -> SemaErrorView {
        match *self {
            SemaError::UnknownSymbol(message) => SemaErrorView::UnknownSymbol(message@),
            SemaError::Type(message) => SemaErrorView::Type(message@),
        }
    }
}

// ---------------------------------------------------------------------------
// The type rules
// ---------------------------------------------------------------------------

/// `from` is assignable to `to` if identical, or by widening up the promotion lattice
/// `Bool -> Int -> Float`. Narrowing (e.g. `Float -> Int`, anything `-> Bool`) is never implicit.
pub open spec fn assignable_to(from: PinpType, to: PinpType) -> bool {
    ||| from == to
    ||| from == PinpType::Bool && to == PinpType::Int
    ||| from == PinpType::Bool && to == PinpType::Float
    ||| from == PinpType::Int && to == PinpType::Float
}

/// The wider of two types under the `Bool -> Int -> Float` lattice, if there is one.
pub open spec fn joined(left: PinpType, right: PinpType) -> Option<PinpType> {
    if assignable_to(left, right) {
        Some(right)
    } else if assignable_to(right, left) {
        Some(left)
    } else {
        None
    }
}

pub open spec fn is_int_like(pinp_type: PinpType) -> bool {
    pinp_type == PinpType::Bool || pinp_type == PinpType::Int
}

pub open spec fn is_scalar(pinp_type: PinpType) -> bool {
    is_int_like(pinp_type) || pinp_type == PinpType::Float
}

/// A type's name in messages.
pub open spec fn type_text(pinp_type: PinpType) -> Seq<char> {
    match pinp_type {
        PinpType::Bool => "Bool"@,
        PinpType::Int => "Int"@,
        PinpType::Float => "Float"@,
        PinpType::Void => "Void"@,
        PinpType::Range => "Range"@,
        PinpType::Str => "Str"@,
        PinpType::Array(..) => "Array"@,
        PinpType::Matrix(..) => "Matrix"@,
    }
}

/// An operator's name in messages.
pub open spec fn op_text(op: BinOp) -> Seq<char> {
    match op {
        BinOp::Add => "Add"@,
        BinOp::Sub => "Sub"@,
        BinOp::Mul => "Mul"@,
        BinOp::Div => "Div"@,
        BinOp::IntDiv => "IntDiv"@,
        BinOp::Mod => "Mod"@,
        BinOp::Pow => "Pow"@,
        BinOp::Eq => "Eq"@,
        BinOp::Ne => "Ne"@,
        BinOp::Lt => "Lt"@,
        BinOp::Gt => "Gt"@,
        BinOp::Le => "Le"@,
        BinOp::Ge => "Ge"@,
        BinOp::And => "And"@,
        BinOp::Or => "Or"@,
        BinOp::Xor => "Xor"@,
    }
}

pub open spec fn is_logical(op: BinOp) -> bool {
    op == BinOp::And || op == BinOp::Or || op == BinOp::Xor
}

pub open spec fn is_comparison(op: BinOp) -> bool {
    ||| op == BinOp::Eq
    ||| op == BinOp::Ne
    ||| op == BinOp::Lt
    ||| op == BinOp::Gt
    ||| op == BinOp::Le
    ||| op == BinOp::Ge
}

/// Whether a value of this type becomes part of a string: a string, or a scalar, which is converted.
pub open spec fn has_rendering(t: PinpType) -> bool {
    t == PinpType::Str || is_scalar(t)
}

/// The type of a unary operation: negation keeps a number's type (a `Bool` becomes an `Int`), and
/// `not` takes and yields `Bool`.
pub open spec fn unary_result(op: UnOp, operand: PinpType) -> Result<PinpType, SemaErrorView> {
    match op {
        UnOp::Neg => if operand == PinpType::Void {
            Err(SemaErrorView::Type("Unary minus on a void value."@))
        } else if operand == PinpType::Bool {
            Ok(PinpType::Int)
        } else if is_scalar(operand) {
            Ok(operand)
        } else {
            Err(SemaErrorView::Type("Unary minus on a "@ + type_text(operand) + " value."@))
        },
        UnOp::Not => if operand == PinpType::Bool {
            Ok(PinpType::Bool)
        } else {
            Err(
                SemaErrorView::Type(
                    "`not` requires a Bool operand, got "@ + type_text(operand) + "."@,
                ),
            )
        },
    }
}

/// The type of a binary operation. Logicals take and yield `Bool`; a comparison yields `Bool`; `/`
/// yields `Float`; `div` and `mod` take and yield integers; other arithmetic yields `Int` on
/// integers and `Float` otherwise. Two strings can be compared, and `+` joins a string with a string
/// or with a scalar, which is converted.
pub open spec fn binary_result(op: BinOp, left: PinpType, right: PinpType) -> Result<
    PinpType,
    SemaErrorView,
> {
    if is_logical(op) {
        if left == PinpType::Bool && right == PinpType::Bool {
            Ok(PinpType::Bool)
        } else {
            Err(
                SemaErrorView::Type(
                    "`"@ + op_text(op) + "` requires Bool operands, got "@ + type_text(left)
                        + " and "@ + type_text(right) + "."@,
                ),
            )
        }
    } else if left == PinpType::Void || right == PinpType::Void {
        Err(SemaErrorView::Type("Operation on a void value."@))
    } else if left == PinpType::Str && right == PinpType::Str && is_comparison(op) {
        Ok(PinpType::Bool)
    } else if op == BinOp::Add && (left == PinpType::Str || right == PinpType::Str)
        && has_rendering(left) && has_rendering(right) {
        Ok(PinpType::Str)
    } else if !is_scalar(left) || !is_scalar(right) {
        Err(
            SemaErrorView::Type(
                "`"@ + op_text(op) + "` cannot take "@ + type_text(left) + " and "@ + type_text(
                    right,
                ) + "."@,
            ),
        )
    } else if is_comparison(op) {
        Ok(PinpType::Bool)
    } else if op == BinOp::Div {
        Ok(PinpType::Float)
    } else if is_int_like(left) && is_int_like(right) {
        Ok(PinpType::Int)
    } else if op == BinOp::IntDiv || op == BinOp::Mod {
        Err(SemaErrorView::Type(op_text(op) + " requires Int operands."@))
    } else {
        Ok(PinpType::Float)
    }
}

// ---------------------------------------------------------------------------
// What analysis computes
// ---------------------------------------------------------------------------

/// What a call to a function takes and yields.
#[verifier::ext_equal]
pub struct SignatureView {
    pub params: Seq<PinpType>,
    pub return_type: PinpType,
}

/// What is known at a point of the program: the frames in scope from the global one inwards, the
/// frame at which a bare name's search ends, the functions defined, and the types inferred.
#[verifier::ext_equal]
pub struct SemaState {
    pub scopes: Seq<Map<u32, PinpType>>,
    pub base: int,
    pub funcs: Map<u32, SignatureView>,
    pub types: Seq<PinpType>,
}

/// The state behind a construct, and its result or the first error in it.
pub type Checked<T> = (SemaState, Result<T, SemaErrorView>);

pub open spec fn name_text(ast: AstView, sym_id: SymId) -> Seq<char> {
    ast.names[sym_id.0 as int]
}

/// The type of the innermost binding of a name between the frames `base` and `top` (exclusive).
pub open spec fn lookup(scopes: Seq<Map<u32, PinpType>>, base: int, top: int, sym: u32) -> Option<
    PinpType,
>
    decreases top - base,
{
    if top <= base {
        None
    } else if scopes[top - 1].contains_key(sym) {
        Some(scopes[top - 1][sym])
    } else {
        lookup(scopes, base, top - 1, sym)
    }
}

/// The binding that a bare name means, for reading and for assigning alike.
pub open spec fn resolved(st: SemaState, sym_id: SymId) -> Option<PinpType> {
    lookup(st.scopes, st.base, st.scopes.len() as int, sym_id.0)
}

pub open spec fn unknown_symbol(ast: AstView, sym_id: SymId) -> SemaErrorView {
    SemaErrorView::UnknownSymbol("Unknown symbol `"@ + name_text(ast, sym_id) + "`."@)
}

pub open spec fn unknown_global(ast: AstView, sym_id: SymId) -> SemaErrorView {
    SemaErrorView::UnknownSymbol("Unknown global `::"@ + name_text(ast, sym_id) + "`."@)
}

/// The type of a place that is read.
pub open spec fn place_type(ast: AstView, st: SemaState, place: Place) -> Result<
    PinpType,
    SemaErrorView,
> {
    match place {
        Place::Local(sym_id) => match resolved(st, sym_id) {
            Some(found) => Ok(found),
            None => Err(unknown_symbol(ast, sym_id)),
        },
        Place::Global(sym_id) => if st.scopes[0].contains_key(sym_id.0) {
            Ok(st.scopes[0][sym_id.0])
        } else {
            Err(unknown_global(ast, sym_id))
        },
    }
}

pub open spec fn assignment_check(from: PinpType, to: PinpType) -> Result<(), SemaErrorView> {
    if assignable_to(from, to) {
        Ok(())
    } else {
        Err(
            SemaErrorView::Type(
                "Assignment yields "@ + type_text(from) + ", not assignable to "@ + type_text(to)
                    + "."@,
            ),
        )
    }
}

/// The innermost frame with one more binding.
pub open spec fn bound(st: SemaState, sym_id: SymId, value: PinpType) -> SemaState {
    let top = st.scopes.len() - 1;
    SemaState { scopes: st.scopes.update(top, st.scopes[top].insert(sym_id.0, value)), ..st }
}

/// An assignment of a value to a target: a `::global` must already exist; a bare name mutates the
/// nearest enclosing binding, or introduces a fresh non-escaping local.
pub open spec fn place_assigned(
    ast: AstView,
    st: SemaState,
    place: Place,
    value: PinpType,
) -> Checked<()> {
    match place {
        Place::Global(_) => match place_type(ast, st, place) {
            Err(error) => (st, Err(error)),
            Ok(existing) => (st, assignment_check(value, existing)),
        },
        Place::Local(sym_id) => match resolved(st, sym_id) {
            Some(existing) => (st, assignment_check(value, existing)),
            None => (bound(st, sym_id, value), Ok(())),
        },
    }
}

/// The assignments of one group of targets, from the one at `from` on.
pub open spec fn group_assigned(
    ast: AstView,
    st: SemaState,
    group: Seq<Place>,
    values: Seq<PinpType>,
    from: int,
) -> Checked<()>
    decreases group.len() - from,
{
    if from < 0 || from >= group.len() {
        (st, Ok(()))
    } else {
        match place_assigned(ast, st, group[from], values[from]) {
            (s1, Err(error)) => (s1, Err(error)),
            (s1, Ok(_)) => group_assigned(ast, s1, group, values, from + 1),
        }
    }
}

/// The assignments of all groups from the one at `from` on.
pub open spec fn groups_assigned(
    ast: AstView,
    st: SemaState,
    groups: Seq<Seq<Place>>,
    values: Seq<PinpType>,
    from: int,
) -> Checked<()>
    decreases groups.len() - from,
{
    if from < 0 || from >= groups.len() {
        (st, Ok(()))
    } else {
        match group_assigned(ast, st, groups[from], values, 0) {
            (s1, Err(error)) => (s1, Err(error)),
            (s1, Ok(_)) => groups_assigned(ast, s1, groups, values, from + 1),
        }
    }
}

/// A fresh frame inside the others.
pub open spec fn opened(st: SemaState, frame: Map<u32, PinpType>) -> SemaState {
    SemaState { scopes: st.scopes.push(frame), ..st }
}

/// The innermost frame closed.
pub open spec fn closed_scope(st: SemaState) -> SemaState {
    SemaState { scopes: st.scopes.drop_last(), ..st }
}

/// What the parts of an expression must be. No expression is part of itself, so this cannot come.
pub open spec fn malformed<T>(st: SemaState) -> Checked<T> {
    (st, Err(SemaErrorView::Type(Seq::empty())))
}

/// The type of an expression below `limit`, recorded in the arena. The parts of an expression lie
/// below it.
pub open spec fn expr_type(ast: AstView, st: SemaState, expr_id: ExprId, limit: int) -> Checked<
    PinpType,
>
    decreases limit, 0int, ast, 0int,
{
    if expr_id.0 >= limit {
        malformed(st)
    } else {
        match node_type(ast, st, ast.nodes[expr_id.0 as int], expr_id.0 as int) {
            (s1, Err(error)) => (s1, Err(error)),
            (s1, Ok(inferred)) => (
                SemaState { types: s1.types.update(expr_id.0 as int, inferred), ..s1 },
                Ok(inferred),
            ),
        }
    }
}

/// The type of a node whose parts lie below `limit`.
pub open spec fn node_type(ast: AstView, st: SemaState, node: NodeView, limit: int) -> Checked<
    PinpType,
>
    decreases limit, 3int, ast, 0int,
{
    match node {
        NodeView::Int(_) => (st, Ok(PinpType::Int)),
        NodeView::Float(_) => (st, Ok(PinpType::Float)),
        NodeView::Bool(_) => (st, Ok(PinpType::Bool)),
        NodeView::Str(_) => (st, Ok(PinpType::Str)),
        NodeView::FStr(segments) => match first_unbound(ast, st, segments, 0) {
            Some(error) => (st, Err(error)),
            None => (st, Ok(PinpType::Str)),
        },
        NodeView::Var(sym_id) => (st, place_type(ast, st, Place::Local(sym_id))),
        NodeView::Global(sym_id) => (st, place_type(ast, st, Place::Global(sym_id))),
        NodeView::Unary(op, operand) => match expr_type(ast, st, operand, limit) {
            (s1, Err(error)) => (s1, Err(error)),
            (s1, Ok(operand_type)) => (s1, unary_result(op, operand_type)),
        },
        NodeView::Bin(op, lhs, rhs) => match expr_type(ast, st, lhs, limit) {
            (s1, Err(error)) => (s1, Err(error)),
            (s1, Ok(left)) => match expr_type(ast, s1, rhs, limit) {
                (s2, Err(error)) => (s2, Err(error)),
                (s2, Ok(right)) => (s2, binary_result(op, left, right)),
            },
        },
        NodeView::Call(callee, args) => if !st.funcs.contains_key(callee.0) {
            if is_built_in(name_text(ast, callee)) {
                built_in_type(ast, st, callee, args, limit)
            } else {
                (
                    st,
                    Err(
                        SemaErrorView::UnknownSymbol(
                            "Call to undefined function `"@ + name_text(ast, callee) + "`."@,
                        ),
                    ),
                )
            }
        } else {
            let signature = st.funcs[callee.0];
            if args.len() != signature.params.len() {
                (st, Err(wrong_count(ast, callee, signature.params.len(), args.len())))
            } else {
                match args_checked(ast, st, callee, args, signature.params, 0, limit) {
                    (s1, Err(error)) => (s1, Err(error)),
                    (s1, Ok(_)) => (s1, Ok(signature.return_type)),
                }
            }
        },
        NodeView::If(arms, else_block) => match arms_checked(ast, st, arms, Seq::empty(), limit) {
            (s1, Err(error)) => (s1, Err(error)),
            (s1, Ok(branches)) => match else_block {
                None => (s1, Ok(PinpType::Void)),
                Some(block) => match block_type(ast, s1, block, limit) {
                    (s2, Err(error)) => (s2, Err(error)),
                    (s2, Ok(None)) => (s2, Ok(PinpType::Void)),
                    (s2, Ok(Some(last))) => (s2, Ok(branches_joined(last, branches, 0))),
                },
            },
        },
        _ => (st, Err(SemaErrorView::Type("Unsupported expression."@))),
    }
}

/// The names that can be called without a definition: `str(x)`, which converts a value to a string,
/// and `meminfo()`, which reports on memory.
pub open spec fn is_built_in(name: Seq<char>) -> bool {
    name == "str"@ || name == "meminfo"@
}

pub open spec fn wrong_count(ast: AstView, callee: SymId, wanted: nat, got: nat) -> SemaErrorView {
    SemaErrorView::Type(
        "Function `"@ + name_text(ast, callee) + "` expects "@ + decimal_text(wanted)
            + " argument(s), got "@ + decimal_text(got) + "."@,
    )
}

/// The type of a call to a built-in. What `str` takes is what can be part of a string.
pub open spec fn built_in_type(
    ast: AstView,
    st: SemaState,
    callee: SymId,
    args: Seq<ExprId>,
    limit: int,
) -> Checked<PinpType>
    decreases limit, 2int, ast, 0int,
{
    if name_text(ast, callee) == "str"@ {
        if args.len() != 1 {
            (st, Err(wrong_count(ast, callee, 1, args.len())))
        } else {
            match expr_type(ast, st, args[0], limit) {
                (s1, Err(error)) => (s1, Err(error)),
                (s1, Ok(arg)) => (
                    s1,
                    if has_rendering(arg) {
                        Ok(PinpType::Str)
                    } else {
                        Err(SemaErrorView::Type("`str` cannot take "@ + type_text(arg) + "."@))
                    },
                ),
            }
        }
    } else if args.len() != 0 {
        (st, Err(wrong_count(ast, callee, 0, args.len())))
    } else {
        (st, Ok(PinpType::Void))
    }
}

/// The error of the first hole from `from` on that names nothing.
pub open spec fn first_unbound(
    ast: AstView,
    st: SemaState,
    segments: Seq<FStrSegment>,
    from: int,
) -> Option<SemaErrorView>
    decreases segments.len() - from,
{
    if from < 0 || from >= segments.len() {
        None
    } else {
        match segments[from] {
            FStrSegment::Literal(_) => first_unbound(ast, st, segments, from + 1),
            FStrSegment::Interp(place) => match place_type(ast, st, place) {
                Err(error) => Some(error),
                Ok(_) => first_unbound(ast, st, segments, from + 1),
            },
        }
    }
}

/// The common type of an `if`'s branches, starting from its `else`; `Void` when one of them yields
/// nothing or the types have no join.
pub open spec fn branches_joined(
    so_far: PinpType,
    branches: Seq<Option<PinpType>>,
    from: int,
) -> PinpType
    decreases branches.len() - from,
{
    if from < 0 || from >= branches.len() {
        so_far
    } else {
        match branches[from] {
            None => PinpType::Void,
            Some(branch) => match joined(so_far, branch) {
                None => PinpType::Void,
                Some(wider) => branches_joined(wider, branches, from + 1),
            },
        }
    }
}

/// The arguments of a call from the one at `from` on, each assignable to its parameter.
pub open spec fn args_checked(
    ast: AstView,
    st: SemaState,
    callee: SymId,
    args: Seq<ExprId>,
    params: Seq<PinpType>,
    from: int,
    limit: int,
) -> Checked<()>
    decreases limit, 0int, ast, args.len() - from + 1,
{
    if from < 0 || from >= args.len() {
        (st, Ok(()))
    } else {
        match expr_type(ast, st, args[from], limit) {
            (s1, Err(error)) => (s1, Err(error)),
            (s1, Ok(arg_type)) => if !assignable_to(arg_type, params[from]) {
                (
                    s1,
                    Err(
                        SemaErrorView::Type(
                            "Argument "@ + decimal_text((from + 1) as nat) + " of `"@ + name_text(
                                ast,
                                callee,
                            ) + "`: "@ + (type_text(arg_type) + " not assignable to "@ + type_text(
                                params[from],
                            )) + "."@,
                        ),
                    ),
                )
            } else {
                args_checked(ast, s1, callee, args, params, from + 1, limit)
            },
        }
    }
}

/// A condition (`if`/`while`/`loop`) must be `Bool` — there is no truthiness.
pub open spec fn condition(ast: AstView, st: SemaState, cond: ExprId, limit: int) -> Checked<()>
    decreases limit, 0int, ast, 1int,
{
    match expr_type(ast, st, cond, limit) {
        (s1, Err(error)) => (s1, Err(error)),
        (s1, Ok(cond_type)) => if cond_type == PinpType::Bool {
            (s1, Ok(()))
        } else {
            (
                s1,
                Err(
                    SemaErrorView::Type(
                        "Condition must be Bool, got "@ + type_text(cond_type) + "."@,
                    ),
                ),
            )
        },
    }
}

/// The arms of an `if` behind those whose branch types are `done`.
pub open spec fn arms_checked(
    ast: AstView,
    st: SemaState,
    arms: Seq<IfArmView>,
    done: Seq<Option<PinpType>>,
    limit: int,
) -> Checked<Seq<Option<PinpType>>>
    decreases limit, 2int, ast, arms.len() - done.len(),
{
    if done.len() >= arms.len() {
        (st, Ok(done))
    } else {
        let arm = arms[done.len() as int];
        match condition(ast, st, arm.cond, limit) {
            (s1, Err(error)) => (s1, Err(error)),
            (s1, Ok(_)) => match block_type(ast, s1, arm.body, limit) {
                (s2, Err(error)) => (s2, Err(error)),
                (s2, Ok(branch)) => arms_checked(ast, s2, arms, done.push(branch), limit),
            },
        }
    }
}

/// The type of the expression a block may end in.
pub open spec fn result_type(
    ast: AstView,
    st: SemaState,
    result: Option<ExprId>,
    limit: int,
) -> Checked<Option<PinpType>>
    decreases limit, 0int, ast, 1int,
{
    match result {
        None => (st, Ok(None)),
        Some(expr_id) => match expr_type(ast, st, expr_id, limit) {
            (s1, Err(error)) => (s1, Err(error)),
            (s1, Ok(t)) => (s1, Ok(Some(t))),
        },
    }
}

/// A control-flow body in its own scope, with the type of its trailing result expression. A name
/// first assigned here does not escape.
pub open spec fn block_type(ast: AstView, st: SemaState, block: BlockView, limit: int) -> Checked<
    Option<PinpType>,
>
    decreases limit, 1int, block, block.stmts.len() + 1,
{
    match stmts_checked(ast, opened(st, Map::empty()), block, 0, limit) {
        (s1, Err(error)) => (s1, Err(error)),
        (s1, Ok(_)) => match result_type(ast, s1, block.result, limit) {
            (s2, Err(error)) => (s2, Err(error)),
            (s2, Ok(t)) => (closed_scope(s2), Ok(t)),
        },
    }
}

/// The statements of a block from the one at `from` on.
pub open spec fn stmts_checked(
    ast: AstView,
    st: SemaState,
    block: BlockView,
    from: int,
    limit: int,
) -> Checked<()>
    decreases limit, 1int, block, block.stmts.len() - from,
{
    if from < 0 || from >= block.stmts.len() {
        (st, Ok(()))
    } else {
        match stmt_checked(ast, st, block.stmts[from], limit) {
            (s1, Err(error)) => (s1, Err(error)),
            (s1, Ok(_)) => stmts_checked(ast, s1, block, from + 1, limit),
        }
    }
}

/// The types of an assignment's values behind those already in `done`. None may be `Void`.
pub open spec fn value_types(
    ast: AstView,
    st: SemaState,
    values: Seq<ExprId>,
    done: Seq<PinpType>,
    limit: int,
) -> Checked<Seq<PinpType>>
    decreases limit, 0int, ast, values.len() - done.len() + 1,
{
    if done.len() >= values.len() {
        (st, Ok(done))
    } else {
        match expr_type(ast, st, values[done.len() as int], limit) {
            (s1, Err(error)) => (s1, Err(error)),
            (s1, Ok(t)) => if t == PinpType::Void {
                (s1, Err(SemaErrorView::Type("Cannot assign a void value."@)))
            } else {
                value_types(ast, s1, values, done.push(t), limit)
            },
        }
    }
}

/// One statement.
pub open spec fn stmt_checked(
    ast: AstView,
    st: SemaState,
    stmt: StmtView,
    limit: int,
) -> Checked<()>
    decreases limit, 1int, stmt, 0int,
{
    match stmt {
        StmtView::Expr(expr_id) => match expr_type(ast, st, expr_id, limit) {
            (s1, Err(error)) => (s1, Err(error)),
            (s1, Ok(_)) => (s1, Ok(())),
        },
        StmtView::Assign(targets, _, values) => match value_types(
            ast,
            st,
            values,
            Seq::empty(),
            limit,
        ) {
            (s1, Err(error)) => (s1, Err(error)),
            (s1, Ok(types)) => groups_assigned(ast, s1, targets, types, 0),
        },
        StmtView::While(cond, body) => match condition(ast, st, cond, limit) {
            (s1, Err(error)) => (s1, Err(error)),
            (s1, Ok(_)) => match block_type(ast, s1, body, limit) {
                (s2, Err(error)) => (s2, Err(error)),
                (s2, Ok(_)) => (s2, Ok(())),
            },
        },
        StmtView::Loop(body, cond, _) => match block_type(ast, st, body, limit) {
            (s1, Err(error)) => (s1, Err(error)),
            (s1, Ok(_)) => condition(ast, s1, cond, limit),
        },
        _ => (st, Err(SemaErrorView::Type("Unsupported statement."@))),
    }
}

/// The first `void` parameter from `from` on.
pub open spec fn first_void(params: Seq<Param>, from: int) -> int
    decreases params.len() - from,
{
    if 0 <= from < params.len() && params[from].param_type != PinpType::Void {
        first_void(params, from + 1)
    } else {
        from
    }
}

/// The frame that the first `count` parameters make.
pub open spec fn params_frame(params: Seq<Param>, count: int) -> Map<u32, PinpType>
    decreases count,
{
    if count <= 0 {
        Map::empty()
    } else {
        params_frame(params, count - 1).insert(
            params[count - 1].name.0,
            params[count - 1].param_type,
        )
    }
}

pub open spec fn signature_of(func: FuncDefView) -> SignatureView {
    SignatureView {
        params: Seq::new(func.params.len(), |i: int| func.params[i].param_type),
        return_type: func.return_type,
    }
}

/// A function definition: its body in a frame of its own that starts with the parameters, its
/// result assignable to the declared type. From here on it can be called.
#[verifier::opaque]
pub open spec fn func_checked(ast: AstView, st: SemaState, func: FuncDefView) -> Checked<()> {
    let limit = ast.nodes.len() as int;
    let void = first_void(func.params, 0);
    if void < func.params.len() {
        (
            st,
            Err(
                SemaErrorView::Type(
                    "Function argument `"@ + name_text(ast, func.params[void].name)
                        + "` cannot be void."@,
                ),
            ),
        )
    } else {
        let frame = params_frame(func.params, func.params.len() as int);
        let inside = SemaState { base: st.scopes.len() as int, ..opened(st, frame) };
        match stmts_checked(ast, inside, func.body, 0, limit) {
            (s1, Err(error)) => (s1, Err(error)),
            (s1, Ok(_)) => match result_type(ast, s1, func.body.result, limit) {
                (s2, Err(error)) => (s2, Err(error)),
                (s2, Ok(result)) => {
                    let t = result->0;
                    let s3 = SemaState { base: st.base, ..closed_scope(s2) };
                    if !assignable_to(t, func.return_type) {
                        (
                            s3,
                            Err(
                                SemaErrorView::Type(
                                    "Function `"@ + name_text(ast, func.name) + "` body yields "@
                                        + type_text(t) + " but is declared "@ + type_text(
                                        func.return_type,
                                    ) + "."@,
                                ),
                            ),
                        )
                    } else {
                        (
                            SemaState {
                                funcs: s3.funcs.insert(func.name.0, signature_of(func)),
                                ..s3
                            },
                            Ok(()),
                        )
                    }
                },
            },
        }
    }
}

/// The items of a program from the one at `from` on.
pub open spec fn items_checked(ast: AstView, st: SemaState, from: int) -> Checked<()>
    decreases ast.top_level.len() - from,
{
    if from < 0 || from >= ast.top_level.len() {
        (st, Ok(()))
    } else {
        let checked = match ast.top_level[from] {
            TopLevelView::Stmt(stmt) => stmt_checked(ast, st, stmt, ast.nodes.len() as int),
            TopLevelView::Func(func) => func_checked(ast, st, func),
        };
        match checked {
            (s1, Err(error)) => (s1, Err(error)),
            (s1, Ok(_)) => items_checked(ast, s1, from + 1),
        }
    }
}

/// The analysis of a whole program whose types so far are `types`.
pub open spec fn analyzed(ast: AstView, types: Seq<PinpType>) -> Checked<()> {
    items_checked(
        ast,
        SemaState { scopes: seq![Map::empty()], base: 0, funcs: Map::empty(), types },
        0,
    )
}

// ---------------------------------------------------------------------------
// The analyzer
// ---------------------------------------------------------------------------

/// `from` is assignable to `to` if identical, or by widening up the promotion lattice
/// `Bool -> Int -> Float`. Narrowing (e.g. `Float -> Int`, anything `-> Bool`) is never implicit.
fn assignable(from: PinpType, to: PinpType) -> (r: bool)
    ensures
        r == assignable_to(from, to),
{
    from == to || match (from, to) {
        (PinpType::Bool, PinpType::Int) => true,
        (PinpType::Bool, PinpType::Float) => true,
        (PinpType::Int, PinpType::Float) => true,
        _ => false,
    }
}

/// The wider of two types under the `Bool -> Int -> Float` lattice — the common type an `if`'s
/// branches join to. `None` when neither is assignable to the other (e.g. a `Void` branch), which
/// makes the whole `if` `Void` and so usable only as a statement.
fn join(left: PinpType, right: PinpType) -> (r: Option<PinpType>)
    ensures
        r == joined(left, right),
{
    if assignable(left, right) {
        Some(right)
    } else if assignable(right, left) {
        Some(left)
    } else {
        None
    }
}

/// Whether `pinp_type` takes part in arithmetic.
fn numeric(pinp_type: PinpType) -> (r: bool)
    ensures
        r == is_scalar(pinp_type),
{
    int_like(pinp_type) || pinp_type == PinpType::Float
}

/// Whether `pinp_type` promotes to `Int` (rather than forcing a `Float` result): `Bool` or `Int`.
fn int_like(pinp_type: PinpType) -> (r: bool)
    ensures
        r == is_int_like(pinp_type),
{
    pinp_type == PinpType::Bool || pinp_type == PinpType::Int
}

/// A type's name in messages.
fn name_of_type(pinp_type: PinpType) -> (name: &'static str)
    ensures
        name@ == type_text(pinp_type),
{
    match pinp_type {
        PinpType::Bool => "Bool",
        PinpType::Int => "Int",
        PinpType::Float => "Float",
        PinpType::Void => "Void",
        PinpType::Range => "Range",
        PinpType::Str => "Str",
        PinpType::Array(_, _) => "Array",
        PinpType::Matrix(_, _, _) => "Matrix",
    }
}

/// An operator's name in messages.
fn op_name(op: BinOp) -> (name: &'static str)
    ensures
        name@ == op_text(op),
{
    match op {
        BinOp::Add => "Add",
        BinOp::Sub => "Sub",
        BinOp::Mul => "Mul",
        BinOp::Div => "Div",
        BinOp::IntDiv => "IntDiv",
        BinOp::Mod => "Mod",
        BinOp::Pow => "Pow",
        BinOp::Eq => "Eq",
        BinOp::Ne => "Ne",
        BinOp::Lt => "Lt",
        BinOp::Gt => "Gt",
        BinOp::Le => "Le",
        BinOp::Ge => "Ge",
        BinOp::And => "And",
        BinOp::Or => "Or",
        BinOp::Xor => "Xor",
    }
}

/// What a result says, with the error by its view.
pub open spec fn outcome<T>(r: Result<T, SemaError>) -> Result<T, SemaErrorView> {
    match r {
        Ok(value) => Ok(value),
        Err(error) => Err(error@),
    }
}

fn unary_type(op: UnOp, operand_type: PinpType) -> (r: Result<PinpType, SemaError>)
    ensures
        outcome(r) == unary_result(op, operand_type),
{
    match op {
        // Arithmetic negation: `Bool` promotes to `Int` (like any arithmetic use of a bool).
        UnOp::Neg => {
            if operand_type == PinpType::Void {
                Err(SemaError::Type(String::from_str("Unary minus on a void value.")))
            } else if operand_type == PinpType::Bool {
                Ok(PinpType::Int)
            } else if numeric(operand_type) {
                Ok(operand_type)
            } else {
                Err(
                    SemaError::Type(
                        join3("Unary minus on a ", name_of_type(operand_type), " value."),
                    ),
                )
            }
        },
        UnOp::Not => {
            if operand_type == PinpType::Bool {
                Ok(PinpType::Bool)
            } else {
                Err(
                    SemaError::Type(
                        join3(
                            "`not` requires a Bool operand, got ",
                            name_of_type(operand_type),
                            ".",
                        ),
                    ),
                )
            }
        },
    }
}

/// Whether a value of this type becomes part of a string, by conversion where it is a scalar.
fn renders(pinp_type: PinpType) -> (r: bool)
    ensures
        r == has_rendering(pinp_type),
{
    pinp_type == PinpType::Str || numeric(pinp_type)
}

fn bin_type(op: BinOp, left_type: PinpType, right_type: PinpType) -> (r: Result<
    PinpType,
    SemaError,
>)
    ensures
        outcome(r) == binary_result(op, left_type, right_type),
{
    // Logicals take and yield Bool only — no truthiness.
    if op == BinOp::And || op == BinOp::Or || op == BinOp::Xor {
        return if left_type == PinpType::Bool && right_type == PinpType::Bool {
            Ok(PinpType::Bool)
        } else {
            Err(
                SemaError::Type(
                    join7(
                        "`",
                        op_name(op),
                        "` requires Bool operands, got ",
                        name_of_type(left_type),
                        " and ",
                        name_of_type(right_type),
                        ".",
                    ),
                ),
            )
        };
    }
    // Arithmetic and comparison both require non-void operands.
    if left_type == PinpType::Void || right_type == PinpType::Void {
        return Err(SemaError::Type(String::from_str("Operation on a void value.")));
    }
    let comparison: bool = match op {
        BinOp::Eq | BinOp::Ne | BinOp::Lt | BinOp::Gt | BinOp::Le | BinOp::Ge => true,
        _ => false,
    };
    if left_type == PinpType::Str && right_type == PinpType::Str && comparison {
        return Ok(PinpType::Bool);
    }
    if op == BinOp::Add && (left_type == PinpType::Str || right_type == PinpType::Str)
        && renders(left_type) && renders(right_type) {
        return Ok(PinpType::Str);
    }
    if !numeric(left_type) || !numeric(right_type) {
        return Err(
            SemaError::Type(
                join7(
                    "`",
                    op_name(op),
                    "` cannot take ",
                    name_of_type(left_type),
                    " and ",
                    name_of_type(right_type),
                    ".",
                ),
            ),
        );
    }
    if comparison {
        return Ok(PinpType::Bool);
    }
    if op == BinOp::Div {
        return Ok(PinpType::Float);
    }
    if int_like(left_type) && int_like(right_type) {
        return Ok(PinpType::Int);
    }
    if op == BinOp::IntDiv || op == BinOp::Mod {
        return Err(SemaError::Type(crate::text::join2(op_name(op), " requires Int operands.")));
    }
    Ok(PinpType::Float)
}

/// What a call to a function takes and yields.
pub(crate) struct Signature {
    params: Vec<PinpType>,
    return_type: PinpType,
}

spec fn signature_view(signature: Signature) -> SignatureView {
    SignatureView { params: signature.params@, return_type: signature.return_type }
}

spec fn scope_views(scopes: Seq<SymbolMap<PinpType>>) -> Seq<Map<u32, PinpType>> {
    Seq::new(scopes.len(), |i: int| scopes[i]@)
}

spec fn func_views(funcs: Map<u32, Signature>) -> Map<u32, SignatureView> {
    funcs.map_values(|signature: Signature| signature_view(signature))
}

struct Analyzer<'ast, 'src> {
    ast: &'ast Ast<'src>,
    types: Vec<PinpType>,
    scopes: Vec<SymbolMap<PinpType>>,
    /// Index of the current function's base frame; bare-name resolution searches
    /// `scopes[fn_base..]` and never reaches the global frame from inside a function. `0` at the
    /// top level, where the global frame *is* the base.
    fn_base: usize,
    funcs: SymbolMap<Signature>,
}

impl<'ast, 'src> Analyzer<'ast, 'src> {
    spec fn state(self) -> SemaState {
        SemaState {
            scopes: scope_views(self.scopes@),
            base: self.fn_base as int,
            funcs: func_views(self.funcs@),
            types: self.types@,
        }
    }

    /// The program is well-formed up to its types, and there is a frame to bind names in.
    spec fn well_formed(self) -> bool {
        &&& self.ast@.well_formed()
        &&& self.types@.len() == self.ast@.nodes.len()
        &&& self.fn_base < self.scopes@.len()
    }

    /// What a step keeps: the program, and on success the frames there are.
    spec fn keeps(self, before: Self, succeeded: bool) -> bool {
        &&& self.ast == before.ast
        &&& self.types@.len() == before.types@.len()
        &&& self.fn_base == before.fn_base
        &&& self.scopes@.len() >= before.scopes@.len()
        &&& succeeded ==> self.scopes@.len() == before.scopes@.len()
    }

    fn name(&self, sym_id: SymId) -> (name: &'src str)
        requires
            symbol_ok(sym_id, self.ast@.bounds()),
        ensures
            name@ == name_text(self.ast@, sym_id),
    {
        self.ast.names[sym_id.value()]
    }

    /// Finds the type of the nearest enclosing binding of `sym_id` (innermost first, down to the
    /// function base), or `None` if `sym_id` is bound nowhere in scope — meaning an assignment
    /// should introduce it as a new local.
    fn lookup_assign_target(&self, sym_id: SymId) -> (r: Option<PinpType>)
        requires
            self.well_formed(),
        ensures
            r == resolved(self.state(), sym_id),
    {
        let mut top: usize = self.scopes.len();
        while top > self.fn_base
            invariant
                self.well_formed(),
                self.fn_base <= top <= self.scopes@.len(),
                resolved(self.state(), sym_id) == lookup(
                    self.state().scopes,
                    self.fn_base as int,
                    top as int,
                    sym_id.0,
                ),
            decreases top,
        {
            assert(self.state().scopes[top - 1] == self.scopes@[top - 1]@);
            match map_get(&self.scopes[top - 1], sym_id.0) {
                Some(found) => {
                    return Some(*found);
                },
                None => {},
            }
            top = top - 1;
        }
        None
    }

    fn lookup_local(&self, sym_id: SymId) -> (r: Result<PinpType, SemaError>)
        requires
            self.well_formed(),
            symbol_ok(sym_id, self.ast@.bounds()),
        ensures
            outcome(r) == place_type(self.ast@, self.state(), Place::Local(sym_id)),
    {
        // Reading and assigning resolve a bare name the same way — outward to the function base —
        // so both share `lookup_assign_target`.
        match self.lookup_assign_target(sym_id) {
            Some(found) => Ok(found),
            None => Err(
                SemaError::UnknownSymbol(join3("Unknown symbol `", self.name(sym_id), "`.")),
            ),
        }
    }

    fn lookup_global(&self, sym_id: SymId) -> (r: Result<PinpType, SemaError>)
        requires
            self.well_formed(),
            symbol_ok(sym_id, self.ast@.bounds()),
        ensures
            outcome(r) == place_type(self.ast@, self.state(), Place::Global(sym_id)),
    {
        assert(self.state().scopes[0] == self.scopes@[0]@);
        match map_get(&self.scopes[0], sym_id.0) {
            Some(found) => Ok(*found),
            None => Err(
                SemaError::UnknownSymbol(join3("Unknown global `::", self.name(sym_id), "`.")),
            ),
        }
    }

    /// The type of a place that is read.
    fn lookup_place(&self, place: Place) -> (r: Result<PinpType, SemaError>)
        requires
            self.well_formed(),
            symbol_ok(symbol_of(place), self.ast@.bounds()),
        ensures
            outcome(r) == place_type(self.ast@, self.state(), place),
    {
        match place {
            Place::Local(sym_id) => self.lookup_local(sym_id),
            Place::Global(sym_id) => self.lookup_global(sym_id),
        }
    }

    fn check_assignable(&self, from: PinpType, to: PinpType) -> (r: Result<(), SemaError>)
        ensures
            outcome(r) == assignment_check(from, to),
    {
        if assignable(from, to) {
            Ok(())
        } else {
            Err(
                SemaError::Type(
                    join5(
                        "Assignment yields ",
                        name_of_type(from),
                        ", not assignable to ",
                        name_of_type(to),
                        ".",
                    ),
                ),
            )
        }
    }

    /// Binds a name in the innermost frame.
    fn bind(&mut self, sym_id: SymId, value_type: PinpType)
        requires
            old(self).well_formed(),
        ensures
            final(self).state() == bound(old(self).state(), sym_id, value_type),
            final(self).keeps(*old(self), true),
    {
        let ghost before = self.scopes@;
        let ghost st = self.state();
        let ghost top = before.len() - 1;
        if let Some(innermost) = self.scopes.pop() {
            let mut frame: SymbolMap<PinpType> = innermost;
            map_insert(&mut frame, sym_id.0, value_type);
            self.scopes.push(frame);
        }
        proof {
            assert(st.scopes[top] == before[top]@);
            assert(self.state().scopes =~= bound(st, sym_id, value_type).scopes);
        }
    }

    /// Checks one assignment target against the type of the value bound to it: a `::global` must
    /// already exist; a bare name mutates the nearest enclosing binding, or introduces a fresh
    /// non-escaping local.
    fn assign_place(&mut self, place: Place, value_type: PinpType) -> (r: Result<(), SemaError>)
        requires
            old(self).well_formed(),
            symbol_ok(symbol_of(place), old(self).ast@.bounds()),
        ensures
            (final(self).state(), outcome(r)) == place_assigned(
                old(self).ast@,
                old(self).state(),
                place,
                value_type,
            ),
            final(self).keeps(*old(self), r is Ok),
    {
        match place {
            Place::Global(sym_id) => match self.lookup_global(sym_id) {
                Ok(existing) => self.check_assignable(value_type, existing),
                Err(error) => Err(error),
            },
            Place::Local(sym_id) => match self.lookup_assign_target(sym_id) {
                Some(existing) => self.check_assignable(value_type, existing),
                None => {
                    self.bind(sym_id, value_type);
                    Ok(())
                },
            },
        }
    }

    /// Assigns the values positionally to one group of targets.
    fn assign_group(&mut self, group: &Vec<Place>, value_types: &Vec<PinpType>) -> (r: Result<
        (),
        SemaError,
    >)
        requires
            old(self).well_formed(),
            group@.len() == value_types@.len(),
            crate::parser::ast::places_ok(group@, old(self).ast@.bounds()),
        ensures
            (final(self).state(), outcome(r)) == group_assigned(
                old(self).ast@,
                old(self).state(),
                group@,
                value_types@,
                0,
            ),
            final(self).keeps(*old(self), r is Ok),
    {
        let mut index: usize = 0;
        while index < group.len()
            invariant
                self.well_formed(),
                self.keeps(*old(self), true),
                index <= group@.len(),
                group@.len() == value_types@.len(),
                crate::parser::ast::places_ok(group@, self.ast@.bounds()),
                group_assigned(old(self).ast@, old(self).state(), group@, value_types@, 0)
                    == group_assigned(
                    self.ast@,
                    self.state(),
                    group@,
                    value_types@,
                    index as int,
                ),
            decreases group@.len() - index,
        {
            match self.assign_place(group[index], value_types[index]) {
                Ok(()) => {},
                Err(error) => return Err(error),
            }
            index = index + 1;
        }
        Ok(())
    }

    /// Assigns the values to every group of targets.
    fn assign_groups(&mut self, groups: &Vec<Vec<Place>>, value_types: &Vec<PinpType>) -> (r: Result<
        (),
        SemaError,
    >)
        requires
            old(self).well_formed(),
            forall|i: int|
                0 <= i < groups@.len() ==> (#[trigger] groups@[i])@.len() == value_types@.len()
                    && crate::parser::ast::places_ok(groups@[i]@, old(self).ast@.bounds()),
        ensures
            (final(self).state(), outcome(r)) == groups_assigned(
                old(self).ast@,
                old(self).state(),
                nested(groups@),
                value_types@,
                0,
            ),
            final(self).keeps(*old(self), r is Ok),
    {
        let mut index: usize = 0;
        while index < groups.len()
            invariant
                self.well_formed(),
                self.keeps(*old(self), true),
                index <= groups@.len(),
                forall|i: int|
                    0 <= i < groups@.len() ==> (#[trigger] groups@[i])@.len()
                        == value_types@.len() && crate::parser::ast::places_ok(
                        groups@[i]@,
                        self.ast@.bounds(),
                    ),
                groups_assigned(
                    old(self).ast@,
                    old(self).state(),
                    nested(groups@),
                    value_types@,
                    0,
                ) == groups_assigned(
                    self.ast@,
                    self.state(),
                    nested(groups@),
                    value_types@,
                    index as int,
                ),
            decreases groups@.len() - index,
        {
            assert(nested(groups@)[index as int] == groups@[index as int]@);
            match self.assign_group(&groups[index], value_types) {
                Ok(()) => {},
                Err(error) => return Err(error),
            }
            index = index + 1;
        }
        Ok(())
    }

    /// The error of the first hole of an f-string that names nothing.
    fn check_segments(&self, segments: &Vec<FStrSegment>) -> (r: Result<(), SemaError>)
        requires
            self.well_formed(),
            forall|i: int|
                0 <= i < segments@.len() ==> segment_ok(
                    #[trigger] segments@[i],
                    self.ast@.bounds(),
                ),
        ensures
            match r {
                Ok(()) => first_unbound(self.ast@, self.state(), segments@, 0) is None,
                Err(error) => first_unbound(self.ast@, self.state(), segments@, 0) == Some(error@),
            },
    {
        let mut index: usize = 0;
        while index < segments.len()
            invariant
                self.well_formed(),
                index <= segments@.len(),
                forall|i: int|
                    0 <= i < segments@.len() ==> segment_ok(
                        #[trigger] segments@[i],
                        self.ast@.bounds(),
                    ),
                first_unbound(self.ast@, self.state(), segments@, 0) == first_unbound(
                    self.ast@,
                    self.state(),
                    segments@,
                    index as int,
                ),
            decreases segments@.len() - index,
        {
            assert(segment_ok(segments@[index as int], self.ast@.bounds()));
            match segments[index] {
                FStrSegment::Literal(_) => {},
                FStrSegment::Interp(place) => match self.lookup_place(place) {
                    Ok(_) => {},
                    Err(error) => return Err(error),
                },
            }
            index = index + 1;
        }
        Ok(())
    }

    /// Infers the type of `expr_id`, records it in the arena, and returns it.
    fn analyze_expr(&mut self, expr_id: ExprId, Ghost(limit): Ghost<int>) -> (r: Result<
        PinpType,
        SemaError,
    >)
        requires
            old(self).well_formed(),
            expr_id.0 < limit <= old(self).ast@.nodes.len(),
        ensures
            (final(self).state(), outcome(r)) == expr_type(
                old(self).ast@,
                old(self).state(),
                expr_id,
                limit,
            ),
            final(self).keeps(*old(self), r is Ok),
        decreases limit, 0int, old(self).ast@, 0int,
    {
        match self.analyze_node(expr_id) {
            Ok(inferred) => {
                self.types.set(expr_id.value(), inferred);
                Ok(inferred)
            },
            Err(error) => Err(error),
        }
    }

    /// Infers the type of `expr_id` from those of its parts.
    fn analyze_node(&mut self, expr_id: ExprId) -> (r: Result<PinpType, SemaError>)
        requires
            old(self).well_formed(),
            expr_id.0 < old(self).ast@.nodes.len(),
        ensures
            (final(self).state(), outcome(r)) == node_type(
                old(self).ast@,
                old(self).state(),
                old(self).ast@.nodes[expr_id.0 as int],
                expr_id.0 as int,
            ),
            final(self).keeps(*old(self), r is Ok),
        decreases expr_id.0, 3int, old(self).ast@, 0int,
    {
        let ast: &'ast Ast<'src> = self.ast;
        let ghost limit = expr_id.0 as int;
        proof {
            assert(ast@.nodes[limit] == ast.nodes@[limit]@);
            assert(node_ok(ast@.nodes[limit], ast@.bounds_before(limit)));
            if let NodeView::FStr(segments) = ast@.nodes[limit] {
                assert forall|i: int| 0 <= i < segments.len() implies segment_ok(
                    #[trigger] segments[i],
                    ast@.bounds(),
                ) by {
                    assert(segment_ok(segments[i], ast@.bounds_before(limit)));
                }
            }
        }
        match &ast.nodes[expr_id.value()] {
            Node::Int(_) => Ok(PinpType::Int),
            Node::Float(_) => Ok(PinpType::Float),
            Node::Bool(_) => Ok(PinpType::Bool),
            Node::Str(_) => Ok(PinpType::Str),
            Node::FStr { segments } => match self.check_segments(segments) {
                Ok(()) => Ok(PinpType::Str),
                Err(error) => Err(error),
            },
            Node::Var(sym_id) => self.lookup_local(*sym_id),
            Node::Global(sym_id) => self.lookup_global(*sym_id),
            Node::Unary { op, operand } => match self.analyze_expr(*operand, Ghost(limit)) {
                Ok(operand_type) => unary_type(*op, operand_type),
                Err(error) => Err(error),
            },
            Node::Bin { op, lhs, rhs } => {
                let left_type: PinpType = match self.analyze_expr(*lhs, Ghost(limit)) {
                    Ok(left_type) => left_type,
                    Err(error) => return Err(error),
                };
                match self.analyze_expr(*rhs, Ghost(limit)) {
                    Ok(right_type) => bin_type(*op, left_type, right_type),
                    Err(error) => Err(error),
                }
            },
            Node::Call { callee, args } => self.call_type(*callee, args, Ghost(limit)),
            Node::If { arms, else_block } => self.if_type(arms, else_block, Ghost(limit)),
            _ => Err(SemaError::Type(String::from_str("Unsupported expression."))),
        }
    }

    /// Types an `if`: each condition must be `Bool`; the node's type is the join of every branch's
    /// result, but only when an `else` is present and every branch (arms and `else`) ends in an
    /// expression. Otherwise it is `Void` — usable as a statement, but not as a value.
    fn if_type(
        &mut self,
        arms: &Vec<IfArm>,
        else_block: &Option<Block>,
        Ghost(limit): Ghost<int>,
    ) -> (r: Result<PinpType, SemaError>)
        requires
            old(self).well_formed(),
            0 <= limit <= old(self).ast@.nodes.len(),
            node_ok(
                NodeView::If(arm_views(arms@), optional_block(*else_block)),
                old(self).ast@.bounds_before(limit),
            ),
        ensures
            (final(self).state(), outcome(r)) == node_type(
                old(self).ast@,
                old(self).state(),
                NodeView::If(arm_views(arms@), optional_block(*else_block)),
                limit,
            ),
            final(self).keeps(*old(self), r is Ok),
        decreases limit, 2int, old(self).ast@, 0int,
    {
        let ghost views = arm_views(arms@);
        let ghost ast = self.ast@;
        let ghost start = self.state();
        let ghost at = self.ast@.bounds_before(limit);
        let mut branch_types: Vec<Option<PinpType>> = Vec::new();
        let mut index: usize = 0;
        while index < arms.len()
            invariant
                self.well_formed(),
                self.keeps(*old(self), true),
                ast == self.ast@,
                start == old(self).state(),
                views == arm_views(arms@),
                at == self.ast@.bounds_before(limit),
                0 <= limit <= self.ast@.nodes.len(),
                node_ok(NodeView::If(views, optional_block(*else_block)), at),
                index <= arms@.len(),
                branch_types@.len() == index,
                arms_checked(ast, start, views, Seq::empty(), limit) == arms_checked(
                    ast,
                    self.state(),
                    views,
                    branch_types@,
                    limit,
                ),
            decreases arms@.len() - index,
        {
            proof {
                assert(views[index as int] == arms@[index as int]@);
                assert(block_ok(views[index as int].body, at));
            }
            match self.check_condition(arms[index].cond, Ghost(limit)) {
                Ok(()) => {},
                Err(error) => return Err(error),
            }
            match self.analyze_block(&arms[index].body, Ghost(limit)) {
                Ok(branch) => {
                    branch_types.push(branch);
                },
                Err(error) => return Err(error),
            }
            index = index + 1;
        }
        let ghost branches = branch_types@;
        assert(arms_checked(ast, start, views, Seq::empty(), limit) == (
            self.state(),
            Ok::<_, SemaErrorView>(branches),
        ));
        let else_body: &Block = match else_block {
            Some(else_body) => else_body,
            None => return Ok(PinpType::Void),
        };
        // A missing branch result, or branches that do not share a common type, leave the `if`
        // valueless (`Void`).
        let mut so_far: PinpType = match self.analyze_block(else_body, Ghost(limit)) {
            Ok(Some(branch_type)) => branch_type,
            Ok(None) => return Ok(PinpType::Void),
            Err(error) => return Err(error),
        };
        let ghost last = so_far;
        let mut next: usize = 0;
        while next < branch_types.len()
            invariant_except_break
                next <= branch_types@.len(),
                branches == branch_types@,
                branches_joined(last, branches, 0) == branches_joined(
                    so_far,
                    branches,
                    next as int,
                ),
            ensures
                so_far == branches_joined(last, branches, 0),
            decreases branch_types@.len() - next,
        {
            let wider: Option<PinpType> = match branch_types[next] {
                Some(branch_type) => join(so_far, branch_type),
                None => None,
            };
            match wider {
                Some(wider) => {
                    so_far = wider;
                },
                None => {
                    so_far = PinpType::Void;
                    break;
                },
            }
            next = next + 1;
        }
        Ok(so_far)
    }

    fn wrong_count(&self, callee: SymId, wanted: usize, got: usize) -> (error: SemaError)
        requires
            self.well_formed(),
            symbol_ok(callee, self.ast@.bounds()),
        ensures
            error@ == wrong_count(self.ast@, callee, wanted as nat, got as nat),
    {
        SemaError::Type(
            join7(
                "Function `",
                self.name(callee),
                "` expects ",
                decimal(wanted as u64).as_str(),
                " argument(s), got ",
                decimal(got as u64).as_str(),
                ".",
            ),
        )
    }

    /// Types a call to a built-in: `str(x)` converts what can be part of a string, and `meminfo()`
    /// yields nothing.
    fn built_in_type(&mut self, callee: SymId, args: &Vec<ExprId>, Ghost(limit): Ghost<int>) -> (r:
        Result<PinpType, SemaError>)
        requires
            old(self).well_formed(),
            0 <= limit <= old(self).ast@.nodes.len(),
            symbol_ok(callee, old(self).ast@.bounds()),
            exprs_ok(args@, old(self).ast@.bounds_before(limit)),
        ensures
            (final(self).state(), outcome(r)) == built_in_type(
                old(self).ast@,
                old(self).state(),
                callee,
                args@,
                limit,
            ),
            final(self).keeps(*old(self), r is Ok),
        decreases limit, 1int, old(self).ast@, 0int,
    {
        if same(self.name(callee), "str") {
            if args.len() != 1 {
                return Err(self.wrong_count(callee, 1, args.len()));
            }
            let arg_type: PinpType = match self.analyze_expr(args[0], Ghost(limit)) {
                Ok(arg_type) => arg_type,
                Err(error) => return Err(error),
            };
            if renders(arg_type) {
                Ok(PinpType::Str)
            } else {
                Err(SemaError::Type(join3("`str` cannot take ", name_of_type(arg_type), ".")))
            }
        } else if args.len() != 0 {
            Err(self.wrong_count(callee, 0, args.len()))
        } else {
            Ok(PinpType::Void)
        }
    }

    fn call_type(&mut self, callee: SymId, args: &Vec<ExprId>, Ghost(limit): Ghost<int>) -> (r:
        Result<PinpType, SemaError>)
        requires
            old(self).well_formed(),
            0 <= limit <= old(self).ast@.nodes.len(),
            symbol_ok(callee, old(self).ast@.bounds()),
            exprs_ok(args@, old(self).ast@.bounds_before(limit)),
        ensures
            (final(self).state(), outcome(r)) == node_type(
                old(self).ast@,
                old(self).state(),
                NodeView::Call(callee, args@),
                limit,
            ),
            final(self).keeps(*old(self), r is Ok),
        decreases limit, 2int, old(self).ast@, 0int,
    {
        let ghost start = self.state();
        let ghost ast = self.ast@;
        let (params, return_type): (Vec<PinpType>, PinpType) = match map_get(
            &self.funcs,
            callee.0,
        ) {
            Some(signature) => (copied(&signature.params), signature.return_type),
            None => {
                return if same(self.name(callee), "str") || same(self.name(callee), "meminfo") {
                    self.built_in_type(callee, args, Ghost(limit))
                } else {
                    Err(
                        SemaError::UnknownSymbol(
                            join3("Call to undefined function `", self.name(callee), "`."),
                        ),
                    )
                };
            },
        };
        assert(start.funcs[callee.0] == signature_view(self.funcs@[callee.0]));
        if args.len() != params.len() {
            return Err(self.wrong_count(callee, params.len(), args.len()));
        }
        let mut index: usize = 0;
        while index < args.len()
            invariant
                self.well_formed(),
                self.keeps(*old(self), true),
                start == old(self).state(),
                ast == self.ast@,
                start.funcs.contains_key(callee.0),
                start.funcs[callee.0].params == params@,
                0 <= limit <= self.ast@.nodes.len(),
                symbol_ok(callee, self.ast@.bounds()),
                exprs_ok(args@, self.ast@.bounds_before(limit)),
                index <= args@.len(),
                args@.len() == params@.len(),
                args@.len() <= usize::MAX,
                args_checked(ast, start, callee, args@, params@, 0, limit) == args_checked(
                    ast,
                    self.state(),
                    callee,
                    args@,
                    params@,
                    index as int,
                    limit,
                ),
            decreases args@.len() - index,
        {
            let arg_type: PinpType = match self.analyze_expr(args[index], Ghost(limit)) {
                Ok(arg_type) => arg_type,
                Err(error) => return Err(error),
            };
            let param_type: PinpType = params[index];
            if !assignable(arg_type, param_type) {
                return Err(
                    SemaError::Type(
                        join7(
                            "Argument ",
                            decimal((index + 1) as u64).as_str(),
                            " of `",
                            self.name(callee),
                            "`: ",
                            join3(
                                name_of_type(arg_type),
                                " not assignable to ",
                                name_of_type(param_type),
                            ).as_str(),
                            ".",
                        ),
                    ),
                );
            }
            index = index + 1;
        }
        Ok(return_type)
    }

    /// A condition (`if`/`while`/`loop`) must be `Bool` — there is no truthiness.
    fn check_condition(&mut self, cond: ExprId, Ghost(limit): Ghost<int>) -> (r: Result<
        (),
        SemaError,
    >)
        requires
            old(self).well_formed(),
            cond.0 < limit <= old(self).ast@.nodes.len(),
        ensures
            (final(self).state(), outcome(r)) == condition(
                old(self).ast@,
                old(self).state(),
                cond,
                limit,
            ),
            final(self).keeps(*old(self), r is Ok),
        decreases limit, 0int, old(self).ast@, 1int,
    {
        let cond_type: PinpType = match self.analyze_expr(cond, Ghost(limit)) {
            Ok(cond_type) => cond_type,
            Err(error) => return Err(error),
        };
        if cond_type == PinpType::Bool {
            Ok(())
        } else {
            Err(
                SemaError::Type(
                    join3("Condition must be Bool, got ", name_of_type(cond_type), "."),
                ),
            )
        }
    }

    /// Analyses a control-flow body in its own scope, returning the type of its trailing result
    /// expression (or `None` when it ends in a statement). The scope is popped on the way out, so a
    /// name first assigned here does not escape.
    fn analyze_block(&mut self, block: &Block, Ghost(limit): Ghost<int>) -> (r: Result<
        Option<PinpType>,
        SemaError,
    >)
        requires
            old(self).well_formed(),
            0 <= limit <= old(self).ast@.nodes.len(),
            block_ok(block@, old(self).ast@.bounds_before(limit)),
        ensures
            (final(self).state(), outcome(r)) == block_type(
                old(self).ast@,
                old(self).state(),
                block@,
                limit,
            ),
            final(self).keeps(*old(self), r is Ok),
        decreases limit, 1int, block, block.stmts@.len() + 1,
    {
        let ghost st = self.state();
        self.scopes.push(symbol_map());
        assert(self.state().scopes =~= opened(st, Map::empty()).scopes);
        match self.analyze_stmts(block, Ghost(limit)) {
            Ok(()) => {},
            Err(error) => return Err(error),
        }
        let result_type: Option<PinpType> = match self.analyze_result(block.result, Ghost(limit)) {
            Ok(result_type) => result_type,
            Err(error) => return Err(error),
        };
        let ghost inside = self.state();
        self.scopes.pop();
        assert(self.state().scopes =~= closed_scope(inside).scopes);
        Ok(result_type)
    }

    /// The type of the expression a block may end in.
    fn analyze_result(&mut self, result: Option<ExprId>, Ghost(limit): Ghost<int>) -> (r: Result<
        Option<PinpType>,
        SemaError,
    >)
        requires
            old(self).well_formed(),
            0 <= limit <= old(self).ast@.nodes.len(),
            result matches Some(expr_id) ==> expr_id.0 < limit,
        ensures
            (final(self).state(), outcome(r)) == result_type(
                old(self).ast@,
                old(self).state(),
                result,
                limit,
            ),
            final(self).keeps(*old(self), r is Ok),
            r matches Ok(t) ==> t is Some == result is Some,
        decreases limit, 0int, old(self).ast@, 1int,
    {
        match result {
            None => Ok(None),
            Some(expr_id) => match self.analyze_expr(expr_id, Ghost(limit)) {
                Ok(t) => Ok(Some(t)),
                Err(error) => Err(error),
            },
        }
    }

    /// Analyses the statements of a block in the scope there is.
    fn analyze_stmts(&mut self, block: &Block, Ghost(limit): Ghost<int>) -> (r: Result<
        (),
        SemaError,
    >)
        requires
            old(self).well_formed(),
            0 <= limit <= old(self).ast@.nodes.len(),
            block_ok(block@, old(self).ast@.bounds_before(limit)),
        ensures
            (final(self).state(), outcome(r)) == stmts_checked(
                old(self).ast@,
                old(self).state(),
                block@,
                0,
                limit,
            ),
            final(self).keeps(*old(self), r is Ok),
        decreases limit, 1int, block, block.stmts@.len() as int,
    {
        let mut index: usize = 0;
        while index < block.stmts.len()
            invariant
                self.well_formed(),
                self.keeps(*old(self), true),
                0 <= limit <= self.ast@.nodes.len(),
                block_ok(block@, self.ast@.bounds_before(limit)),
                index <= block.stmts@.len(),
                stmts_checked(old(self).ast@, old(self).state(), block@, 0, limit)
                    == stmts_checked(self.ast@, self.state(), block@, index as int, limit),
            decreases block.stmts@.len() - index,
        {
            proof {
                assert(block@.stmts[index as int] == block.stmts@[index as int]@);
                assert(stmt_ok(block@.stmts[index as int], self.ast@.bounds_before(limit)));
            }
            match self.analyze_stmt(&block.stmts[index], Ghost(limit)) {
                Ok(()) => {},
                Err(error) => return Err(error),
            }
            index = index + 1;
        }
        Ok(())
    }

    fn analyze_stmt(&mut self, stmt: &Stmt, Ghost(limit): Ghost<int>) -> (r: Result<(), SemaError>)
        requires
            old(self).well_formed(),
            0 <= limit <= old(self).ast@.nodes.len(),
            stmt_ok(stmt@, old(self).ast@.bounds_before(limit)),
        ensures
            (final(self).state(), outcome(r)) == stmt_checked(
                old(self).ast@,
                old(self).state(),
                stmt@,
                limit,
            ),
            final(self).keeps(*old(self), r is Ok),
        decreases limit, 1int, stmt, 0int,
    {
        match stmt {
            Stmt::Expr(expr_id) => match self.analyze_expr(*expr_id, Ghost(limit)) {
                Ok(_) => Ok(()),
                Err(error) => Err(error),
            },
            Stmt::Assign { target_lists, target_spans, values } => {
                // Type every value first (rejecting `Void`), then assign positionally to each
                // target group — arity (group length == value count) is guaranteed by the parser.
                let value_types: Vec<PinpType> = match self.analyze_values(values, Ghost(limit)) {
                    Ok(value_types) => value_types,
                    Err(error) => return Err(error),
                };
                proof {
                    assert forall|i: int| 0 <= i < target_lists@.len() implies (
                    #[trigger] target_lists@[i])@.len() == value_types@.len()
                        && crate::parser::ast::places_ok(
                        target_lists@[i]@,
                        self.ast@.bounds(),
                    ) by {
                        assert(nested(target_lists@)[i] == target_lists@[i]@);
                    }
                }
                self.assign_groups(target_lists, &value_types)
            },
            Stmt::While { cond, body } => {
                match self.check_condition(*cond, Ghost(limit)) {
                    Ok(()) => {},
                    Err(error) => return Err(error),
                }
                match self.analyze_block(body, Ghost(limit)) {
                    Ok(_) => Ok(()),
                    Err(error) => Err(error),
                }
            },
            Stmt::Loop { body, cond, until } => {
                match self.analyze_block(body, Ghost(limit)) {
                    Ok(_) => {},
                    Err(error) => return Err(error),
                }
                self.check_condition(*cond, Ghost(limit))
            },
            _ => Err(SemaError::Type(String::from_str("Unsupported statement."))),
        }
    }

    /// The types of an assignment's values, none of them `Void`.
    fn analyze_values(&mut self, values: &Vec<ExprId>, Ghost(limit): Ghost<int>) -> (r: Result<
        Vec<PinpType>,
        SemaError,
    >)
        requires
            old(self).well_formed(),
            0 <= limit <= old(self).ast@.nodes.len(),
            exprs_ok(values@, old(self).ast@.bounds_before(limit)),
        ensures
            match r {
                Ok(types) => {
                    &&& (final(self).state(), Ok::<_, SemaErrorView>(types@)) == value_types(
                        old(self).ast@,
                        old(self).state(),
                        values@,
                        Seq::empty(),
                        limit,
                    )
                    &&& types@.len() == values@.len()
                },
                Err(error) => (final(self).state(), Err::<Seq<PinpType>, _>(error@))
                    == value_types(
                    old(self).ast@,
                    old(self).state(),
                    values@,
                    Seq::empty(),
                    limit,
                ),
            },
            final(self).keeps(*old(self), r is Ok),
        decreases limit, 0int, old(self).ast@, 1int,
    {
        let mut types: Vec<PinpType> = Vec::new();
        while types.len() < values.len()
            invariant
                self.well_formed(),
                self.keeps(*old(self), true),
                0 <= limit <= self.ast@.nodes.len(),
                exprs_ok(values@, self.ast@.bounds_before(limit)),
                types@.len() <= values@.len(),
                value_types(old(self).ast@, old(self).state(), values@, Seq::empty(), limit)
                    == value_types(self.ast@, self.state(), values@, types@, limit),
            decreases values@.len() - types@.len(),
        {
            let value_type: PinpType = match self.analyze_expr(values[types.len()], Ghost(limit)) {
                Ok(value_type) => value_type,
                Err(error) => return Err(error),
            };
            if value_type == PinpType::Void {
                return Err(SemaError::Type(String::from_str("Cannot assign a void value.")));
            }
            types.push(value_type);
        }
        Ok(types)
    }

    fn analyze_func(&mut self, func: &FuncDef) -> (r: Result<(), SemaError>)
        requires
            old(self).well_formed(),
            func_ok(func@, old(self).ast@.bounds()),
        ensures
            (final(self).state(), outcome(r)) == func_checked(
                old(self).ast@,
                old(self).state(),
                func@,
            ),
            final(self).ast == old(self).ast,
            final(self).types@.len() == old(self).types@.len(),
            r is Ok ==> final(self).keeps(*old(self), true),
    {
        let ghost start = self.state();
        let ghost limit = self.ast@.nodes.len() as int;
        proof {
            reveal(func_checked);
        }
        let mut frame: SymbolMap<PinpType> = symbol_map();
        let mut param_types: Vec<PinpType> = Vec::new();
        let mut index: usize = 0;
        while index < func.params.len()
            invariant
                self == old(self),
                start == self.state(),
                func_ok(func@, self.ast@.bounds()),
                index <= func.params@.len(),
                frame@ == params_frame(func.params@, index as int),
                param_types@.len() == index,
                forall|i: int|
                    0 <= i < index ==> #[trigger] param_types@[i] == func.params@[i].param_type,
                first_void(func.params@, 0) == first_void(func.params@, index as int),
            decreases func.params@.len() - index,
        {
            proof {
                reveal(func_checked);
            }
            let param: Param = func.params[index];
            // `void` is the no-return marker, not a value type — rejecting it here is what keeps a
            // `Void` value from ever entering an expression.
            if param.param_type == PinpType::Void {
                return Err(
                    SemaError::Type(
                        join3("Function argument `", self.name(param.name), "` cannot be void."),
                    ),
                );
            }
            map_insert(&mut frame, param.name.0, param.param_type);  // no name occurs twice
            param_types.push(param.param_type);
            index = index + 1;
        }
        let old_base: usize = self.fn_base;
        assert(self.scopes.len() == self.scopes@.len());
        self.fn_base = self.scopes.len();
        let ghost frame_view = frame@;
        self.scopes.push(frame);
        proof {
            assert(self.state().scopes =~= opened(start, frame_view).scopes);
        }
        match self.analyze_stmts(&func.body, Ghost(limit)) {
            Ok(()) => {},
            Err(error) => return Err(error),
        }
        let result_type: PinpType = match self.analyze_result(func.body.result, Ghost(limit)) {
            Ok(Some(result_type)) => result_type,
            Ok(None) => PinpType::Void,
            Err(error) => return Err(error),
        };
        let ghost inside = self.state();
        self.scopes.pop();
        self.fn_base = old_base;
        assert(self.state().scopes =~= closed_scope(inside).scopes);
        if !assignable(result_type, func.return_type) {
            return Err(
                SemaError::Type(
                    join7(
                        "Function `",
                        self.name(func.name),
                        "` body yields ",
                        name_of_type(result_type),
                        " but is declared ",
                        name_of_type(func.return_type),
                        ".",
                    ),
                ),
            );
        }
        // Register only now: a call can reach a function only after its definition (so no forward
        // references and no recursion).
        let ghost before = self.funcs@;
        let signature: Signature = Signature {
            params: param_types,
            return_type: func.return_type,
        };
        map_insert(&mut self.funcs, func.name.0, signature);
        proof {
            assert(signature_view(signature).params =~= signature_of(func@).params);
            assert(func_views(self.funcs@) =~= func_views(before).insert(
                func.name.0,
                signature_of(func@),
            ));
        }
        Ok(())
    }
}

/// Infers types and checks the semantic rules, filling the AST's `types` arena in place.
///
/// Ranges, membership tests, arrays, matrices, indexing, members, comprehensions, `for` loops,
/// assignments to an element and the built-in `identity` have no typing rule: each is refused.
pub fn analyze(ast: &mut Ast) -> (r: Result<(), SemaError>)
    requires
        old(ast).well_formed(),
    ensures
        final(ast).well_formed(),
        final(ast)@ == old(ast)@,
        analyzed(old(ast)@, old(ast).types@).0.types == final(ast).types@,
        analyzed(old(ast)@, old(ast).types@).1 == outcome(r),
{
    let mut types: Vec<PinpType> = Vec::new();
    std::mem::swap(&mut ast.types, &mut types);
    let (r, filled): (Result<(), SemaError>, Vec<PinpType>) = analyze_items(&*ast, types);
    ast.types = filled;
    r
}

/// Analyses the items of a program in order, filling `types`.
fn analyze_items(ast: &Ast, types: Vec<PinpType>) -> (r: (Result<(), SemaError>, Vec<PinpType>))
    requires
        ast@.well_formed(),
        types@.len() == ast@.nodes.len(),
    ensures
        analyzed(ast@, types@).0.types == r.1@,
        analyzed(ast@, types@).1 == outcome(r.0),
        r.1@.len() == types@.len(),
{
    let mut scopes: Vec<SymbolMap<PinpType>> = Vec::new();
    scopes.push(symbol_map());  // global frame
    let ghost given = types@;
    let ghost start = SemaState {
        scopes: seq![Map::empty()],
        base: 0,
        funcs: Map::empty(),
        types: given,
    };
    let mut analyzer: Analyzer = Analyzer { ast, types, scopes, fn_base: 0, funcs: symbol_map() };
    proof {
        assert(analyzer.state().scopes =~= start.scopes);
        assert(analyzer.state().funcs =~= start.funcs);
    }
    let mut index: usize = 0;
    while index < ast.top_level.len()
        invariant
            analyzer.well_formed(),
            analyzer.ast == ast,
            given.len() == analyzer.types@.len(),
            start == (SemaState {
                scopes: seq![Map::empty()],
                base: 0,
                funcs: Map::empty(),
                types: given,
            }),
            given == types@,
            index <= ast.top_level@.len(),
            items_checked(ast@, start, 0) == items_checked(
                ast@,
                analyzer.state(),
                index as int,
            ),
        decreases ast.top_level@.len() - index,
    {
        proof {
            assert(ast@.top_level[index as int] == ast.top_level@[index as int]@);
            assert(top_level_ok(ast@.top_level[index as int], ast@.bounds()));
        }
        let checked: Result<(), SemaError> = match &ast.top_level[index] {
            TopLevel::Stmt(stmt) => analyzer.analyze_stmt(stmt, Ghost(ast@.nodes.len() as int)),
            TopLevel::Func(func) => analyzer.analyze_func(func),
        };
        match checked {
            Ok(()) => {},
            Err(error) => return (Err(error), analyzer.types),
        }
        index = index + 1;
    }
    (Ok(()), analyzer.types)
}

/// A copy of a list of types.
fn copied(types: &Vec<PinpType>) -> (r: Vec<PinpType>)
    ensures
        r@ == types@,
{
    let mut r: Vec<PinpType> = Vec::new();
    while r.len() < types.len()
        invariant
            r@.len() <= types@.len(),
            r@ == types@.take(r@.len() as int),
        decreases types@.len() - r@.len(),
    {
        r.push(types[r.len()]);
    }
    r
}

// ---------------------------------------------------------------------------
// What holds of every program
// ---------------------------------------------------------------------------

/// Widening is a partial order on types: every type widens to itself, widening twice is widening,
/// and two types that widen to each other are the same.
pub proof fn widening_is_a_partial_order(a: PinpType, b: PinpType, c: PinpType)
    ensures
        assignable_to(a, a),
        assignable_to(a, b) && assignable_to(b, c) ==> assignable_to(a, c),
        assignable_to(a, b) && assignable_to(b, a) ==> a == b,
{
}

/// The join of two types does not depend on their order, and there is one where one of the two
/// widens to the other. It is one of the two, both widen to it, and it widens to every other type
/// that both widen to.
pub proof fn join_is_the_wider_type(left: PinpType, right: PinpType)
    ensures
        joined(left, right) == joined(right, left),
        joined(left, right) matches Some(wider) ==> {
            &&& wider == left || wider == right
            &&& assignable_to(left, wider)
            &&& assignable_to(right, wider)
            &&& forall|other: PinpType|
                assignable_to(left, other) && assignable_to(right, other) ==> #[trigger] assignable_to(
                    wider,
                    other,
                )
        },
        joined(left, right) is None <==> !assignable_to(left, right) && !assignable_to(right, left),
        joined(left, right) is None ==> forall|other: PinpType|
            !(assignable_to(left, other) && assignable_to(right, other)),
{
}

/// A bare name's search ends at one of the frames, and no name is bound to `Void`.
pub open spec fn binds_values(st: SemaState) -> bool {
    &&& 0 <= st.base < st.scopes.len()
    &&& forall|i: int, sym: u32|
        0 <= i < st.scopes.len() && (#[trigger] st.scopes[i]).contains_key(sym)
            ==> #[trigger] st.scopes[i][sym] != PinpType::Void
}

/// `after` knows the same names and functions as `before`.
pub open spec fn same_names(before: SemaState, after: SemaState) -> bool {
    after.scopes == before.scopes && after.base == before.base && after.funcs == before.funcs
}

/// `after` knows what `before` does; new names are in the innermost frame only, and none of them is
/// bound to `Void`.
pub open spec fn more_names(before: SemaState, after: SemaState) -> bool {
    let top = before.scopes.len() - 1;
    &&& after.base == before.base
    &&& after.funcs == before.funcs
    &&& after.scopes.len() == before.scopes.len()
    &&& after.scopes.drop_last() == before.scopes.drop_last()
    &&& before.scopes[top].submap_of(after.scopes[top])
    &&& binds_values(after)
}

proof fn lemma_more_names_chain(a: SemaState, b: SemaState, c: SemaState)
    requires
        more_names(a, b),
        more_names(b, c),
    ensures
        more_names(a, c),
{
    let top = a.scopes.len() - 1;
    let (x, y, z) = (a.scopes[top], b.scopes[top], c.scopes[top]);
    assert(x.submap_of(y) && y.submap_of(z));
    assert forall|sym: u32| #[trigger]
        x.dom().contains(sym) implies #[trigger] z.dom().contains(sym) && x[sym] == z[sym] by {
        assert(y.dom().contains(sym));
        assert(x[sym] == y[sym]);
        assert(z.dom().contains(sym));
    }
}

pub proof fn lemma_expr_names(ast: AstView, st: SemaState, expr_id: ExprId, limit: int)
    requires
        ast.well_formed(),
        0 <= limit <= ast.nodes.len(),
        binds_values(st),
    ensures
        expr_type(ast, st, expr_id, limit).1 is Ok ==> same_names(
            st,
            expr_type(ast, st, expr_id, limit).0,
        ),
    decreases limit, 0int, ast, 0int,
{
    if expr_id.0 < limit {
        assert(node_ok(ast.nodes[expr_id.0 as int], ast.bounds_before(expr_id.0 as int)));
        lemma_node_names(ast, st, ast.nodes[expr_id.0 as int], expr_id.0 as int);
    }
}

proof fn lemma_node_names(ast: AstView, st: SemaState, node: NodeView, limit: int)
    requires
        ast.well_formed(),
        0 <= limit <= ast.nodes.len(),
        node_ok(node, ast.bounds_before(limit)),
        binds_values(st),
    ensures
        node_type(ast, st, node, limit).1 is Ok ==> same_names(
            st,
            node_type(ast, st, node, limit).0,
        ),
    decreases limit, 3int, ast, 0int,
{
    match node {
        NodeView::Unary(op, operand) => {
            lemma_expr_names(ast, st, operand, limit);
        },
        NodeView::Bin(op, lhs, rhs) => {
            lemma_expr_names(ast, st, lhs, limit);
            let (s1, left) = expr_type(ast, st, lhs, limit);
            if left is Ok {
                lemma_expr_names(ast, s1, rhs, limit);
            }
        },
        NodeView::Call(callee, args) => {
            lemma_args_names(ast, st, callee, args, st.funcs[callee.0].params, 0, limit);
            assert(built_in_type(ast, st, callee, args, limit) == built_in_type(
                ast,
                st,
                callee,
                args,
                limit,
            ));
            if args.len() == 1 {
                lemma_expr_names(ast, st, args[0], limit);
            }
        },
        NodeView::If(arms, else_block) => {
            lemma_arms_names(ast, st, arms, Seq::empty(), limit);
            let (s1, branches) = arms_checked(ast, st, arms, Seq::empty(), limit);
            if branches is Ok {
                if let Some(block) = else_block {
                    block_locals_do_not_escape(ast, s1, block, limit);
                }
            }
        },
        _ => {},
    }
}

proof fn lemma_args_names(
    ast: AstView,
    st: SemaState,
    callee: SymId,
    args: Seq<ExprId>,
    params: Seq<PinpType>,
    from: int,
    limit: int,
)
    requires
        ast.well_formed(),
        0 <= limit <= ast.nodes.len(),
        binds_values(st),
    ensures
        args_checked(ast, st, callee, args, params, from, limit).1 is Ok ==> same_names(
            st,
            args_checked(ast, st, callee, args, params, from, limit).0,
        ),
    decreases limit, 0int, ast, args.len() - from + 1,
{
    if 0 <= from < args.len() {
        lemma_expr_names(ast, st, args[from], limit);
        let (s1, t) = expr_type(ast, st, args[from], limit);
        if t is Ok {
            lemma_args_names(ast, s1, callee, args, params, from + 1, limit);
        }
    }
}

pub proof fn lemma_arms_names(
    ast: AstView,
    st: SemaState,
    arms: Seq<IfArmView>,
    done: Seq<Option<PinpType>>,
    limit: int,
)
    requires
        ast.well_formed(),
        0 <= limit <= ast.nodes.len(),
        forall|i: int|
            0 <= i < arms.len() ==> block_ok(
                (#[trigger] arms[i]).body,
                ast.bounds_before(limit),
            ),
        binds_values(st),
    ensures
        arms_checked(ast, st, arms, done, limit).1 is Ok ==> same_names(
            st,
            arms_checked(ast, st, arms, done, limit).0,
        ),
    decreases limit, 2int, ast, arms.len() - done.len(),
{
    if done.len() < arms.len() {
        let arm = arms[done.len() as int];
        lemma_expr_names(ast, st, arm.cond, limit);
        let (s1, held) = condition(ast, st, arm.cond, limit);
        if held is Ok {
            block_locals_do_not_escape(ast, s1, arm.body, limit);
            let (s2, branch) = block_type(ast, s1, arm.body, limit);
            if branch is Ok {
                lemma_arms_names(ast, s2, arms, done.push(branch->Ok_0), limit);
            }
        }
    }
}

/// A name first assigned inside a block is not known behind it: a block leaves the names and
/// functions that are known, and their types, as they were.
pub proof fn block_locals_do_not_escape(ast: AstView, st: SemaState, block: BlockView, limit: int)
    requires
        ast.well_formed(),
        0 <= limit <= ast.nodes.len(),
        block_ok(block, ast.bounds_before(limit)),
        binds_values(st),
    ensures
        block_type(ast, st, block, limit).1 is Ok ==> same_names(
            st,
            block_type(ast, st, block, limit).0,
        ),
    decreases limit, 1int, block, block.stmts.len() + 1,
{
    let inner = opened(st, Map::empty());
    assert(binds_values(inner));
    lemma_stmts_names(ast, inner, block, 0, limit);
    let (s1, r) = stmts_checked(ast, inner, block, 0, limit);
    if r is Ok {
        if let Some(result) = block.result {
            lemma_expr_names(ast, s1, result, limit);
        }
        assert(inner.scopes.drop_last() =~= st.scopes);
    }
}

pub proof fn lemma_stmts_names(ast: AstView, st: SemaState, block: BlockView, from: int, limit: int)
    requires
        ast.well_formed(),
        0 <= limit <= ast.nodes.len(),
        block_ok(block, ast.bounds_before(limit)),
        binds_values(st),
    ensures
        stmts_checked(ast, st, block, from, limit).1 is Ok ==> more_names(
            st,
            stmts_checked(ast, st, block, from, limit).0,
        ),
    decreases limit, 1int, block, block.stmts.len() - from,
{
    if 0 <= from < block.stmts.len() {
        statements_keep_bindings(ast, st, block.stmts[from], limit);
        let (s1, r) = stmt_checked(ast, st, block.stmts[from], limit);
        if r is Ok {
            lemma_stmts_names(ast, s1, block, from + 1, limit);
            let (s2, rest) = stmts_checked(ast, s1, block, from + 1, limit);
            if rest is Ok {
                lemma_more_names_chain(st, s1, s2);
            }
        }
    }
}

proof fn lemma_value_types(
    ast: AstView,
    st: SemaState,
    values: Seq<ExprId>,
    done: Seq<PinpType>,
    limit: int,
)
    requires
        ast.well_formed(),
        0 <= limit <= ast.nodes.len(),
        binds_values(st),
        forall|i: int| 0 <= i < done.len() ==> #[trigger] done[i] != PinpType::Void,
        done.len() <= values.len(),
    ensures
        value_types(ast, st, values, done, limit).1 matches Ok(types) ==> {
            &&& same_names(st, value_types(ast, st, values, done, limit).0)
            &&& types.len() == values.len()
            &&& forall|i: int| 0 <= i < types.len() ==> #[trigger] types[i] != PinpType::Void
        },
    decreases limit, 0int, ast, values.len() - done.len() + 1,
{
    if done.len() < values.len() {
        lemma_expr_names(ast, st, values[done.len() as int], limit);
        let (s1, t) = expr_type(ast, st, values[done.len() as int], limit);
        if t is Ok && t->Ok_0 != PinpType::Void {
            lemma_value_types(ast, s1, values, done.push(t->Ok_0), limit);
        }
    }
}

proof fn lemma_group_names(
    ast: AstView,
    st: SemaState,
    group: Seq<Place>,
    values: Seq<PinpType>,
    from: int,
)
    requires
        binds_values(st),
        group.len() <= values.len(),
        forall|i: int| 0 <= i < values.len() ==> #[trigger] values[i] != PinpType::Void,
    ensures
        group_assigned(ast, st, group, values, from).1 is Ok ==> more_names(
            st,
            group_assigned(ast, st, group, values, from).0,
        ),
    decreases group.len() - from,
{
    if 0 <= from < group.len() {
        let (s1, r) = place_assigned(ast, st, group[from], values[from]);
        if r is Ok {
            assert(values[from] != PinpType::Void);
            if let Place::Local(sym_id) = group[from] {
                if resolved(st, sym_id) is None {
                    lemma_bound(st, sym_id, values[from]);
                }
            }
            assert(more_names(st, s1));
            lemma_group_names(ast, s1, group, values, from + 1);
            let (s2, rest) = group_assigned(ast, s1, group, values, from + 1);
            if rest is Ok {
                lemma_more_names_chain(st, s1, s2);
            }
        }
    }
}

proof fn lemma_bound(st: SemaState, sym_id: SymId, value: PinpType)
    requires
        binds_values(st),
        resolved(st, sym_id) is None,
        value != PinpType::Void,
    ensures
        more_names(st, bound(st, sym_id, value)),
{
    let after = bound(st, sym_id, value);
    let top = st.scopes.len() - 1;
    assert(!st.scopes[top].contains_key(sym_id.0));
    assert(after.scopes.drop_last() =~= st.scopes.drop_last());
    assert(st.scopes[top].submap_of(after.scopes[top]));
    assert forall|i: int, sym: u32|
        0 <= i < after.scopes.len() && (
        #[trigger] after.scopes[i]).contains_key(sym) implies #[trigger] after.scopes[i][sym]
        != PinpType::Void by {
        if i < top {
            assert(after.scopes[i] == st.scopes[i]);
            assert(st.scopes[i].contains_key(sym));
        } else if sym != sym_id.0 {
            assert(st.scopes[i].contains_key(sym));
        }
    }
}

proof fn lemma_groups_names(
    ast: AstView,
    st: SemaState,
    groups: Seq<Seq<Place>>,
    values: Seq<PinpType>,
    from: int,
)
    requires
        binds_values(st),
        forall|i: int| 0 <= i < groups.len() ==> (#[trigger] groups[i]).len() <= values.len(),
        forall|i: int| 0 <= i < values.len() ==> #[trigger] values[i] != PinpType::Void,
    ensures
        groups_assigned(ast, st, groups, values, from).1 is Ok ==> more_names(
            st,
            groups_assigned(ast, st, groups, values, from).0,
        ),
    decreases groups.len() - from,
{
    if 0 <= from < groups.len() {
        lemma_group_names(ast, st, groups[from], values, 0);
        let (s1, r) = group_assigned(ast, st, groups[from], values, 0);
        if r is Ok {
            lemma_groups_names(ast, s1, groups, values, from + 1);
            let (s2, rest) = groups_assigned(ast, s1, groups, values, from + 1);
            if rest is Ok {
                lemma_more_names_chain(st, s1, s2);
            }
        }
    }
}

/// A statement leaves every binding there is, with its type, as it was: it can only add names, to
/// the innermost frame, and binds none of them to `Void`.
pub proof fn statements_keep_bindings(ast: AstView, st: SemaState, stmt: StmtView, limit: int)
    requires
        ast.well_formed(),
        0 <= limit <= ast.nodes.len(),
        binds_values(st),
        stmt_ok(stmt, ast.bounds_before(limit)),
    ensures
        stmt_checked(ast, st, stmt, limit).1 is Ok ==> more_names(
            st,
            stmt_checked(ast, st, stmt, limit).0,
        ),
    decreases limit, 1int, stmt, 0int,
{
    match stmt {
        StmtView::Expr(expr_id) => {
            lemma_expr_names(ast, st, expr_id, limit);
        },
        StmtView::Assign(targets, _, values) => {
            lemma_value_types(ast, st, values, Seq::empty(), limit);
            let (s1, r) = value_types(ast, st, values, Seq::empty(), limit);
            if let Ok(types) = r {
                lemma_groups_names(ast, s1, targets, types, 0);
            }
        },
        StmtView::While(cond, body) => {
            lemma_expr_names(ast, st, cond, limit);
            let (s1, r) = condition(ast, st, cond, limit);
            if r is Ok {
                block_locals_do_not_escape(ast, s1, body, limit);
            }
        },
        StmtView::Loop(body, cond, _) => {
            block_locals_do_not_escape(ast, st, body, limit);
            let (s1, r) = block_type(ast, st, body, limit);
            if r is Ok {
                lemma_expr_names(ast, s1, cond, limit);
            }
        },
        _ => {},
    }
}

pub proof fn lemma_params_frame(params: Seq<Param>, count: int)
    requires
        0 <= count <= params.len(),
        forall|i: int|
            0 <= i < count ==> (#[trigger] params[i]).param_type != PinpType::Void,
    ensures
        forall|sym: u32| #[trigger]
            params_frame(params, count).contains_key(sym) ==> params_frame(params, count)[sym]
                != PinpType::Void,
    decreases count,
{
    if count > 0 {
        lemma_params_frame(params, count - 1);
    }
}

pub proof fn lemma_first_void(params: Seq<Param>, from: int)
    requires
        0 <= from <= params.len(),
        first_void(params, from) >= params.len(),
    ensures
        forall|i: int|
            from <= i < params.len() ==> (#[trigger] params[i]).param_type != PinpType::Void,
    decreases params.len() - from,
{
    if from < params.len() {
        lemma_first_void(params, from + 1);
    }
}

/// A definition makes its own function known, and nothing else: its body is checked with the
/// functions that were known before it, so it does not know itself, and what the body binds is
/// forgotten.
pub proof fn definitions_add_their_own_function(ast: AstView, st: SemaState, func: FuncDefView)
    requires
        ast.well_formed(),
        func_ok(func, ast.bounds()),
        binds_values(st),
    ensures
        func_checked(ast, st, func).1 is Ok ==> {
            let after = func_checked(ast, st, func).0;
            let inside = SemaState {
                base: st.scopes.len() as int,
                ..opened(st, params_frame(func.params, func.params.len() as int))
            };
            &&& inside.funcs == st.funcs
            &&& stmts_checked(ast, inside, func.body, 0, ast.nodes.len() as int).0.funcs == st.funcs
            &&& after.scopes == st.scopes
            &&& after.base == st.base
            &&& after.funcs == st.funcs.insert(func.name.0, signature_of(func))
        },
{
    reveal(func_checked);
    let limit = ast.nodes.len() as int;
    if func_checked(ast, st, func).1 is Ok {
        lemma_first_void(func.params, 0);
        lemma_params_frame(func.params, func.params.len() as int);
        let frame = params_frame(func.params, func.params.len() as int);
        let inside = SemaState { base: st.scopes.len() as int, ..opened(st, frame) };
        assert(binds_values(inside));
        assert(ast.bounds_before(limit) == ast.bounds());
        lemma_stmts_names(ast, inside, func.body, 0, limit);
        let (s1, _) = stmts_checked(ast, inside, func.body, 0, limit);
        lemma_expr_names(ast, s1, func.body.result->0, limit);
        let (s2, _) = result_type(ast, s1, func.body.result, limit);
        assert(same_names(s1, s2));
        assert(closed_scope(s2).scopes =~= st.scopes) by {
            assert(s2.scopes.drop_last() =~= inside.scopes.drop_last());
            assert(inside.scopes.drop_last() =~= st.scopes);
        }
    }
}

/// Whether one of the items from `from` on defines a function of this name.
pub open spec fn defined_from(ast: AstView, from: int, name: u32) -> bool {
    exists|i: int|
        from <= i < ast.top_level.len() && (#[trigger] ast.top_level[i] matches TopLevelView::Func(
            func,
        ) && func.name.0 == name)
}

/// Behind the items of a program, the functions known are those known before them and those that
/// the items define.
pub proof fn programs_know_the_functions_they_define(ast: AstView, st: SemaState, from: int)
    requires
        ast.well_formed(),
        0 <= from <= ast.top_level.len(),
        binds_values(st),
    ensures
        items_checked(ast, st, from).1 is Ok ==> forall|name: u32| #[trigger]
            items_checked(ast, st, from).0.funcs.contains_key(name) <==> (st.funcs.contains_key(name)
                || defined_from(ast, from, name)),
    decreases ast.top_level.len() - from,
{
    if from < ast.top_level.len() && items_checked(ast, st, from).1 is Ok {
        let limit = ast.nodes.len() as int;
        assert(ast.bounds_before(limit) == ast.bounds());
        assert(top_level_ok(ast.top_level[from], ast.bounds()));
        let s1 = match ast.top_level[from] {
            TopLevelView::Stmt(stmt) => {
                statements_keep_bindings(ast, st, stmt, limit);
                stmt_checked(ast, st, stmt, limit).0
            },
            TopLevelView::Func(func) => {
                definitions_add_their_own_function(ast, st, func);
                func_checked(ast, st, func).0
            },
        };
        programs_know_the_functions_they_define(ast, s1, from + 1);
        assert forall|name: u32| #[trigger]
            items_checked(ast, st, from).0.funcs.contains_key(name) <==> (st.funcs.contains_key(name)
                || defined_from(ast, from, name)) by {
            let here = ast.top_level[from] matches TopLevelView::Func(func) && func.name.0 == name;
            assert(defined_from(ast, from, name) <==> here || defined_from(ast, from + 1, name)) by {
                if defined_from(ast, from, name) && !here {
                    let i = choose|i: int|
                        from <= i < ast.top_level.len() && (
                        #[trigger] ast.top_level[i] matches TopLevelView::Func(func)
                            && func.name.0 == name);
                    assert(i != from);
                }
            }
        }
    }
}

/// A call is refused unless its callee is known where it stands, so one to a function that is
/// defined further on is, and so is one to the function whose body it stands in.
pub proof fn calls_need_a_definition(
    ast: AstView,
    st: SemaState,
    callee: SymId,
    args: Seq<ExprId>,
    limit: int,
)
    requires
        !st.funcs.contains_key(callee.0),
        !is_built_in(name_text(ast, callee)),
    ensures
        node_type(ast, st, NodeView::Call(callee, args), limit).1 matches Err(
            SemaErrorView::UnknownSymbol(_),
        ),
{
}

/// Inside a function, a bare name never means a global: what the frames below the function's own
/// hold does not matter.
pub proof fn bare_names_do_not_reach_globals(st: SemaState, other: SemaState, sym_id: SymId)
    requires
        0 <= st.base <= st.scopes.len(),
        other.base == st.base,
        other.scopes.len() == st.scopes.len(),
        forall|i: int| st.base <= i < st.scopes.len() ==> st.scopes[i] == #[trigger] other.scopes[i],
    ensures
        resolved(st, sym_id) == resolved(other, sym_id),
{
    lemma_lookup_above(st, other, st.scopes.len() as int, sym_id.0);
}

proof fn lemma_lookup_above(st: SemaState, other: SemaState, top: int, sym: u32)
    requires
        0 <= st.base,
        top <= st.scopes.len(),
        other.base == st.base,
        other.scopes.len() == st.scopes.len(),
        forall|i: int| st.base <= i < st.scopes.len() ==> st.scopes[i] == #[trigger] other.scopes[i],
    ensures
        lookup(st.scopes, st.base, top, sym) == lookup(other.scopes, st.base, top, sym),
    decreases top - st.base,
{
    if top > st.base {
        assert(st.scopes[top - 1] == other.scopes[top - 1]);
        lemma_lookup_above(st, other, top - 1, sym);
    }
}

} // verus!
