//! What programs of numbers and strings mean.
//!
//! An expression means a number, and a statement a change of what the names hold; both are said here
//! in the terms of the language, without a word of how they are lowered. A string goes by a number,
//! and its content is kept apart: a name has its string for itself, and what nothing needs any more
//! is released. A block has names of its own, a function sees its parameters and its own names, and a
//! loop goes round while its condition holds.

use vstd::prelude::*;

use super::builder::Program;
use super::execution::{
    Floats, Strings, content_of, divides, string_made, string_released, text_of,
};
use super::lowering::{node_at, owns_str_result, program_owns_str, program_type, str_parts, type_of};
use super::meaning::{goes_on, in_range, truncated_quotient, truncated_remainder, truth, wrapped};
use crate::runtime::string::{decimal_bytes, ordered};
use crate::parser::ast::{
    BinOp, BlockView, ExprId, FStrSegment, FuncDefView, IfArmView, NodeView, Param, PinpType, Place,
    RangeKind, StmtView, SymId, TopLevelView, UnOp, symbol_of,
};

verus! {

// ---------------------------------------------------------------------------
// Names
// ---------------------------------------------------------------------------

/// What a name stands for, and the type it has.
pub struct Held {
    pub kind: PinpType,
    pub value: int,
}

/// What the names stand for: the globals, the names of each block that is open, innermost last,
/// whether a function is being run, the strings there are, and how floats are computed with.
#[verifier::ext_equal]
pub struct Env {
    pub globals: Map<u32, Held>,
    pub frames: Seq<Map<u32, Held>>,
    pub inside: bool,
    pub strings: Strings,
    pub floats: Floats,
}

/// A value of a type where one of another type is wanted: a whole number or a truth value becomes a
/// float where a float is wanted, and everything else stays what it is.
pub open spec fn carried(floats: Floats, from: PinpType, to: PinpType, x: int) -> int {
    match (from, to) {
        (PinpType::Int, PinpType::Float) => (floats.from_int)(x),
        (PinpType::Bool, PinpType::Float) => (floats.from_truth)(x),
        _ => x,
    }
}

/// The innermost of the frames below `top` that knows a name; -1 where none does.
pub open spec fn frame_of<V>(frames: Seq<Map<u32, V>>, top: int, sym: u32) -> int
    decreases top,
{
    if top <= 0 || top > frames.len() {
        -1
    } else if frames[top - 1].contains_key(sym) {
        top - 1
    } else {
        frame_of(frames, top - 1, sym)
    }
}

/// What a name stands for. One through `::` is a global; a bare one is the innermost, and a global
/// where no block knows it.
pub open spec fn name_held(env: Env, sym_id: SymId, global: bool) -> Option<Held> {
    let k = frame_of(env.frames, env.frames.len() as int, sym_id.0);
    if !global && k >= 0 {
        Some(env.frames[k][sym_id.0])
    } else if env.globals.contains_key(sym_id.0) {
        Some(env.globals[sym_id.0])
    } else {
        None
    }
}

pub open spec fn name_read(env: Env, sym_id: SymId, global: bool) -> Option<int> {
    match name_held(env, sym_id, global) {
        Some(held) => Some(held.value),
        None => None,
    }
}

/// What a name stands for that is about to be written; nothing, where it is new.
pub open spec fn name_replaced(env: Env, place: Place) -> Option<Held> {
    match place {
        Place::Global(sym_id) => name_held(env, sym_id, true),
        Place::Local(sym_id) => if env.inside && frame_of(
            env.frames,
            env.frames.len() as int,
            sym_id.0,
        ) < 0 {
            None
        } else {
            name_held(env, sym_id, false)
        },
    }
}

/// Whether a name can take a value of a type: one that is there takes strings or it takes numbers.
pub open spec fn suits(env: Env, place: Place, kind: PinpType) -> bool {
    name_replaced(env, place) matches Some(old) ==> (old.kind == PinpType::Str) == (kind
        == PinpType::Str)
}

/// A name given a value. A bare one is the innermost there is; where no block knows it, it is a
/// global outside of functions, and otherwise a new name of the innermost block. A name keeps the
/// type it has, and one that holds a float makes a float of what it is given.
pub open spec fn name_put(env: Env, place: Place, kind: PinpType, x: int) -> Option<Env> {
    let held = match name_replaced(env, place) {
        Some(old) => Held { kind: old.kind, value: carried(env.floats, kind, old.kind, x) },
        None => Held { kind, value: x },
    };
    if !suits(env, place, kind) {
        None
    } else {
        match place {
            Place::Global(sym_id) => if env.globals.contains_key(sym_id.0) {
                Some(Env { globals: env.globals.insert(sym_id.0, held), ..env })
            } else {
                None
            },
            Place::Local(sym_id) => {
                let sym = sym_id.0;
                let k = frame_of(env.frames, env.frames.len() as int, sym);
                if k >= 0 {
                    Some(
                        Env { frames: env.frames.update(k, env.frames[k].insert(sym, held)), ..env },
                    )
                } else if !env.inside && env.globals.contains_key(sym) {
                    Some(Env { globals: env.globals.insert(sym, held), ..env })
                } else if env.frames.len() > 0 {
                    let last = env.frames.len() - 1;
                    Some(
                        Env {
                            frames: env.frames.update(last, env.frames[last].insert(sym, held)),
                            ..env
                        },
                    )
                } else {
                    None
                }
            },
        }
    }
}

/// A name given a value. A string is given to names that are there: globals and parameters. The one
/// that the name had is released.
pub open spec fn name_written(env: Env, place: Place, kind: PinpType, x: int) -> Option<Env> {
    if kind == PinpType::Str {
        match name_replaced(env, place) {
            Some(old) => match string_released(env.strings, old.value) {
                Some(strings) => name_put(Env { strings, ..env }, place, kind, x),
                None => None,
            },
            None => None,
        }
    } else {
        name_put(env, place, kind, x)
    }
}

pub open spec fn opened(env: Env) -> Env {
    Env { frames: env.frames.push(Map::empty()), ..env }
}

pub open spec fn closed_again(env: Env) -> Env {
    if env.frames.len() > 0 {
        Env { frames: env.frames.drop_last(), ..env }
    } else {
        env
    }
}

/// The function of that name that is defined from the item at `from` on.
pub open spec fn function_from(p: Program, from: int, sym: u32) -> Option<FuncDefView>
    decreases p.ast.top_level.len() - from,
{
    if from < 0 || from >= p.ast.top_level.len() {
        None
    } else {
        match p.ast.top_level[from] {
            TopLevelView::Func(func) if func.name.0 == sym => Some(func),
            _ => function_from(p, from + 1, sym),
        }
    }
}

/// The first `count` parameters, each holding its number.
pub open spec fn params_bound(params: Seq<Param>, numbers: Seq<int>, count: int) -> Map<u32, Held>
    decreases count,
{
    if count <= 0 {
        Map::empty()
    } else {
        params_bound(params, numbers, count - 1).insert(
            params[count - 1].name.0,
            Held { kind: params[count - 1].param_type, value: numbers[count - 1] },
        )
    }
}

// ---------------------------------------------------------------------------
// Which programs
// ---------------------------------------------------------------------------

/// The types whose values are whole numbers: a truth value is zero or one.
pub open spec fn whole(t: PinpType) -> bool {
    t == PinpType::Int || t == PinpType::Bool
}

/// The types whose values are numbers.
pub open spec fn numeric(t: PinpType) -> bool {
    whole(t) || t == PinpType::Float
}

/// The types that a name can have here.
pub open spec fn plain(t: PinpType) -> bool {
    numeric(t) || t == PinpType::Str
}

/// Names that calls do not resolve.
pub open spec fn is_built_in(name: Seq<char>) -> bool {
    name == "identity"@ || name == "str"@ || name == "meminfo"@
}

/// The operators that compare.
pub open spec fn compares(operator: BinOp) -> bool {
    match operator {
        BinOp::Eq | BinOp::Ne | BinOp::Lt | BinOp::Gt | BinOp::Le | BinOp::Ge => true,
        _ => false,
    }
}

/// Whether an operator works on floats, given the types of its result and of its operands. A
/// division and a power always do.
pub open spec fn floating(operator: BinOp, t: PinpType, left: PinpType, right: PinpType) -> bool {
    match operator {
        BinOp::Add | BinOp::Sub | BinOp::Mul => t == PinpType::Float,
        BinOp::Div | BinOp::Pow => true,
        _ => compares(operator) && (left == PinpType::Float || right == PinpType::Float),
    }
}

/// Whether an expression is made of numbers, truth values and strings all the way down.
pub open spec fn counted(p: Program, expr_id: ExprId, limit: int) -> bool
    decreases limit, 0int, p, 0int,
{
    let id = expr_id.0 as int;
    let t = type_of(p, expr_id);
    &&& id < limit
    &&& plain(t) || t == PinpType::Void
    &&& match node_at(p, expr_id) {
        NodeView::Int(_) => whole(t),
        NodeView::Bool(_) => whole(t),
        NodeView::Float(_) => t == PinpType::Float,
        NodeView::Str(_) => t == PinpType::Str,
        NodeView::FStr(_) => t == PinpType::Str,
        NodeView::Var(_) => plain(t),
        NodeView::Global(_) => plain(t),
        NodeView::Unary(UnOp::Neg, a) => {
            ||| t == PinpType::Int && counted_value(p, a, id)
            ||| t == PinpType::Float && counted_number(p, a, id)
        },
        NodeView::Unary(UnOp::Not, a) => whole(t) && counted_value(p, a, id),
        NodeView::Bin(operator, a, b) => if t == PinpType::Str {
            operator == BinOp::Add && counted_parts(p, str_parts(p, a, id).push(b), id)
        } else if compares(operator) && type_of(p, a) == PinpType::Str {
            whole(t) && counted_string(p, a, id) && counted_string(p, b, id)
        } else if floating(operator, t, type_of(p, a), type_of(p, b)) {
            numeric(t) && counted_number(p, a, id) && counted_number(p, b, id)
        } else {
            whole(t) && counted_value(p, a, id) && counted_value(p, b, id)
        },
        NodeView::Membership(a, range) => whole(t) && counted_value(p, a, id) && counted_range(
            p,
            range,
            id,
        ),
        NodeView::Call(callee, args) => {
            let name = p.ast.names[callee.0 as int];
            if name == "str"@ && args.len() == 1 {
                t == PinpType::Str && counted_part(p, args[0], id)
            } else if name == "meminfo"@ && args.len() == 0 {
                t == PinpType::Void
            } else {
                &&& !is_built_in(name)
                &&& counted_parts(p, args, id)
                &&& function_from(p, 0, callee.0) matches Some(func) && func.params.len()
                    == args.len() && func.return_type == t && handed(p, args, func.params)
            }
        },
        NodeView::If(arms, else_block) => {
            &&& plain(t) ==> else_block is Some
            &&& counted_arms(p, t, arms, id)
            &&& else_block matches Some(block) ==> counted_branch(p, t, block, id)
        },
        _ => false,
    }
}

/// The same, of an expression that has a whole number.
pub open spec fn counted_value(p: Program, expr_id: ExprId, limit: int) -> bool
    decreases limit, 1int, p, 0int,
{
    counted(p, expr_id, limit) && whole(type_of(p, expr_id))
}

/// The same, of one that has a number.
pub open spec fn counted_number(p: Program, expr_id: ExprId, limit: int) -> bool
    decreases limit, 1int, p, 0int,
{
    counted(p, expr_id, limit) && numeric(type_of(p, expr_id))
}

/// The same, of one whose value is a string.
pub open spec fn counted_string(p: Program, expr_id: ExprId, limit: int) -> bool
    decreases limit, 1int, p, 0int,
{
    counted(p, expr_id, limit) && type_of(p, expr_id) == PinpType::Str
}

/// The same, of one that can be a part of a string.
pub open spec fn counted_part(p: Program, expr_id: ExprId, limit: int) -> bool
    decreases limit, 1int, p, 0int,
{
    counted(p, expr_id, limit) && plain(type_of(p, expr_id))
}

pub open spec fn counted_parts(p: Program, parts: Seq<ExprId>, limit: int) -> bool
    decreases limit, 2int, p, 0int,
{
    forall|k: int|
        #![trigger parts[k]]
        0 <= k < parts.len() ==> counted_part(p, parts[k], limit)
}

/// Whether strings are handed to the parameters that take strings.
pub open spec fn handed(p: Program, args: Seq<ExprId>, params: Seq<Param>) -> bool {
    forall|k: int|
        0 <= k < args.len() && k < params.len() ==> (type_of(p, #[trigger] args[k])
            == PinpType::Str) == (params[k].param_type == PinpType::Str)
}

/// A range whose bounds and step are whole numbers.
pub open spec fn counted_range(p: Program, range: ExprId, limit: int) -> bool
    decreases limit, 0int, p, 0int,
{
    let id = range.0 as int;
    &&& id < limit
    &&& node_at(p, range) matches NodeView::Range(start, stop, step, _) && {
        &&& counted_value(p, start, id)
        &&& counted_value(p, stop, id)
        &&& step matches Some(by) ==> counted_value(p, by, id)
    }
}

pub open spec fn counted_arms(
    p: Program,
    t: PinpType,
    arms: Seq<IfArmView>,
    limit: int,
) -> bool
    decreases limit, 11int, p, 0int,
{
    forall|k: int|
        #![trigger arms[k]]
        0 <= k < arms.len() ==> counted_value(p, arms[k].cond, limit) && counted_branch(
            p,
            t,
            arms[k].body,
            limit,
        )
}

/// A branch of an `if` of type `t`.
pub open spec fn counted_branch(p: Program, t: PinpType, block: BlockView, limit: int) -> bool
    decreases limit, 10int, block, 2int,
{
    if t == PinpType::Void {
        counted_block(p, block, limit)
    } else {
        &&& counted_stmts(p, block, limit)
        &&& block.result matches Some(result) && counted(p, result, limit) && plain(
            type_of(p, result),
        ) && (type_of(p, result) == PinpType::Str) == (t == PinpType::Str)
    }
}

/// The statements of a block.
pub open spec fn counted_stmts(p: Program, block: BlockView, limit: int) -> bool
    decreases limit, 10int, block, 0int,
{
    forall|k: int|
        #![trigger block.stmts[k]]
        0 <= k < block.stmts.len() ==> counted_stmt(p, block.stmts[k], limit)
}

pub open spec fn counted_block(p: Program, block: BlockView, limit: int) -> bool
    decreases limit, 10int, block, 1int,
{
    &&& counted_stmts(p, block, limit)
    &&& block.result matches Some(result) ==> counted(p, result, limit) && type_of(p, result)
        != PinpType::Str
}

/// Whether every string has a target in every group.
pub open spec fn evenly(p: Program, groups: Seq<Seq<Place>>, values: Seq<ExprId>) -> bool {
    forall|k: int|
        0 <= k < values.len() && type_of(p, #[trigger] values[k]) == PinpType::Str ==> {
            &&& groups.len() > 0
            &&& forall|g: int|
                0 <= g < groups.len() ==> (#[trigger] groups[g]).len() == values.len()
        }
}

/// Whether a statement computes with numbers and strings.
pub open spec fn counted_stmt(p: Program, stmt: StmtView, limit: int) -> bool
    decreases limit, 10int, stmt, 0int,
{
    match stmt {
        StmtView::Expr(expr_id) => counted(p, expr_id, limit),
        StmtView::Assign(groups, _, values) => values.len() > 0 && counted_parts(p, values, limit)
            && evenly(p, groups, values),
        StmtView::While(cond, body) => counted_value(p, cond, limit) && counted_block(
            p,
            body,
            limit,
        ),
        StmtView::Loop(body, cond, _) => counted_value(p, cond, limit) && counted_block(
            p,
            body,
            limit,
        ),
        StmtView::For(_, source, body) => counted_range(p, source, limit) && counted_block(
            p,
            body,
            limit,
        ),
        _ => false,
    }
}

/// Whether a function takes and returns numbers and strings, and computes with them. No two
/// parameters share a name, and a body ends in an expression.
pub open spec fn counted_function(p: Program, func: FuncDefView) -> bool {
    let limit = p.ast.nodes.len() as int;
    &&& plain(func.return_type) || func.return_type == PinpType::Void
    &&& forall|k: int|
        0 <= k < func.params.len() ==> plain((#[trigger] func.params[k]).param_type)
            && func.params[k].name.0 < p.ast.names.len()
    &&& forall|j: int, k: int|
        0 <= j < k < func.params.len() ==> (#[trigger] func.params[j]).name.0 != (
        #[trigger] func.params[k]).name.0
    &&& counted_stmts(p, func.body, limit)
    &&& func.body.result matches Some(result) && counted(p, result, limit) && (numeric(
        func.return_type,
    ) ==> numeric(type_of(p, result))) && ((func.return_type == PinpType::Str) == (type_of(p, result)
        == PinpType::Str))
}

/// Whether a program computes with numbers and strings. A string is a global's, a parameter's
/// or on the way from one expression to another.
pub open spec fn counted_program(p: Program) -> bool {
    &&& p.ast.names.len() <= u32::MAX
    &&& forall|i: int|
        0 <= i < p.ast.top_level.len() ==> match #[trigger] p.ast.top_level[i] {
            TopLevelView::Stmt(stmt) => counted_stmt(p, stmt, p.ast.nodes.len() as int),
            TopLevelView::Func(func) => counted_function(p, func),
        }
}

// ---------------------------------------------------------------------------
// What they mean
// ---------------------------------------------------------------------------

/// What something comes to: what the names stand for behind it, and its number, where it has one.
pub struct Outcome {
    pub env: Env,
    pub number: Option<int>,
}

pub open spec fn numbered(env: Env, number: Option<int>) -> Option<Outcome> {
    match number {
        Some(x) => Some(Outcome { env, number: Some(x) }),
        None => None,
    }
}

/// A string more.
pub open spec fn made(env: Env, text: Option<Seq<u8>>) -> Option<(Env, int)> {
    match string_made(env.strings, text) {
        Some(strings) => Some((Env { strings, ..env }, env.strings.next)),
        None => None,
    }
}

/// A string released.
pub open spec fn released(env: Env, string: int) -> Option<Env> {
    match string_released(env.strings, string) {
        Some(strings) => Some(Env { strings, ..env }),
        None => None,
    }
}

pub open spec fn valued(found: Option<(Env, int)>) -> Option<Outcome> {
    match found {
        Some((env, x)) => Some(Outcome { env, number: Some(x) }),
        None => None,
    }
}

/// A value as a string: a string is one already, a number is its digits, a truth value its word.
pub open spec fn rendered(env: Env, kind: PinpType, x: int) -> Option<(Env, int)> {
    match kind {
        PinpType::Str => Some((env, x)),
        PinpType::Int => made(env, Some(decimal_bytes(x))),
        PinpType::Float => made(env, Some((env.floats.digits)(x))),
        PinpType::Bool => made(
            env,
            Some(
                content_of(
                    if x != 0 {
                        "true"@
                    } else {
                        "false"@
                    },
                ),
            ),
        ),
        _ => None,
    }
}

/// A string to have for oneself: a copy, where it is a name's.
pub open spec fn own(env: Env, string: int, owned: bool) -> Option<(Env, int)> {
    if owned {
        Some((env, string))
    } else {
        made(env, text_of(env.strings, string))
    }
}

/// What `str` makes of a value.
pub open spec fn converted(p: Program, env: Env, arg: ExprId, x: int) -> Option<(Env, int)> {
    if type_of(p, arg) == PinpType::Str {
        own(env, x, owns_str_result(p, arg))
    } else {
        rendered(env, type_of(p, arg), x)
    }
}

/// A part of a join, and whether it is to be released behind the join.
pub struct Piece {
    pub string: int,
    pub owned: bool,
}

/// The contents of the first `count` parts, one behind the other.
pub open spec fn pieces_text(strings: Strings, pieces: Seq<Piece>, count: int) -> Option<Seq<u8>>
    decreases count,
{
    if count <= 0 {
        Some(Seq::empty())
    } else {
        match (
            pieces_text(strings, pieces, count - 1),
            text_of(strings, pieces[count - 1].string),
        ) {
            (Some(before), Some(text)) => Some(before + text),
            _ => None,
        }
    }
}

/// The parts from the one at `from` on released.
pub open spec fn pieces_released(env: Env, pieces: Seq<Piece>, from: int) -> Option<Env>
    decreases pieces.len() - from,
{
    if from < 0 || from >= pieces.len() {
        Some(env)
    } else if pieces[from].owned {
        match released(env, pieces[from].string) {
            Some(after) => pieces_released(after, pieces, from + 1),
            None => None,
        }
    } else {
        pieces_released(env, pieces, from + 1)
    }
}

/// The parts joined to one string.
pub open spec fn joined(env: Env, pieces: Seq<Piece>) -> Option<(Env, int)> {
    match made(env, pieces_text(env.strings, pieces, pieces.len() as int)) {
        Some((after, string)) => match pieces_released(after, pieces, 0) {
            Some(last) => Some((last, string)),
            None => None,
        },
        None => None,
    }
}

/// How two strings compare. The order is that of their bytes.
pub open spec fn strings_compared(operator: BinOp, a: Seq<u8>, b: Seq<u8>) -> int {
    let order = ordered(a, b, 0);
    truth(
        match operator {
            BinOp::Eq => a == b,
            BinOp::Ne => a != b,
            BinOp::Lt => order < 0,
            BinOp::Gt => order > 0,
            BinOp::Le => order <= 0,
            _ => order >= 0,
        },
    )
}

/// Two strings compared, and released where they are no name's.
pub open spec fn comparison(
    env: Env,
    operator: BinOp,
    left: Piece,
    right: Piece,
) -> Option<Outcome> {
    match (text_of(env.strings, left.string), text_of(env.strings, right.string)) {
        (Some(a), Some(b)) => match pieces_released(env, seq![left, right], 0) {
            Some(after) => Some(
                Outcome { env: after, number: Some(strings_compared(operator, a, b)) },
            ),
            None => None,
        },
        _ => None,
    }
}

/// The parts of an f-string behind those in `done`.
pub open spec fn segments_meant(
    p: Program,
    env: Env,
    segments: Seq<FStrSegment>,
    done: Seq<Piece>,
) -> Option<(Env, Seq<Piece>)>
    decreases segments.len() - done.len(),
{
    if done.len() >= segments.len() {
        Some((env, done))
    } else {
        match segments[done.len() as int] {
            FStrSegment::Literal(str_id) => match made(
                env,
                Some(content_of(p.ast.strings[str_id.0 as int])),
            ) {
                Some((after, string)) => segments_meant(
                    p,
                    after,
                    segments,
                    done.push(Piece { string, owned: true }),
                ),
                None => None,
            },
            FStrSegment::Interp(place) => match name_held(env, symbol_of(place), place is Global) {
                Some(held) => match rendered(env, held.kind, held.value) {
                    Some((after, string)) => segments_meant(
                        p,
                        after,
                        segments,
                        done.push(Piece { string, owned: held.kind != PinpType::Str }),
                    ),
                    None => None,
                },
                None => None,
            },
        }
    }
}

/// An f-string: its parts joined; one that is fixed text is that text.
pub open spec fn fstring_meant(p: Program, env: Env, segments: Seq<FStrSegment>) -> Option<
    (Env, int),
> {
    if segments.len() == 0 {
        made(env, Some(content_of(""@)))
    } else if segments.len() == 1 && segments[0] is Literal {
        made(env, Some(content_of(p.ast.strings[segments[0]->Literal_0.0 as int])))
    } else {
        match segments_meant(p, env, segments, Seq::empty()) {
            Some((after, pieces)) => joined(after, pieces),
            None => None,
        }
    }
}

/// What an operator makes of two numbers; nothing, for a division that cannot be made. Sums,
/// differences and products are kept in 64 bits, and a quotient is rounded towards zero.
pub open spec fn combined(operator: BinOp, x: int, y: int) -> Option<int> {
    match operator {
        BinOp::Add => Some(wrapped(x + y)),
        BinOp::Sub => Some(wrapped(x - y)),
        BinOp::Mul => Some(wrapped(x * y)),
        BinOp::IntDiv => if divides(x, y) {
            Some(wrapped(truncated_quotient(x, y)))
        } else {
            None
        },
        BinOp::Mod => if divides(x, y) {
            Some(truncated_remainder(x, y))
        } else {
            None
        },
        BinOp::Xor => Some(truth((x != 0) != (y != 0))),
        BinOp::Eq => Some(truth(x == y)),
        BinOp::Ne => Some(truth(x != y)),
        BinOp::Lt => Some(truth(x < y)),
        BinOp::Gt => Some(truth(x > y)),
        BinOp::Le => Some(truth(x <= y)),
        BinOp::Ge => Some(truth(x >= y)),
        _ => None,
    }
}

/// What an operator makes of two floats. A power of whole numbers is a whole number again.
pub open spec fn floats_combined(
    floats: Floats,
    operator: BinOp,
    t: PinpType,
    x: int,
    y: int,
) -> int {
    match operator {
        BinOp::Add => (floats.sum)(x, y),
        BinOp::Sub => (floats.difference)(x, y),
        BinOp::Mul => (floats.product)(x, y),
        BinOp::Div => (floats.quotient)(x, y),
        BinOp::Pow => if t == PinpType::Int {
            (floats.to_int)((floats.power)(x, y))
        } else {
            (floats.power)(x, y)
        },
        _ => match (floats.order)(x, y) {
            Some(order) => truth(
                match operator {
                    BinOp::Eq => order == 0,
                    BinOp::Ne => order != 0,
                    BinOp::Lt => order < 0,
                    BinOp::Gt => order > 0,
                    BinOp::Le => order <= 0,
                    _ => order >= 0,
                },
            ),
            None => 0,
        },
    }
}

/// What arguments are behind their way to the parameters.
pub open spec fn fitted(
    p: Program,
    floats: Floats,
    args: Seq<ExprId>,
    params: Seq<Param>,
    numbers: Seq<int>,
) -> Seq<int> {
    Seq::new(
        numbers.len(),
        |k: int| carried(floats, type_of(p, args[k]), params[k].param_type, numbers[k]),
    )
}

/// Whether the left operand of `and` or `or` settles its value.
pub open spec fn settles(operator: BinOp, x: int) -> bool {
    operator == BinOp::And && x == 0 || operator == BinOp::Or && x != 0
}

/// A range by its numbers.
pub struct Stretch {
    pub start: int,
    pub stop: int,
    pub step: int,
    pub inclusive: bool,
}

/// The step of a range that gives none: towards its end for the inclusive form.
pub open spec fn implied_step(kind: RangeKind, start: int, stop: int) -> int {
    match kind {
        RangeKind::UpExclusive => 1,
        RangeKind::DownExclusive => -1,
        RangeKind::Inclusive => if stop >= start {
            1
        } else {
            -1
        },
    }
}

/// Whether a range counts through a number; nothing, where the way to it does not fit in 64 bits.
pub open spec fn contained(x: int, range: Stretch) -> Option<int> {
    if i64::MIN <= x - range.start <= i64::MAX && divides(x - range.start, range.step) {
        Some(truth(in_range(x, range.start, range.stop, range.step, range.inclusive)))
    } else {
        None
    }
}

/// What an expression means; nothing, where a name stands for nothing, where a division on the way
/// cannot be made, where a range on the way does not advance, or where calls and loops on the way go
/// on for more than `fuel` rounds. It means nothing either where a string on the way is too long to
/// be one, or is read behind its release. The right operand of `and` and `or` counts only where the
/// left one does not settle the value.
pub open spec fn meant(p: Program, env: Env, expr_id: ExprId, limit: int, fuel: nat) -> Option<
    Outcome,
>
    decreases fuel, limit, 0int, p, 0int,
{
    let id = expr_id.0 as int;
    let t = type_of(p, expr_id);
    if id >= limit {
        None
    } else {
        match node_at(p, expr_id) {
            NodeView::Int(value) => Some(Outcome { env, number: Some(value as int) }),
            NodeView::Bool(value) => Some(Outcome { env, number: Some(truth(value)) }),
            NodeView::Float(digits) => Some(
                Outcome { env, number: Some((env.floats.literal)(digits)) },
            ),
            NodeView::Str(str_id) => valued(
                made(env, Some(content_of(p.ast.strings[str_id.0 as int]))),
            ),
            NodeView::FStr(segments) => valued(fstring_meant(p, env, segments)),
            NodeView::Var(sym_id) => numbered(env, name_read(env, sym_id, false)),
            NodeView::Global(sym_id) => numbered(env, name_read(env, sym_id, true)),
            NodeView::Unary(operator, a) => match number_meant(p, env, a, id, fuel) {
                Some((after, x)) => numbered(
                    after,
                    Some(
                        if operator == UnOp::Neg && t == PinpType::Float {
                            (after.floats.opposite)(carried(after.floats, type_of(p, a), t, x))
                        } else if operator == UnOp::Neg {
                            wrapped(-x)
                        } else {
                            truth(x == 0)
                        },
                    ),
                ),
                None => None,
            },
            NodeView::Bin(operator, a, b) => if t == PinpType::Str {
                match pieces_meant(
                    p,
                    env,
                    str_parts(p, a, id).push(b),
                    Seq::empty(),
                    id,
                    fuel,
                ) {
                    Some((after, pieces)) => valued(joined(after, pieces)),
                    None => None,
                }
            } else if compares(operator) && type_of(p, a) == PinpType::Str {
                match number_meant(p, env, a, id, fuel) {
                    Some((after, x)) => match number_meant(p, after, b, id, fuel) {
                        Some((last, y)) => comparison(
                            last,
                            operator,
                            Piece { string: x, owned: owns_str_result(p, a) },
                            Piece { string: y, owned: owns_str_result(p, b) },
                        ),
                        None => None,
                    },
                    None => None,
                }
            } else if floating(operator, t, type_of(p, a), type_of(p, b)) {
                match number_meant(p, env, a, id, fuel) {
                    Some((after, x)) => match number_meant(p, after, b, id, fuel) {
                        Some((last, y)) => numbered(
                            last,
                            Some(
                                floats_combined(
                                    last.floats,
                                    operator,
                                    t,
                                    carried(last.floats, type_of(p, a), PinpType::Float, x),
                                    carried(last.floats, type_of(p, b), PinpType::Float, y),
                                ),
                            ),
                        ),
                        None => None,
                    },
                    None => None,
                }
            } else {
                match number_meant(p, env, a, id, fuel) {
                    Some((after, x)) => if settles(operator, x) {
                        numbered(after, Some(truth(x != 0)))
                    } else {
                        match number_meant(p, after, b, id, fuel) {
                            Some((last, y)) => numbered(
                                last,
                                if operator == BinOp::And || operator == BinOp::Or {
                                    Some(y)
                                } else {
                                    combined(operator, x, y)
                                },
                            ),
                            None => None,
                        }
                    },
                    None => None,
                }
            },
            NodeView::Membership(a, range) => match number_meant(p, env, a, id, fuel) {
                Some((after, x)) => match range_meant(p, after, range, id, fuel) {
                    Some((last, bounds)) => numbered(last, contained(x, bounds)),
                    None => None,
                },
                None => None,
            },
            NodeView::Call(callee, args) => if p.ast.names[callee.0 as int] == "str"@ && args.len()
                == 1 {
                match number_meant(p, env, args[0], id, fuel) {
                    Some((after, x)) => valued(converted(p, after, args[0], x)),
                    None => None,
                }
            } else if p.ast.names[callee.0 as int] == "meminfo"@ && args.len() == 0 {
                Some(Outcome { env, number: None })
            } else {
                match numbers_meant(
                    p,
                    env,
                    args,
                    Seq::empty(),
                    id,
                    fuel,
                ) {
                    Some((after, numbers)) => match function_from(p, 0, callee.0) {
                        Some(func) => if fuel == 0 || func.params.len() != args.len() {
                            None
                        } else {
                            call_meant(
                                p,
                                after,
                                func,
                                fitted(p, after.floats, args, func.params, numbers),
                                (fuel - 1) as nat,
                            )
                        },
                        None => None,
                    },
                    None => None,
                }
            },
            NodeView::If(arms, else_block) => match arms_meant(
                p,
                env,
                t,
                arms,
                0,
                else_block,
                id,
                fuel,
            ) {
                Some(outcome) => if t == PinpType::Void {
                    Some(Outcome { env: outcome.env, number: None })
                } else {
                    numbered(outcome.env, outcome.number)
                },
                None => None,
            },
            _ => None,
        }
    }
}

/// The same, of an expression that has a number.
pub open spec fn number_meant(
    p: Program,
    env: Env,
    expr_id: ExprId,
    limit: int,
    fuel: nat,
) -> Option<(Env, int)>
    decreases fuel, limit, 1int, p, 0int,
{
    match meant(p, env, expr_id, limit, fuel) {
        Some(outcome) => match outcome.number {
            Some(x) => Some((outcome.env, x)),
            None => None,
        },
        None => None,
    }
}

/// The parts of a join behind those in `done`, each as a string.
pub open spec fn pieces_meant(
    p: Program,
    env: Env,
    parts: Seq<ExprId>,
    done: Seq<Piece>,
    limit: int,
    fuel: nat,
) -> Option<(Env, Seq<Piece>)>
    decreases fuel, limit, 3int, p, parts.len() - done.len(),
{
    if done.len() >= parts.len() {
        Some((env, done))
    } else {
        let part = parts[done.len() as int];
        let kind = type_of(p, part);
        match number_meant(p, env, part, limit, fuel) {
            Some((after, x)) => match rendered(after, kind, x) {
                Some((last, string)) => pieces_meant(
                    p,
                    last,
                    parts,
                    done.push(
                        Piece { string, owned: kind != PinpType::Str || owns_str_result(p, part) },
                    ),
                    limit,
                    fuel,
                ),
                None => None,
            },
            None => None,
        }
    }
}

/// Several expressions, one after the other, behind those whose numbers are `done`. A string among
/// them is no name's.
pub open spec fn numbers_meant(
    p: Program,
    env: Env,
    values: Seq<ExprId>,
    done: Seq<int>,
    limit: int,
    fuel: nat,
) -> Option<(Env, Seq<int>)>
    decreases fuel, limit, 3int, p, values.len() - done.len(),
{
    if done.len() >= values.len() {
        Some((env, done))
    } else {
        let value = values[done.len() as int];
        match number_meant(p, env, value, limit, fuel) {
            Some((after, x)) => {
                let owned = type_of(p, value) != PinpType::Str || owns_str_result(p, value);
                match own(after, x, owned) {
                    Some((last, y)) => numbers_meant(p, last, values, done.push(y), limit, fuel),
                    None => None,
                }
            },
            None => None,
        }
    }
}

/// The numbers of a range.
pub open spec fn range_meant(p: Program, env: Env, range: ExprId, limit: int, fuel: nat) -> Option<
    (Env, Stretch),
>
    decreases fuel, limit, 0int, p, 0int,
{
    let id = range.0 as int;
    if id >= limit {
        None
    } else {
        match node_at(p, range) {
            NodeView::Range(start, stop, step, kind) => match number_meant(
                p,
                env,
                start,
                id,
                fuel,
            ) {
                Some((e1, first)) => match number_meant(p, e1, stop, id, fuel) {
                    Some((e2, last)) => {
                        let given = match step {
                            Some(by) => number_meant(p, e2, by, id, fuel),
                            None => Some((e2, implied_step(kind, first, last))),
                        };
                        match given {
                            Some((e3, by)) => if by == 0 {
                                None
                            } else {
                                Some(
                                    (
                                        e3,
                                        Stretch {
                                            start: first,
                                            stop: last,
                                            step: by,
                                            inclusive: kind == RangeKind::Inclusive,
                                        },
                                    ),
                                )
                            },
                            None => None,
                        }
                    },
                    None => None,
                },
                None => None,
            },
            _ => None,
        }
    }
}

/// What a function hands back: nothing, a number, or a string that is no name's.
pub open spec fn result_meant(
    p: Program,
    func: FuncDefView,
    result: ExprId,
    outcome: Outcome,
) -> Option<Outcome> {
    match (func.return_type, outcome.number) {
        (PinpType::Void, _) => Some(Outcome { env: outcome.env, number: None }),
        (PinpType::Str, Some(x)) => valued(own(outcome.env, x, owns_str_result(p, result))),
        (to, Some(x)) => Some(
            Outcome {
                env: outcome.env,
                number: Some(carried(outcome.env.floats, type_of(p, result), to, x)),
            },
        ),
        _ => None,
    }
}

/// The strings of the innermost names from the one at `from` on released.
pub open spec fn scope_released(env: Env, symbols: int, from: int) -> Option<Env>
    decreases symbols - from,
{
    if from < 0 || from >= symbols {
        Some(env)
    } else {
        let sym = from as u32;
        let last = env.frames.len() - 1;
        if env.frames.len() > 0 && env.frames[last].contains_key(sym)
            && env.frames[last][sym].kind == PinpType::Str {
            match released(env, env.frames[last][sym].value) {
                Some(after) => scope_released(
                    Env {
                        frames: env.frames.update(
                            last,
                            env.frames[last].insert(
                                sym,
                                Held { kind: PinpType::Str, value: 0 },
                            ),
                        ),
                        ..after
                    },
                    symbols,
                    from + 1,
                ),
                None => None,
            }
        } else {
            scope_released(env, symbols, from + 1)
        }
    }
}

/// A function run on its arguments. It knows the globals, its parameters and its own names; what it
/// does to the globals stays. The strings it was handed are its own, and it releases them.
pub open spec fn call_meant(
    p: Program,
    env: Env,
    func: FuncDefView,
    numbers: Seq<int>,
    fuel: nat,
) -> Option<Outcome>
    decreases fuel, p.ast.nodes.len() as int, 12int, p, 0int,
{
    let limit = p.ast.nodes.len() as int;
    let start = Env {
        globals: env.globals,
        frames: seq![params_bound(func.params, numbers, func.params.len() as int)],
        inside: true,
        strings: env.strings,
        floats: env.floats,
    };
    match stmts_meant(p, start, func.body, 0, limit, fuel) {
        Some(after) => match func.body.result {
            Some(result) => match meant(p, after, result, limit, fuel) {
                Some(outcome) => match result_meant(p, func, result, outcome) {
                    Some(ended) => match scope_released(ended.env, p.ast.names.len() as int, 0) {
                        Some(left) => Some(
                            Outcome {
                                env: Env { globals: left.globals, strings: left.strings, ..env },
                                number: ended.number,
                            },
                        ),
                        None => None,
                    },
                    None => None,
                },
                None => None,
            },
            None => None,
        },
        None => None,
    }
}

/// What a branch comes to where an `if` of type `t` has it for its value.
pub open spec fn branch_value(
    p: Program,
    t: PinpType,
    block: BlockView,
    outcome: Option<Outcome>,
) -> Option<Outcome> {
    match (outcome, block.result) {
        (Some(found), Some(result)) => match found.number {
            Some(x) => Some(
                Outcome {
                    env: found.env,
                    number: Some(carried(found.env.floats, type_of(p, result), t, x)),
                },
            ),
            None => outcome,
        },
        _ => outcome,
    }
}

/// The branch of the first arm from the one at `from` on whose condition holds, or the last branch.
pub open spec fn arms_meant(
    p: Program,
    env: Env,
    t: PinpType,
    arms: Seq<IfArmView>,
    from: int,
    else_block: Option<BlockView>,
    limit: int,
    fuel: nat,
) -> Option<Outcome>
    decreases fuel, limit, 11int, p, arms.len() - from,
{
    if from < 0 || from >= arms.len() {
        match else_block {
            Some(block) => branch_value(p, t, block, block_meant(p, env, block, limit, fuel)),
            None => Some(Outcome { env, number: None }),
        }
    } else {
        match number_meant(p, env, arms[from].cond, limit, fuel) {
            Some((after, x)) => if x != 0 {
                branch_value(
                    p,
                    t,
                    arms[from].body,
                    block_meant(p, after, arms[from].body, limit, fuel),
                )
            } else {
                arms_meant(p, after, t, arms, from + 1, else_block, limit, fuel)
            },
            None => None,
        }
    }
}

/// What a block ends in. A string among these is no name's.
pub open spec fn kept_value(p: Program, result: ExprId, outcome: Outcome) -> Option<Outcome> {
    match outcome.number {
        Some(x) => if type_of(p, result) == PinpType::Str {
            valued(own(outcome.env, x, owns_str_result(p, result)))
        } else {
            Some(outcome)
        },
        None => Some(outcome),
    }
}

/// The statements of a block with names of its own, then what it ends in.
pub open spec fn block_meant(p: Program, env: Env, block: BlockView, limit: int, fuel: nat) -> Option<
    Outcome,
>
    decreases fuel, limit, 10int, block, block.stmts.len() + 2,
{
    match stmts_meant(p, opened(env), block, 0, limit, fuel) {
        Some(after) => match block.result {
            Some(result) => match meant(p, after, result, limit, fuel) {
                Some(outcome) => match kept_value(p, result, outcome) {
                    Some(last) => Some(
                        Outcome { env: closed_again(last.env), number: last.number },
                    ),
                    None => None,
                },
                None => None,
            },
            None => Some(Outcome { env: closed_again(after), number: None }),
        },
        None => None,
    }
}

/// The string that a statement comes to released, where it is no name's.
pub open spec fn discarded(p: Program, stmt: StmtView, outcome: Outcome) -> Option<Env> {
    match (stmt, outcome.number) {
        (StmtView::Expr(expr_id), Some(x)) => if type_of(p, expr_id) == PinpType::Str
            && owns_str_result(p, expr_id) {
            released(outcome.env, x)
        } else {
            Some(outcome.env)
        },
        _ => Some(outcome.env),
    }
}

/// The statements of a block from the one at `from` on.
pub open spec fn stmts_meant(
    p: Program,
    env: Env,
    block: BlockView,
    from: int,
    limit: int,
    fuel: nat,
) -> Option<Env>
    decreases fuel, limit, 10int, block, block.stmts.len() - from,
{
    if from < 0 || from >= block.stmts.len() {
        Some(env)
    } else {
        match stmt_meant(p, env, block.stmts[from], limit, fuel) {
            Some(outcome) => match discarded(p, block.stmts[from], outcome) {
                Some(after) => stmts_meant(p, after, block, from + 1, limit, fuel),
                None => None,
            },
            None => None,
        }
    }
}

/// A statement. Every value of an assignment is worked out before any name is given one; its number
/// is the last of them.
pub open spec fn stmt_meant(p: Program, env: Env, stmt: StmtView, limit: int, fuel: nat) -> Option<
    Outcome,
>
    decreases fuel, limit, 10int, stmt, 0int,
{
    match stmt {
        StmtView::Expr(expr_id) => meant(p, env, expr_id, limit, fuel),
        StmtView::Assign(groups, _, values) => match numbers_meant(
            p,
            env,
            values,
            Seq::empty(),
            limit,
            fuel,
        ) {
            Some((after, numbers)) => match groups_written(p, after, groups, values, numbers, 0) {
                Some(last) => Some(Outcome { env: last, number: Some(numbers.last()) }),
                None => None,
            },
            None => None,
        },
        StmtView::While(cond, body) => if fuel == 0 {
            None
        } else {
            match number_meant(p, env, cond, limit, fuel) {
                Some((after, x)) => if x == 0 {
                    Some(Outcome { env: after, number: None })
                } else {
                    match block_meant(p, after, body, limit, fuel) {
                        Some(outcome) => stmt_meant(
                            p,
                            outcome.env,
                            stmt,
                            limit,
                            (fuel - 1) as nat,
                        ),
                        None => None,
                    }
                },
                None => None,
            }
        },
        StmtView::Loop(body, cond, until) => if fuel == 0 {
            None
        } else {
            match block_meant(p, env, body, limit, fuel) {
                Some(outcome) => match number_meant(p, outcome.env, cond, limit, fuel) {
                    Some((after, x)) => if (x != 0) == until {
                        Some(Outcome { env: after, number: None })
                    } else {
                        stmt_meant(p, after, stmt, limit, (fuel - 1) as nat)
                    },
                    None => None,
                },
                None => None,
            }
        },
        StmtView::For(var, source, body) => match range_meant(p, env, source, limit, fuel) {
            Some((after, range)) => match rounds_meant(
                p,
                after,
                var,
                range.start,
                range,
                body,
                limit,
                fuel,
            ) {
                Some(last) => Some(Outcome { env: last, number: None }),
                None => None,
            },
            None => None,
        },
        _ => None,
    }
}

/// The rounds of a `for` from the one at `current` on. The loop's name is known around the body, and
/// the next round goes on from what it stands for behind the body.
pub open spec fn rounds_meant(
    p: Program,
    env: Env,
    var: SymId,
    current: int,
    range: Stretch,
    body: BlockView,
    limit: int,
    fuel: nat,
) -> Option<Env>
    decreases fuel, limit, 10int, body, body.stmts.len() + 4,
{
    if !goes_on(current, range.stop, range.inclusive, range.step > 0) {
        Some(env)
    } else if fuel == 0 {
        None
    } else {
        let held = Held { kind: PinpType::Int, value: current };
        let around = Env { frames: env.frames.push(map![var.0 => held]), ..env };
        match block_meant(p, around, body, limit, fuel) {
            Some(outcome) => rounds_meant(
                p,
                closed_again(outcome.env),
                var,
                wrapped(outcome.env.frames.last()[var.0].value + range.step),
                range,
                body,
                limit,
                (fuel - 1) as nat,
            ),
            None => None,
        }
    }
}

/// The names of a group from the one at `from` on, each given its value. The names of the first
/// group take a string over, others get a copy.
pub open spec fn group_written(
    p: Program,
    env: Env,
    group: Seq<Place>,
    values: Seq<ExprId>,
    numbers: Seq<int>,
    first: bool,
    from: int,
) -> Option<Env>
    decreases group.len() - from,
{
    if from < 0 || from >= group.len() || from >= numbers.len() {
        Some(env)
    } else {
        let kind = type_of(p, values[from]);
        match own(env, numbers[from], first || kind != PinpType::Str) {
            Some((after, x)) => match name_written(after, group[from], kind, x) {
                Some(last) => group_written(p, last, group, values, numbers, first, from + 1),
                None => None,
            },
            None => None,
        }
    }
}

pub open spec fn groups_written(
    p: Program,
    env: Env,
    groups: Seq<Seq<Place>>,
    values: Seq<ExprId>,
    numbers: Seq<int>,
    from: int,
) -> Option<Env>
    decreases groups.len() - from,
{
    if from < 0 || from >= groups.len() {
        Some(env)
    } else {
        match group_written(p, env, groups[from], values, numbers, from == 0, 0) {
            Some(after) => groups_written(p, after, groups, values, numbers, from + 1),
            None => None,
        }
    }
}

/// The statements of a program from the item at `from` on, and the number of the last item.
/// Definitions are passed over: a function runs where it is called.
pub open spec fn items_meant(p: Program, env: Env, from: int, fuel: nat) -> Option<Outcome>
    decreases p.ast.top_level.len() - from,
{
    if from < 0 || from >= p.ast.top_level.len() {
        Some(Outcome { env, number: None })
    } else {
        match p.ast.top_level[from] {
            TopLevelView::Func(_) => items_meant(p, env, from + 1, fuel),
            TopLevelView::Stmt(stmt) => match stmt_meant(
                p,
                env,
                stmt,
                p.ast.nodes.len() as int,
                fuel,
            ) {
                Some(outcome) => if from == p.ast.top_level.len() - 1 {
                    Some(outcome)
                } else {
                    match discarded(p, stmt, outcome) {
                        Some(after) => items_meant(p, after, from + 1, fuel),
                        None => None,
                    }
                },
                None => None,
            },
        }
    }
}


/// The strings of the globals from the one at `from` on released.
pub open spec fn globals_released(env: Env, symbols: int, from: int) -> Option<Env>
    decreases symbols - from,
{
    if from < 0 || from >= symbols {
        Some(env)
    } else {
        let sym = from as u32;
        if env.globals.contains_key(sym) && env.globals[sym].kind == PinpType::Str {
            match released(env, env.globals[sym].value) {
                Some(after) => globals_released(
                    Env {
                        globals: env.globals.insert(
                            sym,
                            Held { kind: PinpType::Str, value: 0 },
                        ),
                        ..after
                    },
                    symbols,
                    from + 1,
                ),
                None => None,
            }
        } else {
            globals_released(env, symbols, from + 1)
        }
    }
}

/// The value of a program, which is no name's.
pub open spec fn value_meant(p: Program, outcome: Outcome) -> Option<Outcome> {
    match outcome.number {
        Some(x) => if program_type(p) == PinpType::Str {
            valued(own(outcome.env, x, program_owns_str(p)))
        } else {
            Some(outcome)
        },
        None => Some(outcome),
    }
}

/// A whole program: its statements, its value, and then the strings of the names released.
pub open spec fn program_meant(p: Program, env: Env, fuel: nat) -> Option<Outcome> {
    match items_meant(p, env, 0, fuel) {
        Some(outcome) => match value_meant(p, outcome) {
            Some(last) => match scope_released(last.env, p.ast.names.len() as int, 0) {
                Some(left) => match globals_released(left, p.ast.names.len() as int, 0) {
                    Some(end) => Some(Outcome { env: end, number: last.number }),
                    None => None,
                },
                None => None,
            },
            None => None,
        },
        None => None,
    }
}
} // verus!
