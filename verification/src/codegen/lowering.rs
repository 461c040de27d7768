//! What every construct of a program is lowered to, as functions of the state before it.
//!
//! An expression is lowered in terms of the expressions before it in the arena: `limit` bounds the
//! expressions that may be named. Every function here threads a [`Lowering`] through its steps in
//! the order in which they are emitted.

use vstd::prelude::*;

use super::builder::{
    CodegenError, Lowering, Program, Slot, block_appended, body_begun, callable, called, emitted,
    entered, failed, float_added, function_added, global_added, global_slot, innermost_slot,
    insert_block, name_bound, next_block, next_float, next_function, next_text, next_value,
    nothing_lowered, op, positioned, scope_popped, scope_pushed, signature, text_added,
};
use super::emit::{
    DimSlice, advance_range_var, begin_counted_loop, begin_range_slots, bounds_check_and_gep,
    bounds_check_and_gep_2d, build_element_ptr, build_pinp_alloc, build_pow, build_range,
    byte_count, combine, copy_column, copy_element, copy_row, default_step, end_counted_loop,
    extract_range, guard_zero_step, index2d_submatrix_code, load_counter, load_var, member_test,
    product, promote, range_continue, resolve_place, storable, sum, alloca_at_entry, var_slot,
};
use super::ir::{
    Callee, Cast, FloatOp, FloatPredicate, FunctionName, InstView, IntOp, IntPredicate, IrType,
    ModuleView, Op, RuntimeFn, Value, element_ir_type, element_type,
};
use crate::parser::ast::{
    ArrayElementType, BinOp, BlockView, ExprId, FStrSegment, FuncDefView, IfArmView, NodeView,
    Param, PinpType, Place, RangeKind, StmtView, SymId, TopLevelView, UnOp, symbol_of,
};

verus! {

// ---------------------------------------------------------------------------
// Operators
// ---------------------------------------------------------------------------

/// The float operation behind `+`, `-` and `*`.
#[verifier::allow_in_spec]
pub fn float_op(operator: BinOp) -> (r: FloatOp)
    returns
        (match operator {
            BinOp::Add => FloatOp::Add,
            BinOp::Sub => FloatOp::Sub,
            _ => FloatOp::Mul,
        }),
{
    match operator {
        BinOp::Add => FloatOp::Add,
        BinOp::Sub => FloatOp::Sub,
        _ => FloatOp::Mul,
    }
}

/// The integer operation behind `+`, `-`, `*`, `div` and `mod`.
#[verifier::allow_in_spec]
pub fn int_op(operator: BinOp) -> (r: IntOp)
    returns
        (match operator {
            BinOp::Add => IntOp::Add,
            BinOp::Sub => IntOp::Sub,
            BinOp::IntDiv => IntOp::SignedDiv,
            BinOp::Mod => IntOp::SignedRem,
            _ => IntOp::Mul,
        }),
{
    match operator {
        BinOp::Add => IntOp::Add,
        BinOp::Sub => IntOp::Sub,
        BinOp::IntDiv => IntOp::SignedDiv,
        BinOp::Mod => IntOp::SignedRem,
        _ => IntOp::Mul,
    }
}

/// The integer comparison behind a comparison operator.
#[verifier::allow_in_spec]
pub fn int_predicate(operator: BinOp) -> (r: IntPredicate)
    returns
        (match operator {
            BinOp::Eq => IntPredicate::Eq,
            BinOp::Ne => IntPredicate::Ne,
            BinOp::Lt => IntPredicate::Slt,
            BinOp::Gt => IntPredicate::Sgt,
            BinOp::Le => IntPredicate::Sle,
            _ => IntPredicate::Sge,
        }),
{
    match operator {
        BinOp::Eq => IntPredicate::Eq,
        BinOp::Ne => IntPredicate::Ne,
        BinOp::Lt => IntPredicate::Slt,
        BinOp::Gt => IntPredicate::Sgt,
        BinOp::Le => IntPredicate::Sle,
        _ => IntPredicate::Sge,
    }
}

/// The float comparison behind a comparison operator; none holds of a NaN.
#[verifier::allow_in_spec]
pub fn float_predicate(operator: BinOp) -> (r: FloatPredicate)
    returns
        (match operator {
            BinOp::Eq => FloatPredicate::Oeq,
            BinOp::Ne => FloatPredicate::One,
            BinOp::Lt => FloatPredicate::Olt,
            BinOp::Gt => FloatPredicate::Ogt,
            BinOp::Le => FloatPredicate::Ole,
            _ => FloatPredicate::Oge,
        }),
{
    match operator {
        BinOp::Eq => FloatPredicate::Oeq,
        BinOp::Ne => FloatPredicate::One,
        BinOp::Lt => FloatPredicate::Olt,
        BinOp::Gt => FloatPredicate::Ogt,
        BinOp::Le => FloatPredicate::Ole,
        _ => FloatPredicate::Oge,
    }
}

/// The runtime function that answers a comparison of strings.
#[verifier::allow_in_spec]
pub fn str_relation(operator: BinOp) -> (r: RuntimeFn)
    returns
        (match operator {
            BinOp::Eq => RuntimeFn::StrEq,
            BinOp::Ne => RuntimeFn::StrEq,
            _ => RuntimeFn::StrCmp,
        }),
{
    match operator {
        BinOp::Eq => RuntimeFn::StrEq,
        BinOp::Ne => RuntimeFn::StrEq,
        _ => RuntimeFn::StrCmp,
    }
}

/// How the runtime's answer compares with zero when the relation holds. Equality is reported
/// directly, so `==` is "the answer is not zero".
#[verifier::allow_in_spec]
pub fn str_predicate(operator: BinOp) -> (r: IntPredicate)
    returns
        (match operator {
            BinOp::Eq => IntPredicate::Ne,
            BinOp::Ne => IntPredicate::Eq,
            BinOp::Lt => IntPredicate::Slt,
            BinOp::Gt => IntPredicate::Sgt,
            BinOp::Le => IntPredicate::Sle,
            _ => IntPredicate::Sge,
        }),
{
    match operator {
        BinOp::Eq => IntPredicate::Ne,
        BinOp::Ne => IntPredicate::Eq,
        BinOp::Lt => IntPredicate::Slt,
        BinOp::Gt => IntPredicate::Sgt,
        BinOp::Le => IntPredicate::Sle,
        _ => IntPredicate::Sge,
    }
}

// ---------------------------------------------------------------------------
// What the program says
// ---------------------------------------------------------------------------

/// A built-in pseudo-member.
#[derive(Debug, Clone, Copy, PartialEq, Eq, Structural)]
pub enum BuiltinMember {
    Len,
    Ndim,
    Rows,
    Cols,
}

/// One selector of a two-dimensional index: a single index, checked at run time, or a slice known
/// beforehand.
#[derive(Debug, Clone, Copy, PartialEq, Eq, Structural)]
pub enum DimSel {
    Scalar,
    Slice(DimSlice),
}

/// A range whose bounds are literals.
#[derive(Debug, Clone, Copy, PartialEq, Eq, Structural)]
pub struct LiteralRange {
    pub start: i64,
    pub stop: i64,
    pub kind: RangeKind,
}

/// One operand of a join, and whether the join has to free it.
#[derive(Debug, Clone, Copy, PartialEq, Eq, Structural)]
pub struct StrPart {
    pub value: Value,
    pub owned: bool,
}

/// The type of an expression.
pub open spec fn type_of(p: Program, expr_id: ExprId) -> PinpType {
    p.types[expr_id.0 as int]
}

pub open spec fn node_at(p: Program, expr_id: ExprId) -> NodeView {
    p.ast.nodes[expr_id.0 as int]
}

/// Whether an expression yields a string that its consumer has to release. Reading a variable hands
/// out the binding's own; everything else makes a new one.
pub open spec fn owns_str_result(p: Program, expr_id: ExprId) -> bool {
    !(node_at(p, expr_id) is Var) && !(node_at(p, expr_id) is Global)
}

pub open spec fn is_range(p: Program, expr_id: ExprId) -> bool {
    node_at(p, expr_id) is Range
}

/// A range expression with literal bounds.
pub open spec fn literal_range(p: Program, expr_id: ExprId) -> Option<LiteralRange> {
    match node_at(p, expr_id) {
        NodeView::Range(start_id, stop_id, _, kind) => match node_at(p, start_id) {
            NodeView::Int(start) => match node_at(p, stop_id) {
                NodeView::Int(stop) => Some(LiteralRange { start, stop, kind }),
                _ => None,
            },
            _ => None,
        },
        _ => None,
    }
}

/// What a selector takes of a dimension; `:` takes all of it. `None` for a slice that no checked
/// program has.
pub open spec fn selector(p: Program, expr_id: ExprId, dimension: usize) -> Option<DimSel> {
    match node_at(p, expr_id) {
        NodeView::FullExtent => Some(DimSel::Slice(DimSlice { start: 0, len: dimension })),
        NodeView::Range(_, _, _, _) => match literal_range(p, expr_id) {
            None => None,
            Some(literal) => {
                let start = literal.start as usize;
                let stop = literal.stop as usize;
                if stop < start {
                    None
                } else {
                    match literal.kind {
                        RangeKind::Inclusive => if stop - start < usize::MAX {
                            Some(
                                DimSel::Slice(DimSlice { start, len: (stop - start + 1) as usize }),
                            )
                        } else {
                            None
                        },
                        RangeKind::UpExclusive => Some(
                            DimSel::Slice(DimSlice { start, len: (stop - start) as usize }),
                        ),
                        RangeKind::DownExclusive => None,
                    }
                }
            },
        },
        _ => Some(DimSel::Scalar),
    }
}

/// The built-in member a name stands for.
pub open spec fn builtin_member(p: Program, member: SymId) -> Option<BuiltinMember> {
    let name = p.ast.names[member.0 as int];
    if name == "len"@ {
        Some(BuiltinMember::Len)
    } else if name == "ndim"@ {
        Some(BuiltinMember::Ndim)
    } else if name == "rows"@ {
        Some(BuiltinMember::Rows)
    } else if name == "cols"@ {
        Some(BuiltinMember::Cols)
    } else {
        None
    }
}

/// The type of the expression a block ends in; `Void` when it ends in none.
pub open spec fn block_result_type(p: Program, block: BlockView) -> PinpType {
    match block.result {
        None => PinpType::Void,
        Some(expr_id) => type_of(p, expr_id),
    }
}

/// Where a slice to be filled starts, and how many elements it has.
pub open spec fn slice_bounds(s: Lowering, p: Program, range: ExprId) -> (Lowering, (i64, i64)) {
    match literal_range(p, range) {
        Some(literal) => {
            let count = match literal.kind {
                RangeKind::Inclusive => Some(literal.stop - literal.start + 1),
                RangeKind::UpExclusive => Some(literal.stop - literal.start),
                RangeKind::DownExclusive => None,
            };
            match count {
                Some(
                    n,
                ) => if i64::MIN <= literal.stop - literal.start <= i64::MAX && n <= i64::MAX {
                    (s, (literal.start, n as i64))
                } else {
                    (failed(s, CodegenError::Malformed), (0, 0))
                },
                None => (failed(s, CodegenError::Malformed), (0, 0)),
            }
        },
        None => (failed(s, CodegenError::Malformed), (0, 0)),
    }
}

// ---------------------------------------------------------------------------
// Strings
// ---------------------------------------------------------------------------

/// Writes a string value to a stack slot so that it can be passed to the runtime by address.
pub open spec fn spill_str(s: Lowering, value: Value) -> (Lowering, Value)
{
    let (s1, slot) = alloca_at_entry(s, PinpType::Str);
    let s2 = op(s1, Op::Store(slot, value));
    (s2, slot)
}

/// Releases the string a slot holds and leaves the empty string in it.
pub open spec fn free_str_slot(s: Lowering, slot: Value) -> Lowering
{
    let s1 = called(s, Callee::Runtime(RuntimeFn::StrFree), seq![slot]);
    s1
}

/// Releases the storage behind a string value, by way of a slot.
pub open spec fn free_str_value(s: Lowering, value: Value) -> Lowering
{
    let (s1, slot) = spill_str(s, value);
    let s2 = free_str_slot(s1, slot);
    s2
}

/// A string from fixed text.
pub open spec fn build_str_constant(s: Lowering, content: Seq<char>) -> (Lowering, Value)
{
    let text = next_text(s);
    let s1 = text_added(s, content);
    let value = next_value(s1);
    let s2 = called(s1, Callee::Runtime(RuntimeFn::StrFromCstr), seq![text]);
    (s2, value)
}

/// Renders a value as a string. A value that is a string is handed back as it is, so the result
/// carries its operand's ownership. A bool has only two renderings, a choice between two constants.
pub open spec fn str_from_value(
    s: Lowering,
    value: Value,
    value_type: PinpType,
) -> (Lowering, Value)
{
    let (s1, rendered) = match value_type {
        PinpType::Str => {
            (s, value)
        },
        PinpType::Int => {
            let digits = next_value(s);
            let s2 = called(s, Callee::Runtime(RuntimeFn::StrFromInt), seq![value]);
            (s2, digits)
        },
        PinpType::Float => {
            let digits = next_value(s);
            let s3 = called(s, Callee::Runtime(RuntimeFn::StrFromFloat), seq![value]);
            (s3, digits)
        },
        PinpType::Bool => {
            let true_text = next_text(s);
            let s4 = text_added(s, "true"@);
            let false_text = next_text(s4);
            let s5 = text_added(s4, "false"@);
            let text = next_value(s5);
            let s6 = op(s5, Op::Select(value, true_text, false_text));
            let word = next_value(s6);
            let s7 = called(s6, Callee::Runtime(RuntimeFn::StrFromCstr), seq![text]);
            (s7, word)
        },
        _ => {
            let s8 = failed(s, CodegenError::Malformed);
            (s8, value)
        },
    };
    (s1, rendered)
}

/// A string value that the caller owns: as it is when it is owned already, otherwise a copy.
pub open spec fn own_str(s: Lowering, value: Value, owned: bool) -> (Lowering, Value)
{
    let (s1, kept) = if owned {
        (s, value)
    } else {
        let (s2, copy) = copy_str(s, value);
        (s2, copy)
    };
    (s1, kept)
}

/// Evaluates a string that the caller owns.
pub open spec fn owned_str_code(
    s: Lowering,
    p: Program,
    expr_id: ExprId,
    limit: int,
) -> (Lowering, Value)
    decreases limit, 2int, p, 0int,
{
    let (s1, value) = expect_value(s, p, expr_id, limit);
    let owned = owns_str_result(p, expr_id);
    let (s2, kept) = own_str(s1, value, owned);
    (s2, kept)
}

/// The `str(x)` built-in. What it yields is owned, whatever was passed in.
pub open spec fn str_conversion_code(
    s: Lowering,
    p: Program,
    arg: ExprId,
    limit: int,
) -> (Lowering, Value)
    decreases limit, 4int, p, 0int,
{
    let arg_type = type_of(p, arg);
    let (s1, converted) = if arg_type == PinpType::Str {
        let (s2, kept) = owned_str_code(s, p, arg, limit);
        (s2, kept)
    } else {
        let (s3, value) = expect_value(s, p, arg, limit);
        let (s4, rendered) = str_from_value(s3, value, arg_type);
        (s4, rendered)
    };
    (s1, converted)
}

/// `.len` on a string. Measuring a temporary is the last use of it.
pub open spec fn str_len_code(
    s: Lowering,
    p: Program,
    object: ExprId,
    limit: int,
) -> (Lowering, Value)
    decreases limit, 4int, p, 0int,
{
    let (s1, value) = expect_value(s, p, object, limit);
    let (s2, slot) = spill_str(s1, value);
    let length = next_value(s2);
    let s3 = called(s2, Callee::Runtime(RuntimeFn::StrLen), seq![slot]);
    let owned = owns_str_result(p, object);
    let s4 = if owned {
        let s5 = free_str_slot(s3, slot);
        s5
    } else {
        s3
    };
    (s4, length)
}

/// A comparison of strings: the runtime answers with a truth value for `==` and `!=`, and with a
/// three-way sign for the orderings, which a comparison with zero turns into a `Bool`. It is the
/// last use of an operand that is a temporary.
pub open spec fn str_compare_code(
    s: Lowering,
    p: Program,
    operator: BinOp,
    lhs: ExprId,
    rhs: ExprId,
    limit: int,
) -> (Lowering, Value)
    decreases limit, 4int, p, 0int,
{
    let (s1, left_value) = expect_value(s, p, lhs, limit);
    let (s2, right_value) = expect_value(s1, p, rhs, limit);
    let (s3, left) = spill_str(s2, left_value);
    let (s4, right) = spill_str(s3, right_value);
    let answer = next_value(s4);
    let s5 = called(s4, Callee::Runtime(str_relation(operator)), seq![left, right]);
    let relation = next_value(s5);
    let s6 = op(s5, Op::IntCompare(str_predicate(operator), answer, Value::I32(0)));
    let left_owned = owns_str_result(p, lhs);
    let s7 = if left_owned {
        let s8 = free_str_slot(s6, left);
        s8
    } else {
        s6
    };
    let right_owned = owns_str_result(p, rhs);
    let s9 = if right_owned {
        let s10 = free_str_slot(s7, right);
        s10
    } else {
        s7
    };
    (s9, relation)
}

/// Where the value behind a place lives.
pub open spec fn place_slot(s: Lowering, place: Place) -> (Lowering, Slot)
{
    let (s1, slot) = match place {
        Place::Local(sym_id) => {
            let (s2, found) = var_slot(s, sym_id, false);
            (s2, found)
        },
        Place::Global(sym_id) => {
            let (s3, found) = var_slot(s, sym_id, true);
            (s3, found)
        },
    };
    (s1, slot)
}

/// The value behind a place, and its type.
pub open spec fn load_place(s: Lowering, place: Place) -> (Lowering, (Value, PinpType))
{
    let (s1, slot) = place_slot(s, place);
    let (s2, ir_type) = storable(s1, slot.value_type);
    let value = next_value(s2);
    let s3 = op(s2, Op::Load(ir_type, slot.place));
    (s3, (value, slot.value_type))
}

/// Stores a value that an assignment evaluated to one of its targets. A string's old storage is
/// released first. The first group of targets takes the string over; another binding gets a copy of
/// its own, since two owners of one buffer would free it twice.
pub open spec fn store_to_place(
    s: Lowering,
    place: Place,
    value: Value,
    value_type: PinpType,
    first: bool,
) -> Lowering
{
    let (s1, slot) = resolve_place(s, place, value_type);
    let (s2, stored) = if value_type == PinpType::Str {
        let (s3, kept) = own_str(s1, value, first);
        let s4 = free_str_slot(s3, slot.place);
        (s4, kept)
    } else {
        let (s5, promoted) = promote(s1, value, value_type, slot.value_type);
        (s5, promoted)
    };
    let s6 = op(s2, Op::Store(slot.place, stored));
    s6
}

/// The parts of a join behind those whose slots are `slots`, stored one after another from `base`
/// on.
pub open spec fn parts_stored(s: Lowering, base: Value, parts: Seq<StrPart>, slots: Seq<Value>) -> (
    Lowering,
    Seq<Value>,
)
    decreases parts.len() - slots.len(),
{
    if slots.len() >= parts.len() {
        (s, slots)
    } else {
        let index = slots.len() as int;
        let slot = next_value(s);
        let s1 = op(s, Op::ElementPtr(IrType::Str, base, Value::Int(index as i64)));
        let s2 = op(s1, Op::Store(slot, parts[index].value));
        parts_stored(s2, base, parts, slots.push(slot))
    }
}

/// The owned ones of the parts from `from` on released.
pub open spec fn parts_freed(
    s: Lowering,
    parts: Seq<StrPart>,
    slots: Seq<Value>,
    from: int,
) -> Lowering
    decreases parts.len() - from,
{
    if from < 0 || from >= parts.len() {
        s
    } else {
        let s1 = if parts[from].owned {
            free_str_slot(s, slots[from])
        } else {
            s
        };
        parts_freed(s1, parts, slots, from + 1)
    }
}

/// A single join of all parts, one allocation for the whole chain. The join copies out of every
/// part, so each owned part is dead behind it and is freed, in the slot it was gathered in.
pub open spec fn build_concat(s: Lowering, parts: Seq<StrPart>) -> (Lowering, Value) {
    let base = next_value(s);
    let s1 = entered(s, 0, Op::Alloca(IrType::StrArray(parts.len() as usize)));
    let (s2, slots) = parts_stored(s1, base, parts, Seq::empty());
    let joined = next_value(s2);
    let s3 = called(
        s2,
        Callee::Runtime(RuntimeFn::StrConcatN),
        seq![base, Value::Int(parts.len() as i64)],
    );
    (parts_freed(s3, parts, slots, 0), joined)
}

/// A copy of a string: a join of the one part.
pub open spec fn copy_str(s: Lowering, value: Value) -> (Lowering, Value) {
    build_concat(s, seq![StrPart { value, owned: false }])
}

/// The strings among the symbols from `from` on that the innermost scope binds, released in symbol
/// order.
pub open spec fn scope_strings_freed(s: Lowering, symbols: int, from: int) -> Lowering
    decreases symbols - from,
{
    if from < 0 || from >= symbols {
        s
    } else {
        let s1 = match innermost_slot(s, from as u32) {
            Some(slot) => if slot.value_type == PinpType::Str {
                free_str_slot(s, slot.place)
            } else {
                s
            },
            None => s,
        };
        scope_strings_freed(s1, symbols, from + 1)
    }
}

/// Every string bound in the innermost scope released, where that scope ends.
pub open spec fn free_scope_strings(s: Lowering, p: Program) -> Lowering {
    scope_strings_freed(s, p.ast.names.len() as int, 0)
}

/// The strings among the symbols from `from` on that are globals, released in symbol order.
pub open spec fn global_strings_freed(s: Lowering, symbols: int, from: int) -> Lowering
    decreases symbols - from,
{
    if from < 0 || from >= symbols {
        s
    } else {
        let s1 = match global_slot(s, SymId(from as u32)) {
            Some(slot) => if slot.value_type == PinpType::Str {
                free_str_slot(s, slot.place)
            } else {
                s
            },
            None => s,
        };
        global_strings_freed(s1, symbols, from + 1)
    }
}

/// Every string held in a global released, where the program ends.
pub open spec fn free_global_strings(s: Lowering, p: Program) -> Lowering {
    global_strings_freed(s, p.ast.names.len() as int, 0)
}

/// The operands of a chain of string `+` in the order of evaluation. Only the left spine is walked:
/// a concatenation in brackets on the right is one part, lowered by a join of its own.
pub open spec fn str_parts(p: Program, expr_id: ExprId, limit: int) -> Seq<ExprId>
    decreases limit,
{
    if expr_id.0 < limit && type_of(p, expr_id) == PinpType::Str {
        match node_at(p, expr_id) {
            NodeView::Bin(BinOp::Add, lhs, rhs) => str_parts(p, lhs, expr_id.0 as int).push(rhs),
            _ => seq![expr_id],
        }
    } else {
        seq![expr_id]
    }
}

/// The parts of a join behind those in `done`, each rendered as a string. A rendered scalar is the
/// join's to free; a string only when the expression behind it makes one.
pub open spec fn str_values(
    s: Lowering,
    p: Program,
    parts: Seq<ExprId>,
    done: Seq<StrPart>,
    limit: int,
) -> (Lowering, Seq<StrPart>)
    decreases limit, 3int, p, parts.len() - done.len(),
{
    if done.len() >= parts.len() {
        (s, done)
    } else {
        let part = parts[done.len() as int];
        let part_type = type_of(p, part);
        let (s1, raw) = expect_value(s, p, part, limit);
        let owned = part_type != PinpType::Str || owns_str_result(p, part);
        let (s2, value) = str_from_value(s1, raw, part_type);
        str_values(s2, p, parts, done.push(StrPart { value, owned }), limit)
    }
}

/// A string concatenation: the whole chain in one join.
pub open spec fn str_concat_code(
    s: Lowering,
    p: Program,
    lhs: ExprId,
    rhs: ExprId,
    limit: int,
) -> (Lowering, Value)
    decreases limit, 4int, p, 0int,
{
    let parts = str_parts(p, lhs, limit).push(rhs);
    let (s1, values) = str_values(s, p, parts, Seq::empty(), limit);
    build_concat(s1, values)
}

/// The segments of an f-string behind those in `done`. A hole that names a string reads the
/// binding's own; everything else is the join's to free.
pub open spec fn segments_code(
    s: Lowering,
    p: Program,
    segments: Seq<FStrSegment>,
    done: Seq<StrPart>,
) -> (Lowering, Seq<StrPart>)
    decreases segments.len() - done.len(),
{
    if done.len() >= segments.len() {
        (s, done)
    } else {
        match segments[done.len() as int] {
            FStrSegment::Literal(str_id) => {
                let (s1, value) = build_str_constant(s, p.ast.strings[str_id.0 as int]);
                segments_code(s1, p, segments, done.push(StrPart { value, owned: true }))
            },
            FStrSegment::Interp(place) => {
                let (s1, (raw, value_type)) = load_place(s, place);
                let (s2, value) = str_from_value(s1, raw, value_type);
                let owned = value_type != PinpType::Str;
                segments_code(s2, p, segments, done.push(StrPart { value, owned }))
            },
        }
    }
}

/// An f-string: fixed text alone is just that text, anything else one join of its segments.
pub open spec fn fstring_code(
    s: Lowering,
    p: Program,
    segments: Seq<FStrSegment>,
) -> (Lowering, Value) {
    if segments.len() == 0 {
        build_str_constant(s, ""@)
    } else if segments.len() == 1 && segments[0] is Literal {
        build_str_constant(s, p.ast.strings[segments[0]->Literal_0.0 as int])
    } else {
        let (s1, parts) = segments_code(s, p, segments, Seq::empty());
        build_concat(s1, parts)
    }
}

// ---------------------------------------------------------------------------
// Expressions
// ---------------------------------------------------------------------------

/// Evaluates an expression that has to produce a value.
pub open spec fn expect_value(
    s: Lowering,
    p: Program,
    expr_id: ExprId,
    limit: int,
) -> (Lowering, Value)
    decreases limit, 1int, p, 0int,
{
    let (s1, yielded) = expr_code(s, p, expr_id, limit);
    let (s2, value) = match yielded {
        Some(found) => {
            (s1, found)
        },
        None => {
            let s3 = failed(s1, CodegenError::VoidValue);
            (s3, Value::Int(0))
        },
    };
    (s2, value)
}

/// Evaluates an expression as an `i64`, widening a `Bool` operand.
pub open spec fn as_int(s: Lowering, p: Program, expr_id: ExprId, limit: int) -> (Lowering, Value)
    decreases limit, 2int, p, 0int,
{
    let (s1, value) = expect_value(s, p, expr_id, limit);
    let value_type = type_of(p, expr_id);
    let (s2, widened) = if value_type == PinpType::Bool {
        let wide = next_value(s1);
        let s3 = op(s1, Op::Cast(Cast::ZeroExtend, value));
        (s3, wide)
    } else {
        (s1, value)
    };
    (s2, widened)
}

/// Evaluates an expression as a float, converting a `Bool` or an `Int`.
pub open spec fn as_float(s: Lowering, p: Program, expr_id: ExprId, limit: int) -> (Lowering, Value)
    decreases limit, 2int, p, 0int,
{
    let (s1, value) = expect_value(s, p, expr_id, limit);
    let value_type = type_of(p, expr_id);
    let (s2, float) = match value_type {
        PinpType::Int => {
            let wide = next_value(s1);
            let s3 = op(s1, Op::Cast(Cast::SignedToFloat, value));
            (s3, wide)
        },
        PinpType::Bool => {
            let wide = next_value(s1);
            let s4 = op(s1, Op::Cast(Cast::UnsignedToFloat, value));
            (s4, wide)
        },
        _ => {
            (s1, value)
        },
    };
    (s2, float)
}

/// `-operand`: the operand is widened to the result's type, an integer or a float, and negated.
pub open spec fn neg_code(
    s: Lowering,
    p: Program,
    result_type: PinpType,
    operand: ExprId,
    limit: int,
) -> (Lowering, Value)
    decreases limit, 4int, p, 0int,
{
    let (s1, value) = expect_value(s, p, operand, limit);
    let operand_type = type_of(p, operand);
    let (s2, widened) = promote(s1, value, operand_type, result_type);
    let (s3, negated) = if result_type == PinpType::Int {
        let integer = next_value(s2);
        let s4 = op(s2, Op::IntNeg(widened));
        (s4, integer)
    } else {
        let float = next_value(s2);
        let s5 = op(s2, Op::FloatNeg(widened));
        (s5, float)
    };
    (s3, negated)
}

/// `not operand`.
pub open spec fn not_code(s: Lowering, p: Program, operand: ExprId, limit: int) -> (Lowering, Value)
    decreases limit, 4int, p, 0int,
{
    let (s1, value) = expect_value(s, p, operand, limit);
    let negated = next_value(s1);
    let s2 = op(s1, Op::Not(value));
    (s2, negated)
}

/// A range from its parts, with a step of one either way where none is given. Building a range
/// whose step is zero is a runtime error, so every range has a step that advances.
pub open spec fn range_parts_code(
    s: Lowering,
    p: Program,
    start: ExprId,
    stop: ExprId,
    step: Option<ExprId>,
    kind: RangeKind,
    limit: int,
) -> (Lowering, Value)
    decreases limit, 4int, p, 0int,
{
    let (s1, start_value) = as_int(s, p, start, limit);
    let (s2, stop_value) = as_int(s1, p, stop, limit);
    let (s3, step_value) = match step {
        Some(step_id) => {
            let (s4, given) = as_int(s2, p, step_id, limit);
            (s4, given)
        },
        None => {
            let (s5, implied) = default_step(s2, kind, start_value, stop_value);
            (s5, implied)
        },
    };
    let s6 = guard_zero_step(s3, step_value);
    let (s7, range) = build_range(
        s6,
        start_value,
        stop_value,
        step_value,
        Value::Bool(kind == RangeKind::Inclusive),
    );
    (s7, range)
}

/// `value in range`. The step of a range is not zero, so the remainder by it exists.
pub open spec fn membership_code(
    s: Lowering,
    p: Program,
    value: ExprId,
    range: ExprId,
    limit: int,
) -> (Lowering, Value)
    decreases limit, 4int, p, 0int,
{
    let (s1, candidate) = as_int(s, p, value, limit);
    let (s2, range_value) = expect_value(s1, p, range, limit);
    let (s3, parts) = extract_range(s2, range_value);
    let (s4, inside) = member_test(s3, candidate, parts);
    (s4, inside)
}

/// `+`, `-` or `*`: on strings a join, on floats when the result is one, and on integers otherwise.
pub open spec fn arithmetic_code(
    s: Lowering,
    p: Program,
    result_type: PinpType,
    operator: BinOp,
    lhs: ExprId,
    rhs: ExprId,
    limit: int,
) -> (Lowering, Value)
    decreases limit, 5int, p, 0int,
{
    let (s1, result) = if result_type == PinpType::Str && operator == BinOp::Add {
        let (s2, joined) = str_concat_code(s, p, lhs, rhs, limit);
        (s2, joined)
    } else if result_type == PinpType::Float {
        let (s3, left) = as_float(s, p, lhs, limit);
        let (s4, right) = as_float(s3, p, rhs, limit);
        let float = next_value(s4);
        let s5 = op(s4, Op::FloatBinary(float_op(operator), left, right));
        (s5, float)
    } else {
        let (s6, left) = as_int(s, p, lhs, limit);
        let (s7, right) = as_int(s6, p, rhs, limit);
        let integer = next_value(s7);
        let s8 = op(s7, Op::IntBinary(int_op(operator), left, right));
        (s8, integer)
    };
    (s1, result)
}

/// A binary operation.
pub open spec fn bin_code(
    s: Lowering,
    p: Program,
    result_type: PinpType,
    operator: BinOp,
    lhs: ExprId,
    rhs: ExprId,
    limit: int,
) -> (Lowering, Value)
    decreases limit, 6int, p, 0int,
{
    let (s1, result) = match operator {
        BinOp::Add | BinOp::Sub | BinOp::Mul => {
            let (s2, value) = arithmetic_code(s, p, result_type, operator, lhs, rhs, limit);
            (s2, value)
        },
        BinOp::Div => {
            let (s3, left) = as_float(s, p, lhs, limit);
            let (s4, right) = as_float(s3, p, rhs, limit);
            let quotient = next_value(s4);
            let s5 = op(s4, Op::FloatBinary(FloatOp::Div, left, right));
            (s5, quotient)
        },
        BinOp::IntDiv | BinOp::Mod => {
            let (s6, left) = as_int(s, p, lhs, limit);
            let (s7, right) = as_int(s6, p, rhs, limit);
            let integer = next_value(s7);
            let s8 = op(s7, Op::IntBinary(int_op(operator), left, right));
            (s8, integer)
        },
        BinOp::Pow => {
            let (s9, left) = as_float(s, p, lhs, limit);
            let (s10, right) = as_float(s9, p, rhs, limit);
            let (s11, power) = build_pow(s10, left, right);
            let (s12, raised) = if result_type == PinpType::Int {
                let truncated = next_value(s11);
                let s13 = op(s11, Op::Cast(Cast::FloatToSigned, power));
                (s13, truncated)
            } else {
                (s11, power)
            };
            (s12, raised)
        },
        BinOp::Xor => {
            let (s14, left) = expect_value(s, p, lhs, limit);
            let (s15, right) = expect_value(s14, p, rhs, limit);
            let either = next_value(s15);
            let s16 = op(s15, Op::IntBinary(IntOp::Xor, left, right));
            (s16, either)
        },
        BinOp::And | BinOp::Or => {
            let (s17, value) = short_circuit_code(s, p, operator, lhs, rhs, limit);
            (s17, value)
        },
        _ => {
            let (s18, relation) = compare_code(s, p, operator, lhs, rhs, limit);
            (s18, relation)
        },
    };
    (s1, result)
}

/// A comparison, at the operands' common type: strings through the runtime, floats if either side
/// is one, and integers otherwise.
pub open spec fn compare_code(
    s: Lowering,
    p: Program,
    operator: BinOp,
    lhs: ExprId,
    rhs: ExprId,
    limit: int,
) -> (Lowering, Value)
    decreases limit, 5int, p, 0int,
{
    let left_type = type_of(p, lhs);
    let right_type = type_of(p, rhs);
    let (s1, relation) = if left_type == PinpType::Str || right_type == PinpType::Str {
        let (s2, strings) = str_compare_code(s, p, operator, lhs, rhs, limit);
        (s2, strings)
    } else if left_type == PinpType::Float || right_type == PinpType::Float {
        let (s3, left) = as_float(s, p, lhs, limit);
        let (s4, right) = as_float(s3, p, rhs, limit);
        let floats = next_value(s4);
        let s5 = op(s4, Op::FloatCompare(float_predicate(operator), left, right));
        (s5, floats)
    } else {
        let (s6, left) = as_int(s, p, lhs, limit);
        let (s7, right) = as_int(s6, p, rhs, limit);
        let integers = next_value(s7);
        let s8 = op(s7, Op::IntCompare(int_predicate(operator), left, right));
        (s8, integers)
    };
    (s1, relation)
}

/// `and` and `or`: the right operand is evaluated only when the left one does not decide. The value
/// is the deciding constant on the way past it, and the right operand's value behind it.
pub open spec fn short_circuit_code(
    s: Lowering,
    p: Program,
    operator: BinOp,
    lhs: ExprId,
    rhs: ExprId,
    limit: int,
) -> (Lowering, Value)
    decreases limit, 4int, p, 0int,
{
    let (s1, left) = expect_value(s, p, lhs, limit);
    let entry = insert_block(s1);
    let rhs_block = next_block(s1);
    let s2 = block_appended(s1, "sc_rhs"@);
    let merge = next_block(s2);
    let s3 = block_appended(s2, "sc_merge"@);
    let s4 = if operator == BinOp::And {
        let s5 = op(s3, Op::CondBranch(left, rhs_block, merge));
        s5
    } else {
        let s6 = op(s3, Op::CondBranch(left, merge, rhs_block));
        s6
    };
    let s7 = positioned(s4, rhs_block);
    let (s8, right) = expect_value(s7, p, rhs, limit);
    let rhs_end = insert_block(s8);
    let s9 = op(s8, Op::Branch(merge));
    let s10 = positioned(s9, merge);
    let decided = next_value(s10);
    let s11 = emitted(
        s10,
        InstView::Phi(
            IrType::I1,
            seq![(Value::Bool(operator == BinOp::Or), entry), (right, rhs_end)],
        ),
    );
    (s11, decided)
}

/// A compound assignment's operator on what the element holds and the value of an expression.
pub open spec fn apply_compound_op(
    s: Lowering,
    p: Program,
    operator: BinOp,
    current: Value,
    elem: ArrayElementType,
    rhs: ExprId,
    limit: int,
) -> (Lowering, Value)
    decreases limit, 4int, p, 0int,
{
    let (s1, value) = expect_value(s, p, rhs, limit);
    let value_type = type_of(p, rhs);
    let (s2, combined) = combine(s1, operator, current, elem, value, value_type);
    (s2, combined)
}

/// `[start..stop[:step]]`: `n` elements, filled with the range's integers by a counted loop.
pub open spec fn array_from_range_code(
    s: Lowering,
    p: Program,
    range: ExprId,
    elem: ArrayElementType,
    n: usize,
    limit: int,
) -> (Lowering, Value)
    decreases limit, 4int, p, 0int,
{
    let (s1, array) = build_pinp_alloc(s, n, elem);
    let (s2, range_value) = range_code(s1, p, range, limit);
    let (s3, parts) = extract_range(s2, range_value);
    let (s4, slots) = begin_range_slots(s3, PinpType::Int, parts.start);
    let header = next_block(s4);
    let s5 = block_appended(s4, "rinit_header"@);
    let body = next_block(s5);
    let s6 = block_appended(s5, "rinit_body"@);
    let exit = next_block(s6);
    let s7 = block_appended(s6, "rinit_exit"@);
    let s8 = op(s7, Op::Branch(header));
    let s9 = positioned(s8, header);
    let (s10, position) = load_counter(s9, slots.1);
    let cond = next_value(s10);
    let s11 = op(s10, Op::IntCompare(IntPredicate::Slt, position, Value::Int(n as u64 as i64)));
    let s12 = op(s11, Op::CondBranch(cond, body, exit));
    let s13 = positioned(s12, body);
    let (s14, current) = load_counter(s13, slots.0);
    let (s15, target) = load_counter(s14, slots.1);
    let (s16, element_ptr) = build_element_ptr(s15, elem, array, target);
    let (s17, element) = promote(s16, current, PinpType::Int, element_type(elem));
    let s18 = op(s17, Op::Store(element_ptr, element));
    let following = next_value(s18);
    let s19 = op(s18, Op::IntBinary(IntOp::Add, current, parts.step));
    let s20 = op(s19, Op::Store(slots.0, following));
    let next_target = next_value(s20);
    let s21 = op(s20, Op::IntBinary(IntOp::Add, target, Value::Int(1)));
    let s22 = op(s21, Op::Store(slots.1, next_target));
    let s23 = op(s22, Op::Branch(header));
    let s24 = positioned(s23, exit);
    (s24, array)
}

/// `array[index]`: bounds-checked, one element.
pub open spec fn element_code(
    s: Lowering,
    p: Program,
    array: ExprId,
    index: ExprId,
    limit: int,
) -> (Lowering, Value)
    decreases limit, 4int, p, 0int,
{
    let array_type = type_of(p, array);
    let (s1, value) = match array_type {
        PinpType::Array(elem, n) => {
            let (s2, base) = expect_value(s, p, array, limit);
            let (s3, position) = as_int(s2, p, index, limit);
            let (s4, element_ptr) = bounds_check_and_gep(s3, elem, base, position, n);
            let element = next_value(s4);
            let s5 = op(s4, Op::Load(element_ir_type(elem), element_ptr));
            (s5, element)
        },
        _ => {
            let s6 = failed(s, CodegenError::Malformed);
            (s6, Value::Int(0))
        },
    };
    (s1, value)
}

/// `array[start..stop]`: a new array with the elements from `start` on, as many as the result's
/// type says. The bounds are literals.
pub open spec fn slice_code(
    s: Lowering,
    p: Program,
    result_type: PinpType,
    array: ExprId,
    range: ExprId,
    limit: int,
) -> (Lowering, Value)
    decreases limit, 4int, p, 0int,
{
    let bounds = literal_range(p, range);
    let (s1, value) = match (result_type, bounds) {
        (PinpType::Array(elem, count), Some(literal)) => {
            let (s2, source) = expect_value(s, p, array, limit);
            let (s3, target) = build_pinp_alloc(s2, count, elem);
            let (s4, counted) = begin_counted_loop(
                s3,
                Value::Int(count as u64 as i64),
                "slice_hdr"@,
                "slice_body"@,
                "slice_exit"@,
            );
            let source_index = next_value(s4);
            let s5 = op(s4, Op::IntBinary(IntOp::Add, counted.current, Value::Int(literal.start)));
            let s6 = copy_element(s5, elem, source, source_index, target, counted.current);
            let s7 = end_counted_loop(s6, counted);
            (s7, target)
        },
        _ => {
            let s8 = failed(s, CodegenError::Malformed);
            (s8, Value::Int(0))
        },
    };
    (s1, value)
}

/// `array[index]`, or a slice where the index is a range.
pub open spec fn index_code(
    s: Lowering,
    p: Program,
    result_type: PinpType,
    array: ExprId,
    index: ExprId,
    limit: int,
) -> (Lowering, Value)
    decreases limit, 5int, p, 0int,
{
    let sliced = is_range(p, index);
    let (s1, value) = if sliced {
        let (s2, slice) = slice_code(s, p, result_type, array, index, limit);
        (s2, slice)
    } else {
        let (s3, element) = element_code(s, p, array, index, limit);
        (s3, element)
    };
    (s1, value)
}

/// `matrix[row, col]`: one element, both dimensions bounds-checked.
pub open spec fn index2d_elem_code(
    s: Lowering,
    p: Program,
    elem: ArrayElementType,
    matrix: Value,
    row: ExprId,
    col: ExprId,
    rows: usize,
    cols: usize,
    limit: int,
) -> (Lowering, Value)
    decreases limit, 4int, p, 0int,
{
    let (s1, row_value) = as_int(s, p, row, limit);
    let (s2, col_value) = as_int(s1, p, col, limit);
    let (s3, element_ptr) = bounds_check_and_gep_2d(
        s2,
        elem,
        matrix,
        row_value,
        col_value,
        rows,
        cols,
    );
    let element = next_value(s3);
    let s4 = op(s3, Op::Load(element_ir_type(elem), element_ptr));
    (s4, element)
}

/// `matrix[row, c1..c1+n]`: part of a row.
pub open spec fn index2d_row_slice_code(
    s: Lowering,
    p: Program,
    elem: ArrayElementType,
    matrix: Value,
    row: ExprId,
    rows: usize,
    cols: usize,
    slice: DimSlice,
    limit: int,
) -> (Lowering, Value)
    decreases limit, 4int, p, 0int,
{
    let (s1, row_value) = as_int(s, p, row, limit);
    let (s2, part) = copy_row(s1, elem, matrix, row_value, rows, cols, slice);
    (s2, part)
}

/// `matrix[r1..r1+n, col]`: part of a column.
pub open spec fn index2d_col_slice_code(
    s: Lowering,
    p: Program,
    elem: ArrayElementType,
    matrix: Value,
    col: ExprId,
    cols: usize,
    slice: DimSlice,
    limit: int,
) -> (Lowering, Value)
    decreases limit, 4int, p, 0int,
{
    let (s1, col_value) = as_int(s, p, col, limit);
    let (s2, part) = copy_column(s1, elem, matrix, col_value, cols, slice);
    (s2, part)
}

/// `matrix[row, col]`, where each selector is a single index or a slice.
pub open spec fn index2d_code(
    s: Lowering,
    p: Program,
    matrix: ExprId,
    row: ExprId,
    col: ExprId,
    limit: int,
) -> (Lowering, Value)
    decreases limit, 5int, p, 0int,
{
    let matrix_type = type_of(p, matrix);
    let (s1, value) = match matrix_type {
        PinpType::Matrix(elem, rows, cols) => {
            let (s2, base) = expect_value(s, p, matrix, limit);
            let row_sel = selector(p, row, rows);
            let col_sel = selector(p, col, cols);
            let (s3, selected) = match (row_sel, col_sel) {
                (Some(DimSel::Scalar), Some(DimSel::Scalar)) => {
                    let (s4, element) = index2d_elem_code(
                        s2,
                        p,
                        elem,
                        base,
                        row,
                        col,
                        rows,
                        cols,
                        limit,
                    );
                    (s4, element)
                },
                (Some(DimSel::Scalar), Some(DimSel::Slice(slice))) => {
                    let (s5, part) = index2d_row_slice_code(
                        s2,
                        p,
                        elem,
                        base,
                        row,
                        rows,
                        cols,
                        slice,
                        limit,
                    );
                    (s5, part)
                },
                (Some(DimSel::Slice(slice)), Some(DimSel::Scalar)) => {
                    let (s6, part) = index2d_col_slice_code(
                        s2,
                        p,
                        elem,
                        base,
                        col,
                        cols,
                        slice,
                        limit,
                    );
                    (s6, part)
                },
                (Some(DimSel::Slice(row_slice)), Some(DimSel::Slice(col_slice))) => {
                    let (s7, part) = index2d_submatrix_code(
                        s2,
                        elem,
                        base,
                        cols,
                        row_slice,
                        col_slice,
                    );
                    (s7, part)
                },
                _ => {
                    let s8 = failed(s2, CodegenError::Malformed);
                    (s8, Value::Int(0))
                },
            };
            (s3, selected)
        },
        _ => {
            let s9 = failed(s, CodegenError::Malformed);
            (s9, Value::Int(0))
        },
    };
    (s1, value)
}

/// A built-in member. What an array or a matrix has is known from its type; only a string has to be
/// asked for its length.
pub open spec fn builtin_member_code(
    s: Lowering,
    p: Program,
    object: ExprId,
    member: SymId,
    limit: int,
) -> (Lowering, Value)
    decreases limit, 5int, p, 0int,
{
    let builtin = builtin_member(p, member);
    let object_type = type_of(p, object);
    let (s1, value) = match (builtin, object_type) {
        (Some(BuiltinMember::Len), PinpType::Str) => {
            let (s2, length) = str_len_code(s, p, object, limit);
            (s2, length)
        },
        (Some(BuiltinMember::Len), PinpType::Array(_, n)) => {
            (s, Value::Int(n as u64 as i64))
        },
        (Some(BuiltinMember::Len), PinpType::Matrix(_, rows, cols)) => {
            let (s3, size) = product(s, rows, cols);
            (s3, Value::Int(size as u64 as i64))
        },
        (Some(BuiltinMember::Ndim), PinpType::Array(_, _)) => {
            (s, Value::Int(1))
        },
        (Some(BuiltinMember::Ndim), PinpType::Matrix(_, _, _)) => {
            (s, Value::Int(2))
        },
        (Some(BuiltinMember::Rows), PinpType::Matrix(_, rows, _)) => {
            (s, Value::Int(rows as u64 as i64))
        },
        (Some(BuiltinMember::Cols), PinpType::Matrix(_, _, cols)) => {
            (s, Value::Int(cols as u64 as i64))
        },
        _ => {
            let s4 = failed(s, CodegenError::Malformed);
            (s4, Value::Int(0))
        },
    };
    (s1, value)
}

/// `[element for var in source]`: an array of as many elements as the type says, one for each value
/// of the range. The variable is in scope in the element alone.
pub open spec fn comprehension_code(
    s: Lowering,
    p: Program,
    result_type: PinpType,
    element: ExprId,
    var: SymId,
    var_type: PinpType,
    source: ExprId,
    limit: int,
) -> (Lowering, Value)
    decreases limit, 5int, p, 0int,
{
    let (s1, value) = match result_type {
        PinpType::Array(elem, n) => {
            let (s2, array) = build_pinp_alloc(s, n, elem);
            let (s3, range_value) = range_code(s2, p, source, limit);
            let (s4, parts) = extract_range(s3, range_value);
            let (s5, slots) = begin_range_slots(s4, var_type, parts.start);
            let s6 = scope_pushed(s5);
            let s7 = name_bound(s6, var, (Slot { place: slots.0, value_type: var_type }));
            let header = next_block(s7);
            let s8 = block_appended(s7, "compr_header"@);
            let body = next_block(s8);
            let s9 = block_appended(s8, "compr_body"@);
            let exit = next_block(s9);
            let s10 = block_appended(s9, "compr_exit"@);
            let s11 = op(s10, Op::Branch(header));
            let s12 = positioned(s11, header);
            let (s13, position) = load_counter(s12, slots.1);
            let cond = next_value(s13);
            let s14 = op(
                s13,
                Op::IntCompare(IntPredicate::Slt, position, Value::Int(n as u64 as i64)),
            );
            let s15 = op(s14, Op::CondBranch(cond, body, exit));
            let s16 = positioned(s15, body);
            let (s17, raw) = expect_value(s16, p, element, limit);
            let raw_type = type_of(p, element);
            let (s18, promoted) = promote(s17, raw, raw_type, element_type(elem));
            let (s19, target) = load_counter(s18, slots.1);
            let (s20, element_ptr) = build_element_ptr(s19, elem, array, target);
            let s21 = op(s20, Op::Store(element_ptr, promoted));
            let next_target = next_value(s21);
            let s22 = op(s21, Op::IntBinary(IntOp::Add, target, Value::Int(1)));
            let s23 = op(s22, Op::Store(slots.1, next_target));
            let s24 = advance_range_var(s23, var_type, slots.0, parts.step);
            let s25 = op(s24, Op::Branch(header));
            let s26 = positioned(s25, exit);
            let s27 = scope_popped(s26);
            (s27, array)
        },
        _ => {
            let s28 = failed(s, CodegenError::Malformed);
            (s28, Value::Int(0))
        },
    };
    (s1, value)
}

/// An expression: the value it yields, or none.
pub open spec fn expr_code(s: Lowering, p: Program, expr_id: ExprId, limit: int) -> (
    Lowering,
    Option<Value>,
)
    decreases limit, 0int, p, 0int,
{
    if expr_id.0 >= limit {
        (failed(s, CodegenError::Malformed), None)
    } else {
        node_code(s, p, type_of(p, expr_id), node_at(p, expr_id), expr_id.0 as int)
    }
}

/// An expression that has to be a range.
pub open spec fn range_code(
    s: Lowering,
    p: Program,
    expr_id: ExprId,
    limit: int,
) -> (Lowering, Value)
    decreases limit, 0int, p, 0int,
{
    if expr_id.0 >= limit {
        (failed(s, CodegenError::Malformed), Value::Int(0))
    } else {
        match node_at(p, expr_id) {
            NodeView::Range(start, stop, step, kind) => range_parts_code(
                s,
                p,
                start,
                stop,
                step,
                kind,
                expr_id.0 as int,
            ),
            _ => (failed(s, CodegenError::Malformed), Value::Int(0)),
        }
    }
}

pub open spec fn some(lowered: (Lowering, Value)) -> (Lowering, Option<Value>) {
    (lowered.0, Some(lowered.1))
}

/// A node of type `t` whose parts lie below `limit`.
pub open spec fn node_code(s: Lowering, p: Program, t: PinpType, node: NodeView, limit: int) -> (
    Lowering,
    Option<Value>,
)
    decreases limit, 13int, p, 0int,
{
    match node {
        NodeView::Int(value) => (s, Some(Value::Int(value))),
        NodeView::Float(digits) => (float_added(s, digits), Some(next_float(s))),
        NodeView::Bool(value) => (s, Some(Value::Bool(value))),
        NodeView::Str(str_id) => some(build_str_constant(s, p.ast.strings[str_id.0 as int])),
        NodeView::FStr(segments) => some(fstring_code(s, p, segments)),
        NodeView::Var(sym_id) => some(load_var(s, sym_id, false)),
        NodeView::Global(sym_id) => some(load_var(s, sym_id, true)),
        NodeView::Unary(UnOp::Neg, operand) => some(neg_code(s, p, t, operand, limit)),
        NodeView::Unary(UnOp::Not, operand) => some(not_code(s, p, operand, limit)),
        NodeView::Bin(operator, lhs, rhs) => some(bin_code(s, p, t, operator, lhs, rhs, limit)),
        NodeView::Call(callee, args) => call_code(s, p, t, callee, args, limit),
        NodeView::If(arms, else_block) => if_code(s, p, t, arms, else_block, limit),
        NodeView::Range(start, stop, step, kind) => some(
            range_parts_code(s, p, start, stop, step, kind, limit),
        ),
        NodeView::Membership(value, range) => some(membership_code(s, p, value, range, limit)),
        NodeView::ArrayLiteral(elements) => some(array_literal_code(s, p, t, elements, limit)),
        NodeView::MatrixLiteral(rows) => some(matrix_literal_code(s, p, t, rows, limit)),
        NodeView::Index(array, index) => some(index_code(s, p, t, array, index, limit)),
        NodeView::Index2D(matrix, row, col) => some(index2d_code(s, p, matrix, row, col, limit)),
        NodeView::Member(object, member) => some(builtin_member_code(s, p, object, member, limit)),
        NodeView::Comprehension(element, var, var_type, source) => some(
            comprehension_code(s, p, t, element, var, var_type, source, limit),
        ),
        NodeView::FullExtent => (failed(s, CodegenError::Malformed), None),
    }
}

/// The arguments of a call behind those in `done`, each promoted to its parameter's type. A string
/// is handed over: the callee releases it with its other names.
pub open spec fn args_code(
    s: Lowering,
    p: Program,
    args: Seq<ExprId>,
    params: Seq<PinpType>,
    done: Seq<Value>,
    limit: int,
) -> (Lowering, Seq<Value>)
    decreases limit, 3int, p, args.len() - done.len(),
{
    if done.len() >= args.len() || done.len() >= params.len() {
        (s, done)
    } else {
        let arg = args[done.len() as int];
        let (s1, raw) = if type_of(p, arg) == PinpType::Str {
            owned_str_code(s, p, arg, limit)
        } else {
            expect_value(s, p, arg, limit)
        };
        let (s2, value) = promote(s1, raw, type_of(p, arg), params[done.len() as int]);
        args_code(s2, p, args, params, done.push(value), limit)
    }
}

/// A call. `identity`, `str` and `meminfo` are built in; any other name is a function of the
/// program.
pub open spec fn call_code(
    s: Lowering,
    p: Program,
    t: PinpType,
    callee: SymId,
    args: Seq<ExprId>,
    limit: int,
) -> (Lowering, Option<Value>)
    decreases limit, 5int, p, 0int,
{
    let name = p.ast.names[callee.0 as int];
    if name == "identity"@ {
        some(identity_code(s, t))
    } else if name == "str"@ && args.len() == 1 {
        some(str_conversion_code(s, p, args[0], limit))
    } else if name == "meminfo"@ && args.len() == 0 {
        (called(s, Callee::Runtime(RuntimeFn::MemInfo), Seq::empty()), None)
    } else {
        match callable(s, callee) {
            None => (failed(s, CodegenError::Malformed), None),
            Some(function) => {
                let (params, result) = signature(s, function);
                let (s1, values) = args_code(s, p, args, params, Seq::empty(), limit);
                (
                    called(s1, Callee::Function(function), values),
                    if result == PinpType::Void {
                        None
                    } else {
                        Some(next_value(s1))
                    },
                )
            },
        }
    }
}

/// The diagonal of an `n` by `n` matrix from row `from` on set to `one`.
pub open spec fn diagonal_stored(
    s: Lowering,
    elem: ArrayElementType,
    matrix: Value,
    one: Value,
    n: usize,
    from: int,
) -> Lowering
    decreases n - from,
{
    if from < 0 || from >= n {
        s
    } else {
        let (s1, address) = build_element_ptr(
            s,
            elem,
            matrix,
            Value::Int((from * n + from) as u64 as i64),
        );
        diagonal_stored(op(s1, Op::Store(address, one)), elem, matrix, one, n, from + 1)
    }
}

/// `identity(n, type)`: zeroed storage for `n * n` elements, with ones stored on the diagonal.
pub open spec fn identity_code(s: Lowering, t: PinpType) -> (Lowering, Value) {
    match t {
        PinpType::Matrix(elem, n, _) => if elem == ArrayElementType::Bool || n * n > usize::MAX {
            (failed(s, CodegenError::Malformed), Value::Int(0))
        } else {
            let (s1, bytes) = byte_count(s, (n * n) as usize, elem);
            let matrix = next_value(s1);
            let s2 = called(s1, Callee::Runtime(RuntimeFn::Alloc), seq![bytes]);
            let s3 = called(
                s2,
                Callee::Runtime(RuntimeFn::Memset),
                seq![matrix, Value::I32(0), bytes],
            );
            let (s4, one) = if elem == ArrayElementType::Int {
                (s3, Value::Int(1))
            } else {
                (float_added(s3, "1.0"@), next_float(s3))
            };
            (diagonal_stored(s4, elem, matrix, one, n, 0), matrix)
        },
        _ => (failed(s, CodegenError::Malformed), Value::Int(0)),
    }
}

/// The elements from `from` on stored behind each other, the first of all at `offset`.
pub open spec fn elements_stored(
    s: Lowering,
    p: Program,
    elements: Seq<ExprId>,
    elem: ArrayElementType,
    base: Value,
    offset: usize,
    from: int,
    limit: int,
) -> Lowering
    decreases limit, 3int, p, elements.len() - from,
{
    if from < 0 || from >= elements.len() {
        s
    } else {
        let element = elements[from];
        let (s1, raw) = expect_value(s, p, element, limit);
        let (s2, promoted) = promote(s1, raw, type_of(p, element), element_type(elem));
        let (s3, index) = sum(s2, offset, from as usize);
        let (s4, address) = build_element_ptr(s3, elem, base, Value::Int(index as u64 as i64));
        let s5 = op(s4, Op::Store(address, promoted));
        elements_stored(s5, p, elements, elem, base, offset, from + 1, limit)
    }
}

/// `[e0, e1, …]`: storage with each promoted element in its place. A single range is spelled out
/// instead.
pub open spec fn array_literal_code(
    s: Lowering,
    p: Program,
    t: PinpType,
    elements: Seq<ExprId>,
    limit: int,
) -> (Lowering, Value)
    decreases limit, 5int, p, 0int,
{
    match t {
        PinpType::Array(elem, n) => if elements.len() == 1 && is_range(p, elements[0]) {
            array_from_range_code(s, p, elements[0], elem, n, limit)
        } else {
            let (s1, array) = build_pinp_alloc(s, n, elem);
            (elements_stored(s1, p, elements, elem, array, 0, 0, limit), array)
        },
        _ => (failed(s, CodegenError::Malformed), Value::Int(0)),
    }
}

/// The rows from `from` on stored behind each other, `cols` elements to a row.
pub open spec fn rows_stored(
    s: Lowering,
    p: Program,
    rows: Seq<Seq<ExprId>>,
    elem: ArrayElementType,
    base: Value,
    cols: usize,
    from: int,
    limit: int,
) -> Lowering
    decreases limit, 4int, p, rows.len() - from,
{
    if from < 0 || from >= rows.len() {
        s
    } else {
        let (s1, offset) = product(s, from as usize, cols);
        let s2 = elements_stored(s1, p, rows[from], elem, base, offset, 0, limit);
        rows_stored(s2, p, rows, elem, base, cols, from + 1, limit)
    }
}

/// `[r0; r1; …]`: storage in row-major order with each promoted element in its place.
pub open spec fn matrix_literal_code(
    s: Lowering,
    p: Program,
    t: PinpType,
    rows: Seq<Seq<ExprId>>,
    limit: int,
) -> (Lowering, Value)
    decreases limit, 5int, p, 0int,
{
    match t {
        PinpType::Matrix(elem, row_count, cols) => {
            let (s1, total) = product(s, row_count, cols);
            let (s2, matrix) = build_pinp_alloc(s1, total, elem);
            (rows_stored(s2, p, rows, elem, matrix, cols, 0, limit), matrix)
        },
        _ => (failed(s, CodegenError::Malformed), Value::Int(0)),
    }
}

/// A branch of an `if` of type `t`: run for effect when the `if` has no value; otherwise its value,
/// promoted to `t`, flows from the block it ends in.
pub open spec fn branch_code(
    s: Lowering,
    p: Program,
    t: PinpType,
    block: BlockView,
    incomings: Seq<(Value, usize)>,
    limit: int,
) -> (Lowering, Seq<(Value, usize)>)
    decreases limit, 10int, block, block.stmts.len() + 4,
{
    if t == PinpType::Void {
        (block_for_effect_code(s, p, block, limit), incomings)
    } else {
        let (s1, yielded) = block_code(s, p, block, limit);
        match yielded {
            Some(value) => {
                let (s2, promoted) = promote(s1, value, block_result_type(p, block), t);
                (s2, incomings.push((promoted, insert_block(s2))))
            },
            None => (failed(s1, CodegenError::Malformed), incomings),
        }
    }
}

/// The arms of an `if` from the one at `from` on, each testing in the block its predecessor falls
/// through to.
pub open spec fn arms_code(
    s: Lowering,
    p: Program,
    t: PinpType,
    arms: Seq<IfArmView>,
    merge: usize,
    incomings: Seq<(Value, usize)>,
    from: int,
    limit: int,
) -> (Lowering, Seq<(Value, usize)>)
    decreases limit, 11int, p, arms.len() - from,
{
    if from < 0 || from >= arms.len() {
        (s, incomings)
    } else {
        let arm = arms[from];
        let (s1, cond) = expect_value(s, p, arm.cond, limit);
        let then_block = next_block(s1);
        let s2 = block_appended(s1, "if_then"@);
        let next = next_block(s2);
        let s3 = block_appended(s2, "if_next"@);
        let s4 = op(s3, Op::CondBranch(cond, then_block, next));
        let s5 = positioned(s4, then_block);
        let (s6, more) = branch_code(s5, p, t, arm.body, incomings, limit);
        let s7 = op(s6, Op::Branch(merge));
        arms_code(positioned(s7, next), p, t, arms, merge, more, from + 1, limit)
    }
}

/// An `if`: a chain of tests whose branches meet in one block. When it has a value, that block
/// picks the taken branch's.
pub open spec fn if_code(
    s: Lowering,
    p: Program,
    t: PinpType,
    arms: Seq<IfArmView>,
    else_block: Option<BlockView>,
    limit: int,
) -> (Lowering, Option<Value>)
    decreases limit, 12int, p, 0int,
{
    let merge = next_block(s);
    let s1 = block_appended(s, "if_merge"@);
    let (s2, from_arms) = arms_code(s1, p, t, arms, merge, Seq::empty(), 0, limit);
    let (s3, incomings) = match else_block {
        Some(block) => branch_code(s2, p, t, block, from_arms, limit),
        None => (s2, from_arms),
    };
    let s4 = positioned(op(s3, Op::Branch(merge)), merge);
    if t == PinpType::Void {
        (s4, None)
    } else {
        let (s5, ir_type) = storable(s4, t);
        (emitted(s5, InstView::Phi(ir_type, incomings)), Some(next_value(s5)))
    }
}

// ---------------------------------------------------------------------------
// Statements
// ---------------------------------------------------------------------------

/// Evaluates the expression a block may end in. A string among these is owned, so that it outlives
/// the block's own strings.
pub open spec fn result_code(
    s: Lowering,
    p: Program,
    result: Option<ExprId>,
    limit: int,
) -> (Lowering, Option<Value>)
    decreases limit, 3int, p, 0int,
{
    let (s1, value) = match result {
        None => {
            (s, None)
        },
        Some(expr_id) => {
            let result_type = type_of(p, expr_id);
            let (s2, yielded) = if result_type == PinpType::Str {
                let (s3, owned) = owned_str_code(s, p, expr_id, limit);
                (s3, Some(owned))
            } else {
                let (s4, any) = expr_code(s, p, expr_id, limit);
                (s4, any)
            };
            (s2, yielded)
        },
    };
    (s1, value)
}

/// A block in a scope of its own: its statements, then its result. What the scope binds is released
/// where it ends.
pub open spec fn block_code(
    s: Lowering,
    p: Program,
    block: BlockView,
    limit: int,
) -> (Lowering, Option<Value>)
    decreases limit, 10int, block, block.stmts.len() + 2,
{
    let s1 = scope_pushed(s);
    let s2 = stmts_code(s1, p, block, limit);
    let (s3, value) = result_code(s2, p, block.result, limit);
    let s4 = free_scope_strings(s3, p);
    let s5 = scope_popped(s4);
    (s5, value)
}

/// A block run for its effect. A string it yields is released.
pub open spec fn block_for_effect_code(
    s: Lowering,
    p: Program,
    block: BlockView,
    limit: int,
) -> Lowering
    decreases limit, 10int, block, block.stmts.len() + 3,
{
    let (s1, value) = block_code(s, p, block, limit);
    let result_type = block_result_type(p, block);
    let s2 = match value {
        Some(unused) => {
            let s3 = if result_type == PinpType::Str {
                let s4 = free_str_value(s1, unused);
                s4
            } else {
                s1
            };
            s3
        },
        None => {
            s1
        },
    };
    s2
}

/// A loop that tests before every pass.
pub open spec fn while_code(
    s: Lowering,
    p: Program,
    cond: ExprId,
    body: BlockView,
    limit: int,
) -> Lowering
    decreases limit, 10int, body, body.stmts.len() + 4,
{
    let header = next_block(s);
    let s1 = block_appended(s, "while_header"@);
    let body_block = next_block(s1);
    let s2 = block_appended(s1, "while_body"@);
    let exit = next_block(s2);
    let s3 = block_appended(s2, "while_exit"@);
    let s4 = op(s3, Op::Branch(header));
    let s5 = positioned(s4, header);
    let (s6, holds) = expect_value(s5, p, cond, limit);
    let s7 = op(s6, Op::CondBranch(holds, body_block, exit));
    let s8 = positioned(s7, body_block);
    let s9 = block_for_effect_code(s8, p, body, limit);
    let s10 = op(s9, Op::Branch(header));
    let s11 = positioned(s10, exit);
    s11
}

/// A loop that tests behind every pass: it repeats while the condition holds, or until it does.
pub open spec fn loop_code(
    s: Lowering,
    p: Program,
    body: BlockView,
    cond: ExprId,
    until: bool,
    limit: int,
) -> Lowering
    decreases limit, 10int, body, body.stmts.len() + 4,
{
    let body_block = next_block(s);
    let s1 = block_appended(s, "loop_body"@);
    let exit = next_block(s1);
    let s2 = block_appended(s1, "loop_exit"@);
    let s3 = op(s2, Op::Branch(body_block));
    let s4 = positioned(s3, body_block);
    let s5 = block_for_effect_code(s4, p, body, limit);
    let (s6, holds) = expect_value(s5, p, cond, limit);
    let s7 = if until {
        let s8 = op(s6, Op::CondBranch(holds, exit, body_block));
        s8
    } else {
        let s9 = op(s6, Op::CondBranch(holds, body_block, exit));
        s9
    };
    let s10 = positioned(s7, exit);
    s10
}

/// A loop over a range. The loop variable is the counter's slot, bound in a scope around the body;
/// the step is not zero, so the counter always advances.
pub open spec fn for_code(
    s: Lowering,
    p: Program,
    var: SymId,
    source: ExprId,
    body: BlockView,
    limit: int,
) -> Lowering
    decreases limit, 10int, body, body.stmts.len() + 4,
{
    let (s1, range_value) = expect_value(s, p, source, limit);
    let (s2, parts) = extract_range(s1, range_value);
    let (s3, counter) = alloca_at_entry(s2, PinpType::Int);
    let s4 = op(s3, Op::Store(counter, parts.start));
    let going_up = next_value(s4);
    let s5 = op(s4, Op::IntCompare(IntPredicate::Sgt, parts.step, Value::Int(0)));
    let header = next_block(s5);
    let s6 = block_appended(s5, "for_header"@);
    let body_block = next_block(s6);
    let s7 = block_appended(s6, "for_body"@);
    let exit = next_block(s7);
    let s8 = block_appended(s7, "for_exit"@);
    let s9 = op(s8, Op::Branch(header));
    let s10 = positioned(s9, header);
    let (s11, current) = load_counter(s10, counter);
    let (s12, goes_on) = range_continue(s11, current, parts.stop, parts.inclusive, going_up);
    let s13 = op(s12, Op::CondBranch(goes_on, body_block, exit));
    let s14 = positioned(s13, body_block);
    let s15 = scope_pushed(s14);
    let s16 = name_bound(s15, var, (Slot { place: counter, value_type: PinpType::Int }));
    let s17 = block_for_effect_code(s16, p, body, limit);
    let s18 = scope_popped(s17);
    let (s19, reached) = load_counter(s18, counter);
    let following = next_value(s19);
    let s20 = op(s19, Op::IntBinary(IntOp::Add, reached, parts.step));
    let s21 = op(s20, Op::Store(counter, following));
    let s22 = op(s21, Op::Branch(header));
    let s23 = positioned(s22, exit);
    s23
}

/// `array[start..stop] = value`: the value is stored into every element of the slice. The bounds
/// are literals, so the number of passes is known.
pub open spec fn slice_assign_code(
    s: Lowering,
    p: Program,
    elem: ArrayElementType,
    array: Value,
    range: ExprId,
    value: ExprId,
    limit: int,
) -> Lowering
    decreases limit, 4int, p, 0int,
{
    let (s1, bounds) = slice_bounds(s, p, range);
    let (s2, raw) = expect_value(s1, p, value, limit);
    let raw_type = type_of(p, value);
    let (s3, stored) = promote(s2, raw, raw_type, element_type(elem));
    let (s4, counted) = begin_counted_loop(
        s3,
        Value::Int(bounds.1),
        "sla_hdr"@,
        "sla_body"@,
        "sla_exit"@,
    );
    let target_index = next_value(s4);
    let s5 = op(s4, Op::IntBinary(IntOp::Add, counted.current, Value::Int(bounds.0)));
    let (s6, target) = build_element_ptr(s5, elem, array, target_index);
    let s7 = op(s6, Op::Store(target, stored));
    let s8 = end_counted_loop(s7, counted);
    s8
}

/// Stores to an element: the value itself, or what a compound assignment makes of the element and
/// the value.
pub open spec fn store_element(
    s: Lowering,
    p: Program,
    elem: ArrayElementType,
    element_ptr: Value,
    value: ExprId,
    compound_op: Option<BinOp>,
    limit: int,
) -> Lowering
    decreases limit, 5int, p, 0int,
{
    let (s1, stored) = match compound_op {
        None => {
            let (s2, raw) = expect_value(s, p, value, limit);
            let raw_type = type_of(p, value);
            let (s3, promoted) = promote(s2, raw, raw_type, element_type(elem));
            (s3, promoted)
        },
        Some(operator) => {
            let current = next_value(s);
            let s4 = op(s, Op::Load(element_ir_type(elem), element_ptr));
            let (s5, combined) = apply_compound_op(s4, p, operator, current, elem, value, limit);
            (s5, combined)
        },
    };
    let s6 = op(s1, Op::Store(element_ptr, stored));
    s6
}

/// `array[index] = value`, with a slice filled where the index is a range.
pub open spec fn indexed_assign_code(
    s: Lowering,
    p: Program,
    target: Place,
    index: ExprId,
    value: ExprId,
    compound_op: Option<BinOp>,
    limit: int,
) -> Lowering
    decreases limit, 6int, p, 0int,
{
    let (s1, slot) = place_slot(s, target);
    let s2 = match slot.value_type {
        PinpType::Array(elem, n) => {
            let array = next_value(s1);
            let s3 = op(s1, Op::Load(IrType::Ptr, slot.place));
            let sliced = is_range(p, index);
            let s4 = if sliced {
                let s5 = slice_assign_code(s3, p, elem, array, index, value, limit);
                s5
            } else {
                let (s6, position) = as_int(s3, p, index, limit);
                let (s7, element_ptr) = bounds_check_and_gep(s6, elem, array, position, n);
                let s8 = store_element(s7, p, elem, element_ptr, value, compound_op, limit);
                s8
            };
            s4
        },
        _ => {
            let s9 = failed(s1, CodegenError::Malformed);
            s9
        },
    };
    s2
}

/// `matrix[row, col] = value`.
pub open spec fn indexed_assign2d_code(
    s: Lowering,
    p: Program,
    target: Place,
    row: ExprId,
    col: ExprId,
    value: ExprId,
    compound_op: Option<BinOp>,
    limit: int,
) -> Lowering
    decreases limit, 6int, p, 0int,
{
    let (s1, slot) = place_slot(s, target);
    let s2 = match slot.value_type {
        PinpType::Matrix(elem, rows, cols) => {
            let matrix = next_value(s1);
            let s3 = op(s1, Op::Load(IrType::Ptr, slot.place));
            let (s4, row_value) = as_int(s3, p, row, limit);
            let (s5, col_value) = as_int(s4, p, col, limit);
            let (s6, element_ptr) = bounds_check_and_gep_2d(
                s5,
                elem,
                matrix,
                row_value,
                col_value,
                rows,
                cols,
            );
            let s7 = store_element(s6, p, elem, element_ptr, value, compound_op, limit);
            s7
        },
        _ => {
            let s8 = failed(s1, CodegenError::Malformed);
            s8
        },
    };
    s2
}

/// The string a statement yields released when nothing receives it. An assignment's value lives on
/// in the slot it was stored to; only a bare expression's is dropped.
pub open spec fn discarded_str_freed(
    s: Lowering,
    p: Program,
    stmt: StmtView,
    yielded: Option<Value>,
) -> Lowering {
    match stmt {
        StmtView::Expr(expr_id) => if type_of(p, expr_id) == PinpType::Str && owns_str_result(
            p,
            expr_id,
        ) {
            match yielded {
                Some(value) => free_str_value(s, value),
                None => failed(s, CodegenError::Malformed),
            }
        } else {
            s
        },
        _ => s,
    }
}

/// The statements of a block from the one at `from` on.
pub open spec fn stmts_from(
    s: Lowering,
    p: Program,
    block: BlockView,
    from: int,
    limit: int,
) -> Lowering
    decreases limit, 10int, block, block.stmts.len() - from,
{
    if from < 0 || from >= block.stmts.len() {
        s
    } else {
        let stmt = block.stmts[from];
        let (s1, yielded) = stmt_code(s, p, stmt, limit);
        stmts_from(discarded_str_freed(s1, p, stmt, yielded), p, block, from + 1, limit)
    }
}

/// The statements of a block.
pub open spec fn stmts_code(s: Lowering, p: Program, block: BlockView, limit: int) -> Lowering
    decreases limit, 10int, block, block.stmts.len() + 1,
{
    stmts_from(s, p, block, 0, limit)
}

/// The values of an assignment behind those in `done`. A string is owned, so that a swap reads both
/// sides before either is released.
pub open spec fn values_code(
    s: Lowering,
    p: Program,
    values: Seq<ExprId>,
    done: Seq<Value>,
    limit: int,
) -> (Lowering, Seq<Value>)
    decreases limit, 3int, p, values.len() - done.len(),
{
    if done.len() >= values.len() {
        (s, done)
    } else {
        let expr_id = values[done.len() as int];
        let (s1, value) = if type_of(p, expr_id) == PinpType::Str {
            owned_str_code(s, p, expr_id, limit)
        } else {
            expect_value(s, p, expr_id, limit)
        };
        values_code(s1, p, values, done.push(value), limit)
    }
}

/// One group of targets from the one at `from` on, each taking its value.
pub open spec fn group_stored(
    s: Lowering,
    p: Program,
    group: Seq<Place>,
    values: Seq<ExprId>,
    evaluated: Seq<Value>,
    first: bool,
    from: int,
) -> Lowering
    decreases group.len() - from,
{
    if from < 0 || from >= group.len() || from >= evaluated.len() {
        s
    } else {
        let s1 = store_to_place(s, group[from], evaluated[from], type_of(p, values[from]), first);
        group_stored(s1, p, group, values, evaluated, first, from + 1)
    }
}

/// The groups of targets from the one at `from` on.
pub open spec fn groups_stored(
    s: Lowering,
    p: Program,
    groups: Seq<Seq<Place>>,
    values: Seq<ExprId>,
    evaluated: Seq<Value>,
    from: int,
) -> Lowering
    decreases groups.len() - from,
{
    if from < 0 || from >= groups.len() {
        s
    } else {
        let s1 = group_stored(s, p, groups[from], values, evaluated, from == 0, 0);
        groups_stored(s1, p, groups, values, evaluated, from + 1)
    }
}

/// A statement, and the value it yields: an expression's, or the last one an assignment binds.
/// Every value of an assignment is evaluated before any target is written.
pub open spec fn stmt_code(s: Lowering, p: Program, stmt: StmtView, limit: int) -> (
    Lowering,
    Option<Value>,
)
    decreases limit, 10int, stmt, 0int,
{
    match stmt {
        StmtView::Expr(expr_id) => expr_code(s, p, expr_id, limit),
        StmtView::Assign(groups, _, values) => {
            let (s1, evaluated) = values_code(s, p, values, Seq::empty(), limit);
            (
                groups_stored(s1, p, groups, values, evaluated, 0),
                if evaluated.len() > 0 {
                    Some(evaluated.last())
                } else {
                    None
                },
            )
        },
        StmtView::While(cond, body) => (while_code(s, p, cond, body, limit), None),
        StmtView::Loop(body, cond, until) => (loop_code(s, p, body, cond, until, limit), None),
        StmtView::For(var, source, body) => (for_code(s, p, var, source, body, limit), None),
        StmtView::IndexedAssign(target, index, value, compound_op) => (
            indexed_assign_code(s, p, target, index, value, compound_op, limit),
            None,
        ),
        StmtView::IndexedAssign2D(target, row, col, value, compound_op) => (
            indexed_assign2d_code(s, p, target, row, col, value, compound_op, limit),
            None,
        ),
        StmtView::ForArray(_, _, _) => (failed(s, CodegenError::Malformed), None),
    }
}

// ---------------------------------------------------------------------------
// Programs
// ---------------------------------------------------------------------------

/// The targets of one group from the one at `from` on declared as globals, unless they are already.
pub open spec fn group_declared(
    s: Lowering,
    p: Program,
    group: Seq<Place>,
    values: Seq<ExprId>,
    from: int,
) -> Lowering
    decreases group.len() - from,
{
    if from < 0 || from >= group.len() || from >= values.len() {
        s
    } else {
        let sym_id = symbol_of(group[from]);
        let s1 = match global_slot(s, sym_id) {
            Some(_) => s,
            None => {
                let value_type = type_of(p, values[from]);
                let (s2, _) = storable(s, value_type);
                global_added(s2, sym_id, value_type)
            },
        };
        group_declared(s1, p, group, values, from + 1)
    }
}

pub open spec fn groups_declared(
    s: Lowering,
    p: Program,
    groups: Seq<Seq<Place>>,
    values: Seq<ExprId>,
    from: int,
) -> Lowering
    decreases groups.len() - from,
{
    if from < 0 || from >= groups.len() {
        s
    } else {
        groups_declared(
            group_declared(s, p, groups[from], values, 0),
            p,
            groups,
            values,
            from + 1,
        )
    }
}

/// A global for every symbol assigned at the top level, from the item at `from` on.
pub open spec fn globals_declared(s: Lowering, p: Program, from: int) -> Lowering
    decreases p.ast.top_level.len() - from,
{
    if from < 0 || from >= p.ast.top_level.len() {
        s
    } else {
        let s1 = match p.ast.top_level[from] {
            TopLevelView::Stmt(StmtView::Assign(groups, _, values)) => groups_declared(
                s,
                p,
                groups,
                values,
                0,
            ),
            _ => s,
        };
        globals_declared(s1, p, from + 1)
    }
}

pub open spec fn param_types(params: Seq<Param>) -> Seq<PinpType> {
    Seq::new(params.len(), |i: int| params[i].param_type)
}

/// The signature of every function from the item at `from` on, so that a call resolves wherever it
/// stands.
pub open spec fn functions_declared(s: Lowering, p: Program, from: int) -> Lowering
    decreases p.ast.top_level.len() - from,
{
    if from < 0 || from >= p.ast.top_level.len() {
        s
    } else {
        let s1 = match p.ast.top_level[from] {
            TopLevelView::Func(func) => function_added(
                s,
                FunctionName::Named(func.name),
                param_types(func.params),
                func.return_type,
            ),
            TopLevelView::Stmt(_) => s,
        };
        functions_declared(s1, p, from + 1)
    }
}

/// The parameters from the one at `from` on stored to slots of their own, so that they read and
/// write like any local.
pub open spec fn params_code(s: Lowering, params: Seq<Param>, from: int) -> Lowering
    decreases params.len() - from,
{
    if from < 0 || from >= params.len() {
        s
    } else {
        let param = params[from];
        let (s1, ir_type) = storable(s, param.param_type);
        let slot = next_value(s1);
        let s2 = op(s1, Op::Alloca(ir_type));
        let s3 = op(s2, Op::Store(slot, Value::Param(from as usize)));
        let s4 = name_bound(s3, param.name, Slot { place: slot, value_type: param.param_type });
        params_code(s4, params, from + 1)
    }
}

/// The end of a function's body: its result is moved out before the frame's strings are released,
/// so returning a local's string hands back a copy rather than a freed one.
pub open spec fn return_code(
    s: Lowering,
    p: Program,
    return_type: PinpType,
    result: ExprId,
    limit: int,
) -> Lowering {
    if return_type == PinpType::Void {
        let (s1, yielded) = expr_code(s, p, result, limit);
        let s2 = discarded_str_freed(s1, p, StmtView::Expr(result), yielded);
        op(free_scope_strings(s2, p), Op::ReturnVoid)
    } else {
        let (s1, raw) = if return_type == PinpType::Str {
            owned_str_code(s, p, result, limit)
        } else {
            expect_value(s, p, result, limit)
        };
        let (s2, value) = promote(s1, raw, type_of(p, result), return_type);
        op(free_scope_strings(s2, p), Op::Return(value))
    }
}

/// The body of one function.
pub open spec fn function_code(s: Lowering, p: Program, func: FuncDefView) -> Lowering {
    let limit = p.ast.nodes.len() as int;
    match callable(s, func.name) {
        None => failed(s, CodegenError::Malformed),
        Some(function) => {
            let s1 = params_code(body_begun(s, function, true), func.params, 0);
            let s2 = stmts_code(s1, p, func.body, limit);
            match func.body.result {
                Some(result) => return_code(s2, p, func.return_type, result, limit),
                None => failed(s2, CodegenError::Malformed),
            }
        },
    }
}

/// The body of every function from the item at `from` on.
pub open spec fn functions_code(s: Lowering, p: Program, from: int) -> Lowering
    decreases p.ast.top_level.len() - from,
{
    if from < 0 || from >= p.ast.top_level.len() {
        s
    } else {
        let s1 = match p.ast.top_level[from] {
            TopLevelView::Func(func) => function_code(s, p, func),
            TopLevelView::Stmt(_) => s,
        };
        functions_code(s1, p, from + 1)
    }
}

/// The type of the program's value: that of a last expression, or of the last value a last
/// assignment binds.
pub open spec fn program_type(p: Program) -> PinpType {
    if p.ast.top_level.len() == 0 {
        PinpType::Void
    } else {
        match p.ast.top_level.last() {
            TopLevelView::Stmt(StmtView::Expr(expr_id)) => type_of(p, expr_id),
            TopLevelView::Stmt(StmtView::Assign(_, _, values)) => type_of(p, values.last()),
            _ => PinpType::Void,
        }
    }
}

/// Whether the last top-level item yields a string that its receiver owns. An assignment's value
/// belongs to a binding.
pub open spec fn program_owns_str(p: Program) -> bool {
    if p.ast.top_level.len() == 0 {
        false
    } else {
        match p.ast.top_level.last() {
            TopLevelView::Stmt(StmtView::Expr(expr_id)) => owns_str_result(p, expr_id),
            _ => false,
        }
    }
}

/// The top-level statements from the item at `from` on, and the value of the last item.
pub open spec fn items_code(s: Lowering, p: Program, from: int) -> (Lowering, Option<Value>)
    decreases p.ast.top_level.len() - from,
{
    if from < 0 || from >= p.ast.top_level.len() {
        (s, None)
    } else {
        match p.ast.top_level[from] {
            TopLevelView::Func(_) => items_code(s, p, from + 1),
            TopLevelView::Stmt(stmt) => {
                let (s1, yielded) = stmt_code(s, p, stmt, p.ast.nodes.len() as int);
                if from == p.ast.top_level.len() - 1 {
                    (s1, yielded)
                } else {
                    items_code(discarded_str_freed(s1, p, stmt, yielded), p, from + 1)
                }
            },
        }
    }
}

/// The program's value written to the address the entry function is given. A string is moved out to
/// the host, so it is owned before the bindings are released.
pub open spec fn value_written(s: Lowering, p: Program, yielded: Option<Value>) -> Lowering {
    if program_type(p) == PinpType::Void {
        s
    } else {
        match yielded {
            None => failed(s, CodegenError::Malformed),
            Some(value) => {
                let (s1, result) = if program_type(p) == PinpType::Str {
                    own_str(s, value, program_owns_str(p))
                } else {
                    (s, value)
                };
                op(s1, Op::Store(Value::Param(0), result))
            },
        }
    }
}

/// The entry function: the top-level statements, the program's value written out, and every string
/// that is left released.
pub open spec fn entry_code(s: Lowering, p: Program) -> Lowering {
    let s1 = if program_type(p) == PinpType::Range {
        failed(s, CodegenError::RangeResult)
    } else {
        s
    };
    let function = next_function(s1);
    let s2 = function_added(s1, FunctionName::Entry, Seq::empty(), PinpType::Void);
    let (s3, yielded) = items_code(body_begun(s2, function, false), p, 0);
    let s4 = value_written(s3, p, yielded);
    op(free_global_strings(free_scope_strings(s4, p), p), Op::ReturnVoid)
}

/// The whole program.
pub open spec fn lowered(p: Program) -> Lowering {
    let s1 = globals_declared(nothing_lowered(), p, 0);
    let s2 = functions_declared(s1, p, 0);
    entry_code(functions_code(s2, p, 0), p)
}

/// The module a lowering has arrived at.
pub open spec fn module_of(s: Lowering) -> ModuleView {
    ModuleView {
        insts: s.insts,
        blocks: s.blocks,
        functions: s.functions,
        globals: s.globals,
        texts: s.texts,
        floats: s.floats,
    }
}

} // verus!
