//! Emission of the shapes that lowering is made of: slots, conversions, ranges, bounds checks,
//! counted loops and element copies. None of them looks at the program.

use vstd::prelude::*;

use super::builder::{
    CodeGen, CodegenError, Lowering, Slot, block_appended, called, entered, failed, global_slot,
    inside_function, local_slot, name_bound, next_block, next_text, next_value, op, positioned,
    text_added,
};
use super::ir::{
    Callee, Cast, FloatOp, IntOp, IntPredicate, IrType, Op, RuntimeFn, Value, basic_type,
    element_ir_type, element_type,
};
use crate::parser::ast::{ArrayElementType, BinOp, Place, PinpType, RangeKind, SymId};

verus! {

/// The fields of a range value.
#[derive(Debug, Clone, Copy, PartialEq, Eq, Structural)]
pub struct RangeParts {
    pub start: Value,
    pub stop: Value,
    pub step: Value,
    pub inclusive: Value,
}

/// A loop that counts up to a limit, while its body is being emitted.
#[derive(Debug, Clone, Copy, PartialEq, Eq, Structural)]
pub struct CountedLoop {
    /// The slot of the count.
    pub counter: Value,
    /// The count as the body sees it.
    pub current: Value,
    /// The block with the loop's test.
    pub header: usize,
    /// The block behind the loop.
    pub exit: usize,
}

/// The part of a dimension that a slice takes.
#[derive(Debug, Clone, Copy, PartialEq, Eq, Structural)]
pub struct DimSlice {
    pub start: usize,
    pub len: usize,
}

/// A size as the product of two others. One that does not fit belongs to no checked program.
pub open spec fn product(s: Lowering, a: usize, b: usize) -> (Lowering, usize) {
    if a * b <= usize::MAX {
        (s, (a * b) as usize)
    } else {
        (failed(s, CodegenError::Malformed), 0)
    }
}

/// A position as the sum of two others. One that does not fit belongs to no checked program.
pub open spec fn sum(s: Lowering, a: usize, b: usize) -> (Lowering, usize) {
    if a + b <= usize::MAX {
        (s, (a + b) as usize)
    } else {
        (failed(s, CodegenError::Malformed), 0)
    }
}

/// The type a slot for a value of this type has. `Void` is not a storable type.
pub open spec fn storable(s: Lowering, pinp_type: PinpType) -> (Lowering, IrType)
{
    let (s1, found) = match basic_type(pinp_type) {
        Some(ir_type) => {
            (s, ir_type)
        },
        None => {
            let s2 = failed(s, CodegenError::Malformed);
            (s2, IrType::I64)
        },
    };
    (s1, found)
}

/// A slot in the current function's first block, not at the point of emission, so that it dominates
/// every use and a loop body does not allocate it again. A string slot is freed before it is
/// overwritten and again when its scope ends, so it starts out as the empty string.
pub open spec fn alloca_at_entry(s: Lowering, pinp_type: PinpType) -> (Lowering, Value)
{
    let (s1, ir_type) = storable(s, pinp_type);
    let slot = next_value(s1);
    let s2 = entered(s1, 0, Op::Alloca(ir_type));
    let s3 = if pinp_type == PinpType::Str {
        let s4 = entered(s2, 1, Op::Store(slot, Value::Zero(IrType::Str)));
        s4
    } else {
        s2
    };
    (s3, slot)
}

/// Widens a value up the `Bool -> Int -> Float` lattice when the target type requires it.
pub open spec fn promote(
    s: Lowering,
    value: Value,
    from: PinpType,
    to: PinpType,
) -> (Lowering, Value)
{
    let (s1, widened) = match (from, to) {
        (PinpType::Bool, PinpType::Int) => {
            let wide = next_value(s);
            let s2 = op(s, Op::Cast(Cast::ZeroExtend, value));
            (s2, wide)
        },
        (PinpType::Bool, PinpType::Float) => {
            let wide = next_value(s);
            let s3 = op(s, Op::Cast(Cast::UnsignedToFloat, value));
            (s3, wide)
        },
        (PinpType::Int, PinpType::Float) => {
            let wide = next_value(s);
            let s4 = op(s, Op::Cast(Cast::SignedToFloat, value));
            (s4, wide)
        },
        _ => {
            (s, value)
        },
    };
    (s1, widened)
}

/// A range value from its fields.
pub open spec fn build_range(
    s: Lowering,
    start: Value,
    stop: Value,
    step: Value,
    inclusive: Value,
) -> (Lowering, Value)
{
    let with_start = next_value(s);
    let s1 = op(s, Op::InsertField(Value::Undef(IrType::Range), start, 0));
    let with_stop = next_value(s1);
    let s2 = op(s1, Op::InsertField(with_start, stop, 1));
    let with_step = next_value(s2);
    let s3 = op(s2, Op::InsertField(with_stop, step, 2));
    let range = next_value(s3);
    let s4 = op(s3, Op::InsertField(with_step, inclusive, 3));
    (s4, range)
}

/// The fields of a range value.
pub open spec fn extract_range(s: Lowering, range: Value) -> (Lowering, RangeParts)
{
    let start = next_value(s);
    let s1 = op(s, Op::ExtractField(range, 0));
    let stop = next_value(s1);
    let s2 = op(s1, Op::ExtractField(range, 1));
    let step = next_value(s2);
    let s3 = op(s2, Op::ExtractField(range, 2));
    let inclusive = next_value(s3);
    let s4 = op(s3, Op::ExtractField(range, 3));
    (s4, (RangeParts { start, stop, step, inclusive }))
}

/// What a loop counter's slot holds.
pub open spec fn load_counter(s: Lowering, counter: Value) -> (Lowering, Value)
{
    let index = next_value(s);
    let s1 = op(s, Op::Load(IrType::I64, counter));
    (s1, index)
}

/// Whether a range goes on at `current`: ascending wants `current <= stop` (inclusive) or `< stop`,
/// descending the mirror, and `going_up` picks the side.
pub open spec fn range_continue(
    s: Lowering,
    current: Value,
    stop: Value,
    inclusive: Value,
    going_up: Value,
) -> (Lowering, Value)
{
    let le = next_value(s);
    let s1 = op(s, Op::IntCompare(IntPredicate::Sle, current, stop));
    let lt = next_value(s1);
    let s2 = op(s1, Op::IntCompare(IntPredicate::Slt, current, stop));
    let ge = next_value(s2);
    let s3 = op(s2, Op::IntCompare(IntPredicate::Sge, current, stop));
    let gt = next_value(s3);
    let s4 = op(s3, Op::IntCompare(IntPredicate::Sgt, current, stop));
    let up = next_value(s4);
    let s5 = op(s4, Op::Select(inclusive, le, lt));
    let down = next_value(s5);
    let s6 = op(s5, Op::Select(inclusive, ge, gt));
    let cond = next_value(s6);
    let s7 = op(s6, Op::Select(going_up, up, down));
    (s7, cond)
}

/// Whether `candidate` belongs to a range, as closed-form arithmetic: on a step of the range, and
/// within its bounds in its direction. No branches, no runtime calls.
pub open spec fn member_test(s: Lowering, candidate: Value, parts: RangeParts) -> (Lowering, Value)
{
    let offset = next_value(s);
    let s1 = op(s, Op::IntBinary(IntOp::Sub, candidate, parts.start));
    let remainder = next_value(s1);
    let s2 = op(s1, Op::IntBinary(IntOp::SignedRem, offset, parts.step));
    let on_step = next_value(s2);
    let s3 = op(s2, Op::IntCompare(IntPredicate::Eq, remainder, Value::Int(0)));
    let going_up = next_value(s3);
    let s4 = op(s3, Op::IntCompare(IntPredicate::Sgt, parts.step, Value::Int(0)));
    let (s5, within_stop) = range_continue(s4, candidate, parts.stop, parts.inclusive, going_up);
    let ge_start = next_value(s5);
    let s6 = op(s5, Op::IntCompare(IntPredicate::Sge, candidate, parts.start));
    let le_start = next_value(s6);
    let s7 = op(s6, Op::IntCompare(IntPredicate::Sle, candidate, parts.start));
    let from_start = next_value(s7);
    let s8 = op(s7, Op::Select(going_up, ge_start, le_start));
    let member = next_value(s8);
    let s9 = op(s8, Op::IntBinary(IntOp::And, on_step, within_stop));
    let inside = next_value(s9);
    let s10 = op(s9, Op::IntBinary(IntOp::And, member, from_start));
    (s10, inside)
}

/// The step of a range that gives none: one up or down for the exclusive forms, and for the
/// inclusive one the direction is taken from the bounds (up when `stop >= start`).
pub open spec fn default_step(
    s: Lowering,
    kind: RangeKind,
    start: Value,
    stop: Value,
) -> (Lowering, Value)
{
    let (s1, step) = match kind {
        RangeKind::UpExclusive => {
            (s, Value::Int(1))
        },
        RangeKind::DownExclusive => {
            (s, Value::Int(-1i64))
        },
        RangeKind::Inclusive => {
            let up = next_value(s);
            let s2 = op(s, Op::IntCompare(IntPredicate::Sge, stop, start));
            let chosen = next_value(s2);
            let s3 = op(s2, Op::Select(up, Value::Int(1), Value::Int(-1i64)));
            (s3, chosen)
        },
    };
    (s1, step)
}

/// Raises a runtime error, which never comes back.
pub open spec fn runtime_error_call_code(s: Lowering, message: Seq<char>) -> Lowering
{
    let text = next_text(s);
    let s1 = text_added(s, message);
    let s2 = called(s1, Callee::Runtime(RuntimeFn::RuntimeError), seq![text]);
    let s3 = op(s2, Op::Unreachable);
    s3
}

/// Goes on in a fresh block `ok` unless `condition` holds; then a runtime error is raised.
pub open spec fn guard(
    s: Lowering,
    condition: Value,
    error: Seq<char>,
    ok: Seq<char>,
    message: Seq<char>,
) -> Lowering
{
    let error_block = next_block(s);
    let s1 = block_appended(s, error);
    let ok_block = next_block(s1);
    let s2 = block_appended(s1, ok);
    let s3 = op(s2, Op::CondBranch(condition, error_block, ok_block));
    let s4 = positioned(s3, error_block);
    let s5 = runtime_error_call_code(s4, message);
    let s6 = positioned(s5, ok_block);
    s6
}

/// Raises a runtime error if `step` is zero: such a range could never advance.
pub open spec fn guard_zero_step(s: Lowering, step: Value) -> Lowering
{
    let is_zero = next_value(s);
    let s1 = op(s, Op::IntCompare(IntPredicate::Eq, step, Value::Int(0)));
    let s2 = guard(s1, is_zero, "range_zero_step"@, "range_ok"@, "Range step cannot be zero."@);
    s2
}

/// How many bytes so many elements take, as a constant.
pub open spec fn byte_count(s: Lowering, count: usize, elem: ArrayElementType) -> (Lowering, Value)
{
    let (s1, bytes) = match elem {
        ArrayElementType::Bool => {
            (s, Value::Int(count as u64 as i64))
        },
        _ => {
            let (s2, scaled) = if count as u64 <= u64::MAX / 8 {
                (s, Value::Int((count as u64 * 8) as i64))
            } else {
                let s3 = failed(s, CodegenError::Malformed);
                (s3, Value::Int(0))
            };
            (s2, scaled)
        },
    };
    (s1, bytes)
}

/// Storage for so many elements.
pub open spec fn build_pinp_alloc(
    s: Lowering,
    count: usize,
    elem: ArrayElementType,
) -> (Lowering, Value)
{
    let (s1, bytes) = byte_count(s, count, elem);
    let storage = next_value(s1);
    let s2 = called(s1, Callee::Runtime(RuntimeFn::Alloc), seq![bytes]);
    (s2, storage)
}

/// The address of an element.
pub open spec fn build_element_ptr(
    s: Lowering,
    elem: ArrayElementType,
    base: Value,
    index: Value,
) -> (Lowering, Value)
{
    let address = next_value(s);
    let s1 = op(s, Op::ElementPtr(element_ir_type(elem), base, index));
    (s1, address)
}

/// An index as counted from the front: a negative one counts from the end.
pub open spec fn normalize_index(s: Lowering, index: Value, len: Value) -> (Lowering, Value)
{
    let is_neg = next_value(s);
    let s1 = op(s, Op::IntCompare(IntPredicate::Slt, index, Value::Int(0)));
    let adjusted = next_value(s1);
    let s2 = op(s1, Op::IntBinary(IntOp::Add, index, len));
    let effective = next_value(s2);
    let s3 = op(s2, Op::Select(is_neg, adjusted, index));
    (s3, effective)
}

/// Whether an index lies outside of `0..len`.
pub open spec fn out_of_bounds(s: Lowering, index: Value, len: Value) -> (Lowering, Value)
{
    let too_low = next_value(s);
    let s1 = op(s, Op::IntCompare(IntPredicate::Slt, index, Value::Int(0)));
    let too_high = next_value(s1);
    let s2 = op(s1, Op::IntCompare(IntPredicate::Sge, index, len));
    let outside = next_value(s2);
    let s3 = op(s2, Op::IntBinary(IntOp::Or, too_low, too_high));
    (s3, outside)
}

/// The address of an element of an array of `length` elements, with a runtime error when `index` is
/// out of bounds.
pub open spec fn bounds_check_and_gep(
    s: Lowering,
    elem: ArrayElementType,
    base: Value,
    index: Value,
    length: usize,
) -> (Lowering, Value)
{
    let n = Value::Int(length as u64 as i64);
    let (s1, effective) = normalize_index(s, index, n);
    let (s2, outside) = out_of_bounds(s1, effective, n);
    let s3 = guard(s2, outside, "arr_oob"@, "arr_ok"@, "Array index out of bounds."@);
    let (s4, address) = build_element_ptr(s3, elem, base, effective);
    (s4, address)
}

/// The address of element `[row, col]` of a matrix, with both dimensions bounds-checked.
pub open spec fn bounds_check_and_gep_2d(
    s: Lowering,
    elem: ArrayElementType,
    base: Value,
    row: Value,
    col: Value,
    rows: usize,
    cols: usize,
) -> (Lowering, Value)
{
    let row_count = Value::Int(rows as u64 as i64);
    let (s1, effective_row) = normalize_index(s, row, row_count);
    let (s2, row_outside) = out_of_bounds(s1, effective_row, row_count);
    let s3 = guard(s2, row_outside, "mat_row_err"@, "mat_row_ok"@, "Array index out of bounds."@);
    let col_count = Value::Int(cols as u64 as i64);
    let (s4, effective_col) = normalize_index(s3, col, col_count);
    let (s5, col_outside) = out_of_bounds(s4, effective_col, col_count);
    let s6 = guard(s5, col_outside, "mat_col_err"@, "mat_col_ok"@, "Array index out of bounds."@);
    let row_scaled = next_value(s6);
    let s7 = op(s6, Op::IntBinary(IntOp::Mul, effective_row, col_count));
    let flat = next_value(s7);
    let s8 = op(s7, Op::IntBinary(IntOp::Add, row_scaled, effective_col));
    let (s9, address) = build_element_ptr(s8, elem, base, flat);
    (s9, address)
}

/// Two floats to a power, as a float.
pub open spec fn build_pow(s: Lowering, left: Value, right: Value) -> (Lowering, Value)
{
    let power = next_value(s);
    let s1 = called(s, Callee::Runtime(RuntimeFn::Pow), seq![left, right]);
    (s1, power)
}

/// A compound assignment's operator on what the element holds and the value beside it. The result
/// is a float when the operator divides or when either side is one, and an integer otherwise.
pub open spec fn combine(
    s: Lowering,
    operator: BinOp,
    current: Value,
    elem: ArrayElementType,
    rhs: Value,
    rhs_type: PinpType,
) -> (Lowering, Value)
{
    let elem_type = element_type(elem);
    let (s1, combined) = if operator == BinOp::Div || elem_type == PinpType::Float
        || rhs_type == PinpType::Float {
        let (s2, left) = promote(s, current, elem_type, PinpType::Float);
        let (s3, right) = promote(s2, rhs, rhs_type, PinpType::Float);
        let (s4, result) = match operator {
            BinOp::Add => {
                let sum = next_value(s3);
                let s5 = op(s3, Op::FloatBinary(FloatOp::Add, left, right));
                (s5, sum)
            },
            BinOp::Sub => {
                let difference = next_value(s3);
                let s6 = op(s3, Op::FloatBinary(FloatOp::Sub, left, right));
                (s6, difference)
            },
            BinOp::Mul => {
                let product = next_value(s3);
                let s7 = op(s3, Op::FloatBinary(FloatOp::Mul, left, right));
                (s7, product)
            },
            BinOp::Div => {
                let quotient = next_value(s3);
                let s8 = op(s3, Op::FloatBinary(FloatOp::Div, left, right));
                (s8, quotient)
            },
            BinOp::Pow => {
                let (s9, power) = build_pow(s3, left, right);
                (s9, power)
            },
            _ => {
                let s10 = failed(s3, CodegenError::Malformed);
                (s10, left)
            },
        };
        (s4, result)
    } else {
        let (s11, left) = promote(s, current, elem_type, PinpType::Int);
        let (s12, right) = promote(s11, rhs, rhs_type, PinpType::Int);
        let (s13, result) = match operator {
            BinOp::Add => {
                let sum = next_value(s12);
                let s14 = op(s12, Op::IntBinary(IntOp::Add, left, right));
                (s14, sum)
            },
            BinOp::Sub => {
                let difference = next_value(s12);
                let s15 = op(s12, Op::IntBinary(IntOp::Sub, left, right));
                (s15, difference)
            },
            BinOp::Mul => {
                let product = next_value(s12);
                let s16 = op(s12, Op::IntBinary(IntOp::Mul, left, right));
                (s16, product)
            },
            BinOp::IntDiv => {
                let quotient = next_value(s12);
                let s17 = op(s12, Op::IntBinary(IntOp::SignedDiv, left, right));
                (s17, quotient)
            },
            BinOp::Mod => {
                let remainder = next_value(s12);
                let s18 = op(s12, Op::IntBinary(IntOp::SignedRem, left, right));
                (s18, remainder)
            },
            BinOp::Pow => {
                let left_float = next_value(s12);
                let s19 = op(s12, Op::Cast(Cast::SignedToFloat, left));
                let right_float = next_value(s19);
                let s20 = op(s19, Op::Cast(Cast::SignedToFloat, right));
                let (s21, power) = build_pow(s20, left_float, right_float);
                let truncated = next_value(s21);
                let s22 = op(s21, Op::Cast(Cast::FloatToSigned, power));
                (s22, truncated)
            },
            _ => {
                let s23 = failed(s12, CodegenError::Malformed);
                (s23, left)
            },
        };
        (s13, result)
    };
    (s1, combined)
}

/// Opens a loop that counts `counter` up from zero while it is below `count`, and goes on in its
/// body. `current` is the count there.
pub open spec fn begin_counted_loop(
    s: Lowering,
    count: Value,
    header: Seq<char>,
    body: Seq<char>,
    exit: Seq<char>,
) -> (Lowering, CountedLoop)
{
    let (s1, counter) = alloca_at_entry(s, PinpType::Int);
    let s2 = op(s1, Op::Store(counter, Value::Int(0)));
    let header_block = next_block(s2);
    let s3 = block_appended(s2, header);
    let body_block = next_block(s3);
    let s4 = block_appended(s3, body);
    let exit_block = next_block(s4);
    let s5 = block_appended(s4, exit);
    let s6 = op(s5, Op::Branch(header_block));
    let s7 = positioned(s6, header_block);
    let (s8, current) = load_counter(s7, counter);
    let cond = next_value(s8);
    let s9 = op(s8, Op::IntCompare(IntPredicate::Slt, current, count));
    let s10 = op(s9, Op::CondBranch(cond, body_block, exit_block));
    let s11 = positioned(s10, body_block);
    (s11, (CountedLoop { counter, current, header: header_block, exit: exit_block }))
}

/// Counts one more pass, goes back to the loop's test, and goes on behind the loop.
pub open spec fn end_counted_loop(s: Lowering, counted: CountedLoop) -> Lowering
{
    let following = next_value(s);
    let s1 = op(s, Op::IntBinary(IntOp::Add, counted.current, Value::Int(1)));
    let s2 = op(s1, Op::Store(counted.counter, following));
    let s3 = op(s2, Op::Branch(counted.header));
    let s4 = positioned(s3, counted.exit);
    s4
}

/// Copies one element, from index `from` of one array to index `to` of another.
pub open spec fn copy_element(
    s: Lowering,
    elem: ArrayElementType,
    source: Value,
    from: Value,
    target: Value,
    to: Value,
) -> Lowering
{
    let (s1, source_ptr) = build_element_ptr(s, elem, source, from);
    let value = next_value(s1);
    let s2 = op(s1, Op::Load(element_ir_type(elem), source_ptr));
    let (s3, target_ptr) = build_element_ptr(s2, elem, target, to);
    let s4 = op(s3, Op::Store(target_ptr, value));
    s4
}

/// `matrix[row, c1..c1+n]`: the row is bounds-checked, and `n` elements of it are copied.
pub open spec fn copy_row(
    s: Lowering,
    elem: ArrayElementType,
    matrix: Value,
    row: Value,
    rows: usize,
    cols: usize,
    slice: DimSlice,
) -> (Lowering, Value)
{
    let (s1, outside) = out_of_bounds(s, row, Value::Int(rows as u64 as i64));
    let s2 = guard(s1, outside, "rslice_err"@, "rslice_ok"@, "Array index out of bounds."@);
    let (s3, target) = build_pinp_alloc(s2, slice.len, elem);
    let row_base = next_value(s3);
    let s4 = op(s3, Op::IntBinary(IntOp::Mul, row, Value::Int(cols as u64 as i64)));
    let (s5, counted) = begin_counted_loop(
        s4,
        Value::Int(slice.len as u64 as i64),
        "rslice_hdr"@,
        "rslice_body"@,
        "rslice_exit"@,
    );
    let source_col = next_value(s5);
    let s6 = op(
        s5,
        Op::IntBinary(IntOp::Add, counted.current, Value::Int(slice.start as u64 as i64)),
    );
    let source_flat = next_value(s6);
    let s7 = op(s6, Op::IntBinary(IntOp::Add, row_base, source_col));
    let s8 = copy_element(s7, elem, matrix, source_flat, target, counted.current);
    let s9 = end_counted_loop(s8, counted);
    (s9, target)
}

/// `matrix[r1..r1+n, col]`: the column is bounds-checked, and `n` elements of it are copied.
pub open spec fn copy_column(
    s: Lowering,
    elem: ArrayElementType,
    matrix: Value,
    col: Value,
    cols: usize,
    slice: DimSlice,
) -> (Lowering, Value)
{
    let col_count = Value::Int(cols as u64 as i64);
    let (s1, outside) = out_of_bounds(s, col, col_count);
    let s2 = guard(s1, outside, "cslice_err"@, "cslice_ok"@, "Array index out of bounds."@);
    let (s3, target) = build_pinp_alloc(s2, slice.len, elem);
    let (s4, counted) = begin_counted_loop(
        s3,
        Value::Int(slice.len as u64 as i64),
        "cslice_hdr"@,
        "cslice_body"@,
        "cslice_exit"@,
    );
    let source_row = next_value(s4);
    let s5 = op(
        s4,
        Op::IntBinary(IntOp::Add, counted.current, Value::Int(slice.start as u64 as i64)),
    );
    let row_offset = next_value(s5);
    let s6 = op(s5, Op::IntBinary(IntOp::Mul, source_row, col_count));
    let source_flat = next_value(s6);
    let s7 = op(s6, Op::IntBinary(IntOp::Add, row_offset, col));
    let s8 = copy_element(s7, elem, matrix, source_flat, target, counted.current);
    let s9 = end_counted_loop(s8, counted);
    (s9, target)
}

/// `matrix[r1..r1+rl, c1..c1+cl]`: `rl * cl` elements are copied, row by row, under a single count.
pub open spec fn index2d_submatrix_code(
    s: Lowering,
    elem: ArrayElementType,
    matrix: Value,
    cols: usize,
    row_slice: DimSlice,
    col_slice: DimSlice,
) -> (Lowering, Value)
{
    let (s1, total) = product(s, row_slice.len, col_slice.len);
    let (s2, target) = build_pinp_alloc(s1, total, elem);
    let width = Value::Int(col_slice.len as u64 as i64);
    let (s3, counted) = begin_counted_loop(
        s2,
        Value::Int(total as u64 as i64),
        "sub_hdr"@,
        "sub_body"@,
        "sub_exit"@,
    );
    let sub_row = next_value(s3);
    let s4 = op(s3, Op::IntBinary(IntOp::SignedDiv, counted.current, width));
    let sub_col = next_value(s4);
    let s5 = op(s4, Op::IntBinary(IntOp::SignedRem, counted.current, width));
    let source_row = next_value(s5);
    let s6 = op(s5, Op::IntBinary(IntOp::Add, sub_row, Value::Int(row_slice.start as u64 as i64)));
    let source_col = next_value(s6);
    let s7 = op(s6, Op::IntBinary(IntOp::Add, sub_col, Value::Int(col_slice.start as u64 as i64)));
    let row_offset = next_value(s7);
    let s8 = op(s7, Op::IntBinary(IntOp::Mul, source_row, Value::Int(cols as u64 as i64)));
    let source_flat = next_value(s8);
    let s9 = op(s8, Op::IntBinary(IntOp::Add, row_offset, source_col));
    let s10 = copy_element(s9, elem, matrix, source_flat, target, counted.current);
    let s11 = end_counted_loop(s10, counted);
    (s11, target)
}

/// The variable of a loop over a range, with its first value in it, and the position the loop
/// stores to next.
pub open spec fn begin_range_slots(
    s: Lowering,
    var_type: PinpType,
    start: Value,
) -> (Lowering, (Value, Value))
{
    let (s1, var_slot) = alloca_at_entry(s, var_type);
    let (s2, position_slot) = alloca_at_entry(s1, PinpType::Int);
    let (s3, first) = if var_type == PinpType::Float {
        let float = next_value(s2);
        let s4 = op(s2, Op::Cast(Cast::SignedToFloat, start));
        (s4, float)
    } else {
        (s2, start)
    };
    let s5 = op(s3, Op::Store(var_slot, first));
    let s6 = op(s5, Op::Store(position_slot, Value::Int(0)));
    (s6, (var_slot, position_slot))
}

/// Advances the variable of a loop over a range by the range's step.
pub open spec fn advance_range_var(
    s: Lowering,
    var_type: PinpType,
    var_slot: Value,
    step: Value,
) -> Lowering
{
    let s1 = if var_type == PinpType::Float {
        let current_float = next_value(s);
        let s2 = op(s, Op::Load(IrType::F64, var_slot));
        let float_step = next_value(s2);
        let s3 = op(s2, Op::Cast(Cast::SignedToFloat, step));
        let following_float = next_value(s3);
        let s4 = op(s3, Op::FloatBinary(FloatOp::Add, current_float, float_step));
        let s5 = op(s4, Op::Store(var_slot, following_float));
        s5
    } else {
        let current_int = next_value(s);
        let s6 = op(s, Op::Load(IrType::I64, var_slot));
        let following_int = next_value(s6);
        let s7 = op(s6, Op::IntBinary(IntOp::Add, current_int, step));
        let s8 = op(s7, Op::Store(var_slot, following_int));
        s8
    };
    s1
}

/// Where a name's value lives: `::name` is always a global, while a bare name is the nearest
/// enclosing local, falling back to a global at the top level.
pub open spec fn var_slot(s: Lowering, sym_id: SymId, global: bool) -> (Lowering, Slot)
{
    let (s1, local) = if global {
        (s, None)
    } else {
        let nearest_local = local_slot(s, sym_id);
        (s, nearest_local)
    };
    let (s2, slot) = match local {
        Some(found) => {
            (s1, found)
        },
        None => {
            let named = global_slot(s1, sym_id);
            let (s3, outer) = match named {
                Some(found) => {
                    (s1, found)
                },
                None => {
                    let s4 = failed(s1, CodegenError::Malformed);
                    (s4, (Slot { place: Value::Zero(IrType::Ptr), value_type: PinpType::Int }))
                },
            };
            (s3, outer)
        },
    };
    (s2, slot)
}

/// Loads the current value of a variable.
pub open spec fn load_var(s: Lowering, sym_id: SymId, global: bool) -> (Lowering, Value)
{
    let (s1, slot) = var_slot(s, sym_id, global);
    let (s2, ir_type) = storable(s1, slot.value_type);
    let value = next_value(s2);
    let s3 = op(s2, Op::Load(ir_type, slot.place));
    (s3, value)
}

/// The slot an assignment writes to. A bare name changes the nearest enclosing local; at the top
/// level one that no frame holds is a module global; any other becomes local to its body, in a slot
/// made on entry to the function.
pub open spec fn resolve_place(s: Lowering, place: Place, rhs_type: PinpType) -> (Lowering, Slot)
{
    let (s1, slot) = match place {
        Place::Global(sym_id) => {
            let (s2, global) = var_slot(s, sym_id, true);
            (s2, global)
        },
        Place::Local(sym_id) => {
            let local = local_slot(s, sym_id);
            let (s3, found) = match local {
                Some(existing) => {
                    (s, existing)
                },
                None => {
                    let nested = inside_function(s);
                    let named = global_slot(s, sym_id);
                    let (s4, outer) = match named {
                        Some(global) if !nested => {
                            (s, global)
                        },
                        _ => {
                            let (s5, fresh) = alloca_at_entry(s, rhs_type);
                            let s6 = name_bound(
                                s5,
                                sym_id,
                                (Slot { place: fresh, value_type: rhs_type }),
                            );
                            (s6, (Slot { place: fresh, value_type: rhs_type }))
                        },
                    };
                    (s4, outer)
                },
            };
            (s3, found)
        },
    };
    (s1, slot)
}

impl<'ast, 'src> CodeGen<'ast, 'src> {
    /// A size as the product of two others. One that does not fit belongs to no checked program.
    pub(super) fn product(&mut self, a: usize, b: usize) -> (r: usize)
        ensures
            final(self).program() == old(self).program(),
            (final(self).state(), r) == product(old(self).state(), a, b),
    {
        match a.checked_mul(b) {
            Some(size) => size,
            None => {
                self.fail(CodegenError::Malformed);
                0
            },
        }
    }

    /// A position as the sum of two others. One that does not fit belongs to no checked program.
    pub(super) fn sum(&mut self, a: usize, b: usize) -> (r: usize)
        ensures
            final(self).program() == old(self).program(),
            (final(self).state(), r) == sum(old(self).state(), a, b),
    {
        match a.checked_add(b) {
            Some(position) => position,
            None => {
                self.fail(CodegenError::Malformed);
                0
            },
        }
    }

    /// The type a slot for a value of this type has. `Void` is not a storable type.
    pub(super) fn storable(&mut self, pinp_type: PinpType) -> (r: IrType)
        ensures
            final(self).program() == old(self).program(),
            (final(self).state(), r) == storable(old(self).state(), pinp_type),
    {
        let found: IrType = match basic_type(pinp_type) {
            Some(ir_type) => {
                ir_type
            },
            None => {
                self.fail(CodegenError::Malformed);
                IrType::I64
            },
        };
        found
    }

    /// A slot in the current function's first block, not at the point of emission, so that it
    /// dominates every use and a loop body does not allocate it again. A string slot is freed
    /// before it is overwritten and again when its scope ends, so it starts out as the empty
    /// string.
    pub(super) fn alloca_at_entry(&mut self, pinp_type: PinpType) -> (r: Value)
        ensures
            final(self).program() == old(self).program(),
            (final(self).state(), r) == alloca_at_entry(old(self).state(), pinp_type),
    {
        let ir_type: IrType = self.storable(pinp_type);
        let slot: Value = self.enter(0, Op::Alloca(ir_type));
        if pinp_type == PinpType::Str {
            let _ = self.enter(1, Op::Store(slot, Value::Zero(IrType::Str)));
        }
        slot
    }

    /// Widens a value up the `Bool -> Int -> Float` lattice when the target type requires it.
    pub(super) fn promote(&mut self, value: Value, from: PinpType, to: PinpType) -> (r: Value)
        ensures
            final(self).program() == old(self).program(),
            (final(self).state(), r) == promote(old(self).state(), value, from, to),
    {
        let widened: Value = match (from, to) {
            (PinpType::Bool, PinpType::Int) => {
                let wide: Value = self.emit(Op::Cast(Cast::ZeroExtend, value));
                wide
            },
            (PinpType::Bool, PinpType::Float) => {
                let wide: Value = self.emit(Op::Cast(Cast::UnsignedToFloat, value));
                wide
            },
            (PinpType::Int, PinpType::Float) => {
                let wide: Value = self.emit(Op::Cast(Cast::SignedToFloat, value));
                wide
            },
            _ => {
                value
            },
        };
        widened
    }

    /// A range value from its fields.
    pub(super) fn build_range(
        &mut self,
        start: Value,
        stop: Value,
        step: Value,
        inclusive: Value,
    ) -> (r: Value)
        ensures
            final(self).program() == old(self).program(),
            (final(self).state(), r) == build_range(
                old(self).state(),
                start,
                stop,
                step,
                inclusive,
            ),
    {
        let with_start: Value = self.emit(Op::InsertField(Value::Undef(IrType::Range), start, 0));
        let with_stop: Value = self.emit(Op::InsertField(with_start, stop, 1));
        let with_step: Value = self.emit(Op::InsertField(with_stop, step, 2));
        let range: Value = self.emit(Op::InsertField(with_step, inclusive, 3));
        range
    }

    /// The fields of a range value.
    pub(super) fn extract_range(&mut self, range: Value) -> (r: RangeParts)
        ensures
            final(self).program() == old(self).program(),
            (final(self).state(), r) == extract_range(old(self).state(), range),
    {
        let start: Value = self.emit(Op::ExtractField(range, 0));
        let stop: Value = self.emit(Op::ExtractField(range, 1));
        let step: Value = self.emit(Op::ExtractField(range, 2));
        let inclusive: Value = self.emit(Op::ExtractField(range, 3));
        (RangeParts { start, stop, step, inclusive })
    }

    /// What a loop counter's slot holds.
    pub(super) fn load_counter(&mut self, counter: Value) -> (r: Value)
        ensures
            final(self).program() == old(self).program(),
            (final(self).state(), r) == load_counter(old(self).state(), counter),
    {
        let index: Value = self.emit(Op::Load(IrType::I64, counter));
        index
    }

    /// Whether a range goes on at `current`: ascending wants `current <= stop` (inclusive) or `<
    /// stop`, descending the mirror, and `going_up` picks the side.
    pub(super) fn range_continue(
        &mut self,
        current: Value,
        stop: Value,
        inclusive: Value,
        going_up: Value,
    ) -> (r: Value)
        ensures
            final(self).program() == old(self).program(),
            (final(self).state(), r) == range_continue(
                old(self).state(),
                current,
                stop,
                inclusive,
                going_up,
            ),
    {
        let le: Value = self.emit(Op::IntCompare(IntPredicate::Sle, current, stop));
        let lt: Value = self.emit(Op::IntCompare(IntPredicate::Slt, current, stop));
        let ge: Value = self.emit(Op::IntCompare(IntPredicate::Sge, current, stop));
        let gt: Value = self.emit(Op::IntCompare(IntPredicate::Sgt, current, stop));
        let up: Value = self.emit(Op::Select(inclusive, le, lt));
        let down: Value = self.emit(Op::Select(inclusive, ge, gt));
        let cond: Value = self.emit(Op::Select(going_up, up, down));
        cond
    }

    /// Whether `candidate` belongs to a range, as closed-form arithmetic: on a step of the range,
    /// and within its bounds in its direction. No branches, no runtime calls.
    pub(super) fn member_test(&mut self, candidate: Value, parts: RangeParts) -> (r: Value)
        ensures
            final(self).program() == old(self).program(),
            (final(self).state(), r) == member_test(old(self).state(), candidate, parts),
    {
        let offset: Value = self.emit(Op::IntBinary(IntOp::Sub, candidate, parts.start));
        let remainder: Value = self.emit(Op::IntBinary(IntOp::SignedRem, offset, parts.step));
        let on_step: Value = self.emit(Op::IntCompare(IntPredicate::Eq, remainder, Value::Int(0)));
        let going_up: Value = self.emit(
            Op::IntCompare(IntPredicate::Sgt, parts.step, Value::Int(0)),
        );
        let within_stop: Value = self.range_continue(
            candidate,
            parts.stop,
            parts.inclusive,
            going_up,
        );
        let ge_start: Value = self.emit(Op::IntCompare(IntPredicate::Sge, candidate, parts.start));
        let le_start: Value = self.emit(Op::IntCompare(IntPredicate::Sle, candidate, parts.start));
        let from_start: Value = self.emit(Op::Select(going_up, ge_start, le_start));
        let member: Value = self.emit(Op::IntBinary(IntOp::And, on_step, within_stop));
        let inside: Value = self.emit(Op::IntBinary(IntOp::And, member, from_start));
        inside
    }

    /// The step of a range that gives none: one up or down for the exclusive forms, and for the
    /// inclusive one the direction is taken from the bounds (up when `stop >= start`).
    pub(super) fn default_step(&mut self, kind: RangeKind, start: Value, stop: Value) -> (r: Value)
        ensures
            final(self).program() == old(self).program(),
            (final(self).state(), r) == default_step(old(self).state(), kind, start, stop),
    {
        let step: Value = match kind {
            RangeKind::UpExclusive => {
                Value::Int(1)
            },
            RangeKind::DownExclusive => {
                Value::Int(-1i64)
            },
            RangeKind::Inclusive => {
                let up: Value = self.emit(Op::IntCompare(IntPredicate::Sge, stop, start));
                let chosen: Value = self.emit(Op::Select(up, Value::Int(1), Value::Int(-1i64)));
                chosen
            },
        };
        step
    }

    /// Raises a runtime error, which never comes back.
    pub(super) fn gen_runtime_error_call(&mut self, message: &'static str)
        ensures
            final(self).program() == old(self).program(),
            final(self).state() == runtime_error_call_code(old(self).state(), message@),
    {
        let text: Value = self.global_string_ptr(message);
        let _ = self.call1(RuntimeFn::RuntimeError, text);
        let _ = self.emit(Op::Unreachable);
    }

    /// Goes on in a fresh block `ok` unless `condition` holds; then a runtime error is raised.
    pub(super) fn guard(
        &mut self,
        condition: Value,
        error: &'static str,
        ok: &'static str,
        message: &'static str,
    )
        ensures
            final(self).program() == old(self).program(),
            final(self).state() == guard(old(self).state(), condition, error@, ok@, message@),
    {
        let error_block: usize = self.append_block(error);
        let ok_block: usize = self.append_block(ok);
        let _ = self.emit(Op::CondBranch(condition, error_block, ok_block));
        self.position_at_end(error_block);
        self.gen_runtime_error_call(message);
        self.position_at_end(ok_block);
    }

    /// Raises a runtime error if `step` is zero: such a range could never advance.
    pub(super) fn guard_zero_step(&mut self, step: Value)
        ensures
            final(self).program() == old(self).program(),
            final(self).state() == guard_zero_step(old(self).state(), step),
    {
        let is_zero: Value = self.emit(Op::IntCompare(IntPredicate::Eq, step, Value::Int(0)));
        self.guard(is_zero, "range_zero_step", "range_ok", "Range step cannot be zero.");
    }

    /// How many bytes so many elements take, as a constant.
    pub(super) fn byte_count(&mut self, count: usize, elem: ArrayElementType) -> (r: Value)
        ensures
            final(self).program() == old(self).program(),
            (final(self).state(), r) == byte_count(old(self).state(), count, elem),
    {
        let bytes: Value = match elem {
            ArrayElementType::Bool => {
                Value::Int(count as u64 as i64)
            },
            _ => {
                let scaled: Value = if count as u64 <= u64::MAX / 8 {
                    Value::Int((count as u64 * 8) as i64)
                } else {
                    self.fail(CodegenError::Malformed);
                    Value::Int(0)
                };
                scaled
            },
        };
        bytes
    }

    /// Storage for so many elements.
    pub(super) fn build_pinp_alloc(&mut self, count: usize, elem: ArrayElementType) -> (r: Value)
        ensures
            final(self).program() == old(self).program(),
            (final(self).state(), r) == build_pinp_alloc(old(self).state(), count, elem),
    {
        let bytes: Value = self.byte_count(count, elem);
        let storage: Value = self.call1(RuntimeFn::Alloc, bytes);
        storage
    }

    /// The address of an element.
    pub(super) fn build_element_ptr(
        &mut self,
        elem: ArrayElementType,
        base: Value,
        index: Value,
    ) -> (r: Value)
        ensures
            final(self).program() == old(self).program(),
            (final(self).state(), r) == build_element_ptr(old(self).state(), elem, base, index),
    {
        let address: Value = self.emit(Op::ElementPtr(element_ir_type(elem), base, index));
        address
    }

    /// An index as counted from the front: a negative one counts from the end.
    pub(super) fn normalize_index(&mut self, index: Value, len: Value) -> (r: Value)
        ensures
            final(self).program() == old(self).program(),
            (final(self).state(), r) == normalize_index(old(self).state(), index, len),
    {
        let is_neg: Value = self.emit(Op::IntCompare(IntPredicate::Slt, index, Value::Int(0)));
        let adjusted: Value = self.emit(Op::IntBinary(IntOp::Add, index, len));
        let effective: Value = self.emit(Op::Select(is_neg, adjusted, index));
        effective
    }

    /// Whether an index lies outside of `0..len`.
    pub(super) fn out_of_bounds(&mut self, index: Value, len: Value) -> (r: Value)
        ensures
            final(self).program() == old(self).program(),
            (final(self).state(), r) == out_of_bounds(old(self).state(), index, len),
    {
        let too_low: Value = self.emit(Op::IntCompare(IntPredicate::Slt, index, Value::Int(0)));
        let too_high: Value = self.emit(Op::IntCompare(IntPredicate::Sge, index, len));
        let outside: Value = self.emit(Op::IntBinary(IntOp::Or, too_low, too_high));
        outside
    }

    /// The address of an element of an array of `length` elements, with a runtime error when
    /// `index` is out of bounds.
    pub(super) fn bounds_check_and_gep(
        &mut self,
        elem: ArrayElementType,
        base: Value,
        index: Value,
        length: usize,
    ) -> (r: Value)
        ensures
            final(self).program() == old(self).program(),
            (final(self).state(), r) == bounds_check_and_gep(
                old(self).state(),
                elem,
                base,
                index,
                length,
            ),
    {
        let n: Value = Value::Int(length as u64 as i64);
        let effective: Value = self.normalize_index(index, n);
        let outside: Value = self.out_of_bounds(effective, n);
        self.guard(outside, "arr_oob", "arr_ok", "Array index out of bounds.");
        let address: Value = self.build_element_ptr(elem, base, effective);
        address
    }

    /// The address of element `[row, col]` of a matrix, with both dimensions bounds-checked.
    pub(super) fn bounds_check_and_gep_2d(
        &mut self,
        elem: ArrayElementType,
        base: Value,
        row: Value,
        col: Value,
        rows: usize,
        cols: usize,
    ) -> (r: Value)
        ensures
            final(self).program() == old(self).program(),
            (final(self).state(), r) == bounds_check_and_gep_2d(
                old(self).state(),
                elem,
                base,
                row,
                col,
                rows,
                cols,
            ),
    {
        let row_count: Value = Value::Int(rows as u64 as i64);
        let effective_row: Value = self.normalize_index(row, row_count);
        let row_outside: Value = self.out_of_bounds(effective_row, row_count);
        self.guard(row_outside, "mat_row_err", "mat_row_ok", "Array index out of bounds.");
        let col_count: Value = Value::Int(cols as u64 as i64);
        let effective_col: Value = self.normalize_index(col, col_count);
        let col_outside: Value = self.out_of_bounds(effective_col, col_count);
        self.guard(col_outside, "mat_col_err", "mat_col_ok", "Array index out of bounds.");
        let row_scaled: Value = self.emit(Op::IntBinary(IntOp::Mul, effective_row, col_count));
        let flat: Value = self.emit(Op::IntBinary(IntOp::Add, row_scaled, effective_col));
        let address: Value = self.build_element_ptr(elem, base, flat);
        address
    }

    /// Two floats to a power, as a float.
    pub(super) fn build_pow(&mut self, left: Value, right: Value) -> (r: Value)
        ensures
            final(self).program() == old(self).program(),
            (final(self).state(), r) == build_pow(old(self).state(), left, right),
    {
        let power: Value = self.call2(RuntimeFn::Pow, left, right);
        power
    }

    /// A compound assignment's operator on what the element holds and the value beside it. The
    /// result is a float when the operator divides or when either side is one, and an integer
    /// otherwise.
    pub(super) fn combine(
        &mut self,
        operator: BinOp,
        current: Value,
        elem: ArrayElementType,
        rhs: Value,
        rhs_type: PinpType,
    ) -> (r: Value)
        ensures
            final(self).program() == old(self).program(),
            (final(self).state(), r) == combine(
                old(self).state(),
                operator,
                current,
                elem,
                rhs,
                rhs_type,
            ),
    {
        let elem_type: PinpType = element_type(elem);
        let combined: Value = if operator == BinOp::Div || elem_type == PinpType::Float
            || rhs_type == PinpType::Float {
            let left: Value = self.promote(current, elem_type, PinpType::Float);
            let right: Value = self.promote(rhs, rhs_type, PinpType::Float);
            let result: Value = match operator {
                BinOp::Add => {
                    let sum: Value = self.emit(Op::FloatBinary(FloatOp::Add, left, right));
                    sum
                },
                BinOp::Sub => {
                    let difference: Value = self.emit(Op::FloatBinary(FloatOp::Sub, left, right));
                    difference
                },
                BinOp::Mul => {
                    let product: Value = self.emit(Op::FloatBinary(FloatOp::Mul, left, right));
                    product
                },
                BinOp::Div => {
                    let quotient: Value = self.emit(Op::FloatBinary(FloatOp::Div, left, right));
                    quotient
                },
                BinOp::Pow => {
                    let power: Value = self.build_pow(left, right);
                    power
                },
                _ => {
                    self.fail(CodegenError::Malformed);
                    left
                },
            };
            result
        } else {
            let left: Value = self.promote(current, elem_type, PinpType::Int);
            let right: Value = self.promote(rhs, rhs_type, PinpType::Int);
            let result: Value = match operator {
                BinOp::Add => {
                    let sum: Value = self.emit(Op::IntBinary(IntOp::Add, left, right));
                    sum
                },
                BinOp::Sub => {
                    let difference: Value = self.emit(Op::IntBinary(IntOp::Sub, left, right));
                    difference
                },
                BinOp::Mul => {
                    let product: Value = self.emit(Op::IntBinary(IntOp::Mul, left, right));
                    product
                },
                BinOp::IntDiv => {
                    let quotient: Value = self.emit(Op::IntBinary(IntOp::SignedDiv, left, right));
                    quotient
                },
                BinOp::Mod => {
                    let remainder: Value = self.emit(Op::IntBinary(IntOp::SignedRem, left, right));
                    remainder
                },
                BinOp::Pow => {
                    let left_float: Value = self.emit(Op::Cast(Cast::SignedToFloat, left));
                    let right_float: Value = self.emit(Op::Cast(Cast::SignedToFloat, right));
                    let power: Value = self.build_pow(left_float, right_float);
                    let truncated: Value = self.emit(Op::Cast(Cast::FloatToSigned, power));
                    truncated
                },
                _ => {
                    self.fail(CodegenError::Malformed);
                    left
                },
            };
            result
        };
        combined
    }

    /// Opens a loop that counts `counter` up from zero while it is below `count`, and goes on in
    /// its body. `current` is the count there.
    pub(super) fn begin_counted_loop(
        &mut self,
        count: Value,
        header: &'static str,
        body: &'static str,
        exit: &'static str,
    ) -> (r: CountedLoop)
        ensures
            final(self).program() == old(self).program(),
            (final(self).state(), r) == begin_counted_loop(
                old(self).state(),
                count,
                header@,
                body@,
                exit@,
            ),
    {
        let counter: Value = self.alloca_at_entry(PinpType::Int);
        let _ = self.emit(Op::Store(counter, Value::Int(0)));
        let header_block: usize = self.append_block(header);
        let body_block: usize = self.append_block(body);
        let exit_block: usize = self.append_block(exit);
        let _ = self.emit(Op::Branch(header_block));
        self.position_at_end(header_block);
        let current: Value = self.load_counter(counter);
        let cond: Value = self.emit(Op::IntCompare(IntPredicate::Slt, current, count));
        let _ = self.emit(Op::CondBranch(cond, body_block, exit_block));
        self.position_at_end(body_block);
        (CountedLoop { counter, current, header: header_block, exit: exit_block })
    }

    /// Counts one more pass, goes back to the loop's test, and goes on behind the loop.
    pub(super) fn end_counted_loop(&mut self, counted: CountedLoop)
        ensures
            final(self).program() == old(self).program(),
            final(self).state() == end_counted_loop(old(self).state(), counted),
    {
        let following: Value = self.emit(Op::IntBinary(IntOp::Add, counted.current, Value::Int(1)));
        let _ = self.emit(Op::Store(counted.counter, following));
        let _ = self.emit(Op::Branch(counted.header));
        self.position_at_end(counted.exit);
    }

    /// Copies one element, from index `from` of one array to index `to` of another.
    pub(super) fn copy_element(
        &mut self,
        elem: ArrayElementType,
        source: Value,
        from: Value,
        target: Value,
        to: Value,
    )
        ensures
            final(self).program() == old(self).program(),
            final(self).state() == copy_element(old(self).state(), elem, source, from, target, to),
    {
        let source_ptr: Value = self.build_element_ptr(elem, source, from);
        let value: Value = self.emit(Op::Load(element_ir_type(elem), source_ptr));
        let target_ptr: Value = self.build_element_ptr(elem, target, to);
        let _ = self.emit(Op::Store(target_ptr, value));
    }

    /// `matrix[row, c1..c1+n]`: the row is bounds-checked, and `n` elements of it are copied.
    pub(super) fn copy_row(
        &mut self,
        elem: ArrayElementType,
        matrix: Value,
        row: Value,
        rows: usize,
        cols: usize,
        slice: DimSlice,
    ) -> (r: Value)
        ensures
            final(self).program() == old(self).program(),
            (final(self).state(), r) == copy_row(
                old(self).state(),
                elem,
                matrix,
                row,
                rows,
                cols,
                slice,
            ),
    {
        let outside: Value = self.out_of_bounds(row, Value::Int(rows as u64 as i64));
        self.guard(outside, "rslice_err", "rslice_ok", "Array index out of bounds.");
        let target: Value = self.build_pinp_alloc(slice.len, elem);
        let row_base: Value = self.emit(
            Op::IntBinary(IntOp::Mul, row, Value::Int(cols as u64 as i64)),
        );
        let counted: CountedLoop = self.begin_counted_loop(
            Value::Int(slice.len as u64 as i64),
            "rslice_hdr",
            "rslice_body",
            "rslice_exit",
        );
        let source_col: Value = self.emit(
            Op::IntBinary(IntOp::Add, counted.current, Value::Int(slice.start as u64 as i64)),
        );
        let source_flat: Value = self.emit(Op::IntBinary(IntOp::Add, row_base, source_col));
        self.copy_element(elem, matrix, source_flat, target, counted.current);
        self.end_counted_loop(counted);
        target
    }

    /// `matrix[r1..r1+n, col]`: the column is bounds-checked, and `n` elements of it are copied.
    pub(super) fn copy_column(
        &mut self,
        elem: ArrayElementType,
        matrix: Value,
        col: Value,
        cols: usize,
        slice: DimSlice,
    ) -> (r: Value)
        ensures
            final(self).program() == old(self).program(),
            (final(self).state(), r) == copy_column(
                old(self).state(),
                elem,
                matrix,
                col,
                cols,
                slice,
            ),
    {
        let col_count: Value = Value::Int(cols as u64 as i64);
        let outside: Value = self.out_of_bounds(col, col_count);
        self.guard(outside, "cslice_err", "cslice_ok", "Array index out of bounds.");
        let target: Value = self.build_pinp_alloc(slice.len, elem);
        let counted: CountedLoop = self.begin_counted_loop(
            Value::Int(slice.len as u64 as i64),
            "cslice_hdr",
            "cslice_body",
            "cslice_exit",
        );
        let source_row: Value = self.emit(
            Op::IntBinary(IntOp::Add, counted.current, Value::Int(slice.start as u64 as i64)),
        );
        let row_offset: Value = self.emit(Op::IntBinary(IntOp::Mul, source_row, col_count));
        let source_flat: Value = self.emit(Op::IntBinary(IntOp::Add, row_offset, col));
        self.copy_element(elem, matrix, source_flat, target, counted.current);
        self.end_counted_loop(counted);
        target
    }

    /// `matrix[r1..r1+rl, c1..c1+cl]`: `rl * cl` elements are copied, row by row, under a single
    /// count.
    pub(super) fn gen_index2d_submatrix(
        &mut self,
        elem: ArrayElementType,
        matrix: Value,
        cols: usize,
        row_slice: DimSlice,
        col_slice: DimSlice,
    ) -> (r: Value)
        ensures
            final(self).program() == old(self).program(),
            (final(self).state(), r) == index2d_submatrix_code(
                old(self).state(),
                elem,
                matrix,
                cols,
                row_slice,
                col_slice,
            ),
    {
        let total: usize = self.product(row_slice.len, col_slice.len);
        let target: Value = self.build_pinp_alloc(total, elem);
        let width: Value = Value::Int(col_slice.len as u64 as i64);
        let counted: CountedLoop = self.begin_counted_loop(
            Value::Int(total as u64 as i64),
            "sub_hdr",
            "sub_body",
            "sub_exit",
        );
        let sub_row: Value = self.emit(Op::IntBinary(IntOp::SignedDiv, counted.current, width));
        let sub_col: Value = self.emit(Op::IntBinary(IntOp::SignedRem, counted.current, width));
        let source_row: Value = self.emit(
            Op::IntBinary(IntOp::Add, sub_row, Value::Int(row_slice.start as u64 as i64)),
        );
        let source_col: Value = self.emit(
            Op::IntBinary(IntOp::Add, sub_col, Value::Int(col_slice.start as u64 as i64)),
        );
        let row_offset: Value = self.emit(
            Op::IntBinary(IntOp::Mul, source_row, Value::Int(cols as u64 as i64)),
        );
        let source_flat: Value = self.emit(Op::IntBinary(IntOp::Add, row_offset, source_col));
        self.copy_element(elem, matrix, source_flat, target, counted.current);
        self.end_counted_loop(counted);
        target
    }

    /// The variable of a loop over a range, with its first value in it, and the position the loop
    /// stores to next.
    pub(super) fn begin_range_slots(
        &mut self,
        var_type: PinpType,
        start: Value,
    ) -> (r: (Value, Value))
        ensures
            final(self).program() == old(self).program(),
            (final(self).state(), r) == begin_range_slots(old(self).state(), var_type, start),
    {
        let var_slot: Value = self.alloca_at_entry(var_type);
        let position_slot: Value = self.alloca_at_entry(PinpType::Int);
        let first: Value = if var_type == PinpType::Float {
            let float: Value = self.emit(Op::Cast(Cast::SignedToFloat, start));
            float
        } else {
            start
        };
        let _ = self.emit(Op::Store(var_slot, first));
        let _ = self.emit(Op::Store(position_slot, Value::Int(0)));
        (var_slot, position_slot)
    }

    /// Advances the variable of a loop over a range by the range's step.
    pub(super) fn advance_range_var(&mut self, var_type: PinpType, var_slot: Value, step: Value)
        ensures
            final(self).program() == old(self).program(),
            final(self).state() == advance_range_var(old(self).state(), var_type, var_slot, step),
    {
        if var_type == PinpType::Float {
            let current_float: Value = self.emit(Op::Load(IrType::F64, var_slot));
            let float_step: Value = self.emit(Op::Cast(Cast::SignedToFloat, step));
            let following_float: Value = self.emit(
                Op::FloatBinary(FloatOp::Add, current_float, float_step),
            );
            let _ = self.emit(Op::Store(var_slot, following_float));
        } else {
            let current_int: Value = self.emit(Op::Load(IrType::I64, var_slot));
            let following_int: Value = self.emit(Op::IntBinary(IntOp::Add, current_int, step));
            let _ = self.emit(Op::Store(var_slot, following_int));
        }
    }

    /// Where a name's value lives: `::name` is always a global, while a bare name is the nearest
    /// enclosing local, falling back to a global at the top level.
    pub(super) fn var_slot(&mut self, sym_id: SymId, global: bool) -> (r: Slot)
        ensures
            final(self).program() == old(self).program(),
            (final(self).state(), r) == var_slot(old(self).state(), sym_id, global),
    {
        let local: Option<Slot> = if global {
            None
        } else {
            let nearest_local: Option<Slot> = self.find_local(sym_id);
            nearest_local
        };
        let slot: Slot = match local {
            Some(found) => {
                found
            },
            None => {
                let named: Option<Slot> = self.find_global(sym_id);
                let outer: Slot = match named {
                    Some(found) => {
                        found
                    },
                    None => {
                        self.fail(CodegenError::Malformed);
                        (Slot { place: Value::Zero(IrType::Ptr), value_type: PinpType::Int })
                    },
                };
                outer
            },
        };
        slot
    }

    /// Loads the current value of a variable.
    pub(super) fn load_var(&mut self, sym_id: SymId, global: bool) -> (r: Value)
        ensures
            final(self).program() == old(self).program(),
            (final(self).state(), r) == load_var(old(self).state(), sym_id, global),
    {
        let slot: Slot = self.var_slot(sym_id, global);
        let ir_type: IrType = self.storable(slot.value_type);
        let value: Value = self.emit(Op::Load(ir_type, slot.place));
        value
    }

    /// The slot an assignment writes to. A bare name changes the nearest enclosing local; at the
    /// top level one that no frame holds is a module global; any other becomes local to its body,
    /// in a slot made on entry to the function.
    pub(super) fn resolve_place(&mut self, place: Place, rhs_type: PinpType) -> (r: Slot)
        ensures
            final(self).program() == old(self).program(),
            (final(self).state(), r) == resolve_place(old(self).state(), place, rhs_type),
    {
        let slot: Slot = match place {
            Place::Global(sym_id) => {
                let global: Slot = self.var_slot(sym_id, true);
                global
            },
            Place::Local(sym_id) => {
                let local: Option<Slot> = self.find_local(sym_id);
                let found: Slot = match local {
                    Some(existing) => {
                        existing
                    },
                    None => {
                        let nested: bool = self.is_in_function();
                        let named: Option<Slot> = self.find_global(sym_id);
                        let outer: Slot = match named {
                            Some(global) if !nested => {
                                global
                            },
                            _ => {
                                let fresh: Value = self.alloca_at_entry(rhs_type);
                                self.bind(sym_id, (Slot { place: fresh, value_type: rhs_type }));
                                (Slot { place: fresh, value_type: rhs_type })
                            },
                        };
                        outer
                    },
                };
                found
            },
        };
        slot
    }
}

} // verus!
