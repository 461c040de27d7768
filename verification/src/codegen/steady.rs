//! Every shape that [`super::emit`] emits leaves a module under construction sound.

use vstd::prelude::*;

use super::builder::{
    CodegenError, Lowering, Slot, block_appended, called, entered, entry_block, failed,
    global_slot, inside_function, local_slot, name_bound, next_block, next_text, next_value, op,
    positioned, text_added,
};
use super::emit::{
    CountedLoop, DimSlice, RangeParts, product, sum, advance_range_var, alloca_at_entry,
    begin_counted_loop, begin_range_slots, bounds_check_and_gep, bounds_check_and_gep_2d,
    build_element_ptr, build_pinp_alloc, build_pow, build_range, byte_count, combine, copy_column,
    copy_element, copy_row, default_step, end_counted_loop, extract_range, guard, guard_zero_step,
    index2d_submatrix_code, load_counter, load_var, member_test, normalize_index, out_of_bounds,
    promote, range_continue, resolve_place, runtime_error_call_code, storable, var_slot,
};
use super::ir::{
    Callee, Cast, FloatOp, InstView, IntOp, IntPredicate, IrType, Op, RuntimeFn, Value, basic_type,
    element_ir_type, element_type,
};
use super::validity::{
    countable, flows, grows, homed, homes, lemma_block_appended, lemma_emitted, lemma_entered,
    lemma_failed, lemma_global_slot, lemma_homes_len, lemma_local_slot, lemma_name_bound,
    lemma_positioned, lemma_shape_len, lemma_text_added, live, moved, near, shape, sound, usable,
};
use crate::parser::ast::{ArrayElementType, BinOp, PinpType, Place, RangeKind, SymId};

verus! {

pub proof fn lemma_storable(s: Lowering, pinp_type: PinpType)
    ensures
        ({
            let (t, r) = storable(s, pinp_type);
            &&& grows(s, t)
            &&& t.current == s.current
            &&& t.blocks.len() == s.blocks.len()
            &&& live(s) && countable(t) ==> {
                &&& live(t)
                &&& homes(t) == homes(s)
                &&& shape(t) == shape(s)
            }
        }),
{
    broadcast use lemma_shape_len, lemma_homes_len;

    let (s1, found) = match basic_type(pinp_type) {
        Some(ir_type) => {
            (s, ir_type)
        },
        None => {
            lemma_failed(s, CodegenError::Malformed);
            let s2 = failed(s, CodegenError::Malformed);
            (s2, IrType::I64)
        },
    };
}

/// A slot changes no shape: it is placed where the function starts.
pub proof fn lemma_alloca_at_entry(s: Lowering, pinp_type: PinpType)
    ensures
        ({
            let (t, r) = alloca_at_entry(s, pinp_type);
            &&& grows(s, t)
            &&& t.current == s.current
            &&& t.blocks.len() == s.blocks.len()
            &&& live(s) && countable(t) ==> {
                &&& live(t)
                &&& homes(t) == homes(s)
                &&& shape(t) == shape(s)
                &&& usable(t, r)
            }
        }),
{
    lemma_storable(s, pinp_type);
    let (s1, ir_type) = storable(s, pinp_type);
    lemma_entered(s1, 0, Op::Alloca(ir_type));
    let slot = next_value(s1);
    let s2 = entered(s1, 0, Op::Alloca(ir_type));
    let store = Op::Store(slot, Value::Zero(IrType::Str));
    lemma_entered(s2, 1, store);
    if live(s) && countable(s2) {
        reveal(entered);
        if let Some(entry) = entry_block(s1) {
            assert(s2.blocks[entry as int].insts[0] == s1.insts.len() as usize);
            assert(s2.insts[s1.insts.len() as int] == InstView::Op(Op::Alloca(ir_type)));
        }
    }
}

/// A size changes nothing but perhaps the failure.
pub proof fn lemma_product(s: Lowering, a: usize, b: usize)
    ensures
        ({
            let (t, r) = product(s, a, b);
            &&& grows(s, t)
            &&& t.current == s.current
            &&& t.blocks.len() == s.blocks.len()
            &&& live(s) && countable(t) ==> {
                &&& live(t)
                &&& homes(t) == homes(s)
                &&& shape(t) == shape(s)
            }
        }),
{
    lemma_failed(s, CodegenError::Malformed);
}

/// A position changes nothing but perhaps the failure.
pub proof fn lemma_sum(s: Lowering, a: usize, b: usize)
    ensures
        ({
            let (t, r) = sum(s, a, b);
            &&& grows(s, t)
            &&& t.current == s.current
            &&& t.blocks.len() == s.blocks.len()
            &&& live(s) && countable(t) ==> {
                &&& live(t)
                &&& homes(t) == homes(s)
                &&& shape(t) == shape(s)
            }
        }),
{
    lemma_failed(s, CodegenError::Malformed);
}


pub proof fn lemma_promote(s: Lowering, value: Value, from: PinpType, to: PinpType)
    ensures
        ({
            let (t, r) = promote(s, value, from, to);
            &&& grows(s, t)
            &&& t.current == s.current
            &&& t.blocks.len() == s.blocks.len()
            &&& live(s) && usable(s, value) && countable(t) ==> {
                &&& live(t)
                &&& homes(t) == homes(s)
                &&& shape(t) == shape(s)
                &&& usable(t, r)
            }
        }),
{
    broadcast use lemma_shape_len, lemma_homes_len;

    let (s1, widened) = match (from, to) {
        (PinpType::Bool, PinpType::Int) => {
            lemma_emitted(s, InstView::Op(Op::Cast(Cast::ZeroExtend, value)));
            let wide = next_value(s);
            let s2 = op(s, Op::Cast(Cast::ZeroExtend, value));
            (s2, wide)
        },
        (PinpType::Bool, PinpType::Float) => {
            lemma_emitted(s, InstView::Op(Op::Cast(Cast::UnsignedToFloat, value)));
            let wide = next_value(s);
            let s3 = op(s, Op::Cast(Cast::UnsignedToFloat, value));
            (s3, wide)
        },
        (PinpType::Int, PinpType::Float) => {
            lemma_emitted(s, InstView::Op(Op::Cast(Cast::SignedToFloat, value)));
            let wide = next_value(s);
            let s4 = op(s, Op::Cast(Cast::SignedToFloat, value));
            (s4, wide)
        },
        _ => {
            (s, value)
        },
    };
}

pub proof fn lemma_build_range(
    s: Lowering,
    start: Value,
    stop: Value,
    step: Value,
    inclusive: Value,
)
    ensures
        ({
            let (t, r) = build_range(s, start, stop, step, inclusive);
            &&& grows(s, t)
            &&& t.current == s.current
            &&& t.blocks.len() == s.blocks.len()
            &&& live(s) && usable(s, start) && usable(s, stop) && usable(s, step)
                && usable(s, inclusive) && countable(t) ==> {
                &&& live(t)
                &&& homes(t) == homes(s)
                &&& shape(t) == shape(s)
                &&& usable(t, r)
            }
        }),
{
    broadcast use lemma_shape_len, lemma_homes_len;

    lemma_emitted(s, InstView::Op(Op::InsertField(Value::Undef(IrType::Range), start, 0)));
    let with_start = next_value(s);
    let s1 = op(s, Op::InsertField(Value::Undef(IrType::Range), start, 0));
    lemma_emitted(s1, InstView::Op(Op::InsertField(with_start, stop, 1)));
    let with_stop = next_value(s1);
    let s2 = op(s1, Op::InsertField(with_start, stop, 1));
    lemma_emitted(s2, InstView::Op(Op::InsertField(with_stop, step, 2)));
    let with_step = next_value(s2);
    let s3 = op(s2, Op::InsertField(with_stop, step, 2));
    lemma_emitted(s3, InstView::Op(Op::InsertField(with_step, inclusive, 3)));
}

pub proof fn lemma_extract_range(s: Lowering, range: Value)
    ensures
        ({
            let (t, r) = extract_range(s, range);
            &&& grows(s, t)
            &&& t.current == s.current
            &&& t.blocks.len() == s.blocks.len()
            &&& live(s) && usable(s, range) && countable(t) ==> {
                &&& live(t)
                &&& homes(t) == homes(s)
                &&& shape(t) == shape(s)
                &&& usable(t, r.start)
                &&& usable(t, r.stop)
                &&& usable(t, r.step)
                &&& usable(t, r.inclusive)
            }
        }),
{
    broadcast use lemma_shape_len, lemma_homes_len;

    lemma_emitted(s, InstView::Op(Op::ExtractField(range, 0)));
    let s1 = op(s, Op::ExtractField(range, 0));
    lemma_emitted(s1, InstView::Op(Op::ExtractField(range, 1)));
    let s2 = op(s1, Op::ExtractField(range, 1));
    lemma_emitted(s2, InstView::Op(Op::ExtractField(range, 2)));
    let s3 = op(s2, Op::ExtractField(range, 2));
    lemma_emitted(s3, InstView::Op(Op::ExtractField(range, 3)));
}

pub proof fn lemma_load_counter(s: Lowering, counter: Value)
    ensures
        ({
            let (t, r) = load_counter(s, counter);
            &&& grows(s, t)
            &&& t.current == s.current
            &&& t.blocks.len() == s.blocks.len()
            &&& live(s) && usable(s, counter) && countable(t) ==> {
                &&& live(t)
                &&& homes(t) == homes(s)
                &&& shape(t) == shape(s)
                &&& usable(t, r)
            }
        }),
{
    broadcast use lemma_shape_len, lemma_homes_len;

    lemma_emitted(s, InstView::Op(Op::Load(IrType::I64, counter)));
}

pub proof fn lemma_range_continue(
    s: Lowering,
    current: Value,
    stop: Value,
    inclusive: Value,
    going_up: Value,
)
    ensures
        ({
            let (t, r) = range_continue(s, current, stop, inclusive, going_up);
            &&& grows(s, t)
            &&& t.current == s.current
            &&& t.blocks.len() == s.blocks.len()
            &&& live(s) && usable(s, current) && usable(s, stop) && usable(s, inclusive)
                && usable(s, going_up) && countable(t) ==> {
                &&& live(t)
                &&& homes(t) == homes(s)
                &&& shape(t) == shape(s)
                &&& usable(t, r)
            }
        }),
{
    broadcast use lemma_shape_len, lemma_homes_len;

    lemma_emitted(s, InstView::Op(Op::IntCompare(IntPredicate::Sle, current, stop)));
    let le = next_value(s);
    let s1 = op(s, Op::IntCompare(IntPredicate::Sle, current, stop));
    lemma_emitted(s1, InstView::Op(Op::IntCompare(IntPredicate::Slt, current, stop)));
    let lt = next_value(s1);
    let s2 = op(s1, Op::IntCompare(IntPredicate::Slt, current, stop));
    lemma_emitted(s2, InstView::Op(Op::IntCompare(IntPredicate::Sge, current, stop)));
    let ge = next_value(s2);
    let s3 = op(s2, Op::IntCompare(IntPredicate::Sge, current, stop));
    lemma_emitted(s3, InstView::Op(Op::IntCompare(IntPredicate::Sgt, current, stop)));
    let gt = next_value(s3);
    let s4 = op(s3, Op::IntCompare(IntPredicate::Sgt, current, stop));
    lemma_emitted(s4, InstView::Op(Op::Select(inclusive, le, lt)));
    let up = next_value(s4);
    let s5 = op(s4, Op::Select(inclusive, le, lt));
    lemma_emitted(s5, InstView::Op(Op::Select(inclusive, ge, gt)));
    let down = next_value(s5);
    let s6 = op(s5, Op::Select(inclusive, ge, gt));
    lemma_emitted(s6, InstView::Op(Op::Select(going_up, up, down)));
}

pub proof fn lemma_member_test(s: Lowering, candidate: Value, parts: RangeParts)
    ensures
        ({
            let (t, r) = member_test(s, candidate, parts);
            &&& grows(s, t)
            &&& t.current == s.current
            &&& t.blocks.len() == s.blocks.len()
            &&& live(s) && usable(s, candidate) && usable(s, parts.start) && usable(s, parts.stop)
                && usable(s, parts.step) && usable(s, parts.inclusive) && countable(t) ==> {
                &&& live(t)
                &&& homes(t) == homes(s)
                &&& shape(t) == shape(s)
                &&& usable(t, r)
            }
        }),
{
    broadcast use lemma_shape_len, lemma_homes_len;

    lemma_emitted(s, InstView::Op(Op::IntBinary(IntOp::Sub, candidate, parts.start)));
    let offset = next_value(s);
    let s1 = op(s, Op::IntBinary(IntOp::Sub, candidate, parts.start));
    lemma_emitted(s1, InstView::Op(Op::IntBinary(IntOp::SignedRem, offset, parts.step)));
    let remainder = next_value(s1);
    let s2 = op(s1, Op::IntBinary(IntOp::SignedRem, offset, parts.step));
    lemma_emitted(s2, InstView::Op(Op::IntCompare(IntPredicate::Eq, remainder, Value::Int(0))));
    let on_step = next_value(s2);
    let s3 = op(s2, Op::IntCompare(IntPredicate::Eq, remainder, Value::Int(0)));
    lemma_emitted(s3, InstView::Op(Op::IntCompare(IntPredicate::Sgt, parts.step, Value::Int(0))));
    let going_up = next_value(s3);
    let s4 = op(s3, Op::IntCompare(IntPredicate::Sgt, parts.step, Value::Int(0)));
    lemma_range_continue(s4, candidate, parts.stop, parts.inclusive, going_up);
    let (s5, within_stop) = range_continue(s4, candidate, parts.stop, parts.inclusive, going_up);
    lemma_emitted(s5, InstView::Op(Op::IntCompare(IntPredicate::Sge, candidate, parts.start)));
    let ge_start = next_value(s5);
    let s6 = op(s5, Op::IntCompare(IntPredicate::Sge, candidate, parts.start));
    lemma_emitted(s6, InstView::Op(Op::IntCompare(IntPredicate::Sle, candidate, parts.start)));
    let le_start = next_value(s6);
    let s7 = op(s6, Op::IntCompare(IntPredicate::Sle, candidate, parts.start));
    lemma_emitted(s7, InstView::Op(Op::Select(going_up, ge_start, le_start)));
    let from_start = next_value(s7);
    let s8 = op(s7, Op::Select(going_up, ge_start, le_start));
    lemma_emitted(s8, InstView::Op(Op::IntBinary(IntOp::And, on_step, within_stop)));
    let member = next_value(s8);
    let s9 = op(s8, Op::IntBinary(IntOp::And, on_step, within_stop));
    lemma_emitted(s9, InstView::Op(Op::IntBinary(IntOp::And, member, from_start)));
}

pub proof fn lemma_default_step(s: Lowering, kind: RangeKind, start: Value, stop: Value)
    ensures
        ({
            let (t, r) = default_step(s, kind, start, stop);
            &&& grows(s, t)
            &&& t.current == s.current
            &&& t.blocks.len() == s.blocks.len()
            &&& live(s) && usable(s, start) && usable(s, stop) && countable(t) ==> {
                &&& live(t)
                &&& homes(t) == homes(s)
                &&& shape(t) == shape(s)
                &&& usable(t, r)
            }
        }),
{
    broadcast use lemma_shape_len, lemma_homes_len;

    let (s1, step) = match kind {
        RangeKind::UpExclusive => {
            (s, Value::Int(1))
        },
        RangeKind::DownExclusive => {
            (s, Value::Int(-1i64))
        },
        RangeKind::Inclusive => {
            lemma_emitted(s, InstView::Op(Op::IntCompare(IntPredicate::Sge, stop, start)));
            let up = next_value(s);
            let s2 = op(s, Op::IntCompare(IntPredicate::Sge, stop, start));
            lemma_emitted(s2, InstView::Op(Op::Select(up, Value::Int(1), Value::Int(-1i64))));
            let chosen = next_value(s2);
            let s3 = op(s2, Op::Select(up, Value::Int(1), Value::Int(-1i64)));
            (s3, chosen)
        },
    };
}

proof fn lemma_runtime_error_call_code(s: Lowering, message: Seq<char>)
    ensures
        ({
            let t = runtime_error_call_code(s, message);
            &&& grows(s, t)
            &&& t.current == s.current
            &&& t.blocks.len() == s.blocks.len()
            &&& live(s) && countable(t) ==> {
                &&& sound(t)
                &&& homes(t) == homes(s)
                &&& shape(t) == shape(s).update(s.current as int, 1)
            }
        }),
{
    broadcast use lemma_shape_len, lemma_homes_len;

    lemma_text_added(s, message);
    let text = next_text(s);
    let s1 = text_added(s, message);
    lemma_emitted(s1, InstView::Call(Callee::Runtime(RuntimeFn::RuntimeError), seq![text]));
    let s2 = called(s1, Callee::Runtime(RuntimeFn::RuntimeError), seq![text]);
    lemma_emitted(s2, InstView::Op(Op::Unreachable));
}

proof fn lemma_guard(
    s: Lowering,
    condition: Value,
    error: Seq<char>,
    ok: Seq<char>,
    message: Seq<char>,
)
    ensures
        ({
            let t = guard(s, condition, error, ok, message);
            &&& grows(s, t)
            &&& live(s) && usable(s, condition) && countable(t) ==> {
                &&& flows(s, t)
            }
        }),
{
    broadcast use lemma_shape_len, lemma_homes_len;

    lemma_block_appended(s, error);
    let error_block = next_block(s);
    let s1 = block_appended(s, error);
    lemma_block_appended(s1, ok);
    let ok_block = next_block(s1);
    let s2 = block_appended(s1, ok);
    lemma_emitted(s2, InstView::Op(Op::CondBranch(condition, error_block, ok_block)));
    let s3 = op(s2, Op::CondBranch(condition, error_block, ok_block));
    lemma_positioned(s3, error_block);
    let s4 = positioned(s3, error_block);
    lemma_runtime_error_call_code(s4, message);
    let s5 = runtime_error_call_code(s4, message);
    lemma_positioned(s5, ok_block);
    let s6 = positioned(s5, ok_block);
    if live(s) && usable(s, condition) && countable(s6) {
        assert(shape(s6) =~= moved(
            shape(s),
            s.current as int,
            s6.blocks.len() as int,
            s6.current as int,
        ));
        assert(homes(s6) =~= homed(homes(s), s6.blocks.len() as int, homes(s)[s.current as int]));
    }
}

pub proof fn lemma_guard_zero_step(s: Lowering, step: Value)
    ensures
        ({
            let t = guard_zero_step(s, step);
            &&& grows(s, t)
            &&& live(s) && usable(s, step) && countable(t) ==> {
                &&& flows(s, t)
            }
        }),
{
    broadcast use lemma_shape_len, lemma_homes_len;

    lemma_emitted(s, InstView::Op(Op::IntCompare(IntPredicate::Eq, step, Value::Int(0))));
    let is_zero = next_value(s);
    let s1 = op(s, Op::IntCompare(IntPredicate::Eq, step, Value::Int(0)));
    lemma_guard(s1, is_zero, "range_zero_step"@, "range_ok"@, "Range step cannot be zero."@);
    let s2 = guard(s1, is_zero, "range_zero_step"@, "range_ok"@, "Range step cannot be zero."@);
    if live(s) && usable(s, step) && countable(s2) {
        assert(shape(s2) =~= moved(
            shape(s),
            s.current as int,
            s2.blocks.len() as int,
            s2.current as int,
        ));
        assert(homes(s2) =~= homed(homes(s), s2.blocks.len() as int, homes(s)[s.current as int]));
    }
}

pub proof fn lemma_byte_count(s: Lowering, count: usize, elem: ArrayElementType)
    ensures
        ({
            let (t, r) = byte_count(s, count, elem);
            &&& grows(s, t)
            &&& t.current == s.current
            &&& t.blocks.len() == s.blocks.len()
            &&& live(s) && countable(t) ==> {
                &&& live(t)
                &&& homes(t) == homes(s)
                &&& shape(t) == shape(s)
                &&& usable(t, r)
            }
        }),
{
    broadcast use lemma_shape_len, lemma_homes_len;

    let (s1, bytes) = match elem {
        ArrayElementType::Bool => {
            (s, Value::Int(count as u64 as i64))
        },
        _ => {
            let (s2, scaled) = if count as u64 <= u64::MAX / 8 {
                (s, Value::Int((count as u64 * 8) as i64))
            } else {
                lemma_failed(s, CodegenError::Malformed);
                let s3 = failed(s, CodegenError::Malformed);
                (s3, Value::Int(0))
            };
            (s2, scaled)
        },
    };
}

pub proof fn lemma_build_pinp_alloc(s: Lowering, count: usize, elem: ArrayElementType)
    ensures
        ({
            let (t, r) = build_pinp_alloc(s, count, elem);
            &&& grows(s, t)
            &&& t.current == s.current
            &&& t.blocks.len() == s.blocks.len()
            &&& live(s) && countable(t) ==> {
                &&& live(t)
                &&& homes(t) == homes(s)
                &&& shape(t) == shape(s)
                &&& usable(t, r)
            }
        }),
{
    broadcast use lemma_shape_len, lemma_homes_len;

    lemma_byte_count(s, count, elem);
    let (s1, bytes) = byte_count(s, count, elem);
    lemma_emitted(s1, InstView::Call(Callee::Runtime(RuntimeFn::Alloc), seq![bytes]));
}

pub proof fn lemma_build_element_ptr(s: Lowering, elem: ArrayElementType, base: Value, index: Value)
    ensures
        ({
            let (t, r) = build_element_ptr(s, elem, base, index);
            &&& grows(s, t)
            &&& t.current == s.current
            &&& t.blocks.len() == s.blocks.len()
            &&& live(s) && usable(s, base) && usable(s, index) && countable(t) ==> {
                &&& live(t)
                &&& homes(t) == homes(s)
                &&& shape(t) == shape(s)
                &&& usable(t, r)
            }
        }),
{
    broadcast use lemma_shape_len, lemma_homes_len;

    lemma_emitted(s, InstView::Op(Op::ElementPtr(element_ir_type(elem), base, index)));
}

proof fn lemma_normalize_index(s: Lowering, index: Value, len: Value)
    ensures
        ({
            let (t, r) = normalize_index(s, index, len);
            &&& grows(s, t)
            &&& t.current == s.current
            &&& t.blocks.len() == s.blocks.len()
            &&& live(s) && usable(s, index) && usable(s, len) && countable(t) ==> {
                &&& live(t)
                &&& homes(t) == homes(s)
                &&& shape(t) == shape(s)
                &&& usable(t, r)
            }
        }),
{
    broadcast use lemma_shape_len, lemma_homes_len;

    lemma_emitted(s, InstView::Op(Op::IntCompare(IntPredicate::Slt, index, Value::Int(0))));
    let is_neg = next_value(s);
    let s1 = op(s, Op::IntCompare(IntPredicate::Slt, index, Value::Int(0)));
    lemma_emitted(s1, InstView::Op(Op::IntBinary(IntOp::Add, index, len)));
    let adjusted = next_value(s1);
    let s2 = op(s1, Op::IntBinary(IntOp::Add, index, len));
    lemma_emitted(s2, InstView::Op(Op::Select(is_neg, adjusted, index)));
}

proof fn lemma_out_of_bounds(s: Lowering, index: Value, len: Value)
    ensures
        ({
            let (t, r) = out_of_bounds(s, index, len);
            &&& grows(s, t)
            &&& t.current == s.current
            &&& t.blocks.len() == s.blocks.len()
            &&& live(s) && usable(s, index) && usable(s, len) && countable(t) ==> {
                &&& live(t)
                &&& homes(t) == homes(s)
                &&& shape(t) == shape(s)
                &&& usable(t, r)
            }
        }),
{
    broadcast use lemma_shape_len, lemma_homes_len;

    lemma_emitted(s, InstView::Op(Op::IntCompare(IntPredicate::Slt, index, Value::Int(0))));
    let too_low = next_value(s);
    let s1 = op(s, Op::IntCompare(IntPredicate::Slt, index, Value::Int(0)));
    lemma_emitted(s1, InstView::Op(Op::IntCompare(IntPredicate::Sge, index, len)));
    let too_high = next_value(s1);
    let s2 = op(s1, Op::IntCompare(IntPredicate::Sge, index, len));
    lemma_emitted(s2, InstView::Op(Op::IntBinary(IntOp::Or, too_low, too_high)));
}

pub proof fn lemma_bounds_check_and_gep(
    s: Lowering,
    elem: ArrayElementType,
    base: Value,
    index: Value,
    length: usize,
)
    ensures
        ({
            let (t, r) = bounds_check_and_gep(s, elem, base, index, length);
            &&& grows(s, t)
            &&& live(s) && usable(s, base) && usable(s, index) && countable(t) ==> {
                &&& flows(s, t)
                &&& usable(t, r)
            }
        }),
{
    broadcast use lemma_shape_len, lemma_homes_len;

    let n = Value::Int(length as u64 as i64);
    lemma_normalize_index(s, index, n);
    let (s1, effective) = normalize_index(s, index, n);
    lemma_out_of_bounds(s1, effective, n);
    let (s2, outside) = out_of_bounds(s1, effective, n);
    lemma_guard(s2, outside, "arr_oob"@, "arr_ok"@, "Array index out of bounds."@);
    let s3 = guard(s2, outside, "arr_oob"@, "arr_ok"@, "Array index out of bounds."@);
    lemma_build_element_ptr(s3, elem, base, effective);
    let (s4, address) = build_element_ptr(s3, elem, base, effective);
    if live(s) && usable(s, base) && usable(s, index) && countable(s4) {
        assert(shape(s4) =~= moved(
            shape(s),
            s.current as int,
            s4.blocks.len() as int,
            s4.current as int,
        ));
        assert(homes(s4) =~= homed(homes(s), s4.blocks.len() as int, homes(s)[s.current as int]));
    }
}

pub proof fn lemma_bounds_check_and_gep_2d(
    s: Lowering,
    elem: ArrayElementType,
    base: Value,
    row: Value,
    col: Value,
    rows: usize,
    cols: usize,
)
    ensures
        ({
            let (t, r) = bounds_check_and_gep_2d(s, elem, base, row, col, rows, cols);
            &&& grows(s, t)
            &&& live(s) && usable(s, base) && usable(s, row) && usable(s, col) && countable(t) ==> {
                &&& flows(s, t)
                &&& usable(t, r)
            }
        }),
{
    broadcast use lemma_shape_len, lemma_homes_len;

    let row_count = Value::Int(rows as u64 as i64);
    lemma_normalize_index(s, row, row_count);
    let (s1, effective_row) = normalize_index(s, row, row_count);
    lemma_out_of_bounds(s1, effective_row, row_count);
    let (s2, row_outside) = out_of_bounds(s1, effective_row, row_count);
    lemma_guard(s2, row_outside, "mat_row_err"@, "mat_row_ok"@, "Array index out of bounds."@);
    let s3 = guard(s2, row_outside, "mat_row_err"@, "mat_row_ok"@, "Array index out of bounds."@);
    let col_count = Value::Int(cols as u64 as i64);
    lemma_normalize_index(s3, col, col_count);
    let (s4, effective_col) = normalize_index(s3, col, col_count);
    lemma_out_of_bounds(s4, effective_col, col_count);
    let (s5, col_outside) = out_of_bounds(s4, effective_col, col_count);
    lemma_guard(s5, col_outside, "mat_col_err"@, "mat_col_ok"@, "Array index out of bounds."@);
    let s6 = guard(s5, col_outside, "mat_col_err"@, "mat_col_ok"@, "Array index out of bounds."@);
    lemma_emitted(s6, InstView::Op(Op::IntBinary(IntOp::Mul, effective_row, col_count)));
    let row_scaled = next_value(s6);
    let s7 = op(s6, Op::IntBinary(IntOp::Mul, effective_row, col_count));
    lemma_emitted(s7, InstView::Op(Op::IntBinary(IntOp::Add, row_scaled, effective_col)));
    let flat = next_value(s7);
    let s8 = op(s7, Op::IntBinary(IntOp::Add, row_scaled, effective_col));
    lemma_build_element_ptr(s8, elem, base, flat);
    let (s9, address) = build_element_ptr(s8, elem, base, flat);
    if live(s) && usable(s, base) && usable(s, row) && usable(s, col) && countable(s9) {
        assert(shape(s9) =~= moved(
            shape(s),
            s.current as int,
            s9.blocks.len() as int,
            s9.current as int,
        ));
        assert(homes(s9) =~= homed(homes(s), s9.blocks.len() as int, homes(s)[s.current as int]));
    }
}

pub proof fn lemma_build_pow(s: Lowering, left: Value, right: Value)
    ensures
        ({
            let (t, r) = build_pow(s, left, right);
            &&& grows(s, t)
            &&& t.current == s.current
            &&& t.blocks.len() == s.blocks.len()
            &&& live(s) && usable(s, left) && usable(s, right) && countable(t) ==> {
                &&& live(t)
                &&& homes(t) == homes(s)
                &&& shape(t) == shape(s)
                &&& usable(t, r)
            }
        }),
{
    broadcast use lemma_shape_len, lemma_homes_len;

    lemma_emitted(s, InstView::Call(Callee::Runtime(RuntimeFn::Pow), seq![left, right]));
}

pub proof fn lemma_combine(
    s: Lowering,
    operator: BinOp,
    current: Value,
    elem: ArrayElementType,
    rhs: Value,
    rhs_type: PinpType,
)
    ensures
        ({
            let (t, r) = combine(s, operator, current, elem, rhs, rhs_type);
            &&& grows(s, t)
            &&& t.current == s.current
            &&& t.blocks.len() == s.blocks.len()
            &&& live(s) && usable(s, current) && usable(s, rhs) && countable(t) ==> {
                &&& live(t)
                &&& homes(t) == homes(s)
                &&& shape(t) == shape(s)
                &&& usable(t, r)
            }
        }),
{
    broadcast use lemma_shape_len, lemma_homes_len;

    let elem_type = element_type(elem);
    let (s1, combined) = if operator == BinOp::Div || elem_type == PinpType::Float
        || rhs_type == PinpType::Float {
        lemma_promote(s, current, elem_type, PinpType::Float);
        let (s2, left) = promote(s, current, elem_type, PinpType::Float);
        lemma_promote(s2, rhs, rhs_type, PinpType::Float);
        let (s3, right) = promote(s2, rhs, rhs_type, PinpType::Float);
        let (s4, result) = match operator {
            BinOp::Add => {
                lemma_emitted(s3, InstView::Op(Op::FloatBinary(FloatOp::Add, left, right)));
                let sum = next_value(s3);
                let s5 = op(s3, Op::FloatBinary(FloatOp::Add, left, right));
                (s5, sum)
            },
            BinOp::Sub => {
                lemma_emitted(s3, InstView::Op(Op::FloatBinary(FloatOp::Sub, left, right)));
                let difference = next_value(s3);
                let s6 = op(s3, Op::FloatBinary(FloatOp::Sub, left, right));
                (s6, difference)
            },
            BinOp::Mul => {
                lemma_emitted(s3, InstView::Op(Op::FloatBinary(FloatOp::Mul, left, right)));
                let product = next_value(s3);
                let s7 = op(s3, Op::FloatBinary(FloatOp::Mul, left, right));
                (s7, product)
            },
            BinOp::Div => {
                lemma_emitted(s3, InstView::Op(Op::FloatBinary(FloatOp::Div, left, right)));
                let quotient = next_value(s3);
                let s8 = op(s3, Op::FloatBinary(FloatOp::Div, left, right));
                (s8, quotient)
            },
            BinOp::Pow => {
                lemma_build_pow(s3, left, right);
                let (s9, power) = build_pow(s3, left, right);
                (s9, power)
            },
            _ => {
                lemma_failed(s3, CodegenError::Malformed);
                let s10 = failed(s3, CodegenError::Malformed);
                (s10, left)
            },
        };
        (s4, result)
    } else {
        lemma_promote(s, current, elem_type, PinpType::Int);
        let (s11, left) = promote(s, current, elem_type, PinpType::Int);
        lemma_promote(s11, rhs, rhs_type, PinpType::Int);
        let (s12, right) = promote(s11, rhs, rhs_type, PinpType::Int);
        let (s13, result) = match operator {
            BinOp::Add => {
                lemma_emitted(s12, InstView::Op(Op::IntBinary(IntOp::Add, left, right)));
                let sum = next_value(s12);
                let s14 = op(s12, Op::IntBinary(IntOp::Add, left, right));
                (s14, sum)
            },
            BinOp::Sub => {
                lemma_emitted(s12, InstView::Op(Op::IntBinary(IntOp::Sub, left, right)));
                let difference = next_value(s12);
                let s15 = op(s12, Op::IntBinary(IntOp::Sub, left, right));
                (s15, difference)
            },
            BinOp::Mul => {
                lemma_emitted(s12, InstView::Op(Op::IntBinary(IntOp::Mul, left, right)));
                let product = next_value(s12);
                let s16 = op(s12, Op::IntBinary(IntOp::Mul, left, right));
                (s16, product)
            },
            BinOp::IntDiv => {
                lemma_emitted(s12, InstView::Op(Op::IntBinary(IntOp::SignedDiv, left, right)));
                let quotient = next_value(s12);
                let s17 = op(s12, Op::IntBinary(IntOp::SignedDiv, left, right));
                (s17, quotient)
            },
            BinOp::Mod => {
                lemma_emitted(s12, InstView::Op(Op::IntBinary(IntOp::SignedRem, left, right)));
                let remainder = next_value(s12);
                let s18 = op(s12, Op::IntBinary(IntOp::SignedRem, left, right));
                (s18, remainder)
            },
            BinOp::Pow => {
                lemma_emitted(s12, InstView::Op(Op::Cast(Cast::SignedToFloat, left)));
                let left_float = next_value(s12);
                let s19 = op(s12, Op::Cast(Cast::SignedToFloat, left));
                lemma_emitted(s19, InstView::Op(Op::Cast(Cast::SignedToFloat, right)));
                let right_float = next_value(s19);
                let s20 = op(s19, Op::Cast(Cast::SignedToFloat, right));
                lemma_build_pow(s20, left_float, right_float);
                let (s21, power) = build_pow(s20, left_float, right_float);
                lemma_emitted(s21, InstView::Op(Op::Cast(Cast::FloatToSigned, power)));
                let truncated = next_value(s21);
                let s22 = op(s21, Op::Cast(Cast::FloatToSigned, power));
                (s22, truncated)
            },
            _ => {
                lemma_failed(s12, CodegenError::Malformed);
                let s23 = failed(s12, CodegenError::Malformed);
                (s23, left)
            },
        };
        (s13, result)
    };
}

pub proof fn lemma_begin_counted_loop(
    s: Lowering,
    count: Value,
    header: Seq<char>,
    body: Seq<char>,
    exit: Seq<char>,
)
    ensures
        ({
            let (t, r) = begin_counted_loop(s, count, header, body, exit);
            &&& grows(s, t)
            &&& t.blocks.len() == s.blocks.len() + 3
            &&& live(s) && usable(s, count) && countable(t) ==> {
                &&& live(t)
                &&& t.current == s.blocks.len() + 1
                &&& shape(t) == shape(s).update(s.current as int, 1).push(1).push(0).push(0)
                &&& homes(t) == homes(s).push(homes(s)[s.current as int]).push(
                    homes(s)[s.current as int],
                ).push(homes(s)[s.current as int])
                &&& r.header == s.blocks.len()
                &&& r.exit == s.blocks.len() + 2
                &&& usable(t, r.counter)
                &&& usable(t, r.current)
            }
        }),
{
    broadcast use lemma_shape_len, lemma_homes_len;

    lemma_alloca_at_entry(s, PinpType::Int);
    let (s1, counter) = alloca_at_entry(s, PinpType::Int);
    lemma_emitted(s1, InstView::Op(Op::Store(counter, Value::Int(0))));
    let s2 = op(s1, Op::Store(counter, Value::Int(0)));
    lemma_block_appended(s2, header);
    let header_block = next_block(s2);
    let s3 = block_appended(s2, header);
    lemma_block_appended(s3, body);
    let body_block = next_block(s3);
    let s4 = block_appended(s3, body);
    lemma_block_appended(s4, exit);
    let exit_block = next_block(s4);
    let s5 = block_appended(s4, exit);
    lemma_emitted(s5, InstView::Op(Op::Branch(header_block)));
    let s6 = op(s5, Op::Branch(header_block));
    lemma_positioned(s6, header_block);
    let s7 = positioned(s6, header_block);
    lemma_load_counter(s7, counter);
    let (s8, current) = load_counter(s7, counter);
    lemma_emitted(s8, InstView::Op(Op::IntCompare(IntPredicate::Slt, current, count)));
    let cond = next_value(s8);
    let s9 = op(s8, Op::IntCompare(IntPredicate::Slt, current, count));
    lemma_emitted(s9, InstView::Op(Op::CondBranch(cond, body_block, exit_block)));
    let s10 = op(s9, Op::CondBranch(cond, body_block, exit_block));
    lemma_positioned(s10, body_block);
    let s11 = positioned(s10, body_block);
    if live(s) && usable(s, count) && countable(s11) {
        assert(shape(s11) =~= shape(s).update(s.current as int, 1).push(1).push(0).push(0));
        let here = homes(s)[s.current as int];
        assert(homes(s11) =~= homes(s).push(here).push(here).push(here));
    }
}

pub proof fn lemma_end_counted_loop(s: Lowering, counted: CountedLoop)
    ensures
        ({
            let t = end_counted_loop(s, counted);
            &&& grows(s, t)
            &&& t.current == counted.exit
            &&& t.blocks.len() == s.blocks.len()
            &&& live(s) && usable(s, counted.counter) && usable(s, counted.current)
                && near(s, counted.header) && near(s, counted.exit) && counted.exit != s.current
                && shape(s)[counted.exit as int] == 0 && countable(t) ==> {
                &&& live(t)
                &&& shape(t) == shape(s).update(s.current as int, 1)
                &&& homes(t) == homes(s)
            }
        }),
{
    broadcast use lemma_shape_len, lemma_homes_len;

    lemma_emitted(s, InstView::Op(Op::IntBinary(IntOp::Add, counted.current, Value::Int(1))));
    let following = next_value(s);
    let s1 = op(s, Op::IntBinary(IntOp::Add, counted.current, Value::Int(1)));
    lemma_emitted(s1, InstView::Op(Op::Store(counted.counter, following)));
    let s2 = op(s1, Op::Store(counted.counter, following));
    lemma_emitted(s2, InstView::Op(Op::Branch(counted.header)));
    let s3 = op(s2, Op::Branch(counted.header));
    lemma_positioned(s3, counted.exit);
}

pub proof fn lemma_copy_element(
    s: Lowering,
    elem: ArrayElementType,
    source: Value,
    from: Value,
    target: Value,
    to: Value,
)
    ensures
        ({
            let t = copy_element(s, elem, source, from, target, to);
            &&& grows(s, t)
            &&& t.current == s.current
            &&& t.blocks.len() == s.blocks.len()
            &&& live(s) && usable(s, source) && usable(s, from) && usable(s, target)
                && usable(s, to) && countable(t) ==> {
                &&& live(t)
                &&& homes(t) == homes(s)
                &&& shape(t) == shape(s)
            }
        }),
{
    broadcast use lemma_shape_len, lemma_homes_len;

    lemma_build_element_ptr(s, elem, source, from);
    let (s1, source_ptr) = build_element_ptr(s, elem, source, from);
    lemma_emitted(s1, InstView::Op(Op::Load(element_ir_type(elem), source_ptr)));
    let value = next_value(s1);
    let s2 = op(s1, Op::Load(element_ir_type(elem), source_ptr));
    lemma_build_element_ptr(s2, elem, target, to);
    let (s3, target_ptr) = build_element_ptr(s2, elem, target, to);
    lemma_emitted(s3, InstView::Op(Op::Store(target_ptr, value)));
}

pub proof fn lemma_copy_row(
    s: Lowering,
    elem: ArrayElementType,
    matrix: Value,
    row: Value,
    rows: usize,
    cols: usize,
    slice: DimSlice,
)
    ensures
        ({
            let (t, r) = copy_row(s, elem, matrix, row, rows, cols, slice);
            &&& grows(s, t)
            &&& live(s) && usable(s, matrix) && usable(s, row) && countable(t) ==> {
                &&& flows(s, t)
                &&& usable(t, r)
            }
        }),
{
    broadcast use lemma_shape_len, lemma_homes_len;

    lemma_out_of_bounds(s, row, Value::Int(rows as u64 as i64));
    let (s1, outside) = out_of_bounds(s, row, Value::Int(rows as u64 as i64));
    lemma_guard(s1, outside, "rslice_err"@, "rslice_ok"@, "Array index out of bounds."@);
    let s2 = guard(s1, outside, "rslice_err"@, "rslice_ok"@, "Array index out of bounds."@);
    lemma_build_pinp_alloc(s2, slice.len, elem);
    let (s3, target) = build_pinp_alloc(s2, slice.len, elem);
    lemma_emitted(s3, InstView::Op(Op::IntBinary(IntOp::Mul, row, Value::Int(cols as u64 as i64))));
    let row_base = next_value(s3);
    let s4 = op(s3, Op::IntBinary(IntOp::Mul, row, Value::Int(cols as u64 as i64)));
    lemma_begin_counted_loop(
        s4,
        Value::Int(slice.len as u64 as i64),
        "rslice_hdr"@,
        "rslice_body"@,
        "rslice_exit"@,
    );
    let (s5, counted) = begin_counted_loop(
        s4,
        Value::Int(slice.len as u64 as i64),
        "rslice_hdr"@,
        "rslice_body"@,
        "rslice_exit"@,
    );
    lemma_emitted(
        s5,
        InstView::Op(
            Op::IntBinary(IntOp::Add, counted.current, Value::Int(slice.start as u64 as i64)),
        ),
    );
    let source_col = next_value(s5);
    let s6 = op(
        s5,
        Op::IntBinary(IntOp::Add, counted.current, Value::Int(slice.start as u64 as i64)),
    );
    lemma_emitted(s6, InstView::Op(Op::IntBinary(IntOp::Add, row_base, source_col)));
    let source_flat = next_value(s6);
    let s7 = op(s6, Op::IntBinary(IntOp::Add, row_base, source_col));
    lemma_copy_element(s7, elem, matrix, source_flat, target, counted.current);
    let s8 = copy_element(s7, elem, matrix, source_flat, target, counted.current);
    lemma_end_counted_loop(s8, counted);
    let s9 = end_counted_loop(s8, counted);
    if live(s) && usable(s, matrix) && usable(s, row) && countable(s9) {
        assert(shape(s9) =~= moved(
            shape(s),
            s.current as int,
            s9.blocks.len() as int,
            s9.current as int,
        ));
        assert(homes(s9) =~= homed(homes(s), s9.blocks.len() as int, homes(s)[s.current as int]));
    }
}

pub proof fn lemma_copy_column(
    s: Lowering,
    elem: ArrayElementType,
    matrix: Value,
    col: Value,
    cols: usize,
    slice: DimSlice,
)
    ensures
        ({
            let (t, r) = copy_column(s, elem, matrix, col, cols, slice);
            &&& grows(s, t)
            &&& live(s) && usable(s, matrix) && usable(s, col) && countable(t) ==> {
                &&& flows(s, t)
                &&& usable(t, r)
            }
        }),
{
    broadcast use lemma_shape_len, lemma_homes_len;

    let col_count = Value::Int(cols as u64 as i64);
    lemma_out_of_bounds(s, col, col_count);
    let (s1, outside) = out_of_bounds(s, col, col_count);
    lemma_guard(s1, outside, "cslice_err"@, "cslice_ok"@, "Array index out of bounds."@);
    let s2 = guard(s1, outside, "cslice_err"@, "cslice_ok"@, "Array index out of bounds."@);
    lemma_build_pinp_alloc(s2, slice.len, elem);
    let (s3, target) = build_pinp_alloc(s2, slice.len, elem);
    lemma_begin_counted_loop(
        s3,
        Value::Int(slice.len as u64 as i64),
        "cslice_hdr"@,
        "cslice_body"@,
        "cslice_exit"@,
    );
    let (s4, counted) = begin_counted_loop(
        s3,
        Value::Int(slice.len as u64 as i64),
        "cslice_hdr"@,
        "cslice_body"@,
        "cslice_exit"@,
    );
    lemma_emitted(
        s4,
        InstView::Op(
            Op::IntBinary(IntOp::Add, counted.current, Value::Int(slice.start as u64 as i64)),
        ),
    );
    let source_row = next_value(s4);
    let s5 = op(
        s4,
        Op::IntBinary(IntOp::Add, counted.current, Value::Int(slice.start as u64 as i64)),
    );
    lemma_emitted(s5, InstView::Op(Op::IntBinary(IntOp::Mul, source_row, col_count)));
    let row_offset = next_value(s5);
    let s6 = op(s5, Op::IntBinary(IntOp::Mul, source_row, col_count));
    lemma_emitted(s6, InstView::Op(Op::IntBinary(IntOp::Add, row_offset, col)));
    let source_flat = next_value(s6);
    let s7 = op(s6, Op::IntBinary(IntOp::Add, row_offset, col));
    lemma_copy_element(s7, elem, matrix, source_flat, target, counted.current);
    let s8 = copy_element(s7, elem, matrix, source_flat, target, counted.current);
    lemma_end_counted_loop(s8, counted);
    let s9 = end_counted_loop(s8, counted);
    if live(s) && usable(s, matrix) && usable(s, col) && countable(s9) {
        assert(shape(s9) =~= moved(
            shape(s),
            s.current as int,
            s9.blocks.len() as int,
            s9.current as int,
        ));
        assert(homes(s9) =~= homed(homes(s), s9.blocks.len() as int, homes(s)[s.current as int]));
    }
}

pub proof fn lemma_index2d_submatrix_code(
    s: Lowering,
    elem: ArrayElementType,
    matrix: Value,
    cols: usize,
    row_slice: DimSlice,
    col_slice: DimSlice,
)
    ensures
        ({
            let (t, r) = index2d_submatrix_code(s, elem, matrix, cols, row_slice, col_slice);
            &&& grows(s, t)
            &&& live(s) && usable(s, matrix) && countable(t) ==> {
                &&& flows(s, t)
                &&& usable(t, r)
            }
        }),
{
    broadcast use lemma_shape_len, lemma_homes_len;

    lemma_product(s, row_slice.len, col_slice.len);
    let (s1, total) = product(s, row_slice.len, col_slice.len);
    lemma_build_pinp_alloc(s1, total, elem);
    let (s2, target) = build_pinp_alloc(s1, total, elem);
    let width = Value::Int(col_slice.len as u64 as i64);
    lemma_begin_counted_loop(
        s2,
        Value::Int(total as u64 as i64),
        "sub_hdr"@,
        "sub_body"@,
        "sub_exit"@,
    );
    let (s3, counted) = begin_counted_loop(
        s2,
        Value::Int(total as u64 as i64),
        "sub_hdr"@,
        "sub_body"@,
        "sub_exit"@,
    );
    lemma_emitted(s3, InstView::Op(Op::IntBinary(IntOp::SignedDiv, counted.current, width)));
    let sub_row = next_value(s3);
    let s4 = op(s3, Op::IntBinary(IntOp::SignedDiv, counted.current, width));
    lemma_emitted(s4, InstView::Op(Op::IntBinary(IntOp::SignedRem, counted.current, width)));
    let sub_col = next_value(s4);
    let s5 = op(s4, Op::IntBinary(IntOp::SignedRem, counted.current, width));
    lemma_emitted(
        s5,
        InstView::Op(Op::IntBinary(IntOp::Add, sub_row, Value::Int(row_slice.start as u64 as i64))),
    );
    let source_row = next_value(s5);
    let s6 = op(s5, Op::IntBinary(IntOp::Add, sub_row, Value::Int(row_slice.start as u64 as i64)));
    lemma_emitted(
        s6,
        InstView::Op(Op::IntBinary(IntOp::Add, sub_col, Value::Int(col_slice.start as u64 as i64))),
    );
    let source_col = next_value(s6);
    let s7 = op(s6, Op::IntBinary(IntOp::Add, sub_col, Value::Int(col_slice.start as u64 as i64)));
    lemma_emitted(
        s7,
        InstView::Op(Op::IntBinary(IntOp::Mul, source_row, Value::Int(cols as u64 as i64))),
    );
    let row_offset = next_value(s7);
    let s8 = op(s7, Op::IntBinary(IntOp::Mul, source_row, Value::Int(cols as u64 as i64)));
    lemma_emitted(s8, InstView::Op(Op::IntBinary(IntOp::Add, row_offset, source_col)));
    let source_flat = next_value(s8);
    let s9 = op(s8, Op::IntBinary(IntOp::Add, row_offset, source_col));
    lemma_copy_element(s9, elem, matrix, source_flat, target, counted.current);
    let s10 = copy_element(s9, elem, matrix, source_flat, target, counted.current);
    lemma_end_counted_loop(s10, counted);
    let s11 = end_counted_loop(s10, counted);
    if live(s) && usable(s, matrix) && countable(s11) {
        assert(shape(s11) =~= moved(
            shape(s),
            s.current as int,
            s11.blocks.len() as int,
            s11.current as int,
        ));
        assert(homes(s11) =~= homed(homes(s), s11.blocks.len() as int, homes(s)[s.current as int]));
    }
}

pub proof fn lemma_begin_range_slots(s: Lowering, var_type: PinpType, start: Value)
    ensures
        ({
            let (t, r) = begin_range_slots(s, var_type, start);
            &&& grows(s, t)
            &&& t.current == s.current
            &&& t.blocks.len() == s.blocks.len()
            &&& live(s) && usable(s, start) && countable(t) ==> {
                &&& live(t)
                &&& homes(t) == homes(s)
                &&& shape(t) == shape(s)
                &&& usable(t, r.0)
                &&& usable(t, r.1)
            }
        }),
{
    broadcast use lemma_shape_len, lemma_homes_len;

    lemma_alloca_at_entry(s, var_type);
    let (s1, var_slot) = alloca_at_entry(s, var_type);
    lemma_alloca_at_entry(s1, PinpType::Int);
    let (s2, position_slot) = alloca_at_entry(s1, PinpType::Int);
    let (s3, first) = if var_type == PinpType::Float {
        lemma_emitted(s2, InstView::Op(Op::Cast(Cast::SignedToFloat, start)));
        let float = next_value(s2);
        let s4 = op(s2, Op::Cast(Cast::SignedToFloat, start));
        (s4, float)
    } else {
        (s2, start)
    };
    lemma_emitted(s3, InstView::Op(Op::Store(var_slot, first)));
    let s5 = op(s3, Op::Store(var_slot, first));
    lemma_emitted(s5, InstView::Op(Op::Store(position_slot, Value::Int(0))));
}

pub proof fn lemma_advance_range_var(s: Lowering, var_type: PinpType, var_slot: Value, step: Value)
    ensures
        ({
            let t = advance_range_var(s, var_type, var_slot, step);
            &&& grows(s, t)
            &&& t.current == s.current
            &&& t.blocks.len() == s.blocks.len()
            &&& live(s) && usable(s, var_slot) && usable(s, step) && countable(t) ==> {
                &&& live(t)
                &&& homes(t) == homes(s)
                &&& shape(t) == shape(s)
            }
        }),
{
    broadcast use lemma_shape_len, lemma_homes_len;

    let s1 = if var_type == PinpType::Float {
        lemma_emitted(s, InstView::Op(Op::Load(IrType::F64, var_slot)));
        let current_float = next_value(s);
        let s2 = op(s, Op::Load(IrType::F64, var_slot));
        lemma_emitted(s2, InstView::Op(Op::Cast(Cast::SignedToFloat, step)));
        let float_step = next_value(s2);
        let s3 = op(s2, Op::Cast(Cast::SignedToFloat, step));
        lemma_emitted(s3, InstView::Op(Op::FloatBinary(FloatOp::Add, current_float, float_step)));
        let following_float = next_value(s3);
        let s4 = op(s3, Op::FloatBinary(FloatOp::Add, current_float, float_step));
        lemma_emitted(s4, InstView::Op(Op::Store(var_slot, following_float)));
        let s5 = op(s4, Op::Store(var_slot, following_float));
        s5
    } else {
        lemma_emitted(s, InstView::Op(Op::Load(IrType::I64, var_slot)));
        let current_int = next_value(s);
        let s6 = op(s, Op::Load(IrType::I64, var_slot));
        lemma_emitted(s6, InstView::Op(Op::IntBinary(IntOp::Add, current_int, step)));
        let following_int = next_value(s6);
        let s7 = op(s6, Op::IntBinary(IntOp::Add, current_int, step));
        lemma_emitted(s7, InstView::Op(Op::Store(var_slot, following_int)));
        let s8 = op(s7, Op::Store(var_slot, following_int));
        s8
    };
}

pub proof fn lemma_var_slot(s: Lowering, sym_id: SymId, global: bool)
    ensures
        ({
            let (t, r) = var_slot(s, sym_id, global);
            &&& grows(s, t)
            &&& t.current == s.current
            &&& t.blocks.len() == s.blocks.len()
            &&& live(s) && countable(t) ==> {
                &&& live(t)
                &&& homes(t) == homes(s)
                &&& shape(t) == shape(s)
                &&& usable(t, r.place)
            }
        }),
{
    broadcast use lemma_shape_len, lemma_homes_len;

    let (s1, local) = if global {
        (s, None)
    } else {
        lemma_local_slot(s, sym_id);
        let nearest_local = local_slot(s, sym_id);
        (s, nearest_local)
    };
    let (s2, slot) = match local {
        Some(found) => {
            (s1, found)
        },
        None => {
            lemma_global_slot(s1, sym_id);
            let named = global_slot(s1, sym_id);
            let (s3, outer) = match named {
                Some(found) => {
                    (s1, found)
                },
                None => {
                    lemma_failed(s1, CodegenError::Malformed);
                    let s4 = failed(s1, CodegenError::Malformed);
                    (s4, (Slot { place: Value::Zero(IrType::Ptr), value_type: PinpType::Int }))
                },
            };
            (s3, outer)
        },
    };
}

pub proof fn lemma_load_var(s: Lowering, sym_id: SymId, global: bool)
    ensures
        ({
            let (t, r) = load_var(s, sym_id, global);
            &&& grows(s, t)
            &&& t.current == s.current
            &&& t.blocks.len() == s.blocks.len()
            &&& live(s) && countable(t) ==> {
                &&& live(t)
                &&& homes(t) == homes(s)
                &&& shape(t) == shape(s)
                &&& usable(t, r)
            }
        }),
{
    broadcast use lemma_shape_len, lemma_homes_len;

    lemma_var_slot(s, sym_id, global);
    let (s1, slot) = var_slot(s, sym_id, global);
    lemma_storable(s1, slot.value_type);
    let (s2, ir_type) = storable(s1, slot.value_type);
    lemma_emitted(s2, InstView::Op(Op::Load(ir_type, slot.place)));
}

pub proof fn lemma_resolve_place(s: Lowering, place: Place, rhs_type: PinpType)
    ensures
        ({
            let (t, r) = resolve_place(s, place, rhs_type);
            &&& grows(s, t)
            &&& t.current == s.current
            &&& t.blocks.len() == s.blocks.len()
            &&& live(s) && countable(t) ==> {
                &&& live(t)
                &&& homes(t) == homes(s)
                &&& shape(t) == shape(s)
                &&& usable(t, r.place)
            }
        }),
{
    broadcast use lemma_shape_len, lemma_homes_len;

    let (s1, slot) = match place {
        Place::Global(sym_id) => {
            lemma_var_slot(s, sym_id, true);
            let (s2, global) = var_slot(s, sym_id, true);
            (s2, global)
        },
        Place::Local(sym_id) => {
            lemma_local_slot(s, sym_id);
            let local = local_slot(s, sym_id);
            let (s3, found) = match local {
                Some(existing) => {
                    (s, existing)
                },
                None => {
                    let nested = inside_function(s);
                    lemma_global_slot(s, sym_id);
                    let named = global_slot(s, sym_id);
                    let (s4, outer) = match named {
                        Some(global) if !nested => {
                            (s, global)
                        },
                        _ => {
                            lemma_alloca_at_entry(s, rhs_type);
                            let (s5, fresh) = alloca_at_entry(s, rhs_type);
                            lemma_name_bound(
                                s5,
                                sym_id,
                                (Slot { place: fresh, value_type: rhs_type }),
                            );
                            let s6 = name_bound(
                                s5,
                                sym_id,
                                (Slot { place: fresh, value_type: rhs_type }),
                            );
                            (s6, (Slot { place: fresh, value_type: rhs_type }))
                        },
                    };
                    (s4, outer)
                },
            };
            (s3, found)
        },
    };
}

} // verus!
