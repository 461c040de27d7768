//! Lowering any construct leaves a module under construction sound, and what it leads to is a valid
//! module.

use vstd::prelude::*;

use super::builder::{
    CodegenError, Lowering, Program, Slot, block_appended, body_begun, callable, called, emitted,
    entered, failed, float_added, function_added, global_added, global_slot, innermost_slot,
    insert_block, name_bound, next_block, next_float, next_function, next_text, next_value,
    nothing_lowered, op, positioned, scope_popped, scope_pushed, signature, text_added,
};
use super::emit::{
    DimSlice, advance_range_var, alloca_at_entry, begin_counted_loop, begin_range_slots,
    bounds_check_and_gep, bounds_check_and_gep_2d, build_element_ptr, build_pinp_alloc, build_pow,
    build_range, byte_count, combine, copy_column, copy_element, copy_row, default_step,
    end_counted_loop, extract_range, guard_zero_step, index2d_submatrix_code, load_counter,
    member_test, product, promote, range_continue, resolve_place, storable, sum, var_slot,
};
use super::ir::{
    Callee, Cast, FloatOp, FunctionName, InstView, IntOp, IntPredicate, IrType, Op, RuntimeFn,
    Value, element_ir_type, element_type,
};
use super::lowering::{
    BuiltinMember, DimSel, StrPart, apply_compound_op, args_code, arithmetic_code, arms_code,
    array_from_range_code, array_literal_code, as_float, as_int, bin_code, block_code,
    block_for_effect_code, block_result_type, branch_code, build_concat, build_str_constant,
    builtin_member, builtin_member_code, call_code, compare_code, comprehension_code, copy_str,
    diagonal_stored, discarded_str_freed, element_code, elements_stored, entry_code, expect_value,
    expr_code, float_op, float_predicate, for_code, free_global_strings, free_scope_strings,
    free_str_slot, free_str_value, fstring_code, function_code, functions_code, functions_declared,
    global_strings_freed, globals_declared, group_declared, group_stored, groups_declared,
    groups_stored, identity_code, if_code, index2d_code, index2d_col_slice_code, index2d_elem_code,
    index2d_row_slice_code, index_code, indexed_assign2d_code, indexed_assign_code, int_op,
    int_predicate, is_range, items_code, literal_range, load_place, loop_code, lowered,
    matrix_literal_code, membership_code, module_of, neg_code, node_at, node_code, not_code,
    own_str, owned_str_code, owns_str_result, param_types, params_code, parts_freed, parts_stored,
    place_slot, program_owns_str, program_type, range_code, range_parts_code, result_code,
    return_code, rows_stored, scope_strings_freed, segments_code, selector, short_circuit_code,
    slice_assign_code, slice_bounds, slice_code, spill_str, stmt_code, stmts_code, stmts_from,
    store_element, store_to_place, str_compare_code, str_concat_code, str_conversion_code,
    str_from_value, str_len_code, str_parts, str_predicate, str_relation, str_values, type_of,
    value_written, values_code, while_code,
};
use super::steady::{
    lemma_advance_range_var, lemma_alloca_at_entry, lemma_begin_counted_loop,
    lemma_begin_range_slots, lemma_bounds_check_and_gep, lemma_bounds_check_and_gep_2d,
    lemma_build_element_ptr, lemma_build_pinp_alloc, lemma_build_pow, lemma_build_range,
    lemma_byte_count, lemma_combine, lemma_copy_column, lemma_copy_element, lemma_copy_row,
    lemma_default_step, lemma_end_counted_loop, lemma_extract_range, lemma_guard_zero_step,
    lemma_index2d_submatrix_code, lemma_load_counter, lemma_load_var, lemma_member_test,
    lemma_product, lemma_promote, lemma_range_continue, lemma_resolve_place, lemma_storable,
    lemma_sum, lemma_var_slot,
};
use super::validity::{
    all_readable, countable, ended, entries_stand, flows, grows, homed, homes, lemma_block_appended,
    lemma_emitted, lemma_entered, lemma_failed, lemma_float_added, lemma_global_slot,
    lemma_homes_len, lemma_innermost_slot, lemma_name_bound, lemma_positioned, lemma_readable_grows,
    lemma_same_code, lemma_scope_popped, lemma_scope_pushed, lemma_shape_kept, lemma_shape_len,
    lemma_slots_grow, lemma_text_added, live, module_so_far, moved, near, roomier, shape,
    slots_usable, sound, unbroken, usable, valid_module, well_built,
};
use crate::parser::ast::{
    ArrayElementType, BinOp, BlockView, ExprId, FStrSegment, FuncDefView, IfArmView, NodeView,
    Param, PinpType, Place, RangeKind, StmtView, SymId, TopLevelView, UnOp, symbol_of, top_level_ok,
};

verus! {

// ---------------------------------------------------------------------------
// Lists
// ---------------------------------------------------------------------------

pub open spec fn all_usable(s: Lowering, values: Seq<Value>) -> bool {
    forall|i: int| 0 <= i < values.len() ==> usable(s, #[trigger] values[i])
}

pub open spec fn parts_usable(s: Lowering, parts: Seq<StrPart>) -> bool {
    forall|i: int| 0 <= i < parts.len() ==> usable(s, (#[trigger] parts[i]).value)
}

pub open spec fn incomings_usable(s: Lowering, incomings: Seq<(Value, usize)>) -> bool {
    forall|i: int|
        0 <= i < incomings.len() ==> usable(s, (#[trigger] incomings[i]).0) && incomings[i].1
            < s.blocks.len()
}

/// What could be read before can be read behind whatever was emitted.
proof fn lemma_lists_grow(
    s: Lowering,
    t: Lowering,
    values: Seq<Value>,
    parts: Seq<StrPart>,
    incomings: Seq<(Value, usize)>,
)
    requires
        grows(s, t),
    ensures
        all_usable(s, values) ==> all_usable(t, values),
        parts_usable(s, parts) ==> parts_usable(t, parts),
        incomings_usable(s, incomings) ==> incomings_usable(t, incomings),
{
    if all_usable(s, values) {
        assert forall|i: int| 0 <= i < values.len() implies usable(t, #[trigger] values[i]) by {
            assert(usable(s, values[i]));
        }
    }
    if parts_usable(s, parts) {
        assert forall|i: int| 0 <= i < parts.len() implies usable(
            t,
            (#[trigger] parts[i]).value,
        ) by {
            assert(usable(s, parts[i].value));
        }
    }
    if incomings_usable(s, incomings) {
        assert forall|i: int| 0 <= i < incomings.len() implies usable(
            t,
            (#[trigger] incomings[i]).0,
        ) && incomings[i].1 < t.blocks.len() by {
            assert(usable(s, incomings[i].0));
        }
    }
}

/// Emission that has gone on twice has gone on.
proof fn lemma_flows_on(s: Lowering, t: Lowering, u: Lowering)
    requires
        live(s),
        grows(s, t),
        grows(t, u),
        flows(s, t),
        flows(t, u),
    ensures
        flows(s, u),
{
    broadcast use lemma_shape_len, lemma_homes_len;

    assert(shape(u) =~= moved(
        shape(s),
        s.current as int,
        u.blocks.len() as int,
        u.current as int,
    ));
    assert(homes(u) =~= homed(homes(s), u.blocks.len() as int, homes(s)[s.current as int]));
}

/// Emission that leaves every block as it was has gone on.
proof fn lemma_steady_flows(s: Lowering, t: Lowering)
    requires
        live(s),
        live(t),
        grows(s, t),
        t.current == s.current,
        t.blocks.len() == s.blocks.len(),
        shape(t) == shape(s),
        homes(t) == homes(s),
    ensures
        flows(s, t),
{
    broadcast use lemma_shape_len, lemma_homes_len;

    assert(shape(t) =~= moved(
        shape(s),
        s.current as int,
        t.blocks.len() as int,
        t.current as int,
    ));
    assert(homes(t) =~= homed(homes(s), t.blocks.len() as int, homes(s)[s.current as int]));
}

// ---------------------------------------------------------------------------
// Strings
// ---------------------------------------------------------------------------

proof fn lemma_parts_stored(s: Lowering, base: Value, parts: Seq<StrPart>, slots: Seq<Value>)
    ensures
        ({
            let (t, r) = parts_stored(s, base, parts, slots);
            &&& grows(s, t)
            &&& t.current == s.current
            &&& t.blocks.len() == s.blocks.len()
            &&& slots.len() <= parts.len() ==> r.len() == parts.len()
            &&& live(s) && usable(s, base) && parts_usable(s, parts) && all_usable(s, slots)
                && countable(t) ==> {
                &&& live(t)
                &&& homes(t) == homes(s)
                &&& shape(t) == shape(s)
                &&& all_usable(t, r)
            }
        }),
    decreases parts.len() - slots.len(),
{
    if slots.len() < parts.len() {
        let index = slots.len() as int;
        let slot = next_value(s);
        let address = Op::ElementPtr(IrType::Str, base, Value::Int(index as i64));
        lemma_emitted(s, InstView::Op(address));
        let s1 = op(s, address);
        lemma_emitted(s1, InstView::Op(Op::Store(slot, parts[index].value)));
        let s2 = op(s1, Op::Store(slot, parts[index].value));
        lemma_parts_stored(s2, base, parts, slots.push(slot));
        lemma_lists_grow(s, s2, slots, parts, Seq::empty());
        let t = parts_stored(s2, base, parts, slots.push(slot)).0;
        if live(s) && usable(s, base) && parts_usable(s, parts) && all_usable(s, slots)
            && countable(t) {
            assert(usable(s, parts[index].value));
            assert forall|i: int| 0 <= i < slots.push(slot).len() implies usable(
                s2,
                #[trigger] slots.push(slot)[i],
            ) by {
                if i < slots.len() {
                    assert(usable(s2, slots[i]));
                }
            }
        }
    }
}

proof fn lemma_parts_freed(s: Lowering, parts: Seq<StrPart>, slots: Seq<Value>, from: int)
    ensures
        ({
            let t = parts_freed(s, parts, slots, from);
            &&& grows(s, t)
            &&& t.current == s.current
            &&& t.blocks.len() == s.blocks.len()
            &&& live(s) && slots.len() == parts.len() && all_usable(s, slots) && countable(t) ==> {
                &&& live(t)
                &&& homes(t) == homes(s)
                &&& shape(t) == shape(s)
            }
        }),
    decreases parts.len() - from,
{
    if 0 <= from < parts.len() {
        lemma_free_str_slot(s, slots[from]);
        let s1 = if parts[from].owned {
            free_str_slot(s, slots[from])
        } else {
            s
        };
        lemma_parts_freed(s1, parts, slots, from + 1);
        lemma_lists_grow(s, s1, slots, Seq::empty(), Seq::empty());
        if slots.len() == parts.len() && all_usable(s, slots) {
            assert(usable(s, slots[from]));
        }
    }
}

pub proof fn lemma_build_concat(s: Lowering, parts: Seq<StrPart>)
    ensures
        ({
            let (t, r) = build_concat(s, parts);
            &&& grows(s, t)
            &&& t.current == s.current
            &&& t.blocks.len() == s.blocks.len()
            &&& live(s) && parts_usable(s, parts) && countable(t) ==> {
                &&& live(t)
                &&& homes(t) == homes(s)
                &&& shape(t) == shape(s)
                &&& usable(t, r)
            }
        }),
{
    let base = next_value(s);
    let slot = Op::Alloca(IrType::StrArray(parts.len() as usize));
    lemma_entered(s, 0, slot);
    let s1 = entered(s, 0, slot);
    lemma_parts_stored(s1, base, parts, Seq::empty());
    lemma_lists_grow(s, s1, Seq::empty(), parts, Seq::empty());
    let (s2, slots) = parts_stored(s1, base, parts, Seq::empty());
    let args = seq![base, Value::Int(parts.len() as i64)];
    lemma_emitted(s2, InstView::Call(Callee::Runtime(RuntimeFn::StrConcatN), args));
    let s3 = called(s2, Callee::Runtime(RuntimeFn::StrConcatN), args);
    lemma_parts_freed(s3, parts, slots, 0);
    lemma_lists_grow(s2, s3, slots, Seq::empty(), Seq::empty());
}

proof fn lemma_copy_str(s: Lowering, value: Value)
    ensures
        ({
            let (t, r) = copy_str(s, value);
            &&& grows(s, t)
            &&& t.current == s.current
            &&& t.blocks.len() == s.blocks.len()
            &&& live(s) && usable(s, value) && countable(t) ==> {
                &&& live(t)
                &&& homes(t) == homes(s)
                &&& shape(t) == shape(s)
                &&& usable(t, r)
            }
        }),
{
    lemma_build_concat(s, seq![StrPart { value, owned: false }]);
}

proof fn lemma_scope_strings_freed(s: Lowering, symbols: int, from: int)
    ensures
        ({
            let t = scope_strings_freed(s, symbols, from);
            &&& grows(s, t)
            &&& t.current == s.current
            &&& t.blocks.len() == s.blocks.len()
            &&& live(s) && countable(t) ==> {
                &&& live(t)
                &&& homes(t) == homes(s)
                &&& shape(t) == shape(s)
            }
        }),
    decreases symbols - from,
{
    if 0 <= from < symbols {
        lemma_innermost_slot(s, from as u32);
        let s1 = match innermost_slot(s, from as u32) {
            Some(slot) => if slot.value_type == PinpType::Str {
                lemma_free_str_slot(s, slot.place);
                free_str_slot(s, slot.place)
            } else {
                s
            },
            None => s,
        };
        lemma_scope_strings_freed(s1, symbols, from + 1);
    }
}

proof fn lemma_free_scope_strings(s: Lowering, p: Program)
    ensures
        ({
            let t = free_scope_strings(s, p);
            &&& grows(s, t)
            &&& t.current == s.current
            &&& t.blocks.len() == s.blocks.len()
            &&& live(s) && countable(t) ==> {
                &&& live(t)
                &&& homes(t) == homes(s)
                &&& shape(t) == shape(s)
            }
        }),
{
    lemma_scope_strings_freed(s, p.ast.names.len() as int, 0);
}

proof fn lemma_global_strings_freed(s: Lowering, symbols: int, from: int)
    ensures
        ({
            let t = global_strings_freed(s, symbols, from);
            &&& grows(s, t)
            &&& t.current == s.current
            &&& t.blocks.len() == s.blocks.len()
            &&& live(s) && countable(t) ==> {
                &&& live(t)
                &&& homes(t) == homes(s)
                &&& shape(t) == shape(s)
            }
        }),
    decreases symbols - from,
{
    if 0 <= from < symbols {
        lemma_global_slot(s, SymId(from as u32));
        let s1 = match global_slot(s, SymId(from as u32)) {
            Some(slot) => if slot.value_type == PinpType::Str {
                lemma_free_str_slot(s, slot.place);
                free_str_slot(s, slot.place)
            } else {
                s
            },
            None => s,
        };
        lemma_global_strings_freed(s1, symbols, from + 1);
    }
}

proof fn lemma_slice_bounds(s: Lowering, p: Program, range: ExprId)
    ensures
        ({
            let (t, r) = slice_bounds(s, p, range);
            &&& grows(s, t)
            &&& t.current == s.current
            &&& t.blocks.len() == s.blocks.len()
            &&& live(s) && countable(t) ==> {
                &&& live(t)
                &&& homes(t) == homes(s)
                &&& shape(t) == shape(s)
            }
        }),
{
    lemma_failed(s, CodegenError::Malformed);
}

pub proof fn lemma_str_values(
    s: Lowering,
    p: Program,
    parts: Seq<ExprId>,
    done: Seq<StrPart>,
    limit: int,
)
    ensures
        ({
            let (t, r) = str_values(s, p, parts, done, limit);
            &&& grows(s, t)
            &&& live(s) && parts_usable(s, done) && countable(t) ==> {
                &&& flows(s, t)
                &&& parts_usable(t, r)
            }
        }),
    decreases limit, 3int, p, parts.len() - done.len(),
{
    if done.len() >= parts.len() {
        if live(s) {
            lemma_steady_flows(s, s);
        }
    } else {
        let part = parts[done.len() as int];
        let part_type = type_of(p, part);
        lemma_expect_value(s, p, part, limit);
        let (s1, raw) = expect_value(s, p, part, limit);
        let owned = part_type != PinpType::Str || owns_str_result(p, part);
        lemma_str_from_value(s1, raw, part_type);
        let (s2, value) = str_from_value(s1, raw, part_type);
        let more = done.push(StrPart { value, owned });
        lemma_str_values(s2, p, parts, more, limit);
        lemma_lists_grow(s, s2, Seq::empty(), done, Seq::empty());
        let t = str_values(s2, p, parts, more, limit).0;
        if live(s) && parts_usable(s, done) && countable(t) {
            assert forall|i: int| 0 <= i < more.len() implies usable(
                s2,
                (#[trigger] more[i]).value,
            ) by {
                if i < done.len() {
                    assert(usable(s2, done[i].value));
                }
            }
            lemma_steady_flows(s1, s2);
            lemma_flows_on(s, s1, s2);
            lemma_flows_on(s, s2, t);
        }
    }
}

proof fn lemma_str_concat_code(s: Lowering, p: Program, lhs: ExprId, rhs: ExprId, limit: int)
    ensures
        ({
            let (t, r) = str_concat_code(s, p, lhs, rhs, limit);
            &&& grows(s, t)
            &&& live(s) && countable(t) ==> {
                &&& flows(s, t)
                &&& usable(t, r)
            }
        }),
    decreases limit, 4int, p, 0int,
{
    let parts = str_parts(p, lhs, limit).push(rhs);
    lemma_str_values(s, p, parts, Seq::empty(), limit);
    let (s1, values) = str_values(s, p, parts, Seq::empty(), limit);
    lemma_build_concat(s1, values);
    let (t, _) = build_concat(s1, values);
    if live(s) && countable(t) {
        lemma_steady_flows(s1, t);
        lemma_flows_on(s, s1, t);
    }
}

pub proof fn lemma_segments_code(
    s: Lowering,
    p: Program,
    segments: Seq<FStrSegment>,
    done: Seq<StrPart>,
)
    ensures
        ({
            let (t, r) = segments_code(s, p, segments, done);
            &&& grows(s, t)
            &&& t.current == s.current
            &&& t.blocks.len() == s.blocks.len()
            &&& live(s) && parts_usable(s, done) && countable(t) ==> {
                &&& live(t)
                &&& homes(t) == homes(s)
                &&& shape(t) == shape(s)
                &&& parts_usable(t, r)
            }
        }),
    decreases segments.len() - done.len(),
{
    if done.len() < segments.len() {
        let (s2, more) = match segments[done.len() as int] {
            FStrSegment::Literal(str_id) => {
                lemma_build_str_constant(s, p.ast.strings[str_id.0 as int]);
                let (s1, value) = build_str_constant(s, p.ast.strings[str_id.0 as int]);
                (s1, done.push(StrPart { value, owned: true }))
            },
            FStrSegment::Interp(place) => {
                lemma_load_place(s, place);
                let (s1, (raw, value_type)) = load_place(s, place);
                lemma_str_from_value(s1, raw, value_type);
                let (s2, value) = str_from_value(s1, raw, value_type);
                (s2, done.push(StrPart { value, owned: value_type != PinpType::Str }))
            },
        };
        lemma_segments_code(s2, p, segments, more);
        lemma_lists_grow(s, s2, Seq::empty(), done, Seq::empty());
        let t = segments_code(s2, p, segments, more).0;
        if live(s) && parts_usable(s, done) && countable(t) {
            assert forall|i: int| 0 <= i < more.len() implies usable(
                s2,
                (#[trigger] more[i]).value,
            ) by {
                if i < done.len() {
                    assert(usable(s2, done[i].value));
                }
            }
        }
    }
}

proof fn lemma_fstring_code(s: Lowering, p: Program, segments: Seq<FStrSegment>)
    ensures
        ({
            let (t, r) = fstring_code(s, p, segments);
            &&& grows(s, t)
            &&& t.current == s.current
            &&& t.blocks.len() == s.blocks.len()
            &&& live(s) && countable(t) ==> {
                &&& live(t)
                &&& homes(t) == homes(s)
                &&& shape(t) == shape(s)
                &&& usable(t, r)
            }
        }),
{
    if segments.len() == 0 {
        lemma_build_str_constant(s, ""@);
    } else if segments.len() == 1 && segments[0] is Literal {
        lemma_build_str_constant(s, p.ast.strings[segments[0]->Literal_0.0 as int]);
    } else {
        lemma_segments_code(s, p, segments, Seq::empty());
        let (s1, parts) = segments_code(s, p, segments, Seq::empty());
        lemma_build_concat(s1, parts);
    }
}

// ---------------------------------------------------------------------------
// Expressions
// ---------------------------------------------------------------------------

pub proof fn lemma_expr_code(s: Lowering, p: Program, expr_id: ExprId, limit: int)
    ensures
        ({
            let (t, r) = expr_code(s, p, expr_id, limit);
            &&& grows(s, t)
            &&& live(s) && countable(t) ==> {
                &&& flows(s, t)
                &&& (r matches Some(value) ==> usable(t, value))
            }
        }),
    decreases limit, 0int, p, 0int,
{
    if expr_id.0 >= limit {
        lemma_failed(s, CodegenError::Malformed);
        if live(s) {
            lemma_steady_flows(s, failed(s, CodegenError::Malformed));
        }
    } else {
        lemma_node_code(s, p, type_of(p, expr_id), node_at(p, expr_id), expr_id.0 as int);
    }
}

proof fn lemma_range_code(s: Lowering, p: Program, expr_id: ExprId, limit: int)
    ensures
        ({
            let (t, r) = range_code(s, p, expr_id, limit);
            &&& grows(s, t)
            &&& live(s) && countable(t) ==> {
                &&& flows(s, t)
                &&& usable(t, r)
            }
        }),
    decreases limit, 0int, p, 0int,
{
    lemma_failed(s, CodegenError::Malformed);
    if live(s) {
        lemma_steady_flows(s, failed(s, CodegenError::Malformed));
    }
    if expr_id.0 < limit {
        if let NodeView::Range(start, stop, step, kind) = node_at(p, expr_id) {
            lemma_range_parts_code(s, p, start, stop, step, kind, expr_id.0 as int);
        }
    }
}

proof fn lemma_node_code(s: Lowering, p: Program, t: PinpType, node: NodeView, limit: int)
    ensures
        ({
            let (u, r) = node_code(s, p, t, node, limit);
            &&& grows(s, u)
            &&& live(s) && countable(u) ==> {
                &&& flows(s, u)
                &&& (r matches Some(value) ==> usable(u, value))
            }
        }),
    decreases limit, 13int, p, 0int,
{
    let (u, _) = node_code(s, p, t, node, limit);
    match node {
        NodeView::Int(_) => {},
        NodeView::Float(digits) => lemma_float_added(s, digits),
        NodeView::Bool(_) => {},
        NodeView::Str(str_id) => lemma_build_str_constant(s, p.ast.strings[str_id.0 as int]),
        NodeView::FStr(segments) => lemma_fstring_code(s, p, segments),
        NodeView::Var(sym_id) => lemma_load_var(s, sym_id, false),
        NodeView::Global(sym_id) => lemma_load_var(s, sym_id, true),
        NodeView::Unary(UnOp::Neg, operand) => lemma_neg_code(s, p, t, operand, limit),
        NodeView::Unary(UnOp::Not, operand) => lemma_not_code(s, p, operand, limit),
        NodeView::Bin(operator, lhs, rhs) => lemma_bin_code(s, p, t, operator, lhs, rhs, limit),
        NodeView::Call(callee, args) => lemma_call_code(s, p, t, callee, args, limit),
        NodeView::If(arms, else_block) => lemma_if_code(s, p, t, arms, else_block, limit),
        NodeView::Range(start, stop, step, kind) => lemma_range_parts_code(
            s,
            p,
            start,
            stop,
            step,
            kind,
            limit,
        ),
        NodeView::Membership(value, range) => lemma_membership_code(s, p, value, range, limit),
        NodeView::ArrayLiteral(elements) => lemma_array_literal_code(s, p, t, elements, limit),
        NodeView::MatrixLiteral(rows) => lemma_matrix_literal_code(s, p, t, rows, limit),
        NodeView::Index(array, index) => lemma_index_code(s, p, t, array, index, limit),
        NodeView::Index2D(matrix, row, col) => lemma_index2d_code(s, p, matrix, row, col, limit),
        NodeView::Member(object, member) => lemma_builtin_member_code(s, p, object, member, limit),
        NodeView::Comprehension(element, var, var_type, source) => lemma_comprehension_code(
            s,
            p,
            t,
            element,
            var,
            var_type,
            source,
            limit,
        ),
        NodeView::FullExtent => lemma_failed(s, CodegenError::Malformed),
    }
    if live(s) && countable(u) {
        match node {
            NodeView::Int(_) | NodeView::Float(_) | NodeView::Bool(_) | NodeView::Str(_)
            | NodeView::FStr(_) | NodeView::Var(_) | NodeView::Global(_) | NodeView::FullExtent => {
                lemma_steady_flows(s, u);
            },
            _ => {},
        }
    }
}

pub proof fn lemma_args_code(
    s: Lowering,
    p: Program,
    args: Seq<ExprId>,
    params: Seq<PinpType>,
    done: Seq<Value>,
    limit: int,
)
    ensures
        ({
            let (t, r) = args_code(s, p, args, params, done, limit);
            &&& grows(s, t)
            &&& live(s) && all_usable(s, done) && countable(t) ==> {
                &&& flows(s, t)
                &&& all_usable(t, r)
            }
        }),
    decreases limit, 3int, p, args.len() - done.len(),
{
    if done.len() >= args.len() || done.len() >= params.len() {
        if live(s) {
            lemma_steady_flows(s, s);
        }
    } else {
        let arg = args[done.len() as int];
        lemma_owned_str_code(s, p, arg, limit);
        lemma_expect_value(s, p, arg, limit);
        let (s1, raw) = if type_of(p, arg) == PinpType::Str {
            owned_str_code(s, p, arg, limit)
        } else {
            expect_value(s, p, arg, limit)
        };
        lemma_promote(s1, raw, type_of(p, arg), params[done.len() as int]);
        let (s2, value) = promote(s1, raw, type_of(p, arg), params[done.len() as int]);
        let more = done.push(value);
        lemma_args_code(s2, p, args, params, more, limit);
        lemma_lists_grow(s, s2, done, Seq::empty(), Seq::empty());
        let t = args_code(s2, p, args, params, more, limit).0;
        if live(s) && all_usable(s, done) && countable(t) {
            assert forall|i: int| 0 <= i < more.len() implies usable(s2, #[trigger] more[i]) by {
                if i < done.len() {
                    assert(usable(s2, done[i]));
                }
            }
            lemma_steady_flows(s1, s2);
            lemma_flows_on(s, s1, s2);
            lemma_flows_on(s, s2, t);
        }
    }
}

proof fn lemma_call_code(
    s: Lowering,
    p: Program,
    t: PinpType,
    callee: SymId,
    args: Seq<ExprId>,
    limit: int,
)
    ensures
        ({
            let (u, r) = call_code(s, p, t, callee, args, limit);
            &&& grows(s, u)
            &&& live(s) && countable(u) ==> {
                &&& flows(s, u)
                &&& (r matches Some(value) ==> usable(u, value))
            }
        }),
    decreases limit, 5int, p, 0int,
{
    let name = p.ast.names[callee.0 as int];
    let (u, _) = call_code(s, p, t, callee, args, limit);
    if name == "identity"@ {
        lemma_identity_code(s, t);
        if live(s) && countable(u) {
            lemma_steady_flows(s, u);
        }
    } else if name == "str"@ && args.len() == 1 {
        lemma_str_conversion_code(s, p, args[0], limit);
    } else if name == "meminfo"@ && args.len() == 0 {
        lemma_emitted(s, InstView::Call(Callee::Runtime(RuntimeFn::MemInfo), Seq::empty()));
        if live(s) && countable(u) {
            lemma_steady_flows(s, u);
        }
    } else {
        match callable(s, callee) {
            None => {
                lemma_failed(s, CodegenError::Malformed);
                if live(s) {
                    lemma_steady_flows(s, u);
                }
            },
            Some(function) => {
                reveal(callable);
                let (params, result) = signature(s, function);
                lemma_args_code(s, p, args, params, Seq::empty(), limit);
                let (s1, values) = args_code(s, p, args, params, Seq::empty(), limit);
                lemma_emitted(s1, InstView::Call(Callee::Function(function), values));
                if live(s) && countable(u) {
                    lemma_steady_flows(s1, u);
                    lemma_flows_on(s, s1, u);
                }
            },
        }
    }
}

proof fn lemma_diagonal_stored(
    s: Lowering,
    elem: ArrayElementType,
    matrix: Value,
    one: Value,
    n: usize,
    from: int,
)
    ensures
        ({
            let t = diagonal_stored(s, elem, matrix, one, n, from);
            &&& grows(s, t)
            &&& t.current == s.current
            &&& t.blocks.len() == s.blocks.len()
            &&& live(s) && usable(s, matrix) && usable(s, one) && countable(t) ==> {
                &&& live(t)
                &&& homes(t) == homes(s)
                &&& shape(t) == shape(s)
            }
        }),
    decreases n - from,
{
    if 0 <= from < n {
        let flat = Value::Int((from * n + from) as u64 as i64);
        lemma_build_element_ptr(s, elem, matrix, flat);
        let (s1, address) = build_element_ptr(s, elem, matrix, flat);
        lemma_emitted(s1, InstView::Op(Op::Store(address, one)));
        let s2 = op(s1, Op::Store(address, one));
        lemma_diagonal_stored(s2, elem, matrix, one, n, from + 1);
    }
}

proof fn lemma_identity_code(s: Lowering, t: PinpType)
    ensures
        ({
            let (u, r) = identity_code(s, t);
            &&& grows(s, u)
            &&& u.current == s.current
            &&& u.blocks.len() == s.blocks.len()
            &&& live(s) && countable(u) ==> {
                &&& live(u)
                &&& homes(u) == homes(s)
                &&& shape(u) == shape(s)
                &&& usable(u, r)
            }
        }),
{
    lemma_failed(s, CodegenError::Malformed);
    if let PinpType::Matrix(elem, n, _) = t {
        if elem != ArrayElementType::Bool && n * n <= usize::MAX {
            lemma_byte_count(s, (n * n) as usize, elem);
            let (s1, bytes) = byte_count(s, (n * n) as usize, elem);
            if live(s) && countable(s1) {
                assert(usable(s1, bytes));
            }
            let matrix = next_value(s1);
            lemma_emitted(s1, InstView::Call(Callee::Runtime(RuntimeFn::Alloc), seq![bytes]));
            let s2 = called(s1, Callee::Runtime(RuntimeFn::Alloc), seq![bytes]);
            let zeroed = seq![matrix, Value::I32(0), bytes];
            lemma_emitted(s2, InstView::Call(Callee::Runtime(RuntimeFn::Memset), zeroed));
            let s3 = called(s2, Callee::Runtime(RuntimeFn::Memset), zeroed);
            lemma_float_added(s3, "1.0"@);
            let (s4, one) = if elem == ArrayElementType::Int {
                (s3, Value::Int(1))
            } else {
                (float_added(s3, "1.0"@), next_float(s3))
            };
            lemma_diagonal_stored(s4, elem, matrix, one, n, 0);
        }
    }
}

proof fn lemma_elements_stored(
    s: Lowering,
    p: Program,
    elements: Seq<ExprId>,
    elem: ArrayElementType,
    base: Value,
    offset: usize,
    from: int,
    limit: int,
)
    ensures
        ({
            let t = elements_stored(s, p, elements, elem, base, offset, from, limit);
            &&& grows(s, t)
            &&& live(s) && usable(s, base) && countable(t) ==> flows(s, t)
        }),
    decreases limit, 3int, p, elements.len() - from,
{
    if from < 0 || from >= elements.len() {
        if live(s) {
            lemma_steady_flows(s, s);
        }
    } else {
        let element = elements[from];
        lemma_expect_value(s, p, element, limit);
        let (s1, raw) = expect_value(s, p, element, limit);
        lemma_promote(s1, raw, type_of(p, element), element_type(elem));
        let (s2, promoted) = promote(s1, raw, type_of(p, element), element_type(elem));
        lemma_sum(s2, offset, from as usize);
        let (s3, index) = sum(s2, offset, from as usize);
        lemma_build_element_ptr(s3, elem, base, Value::Int(index as u64 as i64));
        let (s4, address) = build_element_ptr(s3, elem, base, Value::Int(index as u64 as i64));
        lemma_emitted(s4, InstView::Op(Op::Store(address, promoted)));
        let s5 = op(s4, Op::Store(address, promoted));
        lemma_elements_stored(s5, p, elements, elem, base, offset, from + 1, limit);
        let t = elements_stored(s5, p, elements, elem, base, offset, from + 1, limit);
        if live(s) && usable(s, base) && countable(t) {
            lemma_steady_flows(s1, s5);
            lemma_flows_on(s, s1, s5);
            lemma_flows_on(s, s5, t);
        }
    }
}

proof fn lemma_array_literal_code(
    s: Lowering,
    p: Program,
    t: PinpType,
    elements: Seq<ExprId>,
    limit: int,
)
    ensures
        ({
            let (u, r) = array_literal_code(s, p, t, elements, limit);
            &&& grows(s, u)
            &&& live(s) && countable(u) ==> {
                &&& flows(s, u)
                &&& usable(u, r)
            }
        }),
    decreases limit, 5int, p, 0int,
{
    let (u, _) = array_literal_code(s, p, t, elements, limit);
    match t {
        PinpType::Array(elem, n) => if elements.len() == 1 && is_range(p, elements[0]) {
            lemma_array_from_range_code(s, p, elements[0], elem, n, limit);
        } else {
            lemma_build_pinp_alloc(s, n, elem);
            let (s1, array) = build_pinp_alloc(s, n, elem);
            lemma_elements_stored(s1, p, elements, elem, array, 0, 0, limit);
            if live(s) && countable(u) {
                lemma_steady_flows(s, s1);
                lemma_flows_on(s, s1, u);
            }
        },
        _ => {
            lemma_failed(s, CodegenError::Malformed);
            if live(s) {
                lemma_steady_flows(s, u);
            }
        },
    }
}

proof fn lemma_rows_stored(
    s: Lowering,
    p: Program,
    rows: Seq<Seq<ExprId>>,
    elem: ArrayElementType,
    base: Value,
    cols: usize,
    from: int,
    limit: int,
)
    ensures
        ({
            let t = rows_stored(s, p, rows, elem, base, cols, from, limit);
            &&& grows(s, t)
            &&& live(s) && usable(s, base) && countable(t) ==> flows(s, t)
        }),
    decreases limit, 4int, p, rows.len() - from,
{
    if from < 0 || from >= rows.len() {
        if live(s) {
            lemma_steady_flows(s, s);
        }
    } else {
        lemma_product(s, from as usize, cols);
        let (s1, offset) = product(s, from as usize, cols);
        lemma_elements_stored(s1, p, rows[from], elem, base, offset, 0, limit);
        let s2 = elements_stored(s1, p, rows[from], elem, base, offset, 0, limit);
        lemma_rows_stored(s2, p, rows, elem, base, cols, from + 1, limit);
        let t = rows_stored(s2, p, rows, elem, base, cols, from + 1, limit);
        if live(s) && usable(s, base) && countable(t) {
            lemma_steady_flows(s, s1);
            lemma_flows_on(s, s1, s2);
            lemma_flows_on(s, s2, t);
        }
    }
}

proof fn lemma_matrix_literal_code(
    s: Lowering,
    p: Program,
    t: PinpType,
    rows: Seq<Seq<ExprId>>,
    limit: int,
)
    ensures
        ({
            let (u, r) = matrix_literal_code(s, p, t, rows, limit);
            &&& grows(s, u)
            &&& live(s) && countable(u) ==> {
                &&& flows(s, u)
                &&& usable(u, r)
            }
        }),
    decreases limit, 5int, p, 0int,
{
    let (u, _) = matrix_literal_code(s, p, t, rows, limit);
    match t {
        PinpType::Matrix(elem, row_count, cols) => {
            lemma_product(s, row_count, cols);
            let (s1, total) = product(s, row_count, cols);
            lemma_build_pinp_alloc(s1, total, elem);
            let (s2, matrix) = build_pinp_alloc(s1, total, elem);
            lemma_rows_stored(s2, p, rows, elem, matrix, cols, 0, limit);
            if live(s) && countable(u) {
                lemma_steady_flows(s, s2);
                lemma_flows_on(s, s2, u);
            }
        },
        _ => {
            lemma_failed(s, CodegenError::Malformed);
            if live(s) {
                lemma_steady_flows(s, u);
            }
        },
    }
}

pub proof fn lemma_branch_code(
    s: Lowering,
    p: Program,
    t: PinpType,
    block: BlockView,
    incomings: Seq<(Value, usize)>,
    limit: int,
)
    ensures
        ({
            let (u, r) = branch_code(s, p, t, block, incomings, limit);
            &&& grows(s, u)
            &&& live(s) && incomings_usable(s, incomings) && countable(u) ==> {
                &&& flows(s, u)
                &&& incomings_usable(u, r)
            }
        }),
    decreases limit, 10int, block, block.stmts.len() + 4,
{
    let (u, r) = branch_code(s, p, t, block, incomings, limit);
    if t == PinpType::Void {
        lemma_block_for_effect_code(s, p, block, limit);
        lemma_lists_grow(s, u, Seq::empty(), Seq::empty(), incomings);
    } else {
        lemma_block_code(s, p, block, limit);
        let (s1, yielded) = block_code(s, p, block, limit);
        match yielded {
            Some(value) => {
                lemma_promote(s1, value, block_result_type(p, block), t);
                let (s2, promoted) = promote(s1, value, block_result_type(p, block), t);
                lemma_lists_grow(s, s2, Seq::empty(), Seq::empty(), incomings);
                if live(s) && incomings_usable(s, incomings) && countable(u) {
                    lemma_steady_flows(s1, s2);
                    lemma_flows_on(s, s1, s2);
                    reveal(insert_block);
                    assert forall|i: int| 0 <= i < r.len() implies usable(
                        u,
                        (#[trigger] r[i]).0,
                    ) && r[i].1 < u.blocks.len() by {
                        if i < incomings.len() {
                            assert(usable(s2, incomings[i].0));
                        }
                    }
                }
            },
            None => {
                lemma_failed(s1, CodegenError::Malformed);
                lemma_lists_grow(s, u, Seq::empty(), Seq::empty(), incomings);
                if live(s) && countable(u) {
                    lemma_steady_flows(s1, u);
                    lemma_flows_on(s, s1, u);
                }
            },
        }
    }
}

pub proof fn lemma_arms_code(
    s: Lowering,
    p: Program,
    t: PinpType,
    arms: Seq<IfArmView>,
    merge: usize,
    incomings: Seq<(Value, usize)>,
    from: int,
    limit: int,
)
    ensures
        ({
            let (u, r) = arms_code(s, p, t, arms, merge, incomings, from, limit);
            &&& grows(s, u)
            &&& live(s) && near(s, merge) && merge != s.current && incomings_usable(s, incomings)
                && countable(u) ==> {
                &&& flows(s, u)
                &&& incomings_usable(u, r)
            }
        }),
    decreases limit, 11int, p, arms.len() - from,
{
    broadcast use lemma_shape_len, lemma_homes_len;

    if from < 0 || from >= arms.len() {
        if live(s) {
            lemma_steady_flows(s, s);
        }
    } else {
        let arm = arms[from];
        lemma_expect_value(s, p, arm.cond, limit);
        let (s1, cond) = expect_value(s, p, arm.cond, limit);
        let then_block = next_block(s1);
        lemma_block_appended(s1, "if_then"@);
        let s2 = block_appended(s1, "if_then"@);
        let next = next_block(s2);
        lemma_block_appended(s2, "if_next"@);
        let s3 = block_appended(s2, "if_next"@);
        lemma_emitted(s3, InstView::Op(Op::CondBranch(cond, then_block, next)));
        let s4 = op(s3, Op::CondBranch(cond, then_block, next));
        lemma_positioned(s4, then_block);
        let s5 = positioned(s4, then_block);
        lemma_branch_code(s5, p, t, arm.body, incomings, limit);
        lemma_lists_grow(s, s5, Seq::empty(), Seq::empty(), incomings);
        let (s6, more) = branch_code(s5, p, t, arm.body, incomings, limit);
        lemma_emitted(s6, InstView::Op(Op::Branch(merge)));
        let s7 = op(s6, Op::Branch(merge));
        lemma_positioned(s7, next);
        let s8 = positioned(s7, next);
        lemma_lists_grow(s6, s8, Seq::empty(), Seq::empty(), more);
        lemma_arms_code(s8, p, t, arms, merge, more, from + 1, limit);
        let u = arms_code(s8, p, t, arms, merge, more, from + 1, limit).0;
        if live(s) && near(s, merge) && merge != s.current && incomings_usable(s, incomings)
            && countable(u) {
            assert(flows(s, s1));
            assert(flows(s5, s6));
            assert(live(s8));
            assert(shape(s8) =~= moved(
                shape(s),
                s.current as int,
                s8.blocks.len() as int,
                s8.current as int,
            ));
            assert(homes(s8) =~= homed(
                homes(s),
                s8.blocks.len() as int,
                homes(s)[s.current as int],
            ));
            assert(flows(s, s8));
            lemma_flows_on(s, s8, u);
        }
    }
}

proof fn lemma_if_code(
    s: Lowering,
    p: Program,
    t: PinpType,
    arms: Seq<IfArmView>,
    else_block: Option<BlockView>,
    limit: int,
)
    ensures
        ({
            let (u, r) = if_code(s, p, t, arms, else_block, limit);
            &&& grows(s, u)
            &&& live(s) && countable(u) ==> {
                &&& flows(s, u)
                &&& (r matches Some(value) ==> usable(u, value))
            }
        }),
    decreases limit, 12int, p, 0int,
{
    broadcast use lemma_shape_len, lemma_homes_len;

    let merge = next_block(s);
    lemma_block_appended(s, "if_merge"@);
    let s1 = block_appended(s, "if_merge"@);
    lemma_arms_code(s1, p, t, arms, merge, Seq::empty(), 0, limit);
    let (s2, from_arms) = arms_code(s1, p, t, arms, merge, Seq::empty(), 0, limit);
    let (s3, incomings) = match else_block {
        Some(block) => {
            lemma_branch_code(s2, p, t, block, from_arms, limit);
            branch_code(s2, p, t, block, from_arms, limit)
        },
        None => (s2, from_arms),
    };
    lemma_emitted(s3, InstView::Op(Op::Branch(merge)));
    let s4 = op(s3, Op::Branch(merge));
    lemma_positioned(s4, merge);
    let s5 = positioned(s4, merge);
    lemma_lists_grow(s3, s5, Seq::empty(), Seq::empty(), incomings);
    lemma_storable(s5, t);
    let (s6, ir_type) = storable(s5, t);
    lemma_lists_grow(s5, s6, Seq::empty(), Seq::empty(), incomings);
    lemma_emitted(s6, InstView::Phi(ir_type, incomings));
    let (u, _) = if_code(s, p, t, arms, else_block, limit);
    if live(s) && countable(u) {
        assert(flows(s1, s2));
        if else_block is None {
            lemma_steady_flows(s2, s3);
        }
        assert(flows(s2, s3));
        lemma_flows_on(s1, s2, s3);
        assert(s3.current != merge);
        assert(near(s3, merge));
        assert(shape(s5) =~= moved(
            shape(s),
            s.current as int,
            s5.blocks.len() as int,
            s5.current as int,
        ));
        assert(homes(s5) =~= homed(homes(s), s5.blocks.len() as int, homes(s)[s.current as int]));
        assert(live(s5));
        assert(flows(s, s5));
        if t != PinpType::Void {
            lemma_steady_flows(s5, u);
            lemma_flows_on(s, s5, u);
        }
    }
}

// ---------------------------------------------------------------------------
// Statements
// ---------------------------------------------------------------------------

pub proof fn lemma_discarded_str_freed(
    s: Lowering,
    p: Program,
    stmt: StmtView,
    yielded: Option<Value>,
)
    ensures
        ({
            let t = discarded_str_freed(s, p, stmt, yielded);
            &&& grows(s, t)
            &&& t.current == s.current
            &&& t.blocks.len() == s.blocks.len()
            &&& live(s) && (yielded matches Some(value) ==> usable(s, value)) && countable(t) ==> {
                &&& live(t)
                &&& homes(t) == homes(s)
                &&& shape(t) == shape(s)
            }
        }),
{
    lemma_failed(s, CodegenError::Malformed);
    if let Some(value) = yielded {
        lemma_free_str_value(s, value);
    }
}

pub proof fn lemma_stmts_from(s: Lowering, p: Program, block: BlockView, from: int, limit: int)
    ensures
        ({
            let t = stmts_from(s, p, block, from, limit);
            &&& grows(s, t)
            &&& live(s) && countable(t) ==> flows(s, t)
        }),
    decreases limit, 10int, block, block.stmts.len() - from,
{
    if from < 0 || from >= block.stmts.len() {
        if live(s) {
            lemma_steady_flows(s, s);
        }
    } else {
        let stmt = block.stmts[from];
        lemma_stmt_code(s, p, stmt, limit);
        let (s1, yielded) = stmt_code(s, p, stmt, limit);
        lemma_discarded_str_freed(s1, p, stmt, yielded);
        let s2 = discarded_str_freed(s1, p, stmt, yielded);
        lemma_stmts_from(s2, p, block, from + 1, limit);
        let t = stmts_from(s2, p, block, from + 1, limit);
        if live(s) && countable(t) {
            lemma_steady_flows(s1, s2);
            lemma_flows_on(s, s1, s2);
            lemma_flows_on(s, s2, t);
        }
    }
}

proof fn lemma_stmts_code(s: Lowering, p: Program, block: BlockView, limit: int)
    ensures
        ({
            let t = stmts_code(s, p, block, limit);
            &&& grows(s, t)
            &&& live(s) && countable(t) ==> flows(s, t)
        }),
    decreases limit, 10int, block, block.stmts.len() + 1,
{
    lemma_stmts_from(s, p, block, 0, limit);
}

pub proof fn lemma_values_code(
    s: Lowering,
    p: Program,
    values: Seq<ExprId>,
    done: Seq<Value>,
    limit: int,
)
    ensures
        ({
            let (t, r) = values_code(s, p, values, done, limit);
            &&& grows(s, t)
            &&& live(s) && all_usable(s, done) && countable(t) ==> {
                &&& flows(s, t)
                &&& all_usable(t, r)
            }
        }),
    decreases limit, 3int, p, values.len() - done.len(),
{
    if done.len() >= values.len() {
        if live(s) {
            lemma_steady_flows(s, s);
        }
    } else {
        let expr_id = values[done.len() as int];
        lemma_owned_str_code(s, p, expr_id, limit);
        lemma_expect_value(s, p, expr_id, limit);
        let (s1, value) = if type_of(p, expr_id) == PinpType::Str {
            owned_str_code(s, p, expr_id, limit)
        } else {
            expect_value(s, p, expr_id, limit)
        };
        let more = done.push(value);
        lemma_values_code(s1, p, values, more, limit);
        lemma_lists_grow(s, s1, done, Seq::empty(), Seq::empty());
        let t = values_code(s1, p, values, more, limit).0;
        if live(s) && all_usable(s, done) && countable(t) {
            assert forall|i: int| 0 <= i < more.len() implies usable(s1, #[trigger] more[i]) by {
                if i < done.len() {
                    assert(usable(s1, done[i]));
                }
            }
            lemma_flows_on(s, s1, t);
        }
    }
}

pub proof fn lemma_group_stored(
    s: Lowering,
    p: Program,
    group: Seq<Place>,
    values: Seq<ExprId>,
    evaluated: Seq<Value>,
    first: bool,
    from: int,
)
    ensures
        ({
            let t = group_stored(s, p, group, values, evaluated, first, from);
            &&& grows(s, t)
            &&& t.current == s.current
            &&& t.blocks.len() == s.blocks.len()
            &&& live(s) && all_usable(s, evaluated) && countable(t) ==> {
                &&& live(t)
                &&& homes(t) == homes(s)
                &&& shape(t) == shape(s)
            }
        }),
    decreases group.len() - from,
{
    if 0 <= from < group.len() && from < evaluated.len() {
        lemma_store_to_place(
            s,
            group[from],
            evaluated[from],
            type_of(p, values[from]),
            first,
        );
        let s1 = store_to_place(s, group[from], evaluated[from], type_of(p, values[from]), first);
        lemma_group_stored(s1, p, group, values, evaluated, first, from + 1);
        lemma_lists_grow(s, s1, evaluated, Seq::empty(), Seq::empty());
        if all_usable(s, evaluated) {
            assert(usable(s, evaluated[from]));
        }
    }
}

pub proof fn lemma_groups_stored(
    s: Lowering,
    p: Program,
    groups: Seq<Seq<Place>>,
    values: Seq<ExprId>,
    evaluated: Seq<Value>,
    from: int,
)
    ensures
        ({
            let t = groups_stored(s, p, groups, values, evaluated, from);
            &&& grows(s, t)
            &&& t.current == s.current
            &&& t.blocks.len() == s.blocks.len()
            &&& live(s) && all_usable(s, evaluated) && countable(t) ==> {
                &&& live(t)
                &&& homes(t) == homes(s)
                &&& shape(t) == shape(s)
            }
        }),
    decreases groups.len() - from,
{
    if 0 <= from < groups.len() {
        lemma_group_stored(s, p, groups[from], values, evaluated, from == 0, 0);
        let s1 = group_stored(s, p, groups[from], values, evaluated, from == 0, 0);
        lemma_groups_stored(s1, p, groups, values, evaluated, from + 1);
        lemma_lists_grow(s, s1, evaluated, Seq::empty(), Seq::empty());
    }
}

proof fn lemma_stmt_code(s: Lowering, p: Program, stmt: StmtView, limit: int)
    ensures
        ({
            let (t, r) = stmt_code(s, p, stmt, limit);
            &&& grows(s, t)
            &&& live(s) && countable(t) ==> {
                &&& flows(s, t)
                &&& (r matches Some(value) ==> usable(t, value))
            }
        }),
    decreases limit, 10int, stmt, 0int,
{
    match stmt {
        StmtView::Expr(expr_id) => lemma_expr_code(s, p, expr_id, limit),
        StmtView::Assign(groups, _, values) => {
            lemma_values_code(s, p, values, Seq::empty(), limit);
            let (s1, evaluated) = values_code(s, p, values, Seq::empty(), limit);
            lemma_groups_stored(s1, p, groups, values, evaluated, 0);
            let t = groups_stored(s1, p, groups, values, evaluated, 0);
            lemma_lists_grow(s1, t, evaluated, Seq::empty(), Seq::empty());
            if live(s) && countable(t) {
                lemma_steady_flows(s1, t);
                lemma_flows_on(s, s1, t);
                if evaluated.len() > 0 {
                    assert(usable(t, evaluated[evaluated.len() - 1]));
                }
            }
        },
        StmtView::While(cond, body) => lemma_while_code(s, p, cond, body, limit),
        StmtView::Loop(body, cond, until) => lemma_loop_code(s, p, body, cond, until, limit),
        StmtView::For(var, source, body) => lemma_for_code(s, p, var, source, body, limit),
        StmtView::IndexedAssign(target, index, value, compound_op) => lemma_indexed_assign_code(
            s,
            p,
            target,
            index,
            value,
            compound_op,
            limit,
        ),
        StmtView::IndexedAssign2D(target, row, col, value, compound_op) => {
            lemma_indexed_assign2d_code(s, p, target, row, col, value, compound_op, limit)
        },
        StmtView::ForArray(_, _, _) => {
            lemma_failed(s, CodegenError::Malformed);
            if live(s) {
                lemma_steady_flows(s, failed(s, CodegenError::Malformed));
            }
        },
    }
}

pub proof fn lemma_spill_str(s: Lowering, value: Value)
    ensures
        ({
            let (t, r) = spill_str(s, value);
            &&& grows(s, t)
            &&& t.current == s.current
            &&& t.blocks.len() == s.blocks.len()
            &&& live(s) && usable(s, value) && countable(t) ==> {
                &&& live(t)
                &&& homes(t) == homes(s)
                &&& shape(t) == shape(s)
                &&& usable(t, r)
            }
        }),
{
    broadcast use lemma_shape_len, lemma_homes_len;

    lemma_alloca_at_entry(s, PinpType::Str);
    let (s1, slot) = alloca_at_entry(s, PinpType::Str);
    lemma_emitted(s1, InstView::Op(Op::Store(slot, value)));
}

proof fn lemma_free_str_slot(s: Lowering, slot: Value)
    ensures
        ({
            let t = free_str_slot(s, slot);
            &&& grows(s, t)
            &&& t.current == s.current
            &&& t.blocks.len() == s.blocks.len()
            &&& live(s) && usable(s, slot) && countable(t) ==> {
                &&& live(t)
                &&& homes(t) == homes(s)
                &&& shape(t) == shape(s)
            }
        }),
{
    broadcast use lemma_shape_len, lemma_homes_len;

    lemma_emitted(s, InstView::Call(Callee::Runtime(RuntimeFn::StrFree), seq![slot]));
}

proof fn lemma_free_str_value(s: Lowering, value: Value)
    ensures
        ({
            let t = free_str_value(s, value);
            &&& grows(s, t)
            &&& t.current == s.current
            &&& t.blocks.len() == s.blocks.len()
            &&& live(s) && usable(s, value) && countable(t) ==> {
                &&& live(t)
                &&& homes(t) == homes(s)
                &&& shape(t) == shape(s)
            }
        }),
{
    broadcast use lemma_shape_len, lemma_homes_len;

    lemma_spill_str(s, value);
    let (s1, slot) = spill_str(s, value);
    lemma_free_str_slot(s1, slot);
}

proof fn lemma_build_str_constant(s: Lowering, content: Seq<char>)
    ensures
        ({
            let (t, r) = build_str_constant(s, content);
            &&& grows(s, t)
            &&& t.current == s.current
            &&& t.blocks.len() == s.blocks.len()
            &&& live(s) && countable(t) ==> {
                &&& live(t)
                &&& homes(t) == homes(s)
                &&& shape(t) == shape(s)
                &&& usable(t, r)
            }
        }),
{
    broadcast use lemma_shape_len, lemma_homes_len;

    lemma_text_added(s, content);
    let text = next_text(s);
    let s1 = text_added(s, content);
    lemma_emitted(s1, InstView::Call(Callee::Runtime(RuntimeFn::StrFromCstr), seq![text]));
}

pub proof fn lemma_str_from_value(s: Lowering, value: Value, value_type: PinpType)
    ensures
        ({
            let (t, r) = str_from_value(s, value, value_type);
            &&& grows(s, t)
            &&& t.current == s.current
            &&& t.blocks.len() == s.blocks.len()
            &&& live(s) && usable(s, value) && countable(t) ==> {
                &&& live(t)
                &&& homes(t) == homes(s)
                &&& shape(t) == shape(s)
                &&& usable(t, r)
            }
        }),
{
    broadcast use lemma_shape_len, lemma_homes_len;

    let (s1, rendered) = match value_type {
        PinpType::Str => {
            (s, value)
        },
        PinpType::Int => {
            lemma_emitted(s, InstView::Call(Callee::Runtime(RuntimeFn::StrFromInt), seq![value]));
            let digits = next_value(s);
            let s2 = called(s, Callee::Runtime(RuntimeFn::StrFromInt), seq![value]);
            (s2, digits)
        },
        PinpType::Float => {
            lemma_emitted(s, InstView::Call(Callee::Runtime(RuntimeFn::StrFromFloat), seq![value]));
            let digits = next_value(s);
            let s3 = called(s, Callee::Runtime(RuntimeFn::StrFromFloat), seq![value]);
            (s3, digits)
        },
        PinpType::Bool => {
            lemma_text_added(s, "true"@);
            let true_text = next_text(s);
            let s4 = text_added(s, "true"@);
            lemma_text_added(s4, "false"@);
            let false_text = next_text(s4);
            let s5 = text_added(s4, "false"@);
            lemma_emitted(s5, InstView::Op(Op::Select(value, true_text, false_text)));
            let text = next_value(s5);
            let s6 = op(s5, Op::Select(value, true_text, false_text));
            lemma_emitted(s6, InstView::Call(Callee::Runtime(RuntimeFn::StrFromCstr), seq![text]));
            let word = next_value(s6);
            let s7 = called(s6, Callee::Runtime(RuntimeFn::StrFromCstr), seq![text]);
            (s7, word)
        },
        _ => {
            lemma_failed(s, CodegenError::Malformed);
            let s8 = failed(s, CodegenError::Malformed);
            (s8, value)
        },
    };
}

pub proof fn lemma_own_str(s: Lowering, value: Value, owned: bool)
    ensures
        ({
            let (t, r) = own_str(s, value, owned);
            &&& grows(s, t)
            &&& t.current == s.current
            &&& t.blocks.len() == s.blocks.len()
            &&& live(s) && usable(s, value) && countable(t) ==> {
                &&& live(t)
                &&& homes(t) == homes(s)
                &&& shape(t) == shape(s)
                &&& usable(t, r)
            }
        }),
{
    broadcast use lemma_shape_len, lemma_homes_len;

    let (s1, kept) = if owned {
        (s, value)
    } else {
        lemma_copy_str(s, value);
        let (s2, copy) = copy_str(s, value);
        (s2, copy)
    };
}

pub proof fn lemma_owned_str_code(s: Lowering, p: Program, expr_id: ExprId, limit: int)
    ensures
        ({
            let (t, r) = owned_str_code(s, p, expr_id, limit);
            &&& grows(s, t)
            &&& live(s) && countable(t) ==> {
                &&& flows(s, t)
                &&& usable(t, r)
            }
        }),
    decreases limit, 2int, p, 0int,
{
    broadcast use lemma_shape_len, lemma_homes_len;

    lemma_expect_value(s, p, expr_id, limit);
    let (s1, value) = expect_value(s, p, expr_id, limit);
    let owned = owns_str_result(p, expr_id);
    lemma_own_str(s1, value, owned);
    let (s2, kept) = own_str(s1, value, owned);
    if live(s) && countable(s2) {
        assert(shape(s2) =~= moved(
            shape(s),
            s.current as int,
            s2.blocks.len() as int,
            s2.current as int,
        ));
        assert(homes(s2) =~= homed(homes(s), s2.blocks.len() as int, homes(s)[s.current as int]));
    }
}

proof fn lemma_str_conversion_code(s: Lowering, p: Program, arg: ExprId, limit: int)
    ensures
        ({
            let (t, r) = str_conversion_code(s, p, arg, limit);
            &&& grows(s, t)
            &&& live(s) && countable(t) ==> {
                &&& flows(s, t)
                &&& usable(t, r)
            }
        }),
    decreases limit, 4int, p, 0int,
{
    broadcast use lemma_shape_len, lemma_homes_len;

    let arg_type = type_of(p, arg);
    let (s1, converted) = if arg_type == PinpType::Str {
        lemma_owned_str_code(s, p, arg, limit);
        let (s2, kept) = owned_str_code(s, p, arg, limit);
        (s2, kept)
    } else {
        lemma_expect_value(s, p, arg, limit);
        let (s3, value) = expect_value(s, p, arg, limit);
        lemma_str_from_value(s3, value, arg_type);
        let (s4, rendered) = str_from_value(s3, value, arg_type);
        (s4, rendered)
    };
    if live(s) && countable(s1) {
        assert(shape(s1) =~= moved(
            shape(s),
            s.current as int,
            s1.blocks.len() as int,
            s1.current as int,
        ));
        assert(homes(s1) =~= homed(homes(s), s1.blocks.len() as int, homes(s)[s.current as int]));
    }
}

proof fn lemma_str_len_code(s: Lowering, p: Program, object: ExprId, limit: int)
    ensures
        ({
            let (t, r) = str_len_code(s, p, object, limit);
            &&& grows(s, t)
            &&& live(s) && countable(t) ==> {
                &&& flows(s, t)
                &&& usable(t, r)
            }
        }),
    decreases limit, 4int, p, 0int,
{
    broadcast use lemma_shape_len, lemma_homes_len;

    lemma_expect_value(s, p, object, limit);
    let (s1, value) = expect_value(s, p, object, limit);
    lemma_spill_str(s1, value);
    let (s2, slot) = spill_str(s1, value);
    lemma_emitted(s2, InstView::Call(Callee::Runtime(RuntimeFn::StrLen), seq![slot]));
    let s3 = called(s2, Callee::Runtime(RuntimeFn::StrLen), seq![slot]);
    let owned = owns_str_result(p, object);
    let s4 = if owned {
        lemma_free_str_slot(s3, slot);
        let s5 = free_str_slot(s3, slot);
        s5
    } else {
        s3
    };
    if live(s) && countable(s4) {
        assert(shape(s4) =~= moved(
            shape(s),
            s.current as int,
            s4.blocks.len() as int,
            s4.current as int,
        ));
        assert(homes(s4) =~= homed(homes(s), s4.blocks.len() as int, homes(s)[s.current as int]));
    }
}

proof fn lemma_str_compare_code(
    s: Lowering,
    p: Program,
    operator: BinOp,
    lhs: ExprId,
    rhs: ExprId,
    limit: int,
)
    ensures
        ({
            let (t, r) = str_compare_code(s, p, operator, lhs, rhs, limit);
            &&& grows(s, t)
            &&& live(s) && countable(t) ==> {
                &&& flows(s, t)
                &&& usable(t, r)
            }
        }),
    decreases limit, 4int, p, 0int,
{
    broadcast use lemma_shape_len, lemma_homes_len;

    lemma_expect_value(s, p, lhs, limit);
    let (s1, left_value) = expect_value(s, p, lhs, limit);
    lemma_expect_value(s1, p, rhs, limit);
    let (s2, right_value) = expect_value(s1, p, rhs, limit);
    lemma_spill_str(s2, left_value);
    let (s3, left) = spill_str(s2, left_value);
    lemma_spill_str(s3, right_value);
    let (s4, right) = spill_str(s3, right_value);
    lemma_emitted(s4, InstView::Call(Callee::Runtime(str_relation(operator)), seq![left, right]));
    let answer = next_value(s4);
    let s5 = called(s4, Callee::Runtime(str_relation(operator)), seq![left, right]);
    lemma_emitted(s5, InstView::Op(Op::IntCompare(str_predicate(operator), answer, Value::I32(0))));
    let s6 = op(s5, Op::IntCompare(str_predicate(operator), answer, Value::I32(0)));
    let left_owned = owns_str_result(p, lhs);
    let s7 = if left_owned {
        lemma_free_str_slot(s6, left);
        let s8 = free_str_slot(s6, left);
        s8
    } else {
        s6
    };
    let right_owned = owns_str_result(p, rhs);
    let s9 = if right_owned {
        lemma_free_str_slot(s7, right);
        let s10 = free_str_slot(s7, right);
        s10
    } else {
        s7
    };
    if live(s) && countable(s9) {
        assert(shape(s9) =~= moved(
            shape(s),
            s.current as int,
            s9.blocks.len() as int,
            s9.current as int,
        ));
        assert(homes(s9) =~= homed(homes(s), s9.blocks.len() as int, homes(s)[s.current as int]));
    }
}

proof fn lemma_place_slot(s: Lowering, place: Place)
    ensures
        ({
            let (t, r) = place_slot(s, place);
            &&& grows(s, t)
            &&& t.current == s.current
            &&& t.blocks.len() == s.blocks.len()
            &&& live(s) && countable(t) ==> {
                &&& live(t)
                &&& homes(t) == homes(s)
                &&& shape(t) == shape(s)
                &&& usable(t, r.place)
            }
        }),
{
    broadcast use lemma_shape_len, lemma_homes_len;

    let (s1, slot) = match place {
        Place::Local(sym_id) => {
            lemma_var_slot(s, sym_id, false);
            let (s2, found) = var_slot(s, sym_id, false);
            (s2, found)
        },
        Place::Global(sym_id) => {
            lemma_var_slot(s, sym_id, true);
            let (s3, found) = var_slot(s, sym_id, true);
            (s3, found)
        },
    };
}

proof fn lemma_load_place(s: Lowering, place: Place)
    ensures
        ({
            let (t, r) = load_place(s, place);
            &&& grows(s, t)
            &&& t.current == s.current
            &&& t.blocks.len() == s.blocks.len()
            &&& live(s) && countable(t) ==> {
                &&& live(t)
                &&& homes(t) == homes(s)
                &&& shape(t) == shape(s)
                &&& usable(t, r.0)
            }
        }),
{
    broadcast use lemma_shape_len, lemma_homes_len;

    lemma_place_slot(s, place);
    let (s1, slot) = place_slot(s, place);
    lemma_storable(s1, slot.value_type);
    let (s2, ir_type) = storable(s1, slot.value_type);
    lemma_emitted(s2, InstView::Op(Op::Load(ir_type, slot.place)));
}

proof fn lemma_store_to_place(
    s: Lowering,
    place: Place,
    value: Value,
    value_type: PinpType,
    first: bool,
)
    ensures
        ({
            let t = store_to_place(s, place, value, value_type, first);
            &&& grows(s, t)
            &&& t.current == s.current
            &&& t.blocks.len() == s.blocks.len()
            &&& live(s) && usable(s, value) && countable(t) ==> {
                &&& live(t)
                &&& homes(t) == homes(s)
                &&& shape(t) == shape(s)
            }
        }),
{
    broadcast use lemma_shape_len, lemma_homes_len;

    lemma_resolve_place(s, place, value_type);
    let (s1, slot) = resolve_place(s, place, value_type);
    let (s2, stored) = if value_type == PinpType::Str {
        lemma_own_str(s1, value, first);
        let (s3, kept) = own_str(s1, value, first);
        lemma_free_str_slot(s3, slot.place);
        let s4 = free_str_slot(s3, slot.place);
        (s4, kept)
    } else {
        lemma_promote(s1, value, value_type, slot.value_type);
        let (s5, promoted) = promote(s1, value, value_type, slot.value_type);
        (s5, promoted)
    };
    lemma_emitted(s2, InstView::Op(Op::Store(slot.place, stored)));
}

pub proof fn lemma_expect_value(s: Lowering, p: Program, expr_id: ExprId, limit: int)
    ensures
        ({
            let (t, r) = expect_value(s, p, expr_id, limit);
            &&& grows(s, t)
            &&& live(s) && countable(t) ==> {
                &&& flows(s, t)
                &&& usable(t, r)
            }
        }),
    decreases limit, 1int, p, 0int,
{
    broadcast use lemma_shape_len, lemma_homes_len;

    lemma_expr_code(s, p, expr_id, limit);
    let (s1, yielded) = expr_code(s, p, expr_id, limit);
    let (s2, value) = match yielded {
        Some(found) => {
            (s1, found)
        },
        None => {
            lemma_failed(s1, CodegenError::VoidValue);
            let s3 = failed(s1, CodegenError::VoidValue);
            (s3, Value::Int(0))
        },
    };
    if live(s) && countable(s2) {
        assert(shape(s2) =~= moved(
            shape(s),
            s.current as int,
            s2.blocks.len() as int,
            s2.current as int,
        ));
        assert(homes(s2) =~= homed(homes(s), s2.blocks.len() as int, homes(s)[s.current as int]));
    }
}

pub proof fn lemma_as_int(s: Lowering, p: Program, expr_id: ExprId, limit: int)
    ensures
        ({
            let (t, r) = as_int(s, p, expr_id, limit);
            &&& grows(s, t)
            &&& live(s) && countable(t) ==> {
                &&& flows(s, t)
                &&& usable(t, r)
            }
        }),
    decreases limit, 2int, p, 0int,
{
    broadcast use lemma_shape_len, lemma_homes_len;

    lemma_expect_value(s, p, expr_id, limit);
    let (s1, value) = expect_value(s, p, expr_id, limit);
    let value_type = type_of(p, expr_id);
    let (s2, widened) = if value_type == PinpType::Bool {
        lemma_emitted(s1, InstView::Op(Op::Cast(Cast::ZeroExtend, value)));
        let wide = next_value(s1);
        let s3 = op(s1, Op::Cast(Cast::ZeroExtend, value));
        (s3, wide)
    } else {
        (s1, value)
    };
    if live(s) && countable(s2) {
        assert(shape(s2) =~= moved(
            shape(s),
            s.current as int,
            s2.blocks.len() as int,
            s2.current as int,
        ));
        assert(homes(s2) =~= homed(homes(s), s2.blocks.len() as int, homes(s)[s.current as int]));
    }
}

pub proof fn lemma_as_float(s: Lowering, p: Program, expr_id: ExprId, limit: int)
    ensures
        ({
            let (t, r) = as_float(s, p, expr_id, limit);
            &&& grows(s, t)
            &&& live(s) && countable(t) ==> {
                &&& flows(s, t)
                &&& usable(t, r)
            }
        }),
    decreases limit, 2int, p, 0int,
{
    broadcast use lemma_shape_len, lemma_homes_len;

    lemma_expect_value(s, p, expr_id, limit);
    let (s1, value) = expect_value(s, p, expr_id, limit);
    let value_type = type_of(p, expr_id);
    let (s2, float) = match value_type {
        PinpType::Int => {
            lemma_emitted(s1, InstView::Op(Op::Cast(Cast::SignedToFloat, value)));
            let wide = next_value(s1);
            let s3 = op(s1, Op::Cast(Cast::SignedToFloat, value));
            (s3, wide)
        },
        PinpType::Bool => {
            lemma_emitted(s1, InstView::Op(Op::Cast(Cast::UnsignedToFloat, value)));
            let wide = next_value(s1);
            let s4 = op(s1, Op::Cast(Cast::UnsignedToFloat, value));
            (s4, wide)
        },
        _ => {
            (s1, value)
        },
    };
    if live(s) && countable(s2) {
        assert(shape(s2) =~= moved(
            shape(s),
            s.current as int,
            s2.blocks.len() as int,
            s2.current as int,
        ));
        assert(homes(s2) =~= homed(homes(s), s2.blocks.len() as int, homes(s)[s.current as int]));
    }
}

proof fn lemma_neg_code(s: Lowering, p: Program, result_type: PinpType, operand: ExprId, limit: int)
    ensures
        ({
            let (t, r) = neg_code(s, p, result_type, operand, limit);
            &&& grows(s, t)
            &&& live(s) && countable(t) ==> {
                &&& flows(s, t)
                &&& usable(t, r)
            }
        }),
    decreases limit, 4int, p, 0int,
{
    broadcast use lemma_shape_len, lemma_homes_len;

    lemma_expect_value(s, p, operand, limit);
    let (s1, value) = expect_value(s, p, operand, limit);
    let operand_type = type_of(p, operand);
    lemma_promote(s1, value, operand_type, result_type);
    let (s2, widened) = promote(s1, value, operand_type, result_type);
    let (s3, negated) = if result_type == PinpType::Int {
        lemma_emitted(s2, InstView::Op(Op::IntNeg(widened)));
        let integer = next_value(s2);
        let s4 = op(s2, Op::IntNeg(widened));
        (s4, integer)
    } else {
        lemma_emitted(s2, InstView::Op(Op::FloatNeg(widened)));
        let float = next_value(s2);
        let s5 = op(s2, Op::FloatNeg(widened));
        (s5, float)
    };
    if live(s) && countable(s3) {
        assert(shape(s3) =~= moved(
            shape(s),
            s.current as int,
            s3.blocks.len() as int,
            s3.current as int,
        ));
        assert(homes(s3) =~= homed(homes(s), s3.blocks.len() as int, homes(s)[s.current as int]));
    }
}

proof fn lemma_not_code(s: Lowering, p: Program, operand: ExprId, limit: int)
    ensures
        ({
            let (t, r) = not_code(s, p, operand, limit);
            &&& grows(s, t)
            &&& live(s) && countable(t) ==> {
                &&& flows(s, t)
                &&& usable(t, r)
            }
        }),
    decreases limit, 4int, p, 0int,
{
    broadcast use lemma_shape_len, lemma_homes_len;

    lemma_expect_value(s, p, operand, limit);
    let (s1, value) = expect_value(s, p, operand, limit);
    lemma_emitted(s1, InstView::Op(Op::Not(value)));
    let s2 = op(s1, Op::Not(value));
    if live(s) && countable(s2) {
        assert(shape(s2) =~= moved(
            shape(s),
            s.current as int,
            s2.blocks.len() as int,
            s2.current as int,
        ));
        assert(homes(s2) =~= homed(homes(s), s2.blocks.len() as int, homes(s)[s.current as int]));
    }
}

proof fn lemma_range_parts_code(
    s: Lowering,
    p: Program,
    start: ExprId,
    stop: ExprId,
    step: Option<ExprId>,
    kind: RangeKind,
    limit: int,
)
    ensures
        ({
            let (t, r) = range_parts_code(s, p, start, stop, step, kind, limit);
            &&& grows(s, t)
            &&& live(s) && countable(t) ==> {
                &&& flows(s, t)
                &&& usable(t, r)
            }
        }),
    decreases limit, 4int, p, 0int,
{
    broadcast use lemma_shape_len, lemma_homes_len;

    lemma_as_int(s, p, start, limit);
    let (s1, start_value) = as_int(s, p, start, limit);
    lemma_as_int(s1, p, stop, limit);
    let (s2, stop_value) = as_int(s1, p, stop, limit);
    let (s3, step_value) = match step {
        Some(step_id) => {
            lemma_as_int(s2, p, step_id, limit);
            let (s4, given) = as_int(s2, p, step_id, limit);
            (s4, given)
        },
        None => {
            lemma_default_step(s2, kind, start_value, stop_value);
            let (s5, implied) = default_step(s2, kind, start_value, stop_value);
            (s5, implied)
        },
    };
    lemma_guard_zero_step(s3, step_value);
    let s6 = guard_zero_step(s3, step_value);
    lemma_build_range(
        s6,
        start_value,
        stop_value,
        step_value,
        Value::Bool(kind == RangeKind::Inclusive),
    );
    let (s7, range) = build_range(
        s6,
        start_value,
        stop_value,
        step_value,
        Value::Bool(kind == RangeKind::Inclusive),
    );
    if live(s) && countable(s7) {
        assert(shape(s7) =~= moved(
            shape(s),
            s.current as int,
            s7.blocks.len() as int,
            s7.current as int,
        ));
        assert(homes(s7) =~= homed(homes(s), s7.blocks.len() as int, homes(s)[s.current as int]));
    }
}

proof fn lemma_membership_code(s: Lowering, p: Program, value: ExprId, range: ExprId, limit: int)
    ensures
        ({
            let (t, r) = membership_code(s, p, value, range, limit);
            &&& grows(s, t)
            &&& live(s) && countable(t) ==> {
                &&& flows(s, t)
                &&& usable(t, r)
            }
        }),
    decreases limit, 4int, p, 0int,
{
    broadcast use lemma_shape_len, lemma_homes_len;

    lemma_as_int(s, p, value, limit);
    let (s1, candidate) = as_int(s, p, value, limit);
    lemma_expect_value(s1, p, range, limit);
    let (s2, range_value) = expect_value(s1, p, range, limit);
    lemma_extract_range(s2, range_value);
    let (s3, parts) = extract_range(s2, range_value);
    lemma_member_test(s3, candidate, parts);
    let (s4, inside) = member_test(s3, candidate, parts);
    if live(s) && countable(s4) {
        assert(shape(s4) =~= moved(
            shape(s),
            s.current as int,
            s4.blocks.len() as int,
            s4.current as int,
        ));
        assert(homes(s4) =~= homed(homes(s), s4.blocks.len() as int, homes(s)[s.current as int]));
    }
}

proof fn lemma_arithmetic_code(
    s: Lowering,
    p: Program,
    result_type: PinpType,
    operator: BinOp,
    lhs: ExprId,
    rhs: ExprId,
    limit: int,
)
    ensures
        ({
            let (t, r) = arithmetic_code(s, p, result_type, operator, lhs, rhs, limit);
            &&& grows(s, t)
            &&& live(s) && countable(t) ==> {
                &&& flows(s, t)
                &&& usable(t, r)
            }
        }),
    decreases limit, 5int, p, 0int,
{
    broadcast use lemma_shape_len, lemma_homes_len;

    let (s1, result) = if result_type == PinpType::Str && operator == BinOp::Add {
        lemma_str_concat_code(s, p, lhs, rhs, limit);
        let (s2, joined) = str_concat_code(s, p, lhs, rhs, limit);
        (s2, joined)
    } else if result_type == PinpType::Float {
        lemma_as_float(s, p, lhs, limit);
        let (s3, left) = as_float(s, p, lhs, limit);
        lemma_as_float(s3, p, rhs, limit);
        let (s4, right) = as_float(s3, p, rhs, limit);
        lemma_emitted(s4, InstView::Op(Op::FloatBinary(float_op(operator), left, right)));
        let float = next_value(s4);
        let s5 = op(s4, Op::FloatBinary(float_op(operator), left, right));
        (s5, float)
    } else {
        lemma_as_int(s, p, lhs, limit);
        let (s6, left) = as_int(s, p, lhs, limit);
        lemma_as_int(s6, p, rhs, limit);
        let (s7, right) = as_int(s6, p, rhs, limit);
        lemma_emitted(s7, InstView::Op(Op::IntBinary(int_op(operator), left, right)));
        let integer = next_value(s7);
        let s8 = op(s7, Op::IntBinary(int_op(operator), left, right));
        (s8, integer)
    };
    if live(s) && countable(s1) {
        assert(shape(s1) =~= moved(
            shape(s),
            s.current as int,
            s1.blocks.len() as int,
            s1.current as int,
        ));
        assert(homes(s1) =~= homed(homes(s), s1.blocks.len() as int, homes(s)[s.current as int]));
    }
}

proof fn lemma_bin_code(
    s: Lowering,
    p: Program,
    result_type: PinpType,
    operator: BinOp,
    lhs: ExprId,
    rhs: ExprId,
    limit: int,
)
    ensures
        ({
            let (t, r) = bin_code(s, p, result_type, operator, lhs, rhs, limit);
            &&& grows(s, t)
            &&& live(s) && countable(t) ==> {
                &&& flows(s, t)
                &&& usable(t, r)
            }
        }),
    decreases limit, 6int, p, 0int,
{
    broadcast use lemma_shape_len, lemma_homes_len;

    let (s1, result) = match operator {
        BinOp::Add | BinOp::Sub | BinOp::Mul => {
            lemma_arithmetic_code(s, p, result_type, operator, lhs, rhs, limit);
            let (s2, value) = arithmetic_code(s, p, result_type, operator, lhs, rhs, limit);
            (s2, value)
        },
        BinOp::Div => {
            lemma_as_float(s, p, lhs, limit);
            let (s3, left) = as_float(s, p, lhs, limit);
            lemma_as_float(s3, p, rhs, limit);
            let (s4, right) = as_float(s3, p, rhs, limit);
            lemma_emitted(s4, InstView::Op(Op::FloatBinary(FloatOp::Div, left, right)));
            let quotient = next_value(s4);
            let s5 = op(s4, Op::FloatBinary(FloatOp::Div, left, right));
            (s5, quotient)
        },
        BinOp::IntDiv | BinOp::Mod => {
            lemma_as_int(s, p, lhs, limit);
            let (s6, left) = as_int(s, p, lhs, limit);
            lemma_as_int(s6, p, rhs, limit);
            let (s7, right) = as_int(s6, p, rhs, limit);
            lemma_emitted(s7, InstView::Op(Op::IntBinary(int_op(operator), left, right)));
            let integer = next_value(s7);
            let s8 = op(s7, Op::IntBinary(int_op(operator), left, right));
            (s8, integer)
        },
        BinOp::Pow => {
            lemma_as_float(s, p, lhs, limit);
            let (s9, left) = as_float(s, p, lhs, limit);
            lemma_as_float(s9, p, rhs, limit);
            let (s10, right) = as_float(s9, p, rhs, limit);
            lemma_build_pow(s10, left, right);
            let (s11, power) = build_pow(s10, left, right);
            let (s12, raised) = if result_type == PinpType::Int {
                lemma_emitted(s11, InstView::Op(Op::Cast(Cast::FloatToSigned, power)));
                let truncated = next_value(s11);
                let s13 = op(s11, Op::Cast(Cast::FloatToSigned, power));
                (s13, truncated)
            } else {
                (s11, power)
            };
            (s12, raised)
        },
        BinOp::Xor => {
            lemma_expect_value(s, p, lhs, limit);
            let (s14, left) = expect_value(s, p, lhs, limit);
            lemma_expect_value(s14, p, rhs, limit);
            let (s15, right) = expect_value(s14, p, rhs, limit);
            lemma_emitted(s15, InstView::Op(Op::IntBinary(IntOp::Xor, left, right)));
            let either = next_value(s15);
            let s16 = op(s15, Op::IntBinary(IntOp::Xor, left, right));
            (s16, either)
        },
        BinOp::And | BinOp::Or => {
            lemma_short_circuit_code(s, p, operator, lhs, rhs, limit);
            let (s17, value) = short_circuit_code(s, p, operator, lhs, rhs, limit);
            (s17, value)
        },
        _ => {
            lemma_compare_code(s, p, operator, lhs, rhs, limit);
            let (s18, relation) = compare_code(s, p, operator, lhs, rhs, limit);
            (s18, relation)
        },
    };
    if live(s) && countable(s1) {
        assert(shape(s1) =~= moved(
            shape(s),
            s.current as int,
            s1.blocks.len() as int,
            s1.current as int,
        ));
        assert(homes(s1) =~= homed(homes(s), s1.blocks.len() as int, homes(s)[s.current as int]));
    }
}

proof fn lemma_compare_code(
    s: Lowering,
    p: Program,
    operator: BinOp,
    lhs: ExprId,
    rhs: ExprId,
    limit: int,
)
    ensures
        ({
            let (t, r) = compare_code(s, p, operator, lhs, rhs, limit);
            &&& grows(s, t)
            &&& live(s) && countable(t) ==> {
                &&& flows(s, t)
                &&& usable(t, r)
            }
        }),
    decreases limit, 5int, p, 0int,
{
    broadcast use lemma_shape_len, lemma_homes_len;

    let left_type = type_of(p, lhs);
    let right_type = type_of(p, rhs);
    let (s1, relation) = if left_type == PinpType::Str || right_type == PinpType::Str {
        lemma_str_compare_code(s, p, operator, lhs, rhs, limit);
        let (s2, strings) = str_compare_code(s, p, operator, lhs, rhs, limit);
        (s2, strings)
    } else if left_type == PinpType::Float || right_type == PinpType::Float {
        lemma_as_float(s, p, lhs, limit);
        let (s3, left) = as_float(s, p, lhs, limit);
        lemma_as_float(s3, p, rhs, limit);
        let (s4, right) = as_float(s3, p, rhs, limit);
        lemma_emitted(s4, InstView::Op(Op::FloatCompare(float_predicate(operator), left, right)));
        let floats = next_value(s4);
        let s5 = op(s4, Op::FloatCompare(float_predicate(operator), left, right));
        (s5, floats)
    } else {
        lemma_as_int(s, p, lhs, limit);
        let (s6, left) = as_int(s, p, lhs, limit);
        lemma_as_int(s6, p, rhs, limit);
        let (s7, right) = as_int(s6, p, rhs, limit);
        lemma_emitted(s7, InstView::Op(Op::IntCompare(int_predicate(operator), left, right)));
        let integers = next_value(s7);
        let s8 = op(s7, Op::IntCompare(int_predicate(operator), left, right));
        (s8, integers)
    };
    if live(s) && countable(s1) {
        assert(shape(s1) =~= moved(
            shape(s),
            s.current as int,
            s1.blocks.len() as int,
            s1.current as int,
        ));
        assert(homes(s1) =~= homed(homes(s), s1.blocks.len() as int, homes(s)[s.current as int]));
    }
}

proof fn lemma_short_circuit_code(
    s: Lowering,
    p: Program,
    operator: BinOp,
    lhs: ExprId,
    rhs: ExprId,
    limit: int,
)
    ensures
        ({
            let (t, r) = short_circuit_code(s, p, operator, lhs, rhs, limit);
            &&& grows(s, t)
            &&& live(s) && countable(t) ==> {
                &&& flows(s, t)
                &&& usable(t, r)
            }
        }),
    decreases limit, 4int, p, 0int,
{
    broadcast use lemma_shape_len, lemma_homes_len;

    lemma_expect_value(s, p, lhs, limit);
    let (s1, left) = expect_value(s, p, lhs, limit);
    reveal(insert_block);
    let entry = insert_block(s1);
    lemma_block_appended(s1, "sc_rhs"@);
    let rhs_block = next_block(s1);
    let s2 = block_appended(s1, "sc_rhs"@);
    lemma_block_appended(s2, "sc_merge"@);
    let merge = next_block(s2);
    let s3 = block_appended(s2, "sc_merge"@);
    let s4 = if operator == BinOp::And {
        lemma_emitted(s3, InstView::Op(Op::CondBranch(left, rhs_block, merge)));
        let s5 = op(s3, Op::CondBranch(left, rhs_block, merge));
        s5
    } else {
        lemma_emitted(s3, InstView::Op(Op::CondBranch(left, merge, rhs_block)));
        let s6 = op(s3, Op::CondBranch(left, merge, rhs_block));
        s6
    };
    lemma_positioned(s4, rhs_block);
    let s7 = positioned(s4, rhs_block);
    lemma_expect_value(s7, p, rhs, limit);
    let (s8, right) = expect_value(s7, p, rhs, limit);
    reveal(insert_block);
    let rhs_end = insert_block(s8);
    lemma_emitted(s8, InstView::Op(Op::Branch(merge)));
    let s9 = op(s8, Op::Branch(merge));
    lemma_positioned(s9, merge);
    let s10 = positioned(s9, merge);
    lemma_emitted(
        s10,
        InstView::Phi(
            IrType::I1,
            seq![(Value::Bool(operator == BinOp::Or), entry), (right, rhs_end)],
        ),
    );
    let s11 = emitted(
        s10,
        InstView::Phi(
            IrType::I1,
            seq![(Value::Bool(operator == BinOp::Or), entry), (right, rhs_end)],
        ),
    );
    if live(s) && countable(s11) {
        assert(shape(s11) =~= moved(
            shape(s),
            s.current as int,
            s11.blocks.len() as int,
            s11.current as int,
        ));
        assert(homes(s11) =~= homed(homes(s), s11.blocks.len() as int, homes(s)[s.current as int]));
    }
}

proof fn lemma_apply_compound_op(
    s: Lowering,
    p: Program,
    operator: BinOp,
    current: Value,
    elem: ArrayElementType,
    rhs: ExprId,
    limit: int,
)
    ensures
        ({
            let (t, r) = apply_compound_op(s, p, operator, current, elem, rhs, limit);
            &&& grows(s, t)
            &&& live(s) && usable(s, current) && countable(t) ==> {
                &&& flows(s, t)
                &&& usable(t, r)
            }
        }),
    decreases limit, 4int, p, 0int,
{
    broadcast use lemma_shape_len, lemma_homes_len;

    lemma_expect_value(s, p, rhs, limit);
    let (s1, value) = expect_value(s, p, rhs, limit);
    let value_type = type_of(p, rhs);
    lemma_combine(s1, operator, current, elem, value, value_type);
    let (s2, combined) = combine(s1, operator, current, elem, value, value_type);
    if live(s) && usable(s, current) && countable(s2) {
        assert(shape(s2) =~= moved(
            shape(s),
            s.current as int,
            s2.blocks.len() as int,
            s2.current as int,
        ));
        assert(homes(s2) =~= homed(homes(s), s2.blocks.len() as int, homes(s)[s.current as int]));
    }
}

proof fn lemma_array_from_range_code(
    s: Lowering,
    p: Program,
    range: ExprId,
    elem: ArrayElementType,
    n: usize,
    limit: int,
)
    ensures
        ({
            let (t, r) = array_from_range_code(s, p, range, elem, n, limit);
            &&& grows(s, t)
            &&& live(s) && countable(t) ==> {
                &&& flows(s, t)
                &&& usable(t, r)
            }
        }),
    decreases limit, 4int, p, 0int,
{
    broadcast use lemma_shape_len, lemma_homes_len;

    lemma_build_pinp_alloc(s, n, elem);
    let (s1, array) = build_pinp_alloc(s, n, elem);
    lemma_range_code(s1, p, range, limit);
    let (s2, range_value) = range_code(s1, p, range, limit);
    lemma_extract_range(s2, range_value);
    let (s3, parts) = extract_range(s2, range_value);
    lemma_begin_range_slots(s3, PinpType::Int, parts.start);
    let (s4, slots) = begin_range_slots(s3, PinpType::Int, parts.start);
    lemma_block_appended(s4, "rinit_header"@);
    let header = next_block(s4);
    let s5 = block_appended(s4, "rinit_header"@);
    lemma_block_appended(s5, "rinit_body"@);
    let body = next_block(s5);
    let s6 = block_appended(s5, "rinit_body"@);
    lemma_block_appended(s6, "rinit_exit"@);
    let exit = next_block(s6);
    let s7 = block_appended(s6, "rinit_exit"@);
    lemma_emitted(s7, InstView::Op(Op::Branch(header)));
    let s8 = op(s7, Op::Branch(header));
    lemma_positioned(s8, header);
    let s9 = positioned(s8, header);
    lemma_load_counter(s9, slots.1);
    let (s10, position) = load_counter(s9, slots.1);
    lemma_emitted(
        s10,
        InstView::Op(Op::IntCompare(IntPredicate::Slt, position, Value::Int(n as u64 as i64))),
    );
    let cond = next_value(s10);
    let s11 = op(s10, Op::IntCompare(IntPredicate::Slt, position, Value::Int(n as u64 as i64)));
    lemma_emitted(s11, InstView::Op(Op::CondBranch(cond, body, exit)));
    let s12 = op(s11, Op::CondBranch(cond, body, exit));
    lemma_positioned(s12, body);
    let s13 = positioned(s12, body);
    lemma_load_counter(s13, slots.0);
    let (s14, current) = load_counter(s13, slots.0);
    lemma_load_counter(s14, slots.1);
    let (s15, target) = load_counter(s14, slots.1);
    lemma_build_element_ptr(s15, elem, array, target);
    let (s16, element_ptr) = build_element_ptr(s15, elem, array, target);
    lemma_promote(s16, current, PinpType::Int, element_type(elem));
    let (s17, element) = promote(s16, current, PinpType::Int, element_type(elem));
    lemma_emitted(s17, InstView::Op(Op::Store(element_ptr, element)));
    let s18 = op(s17, Op::Store(element_ptr, element));
    lemma_emitted(s18, InstView::Op(Op::IntBinary(IntOp::Add, current, parts.step)));
    let following = next_value(s18);
    let s19 = op(s18, Op::IntBinary(IntOp::Add, current, parts.step));
    lemma_emitted(s19, InstView::Op(Op::Store(slots.0, following)));
    let s20 = op(s19, Op::Store(slots.0, following));
    lemma_emitted(s20, InstView::Op(Op::IntBinary(IntOp::Add, target, Value::Int(1))));
    let next_target = next_value(s20);
    let s21 = op(s20, Op::IntBinary(IntOp::Add, target, Value::Int(1)));
    lemma_emitted(s21, InstView::Op(Op::Store(slots.1, next_target)));
    let s22 = op(s21, Op::Store(slots.1, next_target));
    lemma_emitted(s22, InstView::Op(Op::Branch(header)));
    let s23 = op(s22, Op::Branch(header));
    lemma_positioned(s23, exit);
    let s24 = positioned(s23, exit);
    if live(s) && countable(s24) {
        assert(shape(s24) =~= moved(
            shape(s),
            s.current as int,
            s24.blocks.len() as int,
            s24.current as int,
        ));
        assert(homes(s24) =~= homed(homes(s), s24.blocks.len() as int, homes(s)[s.current as int]));
    }
}

proof fn lemma_element_code(s: Lowering, p: Program, array: ExprId, index: ExprId, limit: int)
    ensures
        ({
            let (t, r) = element_code(s, p, array, index, limit);
            &&& grows(s, t)
            &&& live(s) && countable(t) ==> {
                &&& flows(s, t)
                &&& usable(t, r)
            }
        }),
    decreases limit, 4int, p, 0int,
{
    broadcast use lemma_shape_len, lemma_homes_len;

    let array_type = type_of(p, array);
    let (s1, value) = match array_type {
        PinpType::Array(elem, n) => {
            lemma_expect_value(s, p, array, limit);
            let (s2, base) = expect_value(s, p, array, limit);
            lemma_as_int(s2, p, index, limit);
            let (s3, position) = as_int(s2, p, index, limit);
            lemma_bounds_check_and_gep(s3, elem, base, position, n);
            let (s4, element_ptr) = bounds_check_and_gep(s3, elem, base, position, n);
            lemma_emitted(s4, InstView::Op(Op::Load(element_ir_type(elem), element_ptr)));
            let element = next_value(s4);
            let s5 = op(s4, Op::Load(element_ir_type(elem), element_ptr));
            (s5, element)
        },
        _ => {
            lemma_failed(s, CodegenError::Malformed);
            let s6 = failed(s, CodegenError::Malformed);
            (s6, Value::Int(0))
        },
    };
    if live(s) && countable(s1) {
        assert(shape(s1) =~= moved(
            shape(s),
            s.current as int,
            s1.blocks.len() as int,
            s1.current as int,
        ));
        assert(homes(s1) =~= homed(homes(s), s1.blocks.len() as int, homes(s)[s.current as int]));
    }
}

proof fn lemma_slice_code(
    s: Lowering,
    p: Program,
    result_type: PinpType,
    array: ExprId,
    range: ExprId,
    limit: int,
)
    ensures
        ({
            let (t, r) = slice_code(s, p, result_type, array, range, limit);
            &&& grows(s, t)
            &&& live(s) && countable(t) ==> {
                &&& flows(s, t)
                &&& usable(t, r)
            }
        }),
    decreases limit, 4int, p, 0int,
{
    broadcast use lemma_shape_len, lemma_homes_len;

    let bounds = literal_range(p, range);
    let (s1, value) = match (result_type, bounds) {
        (PinpType::Array(elem, count), Some(literal)) => {
            lemma_expect_value(s, p, array, limit);
            let (s2, source) = expect_value(s, p, array, limit);
            lemma_build_pinp_alloc(s2, count, elem);
            let (s3, target) = build_pinp_alloc(s2, count, elem);
            lemma_begin_counted_loop(
                s3,
                Value::Int(count as u64 as i64),
                "slice_hdr"@,
                "slice_body"@,
                "slice_exit"@,
            );
            let (s4, counted) = begin_counted_loop(
                s3,
                Value::Int(count as u64 as i64),
                "slice_hdr"@,
                "slice_body"@,
                "slice_exit"@,
            );
            lemma_emitted(
                s4,
                InstView::Op(Op::IntBinary(IntOp::Add, counted.current, Value::Int(literal.start))),
            );
            let source_index = next_value(s4);
            let s5 = op(s4, Op::IntBinary(IntOp::Add, counted.current, Value::Int(literal.start)));
            lemma_copy_element(s5, elem, source, source_index, target, counted.current);
            let s6 = copy_element(s5, elem, source, source_index, target, counted.current);
            lemma_end_counted_loop(s6, counted);
            let s7 = end_counted_loop(s6, counted);
            (s7, target)
        },
        _ => {
            lemma_failed(s, CodegenError::Malformed);
            let s8 = failed(s, CodegenError::Malformed);
            (s8, Value::Int(0))
        },
    };
    if live(s) && countable(s1) {
        assert(shape(s1) =~= moved(
            shape(s),
            s.current as int,
            s1.blocks.len() as int,
            s1.current as int,
        ));
        assert(homes(s1) =~= homed(homes(s), s1.blocks.len() as int, homes(s)[s.current as int]));
    }
}

proof fn lemma_index_code(
    s: Lowering,
    p: Program,
    result_type: PinpType,
    array: ExprId,
    index: ExprId,
    limit: int,
)
    ensures
        ({
            let (t, r) = index_code(s, p, result_type, array, index, limit);
            &&& grows(s, t)
            &&& live(s) && countable(t) ==> {
                &&& flows(s, t)
                &&& usable(t, r)
            }
        }),
    decreases limit, 5int, p, 0int,
{
    broadcast use lemma_shape_len, lemma_homes_len;

    let sliced = is_range(p, index);
    let (s1, value) = if sliced {
        lemma_slice_code(s, p, result_type, array, index, limit);
        let (s2, slice) = slice_code(s, p, result_type, array, index, limit);
        (s2, slice)
    } else {
        lemma_element_code(s, p, array, index, limit);
        let (s3, element) = element_code(s, p, array, index, limit);
        (s3, element)
    };
    if live(s) && countable(s1) {
        assert(shape(s1) =~= moved(
            shape(s),
            s.current as int,
            s1.blocks.len() as int,
            s1.current as int,
        ));
        assert(homes(s1) =~= homed(homes(s), s1.blocks.len() as int, homes(s)[s.current as int]));
    }
}

proof fn lemma_index2d_elem_code(
    s: Lowering,
    p: Program,
    elem: ArrayElementType,
    matrix: Value,
    row: ExprId,
    col: ExprId,
    rows: usize,
    cols: usize,
    limit: int,
)
    ensures
        ({
            let (t, r) = index2d_elem_code(s, p, elem, matrix, row, col, rows, cols, limit);
            &&& grows(s, t)
            &&& live(s) && usable(s, matrix) && countable(t) ==> {
                &&& flows(s, t)
                &&& usable(t, r)
            }
        }),
    decreases limit, 4int, p, 0int,
{
    broadcast use lemma_shape_len, lemma_homes_len;

    lemma_as_int(s, p, row, limit);
    let (s1, row_value) = as_int(s, p, row, limit);
    lemma_as_int(s1, p, col, limit);
    let (s2, col_value) = as_int(s1, p, col, limit);
    lemma_bounds_check_and_gep_2d(s2, elem, matrix, row_value, col_value, rows, cols);
    let (s3, element_ptr) = bounds_check_and_gep_2d(
        s2,
        elem,
        matrix,
        row_value,
        col_value,
        rows,
        cols,
    );
    lemma_emitted(s3, InstView::Op(Op::Load(element_ir_type(elem), element_ptr)));
    let s4 = op(s3, Op::Load(element_ir_type(elem), element_ptr));
    if live(s) && usable(s, matrix) && countable(s4) {
        assert(shape(s4) =~= moved(
            shape(s),
            s.current as int,
            s4.blocks.len() as int,
            s4.current as int,
        ));
        assert(homes(s4) =~= homed(homes(s), s4.blocks.len() as int, homes(s)[s.current as int]));
    }
}

proof fn lemma_index2d_row_slice_code(
    s: Lowering,
    p: Program,
    elem: ArrayElementType,
    matrix: Value,
    row: ExprId,
    rows: usize,
    cols: usize,
    slice: DimSlice,
    limit: int,
)
    ensures
        ({
            let (t, r) = index2d_row_slice_code(s, p, elem, matrix, row, rows, cols, slice, limit);
            &&& grows(s, t)
            &&& live(s) && usable(s, matrix) && countable(t) ==> {
                &&& flows(s, t)
                &&& usable(t, r)
            }
        }),
    decreases limit, 4int, p, 0int,
{
    broadcast use lemma_shape_len, lemma_homes_len;

    lemma_as_int(s, p, row, limit);
    let (s1, row_value) = as_int(s, p, row, limit);
    lemma_copy_row(s1, elem, matrix, row_value, rows, cols, slice);
    let (s2, part) = copy_row(s1, elem, matrix, row_value, rows, cols, slice);
    if live(s) && usable(s, matrix) && countable(s2) {
        assert(shape(s2) =~= moved(
            shape(s),
            s.current as int,
            s2.blocks.len() as int,
            s2.current as int,
        ));
        assert(homes(s2) =~= homed(homes(s), s2.blocks.len() as int, homes(s)[s.current as int]));
    }
}

proof fn lemma_index2d_col_slice_code(
    s: Lowering,
    p: Program,
    elem: ArrayElementType,
    matrix: Value,
    col: ExprId,
    cols: usize,
    slice: DimSlice,
    limit: int,
)
    ensures
        ({
            let (t, r) = index2d_col_slice_code(s, p, elem, matrix, col, cols, slice, limit);
            &&& grows(s, t)
            &&& live(s) && usable(s, matrix) && countable(t) ==> {
                &&& flows(s, t)
                &&& usable(t, r)
            }
        }),
    decreases limit, 4int, p, 0int,
{
    broadcast use lemma_shape_len, lemma_homes_len;

    lemma_as_int(s, p, col, limit);
    let (s1, col_value) = as_int(s, p, col, limit);
    lemma_copy_column(s1, elem, matrix, col_value, cols, slice);
    let (s2, part) = copy_column(s1, elem, matrix, col_value, cols, slice);
    if live(s) && usable(s, matrix) && countable(s2) {
        assert(shape(s2) =~= moved(
            shape(s),
            s.current as int,
            s2.blocks.len() as int,
            s2.current as int,
        ));
        assert(homes(s2) =~= homed(homes(s), s2.blocks.len() as int, homes(s)[s.current as int]));
    }
}

proof fn lemma_index2d_code(
    s: Lowering,
    p: Program,
    matrix: ExprId,
    row: ExprId,
    col: ExprId,
    limit: int,
)
    ensures
        ({
            let (t, r) = index2d_code(s, p, matrix, row, col, limit);
            &&& grows(s, t)
            &&& live(s) && countable(t) ==> {
                &&& flows(s, t)
                &&& usable(t, r)
            }
        }),
    decreases limit, 5int, p, 0int,
{
    broadcast use lemma_shape_len, lemma_homes_len;

    let matrix_type = type_of(p, matrix);
    let (s1, value) = match matrix_type {
        PinpType::Matrix(elem, rows, cols) => {
            lemma_expect_value(s, p, matrix, limit);
            let (s2, base) = expect_value(s, p, matrix, limit);
            let row_sel = selector(p, row, rows);
            let col_sel = selector(p, col, cols);
            let (s3, selected) = match (row_sel, col_sel) {
                (Some(DimSel::Scalar), Some(DimSel::Scalar)) => {
                    lemma_index2d_elem_code(s2, p, elem, base, row, col, rows, cols, limit);
                    let (s4, element) = index2d_elem_code(
                        s2,
                        p,
                        elem,
                        base,
                        row,
                        col,
                        rows,
                        cols,
                        limit,
                    );
                    (s4, element)
                },
                (Some(DimSel::Scalar), Some(DimSel::Slice(slice))) => {
                    lemma_index2d_row_slice_code(s2, p, elem, base, row, rows, cols, slice, limit);
                    let (s5, part) = index2d_row_slice_code(
                        s2,
                        p,
                        elem,
                        base,
                        row,
                        rows,
                        cols,
                        slice,
                        limit,
                    );
                    (s5, part)
                },
                (Some(DimSel::Slice(slice)), Some(DimSel::Scalar)) => {
                    lemma_index2d_col_slice_code(s2, p, elem, base, col, cols, slice, limit);
                    let (s6, part) = index2d_col_slice_code(
                        s2,
                        p,
                        elem,
                        base,
                        col,
                        cols,
                        slice,
                        limit,
                    );
                    (s6, part)
                },
                (Some(DimSel::Slice(row_slice)), Some(DimSel::Slice(col_slice))) => {
                    lemma_index2d_submatrix_code(s2, elem, base, cols, row_slice, col_slice);
                    let (s7, part) = index2d_submatrix_code(
                        s2,
                        elem,
                        base,
                        cols,
                        row_slice,
                        col_slice,
                    );
                    (s7, part)
                },
                _ => {
                    lemma_failed(s2, CodegenError::Malformed);
                    let s8 = failed(s2, CodegenError::Malformed);
                    (s8, Value::Int(0))
                },
            };
            (s3, selected)
        },
        _ => {
            lemma_failed(s, CodegenError::Malformed);
            let s9 = failed(s, CodegenError::Malformed);
            (s9, Value::Int(0))
        },
    };
    if live(s) && countable(s1) {
        assert(shape(s1) =~= moved(
            shape(s),
            s.current as int,
            s1.blocks.len() as int,
            s1.current as int,
        ));
        assert(homes(s1) =~= homed(homes(s), s1.blocks.len() as int, homes(s)[s.current as int]));
    }
}

proof fn lemma_builtin_member_code(
    s: Lowering,
    p: Program,
    object: ExprId,
    member: SymId,
    limit: int,
)
    ensures
        ({
            let (t, r) = builtin_member_code(s, p, object, member, limit);
            &&& grows(s, t)
            &&& live(s) && countable(t) ==> {
                &&& flows(s, t)
                &&& usable(t, r)
            }
        }),
    decreases limit, 5int, p, 0int,
{
    broadcast use lemma_shape_len, lemma_homes_len;

    let builtin = builtin_member(p, member);
    let object_type = type_of(p, object);
    let (s1, value) = match (builtin, object_type) {
        (Some(BuiltinMember::Len), PinpType::Str) => {
            lemma_str_len_code(s, p, object, limit);
            let (s2, length) = str_len_code(s, p, object, limit);
            (s2, length)
        },
        (Some(BuiltinMember::Len), PinpType::Array(_, n)) => {
            (s, Value::Int(n as u64 as i64))
        },
        (Some(BuiltinMember::Len), PinpType::Matrix(_, rows, cols)) => {
            lemma_product(s, rows, cols);
            let (s3, size) = product(s, rows, cols);
            (s3, Value::Int(size as u64 as i64))
        },
        (Some(BuiltinMember::Ndim), PinpType::Array(_, _)) => {
            (s, Value::Int(1))
        },
        (Some(BuiltinMember::Ndim), PinpType::Matrix(_, _, _)) => {
            (s, Value::Int(2))
        },
        (Some(BuiltinMember::Rows), PinpType::Matrix(_, rows, _)) => {
            (s, Value::Int(rows as u64 as i64))
        },
        (Some(BuiltinMember::Cols), PinpType::Matrix(_, _, cols)) => {
            (s, Value::Int(cols as u64 as i64))
        },
        _ => {
            lemma_failed(s, CodegenError::Malformed);
            let s4 = failed(s, CodegenError::Malformed);
            (s4, Value::Int(0))
        },
    };
    if live(s) && countable(s1) {
        assert(shape(s1) =~= moved(
            shape(s),
            s.current as int,
            s1.blocks.len() as int,
            s1.current as int,
        ));
        assert(homes(s1) =~= homed(homes(s), s1.blocks.len() as int, homes(s)[s.current as int]));
    }
}

proof fn lemma_comprehension_code(
    s: Lowering,
    p: Program,
    result_type: PinpType,
    element: ExprId,
    var: SymId,
    var_type: PinpType,
    source: ExprId,
    limit: int,
)
    ensures
        ({
            let (t, r) = comprehension_code(
                s,
                p,
                result_type,
                element,
                var,
                var_type,
                source,
                limit,
            );
            &&& grows(s, t)
            &&& live(s) && countable(t) ==> {
                &&& flows(s, t)
                &&& usable(t, r)
            }
        }),
    decreases limit, 5int, p, 0int,
{
    broadcast use lemma_shape_len, lemma_homes_len;

    let (s1, value) = match result_type {
        PinpType::Array(elem, n) => {
            lemma_build_pinp_alloc(s, n, elem);
            let (s2, array) = build_pinp_alloc(s, n, elem);
            lemma_range_code(s2, p, source, limit);
            let (s3, range_value) = range_code(s2, p, source, limit);
            lemma_extract_range(s3, range_value);
            let (s4, parts) = extract_range(s3, range_value);
            lemma_begin_range_slots(s4, var_type, parts.start);
            let (s5, slots) = begin_range_slots(s4, var_type, parts.start);
            lemma_scope_pushed(s5);
            let s6 = scope_pushed(s5);
            lemma_name_bound(s6, var, (Slot { place: slots.0, value_type: var_type }));
            let s7 = name_bound(s6, var, (Slot { place: slots.0, value_type: var_type }));
            lemma_block_appended(s7, "compr_header"@);
            let header = next_block(s7);
            let s8 = block_appended(s7, "compr_header"@);
            lemma_block_appended(s8, "compr_body"@);
            let body = next_block(s8);
            let s9 = block_appended(s8, "compr_body"@);
            lemma_block_appended(s9, "compr_exit"@);
            let exit = next_block(s9);
            let s10 = block_appended(s9, "compr_exit"@);
            lemma_emitted(s10, InstView::Op(Op::Branch(header)));
            let s11 = op(s10, Op::Branch(header));
            lemma_positioned(s11, header);
            let s12 = positioned(s11, header);
            lemma_load_counter(s12, slots.1);
            let (s13, position) = load_counter(s12, slots.1);
            lemma_emitted(
                s13,
                InstView::Op(
                    Op::IntCompare(IntPredicate::Slt, position, Value::Int(n as u64 as i64)),
                ),
            );
            let cond = next_value(s13);
            let s14 = op(
                s13,
                Op::IntCompare(IntPredicate::Slt, position, Value::Int(n as u64 as i64)),
            );
            lemma_emitted(s14, InstView::Op(Op::CondBranch(cond, body, exit)));
            let s15 = op(s14, Op::CondBranch(cond, body, exit));
            lemma_positioned(s15, body);
            let s16 = positioned(s15, body);
            lemma_expect_value(s16, p, element, limit);
            let (s17, raw) = expect_value(s16, p, element, limit);
            let raw_type = type_of(p, element);
            lemma_promote(s17, raw, raw_type, element_type(elem));
            let (s18, promoted) = promote(s17, raw, raw_type, element_type(elem));
            lemma_load_counter(s18, slots.1);
            let (s19, target) = load_counter(s18, slots.1);
            lemma_build_element_ptr(s19, elem, array, target);
            let (s20, element_ptr) = build_element_ptr(s19, elem, array, target);
            lemma_emitted(s20, InstView::Op(Op::Store(element_ptr, promoted)));
            let s21 = op(s20, Op::Store(element_ptr, promoted));
            lemma_emitted(s21, InstView::Op(Op::IntBinary(IntOp::Add, target, Value::Int(1))));
            let next_target = next_value(s21);
            let s22 = op(s21, Op::IntBinary(IntOp::Add, target, Value::Int(1)));
            lemma_emitted(s22, InstView::Op(Op::Store(slots.1, next_target)));
            let s23 = op(s22, Op::Store(slots.1, next_target));
            lemma_advance_range_var(s23, var_type, slots.0, parts.step);
            let s24 = advance_range_var(s23, var_type, slots.0, parts.step);
            lemma_emitted(s24, InstView::Op(Op::Branch(header)));
            let s25 = op(s24, Op::Branch(header));
            lemma_positioned(s25, exit);
            let s26 = positioned(s25, exit);
            lemma_scope_popped(s26);
            let s27 = scope_popped(s26);
            (s27, array)
        },
        _ => {
            lemma_failed(s, CodegenError::Malformed);
            let s28 = failed(s, CodegenError::Malformed);
            (s28, Value::Int(0))
        },
    };
    if live(s) && countable(s1) {
        assert(shape(s1) =~= moved(
            shape(s),
            s.current as int,
            s1.blocks.len() as int,
            s1.current as int,
        ));
        assert(homes(s1) =~= homed(homes(s), s1.blocks.len() as int, homes(s)[s.current as int]));
    }
}

proof fn lemma_result_code(s: Lowering, p: Program, result: Option<ExprId>, limit: int)
    ensures
        ({
            let (t, r) = result_code(s, p, result, limit);
            &&& grows(s, t)
            &&& live(s) && countable(t) ==> {
                &&& flows(s, t)
                &&& (r matches Some(value) ==> usable(t, value))
            }
        }),
    decreases limit, 3int, p, 0int,
{
    broadcast use lemma_shape_len, lemma_homes_len;

    let (s1, value) = match result {
        None => {
            (s, None)
        },
        Some(expr_id) => {
            let result_type = type_of(p, expr_id);
            let (s2, yielded) = if result_type == PinpType::Str {
                lemma_owned_str_code(s, p, expr_id, limit);
                let (s3, owned) = owned_str_code(s, p, expr_id, limit);
                (s3, Some(owned))
            } else {
                lemma_expr_code(s, p, expr_id, limit);
                let (s4, any) = expr_code(s, p, expr_id, limit);
                (s4, any)
            };
            (s2, yielded)
        },
    };
    if live(s) && countable(s1) {
        assert(shape(s1) =~= moved(
            shape(s),
            s.current as int,
            s1.blocks.len() as int,
            s1.current as int,
        ));
        assert(homes(s1) =~= homed(homes(s), s1.blocks.len() as int, homes(s)[s.current as int]));
    }
}

pub proof fn lemma_block_code(s: Lowering, p: Program, block: BlockView, limit: int)
    ensures
        ({
            let (t, r) = block_code(s, p, block, limit);
            &&& grows(s, t)
            &&& live(s) && countable(t) ==> {
                &&& flows(s, t)
                &&& (r matches Some(value) ==> usable(t, value))
            }
        }),
    decreases limit, 10int, block, block.stmts.len() + 2,
{
    broadcast use lemma_shape_len, lemma_homes_len;

    lemma_scope_pushed(s);
    let s1 = scope_pushed(s);
    lemma_stmts_code(s1, p, block, limit);
    let s2 = stmts_code(s1, p, block, limit);
    lemma_result_code(s2, p, block.result, limit);
    let (s3, value) = result_code(s2, p, block.result, limit);
    lemma_free_scope_strings(s3, p);
    let s4 = free_scope_strings(s3, p);
    lemma_scope_popped(s4);
    let s5 = scope_popped(s4);
    if live(s) && countable(s5) {
        assert(shape(s5) =~= moved(
            shape(s),
            s.current as int,
            s5.blocks.len() as int,
            s5.current as int,
        ));
        assert(homes(s5) =~= homed(homes(s), s5.blocks.len() as int, homes(s)[s.current as int]));
    }
}

pub proof fn lemma_block_for_effect_code(s: Lowering, p: Program, block: BlockView, limit: int)
    ensures
        ({
            let t = block_for_effect_code(s, p, block, limit);
            &&& grows(s, t)
            &&& live(s) && countable(t) ==> {
                &&& flows(s, t)
            }
        }),
    decreases limit, 10int, block, block.stmts.len() + 3,
{
    broadcast use lemma_shape_len, lemma_homes_len;

    lemma_block_code(s, p, block, limit);
    let (s1, value) = block_code(s, p, block, limit);
    let result_type = block_result_type(p, block);
    let s2 = match value {
        Some(unused) => {
            let s3 = if result_type == PinpType::Str {
                lemma_free_str_value(s1, unused);
                let s4 = free_str_value(s1, unused);
                s4
            } else {
                s1
            };
            s3
        },
        None => {
            s1
        },
    };
    if live(s) && countable(s2) {
        assert(shape(s2) =~= moved(
            shape(s),
            s.current as int,
            s2.blocks.len() as int,
            s2.current as int,
        ));
        assert(homes(s2) =~= homed(homes(s), s2.blocks.len() as int, homes(s)[s.current as int]));
    }
}

proof fn lemma_while_code(s: Lowering, p: Program, cond: ExprId, body: BlockView, limit: int)
    ensures
        ({
            let t = while_code(s, p, cond, body, limit);
            &&& grows(s, t)
            &&& live(s) && countable(t) ==> {
                &&& flows(s, t)
            }
        }),
    decreases limit, 10int, body, body.stmts.len() + 4,
{
    broadcast use lemma_shape_len, lemma_homes_len;

    lemma_block_appended(s, "while_header"@);
    let header = next_block(s);
    let s1 = block_appended(s, "while_header"@);
    lemma_block_appended(s1, "while_body"@);
    let body_block = next_block(s1);
    let s2 = block_appended(s1, "while_body"@);
    lemma_block_appended(s2, "while_exit"@);
    let exit = next_block(s2);
    let s3 = block_appended(s2, "while_exit"@);
    lemma_emitted(s3, InstView::Op(Op::Branch(header)));
    let s4 = op(s3, Op::Branch(header));
    lemma_positioned(s4, header);
    let s5 = positioned(s4, header);
    lemma_expect_value(s5, p, cond, limit);
    let (s6, holds) = expect_value(s5, p, cond, limit);
    lemma_emitted(s6, InstView::Op(Op::CondBranch(holds, body_block, exit)));
    let s7 = op(s6, Op::CondBranch(holds, body_block, exit));
    lemma_positioned(s7, body_block);
    let s8 = positioned(s7, body_block);
    lemma_block_for_effect_code(s8, p, body, limit);
    let s9 = block_for_effect_code(s8, p, body, limit);
    lemma_emitted(s9, InstView::Op(Op::Branch(header)));
    let s10 = op(s9, Op::Branch(header));
    lemma_positioned(s10, exit);
    let s11 = positioned(s10, exit);
    if live(s) && countable(s11) {
        assert(shape(s11) =~= moved(
            shape(s),
            s.current as int,
            s11.blocks.len() as int,
            s11.current as int,
        ));
        assert(homes(s11) =~= homed(homes(s), s11.blocks.len() as int, homes(s)[s.current as int]));
    }
}

proof fn lemma_loop_code(
    s: Lowering,
    p: Program,
    body: BlockView,
    cond: ExprId,
    until: bool,
    limit: int,
)
    ensures
        ({
            let t = loop_code(s, p, body, cond, until, limit);
            &&& grows(s, t)
            &&& live(s) && countable(t) ==> {
                &&& flows(s, t)
            }
        }),
    decreases limit, 10int, body, body.stmts.len() + 4,
{
    broadcast use lemma_shape_len, lemma_homes_len;

    lemma_block_appended(s, "loop_body"@);
    let body_block = next_block(s);
    let s1 = block_appended(s, "loop_body"@);
    lemma_block_appended(s1, "loop_exit"@);
    let exit = next_block(s1);
    let s2 = block_appended(s1, "loop_exit"@);
    lemma_emitted(s2, InstView::Op(Op::Branch(body_block)));
    let s3 = op(s2, Op::Branch(body_block));
    lemma_positioned(s3, body_block);
    let s4 = positioned(s3, body_block);
    lemma_block_for_effect_code(s4, p, body, limit);
    let s5 = block_for_effect_code(s4, p, body, limit);
    lemma_expect_value(s5, p, cond, limit);
    let (s6, holds) = expect_value(s5, p, cond, limit);
    let s7 = if until {
        lemma_emitted(s6, InstView::Op(Op::CondBranch(holds, exit, body_block)));
        let s8 = op(s6, Op::CondBranch(holds, exit, body_block));
        s8
    } else {
        lemma_emitted(s6, InstView::Op(Op::CondBranch(holds, body_block, exit)));
        let s9 = op(s6, Op::CondBranch(holds, body_block, exit));
        s9
    };
    lemma_positioned(s7, exit);
    let s10 = positioned(s7, exit);
    if live(s) && countable(s10) {
        assert(shape(s10) =~= moved(
            shape(s),
            s.current as int,
            s10.blocks.len() as int,
            s10.current as int,
        ));
        assert(homes(s10) =~= homed(homes(s), s10.blocks.len() as int, homes(s)[s.current as int]));
    }
}

proof fn lemma_for_code(
    s: Lowering,
    p: Program,
    var: SymId,
    source: ExprId,
    body: BlockView,
    limit: int,
)
    ensures
        ({
            let t = for_code(s, p, var, source, body, limit);
            &&& grows(s, t)
            &&& live(s) && countable(t) ==> {
                &&& flows(s, t)
            }
        }),
    decreases limit, 10int, body, body.stmts.len() + 4,
{
    broadcast use lemma_shape_len, lemma_homes_len;

    lemma_expect_value(s, p, source, limit);
    let (s1, range_value) = expect_value(s, p, source, limit);
    lemma_extract_range(s1, range_value);
    let (s2, parts) = extract_range(s1, range_value);
    lemma_alloca_at_entry(s2, PinpType::Int);
    let (s3, counter) = alloca_at_entry(s2, PinpType::Int);
    lemma_emitted(s3, InstView::Op(Op::Store(counter, parts.start)));
    let s4 = op(s3, Op::Store(counter, parts.start));
    lemma_emitted(s4, InstView::Op(Op::IntCompare(IntPredicate::Sgt, parts.step, Value::Int(0))));
    let going_up = next_value(s4);
    let s5 = op(s4, Op::IntCompare(IntPredicate::Sgt, parts.step, Value::Int(0)));
    lemma_block_appended(s5, "for_header"@);
    let header = next_block(s5);
    let s6 = block_appended(s5, "for_header"@);
    lemma_block_appended(s6, "for_body"@);
    let body_block = next_block(s6);
    let s7 = block_appended(s6, "for_body"@);
    lemma_block_appended(s7, "for_exit"@);
    let exit = next_block(s7);
    let s8 = block_appended(s7, "for_exit"@);
    lemma_emitted(s8, InstView::Op(Op::Branch(header)));
    let s9 = op(s8, Op::Branch(header));
    lemma_positioned(s9, header);
    let s10 = positioned(s9, header);
    lemma_load_counter(s10, counter);
    let (s11, current) = load_counter(s10, counter);
    lemma_range_continue(s11, current, parts.stop, parts.inclusive, going_up);
    let (s12, goes_on) = range_continue(s11, current, parts.stop, parts.inclusive, going_up);
    lemma_emitted(s12, InstView::Op(Op::CondBranch(goes_on, body_block, exit)));
    let s13 = op(s12, Op::CondBranch(goes_on, body_block, exit));
    lemma_positioned(s13, body_block);
    let s14 = positioned(s13, body_block);
    lemma_scope_pushed(s14);
    let s15 = scope_pushed(s14);
    lemma_name_bound(s15, var, (Slot { place: counter, value_type: PinpType::Int }));
    let s16 = name_bound(s15, var, (Slot { place: counter, value_type: PinpType::Int }));
    lemma_block_for_effect_code(s16, p, body, limit);
    let s17 = block_for_effect_code(s16, p, body, limit);
    lemma_scope_popped(s17);
    let s18 = scope_popped(s17);
    lemma_load_counter(s18, counter);
    let (s19, reached) = load_counter(s18, counter);
    lemma_emitted(s19, InstView::Op(Op::IntBinary(IntOp::Add, reached, parts.step)));
    let following = next_value(s19);
    let s20 = op(s19, Op::IntBinary(IntOp::Add, reached, parts.step));
    lemma_emitted(s20, InstView::Op(Op::Store(counter, following)));
    let s21 = op(s20, Op::Store(counter, following));
    lemma_emitted(s21, InstView::Op(Op::Branch(header)));
    let s22 = op(s21, Op::Branch(header));
    lemma_positioned(s22, exit);
    let s23 = positioned(s22, exit);
    if live(s) && countable(s23) {
        assert(shape(s23) =~= moved(
            shape(s),
            s.current as int,
            s23.blocks.len() as int,
            s23.current as int,
        ));
        assert(homes(s23) =~= homed(homes(s), s23.blocks.len() as int, homes(s)[s.current as int]));
    }
}

proof fn lemma_slice_assign_code(
    s: Lowering,
    p: Program,
    elem: ArrayElementType,
    array: Value,
    range: ExprId,
    value: ExprId,
    limit: int,
)
    ensures
        ({
            let t = slice_assign_code(s, p, elem, array, range, value, limit);
            &&& grows(s, t)
            &&& live(s) && usable(s, array) && countable(t) ==> {
                &&& flows(s, t)
            }
        }),
    decreases limit, 4int, p, 0int,
{
    broadcast use lemma_shape_len, lemma_homes_len;

    lemma_slice_bounds(s, p, range);
    let (s1, bounds) = slice_bounds(s, p, range);
    lemma_expect_value(s1, p, value, limit);
    let (s2, raw) = expect_value(s1, p, value, limit);
    let raw_type = type_of(p, value);
    lemma_promote(s2, raw, raw_type, element_type(elem));
    let (s3, stored) = promote(s2, raw, raw_type, element_type(elem));
    lemma_begin_counted_loop(s3, Value::Int(bounds.1), "sla_hdr"@, "sla_body"@, "sla_exit"@);
    let (s4, counted) = begin_counted_loop(
        s3,
        Value::Int(bounds.1),
        "sla_hdr"@,
        "sla_body"@,
        "sla_exit"@,
    );
    lemma_emitted(
        s4,
        InstView::Op(Op::IntBinary(IntOp::Add, counted.current, Value::Int(bounds.0))),
    );
    let target_index = next_value(s4);
    let s5 = op(s4, Op::IntBinary(IntOp::Add, counted.current, Value::Int(bounds.0)));
    lemma_build_element_ptr(s5, elem, array, target_index);
    let (s6, target) = build_element_ptr(s5, elem, array, target_index);
    lemma_emitted(s6, InstView::Op(Op::Store(target, stored)));
    let s7 = op(s6, Op::Store(target, stored));
    lemma_end_counted_loop(s7, counted);
    let s8 = end_counted_loop(s7, counted);
    if live(s) && usable(s, array) && countable(s8) {
        assert(shape(s8) =~= moved(
            shape(s),
            s.current as int,
            s8.blocks.len() as int,
            s8.current as int,
        ));
        assert(homes(s8) =~= homed(homes(s), s8.blocks.len() as int, homes(s)[s.current as int]));
    }
}

proof fn lemma_store_element(
    s: Lowering,
    p: Program,
    elem: ArrayElementType,
    element_ptr: Value,
    value: ExprId,
    compound_op: Option<BinOp>,
    limit: int,
)
    ensures
        ({
            let t = store_element(s, p, elem, element_ptr, value, compound_op, limit);
            &&& grows(s, t)
            &&& live(s) && usable(s, element_ptr) && countable(t) ==> {
                &&& flows(s, t)
            }
        }),
    decreases limit, 5int, p, 0int,
{
    broadcast use lemma_shape_len, lemma_homes_len;

    let (s1, stored) = match compound_op {
        None => {
            lemma_expect_value(s, p, value, limit);
            let (s2, raw) = expect_value(s, p, value, limit);
            let raw_type = type_of(p, value);
            lemma_promote(s2, raw, raw_type, element_type(elem));
            let (s3, promoted) = promote(s2, raw, raw_type, element_type(elem));
            (s3, promoted)
        },
        Some(operator) => {
            lemma_emitted(s, InstView::Op(Op::Load(element_ir_type(elem), element_ptr)));
            let current = next_value(s);
            let s4 = op(s, Op::Load(element_ir_type(elem), element_ptr));
            lemma_apply_compound_op(s4, p, operator, current, elem, value, limit);
            let (s5, combined) = apply_compound_op(s4, p, operator, current, elem, value, limit);
            (s5, combined)
        },
    };
    lemma_emitted(s1, InstView::Op(Op::Store(element_ptr, stored)));
    let s6 = op(s1, Op::Store(element_ptr, stored));
    if live(s) && usable(s, element_ptr) && countable(s6) {
        assert(shape(s6) =~= moved(
            shape(s),
            s.current as int,
            s6.blocks.len() as int,
            s6.current as int,
        ));
        assert(homes(s6) =~= homed(homes(s), s6.blocks.len() as int, homes(s)[s.current as int]));
    }
}

proof fn lemma_indexed_assign_code(
    s: Lowering,
    p: Program,
    target: Place,
    index: ExprId,
    value: ExprId,
    compound_op: Option<BinOp>,
    limit: int,
)
    ensures
        ({
            let t = indexed_assign_code(s, p, target, index, value, compound_op, limit);
            &&& grows(s, t)
            &&& live(s) && countable(t) ==> {
                &&& flows(s, t)
            }
        }),
    decreases limit, 6int, p, 0int,
{
    broadcast use lemma_shape_len, lemma_homes_len;

    lemma_place_slot(s, target);
    let (s1, slot) = place_slot(s, target);
    let s2 = match slot.value_type {
        PinpType::Array(elem, n) => {
            lemma_emitted(s1, InstView::Op(Op::Load(IrType::Ptr, slot.place)));
            let array = next_value(s1);
            let s3 = op(s1, Op::Load(IrType::Ptr, slot.place));
            let sliced = is_range(p, index);
            let s4 = if sliced {
                lemma_slice_assign_code(s3, p, elem, array, index, value, limit);
                let s5 = slice_assign_code(s3, p, elem, array, index, value, limit);
                s5
            } else {
                lemma_as_int(s3, p, index, limit);
                let (s6, position) = as_int(s3, p, index, limit);
                lemma_bounds_check_and_gep(s6, elem, array, position, n);
                let (s7, element_ptr) = bounds_check_and_gep(s6, elem, array, position, n);
                lemma_store_element(s7, p, elem, element_ptr, value, compound_op, limit);
                let s8 = store_element(s7, p, elem, element_ptr, value, compound_op, limit);
                s8
            };
            s4
        },
        _ => {
            lemma_failed(s1, CodegenError::Malformed);
            let s9 = failed(s1, CodegenError::Malformed);
            s9
        },
    };
    if live(s) && countable(s2) {
        assert(shape(s2) =~= moved(
            shape(s),
            s.current as int,
            s2.blocks.len() as int,
            s2.current as int,
        ));
        assert(homes(s2) =~= homed(homes(s), s2.blocks.len() as int, homes(s)[s.current as int]));
    }
}

proof fn lemma_indexed_assign2d_code(
    s: Lowering,
    p: Program,
    target: Place,
    row: ExprId,
    col: ExprId,
    value: ExprId,
    compound_op: Option<BinOp>,
    limit: int,
)
    ensures
        ({
            let t = indexed_assign2d_code(s, p, target, row, col, value, compound_op, limit);
            &&& grows(s, t)
            &&& live(s) && countable(t) ==> {
                &&& flows(s, t)
            }
        }),
    decreases limit, 6int, p, 0int,
{
    broadcast use lemma_shape_len, lemma_homes_len;

    lemma_place_slot(s, target);
    let (s1, slot) = place_slot(s, target);
    let s2 = match slot.value_type {
        PinpType::Matrix(elem, rows, cols) => {
            lemma_emitted(s1, InstView::Op(Op::Load(IrType::Ptr, slot.place)));
            let matrix = next_value(s1);
            let s3 = op(s1, Op::Load(IrType::Ptr, slot.place));
            lemma_as_int(s3, p, row, limit);
            let (s4, row_value) = as_int(s3, p, row, limit);
            lemma_as_int(s4, p, col, limit);
            let (s5, col_value) = as_int(s4, p, col, limit);
            lemma_bounds_check_and_gep_2d(s5, elem, matrix, row_value, col_value, rows, cols);
            let (s6, element_ptr) = bounds_check_and_gep_2d(
                s5,
                elem,
                matrix,
                row_value,
                col_value,
                rows,
                cols,
            );
            lemma_store_element(s6, p, elem, element_ptr, value, compound_op, limit);
            let s7 = store_element(s6, p, elem, element_ptr, value, compound_op, limit);
            s7
        },
        _ => {
            lemma_failed(s1, CodegenError::Malformed);
            let s8 = failed(s1, CodegenError::Malformed);
            s8
        },
    };
    if live(s) && countable(s2) {
        assert(shape(s2) =~= moved(
            shape(s),
            s.current as int,
            s2.blocks.len() as int,
            s2.current as int,
        ));
        assert(homes(s2) =~= homed(homes(s), s2.blocks.len() as int, homes(s)[s.current as int]));
    }
}

// ---------------------------------------------------------------------------
// Programs
// ---------------------------------------------------------------------------

/// The state between two functions: every block is ended.
pub open spec fn settled(s: Lowering) -> bool {
    &&& forall|b: int| 0 <= b < shape(s).len() ==> #[trigger] shape(s)[b] == 1
    &&& all_readable(s)
    &&& entries_stand(s)
    &&& slots_usable(s)
}

/// The state before any function has a body.
pub open spec fn only_declared(s: Lowering) -> bool {
    &&& s.insts.len() == 0
    &&& s.blocks.len() == 0
    &&& s.frames.len() == 0
    &&& forall|f: int| 0 <= f < s.functions.len() ==> (#[trigger] s.functions[f]).entry is None
    &&& forall|sym: u32| #[trigger]
        s.global_slots.contains_key(sym) ==> usable(s, s.global_slots[sym].place)
}

proof fn lemma_global_added(s: Lowering, name: SymId, value_type: PinpType)
    ensures
        ({
            let t = global_added(s, name, value_type);
            &&& roomier(s, t)
            &&& only_declared(s) && countable(t) ==> only_declared(t)
        }),
{
    reveal(global_added);
    let t = global_added(s, name, value_type);
    if only_declared(s) && countable(t) {
        assert forall|sym: u32| #[trigger] t.global_slots.contains_key(sym) implies usable(
            t,
            t.global_slots[sym].place,
        ) by {
            if sym != name.0 {
                assert(s.global_slots.contains_key(sym));
            }
        }
    }
}

pub proof fn lemma_group_declared(
    s: Lowering,
    p: Program,
    group: Seq<Place>,
    values: Seq<ExprId>,
    from: int,
)
    ensures
        ({
            let t = group_declared(s, p, group, values, from);
            &&& roomier(s, t)
            &&& only_declared(s) && countable(t) ==> only_declared(t)
        }),
    decreases group.len() - from,
{
    if 0 <= from < group.len() && from < values.len() {
        let sym_id = symbol_of(group[from]);
        let value_type = type_of(p, values[from]);
        lemma_storable(s, value_type);
        let (s2, _) = storable(s, value_type);
        reveal(failed);
        lemma_global_added(s2, sym_id, value_type);
        let s1 = match global_slot(s, sym_id) {
            Some(_) => s,
            None => global_added(s2, sym_id, value_type),
        };
        lemma_group_declared(s1, p, group, values, from + 1);
    }
}

pub proof fn lemma_groups_declared(
    s: Lowering,
    p: Program,
    groups: Seq<Seq<Place>>,
    values: Seq<ExprId>,
    from: int,
)
    ensures
        ({
            let t = groups_declared(s, p, groups, values, from);
            &&& roomier(s, t)
            &&& only_declared(s) && countable(t) ==> only_declared(t)
        }),
    decreases groups.len() - from,
{
    if 0 <= from < groups.len() {
        lemma_group_declared(s, p, groups[from], values, 0);
        let s1 = group_declared(s, p, groups[from], values, 0);
        lemma_groups_declared(s1, p, groups, values, from + 1);
    }
}

pub proof fn lemma_globals_declared(s: Lowering, p: Program, from: int)
    ensures
        ({
            let t = globals_declared(s, p, from);
            &&& roomier(s, t)
            &&& only_declared(s) && countable(t) ==> only_declared(t)
        }),
    decreases p.ast.top_level.len() - from,
{
    if 0 <= from < p.ast.top_level.len() {
        let s1 = match p.ast.top_level[from] {
            TopLevelView::Stmt(StmtView::Assign(groups, _, values)) => {
                lemma_groups_declared(s, p, groups, values, 0);
                groups_declared(s, p, groups, values, 0)
            },
            _ => s,
        };
        lemma_globals_declared(s1, p, from + 1);
    }
}

pub proof fn lemma_functions_declared(s: Lowering, p: Program, from: int)
    ensures
        ({
            let t = functions_declared(s, p, from);
            &&& roomier(s, t)
            &&& only_declared(s) && countable(t) ==> only_declared(t)
        }),
    decreases p.ast.top_level.len() - from,
{
    if 0 <= from < p.ast.top_level.len() {
        reveal(function_added);
        let s1 = match p.ast.top_level[from] {
            TopLevelView::Func(func) => function_added(
                s,
                FunctionName::Named(func.name),
                param_types(func.params),
                func.return_type,
            ),
            TopLevelView::Stmt(_) => s,
        };
        if only_declared(s) {
            assert forall|sym: u32| #[trigger] s1.global_slots.contains_key(sym) implies usable(
                s1,
                s1.global_slots[sym].place,
            ) by {
                assert(s.global_slots.contains_key(sym));
            }
        }
        lemma_functions_declared(s1, p, from + 1);
    }
}

proof fn lemma_declared_settles(s: Lowering)
    requires
        only_declared(s),
    ensures
        settled(s),
{
    broadcast use lemma_shape_len;

    reveal(all_readable);
    reveal(entries_stand);
    reveal(slots_usable);
}

proof fn lemma_function_added(
    s: Lowering,
    name: FunctionName,
    params: Seq<PinpType>,
    result: PinpType,
)
    ensures
        ({
            let t = function_added(s, name, params, result);
            &&& roomier(s, t)
            &&& settled(s) ==> settled(t)
        }),
{
    broadcast use lemma_shape_len;

    reveal(function_added);
    let t = function_added(s, name, params, result);
    if settled(s) {
        reveal(shape);
        reveal(entries_stand);
        assert forall|b: int| 0 <= b < shape(t).len() implies #[trigger] shape(t)[b] == 1 by {
            assert(shape(s)[b] == 1);
            lemma_shape_kept(s, t, b);
        }
        lemma_readable_grows(s, t);
        lemma_slots_grow(s, t);
        assert forall|b: int| 0 <= b < t.blocks.len() implies (#[trigger] t.blocks[b]).function
            < t.functions.len() by {
            assert(s.blocks[b].function < s.functions.len());
        }
    }
}

proof fn lemma_body_begun(s: Lowering, function: usize, in_function: bool)
    ensures
        ({
            let t = body_begun(s, function, in_function);
            &&& roomier(s, t)
            &&& settled(s) && function < s.functions.len() && countable(t) ==> {
                &&& live(t)
                &&& t.current == s.blocks.len()
                &&& t.blocks.len() == s.blocks.len() + 1
                &&& t.blocks[t.current as int].label == "entry"@
                &&& shape(t) == shape(s).push(0)
            }
        }),
{
    broadcast use lemma_shape_len;

    reveal(body_begun);
    let t = body_begun(s, function, in_function);
    if settled(s) && function < s.functions.len() && countable(t) {
        reveal(shape);
        reveal(entries_stand);
        reveal(slots_usable);
        assert forall|b: int| 0 <= b < s.blocks.len() implies #[trigger] shape(t)[b] == 1 by {
            assert(shape(s)[b] == 1);
            lemma_shape_kept(s, t, b);
        }
        assert(t.blocks[s.blocks.len() as int].insts.len() == 0);
        assert(shape(t) =~= shape(s).push(0));
        lemma_readable_grows(s, t);
        assert forall|sym: u32| #[trigger] t.global_slots.contains_key(sym) implies usable(
            t,
            t.global_slots[sym].place,
        ) by {
            assert(usable(s, s.global_slots[sym].place));
        }
        assert(slots_usable(t));
        assert forall|f: int| 0 <= f < t.functions.len() implies ((
        #[trigger] t.functions[f]).entry matches Some(entry) ==> entry < t.blocks.len()
            && t.blocks[entry as int].function == f && t.blocks[entry as int].label
            == "entry"@) by {
            assert(s.functions[f].entry matches Some(entry) ==> entry < s.blocks.len()
                && s.blocks[entry as int].function == f && s.blocks[entry as int].label
                == "entry"@);
        }
        assert forall|b: int| 0 <= b < t.blocks.len() implies (#[trigger] t.blocks[b]).function
            < t.functions.len() by {
            if b < s.blocks.len() {
                assert(s.blocks[b].function < s.functions.len());
            }
        }
        assert(entries_stand(t));
        assert(unbroken(shape(t)));
    }
}

proof fn lemma_params_code(s: Lowering, params: Seq<Param>, from: int)
    ensures
        ({
            let t = params_code(s, params, from);
            &&& grows(s, t)
            &&& t.current == s.current
            &&& t.blocks.len() == s.blocks.len()
            &&& live(s) && s.blocks[s.current as int].label == "entry"@ && countable(t) ==> {
                &&& live(t)
                &&& homes(t) == homes(s)
                &&& shape(t) == shape(s)
            }
        }),
    decreases params.len() - from,
{
    if 0 <= from < params.len() {
        let param = params[from];
        lemma_storable(s, param.param_type);
        let (s1, ir_type) = storable(s, param.param_type);
        let slot = next_value(s1);
        lemma_emitted(s1, InstView::Op(Op::Alloca(ir_type)));
        let s2 = op(s1, Op::Alloca(ir_type));
        let store = Op::Store(slot, Value::Param(from as usize));
        lemma_emitted(s2, InstView::Op(store));
        let s3 = op(s2, store);
        let bound = Slot { place: slot, value_type: param.param_type };
        lemma_name_bound(s3, param.name, bound);
        let s4 = name_bound(s3, param.name, bound);
        lemma_params_code(s4, params, from + 1);
        if live(s) && s.blocks[s.current as int].label == "entry"@ {
            assert(s1.blocks[s.current as int].label == "entry"@ && s4.blocks[s.current as int].label
                == "entry"@) by {
                reveal(failed);
                reveal(emitted);
                reveal(name_bound);
            }
        }
    }
}

/// Everything since emission stood in block `from` is ended.
pub open spec fn finished(before: Seq<int>, from: int, count: int) -> Seq<int> {
    Seq::new(
        count as nat,
        |b: int|
            if b < before.len() && b != from {
                before[b]
            } else {
                1
            },
    )
}

proof fn lemma_finished(s: Lowering, t: Lowering, u: Lowering)
    requires
        live(s),
        grows(s, t),
        flows(s, t),
        u.blocks.len() == t.blocks.len(),
        shape(u) == shape(t).update(t.current as int, 1),
    ensures
        shape(u) == finished(shape(s), s.current as int, u.blocks.len() as int),
{
    broadcast use lemma_shape_len;

    assert(shape(u) =~= finished(shape(s), s.current as int, u.blocks.len() as int));
}

proof fn lemma_return_code(
    s: Lowering,
    p: Program,
    return_type: PinpType,
    result: ExprId,
    limit: int,
)
    ensures
        ({
            let t = return_code(s, p, return_type, result, limit);
            &&& grows(s, t)
            &&& live(s) && countable(t) ==> {
                &&& sound(t)
                &&& shape(t) == finished(shape(s), s.current as int, t.blocks.len() as int)
            }
        }),
{
    let t = return_code(s, p, return_type, result, limit);
    if return_type == PinpType::Void {
        lemma_expr_code(s, p, result, limit);
        let (s1, yielded) = expr_code(s, p, result, limit);
        lemma_discarded_str_freed(s1, p, StmtView::Expr(result), yielded);
        let s2 = discarded_str_freed(s1, p, StmtView::Expr(result), yielded);
        lemma_free_scope_strings(s2, p);
        let s3 = free_scope_strings(s2, p);
        lemma_emitted(s3, InstView::Op(Op::ReturnVoid));
        if live(s) && countable(t) {
            lemma_steady_flows(s1, s3);
            lemma_flows_on(s, s1, s3);
            lemma_finished(s, s3, t);
        }
    } else {
        lemma_owned_str_code(s, p, result, limit);
        lemma_expect_value(s, p, result, limit);
        let (s1, raw) = if return_type == PinpType::Str {
            owned_str_code(s, p, result, limit)
        } else {
            expect_value(s, p, result, limit)
        };
        lemma_promote(s1, raw, type_of(p, result), return_type);
        let (s2, value) = promote(s1, raw, type_of(p, result), return_type);
        lemma_free_scope_strings(s2, p);
        let s3 = free_scope_strings(s2, p);
        lemma_emitted(s3, InstView::Op(Op::Return(value)));
        if live(s) && countable(t) {
            lemma_steady_flows(s1, s3);
            lemma_flows_on(s, s1, s3);
            lemma_finished(s, s3, t);
        }
    }
}

pub proof fn lemma_function_code(s: Lowering, p: Program, func: FuncDefView)
    ensures
        ({
            let t = function_code(s, p, func);
            &&& roomier(s, t)
            &&& func.body.result is Some && settled(s) && countable(t) ==> settled(t)
        }),
{
    broadcast use lemma_shape_len;

    let limit = p.ast.nodes.len() as int;
    let t = function_code(s, p, func);
    match callable(s, func.name) {
        None => {
            reveal(failed);
            if settled(s) {
                lemma_same_code(s, t);
                lemma_slots_grow(s, t);
            }
        },
        Some(function) => {
            reveal(callable);
            lemma_body_begun(s, function, true);
            let s0 = body_begun(s, function, true);
            lemma_params_code(s0, func.params, 0);
            let s1 = params_code(s0, func.params, 0);
            lemma_stmts_code(s1, p, func.body, limit);
            let s2 = stmts_code(s1, p, func.body, limit);
            lemma_failed(s2, CodegenError::Malformed);
            if let Some(result) = func.body.result {
                lemma_return_code(s2, p, func.return_type, result, limit);
                if settled(s) && countable(t) {
                    lemma_steady_flows(s0, s1);
                    lemma_flows_on(s0, s1, s2);
                    assert forall|b: int| 0 <= b < shape(t).len() implies #[trigger] shape(t)[b]
                        == 1 by {
                        if b < s.blocks.len() {
                            assert(shape(s)[b] == 1);
                            assert(shape(s0)[b] == 1);
                            assert(shape(s2)[b] == 1);
                        }
                    }
                }
            }
        },
    }
}

proof fn lemma_functions_code(s: Lowering, p: Program, from: int)
    requires
        p.ast.well_formed(),
    ensures
        ({
            let t = functions_code(s, p, from);
            &&& roomier(s, t)
            &&& settled(s) && countable(t) ==> settled(t)
        }),
    decreases p.ast.top_level.len() - from,
{
    if 0 <= from < p.ast.top_level.len() {
        assert(top_level_ok(p.ast.top_level[from], p.ast.bounds()));
        let s1 = match p.ast.top_level[from] {
            TopLevelView::Func(func) => {
                lemma_function_code(s, p, func);
                function_code(s, p, func)
            },
            TopLevelView::Stmt(_) => s,
        };
        lemma_functions_code(s1, p, from + 1);
    }
}

pub proof fn lemma_items_code(s: Lowering, p: Program, from: int)
    ensures
        ({
            let (t, r) = items_code(s, p, from);
            &&& grows(s, t)
            &&& live(s) && countable(t) ==> {
                &&& flows(s, t)
                &&& (r matches Some(value) ==> usable(t, value))
            }
        }),
    decreases p.ast.top_level.len() - from,
{
    if from < 0 || from >= p.ast.top_level.len() {
        if live(s) {
            lemma_steady_flows(s, s);
        }
    } else {
        match p.ast.top_level[from] {
            TopLevelView::Func(_) => lemma_items_code(s, p, from + 1),
            TopLevelView::Stmt(stmt) => {
                lemma_stmt_code(s, p, stmt, p.ast.nodes.len() as int);
                let (s1, yielded) = stmt_code(s, p, stmt, p.ast.nodes.len() as int);
                if from != p.ast.top_level.len() - 1 {
                    lemma_discarded_str_freed(s1, p, stmt, yielded);
                    let s2 = discarded_str_freed(s1, p, stmt, yielded);
                    lemma_items_code(s2, p, from + 1);
                    let t = items_code(s2, p, from + 1).0;
                    if live(s) && countable(t) {
                        lemma_steady_flows(s1, s2);
                        lemma_flows_on(s, s1, s2);
                        lemma_flows_on(s, s2, t);
                    }
                }
            },
        }
    }
}

pub proof fn lemma_value_written(s: Lowering, p: Program, yielded: Option<Value>)
    ensures
        ({
            let t = value_written(s, p, yielded);
            &&& grows(s, t)
            &&& t.current == s.current
            &&& t.blocks.len() == s.blocks.len()
            &&& live(s) && (yielded matches Some(value) ==> usable(s, value)) && countable(t) ==> {
                &&& live(t)
                &&& homes(t) == homes(s)
                &&& shape(t) == shape(s)
            }
        }),
{
    lemma_failed(s, CodegenError::Malformed);
    if let Some(value) = yielded {
        lemma_own_str(s, value, program_owns_str(p));
        let (s1, result) = if program_type(p) == PinpType::Str {
            own_str(s, value, program_owns_str(p))
        } else {
            (s, value)
        };
        lemma_emitted(s1, InstView::Op(Op::Store(Value::Param(0), result)));
    }
}

pub proof fn lemma_entry_code(s: Lowering, p: Program)
    ensures
        ({
            let t = entry_code(s, p);
            &&& roomier(s, t)
            &&& settled(s) && countable(t) ==> settled(t)
        }),
{
    broadcast use lemma_shape_len;

    reveal(failed);
    reveal(next_function);
    let s1 = if program_type(p) == PinpType::Range {
        failed(s, CodegenError::RangeResult)
    } else {
        s
    };
    if settled(s) {
        lemma_same_code(s, s1);
        lemma_slots_grow(s, s1);
    }
    lemma_function_added(s1, FunctionName::Entry, Seq::empty(), PinpType::Void);
    let function = next_function(s1);
    let s2 = function_added(s1, FunctionName::Entry, Seq::empty(), PinpType::Void);
    assert(s2.functions.len() == s1.functions.len() + 1) by {
        reveal(function_added);
    }
    lemma_body_begun(s2, function, false);
    let s3 = body_begun(s2, function, false);
    lemma_items_code(s3, p, 0);
    let (s4, yielded) = items_code(s3, p, 0);
    lemma_value_written(s4, p, yielded);
    let s5 = value_written(s4, p, yielded);
    lemma_free_scope_strings(s5, p);
    let s6 = free_scope_strings(s5, p);
    lemma_global_strings_freed(s6, p.ast.names.len() as int, 0);
    let s7 = free_global_strings(s6, p);
    lemma_emitted(s7, InstView::Op(Op::ReturnVoid));
    let t = entry_code(s, p);
    if settled(s) && countable(t) {
        lemma_steady_flows(s4, s7);
        lemma_flows_on(s3, s4, s7);
        lemma_finished(s3, s7, t);
        assert forall|b: int| 0 <= b < shape(t).len() implies #[trigger] shape(t)[b] == 1 by {
            if b < s2.blocks.len() {
                assert(shape(s2)[b] == 1);
                assert(shape(s3)[b] == 1);
            }
        }
    }
}

/// Whatever a program is, what it is lowered to is a valid module: every block ends in one branch
/// or return and has none before, branches stay within their function, every operand was emitted
/// before it is read, and slots are allocated only where a function starts. The bound is that of
/// the machine's own counts.
pub proof fn lowered_modules_are_valid(p: Program)
    requires
        p.ast.well_formed(),
        countable(lowered(p)),
    ensures
        valid_module(module_of(lowered(p))),
{
    broadcast use lemma_shape_len;

    let start = nothing_lowered();
    lemma_globals_declared(start, p, 0);
    let s1 = globals_declared(start, p, 0);
    lemma_functions_declared(s1, p, 0);
    let s2 = functions_declared(s1, p, 0);
    lemma_functions_code(s2, p, 0);
    let s3 = functions_code(s2, p, 0);
    lemma_entry_code(s3, p);
    let t = lowered(p);
    assert(only_declared(s2));
    lemma_declared_settles(s2);
    assert(settled(t));
    let m = module_of(t);
    assert(m == module_so_far(t));
    reveal(shape);
    reveal(all_readable);
    reveal(entries_stand);
    assert forall|b: int| 0 <= b < m.blocks.len() implies well_built(m, #[trigger] m.blocks[b])
        && ended(m, m.blocks[b]) && m.blocks[b].function < m.functions.len() by {
        assert(shape(t)[b] == 1);
        assert(t.blocks[b].function < t.functions.len());
    }
}

} // verus!
