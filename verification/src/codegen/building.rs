//! What the lowering of programs of numbers and strings adds to code.
//!
//! The code of a construct runs in the block it begins in and in blocks of its own, and the slots of
//! the names in scope are apart from each other.

use vstd::prelude::*;

use super::builder::{
    Lowering, Program, Slot, block_appended, callable, called, emitted, entered, failed,
    global_slot, innermost_slot, insert_block, inside_function, local_slot, name_bound, nearest,
    next_block, next_text, next_value, op, positioned, scope_popped, scope_pushed, signature,
    text_added,
};
use super::emit::{
    RangeParts, alloca_at_entry, build_range, default_step, extract_range, guard_zero_step,
    load_counter, load_var, member_test, promote, range_continue, resolve_place, storable, sum,
    var_slot,
};
use super::joining::{
    compare_tail, lemma_concat_built, lemma_constant_built, lemma_discarded_built,
    lemma_entered_straight, lemma_float_straight, lemma_fstring_built, lemma_own_built,
    lemma_render_built, lemma_scope_freed_built, lemma_str_slot_built, lemma_str_store_built,
    lemma_tail_built, lemma_tail_grows, straight,
};
use super::evaluation::{
    compares, counted, counted_arms, counted_block, counted_branch, counted_number, counted_part,
    counted_parts, counted_range, counted_stmt, counted_stmts, counted_string, counted_value,
    floating, frame_of, function_from, is_built_in, numeric, plain, whole,
};
use super::execution::{
    begins, built_on, fits, is_slot, lemma_appended_on, lemma_built_further, lemma_built_moved,
    lemma_count_kept, lemma_emitted_on, lemma_entered_on, lemma_positioned_at, list, more_scope,
    ready, same_scope,
};
use super::flow::{
    lemma_args_code, lemma_arms_code, lemma_as_float, lemma_as_int, lemma_block_code,
    lemma_block_for_effect_code, lemma_branch_code, lemma_build_concat, lemma_discarded_str_freed,
    lemma_expect_value, lemma_expr_code, lemma_group_stored, lemma_groups_stored, lemma_own_str,
    lemma_owned_str_code, lemma_stmts_from, lemma_str_from_value, lemma_str_values,
    lemma_values_code,
};
use super::steady::{
    lemma_build_range, lemma_default_step, lemma_extract_range, lemma_guard_zero_step,
    lemma_member_test, lemma_promote, lemma_range_continue,
};
use super::ir::{
    Callee, Cast, FloatOp, InstView, IntOp, IntPredicate, IrType, Op, RuntimeFn, Value, basic_type,
};
use super::lowering::{
    StrPart, args_code, arithmetic_code, arms_code, as_float, as_int, bin_code, block_code,
    block_for_effect_code, block_result_type, branch_code, build_concat, call_code, compare_code,
    discarded_str_freed, expect_value, expr_code, float_op, float_predicate, for_code,
    free_scope_strings, free_str_slot, group_stored, groups_stored, if_code, int_op, int_predicate,
    loop_code, membership_code, neg_code, node_at, not_code, own_str, owned_str_code,
    owns_str_result, param_types, range_parts_code, result_code, scope_strings_freed,
    short_circuit_code, some, stmt_code, stmts_code, stmts_from, store_to_place, str_compare_code,
    str_concat_code, str_conversion_code, str_from_value, str_parts, str_values, type_of,
    values_code, while_code,
};
use crate::parser::ast::{
    BinOp, BlockView, ExprId, IfArmView, NodeView, PinpType, Place, RangeKind, StmtView, SymId,
    UnOp, symbol_of, within,
};

verus! {

// ---------------------------------------------------------------------------
// Names and their slots
// ---------------------------------------------------------------------------

/// The making of a slot.
pub open spec fn is_alloca(inst: InstView) -> bool {
    inst is Op && inst->Op_0 is Alloca
}

/// Every name in scope has a slot of its own.
pub open spec fn slots_sound(s: Lowering) -> bool {
    &&& s.frames.len() > 0
    &&& forall|k: int, sym: u32|
        0 <= k < s.frames.len() && #[trigger] s.frames[k].contains_key(sym) ==> {
            &&& s.frames[k][sym].place matches Value::Inst(id) && id < s.insts.len() && is_alloca(
                s.insts[id as int],
            )
            &&& plain(s.frames[k][sym].value_type)
        }
    &&& forall|k: int, sym: u32, other: int, name: u32|
        0 <= k < s.frames.len() && 0 <= other < s.frames.len() && #[trigger] s.frames[k].contains_key(
            sym,
        ) && #[trigger] s.frames[other].contains_key(name) && (k != other || sym != name)
            ==> s.frames[k][sym].place != s.frames[other][name].place
    &&& forall|sym: u32| #[trigger]
        s.global_slots.contains_key(sym) ==> s.global_slots[sym].place is Global && plain(
            s.global_slots[sym].value_type,
        )
    &&& forall|sym: u32, name: u32| #[trigger]
        s.global_slots.contains_key(sym) && #[trigger] s.global_slots.contains_key(name) && sym
            != name ==> s.global_slots[sym].place != s.global_slots[name].place
}

/// Every function of the program can be called.
pub open spec fn knows(p: Program, s: Lowering) -> bool {
    forall|sym: u32|
        (#[trigger] function_from(p, 0, sym)) matches Some(func) ==> {
            &&& s.callables.contains_key(sym)
            &&& s.callables[sym] < s.functions.len()
            &&& s.functions[s.callables[sym] as int].params == param_types(func.params)
            &&& s.functions[s.callables[sym] as int].result == func.return_type
        }
}

/// A lowering of the program that stands in a block.
pub open spec fn sane(p: Program, s: Lowering) -> bool {
    ready(s) && slots_sound(s) && knows(p, s)
}

/// The code of an expression: it goes on from `s`, and the names are as they were.
pub open spec fn extends(p: Program, s: Lowering, t: Lowering) -> bool {
    built_on(s, t) && same_scope(s, t) && sane(p, t)
}

pub proof fn lemma_sane_kept(p: Program, s: Lowering, t: Lowering)
    requires
        sane(p, s),
        ready(t),
        same_scope(s, t),
        begins(s.insts, t.insts),
    ensures
        sane(p, t),
{
}

pub proof fn lemma_extends_same(p: Program, s: Lowering)
    requires
        sane(p, s),
    ensures
        extends(p, s, s),
{
}

pub proof fn lemma_extends_further(p: Program, s: Lowering, t: Lowering, u: Lowering)
    requires
        extends(p, s, t),
        extends(p, t, u),
    ensures
        extends(p, s, u),
{
    lemma_built_further(s, t, u);
}

pub proof fn lemma_emitted_extends(p: Program, s: Lowering, inst: InstView)
    requires
        sane(p, s),
        fits(emitted(s, inst)),
    ensures
        extends(p, s, emitted(s, inst)),
        emitted(s, inst).current == s.current,
        emitted(s, inst).insts == s.insts.push(inst),
        emitted(s, inst).blocks.len() == s.blocks.len(),
        list(emitted(s, inst), s.current as int) == if is_slot(inst) {
            list(s, s.current as int)
        } else {
            list(s, s.current as int).push(s.insts.len() as usize)
        },
{
    lemma_count_kept(s, inst);
    lemma_emitted_on(s, inst);
    lemma_sane_kept(p, s, emitted(s, inst));
}

/// An instruction changes no name.
pub proof fn lemma_emitted_scope(s: Lowering, inst: InstView)
    ensures
        same_scope(s, emitted(s, inst)),
{
    reveal(emitted);
}

/// A scope in which nothing is bound yet.
pub proof fn lemma_scope_pushed(p: Program, s: Lowering)
    requires
        sane(p, s),
    ensures
        scope_pushed(s) == (Lowering { frames: s.frames.push(Map::empty()), ..s }),
        sane(p, scope_pushed(s)),
        built_on(s, scope_pushed(s)),
{
    reveal(scope_pushed);
    let t = scope_pushed(s);
    lemma_built_moved(s, t);
    assert forall|k: int, sym: u32|
        0 <= k < t.frames.len() && #[trigger] t.frames[k].contains_key(sym) implies {
        &&& t.frames[k][sym].place matches Value::Inst(id) && id < t.insts.len() && is_alloca(
            t.insts[id as int],
        )
        &&& plain(t.frames[k][sym].value_type)
    } by {
        assert(s.frames[k].contains_key(sym));
    }
    assert forall|k: int, sym: u32, other: int, name: u32|
        0 <= k < t.frames.len() && 0 <= other < t.frames.len() && #[trigger] t.frames[k].contains_key(
            sym,
        ) && #[trigger] t.frames[other].contains_key(name) && (k != other || sym != name) implies
            t.frames[k][sym].place != t.frames[other][name].place by {
        assert(s.frames[k].contains_key(sym));
        assert(s.frames[other].contains_key(name));
    }
}

/// Back in the enclosing scope.
pub proof fn lemma_scope_popped(p: Program, s: Lowering, t: Lowering)
    requires
        sane(p, t),
        s.frames.len() > 0,
        t.frames.drop_last() == s.frames,
    ensures
        scope_popped(t) == (Lowering { frames: s.frames, ..t }),
        sane(p, scope_popped(t)),
        built_on(t, scope_popped(t)),
{
    reveal(scope_popped);
    let u = scope_popped(t);
    lemma_built_moved(t, u);
    assert forall|k: int, sym: u32|
        0 <= k < u.frames.len() && #[trigger] u.frames[k].contains_key(sym) implies {
        &&& u.frames[k][sym].place matches Value::Inst(id) && id < u.insts.len() && is_alloca(
            u.insts[id as int],
        )
        &&& plain(u.frames[k][sym].value_type)
    } by {
        assert(u.frames[k] == t.frames[k]);
        assert(t.frames[k].contains_key(sym));
    }
    assert forall|k: int, sym: u32, other: int, name: u32|
        0 <= k < u.frames.len() && 0 <= other < u.frames.len() && #[trigger] u.frames[k].contains_key(
            sym,
        ) && #[trigger] u.frames[other].contains_key(name) && (k != other || sym != name) implies
            u.frames[k][sym].place != u.frames[other][name].place by {
        assert(u.frames[k] == t.frames[k] && u.frames[other] == t.frames[other]);
        assert(t.frames[k].contains_key(sym));
        assert(t.frames[other].contains_key(name));
    }
}

/// A new name of the innermost scope, in a slot that is new.
pub proof fn lemma_name_bound(p: Program, s: Lowering, sym_id: SymId, slot: Slot)
    requires
        sane(p, s),
        plain(slot.value_type),
        slot.place matches Value::Inst(id) && id < s.insts.len() && is_alloca(s.insts[id as int]),
        forall|k: int, sym: u32|
            0 <= k < s.frames.len() && #[trigger] s.frames[k].contains_key(sym) ==> s.frames[k][sym].place
                != slot.place,
    ensures
        name_bound(s, sym_id, slot) == (Lowering {
            frames: s.frames.update(
                s.frames.len() - 1,
                s.frames.last().insert(sym_id.0, slot),
            ),
            ..s
        }),
        sane(p, name_bound(s, sym_id, slot)),
        built_on(s, name_bound(s, sym_id, slot)),
        more_scope(s, name_bound(s, sym_id, slot)),
{
    reveal(name_bound);
    let t = name_bound(s, sym_id, slot);
    let last = s.frames.len() - 1;
    lemma_built_moved(s, t);
    assert(t.frames.drop_last() =~= s.frames.drop_last());
    assert forall|k: int, sym: u32|
        0 <= k < t.frames.len() && #[trigger] t.frames[k].contains_key(sym) implies {
        &&& t.frames[k][sym].place matches Value::Inst(id) && id < t.insts.len() && is_alloca(
            t.insts[id as int],
        )
        &&& plain(t.frames[k][sym].value_type)
    } by {
        if k != last || sym != sym_id.0 {
            assert(s.frames[k].contains_key(sym));
        }
    }
    assert forall|k: int, sym: u32, other: int, name: u32|
        0 <= k < t.frames.len() && 0 <= other < t.frames.len() && #[trigger] t.frames[k].contains_key(
            sym,
        ) && #[trigger] t.frames[other].contains_key(name) && (k != other || sym != name) implies
            t.frames[k][sym].place != t.frames[other][name].place by {
        if k != last || sym != sym_id.0 {
            assert(s.frames[k].contains_key(sym));
        }
        if other != last || name != sym_id.0 {
            assert(s.frames[other].contains_key(name));
        }
    }
}

/// Releasing strings takes nothing away.
pub proof fn lemma_freed_grows(s: Lowering, symbols: int, from: int)
    ensures
        s.blocks.len() <= scope_strings_freed(s, symbols, from).blocks.len(),
        s.insts.len() <= scope_strings_freed(s, symbols, from).insts.len(),
    decreases symbols - from,
{
    reveal(emitted);
    if 0 <= from < symbols {
        let s1 = match innermost_slot(s, from as u32) {
            Some(slot) => if slot.value_type == PinpType::Str {
                free_str_slot(s, slot.place)
            } else {
                s
            },
            None => s,
        };
        lemma_freed_grows(s1, symbols, from + 1);
    }
}

// ---------------------------------------------------------------------------
// Expressions
// ---------------------------------------------------------------------------

/// A name read: where its slot is, and the instruction that reads it.
proof fn lemma_load_built(p: Program, s: Lowering, sym_id: SymId, global: bool)
    requires
        sane(p, s),
        fits(load_var(s, sym_id, global).0),
    ensures
        extends(p, s, load_var(s, sym_id, global).0),
{
    reveal(failed);
    let (s1, slot) = var_slot(s, sym_id, global);
    let (s2, ir_type) = storable(s1, slot.value_type);
    let inst = InstView::Op(Op::Load(ir_type, slot.place));
    lemma_built_moved(s, s2);
    lemma_sane_kept(p, s, s2);
    lemma_emitted_extends(p, s2, inst);
    lemma_extends_further(p, s, s2, emitted(s2, inst));
}

/// A value brought to a type.
pub proof fn lemma_promote_built(
    p: Program,
    s: Lowering,
    value: Value,
    from: PinpType,
    to: PinpType,
)
    requires
        sane(p, s),
        fits(promote(s, value, from, to).0),
    ensures
        extends(p, s, promote(s, value, from, to).0),
{
    lemma_extends_same(p, s);
    let t = promote(s, value, from, to).0;
    if t != s {
        match (from, to) {
            (PinpType::Bool, PinpType::Int) => lemma_emitted_extends(
                p,
                s,
                InstView::Op(Op::Cast(Cast::ZeroExtend, value)),
            ),
            (PinpType::Bool, PinpType::Float) => lemma_emitted_extends(
                p,
                s,
                InstView::Op(Op::Cast(Cast::UnsignedToFloat, value)),
            ),
            _ => lemma_emitted_extends(
                p,
                s,
                InstView::Op(Op::Cast(Cast::SignedToFloat, value)),
            ),
        }
    }
}

/// One instruction more behind what has been built.
proof fn lemma_op_more(p: Program, s: Lowering, t: Lowering, o: Op)
    requires
        extends(p, s, t),
        fits(op(t, o)),
    ensures
        extends(p, s, op(t, o)),
        op(t, o).current == t.current,
{
    lemma_emitted_extends(p, t, InstView::Op(o));
    lemma_extends_further(p, s, t, op(t, o));
}

/// Two blocks more.
pub proof fn lemma_two_opened(p: Program, s: Lowering, a: Seq<char>, b: Seq<char>)
    requires
        sane(p, s),
        s.blocks.len() + 2 <= usize::MAX,
    ensures
        ({
            let s1 = block_appended(s, a);
            let s2 = block_appended(s1, b);
            let n = s.blocks.len() as int;
            &&& extends(p, s, s2)
            &&& s2.current == s.current
            &&& s2.insts == s.insts
            &&& s2.blocks.len() == n + 2
            &&& forall|x: int| 0 <= x < n ==> #[trigger] list(s2, x) == list(s, x)
            &&& list(s2, n).len() == 0
            &&& list(s2, n + 1).len() == 0
            &&& next_block(s) == n
            &&& next_block(s1) == n + 1
        }),
{
    let s1 = block_appended(s, a);
    let s2 = block_appended(s1, b);
    lemma_appended_on(s, a);
    lemma_appended_on(s1, b);
    lemma_built_further(s, s1, s2);
    lemma_sane_kept(p, s, s2);
    assert forall|x: int| 0 <= x < s.blocks.len() implies #[trigger] list(s2, x) == list(s, x) by {
        assert(list(s1, x) == list(s, x));
    }
    assert(list(s2, s.blocks.len() as int) == list(s1, s.blocks.len() as int));
}

/// Three blocks more.
proof fn lemma_three_opened(
    p: Program,
    s: Lowering,
    a: Seq<char>,
    b: Seq<char>,
    c: Seq<char>,
)
    requires
        sane(p, s),
        s.blocks.len() + 3 <= usize::MAX,
    ensures
        ({
            let s1 = block_appended(s, a);
            let s2 = block_appended(s1, b);
            let s3 = block_appended(s2, c);
            let n = s.blocks.len() as int;
            &&& extends(p, s, s3)
            &&& s3.current == s.current
            &&& s3.insts == s.insts
            &&& s3.blocks.len() == n + 3
            &&& forall|x: int| 0 <= x < n ==> #[trigger] list(s3, x) == list(s, x)
            &&& list(s3, n).len() == 0
            &&& list(s3, n + 1).len() == 0
            &&& list(s3, n + 2).len() == 0
            &&& next_block(s) == n
            &&& next_block(s1) == n + 1
            &&& next_block(s2) == n + 2
        }),
{
    let s2 = block_appended(block_appended(s, a), b);
    let s3 = block_appended(s2, c);
    let n = s.blocks.len() as int;
    lemma_two_opened(p, s, a, b);
    lemma_appended_on(s2, c);
    lemma_built_further(s, s2, s3);
    lemma_sane_kept(p, s, s3);
    assert forall|x: int| 0 <= x < n implies #[trigger] list(s3, x) == list(s, x) by {
        assert(list(s2, x) == list(s, x));
    }
    assert(list(s3, n) == list(s2, n));
    assert(list(s3, n + 1) == list(s2, n + 1));
}

pub proof fn lemma_range_continue_built(
    p: Program,
    s: Lowering,
    current: Value,
    stop: Value,
    inclusive: Value,
    going_up: Value,
)
    requires
        sane(p, s),
        fits(range_continue(s, current, stop, inclusive, going_up).0),
    ensures
        extends(p, s, range_continue(s, current, stop, inclusive, going_up).0),
        range_continue(s, current, stop, inclusive, going_up).0.current == s.current,
        range_continue(s, current, stop, inclusive, going_up).0.blocks.len() == s.blocks.len(),
        range_continue(s, current, stop, inclusive, going_up).0.insts.len() == s.insts.len() + 7,
{
    let le = next_value(s);
    let o1 = Op::IntCompare(IntPredicate::Sle, current, stop);
    let s1 = op(s, o1);
    let lt = next_value(s1);
    let o2 = Op::IntCompare(IntPredicate::Slt, current, stop);
    let s2 = op(s1, o2);
    let ge = next_value(s2);
    let o3 = Op::IntCompare(IntPredicate::Sge, current, stop);
    let s3 = op(s2, o3);
    let gt = next_value(s3);
    let o4 = Op::IntCompare(IntPredicate::Sgt, current, stop);
    let s4 = op(s3, o4);
    let up = next_value(s4);
    let o5 = Op::Select(inclusive, le, lt);
    let s5 = op(s4, o5);
    let down = next_value(s5);
    let o6 = Op::Select(inclusive, ge, gt);
    let s6 = op(s5, o6);
    let o7 = Op::Select(going_up, up, down);
    lemma_count_kept(s, InstView::Op(o1));
    lemma_count_kept(s1, InstView::Op(o2));
    lemma_count_kept(s2, InstView::Op(o3));
    lemma_count_kept(s3, InstView::Op(o4));
    lemma_count_kept(s4, InstView::Op(o5));
    lemma_count_kept(s5, InstView::Op(o6));
    lemma_count_kept(s6, InstView::Op(o7));
    lemma_extends_same(p, s);
    lemma_op_more(p, s, s, o1);
    lemma_op_more(p, s, s1, o2);
    lemma_op_more(p, s, s2, o3);
    lemma_op_more(p, s, s3, o4);
    lemma_op_more(p, s, s4, o5);
    lemma_op_more(p, s, s5, o6);
    lemma_op_more(p, s, s6, o7);
}

proof fn lemma_member_built(p: Program, s: Lowering, candidate: Value, parts: RangeParts)
    requires
        sane(p, s),
        fits(member_test(s, candidate, parts).0),
    ensures
        extends(p, s, member_test(s, candidate, parts).0),
{
    let offset = next_value(s);
    let o1 = Op::IntBinary(IntOp::Sub, candidate, parts.start);
    let s1 = op(s, o1);
    let remainder = next_value(s1);
    let o2 = Op::IntBinary(IntOp::SignedRem, offset, parts.step);
    let s2 = op(s1, o2);
    let on_step = next_value(s2);
    let o3 = Op::IntCompare(IntPredicate::Eq, remainder, Value::Int(0));
    let s3 = op(s2, o3);
    let going_up = next_value(s3);
    let o4 = Op::IntCompare(IntPredicate::Sgt, parts.step, Value::Int(0));
    let s4 = op(s3, o4);
    let (s5, within) = range_continue(s4, candidate, parts.stop, parts.inclusive, going_up);
    let ge_start = next_value(s5);
    let o6 = Op::IntCompare(IntPredicate::Sge, candidate, parts.start);
    let s6 = op(s5, o6);
    let le_start = next_value(s6);
    let o7 = Op::IntCompare(IntPredicate::Sle, candidate, parts.start);
    let s7 = op(s6, o7);
    let from_start = next_value(s7);
    let o8 = Op::Select(going_up, ge_start, le_start);
    let s8 = op(s7, o8);
    let member = next_value(s8);
    let o9 = Op::IntBinary(IntOp::And, on_step, within);
    let s9 = op(s8, o9);
    let o10 = Op::IntBinary(IntOp::And, member, from_start);
    lemma_count_kept(s, InstView::Op(o1));
    lemma_count_kept(s1, InstView::Op(o2));
    lemma_count_kept(s2, InstView::Op(o3));
    lemma_count_kept(s3, InstView::Op(o4));
    lemma_range_continue(s4, candidate, parts.stop, parts.inclusive, going_up);
    lemma_count_kept(s5, InstView::Op(o6));
    lemma_count_kept(s6, InstView::Op(o7));
    lemma_count_kept(s7, InstView::Op(o8));
    lemma_count_kept(s8, InstView::Op(o9));
    lemma_count_kept(s9, InstView::Op(o10));
    lemma_extends_same(p, s);
    lemma_op_more(p, s, s, o1);
    lemma_op_more(p, s, s1, o2);
    lemma_op_more(p, s, s2, o3);
    lemma_op_more(p, s, s3, o4);
    lemma_range_continue_built(p, s4, candidate, parts.stop, parts.inclusive, going_up);
    lemma_extends_further(p, s, s4, s5);
    lemma_op_more(p, s, s5, o6);
    lemma_op_more(p, s, s6, o7);
    lemma_op_more(p, s, s7, o8);
    lemma_op_more(p, s, s8, o9);
    lemma_op_more(p, s, s9, o10);
}

pub proof fn lemma_extract_built(p: Program, s: Lowering, range: Value)
    requires
        sane(p, s),
        fits(extract_range(s, range).0),
    ensures
        extends(p, s, extract_range(s, range).0),
        extract_range(s, range).0.current == s.current,
{
    let o1 = Op::ExtractField(range, 0);
    let s1 = op(s, o1);
    let o2 = Op::ExtractField(range, 1);
    let s2 = op(s1, o2);
    let o3 = Op::ExtractField(range, 2);
    let s3 = op(s2, o3);
    let o4 = Op::ExtractField(range, 3);
    lemma_count_kept(s, InstView::Op(o1));
    lemma_count_kept(s1, InstView::Op(o2));
    lemma_count_kept(s2, InstView::Op(o3));
    lemma_count_kept(s3, InstView::Op(o4));
    lemma_extends_same(p, s);
    lemma_op_more(p, s, s, o1);
    lemma_op_more(p, s, s1, o2);
    lemma_op_more(p, s, s2, o3);
    lemma_op_more(p, s, s3, o4);
}

pub proof fn lemma_build_range_built(
    p: Program,
    s: Lowering,
    start: Value,
    stop: Value,
    step: Value,
    inclusive: Value,
)
    requires
        sane(p, s),
        fits(build_range(s, start, stop, step, inclusive).0),
    ensures
        extends(p, s, build_range(s, start, stop, step, inclusive).0),
{
    let o1 = Op::InsertField(Value::Undef(IrType::Range), start, 0);
    let s1 = op(s, o1);
    let o2 = Op::InsertField(next_value(s), stop, 1);
    let s2 = op(s1, o2);
    let o3 = Op::InsertField(next_value(s1), step, 2);
    let s3 = op(s2, o3);
    let o4 = Op::InsertField(next_value(s2), inclusive, 3);
    lemma_count_kept(s, InstView::Op(o1));
    lemma_count_kept(s1, InstView::Op(o2));
    lemma_count_kept(s2, InstView::Op(o3));
    lemma_count_kept(s3, InstView::Op(o4));
    lemma_extends_same(p, s);
    lemma_op_more(p, s, s, o1);
    lemma_op_more(p, s, s1, o2);
    lemma_op_more(p, s, s2, o3);
    lemma_op_more(p, s, s3, o4);
}

proof fn lemma_default_step_built(
    p: Program,
    s: Lowering,
    kind: RangeKind,
    start: Value,
    stop: Value,
)
    requires
        sane(p, s),
        fits(default_step(s, kind, start, stop).0),
    ensures
        extends(p, s, default_step(s, kind, start, stop).0),
{
    lemma_extends_same(p, s);
    if kind == RangeKind::Inclusive {
        let o1 = Op::IntCompare(IntPredicate::Sge, stop, start);
        let s1 = op(s, o1);
        let o2 = Op::Select(next_value(s), Value::Int(1), Value::Int(-1i64));
        lemma_count_kept(s, InstView::Op(o1));
        lemma_count_kept(s1, InstView::Op(o2));
        lemma_op_more(p, s, s, o1);
        lemma_op_more(p, s, s1, o2);
    }
}

/// The states that the test of a step goes through: behind the comparison, with the two blocks
/// opened, and behind the jump.
pub open spec fn guard_states(s: Lowering, step: Value) -> (Lowering, Lowering, Lowering) {
    let s1 = op(s, Op::IntCompare(IntPredicate::Eq, step, Value::Int(0)));
    let error_block = next_block(s1);
    let s2 = block_appended(s1, "range_zero_step"@);
    let ok_block = next_block(s2);
    let s3 = block_appended(s2, "range_ok"@);
    (s1, s3, op(s3, Op::CondBranch(next_value(s), error_block, ok_block)))
}

pub proof fn lemma_guard_built(p: Program, s: Lowering, step: Value)
    requires
        sane(p, s),
        fits(guard_zero_step(s, step)),
    ensures
        extends(p, s, guard_zero_step(s, step)),
        ({
            let (s1, s3, s4) = guard_states(s, step);
            let t = guard_zero_step(s, step);
            let n = s.blocks.len() as int;
            &&& extends(p, s, s1)
            &&& s1.current == s.current
            &&& s1.blocks.len() == n
            &&& extends(p, s1, s3)
            &&& s3.current == s.current
            &&& s3.insts == s1.insts
            &&& list(s3, s.current as int) == list(s1, s.current as int)
            &&& next_block(s1) == n
            &&& next_block(block_appended(s1, "range_zero_step"@)) == n + 1
            &&& t.current == n + 1
            &&& list(t, n + 1).len() == 0
            &&& begins(s4.insts, t.insts)
            &&& s4.blocks.len() == t.blocks.len()
            &&& forall|b: int|
                0 <= b < t.blocks.len() ==> begins(#[trigger] list(s4, b), list(t, b))
        }),
{
    reveal(text_added);
    let zero = Op::IntCompare(IntPredicate::Eq, step, Value::Int(0));
    let (s1, s3, s4) = guard_states(s, step);
    let n = s.blocks.len() as int;
    let error_block = next_block(s1);
    let s2 = block_appended(s1, "range_zero_step"@);
    let ok_block = next_block(s2);
    let test = Op::CondBranch(next_value(s), error_block, ok_block);
    let s5 = positioned(s4, error_block);
    let text = next_text(s5);
    let s6 = text_added(s5, "Range step cannot be zero."@);
    let call = InstView::Call(Callee::Runtime(RuntimeFn::RuntimeError), seq![text]);
    let s7 = emitted(s6, call);
    let stop = InstView::Op(Op::Unreachable);
    let s8 = emitted(s7, stop);
    let t = positioned(s8, ok_block);
    assert(guard_zero_step(s, step) == t);
    lemma_count_kept(s, InstView::Op(zero));
    lemma_count_kept(s3, InstView::Op(test));
    lemma_count_kept(s6, call);
    lemma_count_kept(s7, stop);
    lemma_positioned_at(s4, error_block);
    lemma_positioned_at(s8, ok_block);
    assert(s3.blocks.len() == s1.blocks.len() + 2 && s3.insts == s1.insts) by {
        reveal(block_appended);
    }
    lemma_extends_same(p, s);
    lemma_op_more(p, s, s, zero);
    lemma_two_opened(p, s1, "range_zero_step"@, "range_ok"@);
    lemma_emitted_extends(p, s3, InstView::Op(test));
    assert(list(s4, n) == list(s3, n));
    assert(list(s4, n + 1) == list(s3, n + 1));
    assert(list(s5, n) == list(s4, n));
    lemma_sane_kept(p, s3, s5);
    lemma_built_moved(s5, s6);
    lemma_sane_kept(p, s5, s6);
    lemma_emitted_extends(p, s6, call);
    lemma_emitted_extends(p, s7, stop);
    lemma_extends_further(p, s6, s7, s8);
    assert forall|b: int| 0 <= b < t.blocks.len() && b != n implies #[trigger] list(t, b) == list(
        s4,
        b,
    ) by {
        assert(list(s8, b) == list(s6, b));
        assert(list(s6, b) == list(s5, b));
        assert(list(s5, b) == list(s4, b));
    }
    assert(list(t, n) == list(s8, n));
    assert forall|b: int| 0 <= b < s.blocks.len() && b != s.current implies #[trigger] list(t, b)
        == list(s, b) by {
        assert(list(s4, b) == list(s3, b));
        assert(list(s3, b) == list(s1, b));
        assert(list(s1, b) == list(s, b));
    }
    assert(list(t, s.current as int) == list(s4, s.current as int));
    assert(list(s3, s.current as int) == list(s1, s.current as int));
    assert(ready(t)) by {
        lemma_built_moved(s8, s8);
    }
    lemma_sane_kept(p, s, t);
}

/// How an operation on two integers is lowered.
pub open spec fn int_inst(operator: BinOp, left: Value, right: Value) -> InstView {
    match operator {
        BinOp::Add | BinOp::Sub | BinOp::Mul | BinOp::IntDiv | BinOp::Mod => InstView::Op(
            Op::IntBinary(int_op(operator), left, right),
        ),
        _ => InstView::Op(Op::IntCompare(int_predicate(operator), left, right)),
    }
}

pub open spec fn ints_code(
    s: Lowering,
    p: Program,
    operator: BinOp,
    a: ExprId,
    b: ExprId,
    limit: int,
) -> (Lowering, Value) {
    let (s1, left) = as_int(s, p, a, limit);
    let (s2, right) = as_int(s1, p, b, limit);
    (emitted(s2, int_inst(operator, left, right)), next_value(s2))
}

pub proof fn lemma_bin_shape(
    s: Lowering,
    p: Program,
    t: PinpType,
    operator: BinOp,
    a: ExprId,
    b: ExprId,
    limit: int,
)
    requires
        whole(t),
        whole(type_of(p, a)),
        whole(type_of(p, b)),
        operator != BinOp::And && operator != BinOp::Or && operator != BinOp::Xor && operator
            != BinOp::Div && operator != BinOp::Pow,
    ensures
        bin_code(s, p, t, operator, a, b, limit) == ints_code(s, p, operator, a, b, limit),
{
    assert(arithmetic_code(s, p, t, operator, a, b, limit) == arithmetic_code(
        s,
        p,
        t,
        operator,
        a,
        b,
        limit,
    ));
    assert(compare_code(s, p, operator, a, b, limit) == compare_code(
        s,
        p,
        operator,
        a,
        b,
        limit,
    ));
}

/// How an operation on two floats is lowered.
pub open spec fn float_inst(operator: BinOp, left: Value, right: Value) -> InstView {
    match operator {
        BinOp::Add | BinOp::Sub | BinOp::Mul => InstView::Op(
            Op::FloatBinary(float_op(operator), left, right),
        ),
        BinOp::Div => InstView::Op(Op::FloatBinary(FloatOp::Div, left, right)),
        BinOp::Pow => InstView::Call(Callee::Runtime(RuntimeFn::Pow), seq![left, right]),
        _ => InstView::Op(Op::FloatCompare(float_predicate(operator), left, right)),
    }
}

/// Whether a power is brought back to a whole number.
pub open spec fn truncates(operator: BinOp, t: PinpType) -> bool {
    operator == BinOp::Pow && t == PinpType::Int
}

pub open spec fn floats_code(
    s: Lowering,
    p: Program,
    t: PinpType,
    operator: BinOp,
    a: ExprId,
    b: ExprId,
    limit: int,
) -> (Lowering, Value) {
    let (s1, left) = as_float(s, p, a, limit);
    let (s2, right) = as_float(s1, p, b, limit);
    let s3 = emitted(s2, float_inst(operator, left, right));
    if truncates(operator, t) {
        (op(s3, Op::Cast(Cast::FloatToSigned, next_value(s2))), next_value(s3))
    } else {
        (s3, next_value(s2))
    }
}

pub proof fn lemma_float_shape(
    s: Lowering,
    p: Program,
    t: PinpType,
    operator: BinOp,
    a: ExprId,
    b: ExprId,
    limit: int,
)
    requires
        numeric(t),
        numeric(type_of(p, a)),
        numeric(type_of(p, b)),
        floating(operator, t, type_of(p, a), type_of(p, b)),
    ensures
        bin_code(s, p, t, operator, a, b, limit) == floats_code(s, p, t, operator, a, b, limit),
{
    assert(arithmetic_code(s, p, t, operator, a, b, limit) == arithmetic_code(
        s,
        p,
        t,
        operator,
        a,
        b,
        limit,
    ));
    assert(compare_code(s, p, operator, a, b, limit) == compare_code(
        s,
        p,
        operator,
        a,
        b,
        limit,
    ));
}

pub proof fn lemma_expr_built(p: Program, s: Lowering, expr_id: ExprId, limit: int)
    requires
        sane(p, s),
        counted(p, expr_id, limit),
        fits(expr_code(s, p, expr_id, limit).0),
    ensures
        extends(p, s, expr_code(s, p, expr_id, limit).0),
        plain(type_of(p, expr_id)) ==> expr_code(s, p, expr_id, limit).1 is Some,
    decreases limit, 0int, p, 0int,
{
    let id = expr_id.0 as int;
    let t = type_of(p, expr_id);
    lemma_extends_same(p, s);
    match node_at(p, expr_id) {
        NodeView::Float(digits) => {
            lemma_float_straight(p, s, digits);
        },
        NodeView::Str(str_id) => {
            lemma_constant_built(p, s, p.ast.strings[str_id.0 as int]);
        },
        NodeView::FStr(segments) => {
            lemma_fstring_built(p, s, segments);
        },
        NodeView::Var(sym_id) => {
            lemma_load_built(p, s, sym_id, false);
        },
        NodeView::Global(sym_id) => {
            lemma_load_built(p, s, sym_id, true);
        },
        NodeView::Unary(UnOp::Neg, a) => {
            assert(neg_code(s, p, t, a, id) == neg_code(s, p, t, a, id));
            if t == PinpType::Float {
                lemma_opposite_built(p, s, a, id);
            } else {
                lemma_neg_built(p, s, a, id);
            }
        },
        NodeView::Unary(UnOp::Not, a) => {
            let (s1, value) = expect_value(s, p, a, id);
            assert(not_code(s, p, a, id).0 == op(s1, Op::Not(value)));
            lemma_count_kept(s1, InstView::Op(Op::Not(value)));
            lemma_expect_built(p, s, a, id);
            lemma_op_more(p, s, s1, Op::Not(value));
        },
        NodeView::Bin(operator, a, b) => {
            assert(bin_code(s, p, t, operator, a, b, id) == bin_code(s, p, t, operator, a, b, id));
            lemma_strings_shape(s, p, t, operator, a, b, id);
            if t == PinpType::Str {
                lemma_str_concat_built(p, s, a, b, id);
            } else if compares(operator) && type_of(p, a) == PinpType::Str {
                lemma_str_compare_built(p, s, operator, a, b, id);
            } else if floating(operator, t, type_of(p, a), type_of(p, b)) {
                assert(counted_number(p, a, id) && counted_number(p, b, id));
                lemma_float_shape(s, p, t, operator, a, b, id);
                lemma_floats_built(p, s, t, operator, a, b, id);
            } else if operator == BinOp::And || operator == BinOp::Or {
                lemma_short_built(p, s, operator, a, b, id);
            } else if operator == BinOp::Xor {
                let (s1, left) = expect_value(s, p, a, id);
                let (s2, right) = expect_value(s1, p, b, id);
                let o = Op::IntBinary(IntOp::Xor, left, right);
                lemma_expect_value(s1, p, b, id);
                lemma_count_kept(s2, InstView::Op(o));
                lemma_expect_built(p, s, a, id);
                lemma_expect_built(p, s1, b, id);
                lemma_extends_further(p, s, s1, s2);
                lemma_op_more(p, s, s2, o);
            } else {
                assert(counted_value(p, a, id) && counted_value(p, b, id));
                lemma_bin_shape(s, p, t, operator, a, b, id);
                lemma_ints_built(p, s, operator, a, b, id);
            }
        },
        NodeView::Membership(a, range) => {
            lemma_membership_built(p, s, a, range, id);
        },
        NodeView::Call(callee, args) => {
            let name = p.ast.names[callee.0 as int];
            assert(call_code(s, p, t, callee, args, id) == call_code(s, p, t, callee, args, id));
            assert("identity"@ != "str"@ && "identity"@ != "meminfo"@ && "str"@ != "meminfo"@) by {
                reveal_strlit("identity");
                reveal_strlit("str");
                reveal_strlit("meminfo");
                assert("identity"@.len() == 8 && "str"@.len() == 3 && "meminfo"@.len() == 7);
            }
            if name == "str"@ && args.len() == 1 {
                lemma_conversion_built(p, s, args[0], id);
            } else if name == "meminfo"@ && args.len() == 0 {
                lemma_emitted_extends(
                    p,
                    s,
                    InstView::Call(Callee::Runtime(RuntimeFn::MemInfo), Seq::empty()),
                );
            } else {
                lemma_call_built(p, s, t, callee, args, id);
            }
        },
        NodeView::If(arms, else_block) => {
            lemma_if_built(p, s, t, arms, else_block, id);
        },
        _ => {},
    }
}

/// How operators on strings are lowered.
pub proof fn lemma_strings_shape(
    s: Lowering,
    p: Program,
    t: PinpType,
    operator: BinOp,
    a: ExprId,
    b: ExprId,
    limit: int,
)
    ensures
        t == PinpType::Str && operator == BinOp::Add ==> bin_code(s, p, t, operator, a, b, limit)
            == str_concat_code(s, p, a, b, limit),
        compares(operator) && type_of(p, a) == PinpType::Str ==> bin_code(
            s,
            p,
            t,
            operator,
            a,
            b,
            limit,
        ) == str_compare_code(s, p, operator, a, b, limit),
{
    assert(arithmetic_code(s, p, t, operator, a, b, limit) == arithmetic_code(
        s,
        p,
        t,
        operator,
        a,
        b,
        limit,
    ));
    assert(compare_code(s, p, operator, a, b, limit) == compare_code(
        s,
        p,
        operator,
        a,
        b,
        limit,
    ));
}

/// A string to have for oneself.
pub proof fn lemma_owned_built(p: Program, s: Lowering, expr_id: ExprId, limit: int)
    requires
        sane(p, s),
        counted_string(p, expr_id, limit),
        fits(owned_str_code(s, p, expr_id, limit).0),
    ensures
        ({
            let (s1, value) = expect_value(s, p, expr_id, limit);
            let (t, kept) = owned_str_code(s, p, expr_id, limit);
            &&& extends(p, s, t)
            &&& extends(p, s, s1)
            &&& fits(s1)
            &&& straight(p, s1, t)
            &&& (t, kept) == own_str(s1, value, owns_str_result(p, expr_id))
        }),
    decreases limit, 2int, p, 0int,
{
    let (s1, value) = expect_value(s, p, expr_id, limit);
    let owned = owns_str_result(p, expr_id);
    lemma_own_str(s1, value, owned);
    lemma_expect_built(p, s, expr_id, limit);
    lemma_own_built(p, s1, value, owned);
    lemma_extends_further(p, s, s1, own_str(s1, value, owned).0);
}

/// The `str(x)` built-in.
pub proof fn lemma_conversion_built(p: Program, s: Lowering, arg: ExprId, limit: int)
    requires
        sane(p, s),
        counted_part(p, arg, limit),
        fits(str_conversion_code(s, p, arg, limit).0),
    ensures
        extends(p, s, str_conversion_code(s, p, arg, limit).0),
        type_of(p, arg) != PinpType::Str ==> {
            let (s1, value) = expect_value(s, p, arg, limit);
            &&& extends(p, s, s1)
            &&& fits(s1)
            &&& straight(p, s1, str_conversion_code(s, p, arg, limit).0)
            &&& str_conversion_code(s, p, arg, limit) == str_from_value(
                s1,
                value,
                type_of(p, arg),
            )
        },
    decreases limit, 4int, p, 0int,
{
    if type_of(p, arg) == PinpType::Str {
        assert(owned_str_code(s, p, arg, limit) == owned_str_code(s, p, arg, limit));
        lemma_owned_built(p, s, arg, limit);
    } else {
        let (s1, value) = expect_value(s, p, arg, limit);
        lemma_str_from_value(s1, value, type_of(p, arg));
        lemma_expect_built(p, s, arg, limit);
        lemma_render_built(p, s1, value, type_of(p, arg));
        lemma_extends_further(p, s, s1, str_from_value(s1, value, type_of(p, arg)).0);
    }
}

/// The parts of a join.
pub proof fn lemma_str_values_built(
    p: Program,
    s: Lowering,
    parts: Seq<ExprId>,
    done: Seq<StrPart>,
    limit: int,
)
    requires
        sane(p, s),
        counted_parts(p, parts, limit),
        done.len() <= parts.len(),
        fits(str_values(s, p, parts, done, limit).0),
    ensures
        extends(p, s, str_values(s, p, parts, done, limit).0),
        str_values(s, p, parts, done, limit).1.len() == parts.len(),
        done.len() < parts.len() ==> {
            let part = parts[done.len() as int];
            let kind = type_of(p, part);
            let (s1, raw) = expect_value(s, p, part, limit);
            let (s2, value) = str_from_value(s1, raw, kind);
            let owned = kind != PinpType::Str || owns_str_result(p, part);
            let t = str_values(s2, p, parts, done.push(StrPart { value, owned }), limit);
            &&& extends(p, s, s1)
            &&& straight(p, s1, s2)
            &&& fits(s1)
            &&& fits(s2)
            &&& str_values(s, p, parts, done, limit) == t
            &&& extends(p, s2, t.0)
        },
    decreases limit, 3int, p, parts.len() - done.len(),
{
    lemma_extends_same(p, s);
    if done.len() < parts.len() {
        let part = parts[done.len() as int];
        assert(counted_part(p, part, limit));
        let kind = type_of(p, part);
        let (s1, raw) = expect_value(s, p, part, limit);
        let (s2, value) = str_from_value(s1, raw, kind);
        let owned = kind != PinpType::Str || owns_str_result(p, part);
        let more = done.push(StrPart { value, owned });
        lemma_str_values(s2, p, parts, more, limit);
        lemma_str_from_value(s1, raw, kind);
        lemma_expect_built(p, s, part, limit);
        lemma_render_built(p, s1, raw, kind);
        lemma_str_values_built(p, s2, parts, more, limit);
        lemma_extends_further(p, s, s1, s2);
        lemma_extends_further(p, s, s2, str_values(s2, p, parts, more, limit).0);
    }
}

pub proof fn lemma_str_concat_built(p: Program, s: Lowering, a: ExprId, b: ExprId, limit: int)
    requires
        sane(p, s),
        counted_parts(p, str_parts(p, a, limit).push(b), limit),
        fits(str_concat_code(s, p, a, b, limit).0),
    ensures
        extends(p, s, str_concat_code(s, p, a, b, limit).0),
        ({
            let (s1, values) = str_values(
                s,
                p,
                str_parts(p, a, limit).push(b),
                Seq::empty(),
                limit,
            );
            &&& extends(p, s, s1)
            &&& fits(s1)
            &&& str_concat_code(s, p, a, b, limit) == build_concat(s1, values)
            &&& straight(p, s1, build_concat(s1, values).0)
        }),
    decreases limit, 4int, p, 0int,
{
    let parts = str_parts(p, a, limit).push(b);
    let (s1, values) = str_values(s, p, parts, Seq::empty(), limit);
    lemma_build_concat(s1, values);
    lemma_str_values_built(p, s, parts, Seq::empty(), limit);
    lemma_concat_built(p, s1, values);
    lemma_extends_further(p, s, s1, build_concat(s1, values).0);
}

pub proof fn lemma_str_compare_built(
    p: Program,
    s: Lowering,
    operator: BinOp,
    a: ExprId,
    b: ExprId,
    limit: int,
)
    requires
        sane(p, s),
        counted_string(p, a, limit),
        counted_string(p, b, limit),
        fits(str_compare_code(s, p, operator, a, b, limit).0),
    ensures
        ({
            let (s1, left) = expect_value(s, p, a, limit);
            let (s2, right) = expect_value(s1, p, b, limit);
            let (t, value) = compare_tail(
                s2,
                operator,
                left,
                right,
                owns_str_result(p, a),
                owns_str_result(p, b),
            );
            &&& str_compare_code(s, p, operator, a, b, limit) == (t, value)
            &&& extends(p, s, t)
            &&& extends(p, s, s1)
            &&& extends(p, s1, s2)
            &&& straight(p, s2, t)
            &&& fits(s1)
            &&& fits(s2)
        }),
    decreases limit, 4int, p, 0int,
{
    let (s1, left) = expect_value(s, p, a, limit);
    let (s2, right) = expect_value(s1, p, b, limit);
    let one = owns_str_result(p, a);
    let two = owns_str_result(p, b);
    let t = compare_tail(s2, operator, left, right, one, two).0;
    assert(str_compare_code(s, p, operator, a, b, limit).0 == t);
    lemma_expect_value(s1, p, b, limit);
    lemma_tail_grows(s2, operator, left, right, one, two);
    lemma_expect_built(p, s, a, limit);
    lemma_expect_built(p, s1, b, limit);
    lemma_tail_built(p, s2, operator, left, right, one, two);
    lemma_extends_further(p, s, s1, s2);
    lemma_extends_further(p, s, s2, t);
}

pub proof fn lemma_expect_built(p: Program, s: Lowering, expr_id: ExprId, limit: int)
    requires
        sane(p, s),
        counted_part(p, expr_id, limit),
        fits(expect_value(s, p, expr_id, limit).0),
    ensures
        extends(p, s, expect_value(s, p, expr_id, limit).0),
        expr_code(s, p, expr_id, limit) == (
            expect_value(s, p, expr_id, limit).0,
            Some(expect_value(s, p, expr_id, limit).1),
        ),
    decreases limit, 1int, p, 0int,
{
    reveal(failed);
    lemma_expr_built(p, s, expr_id, limit);
}

pub proof fn lemma_as_int_built(p: Program, s: Lowering, expr_id: ExprId, limit: int)
    requires
        sane(p, s),
        counted_value(p, expr_id, limit),
        fits(as_int(s, p, expr_id, limit).0),
    ensures
        extends(p, s, as_int(s, p, expr_id, limit).0),
        extends(p, s, expect_value(s, p, expr_id, limit).0),
        extends(p, expect_value(s, p, expr_id, limit).0, as_int(s, p, expr_id, limit).0),
    decreases limit, 2int, p, 0int,
{
    let (s1, value) = expect_value(s, p, expr_id, limit);
    let o = Op::Cast(Cast::ZeroExtend, value);
    lemma_count_kept(s1, InstView::Op(o));
    lemma_expect_built(p, s, expr_id, limit);
    lemma_extends_same(p, s1);
    if type_of(p, expr_id) == PinpType::Bool {
        lemma_op_more(p, s, s1, o);
        lemma_op_more(p, s1, s1, o);
    }
}

pub proof fn lemma_ints_built(
    p: Program,
    s: Lowering,
    operator: BinOp,
    a: ExprId,
    b: ExprId,
    limit: int,
)
    requires
        sane(p, s),
        counted_value(p, a, limit),
        counted_value(p, b, limit),
        fits(ints_code(s, p, operator, a, b, limit).0),
    ensures
        ({
            let s1 = as_int(s, p, a, limit).0;
            let s2 = as_int(s1, p, b, limit).0;
            let t = ints_code(s, p, operator, a, b, limit).0;
            extends(p, s, s1) && extends(p, s1, s2) && extends(p, s2, t) && extends(p, s, t)
        }),
    decreases limit, 3int, p, 0int,
{
    let (s1, left) = as_int(s, p, a, limit);
    let (s2, right) = as_int(s1, p, b, limit);
    let inst = int_inst(operator, left, right);
    lemma_as_int(s1, p, b, limit);
    lemma_count_kept(s2, inst);
    lemma_as_int_built(p, s, a, limit);
    lemma_as_int_built(p, s1, b, limit);
    lemma_extends_further(p, s, s1, s2);
    lemma_emitted_extends(p, s2, inst);
    lemma_extends_further(p, s, s2, emitted(s2, inst));
}

/// An operand of an operation on floats is brought to a float.
pub proof fn lemma_as_float_built(p: Program, s: Lowering, expr_id: ExprId, limit: int)
    requires
        sane(p, s),
        counted_number(p, expr_id, limit),
        fits(as_float(s, p, expr_id, limit).0),
    ensures
        ({
            let (s1, value) = expect_value(s, p, expr_id, limit);
            &&& as_float(s, p, expr_id, limit) == promote(
                s1,
                value,
                type_of(p, expr_id),
                PinpType::Float,
            )
            &&& extends(p, s, s1)
            &&& extends(p, s1, as_float(s, p, expr_id, limit).0)
            &&& extends(p, s, as_float(s, p, expr_id, limit).0)
        }),
    decreases limit, 2int, p, 0int,
{
    let (s1, value) = expect_value(s, p, expr_id, limit);
    let from = type_of(p, expr_id);
    let t = as_float(s, p, expr_id, limit).0;
    assert(as_float(s, p, expr_id, limit) == promote(s1, value, from, PinpType::Float));
    lemma_promote(s1, value, from, PinpType::Float);
    lemma_expect_built(p, s, expr_id, limit);
    lemma_promote_built(p, s1, value, from, PinpType::Float);
    lemma_extends_further(p, s, s1, t);
}

pub proof fn lemma_floats_built(
    p: Program,
    s: Lowering,
    t: PinpType,
    operator: BinOp,
    a: ExprId,
    b: ExprId,
    limit: int,
)
    requires
        sane(p, s),
        counted_number(p, a, limit),
        counted_number(p, b, limit),
        fits(floats_code(s, p, t, operator, a, b, limit).0),
    ensures
        ({
            let (s1, left) = as_float(s, p, a, limit);
            let (s2, right) = as_float(s1, p, b, limit);
            let s3 = emitted(s2, float_inst(operator, left, right));
            let u = floats_code(s, p, t, operator, a, b, limit).0;
            &&& extends(p, s, s1) && extends(p, s1, s2) && extends(p, s2, s3) && extends(p, s3, u)
            &&& extends(p, s, u)
        }),
    decreases limit, 3int, p, 0int,
{
    let (s1, left) = as_float(s, p, a, limit);
    let (s2, right) = as_float(s1, p, b, limit);
    let inst = float_inst(operator, left, right);
    let s3 = emitted(s2, inst);
    let cast = InstView::Op(Op::Cast(Cast::FloatToSigned, next_value(s2)));
    let u = floats_code(s, p, t, operator, a, b, limit).0;
    lemma_as_float(s1, p, b, limit);
    lemma_count_kept(s2, inst);
    lemma_count_kept(s3, cast);
    lemma_as_float_built(p, s, a, limit);
    lemma_as_float_built(p, s1, b, limit);
    lemma_extends_further(p, s, s1, s2);
    lemma_emitted_extends(p, s2, inst);
    lemma_extends_further(p, s, s2, s3);
    lemma_extends_same(p, s3);
    if truncates(operator, t) {
        lemma_emitted_extends(p, s3, cast);
    }
    lemma_extends_further(p, s, s3, u);
}

/// A float with its sign turned.
pub proof fn lemma_opposite_built(p: Program, s: Lowering, a: ExprId, limit: int)
    requires
        sane(p, s),
        counted_number(p, a, limit),
        fits(neg_code(s, p, PinpType::Float, a, limit).0),
    ensures
        ({
            let (s1, wide) = as_float(s, p, a, limit);
            let t = emitted(s1, InstView::Op(Op::FloatNeg(wide)));
            &&& neg_code(s, p, PinpType::Float, a, limit) == (t, next_value(s1))
            &&& extends(p, s, s1)
            &&& extends(p, s1, t)
            &&& extends(p, s, t)
        }),
    decreases limit, 3int, p, 0int,
{
    let (s1, value) = expect_value(s, p, a, limit);
    let (s2, wide) = as_float(s, p, a, limit);
    assert(promote(s1, value, type_of(p, a), PinpType::Float) == (s2, wide));
    let inst = InstView::Op(Op::FloatNeg(wide));
    lemma_count_kept(s2, inst);
    lemma_as_float_built(p, s, a, limit);
    lemma_emitted_extends(p, s2, inst);
    lemma_extends_further(p, s, s2, emitted(s2, inst));
}

pub proof fn lemma_neg_built(p: Program, s: Lowering, a: ExprId, limit: int)
    requires
        sane(p, s),
        counted_value(p, a, limit),
        fits(neg_code(s, p, PinpType::Int, a, limit).0),
    ensures
        extends(p, s, as_int(s, p, a, limit).0),
        neg_code(s, p, PinpType::Int, a, limit) == (
            op(as_int(s, p, a, limit).0, Op::IntNeg(as_int(s, p, a, limit).1)),
            next_value(as_int(s, p, a, limit).0),
        ),
        extends(
            p,
            as_int(s, p, a, limit).0,
            neg_code(s, p, PinpType::Int, a, limit).0,
        ),
        extends(p, s, neg_code(s, p, PinpType::Int, a, limit).0),
    decreases limit, 3int, p, 0int,
{
    let (s1, value) = expect_value(s, p, a, limit);
    let (s2, wide) = as_int(s, p, a, limit);
    assert(promote(s1, value, type_of(p, a), PinpType::Int) == (s2, wide));
    let inst = InstView::Op(Op::IntNeg(wide));
    lemma_count_kept(s2, inst);
    lemma_as_int_built(p, s, a, limit);
    lemma_emitted_extends(p, s2, inst);
    lemma_extends_further(p, s, s2, emitted(s2, inst));
}

/// The states that the lowering of `and` or `or` goes through: behind the left operand, with the
/// two blocks opened, in the block for the right operand, behind that operand, and where the two
/// ways meet.
pub open spec fn short_states(
    s: Lowering,
    p: Program,
    operator: BinOp,
    a: ExprId,
    b: ExprId,
    limit: int,
) -> (Lowering, Lowering, Lowering, Lowering, Lowering) {
    let (s1, left) = expect_value(s, p, a, limit);
    let rhs_block = next_block(s1);
    let s2 = block_appended(s1, "sc_rhs"@);
    let merge = next_block(s2);
    let s3 = block_appended(s2, "sc_merge"@);
    let test = if operator == BinOp::And {
        Op::CondBranch(left, rhs_block, merge)
    } else {
        Op::CondBranch(left, merge, rhs_block)
    };
    let s7 = positioned(op(s3, test), rhs_block);
    let s8 = expect_value(s7, p, b, limit).0;
    let s10 = positioned(op(s8, Op::Branch(merge)), merge);
    (s1, s3, s7, s8, s10)
}

pub proof fn lemma_short_built(
    p: Program,
    s: Lowering,
    operator: BinOp,
    a: ExprId,
    b: ExprId,
    limit: int,
)
    requires
        sane(p, s),
        counted_value(p, a, limit),
        counted_value(p, b, limit),
        operator == BinOp::And || operator == BinOp::Or,
        fits(short_circuit_code(s, p, operator, a, b, limit).0),
    ensures
        extends(p, s, short_circuit_code(s, p, operator, a, b, limit).0),
        ({
            let (s1, s3, s7, s8, s10) = short_states(s, p, operator, a, b, limit);
            let t = short_circuit_code(s, p, operator, a, b, limit).0;
            let n = s1.blocks.len() as int;
            &&& extends(p, s, s1)
            &&& extends(p, s1, s3)
            &&& sane(p, s7)
            &&& same_scope(s, s7)
            &&& extends(p, s7, s8)
            &&& sane(p, s10)
            &&& s3.current == s1.current
            &&& s3.insts == s1.insts
            &&& list(s3, s1.current as int) == list(s1, s1.current as int)
            &&& s7.current == n
            &&& list(s7, n).len() == 0
            &&& s8.current != s1.current
            &&& s10.current == n + 1
            &&& list(s10, n + 1).len() == 0
            &&& s7.insts.len() > s1.insts.len()
            &&& s10.insts.len() > s8.insts.len()
            &&& next_block(s1) == n
            &&& next_block(block_appended(s1, "sc_rhs"@)) == n + 1
        }),
    decreases limit, 3int, p, 0int,
{
    let (s1, left) = expect_value(s, p, a, limit);
    let rhs_block = next_block(s1);
    let s2 = block_appended(s1, "sc_rhs"@);
    let merge = next_block(s2);
    let s3 = block_appended(s2, "sc_merge"@);
    let test = if operator == BinOp::And {
        Op::CondBranch(left, rhs_block, merge)
    } else {
        Op::CondBranch(left, merge, rhs_block)
    };
    let s4 = op(s3, test);
    let s7 = positioned(s4, rhs_block);
    let (s8, right) = expect_value(s7, p, b, limit);
    let jump = InstView::Op(Op::Branch(merge));
    let s9 = emitted(s8, jump);
    let s10 = positioned(s9, merge);
    let phi = InstView::Phi(
        IrType::I1,
        seq![(Value::Bool(operator == BinOp::Or), insert_block(s1)), (right, insert_block(s8))],
    );
    let s11 = emitted(s10, phi);
    assert(short_circuit_code(s, p, operator, a, b, limit).0 == s11);
    lemma_expect_value(s7, p, b, limit);
    lemma_positioned_at(s4, rhs_block);
    lemma_positioned_at(s9, merge);
    lemma_count_kept(s10, phi);
    lemma_count_kept(s8, jump);
    lemma_count_kept(s3, InstView::Op(test));
    assert(s3.blocks.len() == s1.blocks.len() + 2 && s3.insts == s1.insts) by {
        reveal(block_appended);
    }
    let n = s1.blocks.len() as int;
    lemma_expect_built(p, s, a, limit);
    lemma_two_opened(p, s1, "sc_rhs"@, "sc_merge"@);
    lemma_emitted_extends(p, s3, InstView::Op(test));
    assert(list(s4, n) == list(s3, n));
    assert(list(s4, n + 1) == list(s3, n + 1));
    lemma_sane_kept(p, s, s7);
    lemma_expect_built(p, s7, b, limit);
    lemma_emitted_extends(p, s8, jump);
    assert(list(s8, n + 1) == list(s7, n + 1));
    assert(list(s9, n + 1) == list(s8, n + 1));
    lemma_sane_kept(p, s, s10);
    lemma_emitted_extends(p, s10, phi);
    assert forall|x: int| 0 <= x < n implies #[trigger] list(s11, x) == list(s4, x) by {
        assert(list(s8, x) == list(s7, x));
        assert(list(s9, x) == list(s8, x));
        assert(list(s10, x) == list(s9, x));
        assert(list(s11, x) == list(s10, x));
    }
    assert forall|x: int| 0 <= x < s.blocks.len() && x != s.current implies #[trigger] list(s11, x)
        == list(s, x) by {
        assert(list(s1, x) == list(s, x));
        assert(list(s3, x) == list(s1, x));
        assert(list(s4, x) == list(s3, x));
    }
    let x = s.current as int;
    assert(list(s11, x) == list(s4, x));
    assert(list(s3, x) == list(s1, x));
    if s1.current != s.current {
        assert(list(s4, x) == list(s3, x));
    }
    assert(built_on(s, s11));
    lemma_sane_kept(p, s, s11);
}

pub proof fn lemma_args_built(
    p: Program,
    s: Lowering,
    args: Seq<ExprId>,
    params: Seq<PinpType>,
    done: Seq<Value>,
    limit: int,
)
    requires
        sane(p, s),
        counted_parts(p, args, limit),
        params.len() == args.len(),
        done.len() <= args.len(),
        fits(args_code(s, p, args, params, done, limit).0),
    ensures
        extends(p, s, args_code(s, p, args, params, done, limit).0),
        args_code(s, p, args, params, done, limit).1.len() == args.len(),
        done.len() < args.len() ==> {
            let arg = args[done.len() as int];
            let (s1, raw) = if type_of(p, arg) == PinpType::Str {
                owned_str_code(s, p, arg, limit)
            } else {
                expect_value(s, p, arg, limit)
            };
            let (s2, value) = promote(s1, raw, type_of(p, arg), params[done.len() as int]);
            let t = args_code(s2, p, args, params, done.push(value), limit);
            &&& args_code(s, p, args, params, done, limit) == t
            &&& extends(p, s, s1)
            &&& fits(s1)
            &&& extends(p, s1, s2)
            &&& fits(s2)
            &&& extends(p, s2, t.0)
        },
    decreases limit, 3int, p, args.len() - done.len(),
{
    lemma_extends_same(p, s);
    if done.len() < args.len() {
        let arg = args[done.len() as int];
        assert(counted_part(p, arg, limit));
        let (s1, raw) = if type_of(p, arg) == PinpType::Str {
            owned_str_code(s, p, arg, limit)
        } else {
            expect_value(s, p, arg, limit)
        };
        let to = params[done.len() as int];
        let (s2, value) = promote(s1, raw, type_of(p, arg), to);
        let t = args_code(s2, p, args, params, done.push(value), limit).0;
        assert(args_code(s, p, args, params, done, limit).0 == t);
        lemma_args_code(s2, p, args, params, done.push(value), limit);
        lemma_promote(s1, raw, type_of(p, arg), to);
        if type_of(p, arg) == PinpType::Str {
            lemma_owned_built(p, s, arg, limit);
        } else {
            lemma_expect_built(p, s, arg, limit);
        }
        lemma_promote_built(p, s1, raw, type_of(p, arg), to);
        lemma_extends_further(p, s, s1, s2);
        lemma_args_built(p, s2, args, params, done.push(value), limit);
        lemma_extends_further(p, s, s2, t);
    }
}

pub proof fn lemma_call_built(
    p: Program,
    s: Lowering,
    t: PinpType,
    callee: SymId,
    args: Seq<ExprId>,
    limit: int,
)
    requires
        sane(p, s),
        !is_built_in(p.ast.names[callee.0 as int]),
        counted_parts(p, args, limit),
        function_from(p, 0, callee.0) matches Some(func) && func.params.len() == args.len()
            && func.return_type == t,
        fits(call_code(s, p, t, callee, args, limit).0),
    ensures
        ({
            let func = function_from(p, 0, callee.0)->0;
            let f = s.callables[callee.0];
            let (s1, values) = args_code(
                s,
                p,
                args,
                param_types(func.params),
                Seq::empty(),
                limit,
            );
            &&& extends(p, s, s1)
            &&& values.len() == args.len()
            &&& call_code(s, p, t, callee, args, limit) == (
                called(s1, Callee::Function(f), values),
                if t == PinpType::Void {
                    None
                } else {
                    Some(next_value(s1))
                },
            )
            &&& extends(p, s1, called(s1, Callee::Function(f), values))
        }),
        extends(p, s, call_code(s, p, t, callee, args, limit).0),
    decreases limit, 5int, p, 0int,
{
    reveal(callable);
    reveal(signature);
    let func = function_from(p, 0, callee.0)->0;
    let f = s.callables[callee.0];
    let params = param_types(func.params);
    let (s1, values) = args_code(s, p, args, params, Seq::empty(), limit);
    let call = InstView::Call(Callee::Function(f), values);
    lemma_count_kept(s1, call);
    lemma_args_built(p, s, args, params, Seq::empty(), limit);
    lemma_emitted_extends(p, s1, call);
    lemma_extends_further(p, s, s1, emitted(s1, call));
}

/// The states that the lowering of a range goes through: behind its start, its stop and its step,
/// and behind the test of the step.
pub open spec fn range_states(s: Lowering, p: Program, range: ExprId) -> (
    Lowering,
    Lowering,
    Lowering,
    Lowering,
) {
    let id = range.0 as int;
    match node_at(p, range) {
        NodeView::Range(start, stop, step, kind) => {
            let (s1, first) = as_int(s, p, start, id);
            let (s2, last) = as_int(s1, p, stop, id);
            let (s3, by) = match step {
                Some(given) => as_int(s2, p, given, id),
                None => default_step(s2, kind, first, last),
            };
            (s1, s2, s3, guard_zero_step(s3, by))
        },
        _ => (s, s, s, s),
    }
}

pub proof fn lemma_range_built(p: Program, s: Lowering, range: ExprId, limit: int)
    requires
        sane(p, s),
        counted_range(p, range, limit),
        fits(expr_code(s, p, range, limit).0),
    ensures
        extends(p, s, expr_code(s, p, range, limit).0),
        expr_code(s, p, range, limit) == (
            expect_value(s, p, range, limit).0,
            Some(expect_value(s, p, range, limit).1),
        ),
        ({
            let (s1, s2, s3, s6) = range_states(s, p, range);
            let t = expr_code(s, p, range, limit).0;
            &&& extends(p, s, s1)
            &&& extends(p, s1, s2)
            &&& extends(p, s2, s3)
            &&& extends(p, s3, s6)
            &&& extends(p, s6, t)
            &&& fits(s6)
        }),
    decreases limit, 0int, p, 0int,
{
    let id = range.0 as int;
    if let NodeView::Range(start, stop, step, kind) = node_at(p, range) {
        let (s1, first) = as_int(s, p, start, id);
        let (s2, last) = as_int(s1, p, stop, id);
        let (s3, by) = match step {
            Some(given) => as_int(s2, p, given, id),
            None => default_step(s2, kind, first, last),
        };
        let s6 = guard_zero_step(s3, by);
        let flag = Value::Bool(kind == RangeKind::Inclusive);
        let (s7, value) = build_range(s6, first, last, by, flag);
        assert(range_parts_code(s, p, start, stop, step, kind, id) == (s7, value));
        assert(expr_code(s, p, range, limit) == (s7, Some(value)));
        lemma_build_range(s6, first, last, by, flag);
        lemma_guard_zero_step(s3, by);
        match step {
            Some(given) => {
                lemma_as_int(s2, p, given, id);
            },
            None => {
                lemma_default_step(s2, kind, first, last);
            },
        }
        lemma_as_int(s1, p, stop, id);
        lemma_as_int_built(p, s, start, id);
        lemma_as_int_built(p, s1, stop, id);
        lemma_extends_further(p, s, s1, s2);
        match step {
            Some(given) => {
                lemma_as_int_built(p, s2, given, id);
            },
            None => {
                lemma_default_step_built(p, s2, kind, first, last);
            },
        }
        lemma_extends_further(p, s, s2, s3);
        lemma_guard_built(p, s3, by);
        lemma_extends_further(p, s, s3, s6);
        lemma_build_range_built(p, s6, first, last, by, flag);
        lemma_extends_further(p, s, s6, s7);
    }
}

pub proof fn lemma_membership_built(
    p: Program,
    s: Lowering,
    value: ExprId,
    range: ExprId,
    limit: int,
)
    requires
        sane(p, s),
        counted_value(p, value, limit),
        counted_range(p, range, limit),
        fits(membership_code(s, p, value, range, limit).0),
    ensures
        extends(p, s, membership_code(s, p, value, range, limit).0),
        ({
            let (s1, candidate) = as_int(s, p, value, limit);
            let (s2, range_value) = expect_value(s1, p, range, limit);
            let (s3, parts) = extract_range(s2, range_value);
            let t = member_test(s3, candidate, parts).0;
            &&& extends(p, s, s1)
            &&& extends(p, s1, s2)
            &&& extends(p, s2, s3)
            &&& extends(p, s3, t)
            &&& fits(expr_code(s1, p, range, limit).0)
        }),
    decreases limit, 4int, p, 0int,
{
    let (s1, candidate) = as_int(s, p, value, limit);
    let (s2, range_value) = expect_value(s1, p, range, limit);
    let (s3, parts) = extract_range(s2, range_value);
    let t = member_test(s3, candidate, parts).0;
    assert(membership_code(s, p, value, range, limit).0 == t);
    lemma_member_test(s3, candidate, parts);
    lemma_extract_range(s2, range_value);
    lemma_expect_value(s1, p, range, limit);
    assert(fits(expr_code(s1, p, range, limit).0)) by {
        reveal(failed);
    }
    lemma_as_int_built(p, s, value, limit);
    lemma_range_built(p, s1, range, limit);
    lemma_extends_further(p, s, s1, s2);
    lemma_extract_built(p, s2, range_value);
    lemma_extends_further(p, s, s2, s3);
    lemma_member_built(p, s3, candidate, parts);
    lemma_extends_further(p, s, s3, t);
}

/// The code of a statement: it goes on from `s`, and new names are in the innermost scope.
pub open spec fn grows_on(p: Program, s: Lowering, t: Lowering) -> bool {
    built_on(s, t) && more_scope(s, t) && sane(p, t)
}

pub proof fn lemma_grows_further(p: Program, s: Lowering, t: Lowering, u: Lowering)
    requires
        grows_on(p, s, t),
        grows_on(p, t, u),
    ensures
        grows_on(p, s, u),
{
    lemma_built_further(s, t, u);
}

/// The states that the lowering of a block goes through: in its scope, and behind its statements.
pub open spec fn block_states(s: Lowering, p: Program, block: BlockView, limit: int) -> (
    Lowering,
    Lowering,
) {
    let s1 = scope_pushed(s);
    (s1, stmts_code(s1, p, block, limit))
}

/// A block up to where its scope ends, and its value.
pub open spec fn block_end(s: Lowering, p: Program, block: BlockView, limit: int) -> (
    Lowering,
    Option<Value>,
) {
    let s2 = block_states(s, p, block, limit).1;
    match block.result {
        Some(result) => if type_of(p, result) == PinpType::Str {
            some(owned_str_code(s2, p, result, limit))
        } else {
            expr_code(s2, p, result, limit)
        },
        None => (s2, None),
    }
}

pub proof fn lemma_block_built(p: Program, s: Lowering, block: BlockView, limit: int)
    requires
        sane(p, s),
        counted_stmts(p, block, limit),
        block.result matches Some(result) ==> counted(p, result, limit),
        fits(block_code(s, p, block, limit).0),
    ensures
        extends(p, s, block_code(s, p, block, limit).0),
        block_result_type(p, block) != PinpType::Str ==> block_for_effect_code(s, p, block, limit)
            == block_code(s, p, block, limit).0,
        ({
            let (s1, s2) = block_states(s, p, block, limit);
            let (s3, value) = block_end(s, p, block, limit);
            &&& s1 == (Lowering { frames: s.frames.push(Map::empty()), ..s })
            &&& sane(p, s1)
            &&& grows_on(p, s1, s2)
            &&& extends(p, s2, s3)
            &&& fits(s2)
            &&& fits(s3)
            &&& straight(p, s3, free_scope_strings(s3, p))
            &&& block_code(s, p, block, limit) == (
                (Lowering { frames: s.frames, ..free_scope_strings(s3, p) }),
                value,
            )
        }),
    decreases limit, 10int, block, block.stmts.len() + 3,
{
    let (s1, s2) = block_states(s, p, block, limit);
    let (s3, value) = block_end(s, p, block, limit);
    lemma_scope_pushed(p, s);
    assert(block_for_effect_code(s, p, block, limit) == block_for_effect_code(s, p, block, limit));
    assert(block_code(s, p, block, limit) == block_code(s, p, block, limit));
    assert(result_code(s2, p, block.result, limit) == (s3, value));
    if let Some(result) = block.result {
        lemma_expr_code(s2, p, result, limit);
        lemma_owned_str_code(s2, p, result, limit);
    }
    assert(fits(free_scope_strings(s3, p))) by {
        reveal(scope_popped);
    }
    lemma_freed_grows(s3, p.ast.names.len() as int, 0);
    lemma_stmts_built(p, s1, block, 0, limit);
    lemma_extends_same(p, s2);
    if let Some(result) = block.result {
        if type_of(p, result) == PinpType::Str {
            lemma_owned_built(p, s2, result, limit);
        } else {
            lemma_expr_built(p, s2, result, limit);
        }
    }
    let s4 = free_scope_strings(s3, p);
    lemma_scope_freed_built(p, s3, p.ast.names.len() as int, 0);
    assert(s4.frames.drop_last() =~= s.frames);
    lemma_scope_popped(p, s, s4);
    let t = scope_popped(s4);
    lemma_built_further(s, s1, s2);
    lemma_built_further(s, s2, s3);
    lemma_built_further(s, s3, s4);
    lemma_built_further(s, s4, t);
}

pub proof fn lemma_branch_built(
    p: Program,
    s: Lowering,
    t: PinpType,
    block: BlockView,
    incomings: Seq<(Value, usize)>,
    limit: int,
)
    requires
        sane(p, s),
        plain(t) || t == PinpType::Void,
        counted_branch(p, t, block, limit),
        fits(branch_code(s, p, t, block, incomings, limit).0),
    ensures
        extends(p, s, branch_code(s, p, t, block, incomings, limit).0),
        fits(block_code(s, p, block, limit).0),
        extends(p, s, block_code(s, p, block, limit).0),
        ({
            let (s1, value) = block_code(s, p, block, limit);
            let after = branch_code(s, p, t, block, incomings, limit);
            if t == PinpType::Void {
                after == (s1, incomings)
            } else {
                let (s2, promoted) = promote(s1, value->0, block_result_type(p, block), t);
                &&& value is Some
                &&& after == (s2, incomings.push((promoted, s2.current)))
                &&& extends(p, s1, s2)
            }
        }),
    decreases limit, 10int, block, block.stmts.len() + 4,
{
    reveal(insert_block);
    reveal(failed);
    let (s1, value) = block_code(s, p, block, limit);
    lemma_block_code(s, p, block, limit);
    assert(fits(s1)) by {
        if t == PinpType::Void {
            assert(block_for_effect_code(s, p, block, limit) == block_for_effect_code(
                s,
                p,
                block,
                limit,
            ));
            assert(block_result_type(p, block) != PinpType::Str) by {
                if let Some(result) = block.result {
                    assert(counted(p, result, limit));
                }
            }
        } else if let Some(found) = value {
            lemma_promote(s1, found, block_result_type(p, block), t);
        }
    }
    lemma_block_built(p, s, block, limit);
    if t != PinpType::Void {
        let result = block.result->0;
        let s0 = block_states(s, p, block, limit).1;
        if type_of(p, result) != PinpType::Str {
            lemma_expr_built(p, s0, result, limit);
        }
        lemma_promote_built(p, s1, value->0, block_result_type(p, block), t);
        let s2 = promote(s1, value->0, block_result_type(p, block), t).0;
        lemma_extends_further(p, s, s1, s2);
    }
}

/// The states that the lowering of one arm goes through: behind its condition, with its two blocks
/// opened, in its branch, behind its branch, and where the next arm begins.
pub open spec fn arm_states(
    s: Lowering,
    p: Program,
    t: PinpType,
    arm: IfArmView,
    merge: usize,
    incomings: Seq<(Value, usize)>,
    limit: int,
) -> (Lowering, Lowering, Lowering, Lowering, Lowering) {
    let (s1, cond) = expect_value(s, p, arm.cond, limit);
    let then_block = next_block(s1);
    let s2 = block_appended(s1, "if_then"@);
    let next = next_block(s2);
    let s3 = block_appended(s2, "if_next"@);
    let s4 = op(s3, Op::CondBranch(cond, then_block, next));
    let s5 = positioned(s4, then_block);
    let s6 = branch_code(s5, p, t, arm.body, incomings, limit).0;
    let s7 = op(s6, Op::Branch(merge));
    (s1, s3, s5, s6, positioned(s7, next))
}

/// How the states of an arm lie to each other.
pub open spec fn arm_built(
    p: Program,
    s: Lowering,
    t: PinpType,
    arm: IfArmView,
    merge: usize,
    incomings: Seq<(Value, usize)>,
    limit: int,
) -> bool {
    let (s1, s3, s5, s6, s8) = arm_states(s, p, t, arm, merge, incomings, limit);
    let n = s1.blocks.len() as int;
    &&& extends(p, s, s1)
    &&& extends(p, s1, s3)
    &&& sane(p, s5)
    &&& same_scope(s, s5)
    &&& extends(p, s5, s6)
    &&& extends(p, s, s8)
    &&& fits(s8)
    &&& s3.current == s1.current
    &&& s3.insts == s1.insts
    &&& list(s3, s1.current as int) == list(s1, s1.current as int)
    &&& s5.current == n
    &&& list(s5, n).len() == 0
    &&& s5.insts.len() > s1.insts.len()
    &&& s8.insts.len() > s6.insts.len()
    &&& s8.current == n + 1
    &&& list(s8, n + 1).len() == 0
    &&& next_block(s1) == n
    &&& next_block(block_appended(s1, "if_then"@)) == n + 1
}

proof fn lemma_arm_built(
    p: Program,
    s: Lowering,
    t: PinpType,
    arm: IfArmView,
    merge: usize,
    incomings: Seq<(Value, usize)>,
    limit: int,
)
    requires
        sane(p, s),
        plain(t) || t == PinpType::Void,
        counted_value(p, arm.cond, limit),
        counted_branch(p, t, arm.body, limit),
        fits(arm_states(s, p, t, arm, merge, incomings, limit).4),
    ensures
        arm_built(p, s, t, arm, merge, incomings, limit),
    decreases limit, 10int, arm.body, arm.body.stmts.len() + 5,
{
    let (s1, cond) = expect_value(s, p, arm.cond, limit);
    let then_block = next_block(s1);
    let s2 = block_appended(s1, "if_then"@);
    let next = next_block(s2);
    let s3 = block_appended(s2, "if_next"@);
    let test = InstView::Op(Op::CondBranch(cond, then_block, next));
    let s4 = emitted(s3, test);
    let s5 = positioned(s4, then_block);
    let s6 = branch_code(s5, p, t, arm.body, incomings, limit).0;
    let jump = InstView::Op(Op::Branch(merge));
    let s7 = emitted(s6, jump);
    let s8 = positioned(s7, next);
    lemma_branch_code(s5, p, t, arm.body, incomings, limit);
    lemma_positioned_at(s4, then_block);
    lemma_positioned_at(s7, next);
    lemma_count_kept(s6, jump);
    lemma_count_kept(s3, test);
    assert(s3.blocks.len() == s1.blocks.len() + 2 && s3.insts == s1.insts) by {
        reveal(block_appended);
    }
    let n = s1.blocks.len() as int;
    lemma_expect_built(p, s, arm.cond, limit);
    lemma_two_opened(p, s1, "if_then"@, "if_next"@);
    lemma_emitted_extends(p, s3, test);
    assert(list(s4, n) == list(s3, n));
    assert(list(s4, n + 1) == list(s3, n + 1));
    lemma_sane_kept(p, s, s5);
    lemma_branch_built(p, s5, t, arm.body, incomings, limit);
    lemma_emitted_extends(p, s6, jump);
    assert(list(s6, n + 1) == list(s5, n + 1));
    assert(list(s7, n + 1) == list(s6, n + 1));
    assert forall|x: int| 0 <= x < n implies #[trigger] list(s8, x) == list(s4, x) by {
        assert(list(s6, x) == list(s5, x));
        assert(list(s7, x) == list(s6, x));
    }
    assert forall|x: int| 0 <= x < s.blocks.len() && x != s.current implies #[trigger] list(s8, x)
        == list(s, x) by {
        assert(list(s1, x) == list(s, x));
        assert(list(s3, x) == list(s1, x));
        assert(list(s4, x) == list(s3, x));
    }
    let x = s.current as int;
    assert(list(s8, x) == list(s4, x));
    assert(list(s3, x) == list(s1, x));
    if s1.current != s.current {
        assert(list(s4, x) == list(s3, x));
    }
    assert(built_on(s, s8));
    lemma_sane_kept(p, s, s8);
}

pub proof fn lemma_arms_built(
    p: Program,
    s: Lowering,
    t: PinpType,
    arms: Seq<IfArmView>,
    merge: usize,
    incomings: Seq<(Value, usize)>,
    from: int,
    limit: int,
)
    requires
        sane(p, s),
        plain(t) || t == PinpType::Void,
        counted_arms(p, t, arms, limit),
        0 <= from,
        fits(arms_code(s, p, t, arms, merge, incomings, from, limit).0),
    ensures
        extends(p, s, arms_code(s, p, t, arms, merge, incomings, from, limit).0),
        begins(incomings, arms_code(s, p, t, arms, merge, incomings, from, limit).1),
        from < arms.len() ==> {
            let (s1, s3, s5, s6, s8) = arm_states(s, p, t, arms[from], merge, incomings, limit);
            let more = branch_code(s5, p, t, arms[from].body, incomings, limit).1;
            let after = arms_code(s, p, t, arms, merge, incomings, from, limit);
            &&& arm_built(p, s, t, arms[from], merge, incomings, limit)
            &&& after == arms_code(s8, p, t, arms, merge, more, from + 1, limit)
            &&& extends(p, s8, after.0)
            &&& begins(more, after.1)
        },
    decreases limit, 11int, p, arms.len() - from,
{
    lemma_extends_same(p, s);
    if from < arms.len() {
        let arm = arms[from];
        let (s1, s3, s5, s6, s8) = arm_states(s, p, t, arm, merge, incomings, limit);
        let more = branch_code(s5, p, t, arm.body, incomings, limit).1;
        let after = arms_code(s, p, t, arms, merge, incomings, from, limit);
        assert(after == arms_code(s8, p, t, arms, merge, more, from + 1, limit));
        lemma_arms_code(s8, p, t, arms, merge, more, from + 1, limit);
        lemma_arm_built(p, s, t, arm, merge, incomings, limit);
        lemma_branch_code(s5, p, t, arm.body, incomings, limit);
        assert(fits(s6)) by {
            reveal(positioned);
            lemma_count_kept(s6, InstView::Op(Op::Branch(merge)));
        }
        lemma_branch_built(p, s5, t, arm.body, incomings, limit);
        lemma_arms_built(p, s8, t, arms, merge, more, from + 1, limit);
        lemma_extends_further(p, s, s8, after.0);
    }
}

/// The states that the lowering of an `if` goes through: with the block opened where its branches
/// meet, behind its arms, and behind its last branch; and what its branches hand on.
pub open spec fn if_states(
    s: Lowering,
    p: Program,
    t: PinpType,
    arms: Seq<IfArmView>,
    else_block: Option<BlockView>,
    limit: int,
) -> (Lowering, Lowering, Lowering, Seq<(Value, usize)>) {
    let s1 = block_appended(s, "if_merge"@);
    let (s2, from_arms) = arms_code(s1, p, t, arms, next_block(s), Seq::empty(), 0, limit);
    let (s3, incomings) = match else_block {
        Some(block) => branch_code(s2, p, t, block, from_arms, limit),
        None => (s2, from_arms),
    };
    (s1, s2, s3, incomings)
}

pub proof fn lemma_if_built(
    p: Program,
    s: Lowering,
    t: PinpType,
    arms: Seq<IfArmView>,
    else_block: Option<BlockView>,
    limit: int,
)
    requires
        sane(p, s),
        plain(t) || t == PinpType::Void,
        counted_arms(p, t, arms, limit),
        else_block matches Some(block) ==> counted_branch(p, t, block, limit),
        fits(if_code(s, p, t, arms, else_block, limit).0),
    ensures
        extends(p, s, if_code(s, p, t, arms, else_block, limit).0),
        ({
            let (s1, s2, s3, incomings) = if_states(s, p, t, arms, else_block, limit);
            let merge = next_block(s);
            let s4 = positioned(op(s3, Op::Branch(merge)), merge);
            let after = if_code(s, p, t, arms, else_block, limit);
            &&& merge == s.blocks.len()
            &&& extends(p, s, s1)
            &&& s1.current == s.current
            &&& s1.insts == s.insts
            &&& list(s1, s.current as int) == list(s, s.current as int)
            &&& extends(p, s1, s2)
            &&& extends(p, s2, s3)
            &&& sane(p, s4)
            &&& fits(s3)
            &&& s4.current == merge
            &&& list(s4, merge as int).len() == 0
            &&& s4.insts.len() > s3.insts.len()
            &&& s4 == (Lowering { current: merge, ..op(s3, Op::Branch(merge)) })
            &&& if t == PinpType::Void {
                after == (s4, None::<Value>)
            } else {
                &&& after == (
                    emitted(s4, InstView::Phi(basic_type(t)->0, incomings)),
                    Some(next_value(s4)),
                )
                &&& extends(p, s4, after.0)
            }
        }),
    decreases limit, 12int, p, 0int,
{
    let (s1, s2, s3, incomings) = if_states(s, p, t, arms, else_block, limit);
    let from_arms = arms_code(s1, p, t, arms, next_block(s), Seq::empty(), 0, limit).1;
    let merge = next_block(s);
    let jump = InstView::Op(Op::Branch(merge));
    let sj = emitted(s3, jump);
    let s4 = positioned(sj, merge);
    let phi = InstView::Phi(basic_type(t)->0, incomings);
    let after = if_code(s, p, t, arms, else_block, limit);
    assert(after == if t == PinpType::Void {
        (s4, None)
    } else {
        (emitted(s4, phi), Some(next_value(s4)))
    });
    lemma_count_kept(s4, phi);
    lemma_count_kept(s3, jump);
    lemma_positioned_at(sj, merge);
    if let Some(block) = else_block {
        lemma_branch_code(s2, p, t, block, from_arms, limit);
    }
    lemma_arms_code(s1, p, t, arms, merge, Seq::empty(), 0, limit);
    assert(s1.blocks.len() == s.blocks.len() + 1 && s1.insts == s.insts) by {
        reveal(block_appended);
    }
    lemma_appended_on(s, "if_merge"@);
    lemma_sane_kept(p, s, s1);
    lemma_arms_built(p, s1, t, arms, merge, Seq::empty(), 0, limit);
    lemma_extends_same(p, s2);
    if let Some(block) = else_block {
        lemma_branch_built(p, s2, t, block, from_arms, limit);
    }
    lemma_extends_further(p, s1, s2, s3);
    lemma_emitted_extends(p, s3, jump);
    lemma_extends_further(p, s1, s3, sj);
    let n = s.blocks.len() as int;
    assert(list(sj, n) == list(s1, n));
    lemma_built_further(s, s1, sj);
    lemma_sane_kept(p, s, s4);
    assert(built_on(s, s4)) by {
        assert forall|x: int| 0 <= x < s.blocks.len() && x != s.current implies
            #[trigger] list(s4, x) == list(s, x) by {
            assert(list(sj, x) == list(s, x));
        }
        assert(list(s4, s.current as int) == list(sj, s.current as int));
    }
    if t != PinpType::Void {
        lemma_emitted_extends(p, s4, phi);
        lemma_built_further(s, s4, emitted(s4, phi));
    }
}

pub proof fn lemma_stmts_built(p: Program, s: Lowering, block: BlockView, from: int, limit: int)
    requires
        sane(p, s),
        counted_stmts(p, block, limit),
        0 <= from,
        fits(stmts_from(s, p, block, from, limit)),
    ensures
        grows_on(p, s, stmts_from(s, p, block, from, limit)),
        from < block.stmts.len() ==> {
            let (s1, yielded) = stmt_code(s, p, block.stmts[from], limit);
            let s2 = discarded_str_freed(s1, p, block.stmts[from], yielded);
            let t = stmts_from(s, p, block, from, limit);
            &&& grows_on(p, s, s1)
            &&& fits(s1)
            &&& extends(p, s1, s2)
            &&& fits(s2)
            &&& t == stmts_from(s2, p, block, from + 1, limit)
            &&& grows_on(p, s2, t)
        },
    decreases limit, 10int, block, block.stmts.len() - from,
{
    lemma_extends_same(p, s);
    if from < block.stmts.len() {
        let stmt = block.stmts[from];
        assert(counted_stmt(p, stmt, limit));
        let (s1, yielded) = stmt_code(s, p, stmt, limit);
        let s2 = discarded_str_freed(s1, p, stmt, yielded);
        lemma_stmts_from(s2, p, block, from + 1, limit);
        lemma_discarded_str_freed(s1, p, stmt, yielded);
        lemma_stmt_built(p, s, stmt, limit);
        lemma_discarded_built(p, s1, stmt, yielded);
        lemma_stmts_built(p, s2, block, from + 1, limit);
        lemma_grows_further(p, s, s1, s2);
        lemma_grows_further(p, s, s2, stmts_from(s2, p, block, from + 1, limit));
    }
}

pub proof fn lemma_stmt_built(p: Program, s: Lowering, stmt: StmtView, limit: int)
    requires
        sane(p, s),
        counted_stmt(p, stmt, limit),
        fits(stmt_code(s, p, stmt, limit).0),
    ensures
        grows_on(p, s, stmt_code(s, p, stmt, limit).0),
        stmt matches StmtView::Expr(expr_id) ==> plain(type_of(p, expr_id)) ==> stmt_code(
            s,
            p,
            stmt,
            limit,
        ).1 is Some,
    decreases limit, 10int, stmt, 0int,
{
    match stmt {
        StmtView::Expr(expr_id) => {
            lemma_expr_built(p, s, expr_id, limit);
        },
        StmtView::Assign(groups, _, values) => {
            lemma_assign_built(p, s, groups, values, limit);
        },
        StmtView::While(cond, body) => {
            lemma_while_built(p, s, cond, body, limit);
        },
        StmtView::Loop(body, cond, until) => {
            lemma_loop_built(p, s, body, cond, until, limit);
        },
        StmtView::For(var, source, body) => {
            lemma_for_built(p, s, var, source, body, limit);
        },
        _ => {},
    }
}

pub proof fn lemma_values_built(
    p: Program,
    s: Lowering,
    values: Seq<ExprId>,
    done: Seq<Value>,
    limit: int,
)
    requires
        sane(p, s),
        counted_parts(p, values, limit),
        done.len() <= values.len(),
        fits(values_code(s, p, values, done, limit).0),
    ensures
        extends(p, s, values_code(s, p, values, done, limit).0),
        values_code(s, p, values, done, limit).1.len() == values.len(),
        done.len() < values.len() ==> {
            let value = values[done.len() as int];
            let (s1, v) = if type_of(p, value) == PinpType::Str {
                owned_str_code(s, p, value, limit)
            } else {
                expect_value(s, p, value, limit)
            };
            let t = values_code(s1, p, values, done.push(v), limit);
            &&& values_code(s, p, values, done, limit) == t
            &&& extends(p, s, s1)
            &&& fits(s1)
            &&& extends(p, s1, t.0)
        },
    decreases limit, 3int, p, values.len() - done.len(),
{
    lemma_extends_same(p, s);
    if done.len() < values.len() {
        let value = values[done.len() as int];
        assert(counted_part(p, value, limit));
        let (s1, v) = if type_of(p, value) == PinpType::Str {
            owned_str_code(s, p, value, limit)
        } else {
            expect_value(s, p, value, limit)
        };
        let t = values_code(s1, p, values, done.push(v), limit).0;
        lemma_values_code(s1, p, values, done.push(v), limit);
        if type_of(p, value) == PinpType::Str {
            lemma_owned_built(p, s, value, limit);
        } else {
            lemma_expect_built(p, s, value, limit);
        }
        lemma_values_built(p, s1, values, done.push(v), limit);
        lemma_extends_further(p, s, s1, t);
    }
}

/// A place to write to: a slot that is there, or a new one with a name of the innermost scope.
pub proof fn lemma_resolve_built(p: Program, s: Lowering, place: Place, t: PinpType)
    requires
        sane(p, s),
        plain(t),
        fits(resolve_place(s, place, t).0),
    ensures
        grows_on(p, s, resolve_place(s, place, t).0),
        resolve_place(s, place, t).0.current == s.current,
        list(resolve_place(s, place, t).0, s.current as int) == list(s, s.current as int),
        resolve_place(s, place, t).0.blocks.len() == s.blocks.len(),
        plain(resolve_place(s, place, t).1.value_type),
        ({
            let local = match place {
                Place::Local(sym_id) => local_slot(s, sym_id),
                Place::Global(_) => None,
            };
            let outer = match place {
                Place::Local(sym_id) => if s.in_function {
                    None
                } else {
                    global_slot(s, sym_id)
                },
                Place::Global(sym_id) => global_slot(s, sym_id),
            };
            let (s1, slot) = resolve_place(s, place, t);
            match local {
                Some(found) => (s1, slot) == (s, found),
                None => match outer {
                    Some(found) => (s1, slot) == (s, found),
                    None => place matches Place::Local(sym_id) ==> {
                        &&& slot == (Slot {
                            place: Value::Inst(s.insts.len() as usize),
                            value_type: t,
                        })
                        &&& s1.frames == s.frames.update(
                            s.frames.len() - 1,
                            s.frames.last().insert(sym_id.0, slot),
                        )
                        &&& s.insts.len() < s1.insts.len()
                        &&& is_alloca(s1.insts[s.insts.len() as int])
                    },
                },
            }
        }),
{
    reveal(failed);
    reveal(inside_function);
    reveal(next_value);
    lemma_extends_same(p, s);
    lemma_found_whole(s, place);
    let (s1, slot) = resolve_place(s, place, t);
    if let Place::Local(sym_id) = place {
        if local_slot(s, sym_id) is None && (s.in_function || global_slot(s, sym_id) is None) {
            let s2 = alloca_at_entry(s, t).0;
            assert(s1 == name_bound(s2, sym_id, slot));
            assert(s1.insts == s2.insts && s1.blocks == s2.blocks) by {
                reveal(name_bound);
            }
            if t == PinpType::Str {
                lemma_str_slot_built(p, s);
            } else {
                let make = Op::Alloca(basic_type(t)->0);
                assert(s2 == entered(s, 0, make));
                lemma_entered_straight(p, s, 0, make);
            }
            lemma_name_bound(p, s2, sym_id, slot);
            lemma_built_further(s, s2, s1);
            assert(list(s1, s.current as int) == list(s2, s.current as int));
        }
    } else {
        if global_slot(s, place->Global_0) is None {
            lemma_built_moved(s, s1);
            lemma_sane_kept(p, s, s1);
        }
    }
}

/// What a name resolves to is a slot for a whole number or a string.
pub proof fn lemma_found_whole(s: Lowering, place: Place)
    requires
        slots_sound(s),
    ensures
        local_slot(s, symbol_of(place)) matches Some(slot) ==> plain(slot.value_type) && (
        slot.place matches Value::Inst(id) && id < s.insts.len() && is_alloca(s.insts[id as int])),
        global_slot(s, symbol_of(place)) matches Some(slot) ==> plain(slot.value_type)
            && slot.place is Global,
{
    reveal(local_slot);
    reveal(global_slot);
    lemma_nearest_frame(s.frames, s.frames.len() as int, symbol_of(place).0);
    let k = frame_of(s.frames, s.frames.len() as int, symbol_of(place).0);
    if k >= 0 {
        assert(s.frames[k].contains_key(symbol_of(place).0));
    }
}

pub proof fn lemma_nearest_frame(frames: Seq<Map<u32, Slot>>, top: int, sym: u32)
    requires
        0 <= top <= frames.len(),
    ensures
        ({
            let k = frame_of(frames, top, sym);
            &&& -1 <= k < top
            &&& k >= 0 ==> frames[k].contains_key(sym)
            &&& nearest(frames, top, sym) == if k >= 0 {
                Some(frames[k][sym])
            } else {
                None
            }
        }),
    decreases top,
{
    if top > 0 && !frames[top - 1].contains_key(sym) {
        lemma_nearest_frame(frames, top - 1, sym);
    }
}

pub proof fn lemma_store_built(
    p: Program,
    s: Lowering,
    place: Place,
    value: Value,
    t: PinpType,
    first: bool,
)
    requires
        sane(p, s),
        plain(t),
        fits(store_to_place(s, place, value, t, first)),
    ensures
        grows_on(p, s, store_to_place(s, place, value, t, first)),
        numeric(t) ==> ({
            let (s1, slot) = resolve_place(s, place, t);
            let (s2, stored) = promote(s1, value, t, slot.value_type);
            &&& store_to_place(s, place, value, t, first) == op(s2, Op::Store(slot.place, stored))
            &&& grows_on(p, s, s1)
            &&& extends(p, s1, s2)
            &&& fits(s1)
            &&& extends(p, s2, store_to_place(s, place, value, t, first))
        }),
{
    if t == PinpType::Str {
        lemma_str_store_built(p, s, place, value, first);
    } else {
        let (s1, slot) = resolve_place(s, place, t);
        let (s2, stored) = promote(s1, value, t, slot.value_type);
        let store = InstView::Op(Op::Store(slot.place, stored));
        lemma_count_kept(s2, store);
        lemma_promote(s1, value, t, slot.value_type);
        lemma_resolve_built(p, s, place, t);
        lemma_promote_built(p, s1, value, t, slot.value_type);
        lemma_emitted_extends(p, s2, store);
        lemma_extends_further(p, s1, s2, emitted(s2, store));
        lemma_grows_further(p, s, s1, emitted(s2, store));
    }
}

pub proof fn lemma_group_built(
    p: Program,
    s: Lowering,
    group: Seq<Place>,
    values: Seq<ExprId>,
    evaluated: Seq<Value>,
    first: bool,
    from: int,
)
    requires
        sane(p, s),
        0 <= from,
        evaluated.len() <= values.len(),
        forall|k: int| 0 <= k < values.len() ==> plain(type_of(p, #[trigger] values[k])),
        fits(group_stored(s, p, group, values, evaluated, first, from)),
    ensures
        from < group.len() && from < evaluated.len() ==> {
            let s1 = store_to_place(
                s,
                group[from],
                evaluated[from],
                type_of(p, values[from]),
                first,
            );
            &&& fits(s1)
            &&& grows_on(p, s, s1)
            &&& grows_on(
                p,
                s1,
                group_stored(s1, p, group, values, evaluated, first, from + 1),
            )
        },
    decreases group.len() - from,
{
    lemma_extends_same(p, s);
    if from < group.len() && from < evaluated.len() {
        let t = type_of(p, values[from]);
        let s1 = store_to_place(s, group[from], evaluated[from], t, first);
        lemma_group_stored(s1, p, group, values, evaluated, first, from + 1);
        assert(plain(t));
        lemma_store_built(p, s, group[from], evaluated[from], t, first);
        lemma_group_built(p, s1, group, values, evaluated, first, from + 1);
        lemma_grows_further(
            p,
            s,
            s1,
            group_stored(s1, p, group, values, evaluated, first, from + 1),
        );
    }
}

pub proof fn lemma_groups_built(
    p: Program,
    s: Lowering,
    groups: Seq<Seq<Place>>,
    values: Seq<ExprId>,
    evaluated: Seq<Value>,
    from: int,
)
    requires
        sane(p, s),
        0 <= from,
        evaluated.len() <= values.len(),
        forall|k: int| 0 <= k < values.len() ==> plain(type_of(p, #[trigger] values[k])),
        fits(groups_stored(s, p, groups, values, evaluated, from)),
    ensures
        grows_on(p, s, groups_stored(s, p, groups, values, evaluated, from)),
        from < groups.len() ==> {
            let s1 = group_stored(s, p, groups[from], values, evaluated, from == 0, 0);
            &&& fits(s1)
            &&& grows_on(p, s, s1)
            &&& grows_on(p, s1, groups_stored(s1, p, groups, values, evaluated, from + 1))
        },
    decreases groups.len() - from,
{
    lemma_extends_same(p, s);
    if from < groups.len() {
        let s1 = group_stored(s, p, groups[from], values, evaluated, from == 0, 0);
        lemma_groups_stored(s1, p, groups, values, evaluated, from + 1);
        lemma_group_built(p, s, groups[from], values, evaluated, from == 0, 0);
        lemma_groups_built(p, s1, groups, values, evaluated, from + 1);
        lemma_grows_further(p, s, s1, groups_stored(s1, p, groups, values, evaluated, from + 1));
    }
}

pub proof fn lemma_assign_built(
    p: Program,
    s: Lowering,
    groups: Seq<Seq<Place>>,
    values: Seq<ExprId>,
    limit: int,
)
    requires
        sane(p, s),
        counted_parts(p, values, limit),
        ({
            let (s1, evaluated) = values_code(s, p, values, Seq::empty(), limit);
            fits(groups_stored(s1, p, groups, values, evaluated, 0))
        }),
    ensures
        ({
            let (s1, evaluated) = values_code(s, p, values, Seq::empty(), limit);
            let t = groups_stored(s1, p, groups, values, evaluated, 0);
            &&& extends(p, s, s1)
            &&& fits(s1)
            &&& grows_on(p, s1, t)
            &&& grows_on(p, s, t)
            &&& evaluated.len() == values.len()
            &&& forall|k: int| 0 <= k < values.len() ==> plain(type_of(p, #[trigger] values[k]))
        }),
    decreases limit, 9int, p, 0int,
{
    let (s1, evaluated) = values_code(s, p, values, Seq::empty(), limit);
    let t = groups_stored(s1, p, groups, values, evaluated, 0);
    lemma_groups_stored(s1, p, groups, values, evaluated, 0);
    lemma_values_built(p, s, values, Seq::empty(), limit);
    assert forall|k: int| 0 <= k < values.len() implies plain(type_of(p, #[trigger] values[k])) by {
        assert(counted_part(p, values[k], limit));
    }
    lemma_groups_built(p, s1, groups, values, evaluated, 0);
    lemma_grows_further(p, s, s1, t);
}

/// The states that the lowering of a `while` goes through: with its blocks opened, at its test,
/// behind the test, in its body, and behind the body.
pub open spec fn while_states(
    s: Lowering,
    p: Program,
    cond: ExprId,
    body: BlockView,
    limit: int,
) -> (Lowering, Lowering, Lowering, Lowering, Lowering) {
    let header = next_block(s);
    let s1 = block_appended(s, "while_header"@);
    let body_block = next_block(s1);
    let s2 = block_appended(s1, "while_body"@);
    let exit = next_block(s2);
    let s3 = block_appended(s2, "while_exit"@);
    let s5 = positioned(op(s3, Op::Branch(header)), header);
    let (s6, holds) = expect_value(s5, p, cond, limit);
    let s8 = positioned(op(s6, Op::CondBranch(holds, body_block, exit)), body_block);
    (s3, s5, s6, s8, block_for_effect_code(s8, p, body, limit))
}

pub proof fn lemma_while_built(
    p: Program,
    s: Lowering,
    cond: ExprId,
    body: BlockView,
    limit: int,
)
    requires
        sane(p, s),
        counted_value(p, cond, limit),
        counted_block(p, body, limit),
        fits(while_code(s, p, cond, body, limit)),
    ensures
        extends(p, s, while_code(s, p, cond, body, limit)),
        ({
            let (s3, s5, s6, s8, s9) = while_states(s, p, cond, body, limit);
            let n = s.blocks.len() as int;
            let holds = expect_value(s5, p, cond, limit).1;
            let test = Op::CondBranch(holds, (n + 1) as usize, (n + 2) as usize);
            let t = while_code(s, p, cond, body, limit);
            &&& n + 3 <= usize::MAX
            &&& extends(p, s, s3)
            &&& s3.current == s.current
            &&& s3.insts == s.insts
            &&& list(s3, s.current as int) == list(s, s.current as int)
            &&& s5 == (Lowering { current: n as usize, ..op(s3, Op::Branch(n as usize)) })
            &&& list(s5, n).len() == 0
            &&& sane(p, s5)
            &&& same_scope(s, s5)
            &&& extends(p, s5, s6)
            &&& s8 == (Lowering { current: (n + 1) as usize, ..op(s6, test) })
            &&& list(s8, n + 1).len() == 0
            &&& sane(p, s8)
            &&& same_scope(s, s8)
            &&& extends(p, s8, s9)
            &&& block_code(s8, p, body, limit).0 == s9
            &&& fits(s9)
            &&& t == (Lowering {
                current: (n + 2) as usize,
                ..op(s9, Op::Branch(n as usize))
            })
            &&& list(t, n + 2).len() == 0
            &&& s5.insts.len() >= s.insts.len()
            &&& s8.insts.len() >= s6.insts.len()
        }),
    decreases limit, 10int, body, body.stmts.len() + 4,
{
    let header = next_block(s);
    let s1 = block_appended(s, "while_header"@);
    let body_block = next_block(s1);
    let s2 = block_appended(s1, "while_body"@);
    let exit = next_block(s2);
    let s3 = block_appended(s2, "while_exit"@);
    let jump = InstView::Op(Op::Branch(header));
    let s4 = emitted(s3, jump);
    let s5 = positioned(s4, header);
    let (s6, holds) = expect_value(s5, p, cond, limit);
    let test = InstView::Op(Op::CondBranch(holds, body_block, exit));
    let s7 = emitted(s6, test);
    let s8 = positioned(s7, body_block);
    let s9 = block_for_effect_code(s8, p, body, limit);
    let s10 = emitted(s9, jump);
    let t = positioned(s10, exit);
    assert(while_code(s, p, cond, body, limit) == t);
    lemma_positioned_at(s4, header);
    lemma_positioned_at(s7, body_block);
    lemma_positioned_at(s10, exit);
    lemma_count_kept(s3, jump);
    lemma_count_kept(s6, test);
    lemma_count_kept(s9, jump);
    lemma_expect_value(s5, p, cond, limit);
    lemma_block_for_effect_code(s8, p, body, limit);
    assert(s3.blocks.len() == s.blocks.len() + 3 && s3.insts == s.insts) by {
        reveal(block_appended);
    }
    lemma_three_opened(p, s, "while_header"@, "while_body"@, "while_exit"@);
    let n = s.blocks.len() as int;
    lemma_emitted_extends(p, s3, jump);
    assert(list(s4, n) == list(s3, n));
    assert(list(s4, n + 1) == list(s3, n + 1));
    assert(list(s4, n + 2) == list(s3, n + 2));
    lemma_sane_kept(p, s, s5);
    lemma_expect_built(p, s5, cond, limit);
    lemma_emitted_extends(p, s6, test);
    assert(list(s6, n + 1) == list(s5, n + 1));
    assert(list(s6, n + 2) == list(s5, n + 2));
    assert(list(s7, n + 1) == list(s6, n + 1));
    assert(list(s7, n + 2) == list(s6, n + 2));
    lemma_sane_kept(p, s, s8);
    lemma_effect_fits(p, s8, body, limit);
    lemma_block_built(p, s8, body, limit);
    lemma_emitted_extends(p, s9, jump);
    assert(list(s9, n + 2) == list(s8, n + 2));
    assert(list(s10, n + 2) == list(s9, n + 2));
    assert forall|x: int| 0 <= x < n implies #[trigger] list(t, x) == list(s4, x) by {
        assert(list(s6, x) == list(s5, x));
        assert(list(s7, x) == list(s6, x));
        assert(list(s9, x) == list(s8, x));
        assert(list(s10, x) == list(s9, x));
    }
    assert forall|x: int| 0 <= x < s.blocks.len() && x != s.current implies #[trigger] list(t, x)
        == list(s, x) by {
        assert(list(s4, x) == list(s3, x));
        assert(list(s3, x) == list(s, x));
    }
    assert(list(t, s.current as int) == list(s4, s.current as int));
    lemma_sane_kept(p, s, t);
}

/// A block run for its effect adds as much as the block.
proof fn lemma_effect_fits(p: Program, s: Lowering, block: BlockView, limit: int)
    requires
        counted_block(p, block, limit),
        fits(block_for_effect_code(s, p, block, limit)),
    ensures
        fits(block_code(s, p, block, limit).0),
{
    assert(block_result_type(p, block) != PinpType::Str) by {
        if let Some(result) = block.result {
            assert(counted(p, result, limit));
        }
    }
}

/// The states that the lowering of a `loop` goes through: with its blocks opened, in its body,
/// behind the body, and behind its test.
pub open spec fn loop_states(
    s: Lowering,
    p: Program,
    body: BlockView,
    cond: ExprId,
    limit: int,
) -> (Lowering, Lowering, Lowering, Lowering) {
    let body_block = next_block(s);
    let s1 = block_appended(s, "loop_body"@);
    let s2 = block_appended(s1, "loop_exit"@);
    let s4 = positioned(op(s2, Op::Branch(body_block)), body_block);
    let s5 = block_for_effect_code(s4, p, body, limit);
    (s2, s4, s5, expect_value(s5, p, cond, limit).0)
}

/// The jump that ends a pass of a `loop`.
pub open spec fn loop_test(until: bool, holds: Value, body_block: usize, exit: usize) -> Op {
    if until {
        Op::CondBranch(holds, exit, body_block)
    } else {
        Op::CondBranch(holds, body_block, exit)
    }
}

pub proof fn lemma_loop_built(
    p: Program,
    s: Lowering,
    body: BlockView,
    cond: ExprId,
    until: bool,
    limit: int,
)
    requires
        sane(p, s),
        counted_value(p, cond, limit),
        counted_block(p, body, limit),
        fits(loop_code(s, p, body, cond, until, limit)),
    ensures
        extends(p, s, loop_code(s, p, body, cond, until, limit)),
        ({
            let (s2, s4, s5, s6) = loop_states(s, p, body, cond, limit);
            let n = s.blocks.len() as int;
            let holds = expect_value(s5, p, cond, limit).1;
            let t = loop_code(s, p, body, cond, until, limit);
            &&& n + 2 <= usize::MAX
            &&& extends(p, s, s2)
            &&& s2.current == s.current
            &&& s2.insts == s.insts
            &&& list(s2, s.current as int) == list(s, s.current as int)
            &&& s4 == (Lowering { current: n as usize, ..op(s2, Op::Branch(n as usize)) })
            &&& list(s4, n).len() == 0
            &&& sane(p, s4)
            &&& same_scope(s, s4)
            &&& extends(p, s4, s5)
            &&& block_code(s4, p, body, limit).0 == s5
            &&& fits(s5)
            &&& extends(p, s5, s6)
            &&& t == (Lowering {
                current: (n + 1) as usize,
                ..op(s6, loop_test(until, holds, n as usize, (n + 1) as usize))
            })
            &&& list(t, n + 1).len() == 0
            &&& s4.insts.len() >= s.insts.len()
        }),
    decreases limit, 10int, body, body.stmts.len() + 4,
{
    let body_block = next_block(s);
    let s1 = block_appended(s, "loop_body"@);
    let exit = next_block(s1);
    let s2 = block_appended(s1, "loop_exit"@);
    let jump = InstView::Op(Op::Branch(body_block));
    let s3 = emitted(s2, jump);
    let s4 = positioned(s3, body_block);
    let s5 = block_for_effect_code(s4, p, body, limit);
    let (s6, holds) = expect_value(s5, p, cond, limit);
    let test = InstView::Op(loop_test(until, holds, body_block, exit));
    let s7 = emitted(s6, test);
    let t = positioned(s7, exit);
    assert(loop_code(s, p, body, cond, until, limit) == t);
    lemma_positioned_at(s3, body_block);
    lemma_positioned_at(s7, exit);
    lemma_count_kept(s2, jump);
    lemma_count_kept(s6, test);
    lemma_expect_value(s5, p, cond, limit);
    lemma_block_for_effect_code(s4, p, body, limit);
    assert(s2.blocks.len() == s.blocks.len() + 2 && s2.insts == s.insts) by {
        reveal(block_appended);
    }
    lemma_two_opened(p, s, "loop_body"@, "loop_exit"@);
    let n = s.blocks.len() as int;
    lemma_emitted_extends(p, s2, jump);
    assert(list(s3, n) == list(s2, n));
    assert(list(s3, n + 1) == list(s2, n + 1));
    lemma_sane_kept(p, s, s4);
    lemma_effect_fits(p, s4, body, limit);
    lemma_block_built(p, s4, body, limit);
    assert(list(s5, n + 1) == list(s4, n + 1));
    lemma_expect_built(p, s5, cond, limit);
    assert(list(s6, n + 1) == list(s5, n + 1));
    lemma_emitted_extends(p, s6, test);
    assert(list(s7, n + 1) == list(s6, n + 1));
    assert forall|x: int| 0 <= x < n implies #[trigger] list(t, x) == list(s3, x) by {
        assert(list(s5, x) == list(s4, x));
        assert(list(s6, x) == list(s5, x));
        assert(list(s7, x) == list(s6, x));
    }
    assert forall|x: int| 0 <= x < s.blocks.len() && x != s.current implies #[trigger] list(t, x)
        == list(s, x) by {
        assert(list(s3, x) == list(s2, x));
        assert(list(s2, x) == list(s, x));
    }
    assert(list(t, s.current as int) == list(s3, s.current as int));
    lemma_sane_kept(p, s, t);
}

/// The states that the lowering of a `for` goes through: behind its range, behind the fields of the
/// range, with the counter made, with the counter set and the direction found, with its blocks
/// opened, at its test, behind the test, in its body, and behind the body.
pub struct ForStates {
    pub ranged: Lowering,
    pub opened: Lowering,
    pub made: Lowering,
    pub set: Lowering,
    pub blocks: Lowering,
    pub at_test: Lowering,
    pub tested: Lowering,
    pub scoped: Lowering,
    pub ran: Lowering,
    pub left: Lowering,
    pub parts: RangeParts,
    pub counter: Value,
    pub going_up: Value,
    pub holds: Value,
}

pub open spec fn for_states(
    s: Lowering,
    p: Program,
    var: SymId,
    source: ExprId,
    body: BlockView,
    limit: int,
) -> ForStates {
    let (s1, range_value) = expect_value(s, p, source, limit);
    let (s2, parts) = extract_range(s1, range_value);
    let (s3, counter) = alloca_at_entry(s2, PinpType::Int);
    let s4 = op(s3, Op::Store(counter, parts.start));
    let going_up = next_value(s4);
    let s5 = op(s4, Op::IntCompare(IntPredicate::Sgt, parts.step, Value::Int(0)));
    let header = next_block(s5);
    let s6 = block_appended(s5, "for_header"@);
    let body_block = next_block(s6);
    let s7 = block_appended(s6, "for_body"@);
    let exit = next_block(s7);
    let s8 = block_appended(s7, "for_exit"@);
    let s10 = positioned(op(s8, Op::Branch(header)), header);
    let (s11, current) = load_counter(s10, counter);
    let (s12, holds) = range_continue(s11, current, parts.stop, parts.inclusive, going_up);
    let s14 = positioned(op(s12, Op::CondBranch(holds, body_block, exit)), body_block);
    let s16 = name_bound(
        scope_pushed(s14),
        var,
        (Slot { place: counter, value_type: PinpType::Int }),
    );
    let s17 = block_for_effect_code(s16, p, body, limit);
    ForStates {
        ranged: s1,
        opened: s2,
        made: s3,
        set: s5,
        blocks: s8,
        at_test: s10,
        tested: s12,
        scoped: s16,
        ran: s17,
        left: scope_popped(s17),
        parts,
        counter,
        going_up,
        holds,
    }
}

/// How the states of a `for` lie to each other.
pub open spec fn for_built(
    p: Program,
    s: Lowering,
    var: SymId,
    source: ExprId,
    body: BlockView,
    limit: int,
) -> bool {
    let f = for_states(s, p, var, source, body, limit);
    let n = f.set.blocks.len() as int;
    let t = for_code(s, p, var, source, body, limit);
    let slot = Slot { place: f.counter, value_type: PinpType::Int };
    let test = Op::CondBranch(f.holds, (n + 1) as usize, (n + 2) as usize);
    let start = op(f.made, Op::Store(f.counter, f.parts.start));
    let next = load_counter(f.left, f.counter).0;
    let sum = op(next, Op::IntBinary(IntOp::Add, next_value(f.left), f.parts.step));
    let stored = op(sum, Op::Store(f.counter, next_value(next)));
    &&& n + 3 <= usize::MAX
    &&& fits(expr_code(s, p, source, limit).0)
    &&& extends(p, s, f.ranged)
    &&& extends(p, f.ranged, f.opened)
    &&& extends(p, f.opened, f.made)
    &&& f.made.current == f.opened.current
    &&& list(f.made, f.opened.current as int) == list(f.opened, f.opened.current as int)
    &&& f.counter == Value::Inst(f.opened.insts.len() as usize)
    &&& f.opened.insts.len() < f.made.insts.len()
    &&& is_alloca(f.made.insts[f.opened.insts.len() as int])
    &&& extends(p, f.made, start)
    &&& extends(p, start, f.set)
    &&& f.going_up == next_value(start)
    &&& extends(p, f.set, f.blocks)
    &&& f.blocks.current == f.set.current
    &&& f.blocks.insts == f.set.insts
    &&& list(f.blocks, f.set.current as int) == list(f.set, f.set.current as int)
    &&& f.at_test == (Lowering { current: n as usize, ..op(f.blocks, Op::Branch(n as usize)) })
    &&& list(f.at_test, n).len() == 0
    &&& sane(p, f.at_test)
    &&& same_scope(s, f.at_test)
    &&& extends(p, f.at_test, load_counter(f.at_test, f.counter).0)
    &&& extends(p, load_counter(f.at_test, f.counter).0, f.tested)
    &&& f.tested.current == n
    &&& f.scoped == (Lowering {
        current: (n + 1) as usize,
        frames: s.frames.push(map![var.0 => slot]),
        ..op(f.tested, test)
    })
    &&& list(f.scoped, n + 1).len() == 0
    &&& sane(p, f.scoped)
    &&& extends(p, f.scoped, f.ran)
    &&& block_code(f.scoped, p, body, limit).0 == f.ran
    &&& fits(f.ran)
    &&& f.left == (Lowering { frames: s.frames, ..f.ran })
    &&& sane(p, f.left)
    &&& same_scope(s, f.left)
    &&& same_scope(s, Lowering { frames: s.frames, ..f.scoped })
    &&& extends(p, f.left, next)
    &&& extends(p, next, sum)
    &&& extends(p, sum, stored)
    &&& t == (Lowering { current: (n + 2) as usize, ..op(stored, Op::Branch(n as usize)) })
    &&& list(t, n + 2).len() == 0
    &&& extends(p, s, t)
    &&& fits(t)
    &&& f.made.insts.len() <= f.set.insts.len()
    &&& f.set.insts.len() < f.at_test.insts.len()
    &&& f.at_test.insts.len() < f.tested.insts.len()
    &&& f.tested.insts.len() < f.scoped.insts.len()
}

/// The part of a `for` up to where its body begins.
#[verifier::rlimit(60)]
proof fn lemma_for_begun(
    p: Program,
    s: Lowering,
    var: SymId,
    source: ExprId,
    body: BlockView,
    limit: int,
)
    requires
        sane(p, s),
        counted_range(p, source, limit),
        fits(for_states(s, p, var, source, body, limit).scoped),
    ensures
        ({
            let f = for_states(s, p, var, source, body, limit);
            let n = f.set.blocks.len() as int;
            let slot = Slot { place: f.counter, value_type: PinpType::Int };
            let test = Op::CondBranch(f.holds, (n + 1) as usize, (n + 2) as usize);
            let start = op(f.made, Op::Store(f.counter, f.parts.start));
            &&& n + 3 <= usize::MAX
            &&& fits(expr_code(s, p, source, limit).0)
            &&& extends(p, s, f.ranged)
            &&& extends(p, f.ranged, f.opened)
            &&& extends(p, f.opened, f.made)
            &&& extends(p, s, f.set)
            &&& f.made.current == f.opened.current
            &&& list(f.made, f.opened.current as int) == list(f.opened, f.opened.current as int)
            &&& f.counter == Value::Inst(f.opened.insts.len() as usize)
            &&& f.opened.insts.len() < f.made.insts.len()
            &&& extends(p, f.made, start)
            &&& extends(p, start, f.set)
            &&& f.going_up == next_value(start)
            &&& extends(p, f.set, f.blocks)
            &&& f.blocks.current == f.set.current
            &&& f.blocks.insts == f.set.insts
            &&& f.blocks.blocks.len() == n + 3
            &&& list(f.blocks, f.set.current as int) == list(f.set, f.set.current as int)
            &&& f.at_test == (Lowering {
                current: n as usize,
                ..op(f.blocks, Op::Branch(n as usize))
            })
            &&& list(f.at_test, n).len() == 0
            &&& sane(p, f.at_test)
            &&& same_scope(s, f.at_test)
            &&& extends(p, f.at_test, load_counter(f.at_test, f.counter).0)
            &&& extends(p, load_counter(f.at_test, f.counter).0, f.tested)
            &&& f.tested.current == n
            &&& f.tested.blocks.len() == n + 3
            &&& f.scoped == (Lowering {
                current: (n + 1) as usize,
                frames: s.frames.push(map![var.0 => slot]),
                ..op(f.tested, test)
            })
            &&& list(f.scoped, n + 1).len() == 0
            &&& list(f.scoped, n + 2).len() == 0
            &&& sane(p, f.scoped)
            &&& f.made.insts.len() <= f.set.insts.len()
            &&& f.set.insts.len() < f.at_test.insts.len()
            &&& f.at_test.insts.len() < f.tested.insts.len()
            &&& f.tested.insts.len() < f.scoped.insts.len()
            &&& begins(f.set.insts, f.scoped.insts)
            &&& begins(f.set.texts, f.scoped.texts)
            &&& begins(f.set.floats, f.scoped.floats)
            &&& is_alloca(f.made.insts[f.opened.insts.len() as int])
            &&& begins(f.made.insts, f.scoped.insts)
            &&& forall|x: int|
                0 <= x < n && x != f.set.current ==> #[trigger] list(f.scoped, x) == list(f.set, x)
            &&& begins(
                list(f.set, f.set.current as int),
                list(f.scoped, f.set.current as int),
            )
        }),
    decreases limit, 9int, p, 0int,
{
    reveal(next_value);
    let f = for_states(s, p, var, source, body, limit);
    let (s1, range_value) = expect_value(s, p, source, limit);
    let (s2, parts) = extract_range(s1, range_value);
    let (s3, counter) = alloca_at_entry(s2, PinpType::Int);
    let o4 = Op::Store(counter, parts.start);
    let s4 = op(s3, o4);
    let going_up = next_value(s4);
    let o5 = Op::IntCompare(IntPredicate::Sgt, parts.step, Value::Int(0));
    let s5 = op(s4, o5);
    let n = s5.blocks.len() as int;
    let header = next_block(s5);
    let s6 = block_appended(s5, "for_header"@);
    let body_block = next_block(s6);
    let s7 = block_appended(s6, "for_body"@);
    let exit = next_block(s7);
    let s8 = block_appended(s7, "for_exit"@);
    let jump = InstView::Op(Op::Branch(header));
    let s9 = emitted(s8, jump);
    let s10 = positioned(s9, header);
    let (s11, current) = load_counter(s10, counter);
    let (s12, holds) = range_continue(s11, current, parts.stop, parts.inclusive, going_up);
    let test = InstView::Op(Op::CondBranch(holds, body_block, exit));
    let s13 = emitted(s12, test);
    let s14 = positioned(s13, body_block);
    let s15 = scope_pushed(s14);
    let slot = Slot { place: counter, value_type: PinpType::Int };
    let s16 = name_bound(s15, var, slot);
    assert(s16.insts == s13.insts && s16.blocks == s13.blocks) by {
        reveal(name_bound);
        reveal(scope_pushed);
        reveal(positioned);
    }
    lemma_count_kept(s12, test);
    lemma_range_continue(s11, current, parts.stop, parts.inclusive, going_up);
    let load = Op::Load(IrType::I64, counter);
    lemma_count_kept(s10, InstView::Op(load));
    lemma_positioned_at(s9, header);
    lemma_positioned_at(s13, body_block);
    lemma_count_kept(s8, jump);
    assert(s8.blocks.len() == s5.blocks.len() + 3 && s8.insts == s5.insts) by {
        reveal(block_appended);
    }
    lemma_count_kept(s4, InstView::Op(o5));
    lemma_count_kept(s3, InstView::Op(o4));
    assert(s3 == entered(s2, 0, Op::Alloca(IrType::I64)));
    assert(s3.insts.len() == s2.insts.len() + 1 && s3.blocks.len() == s2.blocks.len()) by {
        reveal(entered);
    }
    lemma_extract_range(s1, range_value);
    assert(fits(s1));
    assert(fits(expr_code(s, p, source, limit).0)) by {
        reveal(failed);
    }
    lemma_range_built(p, s, source, limit);
    lemma_extract_built(p, s1, range_value);
    lemma_extends_further(p, s, s1, s2);
    lemma_entered_on(s2, 0, Op::Alloca(IrType::I64));
    lemma_sane_kept(p, s2, s3);
    lemma_extends_further(p, s, s2, s3);
    lemma_extends_same(p, s3);
    lemma_op_more(p, s3, s3, o4);
    lemma_extends_same(p, s4);
    lemma_op_more(p, s4, s4, o5);
    lemma_extends_further(p, s, s3, s4);
    lemma_extends_further(p, s, s4, s5);
    lemma_three_opened(p, s5, "for_header"@, "for_body"@, "for_exit"@);
    lemma_emitted_extends(p, s8, jump);
    assert(list(s9, n) == list(s8, n));
    assert(list(s9, n + 1) == list(s8, n + 1));
    assert(list(s9, n + 2) == list(s8, n + 2));
    lemma_sane_kept(p, s9, s10);
    lemma_extends_same(p, s10);
    lemma_op_more(p, s10, s10, load);
    lemma_range_continue_built(p, s11, current, parts.stop, parts.inclusive, going_up);
    lemma_emitted_extends(p, s12, test);
    assert forall|x: int| 0 <= x < n + 3 && x != n implies #[trigger] list(s13, x) == list(
        s9,
        x,
    ) by {
        assert(list(s11, x) == list(s10, x));
        assert(list(s12, x) == list(s11, x));
        assert(list(s13, x) == list(s12, x));
    }
    lemma_sane_kept(p, s13, s14);
    lemma_scope_pushed(p, s14);
    assert forall|k: int, sym: u32|
        0 <= k < s15.frames.len() && #[trigger] s15.frames[k].contains_key(sym) implies
            s15.frames[k][sym].place != slot.place by {
        assert(s2.frames[k].contains_key(sym));
    }
    let at = s2.insts.len() as int;
    assert(is_alloca(s3.insts[at]));
    assert(s5.insts[at] == s3.insts[at]);
    assert(s9.insts[at] == s5.insts[at]);
    assert(s12.insts[at] == s9.insts[at]);
    assert(s15.insts[at] == s12.insts[at]);
    assert(begins(s5.texts, s9.texts));
    assert(begins(s5.floats, s9.floats));
    assert(begins(s10.texts, s13.texts));
    assert(begins(s10.floats, s13.floats));
    lemma_name_bound(p, s15, var, slot);
    assert(s16.frames =~= s.frames.push(map![var.0 => slot])) by {
        assert(Map::<u32, Slot>::empty().insert(var.0, slot) =~= map![var.0 => slot]);
    }
    assert forall|x: int| 0 <= x < n + 3 implies #[trigger] list(s16, x) == list(s13, x) by {}
    assert forall|x: int| 0 <= x < n && x != s5.current implies #[trigger] list(s16, x) == list(
        s5,
        x,
    ) by {
        assert(list(s13, x) == list(s9, x));
        assert(list(s9, x) == list(s8, x));
        assert(list(s8, x) == list(s5, x));
    }
    let c = s5.current as int;
    assert(list(s16, c) == list(s13, c));
    assert(list(s13, c) == list(s9, c));
    assert(list(s8, c) == list(s5, c));
    assert(list(s16, n + 1) == list(s13, n + 1));
    assert(list(s16, n + 2) == list(s13, n + 2));
}

#[verifier::rlimit(60)]
pub proof fn lemma_for_built(
    p: Program,
    s: Lowering,
    var: SymId,
    source: ExprId,
    body: BlockView,
    limit: int,
)
    requires
        sane(p, s),
        counted_range(p, source, limit),
        counted_block(p, body, limit),
        fits(for_code(s, p, var, source, body, limit)),
    ensures
        for_built(p, s, var, source, body, limit),
    decreases limit, 10int, body, body.stmts.len() + 4,
{
    let f = for_states(s, p, var, source, body, limit);
    let n = f.set.blocks.len() as int;
    let s5 = f.set;
    let header = next_block(s5);
    let s7 = block_appended(block_appended(s5, "for_header"@), "for_body"@);
    let exit = next_block(s7);
    let s16 = f.scoped;
    let s17 = f.ran;
    let s18 = f.left;
    let load = Op::Load(IrType::I64, f.counter);
    let s19 = op(s18, load);
    let add_step = Op::IntBinary(IntOp::Add, next_value(s18), f.parts.step);
    let s20 = op(s19, add_step);
    let store = Op::Store(f.counter, next_value(s19));
    let s21 = op(s20, store);
    let jump = InstView::Op(Op::Branch(header));
    let s22 = emitted(s21, jump);
    let t = positioned(s22, exit);
    assert(for_code(s, p, var, source, body, limit) == t);
    lemma_positioned_at(s22, exit);
    lemma_count_kept(s21, jump);
    lemma_count_kept(s20, InstView::Op(store));
    lemma_count_kept(s19, InstView::Op(add_step));
    lemma_count_kept(s18, InstView::Op(load));
    assert(s18.insts == s17.insts && s18.blocks == s17.blocks) by {
        reveal(scope_popped);
    }
    lemma_block_for_effect_code(s16, p, body, limit);
    lemma_for_begun(p, s, var, source, body, limit);
    lemma_effect_fits(p, s16, body, limit);
    lemma_block_built(p, s16, body, limit);
    assert(s17.frames.drop_last() =~= s.frames);
    lemma_scope_popped(p, s, s17);
    lemma_extends_same(p, s18);
    lemma_op_more(p, s18, s18, load);
    lemma_extends_same(p, s19);
    lemma_op_more(p, s19, s19, add_step);
    lemma_extends_same(p, s20);
    lemma_op_more(p, s20, s20, store);
    lemma_emitted_extends(p, s21, jump);
    lemma_extends_further(p, s18, s19, s20);
    lemma_extends_further(p, s18, s20, s21);
    lemma_extends_further(p, s18, s21, s22);
    lemma_three_opened(p, s5, "for_header"@, "for_body"@, "for_exit"@);
    let test = Op::CondBranch(f.holds, (n + 1) as usize, (n + 2) as usize);
    lemma_count_kept(f.tested, InstView::Op(test));
    lemma_emitted_scope(f.tested, InstView::Op(test));
    assert(s16.blocks.len() == n + 3);
    assert forall|x: int| 0 <= x < n + 3 && x != n + 1 implies #[trigger] list(t, x) == list(
        s16,
        x,
    ) by {
        assert(list(s17, x) == list(s16, x));
        assert(list(s18, x) == list(s17, x));
        assert(list(s22, x) == list(s18, x));
    }
    assert(begins(s16.texts, s17.texts) && begins(s18.texts, s22.texts));
    assert(begins(s16.floats, s17.floats) && begins(s18.floats, s22.floats));
    assert(begins(s5.texts, t.texts));
    assert(begins(s5.floats, t.floats));
    assert(built_on(s5, t)) by {
        assert forall|x: int| 0 <= x < s5.blocks.len() && x != s5.current implies
            #[trigger] list(t, x) == list(s5, x) by {
            assert(list(t, x) == list(s16, x));
        }
        assert(list(t, s5.current as int) == list(s16, s5.current as int));
    }
    assert(list(t, n + 2) == list(s16, n + 2));
    lemma_sane_kept(p, s5, t);
    lemma_extends_further(p, s, s5, t);
}
} // verus!
