//! Lowered programs compute what they mean.
//!
//! The machine that runs the code of a construct comes to where the code of the construct ends, with
//! the slots and the globals holding what the names stand for there, and with the construct's number
//! where it has one. A call runs the code of its function and comes back behind the call.

use vstd::prelude::*;

use super::builder::{
    Lowering, Program, Slot, block_appended, body_begun, callable, emitted, entered, failed,
    float_added, global_slot, innermost_slot, insert_block, inside_function, local_slot, name_bound,
    next_block, next_float, next_value, op, positioned, text_added,
};
use super::emit::{
    RangeParts, alloca_at_entry, build_range, default_step, extract_range, guard_zero_step,
    load_counter, load_var, member_test, promote, range_continue, resolve_place, storable, sum,
    var_slot,
};
use super::joining::{compare_tail, lemma_float_straight, lemma_scope_freed_built, straight};
use super::texts::{
    lemma_compared_runs, lemma_concat_runs, lemma_constant_runs, lemma_discarded_runs,
    lemma_fstring_runs, lemma_own_runs, lemma_pieces_kept, lemma_pieces_more, lemma_render_runs,
    lemma_scope_freed_runs, lemma_step, lemma_str_store_runs, lemma_unmoved, pieces_held,
};
use super::building::{
    arm_states, block_end, block_states, extends, float_inst, floats_code, for_built, for_states,
    grows_on, guard_states, if_states, int_inst, ints_code, is_alloca, knows, lemma_args_built,
    lemma_arms_built, lemma_as_float_built, lemma_as_int_built, lemma_assign_built, lemma_bin_shape,
    lemma_block_built, lemma_branch_built, lemma_build_range_built, lemma_call_built,
    lemma_conversion_built, lemma_emitted_extends, lemma_emitted_scope, lemma_expect_built,
    lemma_expr_built, lemma_extends_further, lemma_extends_same, lemma_extract_built,
    lemma_float_shape, lemma_floats_built, lemma_for_built, lemma_found_whole, lemma_freed_grows,
    lemma_group_built, lemma_groups_built, lemma_grows_further, lemma_guard_built, lemma_if_built,
    lemma_ints_built, lemma_loop_built, lemma_membership_built, lemma_name_bound,
    lemma_nearest_frame, lemma_neg_built, lemma_opposite_built, lemma_owned_built,
    lemma_promote_built, lemma_range_built, lemma_range_continue_built, lemma_resolve_built,
    lemma_short_built, lemma_stmts_built, lemma_store_built, lemma_str_compare_built,
    lemma_str_concat_built, lemma_str_values_built, lemma_strings_shape, lemma_two_opened,
    lemma_values_built, lemma_while_built, loop_states, loop_test, range_states, sane, short_states,
    slots_sound, truncates, while_states,
};
use super::evaluation::{
    Env, Held, Outcome, Piece, Stretch, arms_meant, block_meant, branch_value, call_meant, carried,
    closed_again, combined, compares, comparison, contained, converted, counted, counted_arms,
    counted_block, counted_branch, counted_function, counted_number, counted_part, counted_parts,
    counted_program, counted_range, counted_stmt, counted_stmts, counted_string, counted_value,
    discarded, fitted, floating, floats_combined, frame_of, function_from, group_written,
    groups_written, implied_step, is_built_in, joined, kept_value, made, meant, name_held, name_put,
    name_read, name_written, number_meant, numbers_meant, numeric, opened, own, params_bound,
    pieces_meant, plain, range_meant, rendered, result_meant, rounds_meant, scope_released, settles,
    stmt_meant, stmts_meant, valued,
};
use super::execution::{
    Code, Floats, Machine, begins, calling, caught_up, cell, covers, element, fields, fits,
    in_bounds,
    is_slot, jumped, lemma_count_kept, lemma_covered, lemma_covers_moved, lemma_emitted_on,
    lemma_next, lemma_operand_kept, lemma_positioned_at, lemma_run_on, lemma_run_step,
    lemma_same_further, lemma_yields, list, op_performed, operand, operands, performed, picked,
    ready, returned, run, same_before, same_scope, stepped, storing, tidy, yielding,
};
use super::flow::{
    lemma_branch_code, lemma_expect_value, lemma_expr_code, lemma_owned_str_code, lemma_stmts_from,
};
use super::steady::{lemma_promote, lemma_range_continue};
use super::ir::{
    Callee, Cast, Inst, InstView, IntOp, IntPredicate, IrType, Op, RuntimeFn, Value, basic_type,
};
use super::lowering::{
    StrPart, args_code, arms_code, as_float, as_int, bin_code, block_code, block_result_type,
    branch_code, build_concat, call_code, discarded_str_freed, expect_value, expr_code, for_code,
    free_scope_strings, function_code, group_stored, groups_stored, if_code, loop_code,
    membership_code, neg_code, node_at, not_code, owned_str_code, owns_str_result, param_types,
    params_code, range_parts_code, scope_strings_freed, short_circuit_code, stmt_code, stmts_code,
    stmts_from, store_to_place, str_compare_code, str_concat_code, str_conversion_code,
    str_from_value, str_parts, str_values, type_of, values_code, while_code,
};
use super::meaning::{goes_on, lemma_on_a_step, truncated_remainder, truth, wrapped};
use crate::parser::ast::{
    BinOp, BlockView, ExprId, FuncDefView, IfArmView, NodeView, Param, PinpType, Place, RangeKind,
    StmtView, SymId, TopLevelView, UnOp, symbol_of, within,
};

verus! {

// ---------------------------------------------------------------------------
// Names and what the machine holds
// ---------------------------------------------------------------------------

/// The slots and the globals hold what the names stand for.
#[verifier::opaque]
pub open spec fn mirrored(
    frames: Seq<Map<u32, Slot>>,
    globals: Map<u32, Slot>,
    inside: bool,
    env: Env,
    slots: Map<Value, int>,
    memory: Map<Value, int>,
) -> bool {
    &&& env.inside == inside
    &&& env.frames.len() == frames.len()
    &&& forall|k: int, sym: u32|
        #![trigger frames[k].contains_key(sym)]
        #![trigger env.frames[k].contains_key(sym)]
        0 <= k < frames.len() ==> frames[k].contains_key(sym) == env.frames[k].contains_key(sym)
    &&& forall|k: int, sym: u32|
        #![trigger frames[k].contains_key(sym)]
        0 <= k < frames.len() && frames[k].contains_key(sym) ==> {
            &&& slots.contains_key(frames[k][sym].place)
            &&& slots[frames[k][sym].place] == env.frames[k][sym].value
            &&& frames[k][sym].value_type == env.frames[k][sym].kind
            &&& k > 0 ==> numeric(frames[k][sym].value_type)
        }
    &&& forall|sym: u32|
        #![trigger globals.contains_key(sym)]
        #![trigger env.globals.contains_key(sym)]
        globals.contains_key(sym) == env.globals.contains_key(sym)
    &&& forall|sym: u32|
        #![trigger globals.contains_key(sym)]
        globals.contains_key(sym) ==> {
            &&& memory.contains_key(globals[sym].place)
            &&& memory[globals[sym].place] == env.globals[sym].value
            &&& globals[sym].value_type == env.globals[sym].kind
        }
}

pub open spec fn mirrors(s: Lowering, env: Env, m: Machine) -> bool {
    &&& mirrored(s.frames, s.global_slots, s.in_function, env, m.slots, m.memory)
    &&& env.strings == m.strings
    &&& env.floats == m.floats
}

/// The code of a function stands in the code, and calls of it begin there.
pub open spec fn stands(p: Program, code: Code, func: FuncDefView, a: Lowering) -> bool {
    &&& tidy(a)
    &&& knows(p, a)
    &&& a.callables[func.name.0] < code.functions.len()
    &&& code.functions[a.callables[func.name.0] as int].entry == Some(a.blocks.len() as usize)
    &&& covers(code, function_code(a, p, func))
}

/// Every function of the program stands in the code.
#[verifier::opaque]
pub open spec fn linked(
    p: Program,
    code: Code,
    callables: Map<u32, usize>,
    globals: Map<u32, Slot>,
) -> bool {
    forall|sym: u32|
        (#[trigger] function_from(p, 0, sym)) matches Some(func) ==> exists|a: Lowering|
            a.callables == callables && a.global_slots == globals && #[trigger] stands(
                p,
                code,
                func,
                a,
            )
}

/// A machine that is about to run what is emitted next.
pub open spec fn poised(p: Program, code: Code, s: Lowering, env: Env, m: Machine) -> bool {
    &&& sane(p, s)
    &&& caught_up(s, m)
    &&& mirrors(s, env, m)
    &&& linked(p, code, s.callables, s.global_slots)
    &&& counted_program(p)
    &&& m.constants == code.floats
}

/// Some steps take the machine to where the code of `t` ends.
pub open spec fn arrives(
    code: Code,
    s: Lowering,
    m: Machine,
    t: Lowering,
    env: Env,
    r: (nat, Machine),
) -> bool {
    &&& run(code, m, r.0) == Some(r.1)
    &&& caught_up(t, r.1)
    &&& same_before(s, m, r.1)
    &&& mirrors(t, env, r.1)
}

/// A value that has been yielded is this number.
pub open spec fn held(t: Lowering, m: Machine, value: Value, x: int) -> bool {
    in_bounds(t, value) && operand(m, value) == Some(x)
}

pub proof fn lemma_held_kept(
    s: Lowering,
    t: Lowering,
    m: Machine,
    after: Machine,
    value: Value,
    x: int,
)
    requires
        held(s, m, value, x),
        s.insts.len() <= t.insts.len(),
        same_before(s, m, after),
    ensures
        held(t, after, value, x),
{
    lemma_operand_kept(s, m, after, value);
}

/// One stretch behind another.
pub proof fn lemma_arrives_further(
    code: Code,
    s: Lowering,
    m: Machine,
    t: Lowering,
    env: Env,
    r: (nat, Machine),
    u: Lowering,
    last: Env,
    q: (nat, Machine),
)
    requires
        s.insts.len() <= t.insts.len(),
        arrives(code, s, m, t, env, r),
        arrives(code, t, r.1, u, last, q),
    ensures
        arrives(code, s, m, u, last, (r.0 + q.0, q.1)),
{
    lemma_run_on(code, m, r.1, q.1, r.0, q.0);
    lemma_same_further(s, t, m, r.1, q.1);
}

/// One more instruction, which yields a number.
pub proof fn lemma_yields_more(
    code: Code,
    s: Lowering,
    m: Machine,
    t: Lowering,
    env: Env,
    r: (nat, Machine),
    inst: InstView,
    x: int,
) -> (q: (nat, Machine))
    requires
        ready(t),
        s.insts.len() <= t.insts.len(),
        arrives(code, s, m, t, env, r),
        !is_slot(inst),
        covers(code, emitted(t, inst)),
        performed(code, r.1, t.insts.len() as usize, inst) == Some(
            yielding(r.1, t.insts.len() as usize, x),
        ),
    ensures
        arrives(code, s, m, emitted(t, inst), env, q),
        held(emitted(t, inst), q.1, next_value(t), x),
        same_before(t, r.1, q.1),
        q.1.slots == r.1.slots,
        q.1.memory == r.1.memory,
        q.1.cells == r.1.cells,
        q.1.strings == r.1.strings,
{
    lemma_count_kept(t, inst);
    lemma_emitted_on(t, inst);
    lemma_yields(code, t, inst, r.1, x);
    let m1 = yielding(r.1, t.insts.len() as usize, x);
    lemma_run_step(code, m, r.1, m1, r.0);
    lemma_same_further(s, t, m, r.1, m1);
    (r.0 + 1, m1)
}

pub proof fn lemma_here(code: Code, s: Lowering, m: Machine, env: Env)
    requires
        caught_up(s, m),
        mirrors(s, env, m),
    ensures
        arrives(code, s, m, s, env, (0, m)),
{
    assert(run(code, m, 0) == Some(m));
}

pub proof fn lemma_frames_alike<A, B>(a: Seq<Map<u32, A>>, b: Seq<Map<u32, B>>, top: int, sym: u32)
    requires
        a.len() == b.len(),
        0 <= top <= a.len(),
        forall|k: int|
            0 <= k < a.len() ==> (#[trigger] a[k]).contains_key(sym) == b[k].contains_key(sym),
    ensures
        frame_of(a, top, sym) == frame_of(b, top, sym),
        -1 <= frame_of(a, top, sym) < top,
        frame_of(a, top, sym) >= 0 ==> a[frame_of(a, top, sym)].contains_key(sym)
            && b[frame_of(a, top, sym)].contains_key(sym),
    decreases top,
{
    if top > 0 {
        assert(a[top - 1].contains_key(sym) == b[top - 1].contains_key(sym));
        if !a[top - 1].contains_key(sym) {
            lemma_frames_alike(a, b, top - 1, sym);
        }
    }
}

/// Where the lowering and the language look a name up is the same.
pub proof fn lemma_looked_up(s: Lowering, env: Env, m: Machine, sym: u32)
    requires
        mirrors(s, env, m),
    ensures
        ({
            let k = frame_of(s.frames, s.frames.len() as int, sym);
            &&& env.frames.len() == s.frames.len()
            &&& env.inside == s.in_function
            &&& frame_of(env.frames, env.frames.len() as int, sym) == k
            &&& -1 <= k < s.frames.len()
            &&& local_slot(s, SymId(sym)) == if k >= 0 {
                Some(s.frames[k][sym])
            } else {
                None
            }
            &&& k >= 0 ==> {
                &&& s.frames[k].contains_key(sym)
                &&& m.slots.contains_key(s.frames[k][sym].place)
                &&& m.slots[s.frames[k][sym].place] == env.frames[k][sym].value
                &&& s.frames[k][sym].value_type == env.frames[k][sym].kind
            }
            &&& global_slot(s, SymId(sym)) == if env.globals.contains_key(sym) {
                Some(s.global_slots[sym])
            } else {
                None
            }
            &&& env.globals.contains_key(sym) ==> {
                &&& s.global_slots.contains_key(sym)
                &&& m.memory.contains_key(s.global_slots[sym].place)
                &&& m.memory[s.global_slots[sym].place] == env.globals[sym].value
                &&& s.global_slots[sym].value_type == env.globals[sym].kind
            }
        }),
{
    reveal(mirrored);
    reveal(local_slot);
    reveal(global_slot);
    let top = s.frames.len() as int;
    assert forall|k: int| 0 <= k < s.frames.len() implies (#[trigger] s.frames[k]).contains_key(sym)
        == env.frames[k].contains_key(sym) by {}
    lemma_frames_alike(s.frames, env.frames, top, sym);
    lemma_nearest_frame(s.frames, top, sym);
    assert(s.global_slots.contains_key(sym) == env.globals.contains_key(sym));
}

/// A name read is what it stands for.
pub proof fn lemma_read(s: Lowering, env: Env, m: Machine, sym_id: SymId, global: bool)
    requires
        slots_sound(s),
        mirrors(s, env, m),
        name_read(env, sym_id, global) is Some,
    ensures
        ({
            let (s1, slot) = var_slot(s, sym_id, global);
            &&& s1 == s
            &&& plain(slot.value_type)
            &&& slot.value_type == name_held(env, sym_id, global)->0.kind
            &&& cell(m, slot.place) == name_read(env, sym_id, global)
        }),
{
    lemma_looked_up(s, env, m, sym_id.0);
    lemma_found_whole(s, Place::Local(sym_id));
}

/// A name written stands for what its slot then holds.
proof fn lemma_written(s: Lowering, env: Env, m: Machine, place: Place, t: PinpType, x: int)
    requires
        slots_sound(s),
        s.insts.len() < usize::MAX,
        numeric(t),
        mirrors(s, env, m),
        name_put(env, place, t, x) is Some,
    ensures
        ({
            let (s1, slot) = resolve_place(s, place, t);
            let y = carried(m.floats, t, slot.value_type, x);
            mirrors(s1, name_put(env, place, t, x)->0, storing(m, slot.place, y))
        }),
{
    reveal(inside_function);
    reveal(next_value);
    let sym = symbol_of(place).0;
    let (s1, slot) = resolve_place(s, place, t);
    lemma_looked_up(s, env, m, sym);
    lemma_found_whole(s, place);
    let k = frame_of(s.frames, s.frames.len() as int, sym);
    if place is Local && k >= 0 {
        let kind = s.frames[k][sym].value_type;
        let value = carried(m.floats, t, kind, x);
        lemma_stored_local(s, env, m, k, sym, Held { kind, value });
    } else if env.globals.contains_key(sym) && (place is Global || !env.inside) {
        let kind = s.global_slots[sym].value_type;
        let value = carried(m.floats, t, kind, x);
        lemma_stored_global(s, env, m, sym, Held { kind, value });
    } else {
        let s2 = alloca_at_entry(s, t).0;
        assert(s2.frames == s.frames && s2.global_slots == s.global_slots && s2.in_function
            == s.in_function) by {
            reveal(entered);
        }
        assert(s1 == name_bound(s2, SymId(sym), slot));
        assert(s1.frames == s.frames.update(
            s.frames.len() - 1,
            s.frames.last().insert(sym, slot),
        ) && s1.global_slots == s.global_slots && s1.in_function == s.in_function) by {
            reveal(name_bound);
        }
        lemma_stored_new(s, s1, env, m, sym, slot, Held { kind: t, value: x });
    }
}

pub proof fn lemma_stored_local(s: Lowering, env: Env, m: Machine, k: int, sym: u32, x: Held)
    requires
        x.kind == s.frames[k][sym].value_type,
        slots_sound(s),
        mirrors(s, env, m),
        0 <= k < s.frames.len(),
        s.frames[k].contains_key(sym),
    ensures
        mirrors(
            s,
            Env { frames: env.frames.update(k, env.frames[k].insert(sym, x)), ..env },
            storing(m, s.frames[k][sym].place, x.value),
        ),
{
    reveal(mirrored);
    let env1 = Env { frames: env.frames.update(k, env.frames[k].insert(sym, x)), ..env };
    let place = s.frames[k][sym].place;
    let m1 = storing(m, place, x.value);
    assert(place is Inst);
    assert(env.frames[k].contains_key(sym));
    assert forall|j: int, name: u32|
        #![trigger s.frames[j].contains_key(name)]
        0 <= j < s.frames.len() implies s.frames[j].contains_key(name)
        == env1.frames[j].contains_key(name) by {
        assert(s.frames[j].contains_key(name) == env.frames[j].contains_key(name));
    }
    assert forall|j: int, name: u32|
        #![trigger env1.frames[j].contains_key(name)]
        0 <= j < s.frames.len() implies s.frames[j].contains_key(name)
        == env1.frames[j].contains_key(name) by {
        assert(s.frames[j].contains_key(name) == env.frames[j].contains_key(name));
    }
    assert forall|j: int, name: u32|
        #![trigger s.frames[j].contains_key(name)]
        0 <= j < s.frames.len() && s.frames[j].contains_key(name) implies {
        &&& m1.slots.contains_key(s.frames[j][name].place)
        &&& m1.slots[s.frames[j][name].place] == env1.frames[j][name].value
        &&& s.frames[j][name].value_type == env1.frames[j][name].kind
        &&& j > 0 ==> numeric(s.frames[j][name].value_type)
    } by {
        if j != k || name != sym {
            assert(s.frames[j][name].place != s.frames[k][sym].place);
        }
    }
}

pub proof fn lemma_stored_global(s: Lowering, env: Env, m: Machine, sym: u32, x: Held)
    requires
        x.kind == s.global_slots[sym].value_type,
        slots_sound(s),
        mirrors(s, env, m),
        s.global_slots.contains_key(sym),
    ensures
        mirrors(
            s,
            Env { globals: env.globals.insert(sym, x), ..env },
            storing(m, s.global_slots[sym].place, x.value),
        ),
{
    reveal(mirrored);
    let env1 = Env { globals: env.globals.insert(sym, x), ..env };
    let m1 = storing(m, s.global_slots[sym].place, x.value);
    assert(env.globals.contains_key(sym));
    assert forall|name: u32|
        #![trigger s.global_slots.contains_key(name)]
        #![trigger env1.globals.contains_key(name)]
        s.global_slots.contains_key(name) == env1.globals.contains_key(name) by {
        assert(s.global_slots.contains_key(name) == env.globals.contains_key(name));
    }
    assert forall|name: u32|
        #![trigger s.global_slots.contains_key(name)]
        s.global_slots.contains_key(name) implies {
        &&& m1.memory.contains_key(s.global_slots[name].place)
        &&& m1.memory[s.global_slots[name].place] == env1.globals[name].value
        &&& s.global_slots[name].value_type == env1.globals[name].kind
    } by {
        if name != sym {
            assert(s.global_slots[name].place != s.global_slots[sym].place);
        }
    }
}

proof fn lemma_stored_new(
    s: Lowering,
    s1: Lowering,
    env: Env,
    m: Machine,
    sym: u32,
    slot: Slot,
    x: Held,
)
    requires
        slots_sound(s),
        mirrors(s, env, m),
        x.kind == slot.value_type,
        numeric(slot.value_type) || s.frames.len() == 1,
        slot.place is Inst,
        forall|k: int, name: u32|
            0 <= k < s.frames.len() && #[trigger] s.frames[k].contains_key(name)
                ==> s.frames[k][name].place != slot.place,
        s1.frames == s.frames.update(s.frames.len() - 1, s.frames.last().insert(sym, slot)),
        s1.global_slots == s.global_slots,
        s1.in_function == s.in_function,
    ensures
        ({
            let last = env.frames.len() - 1;
            mirrors(
                s1,
                Env { frames: env.frames.update(last, env.frames[last].insert(sym, x)), ..env },
                storing(m, slot.place, x.value),
            )
        }),
{
    reveal(mirrored);
    let last = env.frames.len() - 1;
    let env1 = Env { frames: env.frames.update(last, env.frames[last].insert(sym, x)), ..env };
    let m1 = storing(m, slot.place, x.value);
    assert forall|j: int, name: u32|
        #![trigger s1.frames[j].contains_key(name)]
        #![trigger env1.frames[j].contains_key(name)]
        0 <= j < s1.frames.len() implies s1.frames[j].contains_key(name)
        == env1.frames[j].contains_key(name) by {
        assert(s.frames[j].contains_key(name) == env.frames[j].contains_key(name));
    }
    assert forall|j: int, name: u32|
        #![trigger s1.frames[j].contains_key(name)]
        0 <= j < s1.frames.len() && s1.frames[j].contains_key(name) implies {
        &&& m1.slots.contains_key(s1.frames[j][name].place)
        &&& m1.slots[s1.frames[j][name].place] == env1.frames[j][name].value
        &&& s1.frames[j][name].value_type == env1.frames[j][name].kind
        &&& j > 0 ==> numeric(s1.frames[j][name].value_type)
    } by {
        if j != last || name != sym {
            assert(s.frames[j].contains_key(name));
            assert(s.frames[j][name].place != slot.place);
        }
    }
}

/// A block that has no names yet.
pub proof fn lemma_opened(s: Lowering, env: Env, m: Machine)
    requires
        mirrors(s, env, m),
    ensures
        mirrors(Lowering { frames: s.frames.push(Map::empty()), ..s }, opened(env), m),
{
    reveal(mirrored);
    let t = Lowering { frames: s.frames.push(Map::empty()), ..s };
    let after = opened(env);
    assert forall|j: int, name: u32|
        #![trigger t.frames[j].contains_key(name)]
        #![trigger after.frames[j].contains_key(name)]
        0 <= j < t.frames.len() implies t.frames[j].contains_key(name)
        == after.frames[j].contains_key(name) by {
        if j < s.frames.len() {
            assert(s.frames[j].contains_key(name) == env.frames[j].contains_key(name));
        }
    }
    assert forall|j: int, name: u32|
        #![trigger t.frames[j].contains_key(name)]
        0 <= j < t.frames.len() && t.frames[j].contains_key(name) implies {
        &&& m.slots.contains_key(t.frames[j][name].place)
        &&& m.slots[t.frames[j][name].place] == after.frames[j][name].value
        &&& t.frames[j][name].value_type == after.frames[j][name].kind
        &&& j > 0 ==> numeric(t.frames[j][name].value_type)
    } by {
        assert(s.frames[j].contains_key(name));
    }
}

/// A block with one name, whose slot holds its number.
proof fn lemma_opened_with(s: Lowering, env: Env, m: Machine, sym: u32, slot: Slot, x: Held)
    requires
        mirrors(s, env, m),
        m.slots.contains_key(slot.place),
        m.slots[slot.place] == x.value,
        slot.value_type == x.kind,
        numeric(slot.value_type),
    ensures
        mirrors(
            Lowering { frames: s.frames.push(map![sym => slot]), ..s },
            Env { frames: env.frames.push(map![sym => x]), ..env },
            m,
        ),
{
    reveal(mirrored);
    let t = Lowering { frames: s.frames.push(map![sym => slot]), ..s };
    let after = Env { frames: env.frames.push(map![sym => x]), ..env };
    assert forall|j: int, name: u32|
        #![trigger t.frames[j].contains_key(name)]
        #![trigger after.frames[j].contains_key(name)]
        0 <= j < t.frames.len() implies t.frames[j].contains_key(name)
        == after.frames[j].contains_key(name) by {
        if j < s.frames.len() {
            assert(s.frames[j].contains_key(name) == env.frames[j].contains_key(name));
        }
    }
    assert forall|j: int, name: u32|
        #![trigger t.frames[j].contains_key(name)]
        0 <= j < t.frames.len() && t.frames[j].contains_key(name) implies {
        &&& m.slots.contains_key(t.frames[j][name].place)
        &&& m.slots[t.frames[j][name].place] == after.frames[j][name].value
        &&& t.frames[j][name].value_type == after.frames[j][name].kind
        &&& j > 0 ==> numeric(t.frames[j][name].value_type)
    } by {
        if j < s.frames.len() {
            assert(s.frames[j].contains_key(name));
        }
    }
}

/// Back out of a block.
proof fn lemma_closed(s: Lowering, t: Lowering, env: Env, m: Machine)
    requires
        mirrors(t, env, m),
        t.frames.len() > 0,
        s.frames == t.frames.drop_last(),
        s.global_slots == t.global_slots,
        s.in_function == t.in_function,
    ensures
        mirrors(s, closed_again(env), m),
{
    reveal(mirrored);
    let after = closed_again(env);
    assert forall|j: int, name: u32|
        #![trigger s.frames[j].contains_key(name)]
        #![trigger after.frames[j].contains_key(name)]
        0 <= j < s.frames.len() implies s.frames[j].contains_key(name)
        == after.frames[j].contains_key(name) by {
        assert(t.frames[j].contains_key(name) == env.frames[j].contains_key(name));
    }
    assert forall|j: int, name: u32|
        #![trigger s.frames[j].contains_key(name)]
        0 <= j < s.frames.len() && s.frames[j].contains_key(name) implies {
        &&& m.slots.contains_key(s.frames[j][name].place)
        &&& m.slots[s.frames[j][name].place] == after.frames[j][name].value
        &&& s.frames[j][name].value_type == after.frames[j][name].kind
        &&& j > 0 ==> numeric(s.frames[j][name].value_type)
    } by {
        assert(t.frames[j].contains_key(name));
    }
}

/// The names of a block hold no string, so that there is none to release.
proof fn lemma_nothing_freed(s: Lowering, env: Env, m: Machine, symbols: int, from: int)
    requires
        mirrors(s, env, m),
        s.frames.len() > 1,
    ensures
        scope_strings_freed(s, symbols, from) == s,
    decreases symbols - from,
{
    if 0 <= from < symbols {
        reveal(innermost_slot);
        reveal(mirrored);
        let sym = from as u32;
        if s.frames.last().contains_key(sym) {
            assert(s.frames[s.frames.len() - 1].contains_key(sym));
        }
        lemma_nothing_freed(s, env, m, symbols, from + 1);
    }
}

// ---------------------------------------------------------------------------
// Expressions
// ---------------------------------------------------------------------------

/// The run of a construct that has come to its end with a number.
pub open spec fn computes(
    code: Code,
    s: Lowering,
    m: Machine,
    t: Lowering,
    value: Value,
    outcome: Option<(Env, int)>,
    r: (nat, Machine),
) -> bool {
    outcome matches Some((env, x)) && arrives(code, s, m, t, env, r) && held(t, r.1, value, x)
}

pub proof fn lemma_expr_runs(
    code: Code,
    s: Lowering,
    p: Program,
    env: Env,
    expr_id: ExprId,
    limit: int,
    fuel: nat,
    m: Machine,
) -> (r: (nat, Machine))
    requires
        poised(p, code, s, env, m),
        counted(p, expr_id, limit),
        covers(code, expr_code(s, p, expr_id, limit).0),
        meant(p, env, expr_id, limit, fuel) is Some,
    ensures
        ({
            let (t, value) = expr_code(s, p, expr_id, limit);
            let outcome = meant(p, env, expr_id, limit, fuel)->0;
            &&& arrives(code, s, m, t, outcome.env, r)
            &&& outcome.number is Some <==> plain(type_of(p, expr_id))
            &&& outcome.number matches Some(x) ==> value is Some && held(t, r.1, value->0, x)
        }),
    decreases fuel, limit, 0int, p, 0int,
{
    let id = expr_id.0 as int;
    let t = type_of(p, expr_id);
    let outcome = meant(p, env, expr_id, limit, fuel)->0;
    lemma_here(code, s, m, env);
    lemma_expr_built(p, s, expr_id, limit);
    match node_at(p, expr_id) {
        NodeView::Float(digits) => {
            let n = s.floats.len() as int;
            let t1 = float_added(s, digits);
            reveal(next_float);
            lemma_float_straight(p, s, digits);
            lemma_unmoved(code, s, t1, env, m);
            assert(t1.floats[n] == digits);
            assert(code.floats[n] == t1.floats[n]);
            (0, m)
        },
        NodeView::Str(str_id) => lemma_constant_runs(
            code,
            s,
            p,
            env,
            m,
            p.ast.strings[str_id.0 as int],
        ),
        NodeView::FStr(segments) => lemma_fstring_runs(code, s, p, env, m, segments),
        NodeView::Var(sym_id) => lemma_load_runs(code, s, p, env, sym_id, false, m),
        NodeView::Global(sym_id) => lemma_load_runs(code, s, p, env, sym_id, true, m),
        NodeView::Unary(UnOp::Neg, a) => {
            assert(neg_code(s, p, t, a, id) == neg_code(s, p, t, a, id));
            if t == PinpType::Float {
                lemma_opposite_built(p, s, a, id);
                let (s1, wide) = as_float(s, p, a, id);
                let inst = InstView::Op(Op::FloatNeg(wide));
                lemma_covered(code, s1, emitted(s1, inst));
                let q = lemma_as_float_runs(code, s, p, env, a, id, fuel, m);
                lemma_yields_more(code, s, m, s1, outcome.env, q, inst, outcome.number->0)
            } else {
                lemma_neg_built(p, s, a, id);
                let (s1, wide) = as_int(s, p, a, id);
                let inst = InstView::Op(Op::IntNeg(wide));
                lemma_covered(code, s1, emitted(s1, inst));
                let q = lemma_as_int_runs(code, s, p, env, a, id, fuel, m);
                lemma_yields_more(code, s, m, s1, outcome.env, q, inst, outcome.number->0)
            }
        },
        NodeView::Unary(UnOp::Not, a) => {
            assert(not_code(s, p, a, id) == not_code(s, p, a, id));
            let (s1, value) = expect_value(s, p, a, id);
            let inst = InstView::Op(Op::Not(value));
            lemma_count_kept(s1, inst);
            lemma_expect_built(p, s, a, id);
            lemma_emitted_extends(p, s1, inst);
            lemma_covered(code, s1, emitted(s1, inst));
            let q = lemma_expect_runs(code, s, p, env, a, id, fuel, m);
            lemma_yields_more(code, s, m, s1, outcome.env, q, inst, outcome.number->0)
        },
        NodeView::Bin(operator, a, b) => {
            assert(bin_code(s, p, t, operator, a, b, id) == bin_code(s, p, t, operator, a, b, id));
            lemma_strings_shape(s, p, t, operator, a, b, id);
            if t == PinpType::Str {
                lemma_str_concat_runs(code, s, p, env, a, b, id, fuel, m)
            } else if compares(operator) && type_of(p, a) == PinpType::Str {
                lemma_str_compare_runs(code, s, p, env, operator, a, b, id, fuel, m)
            } else if floating(operator, t, type_of(p, a), type_of(p, b)) {
                assert(counted_number(p, a, id) && counted_number(p, b, id));
                lemma_float_shape(s, p, t, operator, a, b, id);
                lemma_floats_run(code, s, p, env, t, operator, a, b, id, fuel, m)
            } else if operator == BinOp::And || operator == BinOp::Or {
                lemma_short_runs(code, s, p, env, operator, a, b, id, fuel, m)
            } else if operator == BinOp::Xor {
                lemma_xor_runs(code, s, p, env, a, b, id, fuel, m)
            } else {
                assert(counted_value(p, a, id) && counted_value(p, b, id));
                lemma_bin_shape(s, p, t, operator, a, b, id);
                lemma_ints_run(code, s, p, env, operator, a, b, id, fuel, m)
            }
        },
        NodeView::Membership(a, range) => lemma_membership_runs(
            code,
            s,
            p,
            env,
            a,
            range,
            id,
            fuel,
            m,
        ),
        NodeView::Call(callee, args) => {
            let name = p.ast.names[callee.0 as int];
            assert(call_code(s, p, t, callee, args, id) == call_code(s, p, t, callee, args, id));
            assert("identity"@ != "str"@ && "identity"@ != "meminfo"@ && "str"@ != "meminfo"@) by {
                reveal_strlit("identity");
                reveal_strlit("str");
                reveal_strlit("meminfo");
                assert("identity"@.len() == 8 && "str"@.len() == 3 && "meminfo"@.len() == 7);
            }
            if name == "str"@ && args.len() == 1 {
                lemma_conversion_runs(code, s, p, env, args[0], id, fuel, m)
            } else if name == "meminfo"@ && args.len() == 0 {
                let inst = InstView::Call(Callee::Runtime(RuntimeFn::MemInfo), Seq::empty());
                lemma_step(code, s, inst, env, m, Machine { at: m.at + 1, ..m })
            } else {
                lemma_call_runs(code, s, p, env, t, callee, args, id, fuel, m)
            }
        },
        NodeView::If(arms, else_block) => lemma_if_runs(
            code,
            s,
            p,
            env,
            t,
            arms,
            else_block,
            id,
            fuel,
            m,
        ),
        _ => (0, m),
    }
}

proof fn lemma_load_runs(
    code: Code,
    s: Lowering,
    p: Program,
    env: Env,
    sym_id: SymId,
    global: bool,
    m: Machine,
) -> (r: (nat, Machine))
    requires
        poised(p, code, s, env, m),
        name_read(env, sym_id, global) is Some,
        covers(code, load_var(s, sym_id, global).0),
    ensures
        ({
            let (t, value) = load_var(s, sym_id, global);
            let x = name_read(env, sym_id, global)->0;
            arrives(code, s, m, t, env, r) && held(t, r.1, value, x)
        }),
{
    lemma_here(code, s, m, env);
    lemma_read(s, env, m, sym_id, global);
    let slot = var_slot(s, sym_id, global).1;
    let inst = InstView::Op(Op::Load(basic_type(slot.value_type)->0, slot.place));
    let x = name_read(env, sym_id, global)->0;
    lemma_emitted_scope(s, inst);
    lemma_yields_more(code, s, m, s, env, (0, m), inst, x)
}

proof fn lemma_expect_runs(
    code: Code,
    s: Lowering,
    p: Program,
    env: Env,
    expr_id: ExprId,
    limit: int,
    fuel: nat,
    m: Machine,
) -> (r: (nat, Machine))
    requires
        poised(p, code, s, env, m),
        counted_part(p, expr_id, limit),
        covers(code, expect_value(s, p, expr_id, limit).0),
        number_meant(p, env, expr_id, limit, fuel) is Some,
    ensures
        computes(
            code,
            s,
            m,
            expect_value(s, p, expr_id, limit).0,
            expect_value(s, p, expr_id, limit).1,
            number_meant(p, env, expr_id, limit, fuel),
            r,
        ),
    decreases fuel, limit, 1int, p, 0int,
{
    lemma_expect_built(p, s, expr_id, limit);
    lemma_expr_runs(code, s, p, env, expr_id, limit, fuel, m)
}

/// The conversion from one type to another, where there is one.
pub open spec fn casting(from: PinpType, to: PinpType) -> Option<Cast> {
    match (from, to) {
        (PinpType::Bool, PinpType::Int) => Some(Cast::ZeroExtend),
        (PinpType::Bool, PinpType::Float) => Some(Cast::UnsignedToFloat),
        (PinpType::Int, PinpType::Float) => Some(Cast::SignedToFloat),
        _ => None,
    }
}

/// A value brought to the type it is used at.
proof fn lemma_promote_runs(
    code: Code,
    s: Lowering,
    m: Machine,
    t: Lowering,
    env: Env,
    r: (nat, Machine),
    value: Value,
    from: PinpType,
    to: PinpType,
    x: int,
) -> (q: (nat, Machine))
    requires
        ready(t),
        s.insts.len() <= t.insts.len(),
        arrives(code, s, m, t, env, r),
        held(t, r.1, value, x),
        plain(from),
        plain(to),
        covers(code, promote(t, value, from, to).0),
    ensures
        arrives(code, s, m, promote(t, value, from, to).0, env, q),
        held(
            promote(t, value, from, to).0,
            q.1,
            promote(t, value, from, to).1,
            carried(m.floats, from, to, x),
        ),
        same_before(t, r.1, q.1),
{
    if let Some(cast) = casting(from, to) {
        let inst = InstView::Op(Op::Cast(cast, value));
        lemma_emitted_scope(t, inst);
        lemma_yields_more(code, s, m, t, env, r, inst, carried(m.floats, from, to, x))
    } else {
        r
    }
}

proof fn lemma_as_float_runs(
    code: Code,
    s: Lowering,
    p: Program,
    env: Env,
    expr_id: ExprId,
    limit: int,
    fuel: nat,
    m: Machine,
) -> (r: (nat, Machine))
    requires
        poised(p, code, s, env, m),
        counted_number(p, expr_id, limit),
        covers(code, as_float(s, p, expr_id, limit).0),
        number_meant(p, env, expr_id, limit, fuel) is Some,
    ensures
        ({
            let (after, x) = number_meant(p, env, expr_id, limit, fuel)->0;
            computes(
                code,
                s,
                m,
                as_float(s, p, expr_id, limit).0,
                as_float(s, p, expr_id, limit).1,
                Some((after, carried(m.floats, type_of(p, expr_id), PinpType::Float, x))),
                r,
            )
        }),
    decreases fuel, limit, 2int, p, 0int,
{
    let (after, x) = number_meant(p, env, expr_id, limit, fuel)->0;
    let (s1, value) = expect_value(s, p, expr_id, limit);
    let from = type_of(p, expr_id);
    lemma_as_float_built(p, s, expr_id, limit);
    lemma_covered(code, s1, as_float(s, p, expr_id, limit).0);
    let q = lemma_expect_runs(code, s, p, env, expr_id, limit, fuel, m);
    lemma_promote_runs(code, s, m, s1, after, q, value, from, PinpType::Float, x)
}

/// An operation on two floats, the left one first.
#[verifier::rlimit(40)]
proof fn lemma_floats_run(
    code: Code,
    s: Lowering,
    p: Program,
    env: Env,
    t: PinpType,
    operator: BinOp,
    a: ExprId,
    b: ExprId,
    limit: int,
    fuel: nat,
    m: Machine,
) -> (r: (nat, Machine))
    requires
        poised(p, code, s, env, m),
        counted_number(p, a, limit),
        counted_number(p, b, limit),
        floating(operator, t, type_of(p, a), type_of(p, b)),
        covers(code, floats_code(s, p, t, operator, a, b, limit).0),
        number_meant(p, env, a, limit, fuel) matches Some((after, x)) && number_meant(
            p,
            after,
            b,
            limit,
            fuel,
        ) is Some,
    ensures
        ({
            let (after, x) = number_meant(p, env, a, limit, fuel)->0;
            let (last, y) = number_meant(p, after, b, limit, fuel)->0;
            computes(
                code,
                s,
                m,
                floats_code(s, p, t, operator, a, b, limit).0,
                floats_code(s, p, t, operator, a, b, limit).1,
                Some(
                    (
                        last,
                        floats_combined(
                            last.floats,
                            operator,
                            t,
                            carried(last.floats, type_of(p, a), PinpType::Float, x),
                            carried(last.floats, type_of(p, b), PinpType::Float, y),
                        ),
                    ),
                ),
                r,
            )
        }),
    decreases fuel, limit, 3int, p, 0int,
{
    let (after, x) = number_meant(p, env, a, limit, fuel)->0;
    let (last, y) = number_meant(p, after, b, limit, fuel)->0;
    let (s1, left) = as_float(s, p, a, limit);
    let (s2, right) = as_float(s1, p, b, limit);
    let inst = float_inst(operator, left, right);
    let s3 = emitted(s2, inst);
    let f = carried(m.floats, type_of(p, a), PinpType::Float, x);
    let g = carried(m.floats, type_of(p, b), PinpType::Float, y);
    lemma_floats_built(p, s, t, operator, a, b, limit);
    lemma_covered(code, s3, floats_code(s, p, t, operator, a, b, limit).0);
    lemma_covered(code, s2, s3);
    lemma_covered(code, s1, s2);
    let q = lemma_as_float_runs(code, s, p, env, a, limit, fuel, m);
    let u = lemma_as_float_runs(code, s1, p, after, b, limit, fuel, q.1);
    lemma_held_kept(s1, s2, q.1, u.1, left, f);
    lemma_arrives_further(code, s, m, s1, after, q, s2, last, u);
    let w = (q.0 + u.0, u.1);
    assert(last.floats == m.floats);
    lemma_float_step(code, w.1, s2.insts.len() as usize, operator, t, left, right, f, g);
    if truncates(operator, t) {
        let raised = (m.floats.power)(f, g);
        let v = lemma_yields_more(code, s, m, s2, last, w, inst, raised);
        let cast = InstView::Op(Op::Cast(Cast::FloatToSigned, next_value(s2)));
        lemma_yields_more(code, s, m, s3, last, v, cast, (m.floats.to_int)(raised))
    } else {
        let number = floats_combined(m.floats, operator, t, f, g);
        lemma_yields_more(code, s, m, s2, last, w, inst, number)
    }
}

/// The instruction behind an operation on two floats.
proof fn lemma_float_step(
    code: Code,
    m: Machine,
    id: usize,
    operator: BinOp,
    t: PinpType,
    left: Value,
    right: Value,
    f: int,
    g: int,
)
    requires
        floating(operator, t, PinpType::Float, PinpType::Float),
        operand(m, left) == Some(f),
        operand(m, right) == Some(g),
    ensures
        performed(code, m, id, float_inst(operator, left, right)) == Some(
            yielding(
                m,
                id,
                if truncates(operator, t) {
                    (m.floats.power)(f, g)
                } else {
                    floats_combined(m.floats, operator, t, f, g)
                },
            ),
        ),
{
    assert(seq![left, right][0] == left && seq![left, right][1] == right);
}

proof fn lemma_as_int_runs(
    code: Code,
    s: Lowering,
    p: Program,
    env: Env,
    expr_id: ExprId,
    limit: int,
    fuel: nat,
    m: Machine,
) -> (r: (nat, Machine))
    requires
        poised(p, code, s, env, m),
        counted_value(p, expr_id, limit),
        covers(code, as_int(s, p, expr_id, limit).0),
        number_meant(p, env, expr_id, limit, fuel) is Some,
    ensures
        computes(
            code,
            s,
            m,
            as_int(s, p, expr_id, limit).0,
            as_int(s, p, expr_id, limit).1,
            number_meant(p, env, expr_id, limit, fuel),
            r,
        ),
    decreases fuel, limit, 2int, p, 0int,
{
    let (after, x) = number_meant(p, env, expr_id, limit, fuel)->0;
    let (s1, value) = expect_value(s, p, expr_id, limit);
    lemma_as_int_built(p, s, expr_id, limit);
    lemma_covered(code, s1, as_int(s, p, expr_id, limit).0);
    let q = lemma_expect_runs(code, s, p, env, expr_id, limit, fuel, m);
    if type_of(p, expr_id) == PinpType::Bool {
        let inst = InstView::Op(Op::Cast(Cast::ZeroExtend, value));
        lemma_yields_more(code, s, m, s1, after, q, inst, x)
    } else {
        q
    }
}

proof fn lemma_ints_run(
    code: Code,
    s: Lowering,
    p: Program,
    env: Env,
    operator: BinOp,
    a: ExprId,
    b: ExprId,
    limit: int,
    fuel: nat,
    m: Machine,
) -> (r: (nat, Machine))
    requires
        poised(p, code, s, env, m),
        counted_value(p, a, limit),
        counted_value(p, b, limit),
        covers(code, ints_code(s, p, operator, a, b, limit).0),
        operator != BinOp::Xor,
        number_meant(p, env, a, limit, fuel) matches Some((after, x)) && number_meant(
            p,
            after,
            b,
            limit,
            fuel,
        ) matches Some((last, y)) && combined(operator, x, y) is Some,
    ensures
        ({
            let (after, x) = number_meant(p, env, a, limit, fuel)->0;
            let (last, y) = number_meant(p, after, b, limit, fuel)->0;
            computes(
                code,
                s,
                m,
                ints_code(s, p, operator, a, b, limit).0,
                ints_code(s, p, operator, a, b, limit).1,
                Some((last, combined(operator, x, y)->0)),
                r,
            )
        }),
    decreases fuel, limit, 3int, p, 0int,
{
    let (after, x) = number_meant(p, env, a, limit, fuel)->0;
    let (last, y) = number_meant(p, after, b, limit, fuel)->0;
    let number = combined(operator, x, y)->0;
    let (s1, left) = as_int(s, p, a, limit);
    let (s2, right) = as_int(s1, p, b, limit);
    let inst = int_inst(operator, left, right);
    lemma_ints_built(p, s, operator, a, b, limit);
    lemma_covered(code, s2, emitted(s2, inst));
    lemma_covered(code, s1, s2);
    let q = lemma_as_int_runs(code, s, p, env, a, limit, fuel, m);
    let u = lemma_as_int_runs(code, s1, p, after, b, limit, fuel, q.1);
    lemma_held_kept(s1, s2, q.1, u.1, left, x);
    lemma_arrives_further(code, s, m, s1, after, q, s2, last, u);
    lemma_yields_more(code, s, m, s2, last, (q.0 + u.0, u.1), inst, number)
}

proof fn lemma_xor_runs(
    code: Code,
    s: Lowering,
    p: Program,
    env: Env,
    a: ExprId,
    b: ExprId,
    limit: int,
    fuel: nat,
    m: Machine,
) -> (r: (nat, Machine))
    requires
        poised(p, code, s, env, m),
        counted_value(p, a, limit),
        counted_value(p, b, limit),
        ({
            let (s1, left) = expect_value(s, p, a, limit);
            let (s2, right) = expect_value(s1, p, b, limit);
            covers(code, op(s2, Op::IntBinary(IntOp::Xor, left, right)))
        }),
        number_meant(p, env, a, limit, fuel) matches Some((after, x)) && number_meant(
            p,
            after,
            b,
            limit,
            fuel,
        ) is Some,
    ensures
        ({
            let (s1, left) = expect_value(s, p, a, limit);
            let (s2, right) = expect_value(s1, p, b, limit);
            let (after, x) = number_meant(p, env, a, limit, fuel)->0;
            let (last, y) = number_meant(p, after, b, limit, fuel)->0;
            computes(
                code,
                s,
                m,
                op(s2, Op::IntBinary(IntOp::Xor, left, right)),
                next_value(s2),
                Some((last, truth((x != 0) != (y != 0)))),
                r,
            )
        }),
    decreases fuel, limit, 3int, p, 0int,
{
    let (after, x) = number_meant(p, env, a, limit, fuel)->0;
    let (last, y) = number_meant(p, after, b, limit, fuel)->0;
    let number = truth((x != 0) != (y != 0));
    let (s1, left) = expect_value(s, p, a, limit);
    let (s2, right) = expect_value(s1, p, b, limit);
    let inst = InstView::Op(Op::IntBinary(IntOp::Xor, left, right));
    lemma_expect_value(s1, p, b, limit);
    lemma_count_kept(s2, inst);
    lemma_expect_built(p, s, a, limit);
    lemma_expect_built(p, s1, b, limit);
    lemma_emitted_extends(p, s2, inst);
    lemma_covered(code, s2, emitted(s2, inst));
    lemma_covered(code, s1, s2);
    let q = lemma_expect_runs(code, s, p, env, a, limit, fuel, m);
    let u = lemma_expect_runs(code, s1, p, after, b, limit, fuel, q.1);
    lemma_held_kept(s1, s2, q.1, u.1, left, x);
    lemma_arrives_further(code, s, m, s1, after, q, s2, last, u);
    lemma_yields_more(code, s, m, s2, last, (q.0 + u.0, u.1), inst, number)
}

/// A jump to a block of which nothing has run.
proof fn lemma_jumps(
    code: Code,
    s: Lowering,
    m: Machine,
    t: Lowering,
    env: Env,
    r: (nat, Machine),
    inst: InstView,
    block: usize,
)
    requires
        ready(t),
        s.insts.len() <= t.insts.len(),
        arrives(code, s, m, t, env, r),
        !is_slot(inst),
        covers(code, emitted(t, inst)),
        performed(code, r.1, t.insts.len() as usize, inst) == Some(jumped(r.1, block)),
    ensures
        run(code, m, r.0 + 1) == Some(jumped(r.1, block)),
        same_before(s, m, jumped(r.1, block)),
        same_before(t, r.1, jumped(r.1, block)),
        mirrors(t, env, jumped(r.1, block)),
{
    lemma_next(code, t, inst, r.1);
    lemma_run_step(code, m, r.1, jumped(r.1, block), r.0);
}

#[verifier::rlimit(100)]
#[verifier::spinoff_prover]
proof fn lemma_short_runs(
    code: Code,
    s: Lowering,
    p: Program,
    env: Env,
    operator: BinOp,
    a: ExprId,
    b: ExprId,
    limit: int,
    fuel: nat,
    m: Machine,
) -> (r: (nat, Machine))
    requires
        poised(p, code, s, env, m),
        counted_value(p, a, limit),
        counted_value(p, b, limit),
        operator == BinOp::And || operator == BinOp::Or,
        covers(code, short_circuit_code(s, p, operator, a, b, limit).0),
        number_meant(p, env, a, limit, fuel) matches Some((after, x)) && (settles(operator, x)
            || number_meant(p, after, b, limit, fuel) is Some),
    ensures
        ({
            let (after, x) = number_meant(p, env, a, limit, fuel)->0;
            computes(
                code,
                s,
                m,
                short_circuit_code(s, p, operator, a, b, limit).0,
                short_circuit_code(s, p, operator, a, b, limit).1,
                if settles(operator, x) {
                    Some((after, truth(x != 0)))
                } else {
                    number_meant(p, after, b, limit, fuel)
                },
                r,
            )
        }),
    decreases fuel, limit, 3int, p, 0int,
{
    reveal(insert_block);
    let (after, x) = number_meant(p, env, a, limit, fuel)->0;
    lemma_short_built(p, s, operator, a, b, limit);
    let (s1, s3, s7, s8, s10) = short_states(s, p, operator, a, b, limit);
    let left = expect_value(s, p, a, limit).1;
    let rhs_block = next_block(s1);
    let merge = next_block(block_appended(s1, "sc_rhs"@));
    let test = InstView::Op(
        if operator == BinOp::And {
            Op::CondBranch(left, rhs_block, merge)
        } else {
            Op::CondBranch(left, merge, rhs_block)
        },
    );
    let s4 = emitted(s3, test);
    let right = expect_value(s7, p, b, limit).1;
    let jump = InstView::Op(Op::Branch(merge));
    let s9 = emitted(s8, jump);
    let incomings = seq![
        (Value::Bool(operator == BinOp::Or), insert_block(s1)),
        (right, insert_block(s8)),
    ];
    let phi = InstView::Phi(IrType::I1, incomings);
    let t = emitted(s10, phi);
    assert(short_circuit_code(s, p, operator, a, b, limit) == (t, next_value(s10)));
    lemma_count_kept(s10, phi);
    lemma_emitted_extends(p, s10, phi);
    lemma_covered(code, s10, t);
    lemma_positioned_at(s4, rhs_block);
    lemma_positioned_at(s9, merge);
    lemma_covers_moved(code, s9, s10);
    lemma_count_kept(s8, jump);
    lemma_emitted_extends(p, s8, jump);
    lemma_covered(code, s8, s9);
    lemma_covered(code, s7, s8);
    lemma_covers_moved(code, s4, s7);
    lemma_count_kept(s3, test);
    lemma_emitted_extends(p, s3, test);
    lemma_covered(code, s3, s4);
    lemma_covered(code, s1, s3);
    let q = lemma_expect_runs(code, s, p, env, a, limit, fuel, m);
    assert(arrives(code, s, m, s3, after, q));
    if settles(operator, x) {
        lemma_jumps(code, s, m, s3, after, q, test, merge);
        let m2 = jumped(q.1, merge);
        assert(incomings[0].1 == m2.came_from);
        assert(picked(incomings, m2.came_from, 0) == Some(incomings[0].0));
        assert(arrives(code, s, m, s10, after, (q.0 + 1, m2)));
        lemma_yields_more(
            code,
            s,
            m,
            s10,
            after,
            (q.0 + 1, m2),
            phi,
            truth(operator == BinOp::Or),
        )
    } else {
        let (last, y) = number_meant(p, after, b, limit, fuel)->0;
        lemma_jumps(code, s, m, s3, after, q, test, rhs_block);
        let m2 = jumped(q.1, rhs_block);
        assert(arrives(code, s, m, s7, after, (q.0 + 1, m2)));
        let u = lemma_expect_runs(code, s7, p, after, b, limit, fuel, m2);
        lemma_arrives_further(code, s, m, s7, after, (q.0 + 1, m2), s8, last, u);
        let w = (q.0 + 1 + u.0, u.1);
        lemma_jumps(code, s, m, s8, last, w, jump, merge);
        let m4 = jumped(u.1, merge);
        assert(incomings[0].1 != m4.came_from);
        assert(incomings[1].1 == m4.came_from);
        assert(picked(incomings, m4.came_from, 1) == Some(incomings[1].0));
        assert(picked(incomings, m4.came_from, 0) == Some(incomings[1].0));
        assert(arrives(code, s, m, s10, last, (w.0 + 1, m4)));
        lemma_yields_more(code, s, m, s10, last, (w.0 + 1, m4), phi, y)
    }
}

/// What several values are.
pub open spec fn all_held(s: Lowering, m: Machine, values: Seq<Value>, numbers: Seq<int>) -> bool {
    &&& values.len() == numbers.len()
    &&& forall|k: int|
        #![trigger values[k]]
        0 <= k < values.len() ==> held(s, m, values[k], numbers[k])
}

proof fn lemma_all_kept(
    s: Lowering,
    t: Lowering,
    m: Machine,
    after: Machine,
    values: Seq<Value>,
    numbers: Seq<int>,
)
    requires
        all_held(s, m, values, numbers),
        same_before(s, m, after),
        s.insts.len() <= t.insts.len(),
    ensures
        all_held(t, after, values, numbers),
{
    assert forall|k: int| #![trigger values[k]] 0 <= k < values.len() implies held(
        t,
        after,
        values[k],
        numbers[k],
    ) by {
        lemma_held_kept(s, t, m, after, values[k], numbers[k]);
    }
}

/// Several values are the numbers they are.
proof fn lemma_operands(s: Lowering, m: Machine, values: Seq<Value>, numbers: Seq<int>, from: int)
    requires
        all_held(s, m, values, numbers),
        0 <= from <= values.len(),
    ensures
        operands(m, values, from) == Some(numbers.skip(from)),
    decreases values.len() - from,
{
    if from < values.len() {
        lemma_operands(s, m, values, numbers, from + 1);
        assert(held(s, m, values[from], numbers[from]));
        assert(numbers.skip(from) =~= seq![numbers[from]] + numbers.skip(from + 1));
    } else {
        assert(numbers.skip(from) =~= Seq::<int>::empty());
    }
}

/// Numbers brought to the types of parameters.
pub open spec fn brought(
    p: Program,
    floats: Floats,
    args: Seq<ExprId>,
    params: Seq<PinpType>,
    numbers: Seq<int>,
) -> Seq<int> {
    Seq::new(
        numbers.len(),
        |k: int| carried(floats, type_of(p, args[k]), params[k], numbers[k]),
    )
}

proof fn lemma_args_run(
    code: Code,
    s: Lowering,
    p: Program,
    env: Env,
    args: Seq<ExprId>,
    params: Seq<PinpType>,
    done: Seq<Value>,
    numbers: Seq<int>,
    limit: int,
    fuel: nat,
    m: Machine,
) -> (r: (nat, Machine))
    requires
        poised(p, code, s, env, m),
        counted_parts(p, args, limit),
        params.len() == args.len(),
        forall|k: int| 0 <= k < params.len() ==> plain(#[trigger] params[k]),
        done.len() <= args.len(),
        all_held(s, m, done, brought(p, m.floats, args, params, numbers)),
        covers(code, args_code(s, p, args, params, done, limit).0),
        numbers_meant(p, env, args, numbers, limit, fuel) is Some,
    ensures
        ({
            let (t, values) = args_code(s, p, args, params, done, limit);
            let (last, found) = numbers_meant(p, env, args, numbers, limit, fuel)->0;
            &&& arrives(code, s, m, t, last, r)
            &&& all_held(t, r.1, values, brought(p, m.floats, args, params, found))
        }),
    decreases fuel, limit, 3int, p, args.len() - done.len(),
{
    lemma_here(code, s, m, env);
    if done.len() < args.len() {
        let arg = args[done.len() as int];
        assert(counted_part(p, arg, limit));
        let text = type_of(p, arg) == PinpType::Str;
        let (s1, raw) = if text {
            owned_str_code(s, p, arg, limit)
        } else {
            expect_value(s, p, arg, limit)
        };
        let to = params[done.len() as int];
        let (s2, value) = promote(s1, raw, type_of(p, arg), to);
        let t = args_code(s2, p, args, params, done.push(value), limit).0;
        let (mid, y) = number_meant(p, env, arg, limit, fuel)->0;
        let (after, x) = own(mid, y, !text || owns_str_result(p, arg))->0;
        let (last, found) = numbers_meant(p, env, args, numbers, limit, fuel)->0;
        assert(numbers_meant(p, env, args, numbers, limit, fuel) == numbers_meant(
            p,
            after,
            args,
            numbers.push(x),
            limit,
            fuel,
        ));
        lemma_args_built(p, s, args, params, done, limit);
        lemma_covered(code, s2, t);
        lemma_covered(code, s1, s2);
        let q = if text {
            lemma_owned_runs(code, s, p, env, arg, limit, fuel, m)
        } else {
            lemma_expect_runs(code, s, p, env, arg, limit, fuel, m)
        };
        let u = lemma_promote_runs(code, s, m, s1, after, q, raw, type_of(p, arg), to, x);
        let before = brought(p, m.floats, args, params, numbers);
        let more = brought(p, m.floats, args, params, numbers.push(x));
        lemma_all_kept(s, s2, m, u.1, done, before);
        assert(more =~= before.push(carried(m.floats, type_of(p, arg), to, x)));
        assert(all_held(s2, u.1, done.push(value), more));
        let w = lemma_args_run(
            code,
            s2,
            p,
            after,
            args,
            params,
            done.push(value),
            numbers.push(x),
            limit,
            fuel,
            u.1,
        );
        lemma_arrives_further(code, s, m, s2, after, u, t, last, w);
        (u.0 + w.0, w.1)
    } else {
        (0, m)
    }
}

// ---------------------------------------------------------------------------
// Functions
// ---------------------------------------------------------------------------

/// A function that is found is one of the program.
pub proof fn lemma_function_found(p: Program, from: int, sym: u32)
    requires
        counted_program(p),
        0 <= from,
        function_from(p, from, sym) is Some,
    ensures
        counted_function(p, function_from(p, from, sym)->0),
        function_from(p, from, sym)->0.name.0 == sym,
    decreases p.ast.top_level.len() - from,
{
    match p.ast.top_level[from] {
        TopLevelView::Func(func) if func.name.0 == sym => {},
        _ => {
            lemma_function_found(p, from + 1, sym);
        },
    }
}

proof fn lemma_params_grow(s: Lowering, params: Seq<Param>, from: int)
    ensures
        s.insts.len() <= params_code(s, params, from).insts.len(),
        0 <= from <= params.len() ==> s.insts.len() + 2 * (params.len() - from) <= params_code(
            s,
            params,
            from,
        ).insts.len(),
        s.blocks.len() == params_code(s, params, from).blocks.len(),
    decreases params.len() - from,
{
    if 0 <= from < params.len() {
        reveal(failed);
        reveal(name_bound);
        let param = params[from];
        let (s1, ir_type) = storable(s, param.param_type);
        let slot = next_value(s1);
        let s2 = op(s1, Op::Alloca(ir_type));
        let s3 = op(s2, Op::Store(slot, Value::Param(from as usize)));
        let s4 = name_bound(s3, param.name, Slot { place: slot, value_type: param.param_type });
        lemma_count_kept(s1, InstView::Op(Op::Alloca(ir_type)));
        lemma_count_kept(s2, InstView::Op(Op::Store(slot, Value::Param(from as usize))));
        lemma_params_grow(s4, params, from + 1);
    }
}

/// The states that a parameter's code goes through: with its slot made, with its number stored, and
/// with its name bound.
pub open spec fn param_states(s: Lowering, params: Seq<Param>, from: int) -> (
    Lowering,
    Lowering,
    Lowering,
) {
    let slot = next_value(s);
    let s2 = op(s, Op::Alloca(basic_type(params[from].param_type)->0));
    let s3 = op(s2, Op::Store(slot, Value::Param(from as usize)));
    (
        s2,
        s3,
        name_bound(
            s3,
            params[from].name,
            Slot { place: slot, value_type: params[from].param_type },
        ),
    )
}

proof fn lemma_params_built(p: Program, s: Lowering, params: Seq<Param>, from: int)
    requires
        sane(p, s),
        0 <= from,
        forall|k: int| 0 <= k < params.len() ==> plain((#[trigger] params[k]).param_type),
        fits(params_code(s, params, from)),
    ensures
        grows_on(p, s, params_code(s, params, from)),
        from < params.len() ==> {
            let (s2, s3, s4) = param_states(s, params, from);
            let place = Value::Inst(s.insts.len() as usize);
            let slot = Slot { place, value_type: params[from].param_type };
            &&& params_code(s, params, from) == params_code(s4, params, from + 1)
            &&& next_value(s) == place
            &&& s.insts.len() < usize::MAX
            &&& extends(p, s, s2)
            &&& s2.current == s.current
            &&& list(s2, s.current as int) == list(s, s.current as int)
            &&& extends(p, s2, s3)
            &&& s3 == op(s2, Op::Store(place, Value::Param(from as usize)))
            &&& s4 == (Lowering {
                frames: s.frames.update(
                    s.frames.len() - 1,
                    s.frames.last().insert(params[from].name.0, slot),
                ),
                ..s3
            })
            &&& sane(p, s4)
            &&& grows_on(p, s4, params_code(s4, params, from + 1))
        },
    decreases params.len() - from,
{
    lemma_extends_same(p, s);
    if from < params.len() {
        reveal(next_value);
        let param = params[from];
        assert(plain(param.param_type));
        let (s2, s3, s4) = param_states(s, params, from);
        let make = Op::Alloca(basic_type(param.param_type)->0);
        let place = next_value(s);
        let slot = Slot { place, value_type: param.param_type };
        let store = Op::Store(place, Value::Param(from as usize));
        let t = params_code(s4, params, from + 1);
        assert(params_code(s, params, from) == t);
        lemma_params_grow(s4, params, from + 1);
        assert(s4.insts == s3.insts && s4.blocks == s3.blocks) by {
            reveal(name_bound);
        }
        lemma_count_kept(s, InstView::Op(make));
        lemma_count_kept(s2, InstView::Op(store));
        lemma_emitted_extends(p, s, InstView::Op(make));
        lemma_emitted_extends(p, s2, InstView::Op(store));
        lemma_extends_further(p, s, s2, s3);
        assert forall|k: int, sym: u32|
            0 <= k < s3.frames.len() && #[trigger] s3.frames[k].contains_key(sym) implies
                s3.frames[k][sym].place != slot.place by {
            assert(s.frames[k].contains_key(sym));
        }
        lemma_name_bound(p, s3, param.name, slot);
        lemma_params_built(p, s4, params, from + 1);
        lemma_grows_further(p, s, s3, s4);
        lemma_grows_further(p, s, s4, t);
    }
}

proof fn lemma_params_run(
    code: Code,
    s: Lowering,
    p: Program,
    env: Env,
    params: Seq<Param>,
    numbers: Seq<int>,
    from: int,
    m: Machine,
) -> (r: (nat, Machine))
    requires
        sane(p, s),
        caught_up(s, m),
        mirrors(s, env, m),
        0 <= from <= params.len(),
        params.len() == numbers.len(),
        params.len() <= usize::MAX,
        m.params == numbers,
        env.frames == seq![params_bound(params, numbers, from)],
        forall|k: int| 0 <= k < params.len() ==> plain((#[trigger] params[k]).param_type),
        covers(code, params_code(s, params, from)),
    ensures
        arrives(
            code,
            s,
            m,
            params_code(s, params, from),
            Env { frames: seq![params_bound(params, numbers, params.len() as int)], ..env },
            r,
        ),
    decreases params.len() - from,
{
    lemma_here(code, s, m, env);
    if from < params.len() {
        lemma_looked_up(s, env, m, params[from].name.0);
        lemma_params_built(p, s, params, from);
        let (s2, s3, s4) = param_states(s, params, from);
        let t = params_code(s4, params, from + 1);
        let place = Value::Inst(s.insts.len() as usize);
        let slot = Slot { place, value_type: params[from].param_type };
        let store = InstView::Op(Op::Store(place, Value::Param(from as usize)));
        let x = numbers[from];
        let sym = params[from].name.0;
        lemma_covered(code, s4, t);
        lemma_covers_moved(code, s3, s4);
        lemma_next(code, s2, store, m);
        let m1 = storing(m, place, x);
        assert(s.insts.len() < s3.insts.len() && is_alloca(s3.insts[s.insts.len() as int])) by {
            reveal(emitted);
        }
        lemma_name_slot(code, p, s3, place);
        assert(stepped(code, m) == Some(m1));
        assert(run(code, m, 0) == Some(m));
        lemma_run_step(code, m, m, m1, 0);
        assert forall|k: int, name: u32|
            0 <= k < s.frames.len() && #[trigger] s.frames[k].contains_key(name) implies
                s.frames[k][name].place != slot.place by {}
        let bound = Held { kind: slot.value_type, value: x };
        lemma_stored_new(s, s4, env, m, sym, slot, bound);
        let env1 = Env { frames: seq![params_bound(params, numbers, from + 1)], ..env };
        assert(env1.frames =~= env.frames.update(0, env.frames[0].insert(sym, bound)));
        lemma_emitted_extends(p, s2, store);
        assert(caught_up(s4, m1)) by {
            assert(list(s4, s4.current as int) == list(s3, s3.current as int));
        }
        assert(arrives(code, s, m, s4, env1, (1, m1)));
        let q = lemma_params_run(code, s4, p, env1, params, numbers, from + 1, m1);
        let last = Env {
            frames: seq![params_bound(params, numbers, params.len() as int)],
            ..env
        };
        lemma_arrives_further(code, s, m, s4, env1, (1, m1), t, last, q);
        (1 + q.0, q.1)
    } else {
        (0, m)
    }
}

/// The states that the lowering of a function goes through: where its body begins, behind its
/// parameters, behind its statements, behind its result, and before it returns; and the value it
/// returns.
pub struct FunctionStates {
    pub begun: Lowering,
    pub bound: Lowering,
    pub ran: Lowering,
    pub valued: Lowering,
    pub ended: Lowering,
    pub value: Value,
}

pub open spec fn function_states(a: Lowering, p: Program, func: FuncDefView) -> FunctionStates {
    let limit = p.ast.nodes.len() as int;
    let result = func.body.result->0;
    let begun = body_begun(a, a.callables[func.name.0], true);
    let bound = params_code(begun, func.params, 0);
    let ran = stmts_code(bound, p, func.body, limit);
    let symbols = p.ast.names.len() as int;
    if func.return_type == PinpType::Void {
        let valued = expr_code(ran, p, result, limit).0;
        FunctionStates {
            begun,
            bound,
            ran,
            valued,
            ended: scope_strings_freed(valued, symbols, 0),
            value: Value::Int(0),
        }
    } else {
        let (s1, raw) = result_value(ran, p, func.return_type, result, limit);
        let (valued, value) = promote(s1, raw, type_of(p, result), func.return_type);
        FunctionStates {
            begun,
            bound,
            ran,
            valued,
            ended: scope_strings_freed(valued, symbols, 0),
            value,
        }
    }
}

/// The result of a function.
pub open spec fn result_value(
    s: Lowering,
    p: Program,
    return_type: PinpType,
    result: ExprId,
    limit: int,
) -> (Lowering, Value) {
    if return_type == PinpType::Str {
        owned_str_code(s, p, result, limit)
    } else {
        expect_value(s, p, result, limit)
    }
}

/// How a function returns.
pub open spec fn returning(func: FuncDefView, f: FunctionStates) -> Op {
    if func.return_type == PinpType::Void {
        Op::ReturnVoid
    } else {
        Op::Return(f.value)
    }
}

/// The body of a function begins in a block of its own.
pub proof fn lemma_begun(p: Program, s: Lowering, a: Lowering, f: usize, inside: bool)
    requires
        tidy(a),
        knows(p, a),
        a.blocks.len() < usize::MAX,
        slots_sound(s),
        a.global_slots == s.global_slots,
    ensures
        ({
            let t = body_begun(a, f, inside);
            &&& sane(p, t)
            &&& t.current == a.blocks.len()
            &&& t.blocks.len() == a.blocks.len() + 1
            &&& t.insts == a.insts
            &&& t.texts == a.texts
            &&& t.floats == a.floats
            &&& list(t, a.blocks.len() as int).len() == 0
            &&& forall|b: int| 0 <= b < a.blocks.len() ==> #[trigger] list(t, b) == list(a, b)
            &&& t.frames == seq![Map::<u32, Slot>::empty()]
            &&& t.global_slots == a.global_slots
            &&& t.callables == a.callables
            &&& t.in_function == inside
            &&& t.functions.len() == a.functions.len()
            &&& tidy(t)
        }),
{
    reveal(body_begun);
    let t = body_begun(a, f, inside);
    assert forall|b: int, k: int|
        0 <= b < t.blocks.len() && 0 <= k < t.blocks[b].insts.len() implies
            #[trigger] t.blocks[b].insts[k] < t.insts.len() by {
        assert(t.blocks[b].insts[k] == a.blocks[b].insts[k]);
    }
    assert forall|b: int| 0 <= b < a.blocks.len() implies #[trigger] list(t, b) == list(a, b) by {}
    assert(forall|k: int, sym: u32| 0 <= k < t.frames.len() ==> !t.frames[k].contains_key(sym));
}

pub proof fn lemma_function_built(p: Program, s: Lowering, a: Lowering, func: FuncDefView)
    requires
        tidy(a),
        knows(p, a),
        slots_sound(s),
        a.global_slots == s.global_slots,
        function_from(p, 0, func.name.0) == Some(func),
        counted_function(p, func),
        fits(function_code(a, p, func)),
    ensures
        ({
            let f = function_states(a, p, func);
            let t = function_code(a, p, func);
            &&& t == op(f.ended, returning(func, f))
            &&& a.blocks.len() < usize::MAX
            &&& func.params.len() <= usize::MAX
            &&& sane(p, f.begun)
            &&& grows_on(p, f.begun, f.bound)
            &&& grows_on(p, f.bound, f.ran)
            &&& extends(p, f.ran, f.valued)
            &&& straight(p, f.valued, f.ended)
            &&& grows_on(p, f.ended, t)
            &&& grows_on(p, f.begun, t)
            &&& func.return_type != PinpType::Void ==> {
                let s1 = result_value(
                    f.ran,
                    p,
                    func.return_type,
                    func.body.result->0,
                    p.ast.nodes.len() as int,
                ).0;
                extends(p, f.ran, s1) && extends(p, s1, f.valued)
            }
        }),
{
    let limit = p.ast.nodes.len() as int;
    let result = func.body.result->0;
    let f = function_states(a, p, func);
    let t = function_code(a, p, func);
    let symbols = p.ast.names.len() as int;
    let ret = InstView::Op(returning(func, f));
    assert(counted(p, result, limit));
    assert(callable(a, func.name) == Some(a.callables[func.name.0])) by {
        reveal(callable);
    }
    assert(t == emitted(f.ended, ret));
    lemma_count_kept(f.ended, ret);
    lemma_freed_grows(f.valued, symbols, 0);
    if func.return_type == PinpType::Void {
        lemma_expr_code(f.ran, p, result, limit);
    } else {
        let (s1, raw) = result_value(f.ran, p, func.return_type, result, limit);
        lemma_promote(s1, raw, type_of(p, result), func.return_type);
        lemma_expect_value(f.ran, p, result, limit);
        lemma_owned_str_code(f.ran, p, result, limit);
    }
    lemma_stmts_from(f.bound, p, func.body, 0, limit);
    lemma_params_grow(f.begun, func.params, 0);
    assert(f.begun.blocks.len() == a.blocks.len() + 1) by {
        reveal(body_begun);
    }
    lemma_begun(p, s, a, a.callables[func.name.0], true);
    lemma_params_built(p, f.begun, func.params, 0);
    lemma_stmts_built(p, f.bound, func.body, 0, limit);
    if func.return_type == PinpType::Void {
        lemma_expr_built(p, f.ran, result, limit);
    } else {
        let (s1, raw) = result_value(f.ran, p, func.return_type, result, limit);
        if func.return_type == PinpType::Str {
            lemma_owned_built(p, f.ran, result, limit);
        } else {
            lemma_expect_built(p, f.ran, result, limit);
        }
        lemma_promote_built(p, s1, raw, type_of(p, result), func.return_type);
        lemma_extends_further(p, f.ran, s1, f.valued);
    }
    lemma_scope_freed_built(p, f.valued, symbols, 0);
    lemma_emitted_extends(p, f.ended, ret);
    lemma_grows_further(p, f.begun, f.bound, f.ran);
    lemma_grows_further(p, f.begun, f.ran, f.valued);
    lemma_grows_further(p, f.begun, f.valued, f.ended);
    lemma_grows_further(p, f.begun, f.ended, t);
}

/// What the names stand for where a function begins.
pub open spec fn entering(env: Env) -> Env {
    Env {
        globals: env.globals,
        frames: seq![Map::empty()],
        inside: true,
        strings: env.strings,
        floats: env.floats,
    }
}

/// A function runs from where it begins to where it returns.
proof fn lemma_body_runs(
    code: Code,
    s: Lowering,
    a: Lowering,
    p: Program,
    env: Env,
    func: FuncDefView,
    numbers: Seq<int>,
    fuel: nat,
    m: Machine,
) -> (r: (nat, Machine))
    requires
        slots_sound(s),
        a.global_slots == s.global_slots,
        linked(p, code, a.callables, a.global_slots),
        counted_program(p),
        function_from(p, 0, func.name.0) == Some(func),
        stands(p, code, func, a),
        numbers.len() == func.params.len(),
        func.params.len() <= usize::MAX,
        m.params == numbers,
        m.block == a.blocks.len(),
        m.at == 0,
        mirrored(
            seq![Map::empty()],
            a.global_slots,
            true,
            entering(env),
            m.slots,
            m.memory,
        ),
        env.strings == m.strings,
        env.floats == m.floats,
        m.constants == code.floats,
        call_meant(p, env, func, numbers, fuel) is Some,
    ensures
        ({
            let f = function_states(a, p, func);
            let outcome = call_meant(p, env, func, numbers, fuel)->0;
            &&& run(code, m, r.0) == Some(r.1)
            &&& caught_up(f.ended, r.1)
            &&& ready(f.ended)
            &&& r.1.callers == m.callers
            &&& r.1.floats == m.floats
            &&& r.1.constants == m.constants
            &&& covers(code, op(f.ended, returning(func, f)))
            &&& exists|last: Env| #[trigger] mirrors(f.ended, last, r.1) && outcome.env == (Env {
                globals: last.globals,
                strings: last.strings,
                ..env
            })
            &&& f.ended.global_slots == a.global_slots
            &&& outcome.number is Some <==> func.return_type != PinpType::Void
            &&& outcome.number matches Some(x) ==> operand(r.1, f.value) == Some(x)
        }),
    decreases fuel, p.ast.nodes.len() as int, 12int, p, 0int,
{
    let limit = p.ast.nodes.len() as int;
    let result = func.body.result->0;
    let f = function_states(a, p, func);
    let t = function_code(a, p, func);
    lemma_function_found(p, 0, func.name.0);
    lemma_function_built(p, s, a, func);
    lemma_begun(p, s, a, a.callables[func.name.0], true);
    lemma_covered(code, f.ended, t);
    lemma_covered(code, f.valued, f.ended);
    lemma_covered(code, f.ran, f.valued);
    lemma_covered(code, f.bound, f.ran);
    let start = entering(env);
    let bound = Env {
        globals: env.globals,
        frames: seq![params_bound(func.params, numbers, func.params.len() as int)],
        inside: true,
        strings: env.strings,
        floats: env.floats,
    };
    assert(start.frames =~= seq![params_bound(func.params, numbers, 0)]);
    let q = lemma_params_run(code, f.begun, p, start, func.params, numbers, 0, m);
    let after = stmts_meant(p, bound, func.body, 0, limit, fuel)->0;
    let u = lemma_stmts_run(code, f.bound, p, bound, func.body, 0, limit, fuel, q.1);
    lemma_arrives_further(code, f.begun, m, f.bound, bound, q, f.ran, after, u);
    let outcome = meant(p, after, result, limit, fuel)->0;
    assert(counted(p, result, limit));
    let symbols = p.ast.names.len() as int;
    let ended = result_meant(p, func, result, outcome)->0;
    let left = scope_released(ended.env, symbols, 0)->0;
    let g = if func.return_type == PinpType::Void {
        let w = lemma_expr_runs(code, f.ran, p, after, result, limit, fuel, u.1);
        lemma_arrives_further(
            code,
            f.begun,
            m,
            f.ran,
            after,
            (q.0 + u.0, u.1),
            f.valued,
            outcome.env,
            w,
        );
        (q.0 + u.0 + w.0, w.1)
    } else {
        let (s1, raw) = result_value(f.ran, p, func.return_type, result, limit);
        lemma_covered(code, s1, f.valued);
        let w = if func.return_type == PinpType::Str {
            lemma_owned_runs(code, f.ran, p, after, result, limit, fuel, u.1)
        } else {
            lemma_expect_runs(code, f.ran, p, after, result, limit, fuel, u.1)
        };
        lemma_arrives_further(
            code,
            f.begun,
            m,
            f.ran,
            after,
            (q.0 + u.0, u.1),
            s1,
            ended.env,
            w,
        );
        lemma_promote_runs(
            code,
            f.begun,
            m,
            s1,
            ended.env,
            (q.0 + u.0 + w.0, w.1),
            raw,
            type_of(p, result),
            func.return_type,
            if func.return_type == PinpType::Str {
                ended.number->0
            } else {
                outcome.number->0
            },
        )
    };
    assert(arrives(code, f.begun, m, f.valued, ended.env, g));
    let v = lemma_scope_freed_runs(code, f.valued, p, ended.env, symbols, 0, g.1);
    lemma_arrives_further(code, f.begun, m, f.valued, ended.env, g, f.ended, left, v);
    if func.return_type != PinpType::Void {
        lemma_held_kept(f.valued, f.ended, g.1, v.1, f.value, ended.number->0);
    }
    assert(mirrors(f.ended, left, v.1));
    (g.0 + v.0, v.1)
}

/// What a function did to the globals stays behind its call, and the caller's slots are its own.
pub proof fn lemma_joined(s: Lowering, t: Lowering, env: Env, last: Env, m: Machine, after: Machine)
    requires
        mirrors(s, env, m),
        mirrors(t, last, after),
        t.global_slots == s.global_slots,
    ensures
        mirrored(
            s.frames,
            s.global_slots,
            s.in_function,
            Env { globals: last.globals, strings: last.strings, ..env },
            m.slots,
            after.memory,
        ),
{
    reveal(mirrored);
}

/// A function knows the globals, and no name yet.
proof fn lemma_entering(s: Lowering, env: Env, m: Machine)
    requires
        mirrors(s, env, m),
    ensures
        mirrored(
            seq![Map::empty()],
            s.global_slots,
            true,
            entering(env),
            Map::empty(),
            m.memory,
        ),
{
    reveal(mirrored);
}

#[verifier::rlimit(60)]
proof fn lemma_call_runs(
    code: Code,
    s: Lowering,
    p: Program,
    env: Env,
    t: PinpType,
    callee: SymId,
    args: Seq<ExprId>,
    limit: int,
    fuel: nat,
    m: Machine,
) -> (r: (nat, Machine))
    requires
        poised(p, code, s, env, m),
        !is_built_in(p.ast.names[callee.0 as int]),
        counted_parts(p, args, limit),
        function_from(p, 0, callee.0) matches Some(func) && func.params.len() == args.len()
            && func.return_type == t,
        covers(code, call_code(s, p, t, callee, args, limit).0),
        fuel > 0,
        numbers_meant(p, env, args, Seq::empty(), limit, fuel) matches Some((after, numbers))
            && call_meant(
            p,
            after,
            function_from(p, 0, callee.0)->0,
            fitted(p, after.floats, args, function_from(p, 0, callee.0)->0.params, numbers),
            (fuel - 1) as nat,
        ) is Some,
    ensures
        ({
            let (after, numbers) = numbers_meant(p, env, args, Seq::empty(), limit, fuel)->0;
            let outcome = call_meant(
                p,
                after,
                function_from(p, 0, callee.0)->0,
                fitted(p, after.floats, args, function_from(p, 0, callee.0)->0.params, numbers),
                (fuel - 1) as nat,
            )->0;
            let (u, value) = call_code(s, p, t, callee, args, limit);
            &&& arrives(code, s, m, u, outcome.env, r)
            &&& outcome.number is Some <==> t != PinpType::Void
            &&& outcome.number matches Some(x) ==> value is Some && held(u, r.1, value->0, x)
        }),
    decreases fuel, limit, 5int, p, 0int,
{
    let (after, plain_numbers) = numbers_meant(p, env, args, Seq::empty(), limit, fuel)->0;
    let func = function_from(p, 0, callee.0)->0;
    let numbers = fitted(p, after.floats, args, func.params, plain_numbers);
    let outcome = call_meant(p, after, func, numbers, (fuel - 1) as nat)->0;
    let f = s.callables[callee.0];
    let params = param_types(func.params);
    let (s1, values) = args_code(s, p, args, params, Seq::empty(), limit);
    let call = InstView::Call(Callee::Function(f), values);
    let u = emitted(s1, call);
    lemma_function_found(p, 0, callee.0);
    lemma_call_built(p, s, t, callee, args, limit);
    lemma_covered(code, s1, u);
    assert forall|k: int| 0 <= k < params.len() implies plain(#[trigger] params[k]) by {
        assert(plain(func.params[k].param_type));
    }
    let none = brought(p, m.floats, args, params, Seq::empty());
    assert(none =~= Seq::empty());
    assert(all_held(s, m, Seq::empty(), none));
    let q = lemma_args_run(
        code,
        s,
        p,
        env,
        args,
        params,
        Seq::empty(),
        Seq::empty(),
        limit,
        fuel,
        m,
    );
    let m1 = q.1;
    assert(brought(p, m.floats, args, params, plain_numbers) =~= numbers);
    lemma_operands(s1, m1, values, numbers, 0);
    assert(numbers.skip(0) =~= numbers);
    lemma_count_kept(s1, call);
    lemma_emitted_extends(p, s1, call);
    lemma_next(code, s1, call, m1);
    let a = choose|a: Lowering|
        a.callables == s.callables && a.global_slots == s.global_slots && #[trigger] stands(
            p,
            code,
            func,
            a,
        );
    assert(a.callables == s.callables && a.global_slots == s.global_slots && stands(
        p,
        code,
        func,
        a,
    )) by {
        reveal(linked);
    }
    let entry = a.blocks.len() as usize;
    let m2 = calling(m1, entry, numbers);
    assert(stepped(code, m1) == Some(m2));
    lemma_run_step(code, m, m1, m2, q.0);
    lemma_entering(s1, after, m1);
    lemma_function_built(p, s, a, func);
    let w = lemma_body_runs(code, s, a, p, after, func, numbers, (fuel - 1) as nat, m2);
    let states = function_states(a, p, func);
    let ret = InstView::Op(returning(func, states));
    lemma_run_on(code, m, m2, w.1, q.0 + 1, w.0);
    lemma_next(code, states.ended, ret, w.1);
    let m3 = returned(code, w.1, outcome.number)->0;
    assert(w.1.callers.last() == m2.callers.last());
    assert(w.1.callers.drop_last() =~= m1.callers);
    assert(stepped(code, w.1) == Some(m3));
    lemma_run_step(code, m, w.1, m3, q.0 + 1 + w.0);
    let last = choose|last: Env| #[trigger] mirrors(states.ended, last, w.1) && outcome.env == (Env {
        globals: last.globals,
        strings: last.strings,
        ..after
    });
    lemma_joined(s1, states.ended, after, last, m1, w.1);
    assert(m3.slots == m1.slots && m3.memory == w.1.memory);
    assert(m3.floats == m1.floats && m3.constants == m1.constants);
    assert(mirrors(u, outcome.env, m3));
    assert(same_before(s1, m1, m3));
    lemma_same_further(s, s1, m, m1, m3);
    (q.0 + 1 + w.0 + 1, m3)
}

// ---------------------------------------------------------------------------
// Ranges
// ---------------------------------------------------------------------------

/// One more instruction with fixed operands, which yields a number.
proof fn lemma_op_runs(
    code: Code,
    p: Program,
    s: Lowering,
    m: Machine,
    t: Lowering,
    env: Env,
    r: (nat, Machine),
    o: Op,
    x: int,
) -> (q: (nat, Machine))
    requires
        sane(p, t),
        s.insts.len() <= t.insts.len(),
        arrives(code, s, m, t, env, r),
        !(o is Alloca),
        covers(code, op(t, o)),
        op_performed(code, r.1, t.insts.len() as usize, o) == Some(
            yielding(r.1, t.insts.len() as usize, x),
        ),
    ensures
        arrives(code, s, m, op(t, o), env, q),
        held(op(t, o), q.1, next_value(t), x),
        same_before(t, r.1, q.1),
        s.insts.len() <= op(t, o).insts.len(),
        q.1.slots == r.1.slots,
        q.1.memory == r.1.memory,
        q.1.strings == r.1.strings,
{
    lemma_emitted_scope(t, InstView::Op(o));
    lemma_count_kept(t, InstView::Op(o));
    lemma_yields_more(code, s, m, t, env, r, InstView::Op(o), x)
}

/// What is covered behind an instruction is covered before it.
proof fn lemma_op_covered(code: Code, p: Program, t: Lowering, o: Op)
    requires
        sane(p, t),
        covers(code, op(t, o)),
    ensures
        covers(code, t),
        extends(p, t, op(t, o)),
{
    lemma_emitted_extends(p, t, InstView::Op(o));
    lemma_covered(code, t, op(t, o));
}

proof fn lemma_continue_runs(
    code: Code,
    p: Program,
    s: Lowering,
    m: Machine,
    t: Lowering,
    env: Env,
    r: (nat, Machine),
    values: (Value, Value, Value, Value),
    current: int,
    stop: int,
    inclusive: bool,
    up: bool,
) -> (q: (nat, Machine))
    requires
        sane(p, t),
        s.insts.len() <= t.insts.len(),
        arrives(code, s, m, t, env, r),
        held(t, r.1, values.0, current),
        held(t, r.1, values.1, stop),
        held(t, r.1, values.2, truth(inclusive)),
        held(t, r.1, values.3, truth(up)),
        covers(code, range_continue(t, values.0, values.1, values.2, values.3).0),
    ensures
        ({
            let (u, value) = range_continue(t, values.0, values.1, values.2, values.3);
            &&& arrives(code, s, m, u, env, q)
            &&& held(u, q.1, value, truth(goes_on(current, stop, inclusive, up)))
            &&& same_before(t, r.1, q.1)
            &&& extends(p, t, u)
            &&& q.1.slots == r.1.slots
            &&& q.1.memory == r.1.memory
            &&& q.1.strings == r.1.strings
        }),
{
    let o1 = Op::IntCompare(IntPredicate::Sle, values.0, values.1);
    let s1 = op(t, o1);
    let o2 = Op::IntCompare(IntPredicate::Slt, values.0, values.1);
    let s2 = op(s1, o2);
    let o3 = Op::IntCompare(IntPredicate::Sge, values.0, values.1);
    let s3 = op(s2, o3);
    let o4 = Op::IntCompare(IntPredicate::Sgt, values.0, values.1);
    let s4 = op(s3, o4);
    let o5 = Op::Select(values.2, next_value(t), next_value(s1));
    let s5 = op(s4, o5);
    let o6 = Op::Select(values.2, next_value(s2), next_value(s3));
    let s6 = op(s5, o6);
    let o7 = Op::Select(values.3, next_value(s4), next_value(s5));
    let s7 = op(s6, o7);
    assert(range_continue(t, values.0, values.1, values.2, values.3) == (s7, next_value(s6)));
    lemma_range_continue_built(p, t, values.0, values.1, values.2, values.3);
    lemma_count_kept(t, InstView::Op(o1));
    lemma_count_kept(s1, InstView::Op(o2));
    lemma_count_kept(s2, InstView::Op(o3));
    lemma_count_kept(s3, InstView::Op(o4));
    lemma_count_kept(s4, InstView::Op(o5));
    lemma_count_kept(s5, InstView::Op(o6));
    lemma_count_kept(s6, InstView::Op(o7));
    lemma_emitted_extends(p, t, InstView::Op(o1));
    lemma_emitted_extends(p, s1, InstView::Op(o2));
    lemma_emitted_extends(p, s2, InstView::Op(o3));
    lemma_emitted_extends(p, s3, InstView::Op(o4));
    lemma_emitted_extends(p, s4, InstView::Op(o5));
    lemma_emitted_extends(p, s5, InstView::Op(o6));
    lemma_op_covered(code, p, s6, o7);
    lemma_op_covered(code, p, s5, o6);
    lemma_op_covered(code, p, s4, o5);
    lemma_op_covered(code, p, s3, o4);
    lemma_op_covered(code, p, s2, o3);
    lemma_op_covered(code, p, s1, o2);
    let r1 = lemma_op_runs(code, p, s, m, t, env, r, o1, truth(current <= stop));
    lemma_held_kept(t, s1, r.1, r1.1, values.0, current);
    lemma_held_kept(t, s1, r.1, r1.1, values.1, stop);
    lemma_held_kept(t, s1, r.1, r1.1, values.2, truth(inclusive));
    lemma_held_kept(t, s1, r.1, r1.1, values.3, truth(up));
    let r2 = lemma_op_runs(code, p, s, m, s1, env, r1, o2, truth(current < stop));
    lemma_held_kept(s1, s2, r1.1, r2.1, values.0, current);
    lemma_held_kept(s1, s2, r1.1, r2.1, values.1, stop);
    lemma_held_kept(s1, s2, r1.1, r2.1, values.2, truth(inclusive));
    lemma_held_kept(s1, s2, r1.1, r2.1, values.3, truth(up));
    lemma_held_kept(s1, s2, r1.1, r2.1, next_value(t), truth(current <= stop));
    let r3 = lemma_op_runs(code, p, s, m, s2, env, r2, o3, truth(current >= stop));
    lemma_held_kept(s2, s3, r2.1, r3.1, values.0, current);
    lemma_held_kept(s2, s3, r2.1, r3.1, values.1, stop);
    lemma_held_kept(s2, s3, r2.1, r3.1, values.2, truth(inclusive));
    lemma_held_kept(s2, s3, r2.1, r3.1, values.3, truth(up));
    lemma_held_kept(s2, s3, r2.1, r3.1, next_value(t), truth(current <= stop));
    lemma_held_kept(s2, s3, r2.1, r3.1, next_value(s1), truth(current < stop));
    let r4 = lemma_op_runs(code, p, s, m, s3, env, r3, o4, truth(current > stop));
    lemma_held_kept(s3, s4, r3.1, r4.1, values.2, truth(inclusive));
    lemma_held_kept(s3, s4, r3.1, r4.1, values.3, truth(up));
    lemma_held_kept(s3, s4, r3.1, r4.1, next_value(t), truth(current <= stop));
    lemma_held_kept(s3, s4, r3.1, r4.1, next_value(s1), truth(current < stop));
    lemma_held_kept(s3, s4, r3.1, r4.1, next_value(s2), truth(current >= stop));
    let rising = truth(goes_on(current, stop, inclusive, true));
    let falling = truth(goes_on(current, stop, inclusive, false));
    let r5 = lemma_op_runs(code, p, s, m, s4, env, r4, o5, rising);
    lemma_held_kept(s4, s5, r4.1, r5.1, values.2, truth(inclusive));
    lemma_held_kept(s4, s5, r4.1, r5.1, values.3, truth(up));
    lemma_held_kept(s4, s5, r4.1, r5.1, next_value(s2), truth(current >= stop));
    lemma_held_kept(s4, s5, r4.1, r5.1, next_value(s3), truth(current > stop));
    let r6 = lemma_op_runs(code, p, s, m, s5, env, r5, o6, falling);
    lemma_held_kept(s5, s6, r5.1, r6.1, values.3, truth(up));
    lemma_held_kept(s5, s6, r5.1, r6.1, next_value(s4), rising);
    let r7 = lemma_op_runs(
        code,
        p,
        s,
        m,
        s6,
        env,
        r6,
        o7,
        truth(goes_on(current, stop, inclusive, up)),
    );
    lemma_same_further(t, s1, r.1, r1.1, r2.1);
    lemma_same_further(t, s2, r.1, r2.1, r3.1);
    lemma_same_further(t, s3, r.1, r3.1, r4.1);
    lemma_same_further(t, s4, r.1, r4.1, r5.1);
    lemma_same_further(t, s5, r.1, r5.1, r6.1);
    lemma_same_further(t, s6, r.1, r6.1, r7.1);
    r7
}

/// A range value with these fields.
pub open spec fn range_held(t: Lowering, m: Machine, value: Value, range: Stretch) -> bool {
    &&& in_bounds(t, value)
    &&& fields(m, value) == Some(
        seq![range.start, range.stop, range.step, truth(range.inclusive)],
    )
}

/// The fields of a range, taken out of it.
pub open spec fn parts_held(t: Lowering, m: Machine, parts: RangeParts, range: Stretch) -> bool {
    &&& held(t, m, parts.start, range.start)
    &&& held(t, m, parts.stop, range.stop)
    &&& held(t, m, parts.step, range.step)
    &&& held(t, m, parts.inclusive, truth(range.inclusive))
}

proof fn lemma_parts_kept(
    s: Lowering,
    t: Lowering,
    m: Machine,
    after: Machine,
    parts: RangeParts,
    range: Stretch,
)
    requires
        parts_held(s, m, parts, range),
        s.insts.len() <= t.insts.len(),
        same_before(s, m, after),
    ensures
        parts_held(t, after, parts, range),
{
    lemma_held_kept(s, t, m, after, parts.start, range.start);
    lemma_held_kept(s, t, m, after, parts.stop, range.stop);
    lemma_held_kept(s, t, m, after, parts.step, range.step);
    lemma_held_kept(s, t, m, after, parts.inclusive, truth(range.inclusive));
}

proof fn lemma_extract_runs(
    code: Code,
    p: Program,
    s: Lowering,
    m: Machine,
    t: Lowering,
    env: Env,
    r: (nat, Machine),
    value: Value,
    range: Stretch,
) -> (q: (nat, Machine))
    requires
        sane(p, t),
        s.insts.len() <= t.insts.len(),
        arrives(code, s, m, t, env, r),
        range_held(t, r.1, value, range),
        covers(code, extract_range(t, value).0),
    ensures
        ({
            let (u, parts) = extract_range(t, value);
            &&& arrives(code, s, m, u, env, q)
            &&& parts_held(u, q.1, parts, range)
            &&& same_before(t, r.1, q.1)
            &&& extends(p, t, u)
        }),
{
    let o1 = Op::ExtractField(value, 0);
    let s1 = op(t, o1);
    let o2 = Op::ExtractField(value, 1);
    let s2 = op(s1, o2);
    let o3 = Op::ExtractField(value, 2);
    let s3 = op(s2, o3);
    let o4 = Op::ExtractField(value, 3);
    let s4 = op(s3, o4);
    lemma_extract_built(p, t, value);
    lemma_count_kept(t, InstView::Op(o1));
    lemma_count_kept(s1, InstView::Op(o2));
    lemma_count_kept(s2, InstView::Op(o3));
    lemma_count_kept(s3, InstView::Op(o4));
    lemma_emitted_extends(p, t, InstView::Op(o1));
    lemma_emitted_extends(p, s1, InstView::Op(o2));
    lemma_emitted_extends(p, s2, InstView::Op(o3));
    lemma_op_covered(code, p, s3, o4);
    lemma_op_covered(code, p, s2, o3);
    lemma_op_covered(code, p, s1, o2);
    let f = seq![range.start, range.stop, range.step, truth(range.inclusive)];
    let r1 = lemma_op_runs(code, p, s, m, t, env, r, o1, range.start);
    assert(fields(r1.1, value) == Some(f));
    let r2 = lemma_op_runs(code, p, s, m, s1, env, r1, o2, range.stop);
    assert(fields(r2.1, value) == Some(f));
    lemma_held_kept(s1, s2, r1.1, r2.1, next_value(t), range.start);
    let r3 = lemma_op_runs(code, p, s, m, s2, env, r2, o3, range.step);
    assert(fields(r3.1, value) == Some(f));
    lemma_held_kept(s2, s3, r2.1, r3.1, next_value(t), range.start);
    lemma_held_kept(s2, s3, r2.1, r3.1, next_value(s1), range.stop);
    let r4 = lemma_op_runs(code, p, s, m, s3, env, r3, o4, truth(range.inclusive));
    lemma_held_kept(s3, s4, r3.1, r4.1, next_value(t), range.start);
    lemma_held_kept(s3, s4, r3.1, r4.1, next_value(s1), range.stop);
    lemma_held_kept(s3, s4, r3.1, r4.1, next_value(s2), range.step);
    lemma_same_further(t, s1, r.1, r1.1, r2.1);
    lemma_same_further(t, s2, r.1, r2.1, r3.1);
    lemma_same_further(t, s3, r.1, r3.1, r4.1);
    r4
}

/// One more field of a range value.
proof fn lemma_field_runs(
    code: Code,
    p: Program,
    s: Lowering,
    m: Machine,
    t: Lowering,
    env: Env,
    r: (nat, Machine),
    base: Value,
    value: Value,
    field: u32,
    x: int,
) -> (q: (nat, Machine))
    requires
        sane(p, t),
        s.insts.len() <= t.insts.len(),
        arrives(code, s, m, t, env, r),
        covers(code, op(t, Op::InsertField(base, value, field))),
        fields(r.1, base) matches Some(range) && field < range.len(),
        operand(r.1, value) == Some(x),
    ensures
        ({
            let u = op(t, Op::InsertField(base, value, field));
            &&& arrives(code, s, m, u, env, q)
            &&& in_bounds(u, next_value(t))
            &&& fields(q.1, next_value(t)) == Some(fields(r.1, base)->0.update(field as int, x))
            &&& same_before(t, r.1, q.1)
            &&& s.insts.len() <= u.insts.len()
        }),
{
    let inst = InstView::Op(Op::InsertField(base, value, field));
    lemma_count_kept(t, inst);
    lemma_emitted_extends(p, t, inst);
    lemma_next(code, t, inst, r.1);
    let id = t.insts.len() as usize;
    let m1 = Machine {
        at: r.1.at + 1,
        ranges: r.1.ranges.insert(id, fields(r.1, base)->0.update(field as int, x)),
        ..r.1
    };
    lemma_run_step(code, m, r.1, m1, r.0);
    assert(same_before(t, r.1, m1));
    lemma_same_further(s, t, m, r.1, m1);
    (r.0 + 1, m1)
}

proof fn lemma_build_runs(
    code: Code,
    p: Program,
    s: Lowering,
    m: Machine,
    t: Lowering,
    env: Env,
    r: (nat, Machine),
    parts: RangeParts,
    range: Stretch,
) -> (q: (nat, Machine))
    requires
        sane(p, t),
        s.insts.len() <= t.insts.len(),
        arrives(code, s, m, t, env, r),
        parts_held(t, r.1, parts, range),
        covers(
            code,
            build_range(t, parts.start, parts.stop, parts.step, parts.inclusive).0,
        ),
    ensures
        ({
            let (u, value) = build_range(
                t,
                parts.start,
                parts.stop,
                parts.step,
                parts.inclusive,
            );
            arrives(code, s, m, u, env, q) && range_held(u, q.1, value, range)
        }),
{
    let o1 = Op::InsertField(Value::Undef(IrType::Range), parts.start, 0);
    let s1 = op(t, o1);
    let o2 = Op::InsertField(next_value(t), parts.stop, 1);
    let s2 = op(s1, o2);
    let o3 = Op::InsertField(next_value(s1), parts.step, 2);
    let s3 = op(s2, o3);
    let o4 = Op::InsertField(next_value(s2), parts.inclusive, 3);
    lemma_build_range_built(p, t, parts.start, parts.stop, parts.step, parts.inclusive);
    lemma_count_kept(t, InstView::Op(o1));
    lemma_count_kept(s1, InstView::Op(o2));
    lemma_count_kept(s2, InstView::Op(o3));
    lemma_count_kept(s3, InstView::Op(o4));
    lemma_emitted_extends(p, t, InstView::Op(o1));
    lemma_emitted_extends(p, s1, InstView::Op(o2));
    lemma_emitted_extends(p, s2, InstView::Op(o3));
    lemma_op_covered(code, p, s3, o4);
    lemma_op_covered(code, p, s2, o3);
    lemma_op_covered(code, p, s1, o2);
    let undefined = Value::Undef(IrType::Range);
    let r1 = lemma_field_runs(
        code,
        p,
        s,
        m,
        t,
        env,
        r,
        undefined,
        parts.start,
        0,
        range.start,
    );
    lemma_parts_kept(t, s1, r.1, r1.1, parts, range);
    let r2 = lemma_field_runs(
        code,
        p,
        s,
        m,
        s1,
        env,
        r1,
        next_value(t),
        parts.stop,
        1,
        range.stop,
    );
    lemma_parts_kept(s1, s2, r1.1, r2.1, parts, range);
    let r3 = lemma_field_runs(
        code,
        p,
        s,
        m,
        s2,
        env,
        r2,
        next_value(s1),
        parts.step,
        2,
        range.step,
    );
    lemma_parts_kept(s2, s3, r2.1, r3.1, parts, range);
    let r4 = lemma_field_runs(
        code,
        p,
        s,
        m,
        s3,
        env,
        r3,
        next_value(s2),
        parts.inclusive,
        3,
        truth(range.inclusive),
    );
    assert(fields(r4.1, next_value(s3))->0 =~= seq![
        range.start,
        range.stop,
        range.step,
        truth(range.inclusive),
    ]);
    r4
}

/// A step that is not zero lets a range through.
proof fn lemma_guard_runs(
    code: Code,
    p: Program,
    s: Lowering,
    m: Machine,
    t: Lowering,
    env: Env,
    r: (nat, Machine),
    step: Value,
    x: int,
) -> (q: (nat, Machine))
    requires
        sane(p, t),
        s.insts.len() <= t.insts.len(),
        arrives(code, s, m, t, env, r),
        held(t, r.1, step, x),
        x != 0,
        covers(code, guard_zero_step(t, step)),
    ensures
        arrives(code, s, m, guard_zero_step(t, step), env, q),
        same_before(t, r.1, q.1),
{
    let (s1, s3, s4) = guard_states(t, step);
    let u = guard_zero_step(t, step);
    let n = t.blocks.len() as int;
    lemma_guard_built(p, t, step);
    assert(begins(s4.texts, u.texts) && begins(s4.floats, u.floats)) by {
        reveal(text_added);
        reveal(emitted);
        reveal(positioned);
    }
    assert(covers(code, s4)) by {
        assert forall|b: int| 0 <= b < s4.blocks.len() implies begins(
            #[trigger] list(s4, b),
            code.blocks[b],
        ) by {
            assert(begins(list(s4, b), list(u, b)));
            assert(begins(list(u, b), code.blocks[b]));
        }
    }
    let test = Op::CondBranch(next_value(t), n as usize, (n + 1) as usize);
    assert(s4 == op(s3, test));
    lemma_op_covered(code, p, s3, test);
    lemma_covered(code, s1, s3);
    let zero = Op::IntCompare(IntPredicate::Eq, step, Value::Int(0));
    lemma_op_covered(code, p, t, zero);
    let r1 = lemma_op_runs(code, p, s, m, t, env, r, zero, 0);
    assert(arrives(code, s, m, s3, env, r1));
    lemma_jumps(code, s, m, s3, env, r1, InstView::Op(test), (n + 1) as usize);
    let m2 = jumped(r1.1, (n + 1) as usize);
    lemma_same_further(t, s3, r.1, r1.1, m2);
    (r1.0 + 1, m2)
}

proof fn lemma_default_runs(
    code: Code,
    p: Program,
    s: Lowering,
    m: Machine,
    t: Lowering,
    env: Env,
    r: (nat, Machine),
    kind: RangeKind,
    start: Value,
    stop: Value,
    first: int,
    last: int,
) -> (q: (nat, Machine))
    requires
        sane(p, t),
        s.insts.len() <= t.insts.len(),
        arrives(code, s, m, t, env, r),
        held(t, r.1, start, first),
        held(t, r.1, stop, last),
        covers(code, default_step(t, kind, start, stop).0),
    ensures
        ({
            let (u, value) = default_step(t, kind, start, stop);
            &&& arrives(code, s, m, u, env, q)
            &&& held(u, q.1, value, implied_step(kind, first, last))
            &&& same_before(t, r.1, q.1)
        }),
{
    if kind == RangeKind::Inclusive {
        let o1 = Op::IntCompare(IntPredicate::Sge, stop, start);
        let s1 = op(t, o1);
        let o2 = Op::Select(next_value(t), Value::Int(1), Value::Int(-1i64));
        lemma_count_kept(t, InstView::Op(o1));
        lemma_count_kept(s1, InstView::Op(o2));
        lemma_emitted_extends(p, t, InstView::Op(o1));
        lemma_op_covered(code, p, s1, o2);
        let r1 = lemma_op_runs(code, p, s, m, t, env, r, o1, truth(last >= first));
        let r2 = lemma_op_runs(
            code,
            p,
            s,
            m,
            s1,
            env,
            r1,
            o2,
            implied_step(kind, first, last),
        );
        lemma_same_further(t, s1, r.1, r1.1, r2.1);
        r2
    } else {
        r
    }
}

proof fn lemma_range_runs(
    code: Code,
    s: Lowering,
    p: Program,
    env: Env,
    range: ExprId,
    limit: int,
    fuel: nat,
    m: Machine,
) -> (r: (nat, Machine))
    requires
        poised(p, code, s, env, m),
        counted_range(p, range, limit),
        covers(code, expr_code(s, p, range, limit).0),
        range_meant(p, env, range, limit, fuel) is Some,
    ensures
        ({
            let (t, value) = expect_value(s, p, range, limit);
            let (after, bounds) = range_meant(p, env, range, limit, fuel)->0;
            &&& arrives(code, s, m, t, after, r)
            &&& range_held(t, r.1, value, bounds)
            &&& bounds.step != 0
        }),
    decreases fuel, limit, 0int, p, 0int,
{
    let id = range.0 as int;
    let (after, bounds) = range_meant(p, env, range, limit, fuel)->0;
    lemma_range_built(p, s, range, limit);
    let (start, stop, step, kind) = match node_at(p, range) {
        NodeView::Range(start, stop, step, kind) => (start, stop, step, kind),
        _ => (range, range, None, RangeKind::Inclusive),
    };
    let (s1, s2, s3, s6) = range_states(s, p, range);
    let first = as_int(s, p, start, id).1;
    let last = as_int(s1, p, stop, id).1;
    let (by_state, by) = match step {
        Some(given) => as_int(s2, p, given, id),
        None => default_step(s2, kind, first, last),
    };
    let flag = Value::Bool(kind == RangeKind::Inclusive);
    let (t, value) = build_range(s6, first, last, by, flag);
    assert(range_parts_code(s, p, start, stop, step, kind, id) == (t, value));
    assert(expr_code(s, p, range, limit) == (t, Some(value)));
    lemma_covered(code, s6, t);
    lemma_covered(code, s3, s6);
    lemma_covered(code, s2, s3);
    lemma_covered(code, s1, s2);
    let (e1, x1) = number_meant(p, env, start, id, fuel)->0;
    let (e2, x2) = number_meant(p, e1, stop, id, fuel)->0;
    let q1 = lemma_as_int_runs(code, s, p, env, start, id, fuel, m);
    let q2 = lemma_as_int_runs(code, s1, p, e1, stop, id, fuel, q1.1);
    lemma_held_kept(s1, s2, q1.1, q2.1, first, x1);
    lemma_arrives_further(code, s, m, s1, e1, q1, s2, e2, q2);
    let r2 = (q1.0 + q2.0, q2.1);
    let r3 = match step {
        Some(given) => {
            let q3 = lemma_as_int_runs(code, s2, p, e2, given, id, fuel, q2.1);
            lemma_arrives_further(code, s, m, s2, e2, r2, s3, after, q3);
            (r2.0 + q3.0, q3.1)
        },
        None => lemma_default_runs(code, p, s, m, s2, e2, r2, kind, first, last, x1, x2),
    };
    lemma_held_kept(s2, s3, q2.1, r3.1, first, x1);
    lemma_held_kept(s2, s3, q2.1, r3.1, last, x2);
    let r6 = lemma_guard_runs(code, p, s, m, s3, after, r3, by, bounds.step);
    lemma_held_kept(s3, s6, r3.1, r6.1, first, x1);
    lemma_held_kept(s3, s6, r3.1, r6.1, last, x2);
    lemma_held_kept(s3, s6, r3.1, r6.1, by, bounds.step);
    let fields_of = RangeParts { start: first, stop: last, step: by, inclusive: flag };
    lemma_build_runs(code, p, s, m, s6, after, r6, fields_of, bounds)
}

/// A number kept in 64 bits that fits in them.
proof fn lemma_wrapped_same(x: int)
    requires
        i64::MIN <= x <= i64::MAX,
    ensures
        wrapped(x) == x,
{
}

proof fn lemma_member_runs(
    code: Code,
    p: Program,
    s: Lowering,
    m: Machine,
    t: Lowering,
    env: Env,
    r: (nat, Machine),
    candidate: Value,
    parts: RangeParts,
    x: int,
    range: Stretch,
) -> (q: (nat, Machine))
    requires
        sane(p, t),
        s.insts.len() <= t.insts.len(),
        arrives(code, s, m, t, env, r),
        held(t, r.1, candidate, x),
        parts_held(t, r.1, parts, range),
        contained(x, range) is Some,
        covers(code, member_test(t, candidate, parts).0),
    ensures
        ({
            let (u, value) = member_test(t, candidate, parts);
            arrives(code, s, m, u, env, q) && held(u, q.1, value, contained(x, range)->0)
        }),
{
    let up = range.step > 0;
    let o1 = Op::IntBinary(IntOp::Sub, candidate, parts.start);
    let s1 = op(t, o1);
    let o2 = Op::IntBinary(IntOp::SignedRem, next_value(t), parts.step);
    let s2 = op(s1, o2);
    let o3 = Op::IntCompare(IntPredicate::Eq, next_value(s1), Value::Int(0));
    let s3 = op(s2, o3);
    let o4 = Op::IntCompare(IntPredicate::Sgt, parts.step, Value::Int(0));
    let s4 = op(s3, o4);
    let going_up = next_value(s3);
    let (s5, within) = range_continue(s4, candidate, parts.stop, parts.inclusive, going_up);
    let o6 = Op::IntCompare(IntPredicate::Sge, candidate, parts.start);
    let s6 = op(s5, o6);
    let o7 = Op::IntCompare(IntPredicate::Sle, candidate, parts.start);
    let s7 = op(s6, o7);
    let o8 = Op::Select(going_up, next_value(s5), next_value(s6));
    let s8 = op(s7, o8);
    let o9 = Op::IntBinary(IntOp::And, next_value(s2), within);
    let s9 = op(s8, o9);
    let o10 = Op::IntBinary(IntOp::And, next_value(s8), next_value(s7));
    let s10 = op(s9, o10);
    assert(member_test(t, candidate, parts) == (s10, next_value(s9)));
    lemma_count_kept(t, InstView::Op(o1));
    lemma_count_kept(s1, InstView::Op(o2));
    lemma_count_kept(s2, InstView::Op(o3));
    lemma_count_kept(s3, InstView::Op(o4));
    lemma_range_continue(s4, candidate, parts.stop, parts.inclusive, going_up);
    lemma_count_kept(s5, InstView::Op(o6));
    lemma_count_kept(s6, InstView::Op(o7));
    lemma_count_kept(s7, InstView::Op(o8));
    lemma_count_kept(s8, InstView::Op(o9));
    lemma_count_kept(s9, InstView::Op(o10));
    lemma_emitted_extends(p, t, InstView::Op(o1));
    lemma_emitted_extends(p, s1, InstView::Op(o2));
    lemma_emitted_extends(p, s2, InstView::Op(o3));
    lemma_emitted_extends(p, s3, InstView::Op(o4));
    lemma_range_continue_built(p, s4, candidate, parts.stop, parts.inclusive, going_up);
    lemma_emitted_extends(p, s5, InstView::Op(o6));
    lemma_emitted_extends(p, s6, InstView::Op(o7));
    lemma_emitted_extends(p, s7, InstView::Op(o8));
    lemma_emitted_extends(p, s8, InstView::Op(o9));
    lemma_op_covered(code, p, s9, o10);
    lemma_op_covered(code, p, s8, o9);
    lemma_op_covered(code, p, s7, o8);
    lemma_op_covered(code, p, s6, o7);
    lemma_op_covered(code, p, s5, o6);
    lemma_covered(code, s4, s5);
    lemma_op_covered(code, p, s3, o4);
    lemma_op_covered(code, p, s2, o3);
    lemma_op_covered(code, p, s1, o2);
    let d = x - range.start;
    lemma_wrapped_same(d);
    let rest = truncated_remainder(d, range.step);
    let r1 = lemma_op_runs(code, p, s, m, t, env, r, o1, d);
    lemma_held_kept(t, s1, r.1, r1.1, candidate, x);
    lemma_parts_kept(t, s1, r.1, r1.1, parts, range);
    let r2 = lemma_op_runs(code, p, s, m, s1, env, r1, o2, rest);
    lemma_held_kept(s1, s2, r1.1, r2.1, candidate, x);
    lemma_parts_kept(s1, s2, r1.1, r2.1, parts, range);
    let r3 = lemma_op_runs(code, p, s, m, s2, env, r2, o3, truth(rest == 0));
    lemma_held_kept(s2, s3, r2.1, r3.1, candidate, x);
    lemma_parts_kept(s2, s3, r2.1, r3.1, parts, range);
    let r4 = lemma_op_runs(code, p, s, m, s3, env, r3, o4, truth(up));
    lemma_held_kept(s3, s4, r3.1, r4.1, candidate, x);
    lemma_parts_kept(s3, s4, r3.1, r4.1, parts, range);
    lemma_held_kept(s3, s4, r3.1, r4.1, next_value(s2), truth(rest == 0));
    let on = goes_on(x, range.stop, range.inclusive, up);
    let r5 = lemma_continue_runs(
        code,
        p,
        s,
        m,
        s4,
        env,
        r4,
        (candidate, parts.stop, parts.inclusive, going_up),
        x,
        range.stop,
        range.inclusive,
        up,
    );
    lemma_held_kept(s4, s5, r4.1, r5.1, candidate, x);
    lemma_parts_kept(s4, s5, r4.1, r5.1, parts, range);
    lemma_held_kept(s4, s5, r4.1, r5.1, next_value(s2), truth(rest == 0));
    lemma_held_kept(s4, s5, r4.1, r5.1, going_up, truth(up));
    let r6 = lemma_op_runs(code, p, s, m, s5, env, r5, o6, truth(x >= range.start));
    lemma_held_kept(s5, s6, r5.1, r6.1, candidate, x);
    lemma_parts_kept(s5, s6, r5.1, r6.1, parts, range);
    lemma_held_kept(s5, s6, r5.1, r6.1, next_value(s2), truth(rest == 0));
    lemma_held_kept(s5, s6, r5.1, r6.1, going_up, truth(up));
    lemma_held_kept(s5, s6, r5.1, r6.1, within, truth(on));
    let r7 = lemma_op_runs(code, p, s, m, s6, env, r6, o7, truth(x <= range.start));
    lemma_held_kept(s6, s7, r6.1, r7.1, next_value(s2), truth(rest == 0));
    lemma_held_kept(s6, s7, r6.1, r7.1, going_up, truth(up));
    lemma_held_kept(s6, s7, r6.1, r7.1, within, truth(on));
    lemma_held_kept(s6, s7, r6.1, r7.1, next_value(s5), truth(x >= range.start));
    let ahead = if up {
        x >= range.start
    } else {
        x <= range.start
    };
    let r8 = lemma_op_runs(code, p, s, m, s7, env, r7, o8, truth(ahead));
    lemma_held_kept(s7, s8, r7.1, r8.1, next_value(s2), truth(rest == 0));
    lemma_held_kept(s7, s8, r7.1, r8.1, within, truth(on));
    let r9 = lemma_op_runs(code, p, s, m, s8, env, r8, o9, truth(rest == 0 && on));
    lemma_held_kept(s8, s9, r8.1, r9.1, next_value(s7), truth(ahead));
    lemma_on_a_step(x, range.start, range.step);
    lemma_op_runs(code, p, s, m, s9, env, r9, o10, contained(x, range)->0)
}

proof fn lemma_membership_runs(
    code: Code,
    s: Lowering,
    p: Program,
    env: Env,
    value: ExprId,
    range: ExprId,
    limit: int,
    fuel: nat,
    m: Machine,
) -> (r: (nat, Machine))
    requires
        poised(p, code, s, env, m),
        counted_value(p, value, limit),
        counted_range(p, range, limit),
        covers(code, membership_code(s, p, value, range, limit).0),
        number_meant(p, env, value, limit, fuel) matches Some((after, x)) && range_meant(
            p,
            after,
            range,
            limit,
            fuel,
        ) matches Some((last, bounds)) && contained(x, bounds) is Some,
    ensures
        ({
            let (after, x) = number_meant(p, env, value, limit, fuel)->0;
            let (last, bounds) = range_meant(p, after, range, limit, fuel)->0;
            computes(
                code,
                s,
                m,
                membership_code(s, p, value, range, limit).0,
                membership_code(s, p, value, range, limit).1,
                Some((last, contained(x, bounds)->0)),
                r,
            )
        }),
    decreases fuel, limit, 4int, p, 0int,
{
    let (after, x) = number_meant(p, env, value, limit, fuel)->0;
    let (last, bounds) = range_meant(p, after, range, limit, fuel)->0;
    let (s1, candidate) = as_int(s, p, value, limit);
    let (s2, range_value) = expect_value(s1, p, range, limit);
    let (s3, parts) = extract_range(s2, range_value);
    let (t, found) = member_test(s3, candidate, parts);
    assert(membership_code(s, p, value, range, limit) == (t, found));
    lemma_membership_built(p, s, value, range, limit);
    lemma_range_built(p, s1, range, limit);
    lemma_covered(code, s3, t);
    lemma_covered(code, s2, s3);
    lemma_covered(code, s1, s2);
    let q = lemma_as_int_runs(code, s, p, env, value, limit, fuel, m);
    let u = lemma_range_runs(code, s1, p, after, range, limit, fuel, q.1);
    lemma_held_kept(s1, s2, q.1, u.1, candidate, x);
    lemma_arrives_further(code, s, m, s1, after, q, s2, last, u);
    let w = (q.0 + u.0, u.1);
    let v = lemma_extract_runs(code, p, s, m, s2, last, w, range_value, bounds);
    lemma_held_kept(s2, s3, w.1, v.1, candidate, x);
    lemma_member_runs(code, p, s, m, s3, last, v, candidate, parts, x, bounds)
}

// ---------------------------------------------------------------------------
// Branches
// ---------------------------------------------------------------------------

proof fn lemma_picked(incomings: Seq<(Value, usize)>, block: usize, from: int, index: int)
    requires
        0 <= from <= index < incomings.len(),
        incomings[index].1 == block,
        forall|k: int| from <= k < index ==> (#[trigger] incomings[k]).1 != block,
    ensures
        picked(incomings, block, from) == Some(incomings[index].0),
    decreases index - from,
{
    if from < index {
        assert(incomings[from].1 != block);
        lemma_picked(incomings, block, from + 1, index);
    }
}

/// The blocks that values come from lie before the one a lowering stands in, or beside it.
pub open spec fn apart(s: Lowering, incomings: Seq<(Value, usize)>) -> bool {
    forall|k: int|
        0 <= k < incomings.len() ==> (#[trigger] incomings[k]).1 < s.blocks.len() && incomings[k].1
            != s.current
}

/// The run of a branch of an `if` that has come to its end.
pub open spec fn branched(
    code: Code,
    s: Lowering,
    m: Machine,
    t: PinpType,
    after: (Lowering, Seq<(Value, usize)>),
    outcome: Outcome,
    r: (nat, Machine),
) -> bool {
    &&& arrives(code, s, m, after.0, outcome.env, r)
    &&& t != PinpType::Void ==> {
        &&& outcome.number is Some
        &&& after.1.len() > 0
        &&& held(after.0, r.1, after.1.last().0, outcome.number->0)
    }
}

/// An expression of a type that has values has one.
pub proof fn lemma_expr_meant(p: Program, env: Env, expr_id: ExprId, limit: int, fuel: nat)
    requires
        counted(p, expr_id, limit),
        meant(p, env, expr_id, limit, fuel) is Some,
    ensures
        meant(p, env, expr_id, limit, fuel)->0.number is Some <==> plain(type_of(p, expr_id)),
    decreases fuel,
{
    assert("identity"@ != "str"@ && "identity"@ != "meminfo"@ && "str"@ != "meminfo"@) by {
        reveal_strlit("identity");
        reveal_strlit("str");
        reveal_strlit("meminfo");
        assert("identity"@.len() == 8 && "str"@.len() == 3 && "meminfo"@.len() == 7);
    }
}

proof fn lemma_block_runs(
    code: Code,
    s: Lowering,
    p: Program,
    env: Env,
    block: BlockView,
    limit: int,
    fuel: nat,
    m: Machine,
) -> (r: (nat, Machine))
    requires
        poised(p, code, s, env, m),
        counted_stmts(p, block, limit),
        block.result matches Some(result) ==> counted(p, result, limit),
        covers(code, block_code(s, p, block, limit).0),
        block_meant(p, env, block, limit, fuel) is Some,
    ensures
        ({
            let (t, value) = block_code(s, p, block, limit);
            let outcome = block_meant(p, env, block, limit, fuel)->0;
            &&& arrives(code, s, m, t, outcome.env, r)
            &&& (block.result matches Some(result) && plain(type_of(p, result)))
                ==> outcome.number is Some
            &&& outcome.number matches Some(x) ==> value is Some && held(t, r.1, value->0, x)
        }),
    decreases fuel, limit, 10int, block, block.stmts.len() + 2,
{
    let (s1, s2) = block_states(s, p, block, limit);
    let (s3, value) = block_end(s, p, block, limit);
    let t = block_code(s, p, block, limit).0;
    let outcome = block_meant(p, env, block, limit, fuel)->0;
    lemma_block_built(p, s, block, limit);
    let s4 = free_scope_strings(s3, p);
    lemma_covers_moved(code, s4, t);
    lemma_covered(code, s3, s4);
    lemma_covered(code, s2, s3);
    lemma_opened(s, env, m);
    assert(caught_up(s1, m)) by {
        assert(list(s1, s.current as int) == list(s, s.current as int));
    }
    let inner = stmts_meant(p, opened(env), block, 0, limit, fuel)->0;
    let q = lemma_stmts_run(code, s1, p, opened(env), block, 0, limit, fuel, m);
    let symbols = p.ast.names.len() as int;
    assert(s4.frames.drop_last() =~= s.frames);
    assert(list(t, s4.current as int) == list(s4, s4.current as int));
    match block.result {
        Some(result) => {
            let found = meant(p, inner, result, limit, fuel)->0;
            let last = kept_value(p, result, found)->0;
            let u = if type_of(p, result) == PinpType::Str {
                if found.number is None {
                    lemma_expr_meant(p, inner, result, limit, fuel);
                }
                lemma_owned_runs(code, s2, p, inner, result, limit, fuel, q.1)
            } else {
                lemma_expr_runs(code, s2, p, inner, result, limit, fuel, q.1)
            };
            lemma_arrives_further(code, s1, m, s2, inner, q, s3, last.env, u);
            lemma_nothing_freed(s3, last.env, u.1, symbols, 0);
            lemma_closed(t, s3, last.env, u.1);
            (q.0 + u.0, u.1)
        },
        None => {
            lemma_nothing_freed(s3, inner, q.1, symbols, 0);
            lemma_closed(t, s3, inner, q.1);
            q
        },
    }
}

proof fn lemma_branch_runs(
    code: Code,
    s: Lowering,
    p: Program,
    env: Env,
    t: PinpType,
    block: BlockView,
    incomings: Seq<(Value, usize)>,
    limit: int,
    fuel: nat,
    m: Machine,
) -> (r: (nat, Machine))
    requires
        poised(p, code, s, env, m),
        plain(t) || t == PinpType::Void,
        counted_branch(p, t, block, limit),
        covers(code, branch_code(s, p, t, block, incomings, limit).0),
        block_meant(p, env, block, limit, fuel) is Some,
    ensures
        branched(
            code,
            s,
            m,
            t,
            branch_code(s, p, t, block, incomings, limit),
            branch_value(p, t, block, block_meant(p, env, block, limit, fuel))->0,
            r,
        ),
    decreases fuel, limit, 10int, block, block.stmts.len() + 3,
{
    let (s1, value) = block_code(s, p, block, limit);
    let outcome = block_meant(p, env, block, limit, fuel)->0;
    lemma_branch_built(p, s, t, block, incomings, limit);
    if t == PinpType::Void {
        lemma_block_runs(code, s, p, env, block, limit, fuel, m)
    } else {
        let from = block_result_type(p, block);
        lemma_covered(code, s1, promote(s1, value->0, from, t).0);
        let q = lemma_block_runs(code, s, p, env, block, limit, fuel, m);
        lemma_promote_runs(
            code,
            s,
            m,
            s1,
            outcome.env,
            q,
            value->0,
            from,
            t,
            outcome.number->0,
        )
    }
}

/// What the code of an `if` is behind its arms: the last branch, and the jump to where the branches
/// meet.
pub open spec fn else_code(
    s: Lowering,
    p: Program,
    t: PinpType,
    else_block: Option<BlockView>,
    incomings: Seq<(Value, usize)>,
    limit: int,
) -> (Lowering, Seq<(Value, usize)>) {
    match else_block {
        Some(block) => branch_code(s, p, t, block, incomings, limit),
        None => (s, incomings),
    }
}

/// The run of an `if` that has come to where its branches meet.
pub open spec fn met(
    code: Code,
    s: Lowering,
    m: Machine,
    t: PinpType,
    merge: usize,
    incomings: Seq<(Value, usize)>,
    outcome: Outcome,
    r: (nat, Machine),
) -> bool {
    &&& run(code, m, r.0) == Some(r.1)
    &&& r.1.block == merge
    &&& r.1.at == 0
    &&& same_before(s, m, r.1)
    &&& mirrors(s, outcome.env, r.1)
    &&& t != PinpType::Void ==> {
        &&& outcome.number is Some
        &&& picked(incomings, r.1.came_from, 0) matches Some(value) && operand(r.1, value)
            == outcome.number
    }
}

/// A branch that has run jumps to where the branches meet, and its value is the one picked there.
proof fn lemma_meets(
    code: Code,
    p: Program,
    s: Lowering,
    m: Machine,
    t: PinpType,
    after: (Lowering, Seq<(Value, usize)>),
    before: Seq<(Value, usize)>,
    all: Seq<(Value, usize)>,
    merge: usize,
    outcome: Outcome,
    r: (nat, Machine),
)
    requires
        sane(p, after.0),
        s.insts.len() <= after.0.insts.len(),
        same_scope(s, after.0),
        branched(code, s, m, t, after, outcome, r),
        covers(code, op(after.0, Op::Branch(merge))),
        begins(after.1, all),
        t != PinpType::Void ==> {
            &&& after.1.len() == before.len() + 1
            &&& begins(before, after.1)
            &&& after.1.last().1 == after.0.current
            &&& forall|k: int|
                0 <= k < before.len() ==> (#[trigger] before[k]).1 != after.0.current
        },
    ensures
        met(code, s, m, t, merge, all, outcome, (r.0 + 1, jumped(r.1, merge))),
{
    let jump = InstView::Op(Op::Branch(merge));
    lemma_jumps(code, s, m, after.0, outcome.env, r, jump, merge);
    let m1 = jumped(r.1, merge);
    if t != PinpType::Void {
        let index = before.len() as int;
        assert(all[index] == after.1[index]);
        assert forall|k: int| 0 <= k < index implies (#[trigger] all[k]).1 != m1.came_from by {
            assert(all[k] == after.1[k]);
            assert(after.1[k] == before[k]);
        }
        lemma_picked(all, m1.came_from, 0, index);
    }
}

#[verifier::rlimit(100)]
#[verifier::spinoff_prover]
proof fn lemma_arms_run(
    code: Code,
    s: Lowering,
    p: Program,
    env: Env,
    t: PinpType,
    arms: Seq<IfArmView>,
    merge: usize,
    incomings: Seq<(Value, usize)>,
    from: int,
    else_block: Option<BlockView>,
    limit: int,
    fuel: nat,
    m: Machine,
) -> (r: (nat, Machine))
    requires
        poised(p, code, s, env, m),
        plain(t) || t == PinpType::Void,
        plain(t) ==> else_block is Some,
        counted_arms(p, t, arms, limit),
        else_block matches Some(block) ==> counted_branch(p, t, block, limit),
        0 <= from <= arms.len(),
        apart(s, incomings),
        ({
            let (s2, from_arms) = arms_code(s, p, t, arms, merge, incomings, from, limit);
            let (s3, all) = else_code(s2, p, t, else_block, from_arms, limit);
            covers(code, op(s3, Op::Branch(merge)))
        }),
        arms_meant(p, env, t, arms, from, else_block, limit, fuel) is Some,
    ensures
        ({
            let (s2, from_arms) = arms_code(s, p, t, arms, merge, incomings, from, limit);
            let (s3, all) = else_code(s2, p, t, else_block, from_arms, limit);
            met(
                code,
                s,
                m,
                t,
                merge,
                all,
                arms_meant(p, env, t, arms, from, else_block, limit, fuel)->0,
                r,
            )
        }),
    decreases fuel, limit, 11int, p, arms.len() - from,
{
    let (s2, from_arms) = arms_code(s, p, t, arms, merge, incomings, from, limit);
    let (s3, all) = else_code(s2, p, t, else_block, from_arms, limit);
    let outcome = arms_meant(p, env, t, arms, from, else_block, limit, fuel)->0;
    let jump = Op::Branch(merge);
    lemma_count_kept(s3, InstView::Op(jump));
    assert(fits(s3));
    if let Some(block) = else_block {
        lemma_branch_code(s2, p, t, block, from_arms, limit);
    }
    assert(fits(s2));
    lemma_arms_built(p, s, t, arms, merge, incomings, from, limit);
    lemma_extends_same(p, s2);
    if let Some(block) = else_block {
        lemma_branch_built(p, s2, t, block, from_arms, limit);
    }
    lemma_op_covered(code, p, s3, jump);
    lemma_covered(code, s2, s3);
    if from < arms.len() {
        let arm = arms[from];
        let (s1, opened_two, s5, s6, s8) = arm_states(s, p, t, arm, merge, incomings, limit);
        let more = branch_code(s5, p, t, arm.body, incomings, limit).1;
        let cond = expect_value(s, p, arm.cond, limit).1;
        let n = s1.blocks.len() as int;
        let test = InstView::Op(Op::CondBranch(cond, n as usize, (n + 1) as usize));
        let s4 = emitted(opened_two, test);
        let s7 = emitted(s6, InstView::Op(jump));
        lemma_covered(code, s8, s2);
        lemma_positioned_at(s7, (n + 1) as usize);
        lemma_positioned_at(s4, n as usize);
        lemma_covers_moved(code, s7, s8);
        lemma_op_covered(code, p, s6, jump);
        lemma_covered(code, s5, s6);
        lemma_covers_moved(code, s4, s5);
        lemma_count_kept(opened_two, test);
        lemma_emitted_extends(p, opened_two, test);
        lemma_covered(code, opened_two, s4);
        lemma_covered(code, s1, opened_two);
        let (after, x) = number_meant(p, env, arm.cond, limit, fuel)->0;
        assert(counted_value(p, arm.cond, limit) && counted_branch(p, t, arm.body, limit));
        let q = lemma_expect_runs(code, s, p, env, arm.cond, limit, fuel, m);
        assert(arrives(code, s, m, opened_two, after, q));
        lemma_branch_built(p, s5, t, arm.body, incomings, limit);
        if x != 0 {
            lemma_jumps(code, s, m, opened_two, after, q, test, n as usize);
            let m2 = jumped(q.1, n as usize);
            assert(arrives(code, s, m, s5, after, (q.0 + 1, m2)));
            let u = lemma_branch_runs(
                code,
                s5,
                p,
                after,
                t,
                arm.body,
                incomings,
                limit,
                fuel,
                m2,
            );
            lemma_arrives_further(code, s, m, s5, after, (q.0 + 1, m2), s6, outcome.env, u);
            let w = (q.0 + 1 + u.0, u.1);
            assert(begins(more, all));
            assert(branched(code, s, m, t, (s6, more), outcome, w));
            lemma_meets(
                code,
                p,
                s,
                m,
                t,
                (s6, more),
                incomings,
                all,
                merge,
                outcome,
                w,
            );
            (w.0 + 1, jumped(w.1, merge))
        } else {
            lemma_jumps(code, s, m, opened_two, after, q, test, (n + 1) as usize);
            let m2 = jumped(q.1, (n + 1) as usize);
            assert(arrives(code, s, m, s8, after, (q.0 + 1, m2)));
            assert(apart(s8, more)) by {
                lemma_two_opened(p, s1, "if_then"@, "if_next"@);
                lemma_count_kept(s6, InstView::Op(jump));
                assert(s5.blocks.len() == n + 2);
                assert(s8.blocks.len() == s6.blocks.len());
                assert forall|k: int| 0 <= k < more.len() implies (#[trigger] more[k]).1
                    < s8.blocks.len() && more[k].1 != s8.current by {
                    if k < incomings.len() {
                        assert(more[k] == incomings[k]);
                    }
                }
            }
            let u = lemma_arms_run(
                code,
                s8,
                p,
                after,
                t,
                arms,
                merge,
                more,
                from + 1,
                else_block,
                limit,
                fuel,
                m2,
            );
            lemma_run_on(code, m, m2, u.1, q.0 + 1, u.0);
            lemma_same_further(s, s8, m, m2, u.1);
            (q.0 + 1 + u.0, u.1)
        }
    } else {
        lemma_here(code, s, m, env);
        let u = match else_block {
            Some(block) => lemma_branch_runs(
                code,
                s,
                p,
                env,
                t,
                block,
                from_arms,
                limit,
                fuel,
                m,
            ),
            None => (0nat, m),
        };
        assert(branched(code, s, m, t, (s3, all), outcome, u));
        lemma_meets(code, p, s, m, t, (s3, all), incomings, all, merge, outcome, u);
        (u.0 + 1, jumped(u.1, merge))
    }
}

proof fn lemma_if_runs(
    code: Code,
    s: Lowering,
    p: Program,
    env: Env,
    t: PinpType,
    arms: Seq<IfArmView>,
    else_block: Option<BlockView>,
    limit: int,
    fuel: nat,
    m: Machine,
) -> (r: (nat, Machine))
    requires
        poised(p, code, s, env, m),
        plain(t) || t == PinpType::Void,
        plain(t) ==> else_block is Some,
        counted_arms(p, t, arms, limit),
        else_block matches Some(block) ==> counted_branch(p, t, block, limit),
        covers(code, if_code(s, p, t, arms, else_block, limit).0),
        arms_meant(p, env, t, arms, 0, else_block, limit, fuel) is Some,
    ensures
        ({
            let outcome = arms_meant(p, env, t, arms, 0, else_block, limit, fuel)->0;
            let (u, value) = if_code(s, p, t, arms, else_block, limit);
            &&& arrives(code, s, m, u, outcome.env, r)
            &&& t != PinpType::Void ==> outcome.number is Some && value is Some && held(
                u,
                r.1,
                value->0,
                outcome.number->0,
            )
        }),
    decreases fuel, limit, 12int, p, 0int,
{
    let outcome = arms_meant(p, env, t, arms, 0, else_block, limit, fuel)->0;
    let (s1, s2, s3, incomings) = if_states(s, p, t, arms, else_block, limit);
    let merge = next_block(s);
    let jump = Op::Branch(merge);
    let sj = op(s3, jump);
    let s4 = positioned(sj, merge);
    let u = if_code(s, p, t, arms, else_block, limit).0;
    lemma_if_built(p, s, t, arms, else_block, limit);
    if t != PinpType::Void {
        lemma_covered(code, s4, u);
    }
    lemma_covers_moved(code, sj, s4);
    lemma_count_kept(s3, InstView::Op(jump));
    lemma_emitted_scope(s3, InstView::Op(jump));
    let q = lemma_arms_run(
        code,
        s1,
        p,
        env,
        t,
        arms,
        merge,
        Seq::empty(),
        0,
        else_block,
        limit,
        fuel,
        m,
    );
    assert(arrives(code, s, m, s4, outcome.env, q));
    if t != PinpType::Void {
        let phi = InstView::Phi(basic_type(t)->0, incomings);
        lemma_yields_more(code, s, m, s4, outcome.env, q, phi, outcome.number->0)
    } else {
        q
    }
}

// ---------------------------------------------------------------------------
// Statements
// ---------------------------------------------------------------------------

proof fn lemma_stmts_run(
    code: Code,
    s: Lowering,
    p: Program,
    env: Env,
    block: BlockView,
    from: int,
    limit: int,
    fuel: nat,
    m: Machine,
) -> (r: (nat, Machine))
    requires
        poised(p, code, s, env, m),
        counted_stmts(p, block, limit),
        0 <= from,
        covers(code, stmts_from(s, p, block, from, limit)),
        stmts_meant(p, env, block, from, limit, fuel) is Some,
    ensures
        arrives(
            code,
            s,
            m,
            stmts_from(s, p, block, from, limit),
            stmts_meant(p, env, block, from, limit, fuel)->0,
            r,
        ),
    decreases fuel, limit, 10int, block, block.stmts.len() - from,
{
    lemma_here(code, s, m, env);
    if from < block.stmts.len() {
        let stmt = block.stmts[from];
        let (s1, yielded) = stmt_code(s, p, stmt, limit);
        let s2 = discarded_str_freed(s1, p, stmt, yielded);
        let t = stmts_from(s, p, block, from, limit);
        lemma_stmts_built(p, s, block, from, limit);
        lemma_covered(code, s2, t);
        lemma_covered(code, s1, s2);
        assert(counted_stmt(p, stmt, limit));
        let outcome = stmt_meant(p, env, stmt, limit, fuel)->0;
        let after = discarded(p, stmt, outcome)->0;
        let last = stmts_meant(p, env, block, from, limit, fuel)->0;
        let q = lemma_stmt_runs(code, s, p, env, stmt, limit, fuel, m);
        let w = lemma_discarded_runs(code, s1, p, stmt, yielded, outcome, q.1);
        lemma_arrives_further(code, s, m, s1, outcome.env, q, s2, after, w);
        let u = lemma_stmts_run(code, s2, p, after, block, from + 1, limit, fuel, w.1);
        lemma_arrives_further(code, s, m, s2, after, (q.0 + w.0, w.1), t, last, u);
        (q.0 + w.0 + u.0, u.1)
    } else {
        (0, m)
    }
}

pub proof fn lemma_stmt_runs(
    code: Code,
    s: Lowering,
    p: Program,
    env: Env,
    stmt: StmtView,
    limit: int,
    fuel: nat,
    m: Machine,
) -> (r: (nat, Machine))
    requires
        poised(p, code, s, env, m),
        counted_stmt(p, stmt, limit),
        covers(code, stmt_code(s, p, stmt, limit).0),
        stmt_meant(p, env, stmt, limit, fuel) is Some,
    ensures
        ({
            let (t, value) = stmt_code(s, p, stmt, limit);
            let outcome = stmt_meant(p, env, stmt, limit, fuel)->0;
            &&& arrives(code, s, m, t, outcome.env, r)
            &&& outcome.number matches Some(x) ==> value is Some && held(t, r.1, value->0, x)
            &&& stmt matches StmtView::Expr(expr_id) ==> plain(type_of(p, expr_id))
                ==> outcome.number is Some
        }),
    decreases fuel, limit, 10int, stmt, 0int,
{
    match stmt {
        StmtView::Expr(expr_id) => lemma_expr_runs(code, s, p, env, expr_id, limit, fuel, m),
        StmtView::Assign(groups, _, values) => lemma_assign_runs(
            code,
            s,
            p,
            env,
            groups,
            values,
            limit,
            fuel,
            m,
        ),
        StmtView::While(cond, body) => lemma_while_runs(
            code,
            s,
            p,
            env,
            cond,
            body,
            limit,
            fuel,
            m,
        ),
        StmtView::Loop(body, cond, until) => lemma_loop_runs(
            code,
            s,
            p,
            env,
            body,
            cond,
            until,
            limit,
            fuel,
            m,
        ),
        StmtView::For(var, source, body) => lemma_for_runs(
            code,
            s,
            p,
            env,
            var,
            source,
            body,
            limit,
            fuel,
            m,
        ),
        _ => (0, m),
    }
}

proof fn lemma_values_run(
    code: Code,
    s: Lowering,
    p: Program,
    env: Env,
    values: Seq<ExprId>,
    done: Seq<Value>,
    numbers: Seq<int>,
    limit: int,
    fuel: nat,
    m: Machine,
) -> (r: (nat, Machine))
    requires
        poised(p, code, s, env, m),
        counted_parts(p, values, limit),
        done.len() <= values.len(),
        all_held(s, m, done, numbers),
        covers(code, values_code(s, p, values, done, limit).0),
        numbers_meant(p, env, values, numbers, limit, fuel) is Some,
    ensures
        ({
            let (t, evaluated) = values_code(s, p, values, done, limit);
            let (last, found) = numbers_meant(p, env, values, numbers, limit, fuel)->0;
            arrives(code, s, m, t, last, r) && all_held(t, r.1, evaluated, found)
        }),
    decreases fuel, limit, 3int, p, values.len() - done.len(),
{
    lemma_here(code, s, m, env);
    if done.len() < values.len() {
        let value = values[done.len() as int];
        assert(counted_part(p, value, limit));
        let text = type_of(p, value) == PinpType::Str;
        let (s1, v) = if text {
            owned_str_code(s, p, value, limit)
        } else {
            expect_value(s, p, value, limit)
        };
        let t = values_code(s1, p, values, done.push(v), limit).0;
        let (mid, y) = number_meant(p, env, value, limit, fuel)->0;
        let (after, x) = own(mid, y, !text || owns_str_result(p, value))->0;
        let (last, found) = numbers_meant(p, env, values, numbers, limit, fuel)->0;
        assert(numbers_meant(p, env, values, numbers, limit, fuel) == numbers_meant(
            p,
            after,
            values,
            numbers.push(x),
            limit,
            fuel,
        ));
        lemma_values_built(p, s, values, done, limit);
        lemma_covered(code, s1, t);
        let q = if text {
            lemma_owned_runs(code, s, p, env, value, limit, fuel, m)
        } else {
            lemma_expect_runs(code, s, p, env, value, limit, fuel, m)
        };
        lemma_all_kept(s, s1, m, q.1, done, numbers);
        assert(all_held(s1, q.1, done.push(v), numbers.push(x)));
        let u = lemma_values_run(
            code,
            s1,
            p,
            after,
            values,
            done.push(v),
            numbers.push(x),
            limit,
            fuel,
            q.1,
        );
        lemma_arrives_further(code, s, m, s1, after, q, t, last, u);
        (q.0 + u.0, u.1)
    } else {
        (0, m)
    }
}

/// What a name is stored in is no element of an array.
pub proof fn lemma_name_slot(code: Code, p: Program, s: Lowering, place: Value)
    requires
        covers(code, s),
        place is Global || (place matches Value::Inst(id) && id < s.insts.len() && is_alloca(
            s.insts[id as int],
        )),
    ensures
        element(code, place) is None,
{
    if let Value::Inst(id) = place {
        assert(code.insts[id as int] == s.insts[id as int]);
    }
}

/// A name given a number.
proof fn lemma_store_runs(
    code: Code,
    s: Lowering,
    p: Program,
    env: Env,
    place: Place,
    value: Value,
    t: PinpType,
    first: bool,
    x: int,
    m: Machine,
) -> (r: (nat, Machine))
    requires
        poised(p, code, s, env, m),
        numeric(t),
        held(s, m, value, x),
        covers(code, store_to_place(s, place, value, t, first)),
        name_written(env, place, t, x) is Some,
    ensures
        arrives(
            code,
            s,
            m,
            store_to_place(s, place, value, t, first),
            name_written(env, place, t, x)->0,
            r,
        ),
{
    let (s1, slot) = resolve_place(s, place, t);
    let (s2, stored) = promote(s1, value, t, slot.value_type);
    let store = Op::Store(slot.place, stored);
    lemma_store_built(p, s, place, value, t, first);
    lemma_resolve_built(p, s, place, t);
    lemma_op_covered(code, p, s2, store);
    lemma_covered(code, s1, s2);
    lemma_count_kept(s2, InstView::Op(store));
    assert(run(code, m, 0) == Some(m));
    let y = carried(m.floats, t, slot.value_type, x);
    let q = if let Some(cast) = casting(t, slot.value_type) {
        lemma_yields(code, s1, InstView::Op(Op::Cast(cast, value)), m, y);
        let m1 = yielding(m, s1.insts.len() as usize, y);
        lemma_run_step(code, m, m, m1, 0);
        (1nat, m1)
    } else {
        (0nat, m)
    };
    lemma_next(code, s2, InstView::Op(store), q.1);
    lemma_looked_up(s, env, m, symbol_of(place).0);
    lemma_found_whole(s, place);
    assert(slot.place is Global || (slot.place matches Value::Inst(id) && id < s1.insts.len()
        && is_alloca(s1.insts[id as int]))) by {
        reveal(inside_function);
    }
    lemma_name_slot(code, p, s1, slot.place);
    let m2 = storing(q.1, slot.place, y);
    lemma_run_step(code, m, q.1, m2, q.0);
    lemma_written(s, env, m, place, t, x);
    lemma_emitted_extends(p, s2, InstView::Op(store));
    (q.0 + 1, m2)
}

proof fn lemma_group_runs(
    code: Code,
    s: Lowering,
    p: Program,
    env: Env,
    group: Seq<Place>,
    values: Seq<ExprId>,
    evaluated: Seq<Value>,
    numbers: Seq<int>,
    first: bool,
    from: int,
    m: Machine,
) -> (r: (nat, Machine))
    requires
        poised(p, code, s, env, m),
        0 <= from,
        evaluated.len() == values.len(),
        forall|k: int| 0 <= k < values.len() ==> plain(type_of(p, #[trigger] values[k])),
        all_held(s, m, evaluated, numbers),
        covers(code, group_stored(s, p, group, values, evaluated, first, from)),
        group_written(p, env, group, values, numbers, first, from) is Some,
    ensures
        arrives(
            code,
            s,
            m,
            group_stored(s, p, group, values, evaluated, first, from),
            group_written(p, env, group, values, numbers, first, from)->0,
            r,
        ),
    decreases group.len() - from,
{
    lemma_here(code, s, m, env);
    lemma_group_built(p, s, group, values, evaluated, first, from);
    if from < group.len() && from < evaluated.len() {
        let t = type_of(p, values[from]);
        let s1 = store_to_place(s, group[from], evaluated[from], t, first);
        let u = group_stored(s1, p, group, values, evaluated, first, from + 1);
        let (mid, x) = own(env, numbers[from], first || t != PinpType::Str)->0;
        let after = name_written(mid, group[from], t, x)->0;
        let last = group_written(p, env, group, values, numbers, first, from)->0;
        lemma_covered(code, s1, u);
        assert(held(s, m, evaluated[from], numbers[from]));
        assert(plain(t));
        let q = if t == PinpType::Str {
            lemma_str_store_runs(
                code,
                s,
                p,
                env,
                group[from],
                evaluated[from],
                first,
                numbers[from],
                m,
            )
        } else {
            lemma_store_runs(
                code,
                s,
                p,
                env,
                group[from],
                evaluated[from],
                t,
                first,
                numbers[from],
                m,
            )
        };
        lemma_all_kept(s, s1, m, q.1, evaluated, numbers);
        let w = lemma_group_runs(
            code,
            s1,
            p,
            after,
            group,
            values,
            evaluated,
            numbers,
            first,
            from + 1,
            q.1,
        );
        lemma_arrives_further(code, s, m, s1, after, q, u, last, w);
        (q.0 + w.0, w.1)
    } else {
        (0, m)
    }
}

proof fn lemma_groups_run(
    code: Code,
    s: Lowering,
    p: Program,
    env: Env,
    groups: Seq<Seq<Place>>,
    values: Seq<ExprId>,
    evaluated: Seq<Value>,
    numbers: Seq<int>,
    from: int,
    m: Machine,
) -> (r: (nat, Machine))
    requires
        poised(p, code, s, env, m),
        0 <= from,
        evaluated.len() == values.len(),
        forall|k: int| 0 <= k < values.len() ==> plain(type_of(p, #[trigger] values[k])),
        all_held(s, m, evaluated, numbers),
        covers(code, groups_stored(s, p, groups, values, evaluated, from)),
        groups_written(p, env, groups, values, numbers, from) is Some,
    ensures
        arrives(
            code,
            s,
            m,
            groups_stored(s, p, groups, values, evaluated, from),
            groups_written(p, env, groups, values, numbers, from)->0,
            r,
        ),
    decreases groups.len() - from,
{
    lemma_here(code, s, m, env);
    lemma_groups_built(p, s, groups, values, evaluated, from);
    if from < groups.len() {
        let s1 = group_stored(s, p, groups[from], values, evaluated, from == 0, 0);
        let u = groups_stored(s1, p, groups, values, evaluated, from + 1);
        let after = group_written(p, env, groups[from], values, numbers, from == 0, 0)->0;
        let last = groups_written(p, env, groups, values, numbers, from)->0;
        lemma_covered(code, s1, u);
        let q = lemma_group_runs(
            code,
            s,
            p,
            env,
            groups[from],
            values,
            evaluated,
            numbers,
            from == 0,
            0,
            m,
        );
        lemma_all_kept(s, s1, m, q.1, evaluated, numbers);
        let w = lemma_groups_run(
            code,
            s1,
            p,
            after,
            groups,
            values,
            evaluated,
            numbers,
            from + 1,
            q.1,
        );
        lemma_arrives_further(code, s, m, s1, after, q, u, last, w);
        (q.0 + w.0, w.1)
    } else {
        (0, m)
    }
}

proof fn lemma_assign_runs(
    code: Code,
    s: Lowering,
    p: Program,
    env: Env,
    groups: Seq<Seq<Place>>,
    values: Seq<ExprId>,
    limit: int,
    fuel: nat,
    m: Machine,
) -> (r: (nat, Machine))
    requires
        poised(p, code, s, env, m),
        values.len() > 0,
        counted_parts(p, values, limit),
        ({
            let (s1, evaluated) = values_code(s, p, values, Seq::empty(), limit);
            covers(code, groups_stored(s1, p, groups, values, evaluated, 0))
        }),
        numbers_meant(p, env, values, Seq::empty(), limit, fuel) matches Some((after, numbers))
            && groups_written(p, after, groups, values, numbers, 0) is Some,
    ensures
        ({
            let (s1, evaluated) = values_code(s, p, values, Seq::empty(), limit);
            let t = groups_stored(s1, p, groups, values, evaluated, 0);
            let (after, numbers) = numbers_meant(p, env, values, Seq::empty(), limit, fuel)->0;
            let last = groups_written(p, after, groups, values, numbers, 0)->0;
            &&& arrives(code, s, m, t, last, r)
            &&& evaluated.len() > 0
            &&& held(t, r.1, evaluated.last(), numbers.last())
        }),
    decreases fuel, limit, 9int, p, 0int,
{
    let (s1, evaluated) = values_code(s, p, values, Seq::empty(), limit);
    let t = groups_stored(s1, p, groups, values, evaluated, 0);
    let (after, numbers) = numbers_meant(p, env, values, Seq::empty(), limit, fuel)->0;
    let last = groups_written(p, after, groups, values, numbers, 0)->0;
    lemma_assign_built(p, s, groups, values, limit);
    lemma_covered(code, s1, t);
    assert(all_held(s, m, Seq::empty(), Seq::empty()));
    let q = lemma_values_run(
        code,
        s,
        p,
        env,
        values,
        Seq::empty(),
        Seq::empty(),
        limit,
        fuel,
        m,
    );
    let u = lemma_groups_run(code, s1, p, after, groups, values, evaluated, numbers, 0, q.1);
    lemma_arrives_further(code, s, m, s1, after, q, t, last, u);
    assert(held(s1, q.1, evaluated[evaluated.len() - 1], numbers[numbers.len() - 1]));
    lemma_held_kept(s1, t, q.1, u.1, evaluated.last(), numbers.last());
    (q.0 + u.0, u.1)
}

// ---------------------------------------------------------------------------
// Loops
// ---------------------------------------------------------------------------

proof fn lemma_while_covered(
    code: Code,
    p: Program,
    s: Lowering,
    cond: ExprId,
    body: BlockView,
    limit: int,
)
    requires
        sane(p, s),
        counted_value(p, cond, limit),
        counted_block(p, body, limit),
        covers(code, while_code(s, p, cond, body, limit)),
    ensures
        ({
            let (s3, s5, s6, s8, s9) = while_states(s, p, cond, body, limit);
            let n = s.blocks.len() as int;
            let holds = expect_value(s5, p, cond, limit).1;
            &&& covers(code, op(s9, Op::Branch(n as usize)))
            &&& covers(code, s9)
            &&& covers(
                code,
                op(s6, Op::CondBranch(holds, (n + 1) as usize, (n + 2) as usize)),
            )
            &&& covers(code, s6)
            &&& covers(code, op(s3, Op::Branch(n as usize)))
            &&& s.insts.len() <= s5.insts.len() <= s6.insts.len()
            &&& s6.insts.len() <= s8.insts.len() <= s9.insts.len()
        }),
{
    let (s3, s5, s6, s8, s9) = while_states(s, p, cond, body, limit);
    let n = s.blocks.len() as int;
    let holds = expect_value(s5, p, cond, limit).1;
    let test = Op::CondBranch(holds, (n + 1) as usize, (n + 2) as usize);
    let jump = Op::Branch(n as usize);
    let t = while_code(s, p, cond, body, limit);
    lemma_while_built(p, s, cond, body, limit);
    lemma_covers_moved(code, op(s9, jump), t);
    lemma_op_covered(code, p, s9, jump);
    lemma_covered(code, s8, s9);
    lemma_covers_moved(code, op(s6, test), s8);
    lemma_op_covered(code, p, s6, test);
    lemma_covered(code, s5, s6);
    lemma_covers_moved(code, op(s3, jump), s5);
}

proof fn lemma_while_runs(
    code: Code,
    s: Lowering,
    p: Program,
    env: Env,
    cond: ExprId,
    body: BlockView,
    limit: int,
    fuel: nat,
    m: Machine,
) -> (r: (nat, Machine))
    requires
        poised(p, code, s, env, m),
        counted_value(p, cond, limit),
        counted_block(p, body, limit),
        covers(code, while_code(s, p, cond, body, limit)),
        stmt_meant(p, env, StmtView::While(cond, body), limit, fuel) is Some,
    ensures
        arrives(
            code,
            s,
            m,
            while_code(s, p, cond, body, limit),
            stmt_meant(p, env, StmtView::While(cond, body), limit, fuel)->0.env,
            r,
        ),
        stmt_meant(p, env, StmtView::While(cond, body), limit, fuel)->0.number is None,
    decreases fuel, limit, 10int, body, body.stmts.len() + 4,
{
    let (s3, s5, s6, s8, s9) = while_states(s, p, cond, body, limit);
    let n = s.blocks.len() as usize;
    lemma_while_built(p, s, cond, body, limit);
    lemma_while_covered(code, p, s, cond, body, limit);
    lemma_here(code, s, m, env);
    assert(arrives(code, s, m, s3, env, (0, m)));
    lemma_jumps(code, s, m, s3, env, (0, m), InstView::Op(Op::Branch(n)), n);
    let m1 = jumped(m, n);
    let q = lemma_rounds_run(code, s, p, env, cond, body, limit, fuel, m1);
    lemma_run_on(code, m, m1, q.1, 1, q.0);
    lemma_same_further(s, s, m, m1, q.1);
    (1 + q.0, q.1)
}

/// The rounds of a `while`, from its test on.
proof fn lemma_rounds_run(
    code: Code,
    s: Lowering,
    p: Program,
    env: Env,
    cond: ExprId,
    body: BlockView,
    limit: int,
    fuel: nat,
    m: Machine,
) -> (r: (nat, Machine))
    requires
        sane(p, s),
        mirrors(s, env, m),
        linked(p, code, s.callables, s.global_slots),
        counted_program(p),
        m.constants == code.floats,
        m.block == s.blocks.len(),
        m.at == 0,
        counted_value(p, cond, limit),
        counted_block(p, body, limit),
        covers(code, while_code(s, p, cond, body, limit)),
        stmt_meant(p, env, StmtView::While(cond, body), limit, fuel) is Some,
    ensures
        arrives(
            code,
            s,
            m,
            while_code(s, p, cond, body, limit),
            stmt_meant(p, env, StmtView::While(cond, body), limit, fuel)->0.env,
            r,
        ),
        stmt_meant(p, env, StmtView::While(cond, body), limit, fuel)->0.number is None,
    decreases fuel, limit, 10int, body, body.stmts.len() + 3,
{
    let (s3, s5, s6, s8, s9) = while_states(s, p, cond, body, limit);
    let n = s.blocks.len() as int;
    let stmt = StmtView::While(cond, body);
    lemma_while_built(p, s, cond, body, limit);
    lemma_while_covered(code, p, s, cond, body, limit);
    let holds = expect_value(s5, p, cond, limit).1;
    let test = InstView::Op(Op::CondBranch(holds, (n + 1) as usize, (n + 2) as usize));
    let jump = InstView::Op(Op::Branch(n as usize));
    lemma_emitted_scope(s9, jump);
    let (after, x) = number_meant(p, env, cond, limit, fuel)->0;
    let q = lemma_expect_runs(code, s5, p, env, cond, limit, fuel, m);
    if x == 0 {
        lemma_jumps(code, s5, m, s6, after, q, test, (n + 2) as usize);
        (q.0 + 1, jumped(q.1, (n + 2) as usize))
    } else {
        lemma_jumps(code, s5, m, s6, after, q, test, (n + 1) as usize);
        let m2 = jumped(q.1, (n + 1) as usize);
        lemma_emitted_scope(s6, test);
        let ran = block_meant(p, after, body, limit, fuel)->0;
        let u = lemma_block_runs(code, s8, p, after, body, limit, fuel, m2);
        lemma_jumps(code, s8, m2, s9, ran.env, u, jump, n as usize);
        let m4 = jumped(u.1, n as usize);
        let w = lemma_rounds_run(
            code,
            s,
            p,
            ran.env,
            cond,
            body,
            limit,
            (fuel - 1) as nat,
            m4,
        );
        lemma_run_on(code, m, m2, m4, q.0 + 1, u.0 + 1);
        lemma_run_on(code, m, m4, w.1, q.0 + 1 + u.0 + 1, w.0);
        lemma_same_further(s, s8, m, m2, m4);
        lemma_same_further(s, s, m, m4, w.1);
        assert(stmt_meant(p, env, stmt, limit, fuel) == stmt_meant(
            p,
            ran.env,
            stmt,
            limit,
            (fuel - 1) as nat,
        ));
        (q.0 + 1 + u.0 + 1 + w.0, w.1)
    }
}

proof fn lemma_loop_covered(
    code: Code,
    p: Program,
    s: Lowering,
    body: BlockView,
    cond: ExprId,
    until: bool,
    limit: int,
)
    requires
        sane(p, s),
        counted_value(p, cond, limit),
        counted_block(p, body, limit),
        covers(code, loop_code(s, p, body, cond, until, limit)),
    ensures
        ({
            let (s2, s4, s5, s6) = loop_states(s, p, body, cond, limit);
            let n = s.blocks.len() as int;
            let holds = expect_value(s5, p, cond, limit).1;
            &&& covers(code, op(s6, loop_test(until, holds, n as usize, (n + 1) as usize)))
            &&& covers(code, s6)
            &&& covers(code, s5)
            &&& covers(code, op(s2, Op::Branch(n as usize)))
            &&& s.insts.len() <= s4.insts.len() <= s5.insts.len() <= s6.insts.len()
        }),
{
    let (s2, s4, s5, s6) = loop_states(s, p, body, cond, limit);
    let n = s.blocks.len() as int;
    let holds = expect_value(s5, p, cond, limit).1;
    let test = loop_test(until, holds, n as usize, (n + 1) as usize);
    let t = loop_code(s, p, body, cond, until, limit);
    lemma_loop_built(p, s, body, cond, until, limit);
    lemma_covers_moved(code, op(s6, test), t);
    lemma_op_covered(code, p, s6, test);
    lemma_covered(code, s5, s6);
    lemma_covered(code, s4, s5);
    lemma_covers_moved(code, op(s2, Op::Branch(n as usize)), s4);
}

proof fn lemma_loop_runs(
    code: Code,
    s: Lowering,
    p: Program,
    env: Env,
    body: BlockView,
    cond: ExprId,
    until: bool,
    limit: int,
    fuel: nat,
    m: Machine,
) -> (r: (nat, Machine))
    requires
        poised(p, code, s, env, m),
        counted_value(p, cond, limit),
        counted_block(p, body, limit),
        covers(code, loop_code(s, p, body, cond, until, limit)),
        stmt_meant(p, env, StmtView::Loop(body, cond, until), limit, fuel) is Some,
    ensures
        arrives(
            code,
            s,
            m,
            loop_code(s, p, body, cond, until, limit),
            stmt_meant(p, env, StmtView::Loop(body, cond, until), limit, fuel)->0.env,
            r,
        ),
        stmt_meant(p, env, StmtView::Loop(body, cond, until), limit, fuel)->0.number is None,
    decreases fuel, limit, 10int, body, body.stmts.len() + 4,
{
    let (s2, s4, s5, s6) = loop_states(s, p, body, cond, limit);
    let n = s.blocks.len() as usize;
    lemma_loop_built(p, s, body, cond, until, limit);
    lemma_loop_covered(code, p, s, body, cond, until, limit);
    lemma_here(code, s, m, env);
    assert(arrives(code, s, m, s2, env, (0, m)));
    lemma_jumps(code, s, m, s2, env, (0, m), InstView::Op(Op::Branch(n)), n);
    let m1 = jumped(m, n);
    let q = lemma_passes_run(code, s, p, env, body, cond, until, limit, fuel, m1);
    lemma_run_on(code, m, m1, q.1, 1, q.0);
    lemma_same_further(s, s, m, m1, q.1);
    (1 + q.0, q.1)
}

/// The passes of a `loop`, from its body on.
proof fn lemma_passes_run(
    code: Code,
    s: Lowering,
    p: Program,
    env: Env,
    body: BlockView,
    cond: ExprId,
    until: bool,
    limit: int,
    fuel: nat,
    m: Machine,
) -> (r: (nat, Machine))
    requires
        sane(p, s),
        mirrors(s, env, m),
        linked(p, code, s.callables, s.global_slots),
        counted_program(p),
        m.constants == code.floats,
        m.block == s.blocks.len(),
        m.at == 0,
        counted_value(p, cond, limit),
        counted_block(p, body, limit),
        covers(code, loop_code(s, p, body, cond, until, limit)),
        stmt_meant(p, env, StmtView::Loop(body, cond, until), limit, fuel) is Some,
    ensures
        arrives(
            code,
            s,
            m,
            loop_code(s, p, body, cond, until, limit),
            stmt_meant(p, env, StmtView::Loop(body, cond, until), limit, fuel)->0.env,
            r,
        ),
        stmt_meant(p, env, StmtView::Loop(body, cond, until), limit, fuel)->0.number is None,
    decreases fuel, limit, 10int, body, body.stmts.len() + 3,
{
    let (s2, s4, s5, s6) = loop_states(s, p, body, cond, limit);
    let n = s.blocks.len() as int;
    let stmt = StmtView::Loop(body, cond, until);
    lemma_loop_built(p, s, body, cond, until, limit);
    lemma_loop_covered(code, p, s, body, cond, until, limit);
    let holds = expect_value(s5, p, cond, limit).1;
    let test = InstView::Op(loop_test(until, holds, n as usize, (n + 1) as usize));
    lemma_emitted_scope(s6, test);
    let ran = block_meant(p, env, body, limit, fuel)->0;
    let (after, x) = number_meant(p, ran.env, cond, limit, fuel)->0;
    let q = lemma_block_runs(code, s4, p, env, body, limit, fuel, m);
    let u = lemma_expect_runs(code, s5, p, ran.env, cond, limit, fuel, q.1);
    lemma_arrives_further(code, s4, m, s5, ran.env, q, s6, after, u);
    let w = (q.0 + u.0, u.1);
    if (x != 0) == until {
        lemma_jumps(code, s4, m, s6, after, w, test, (n + 1) as usize);
        (w.0 + 1, jumped(w.1, (n + 1) as usize))
    } else {
        lemma_jumps(code, s4, m, s6, after, w, test, n as usize);
        let m2 = jumped(w.1, n as usize);
        let v = lemma_passes_run(
            code,
            s,
            p,
            after,
            body,
            cond,
            until,
            limit,
            (fuel - 1) as nat,
            m2,
        );
        lemma_run_on(code, m, m2, v.1, w.0 + 1, v.0);
        lemma_same_further(s, s, m, m2, v.1);
        assert(stmt_meant(p, env, stmt, limit, fuel) == stmt_meant(
            p,
            after,
            stmt,
            limit,
            (fuel - 1) as nat,
        ));
        (w.0 + 1 + v.0, v.1)
    }
}

/// A slot that no name has can be written without a name noticing.
pub proof fn lemma_stored_aside(s: Lowering, env: Env, m: Machine, place: Value, x: int)
    requires
        mirrors(s, env, m),
        !(place is Global),
        forall|k: int, sym: u32|
            0 <= k < s.frames.len() && #[trigger] s.frames[k].contains_key(sym)
                ==> s.frames[k][sym].place != place,
    ensures
        mirrors(s, env, storing(m, place, x)),
{
    reveal(mirrored);
    let m1 = storing(m, place, x);
    assert forall|k: int, sym: u32|
        #![trigger s.frames[k].contains_key(sym)]
        0 <= k < s.frames.len() && s.frames[k].contains_key(sym) implies {
        &&& m1.slots.contains_key(s.frames[k][sym].place)
        &&& m1.slots[s.frames[k][sym].place] == env.frames[k][sym].value
        &&& s.frames[k][sym].value_type == env.frames[k][sym].kind
        &&& k > 0 ==> numeric(s.frames[k][sym].value_type)
    } by {}
}

/// What the innermost name of a block with one name stands for is in its slot.
proof fn lemma_last_slot(t: Lowering, env: Env, m: Machine, sym: u32)
    requires
        mirrors(t, env, m),
        t.frames.len() > 0,
        t.frames.last().contains_key(sym),
    ensures
        m.slots.contains_key(t.frames.last()[sym].place),
        m.slots[t.frames.last()[sym].place] == env.frames.last()[sym].value,
{
    reveal(mirrored);
    assert(t.frames[t.frames.len() - 1].contains_key(sym));
}

proof fn lemma_for_covered(
    code: Code,
    p: Program,
    s: Lowering,
    var: SymId,
    source: ExprId,
    body: BlockView,
    limit: int,
)
    requires
        sane(p, s),
        for_built(p, s, var, source, body, limit),
        covers(code, for_code(s, p, var, source, body, limit)),
    ensures
        ({
            let f = for_states(s, p, var, source, body, limit);
            let n = f.set.blocks.len() as int;
            let test = Op::CondBranch(f.holds, (n + 1) as usize, (n + 2) as usize);
            let start = op(f.made, Op::Store(f.counter, f.parts.start));
            let next = load_counter(f.left, f.counter).0;
            let sum = op(next, Op::IntBinary(IntOp::Add, next_value(f.left), f.parts.step));
            let stored = op(sum, Op::Store(f.counter, next_value(next)));
            &&& covers(code, op(stored, Op::Branch(n as usize)))
            &&& covers(code, stored)
            &&& covers(code, sum)
            &&& covers(code, next)
            &&& covers(code, f.ran)
            &&& covers(code, op(f.tested, test))
            &&& covers(code, f.tested)
            &&& covers(code, load_counter(f.at_test, f.counter).0)
            &&& covers(code, op(f.blocks, Op::Branch(n as usize)))
            &&& covers(code, f.set)
            &&& covers(code, start)
            &&& covers(code, f.opened)
            &&& covers(code, f.ranged)
            &&& element(code, f.counter) is None
        }),
{
    let f = for_states(s, p, var, source, body, limit);
    let n = f.set.blocks.len() as int;
    let test = Op::CondBranch(f.holds, (n + 1) as usize, (n + 2) as usize);
    let start = op(f.made, Op::Store(f.counter, f.parts.start));
    let next = load_counter(f.left, f.counter).0;
    let sum = op(next, Op::IntBinary(IntOp::Add, next_value(f.left), f.parts.step));
    let stored = op(sum, Op::Store(f.counter, next_value(next)));
    let jump = Op::Branch(n as usize);
    let t = for_code(s, p, var, source, body, limit);
    lemma_covers_moved(code, op(stored, jump), t);
    lemma_op_covered(code, p, stored, jump);
    lemma_covered(code, sum, stored);
    lemma_covered(code, next, sum);
    lemma_covered(code, f.left, next);
    lemma_covers_moved(code, f.ran, f.left);
    lemma_covered(code, f.scoped, f.ran);
    lemma_covers_moved(code, op(f.tested, test), f.scoped);
    lemma_op_covered(code, p, f.tested, test);
    lemma_covered(code, load_counter(f.at_test, f.counter).0, f.tested);
    lemma_covered(code, f.at_test, load_counter(f.at_test, f.counter).0);
    lemma_covers_moved(code, op(f.blocks, jump), f.at_test);
    lemma_op_covered(code, p, f.blocks, jump);
    lemma_covered(code, f.set, f.blocks);
    lemma_covered(code, start, f.set);
    lemma_covered(code, f.made, start);
    lemma_covered(code, f.opened, f.made);
    lemma_covered(code, f.ranged, f.opened);
    assert(code.insts[f.opened.insts.len() as int] == start.insts[f.opened.insts.len() as int]);
    assert(start.insts[f.opened.insts.len() as int] == f.made.insts[f.opened.insts.len() as int]);
}

/// The test of a `for` at what its counter holds.
proof fn lemma_for_test_runs(
    code: Code,
    s: Lowering,
    p: Program,
    env: Env,
    var: SymId,
    source: ExprId,
    body: BlockView,
    current: int,
    range: Stretch,
    limit: int,
    m: Machine,
) -> (r: (nat, Machine))
    requires
        sane(p, s),
        for_built(p, s, var, source, body, limit),
        covers(code, for_code(s, p, var, source, body, limit)),
        mirrors(s, env, m),
        ({
            let f = for_states(s, p, var, source, body, limit);
            &&& m.block == f.set.blocks.len()
            &&& m.at == 0
            &&& parts_held(f.set, m, f.parts, range)
            &&& held(f.set, m, f.going_up, truth(range.step > 0))
            &&& m.slots.contains_key(f.counter)
            &&& m.slots[f.counter] == current
        }),
    ensures
        ({
            let f = for_states(s, p, var, source, body, limit);
            let n = f.set.blocks.len() as int;
            let on = goes_on(current, range.stop, range.inclusive, range.step > 0);
            &&& run(code, m, r.0) == Some(r.1)
            &&& r.1.block == if on {
                n + 1
            } else {
                n + 2
            }
            &&& r.1.at == 0
            &&& same_before(f.set, m, r.1)
            &&& r.1.slots == m.slots
            &&& r.1.memory == m.memory
            &&& r.1.strings == m.strings
        }),
{
    let f = for_states(s, p, var, source, body, limit);
    let n = f.set.blocks.len() as int;
    let on = goes_on(current, range.stop, range.inclusive, range.step > 0);
    lemma_for_covered(code, p, s, var, source, body, limit);
    let a = f.at_test;
    let load = Op::Load(IrType::I64, f.counter);
    let s11 = op(a, load);
    let test = Op::CondBranch(f.holds, (n + 1) as usize, (n + 2) as usize);
    lemma_here(code, a, m, env);
    lemma_parts_kept(f.set, a, m, m, f.parts, range);
    let r1 = lemma_op_runs(code, p, a, m, a, env, (0, m), load, current);
    lemma_parts_kept(a, s11, m, r1.1, f.parts, range);
    lemma_held_kept(a, s11, m, r1.1, f.going_up, truth(range.step > 0));
    let r2 = lemma_continue_runs(
        code,
        p,
        a,
        m,
        s11,
        env,
        r1,
        (next_value(a), f.parts.stop, f.parts.inclusive, f.going_up),
        current,
        range.stop,
        range.inclusive,
        range.step > 0,
    );
    let target = if on {
        (n + 1) as usize
    } else {
        (n + 2) as usize
    };
    lemma_jumps(code, a, m, f.tested, env, r2, InstView::Op(test), target);
    (r2.0 + 1, jumped(r2.1, target))
}

/// What a round of a `for` ends in: the counter moved on by the step, and the way back to the test.
proof fn lemma_for_next_runs(
    code: Code,
    s: Lowering,
    p: Program,
    env: Env,
    var: SymId,
    source: ExprId,
    body: BlockView,
    reached: int,
    step: int,
    limit: int,
    m: Machine,
) -> (r: (nat, Machine))
    requires
        sane(p, s),
        for_built(p, s, var, source, body, limit),
        covers(code, for_code(s, p, var, source, body, limit)),
        mirrors(s, env, m),
        ({
            let f = for_states(s, p, var, source, body, limit);
            &&& caught_up(f.left, m)
            &&& held(f.set, m, f.parts.step, step)
            &&& m.slots.contains_key(f.counter)
            &&& m.slots[f.counter] == reached
        }),
    ensures
        ({
            let f = for_states(s, p, var, source, body, limit);
            &&& run(code, m, r.0) == Some(r.1)
            &&& r.1.block == f.set.blocks.len()
            &&& r.1.at == 0
            &&& same_before(f.set, m, r.1)
            &&& mirrors(s, env, r.1)
            &&& r.1.slots.contains_key(f.counter)
            &&& r.1.slots[f.counter] == wrapped(reached + step)
        }),
{
    let f = for_states(s, p, var, source, body, limit);
    let n = f.set.blocks.len() as int;
    lemma_for_covered(code, p, s, var, source, body, limit);
    let a = f.left;
    let load = Op::Load(IrType::I64, f.counter);
    let next = op(a, load);
    let add_step = Op::IntBinary(IntOp::Add, next_value(a), f.parts.step);
    let sum = op(next, add_step);
    let store = InstView::Op(Op::Store(f.counter, next_value(next)));
    let stored = emitted(sum, store);
    let jump = InstView::Op(Op::Branch(n as usize));
    let x = wrapped(reached + step);
    lemma_here(code, a, m, env);
    lemma_held_kept(f.set, a, m, m, f.parts.step, step);
    let r1 = lemma_op_runs(code, p, a, m, a, env, (0, m), load, reached);
    lemma_held_kept(a, next, m, r1.1, f.parts.step, step);
    let r2 = lemma_op_runs(code, p, a, m, next, env, r1, add_step, x);
    lemma_next(code, sum, store, r2.1);
    let m3 = storing(r2.1, f.counter, x);
    lemma_run_step(code, m, r2.1, m3, r2.0);
    assert forall|k: int, sym: u32|
        0 <= k < s.frames.len() && #[trigger] s.frames[k].contains_key(sym) implies
            s.frames[k][sym].place != f.counter by {}
    lemma_stored_aside(s, env, r2.1, f.counter, x);
    lemma_count_kept(sum, store);
    lemma_emitted_extends(p, sum, store);
    assert(same_before(a, m, m3));
    assert(arrives(code, a, m, stored, env, (r2.0 + 1, m3)));
    lemma_jumps(code, a, m, stored, env, (r2.0 + 1, m3), jump, n as usize);
    (r2.0 + 2, jumped(m3, n as usize))
}

/// The rounds of a `for`, from its test on.
#[verifier::rlimit(100)]
#[verifier::spinoff_prover]
proof fn lemma_for_rounds_run(
    code: Code,
    s: Lowering,
    p: Program,
    env: Env,
    var: SymId,
    source: ExprId,
    body: BlockView,
    current: int,
    range: Stretch,
    limit: int,
    fuel: nat,
    m: Machine,
) -> (r: (nat, Machine))
    requires
        sane(p, s),
        counted_block(p, body, limit),
        linked(p, code, s.callables, s.global_slots),
        counted_program(p),
        for_built(p, s, var, source, body, limit),
        covers(code, for_code(s, p, var, source, body, limit)),
        mirrors(s, env, m),
        m.constants == code.floats,
        ({
            let f = for_states(s, p, var, source, body, limit);
            &&& m.block == f.set.blocks.len()
            &&& m.at == 0
            &&& parts_held(f.set, m, f.parts, range)
            &&& held(f.set, m, f.going_up, truth(range.step > 0))
            &&& m.slots.contains_key(f.counter)
            &&& m.slots[f.counter] == current
        }),
        rounds_meant(p, env, var, current, range, body, limit, fuel) is Some,
    ensures
        ({
            let f = for_states(s, p, var, source, body, limit);
            let last = rounds_meant(p, env, var, current, range, body, limit, fuel)->0;
            &&& run(code, m, r.0) == Some(r.1)
            &&& r.1.block == f.set.blocks.len() + 2
            &&& r.1.at == 0
            &&& same_before(f.set, m, r.1)
            &&& mirrors(s, last, r.1)
        }),
    decreases fuel, limit, 10int, body, body.stmts.len() + 3,
{
    let f = for_states(s, p, var, source, body, limit);
    let q = lemma_for_test_runs(code, s, p, env, var, source, body, current, range, limit, m);
    if goes_on(current, range.stop, range.inclusive, range.step > 0) {
        lemma_for_covered(code, p, s, var, source, body, limit);
        let slot = Slot { place: f.counter, value_type: PinpType::Int };
        let held = Held { kind: PinpType::Int, value: current };
        let around = Env { frames: env.frames.push(map![var.0 => held]), ..env };
        lemma_opened_with(s, env, q.1, var.0, slot, held);
        assert(mirrors(f.scoped, around, q.1));
        let outcome = block_meant(p, around, body, limit, fuel)->0;
        let u = lemma_block_runs(code, f.scoped, p, around, body, limit, fuel, q.1);
        assert(f.ran.frames.drop_last() =~= s.frames);
        assert(f.ran.frames.last() == map![var.0 => slot]);
        lemma_last_slot(f.ran, outcome.env, u.1, var.0);
        lemma_closed(s, f.ran, outcome.env, u.1);
        let inner = closed_again(outcome.env);
        let reached = outcome.env.frames.last()[var.0].value;
        assert(same_before(f.set, m, u.1)) by {
            lemma_same_further(f.set, f.scoped, m, q.1, u.1);
        }
        lemma_parts_kept(f.set, f.set, m, u.1, f.parts, range);
        assert(list(f.left, f.ran.current as int) == list(f.ran, f.ran.current as int));
        let w = lemma_for_next_runs(
            code,
            s,
            p,
            inner,
            var,
            source,
            body,
            reached,
            range.step,
            limit,
            u.1,
        );
        lemma_run_on(code, m, q.1, u.1, q.0, u.0);
        lemma_run_on(code, m, u.1, w.1, q.0 + u.0, w.0);
        lemma_same_further(f.set, f.set, m, u.1, w.1);
        lemma_parts_kept(f.set, f.set, m, w.1, f.parts, range);
        lemma_held_kept(f.set, f.set, m, w.1, f.going_up, truth(range.step > 0));
        let v = lemma_for_rounds_run(
            code,
            s,
            p,
            inner,
            var,
            source,
            body,
            wrapped(reached + range.step),
            range,
            limit,
            (fuel - 1) as nat,
            w.1,
        );
        lemma_run_on(code, m, w.1, v.1, q.0 + u.0 + w.0, v.0);
        lemma_same_further(f.set, f.set, m, w.1, v.1);
        (q.0 + u.0 + w.0 + v.0, v.1)
    } else {
        q
    }
}

#[verifier::rlimit(100)]
#[verifier::spinoff_prover]
proof fn lemma_for_runs(
    code: Code,
    s: Lowering,
    p: Program,
    env: Env,
    var: SymId,
    source: ExprId,
    body: BlockView,
    limit: int,
    fuel: nat,
    m: Machine,
) -> (r: (nat, Machine))
    requires
        poised(p, code, s, env, m),
        counted_range(p, source, limit),
        counted_block(p, body, limit),
        covers(code, for_code(s, p, var, source, body, limit)),
        range_meant(p, env, source, limit, fuel) matches Some((after, range)) && rounds_meant(
            p,
            after,
            var,
            range.start,
            range,
            body,
            limit,
            fuel,
        ) is Some,
    ensures
        ({
            let (after, range) = range_meant(p, env, source, limit, fuel)->0;
            let last = rounds_meant(p, after, var, range.start, range, body, limit, fuel)->0;
            arrives(code, s, m, for_code(s, p, var, source, body, limit), last, r)
        }),
    decreases fuel, limit, 10int, body, body.stmts.len() + 4,
{
    let (after, range) = range_meant(p, env, source, limit, fuel)->0;
    let f = for_states(s, p, var, source, body, limit);
    let n = f.set.blocks.len() as int;
    lemma_for_built(p, s, var, source, body, limit);
    lemma_for_covered(code, p, s, var, source, body, limit);
    lemma_range_built(p, s, source, limit);
    let range_value = expect_value(s, p, source, limit).1;
    let store = InstView::Op(Op::Store(f.counter, f.parts.start));
    let start = emitted(f.made, store);
    let up = Op::IntCompare(IntPredicate::Sgt, f.parts.step, Value::Int(0));
    let jump = InstView::Op(Op::Branch(n as usize));
    let q = lemma_range_runs(code, s, p, env, source, limit, fuel, m);
    let u = lemma_extract_runs(code, p, s, m, f.ranged, after, q, range_value, range);
    lemma_parts_kept(f.opened, f.made, u.1, u.1, f.parts, range);
    assert(arrives(code, s, m, f.made, after, u));
    lemma_next(code, f.made, store, u.1);
    let m2 = storing(u.1, f.counter, range.start);
    lemma_run_step(code, m, u.1, m2, u.0);
    assert forall|k: int, sym: u32|
        0 <= k < s.frames.len() && #[trigger] s.frames[k].contains_key(sym) implies
            s.frames[k][sym].place != f.counter by {}
    lemma_stored_aside(s, after, u.1, f.counter, range.start);
    lemma_count_kept(f.made, store);
    lemma_emitted_extends(p, f.made, store);
    assert(same_before(f.made, u.1, m2));
    lemma_parts_kept(f.made, start, u.1, m2, f.parts, range);
    assert(arrives(code, s, m, start, after, (u.0 + 1, m2)));
    assert(f.set == op(start, up));
    let w = lemma_op_runs(
        code,
        p,
        s,
        m,
        start,
        after,
        (u.0 + 1, m2),
        up,
        truth(range.step > 0),
    );
    lemma_parts_kept(start, f.set, m2, w.1, f.parts, range);
    assert(arrives(code, s, m, f.blocks, after, w));
    lemma_jumps(code, s, m, f.blocks, after, w, jump, n as usize);
    let m4 = jumped(w.1, n as usize);
    lemma_parts_kept(f.set, f.set, w.1, m4, f.parts, range);
    lemma_held_kept(f.set, f.set, w.1, m4, f.going_up, truth(range.step > 0));
    let v = lemma_for_rounds_run(
        code,
        s,
        p,
        after,
        var,
        source,
        body,
        range.start,
        range,
        limit,
        fuel,
        m4,
    );
    lemma_run_on(code, m, m4, v.1, w.0 + 1, v.0);
    lemma_same_further(s, f.set, m, m4, v.1);
    (w.0 + 1 + v.0, v.1)
}


// ---------------------------------------------------------------------------
// Strings
// ---------------------------------------------------------------------------

/// A string to have for oneself.
proof fn lemma_owned_runs(
    code: Code,
    s: Lowering,
    p: Program,
    env: Env,
    expr_id: ExprId,
    limit: int,
    fuel: nat,
    m: Machine,
) -> (r: (nat, Machine))
    requires
        poised(p, code, s, env, m),
        counted_string(p, expr_id, limit),
        covers(code, owned_str_code(s, p, expr_id, limit).0),
        number_meant(p, env, expr_id, limit, fuel) matches Some((after, x)) && own(
            after,
            x,
            owns_str_result(p, expr_id),
        ) is Some,
    ensures
        ({
            let (after, x) = number_meant(p, env, expr_id, limit, fuel)->0;
            computes(
                code,
                s,
                m,
                owned_str_code(s, p, expr_id, limit).0,
                owned_str_code(s, p, expr_id, limit).1,
                own(after, x, owns_str_result(p, expr_id)),
                r,
            )
        }),
    decreases fuel, limit, 2int, p, 0int,
{
    let (s1, value) = expect_value(s, p, expr_id, limit);
    let (t, kept) = owned_str_code(s, p, expr_id, limit);
    let owned = owns_str_result(p, expr_id);
    let (after, x) = number_meant(p, env, expr_id, limit, fuel)->0;
    let (last, y) = own(after, x, owned)->0;
    lemma_owned_built(p, s, expr_id, limit);
    lemma_covered(code, s1, t);
    let q = lemma_expect_runs(code, s, p, env, expr_id, limit, fuel, m);
    let u = lemma_own_runs(code, s1, p, after, q.1, value, x, owned);
    lemma_arrives_further(code, s, m, s1, after, q, t, last, u);
    (q.0 + u.0, u.1)
}

/// The `str(x)` built-in.
proof fn lemma_conversion_runs(
    code: Code,
    s: Lowering,
    p: Program,
    env: Env,
    arg: ExprId,
    limit: int,
    fuel: nat,
    m: Machine,
) -> (r: (nat, Machine))
    requires
        poised(p, code, s, env, m),
        counted_part(p, arg, limit),
        covers(code, str_conversion_code(s, p, arg, limit).0),
        number_meant(p, env, arg, limit, fuel) matches Some((after, x)) && converted(
            p,
            after,
            arg,
            x,
        ) is Some,
    ensures
        ({
            let (after, x) = number_meant(p, env, arg, limit, fuel)->0;
            computes(
                code,
                s,
                m,
                str_conversion_code(s, p, arg, limit).0,
                str_conversion_code(s, p, arg, limit).1,
                converted(p, after, arg, x),
                r,
            )
        }),
    decreases fuel, limit, 4int, p, 0int,
{
    let kind = type_of(p, arg);
    let (after, x) = number_meant(p, env, arg, limit, fuel)->0;
    lemma_conversion_built(p, s, arg, limit);
    if kind == PinpType::Str {
        assert(owned_str_code(s, p, arg, limit) == owned_str_code(s, p, arg, limit));
        lemma_owned_runs(code, s, p, env, arg, limit, fuel, m)
    } else {
        let (s1, value) = expect_value(s, p, arg, limit);
        let (t, made) = str_from_value(s1, value, kind);
        let (last, y) = rendered(after, kind, x)->0;
        lemma_covered(code, s1, t);
        let q = lemma_expect_runs(code, s, p, env, arg, limit, fuel, m);
        let u = lemma_render_runs(code, s1, p, after, q.1, value, kind, x);
        lemma_arrives_further(code, s, m, s1, after, q, t, last, u);
        (q.0 + u.0, u.1)
    }
}

/// The parts of a join.
proof fn lemma_str_values_run(
    code: Code,
    s: Lowering,
    p: Program,
    env: Env,
    parts: Seq<ExprId>,
    done: Seq<StrPart>,
    pieces: Seq<Piece>,
    limit: int,
    fuel: nat,
    m: Machine,
) -> (r: (nat, Machine))
    requires
        poised(p, code, s, env, m),
        counted_parts(p, parts, limit),
        done.len() <= parts.len(),
        pieces_held(s, m, done, pieces),
        covers(code, str_values(s, p, parts, done, limit).0),
        pieces_meant(p, env, parts, pieces, limit, fuel) is Some,
    ensures
        ({
            let (t, values) = str_values(s, p, parts, done, limit);
            let (last, found) = pieces_meant(p, env, parts, pieces, limit, fuel)->0;
            arrives(code, s, m, t, last, r) && pieces_held(t, r.1, values, found)
        }),
    decreases fuel, limit, 3int, p, parts.len() - done.len(),
{
    lemma_here(code, s, m, env);
    if done.len() < parts.len() {
        let part = parts[done.len() as int];
        assert(counted_part(p, part, limit));
        let kind = type_of(p, part);
        let (s1, raw) = expect_value(s, p, part, limit);
        let (s2, value) = str_from_value(s1, raw, kind);
        let owned = kind != PinpType::Str || owns_str_result(p, part);
        let more = done.push(StrPart { value, owned });
        let t = str_values(s2, p, parts, more, limit).0;
        let (mid, x) = number_meant(p, env, part, limit, fuel)->0;
        let (after, string) = rendered(mid, kind, x)->0;
        let found = pieces.push(Piece { string, owned });
        let (last, all) = pieces_meant(p, env, parts, pieces, limit, fuel)->0;
        assert(pieces_meant(p, env, parts, pieces, limit, fuel) == pieces_meant(
            p,
            after,
            parts,
            found,
            limit,
            fuel,
        ));
        lemma_str_values_built(p, s, parts, done, limit);
        lemma_covered(code, s2, t);
        lemma_covered(code, s1, s2);
        let q = lemma_expect_runs(code, s, p, env, part, limit, fuel, m);
        let u = lemma_render_runs(code, s1, p, mid, q.1, raw, kind, x);
        lemma_arrives_further(code, s, m, s1, mid, q, s2, after, u);
        lemma_pieces_kept(s, s2, m, u.1, done, pieces);
        lemma_pieces_more(s2, u.1, done, pieces, more.last(), found.last());
        let w = lemma_str_values_run(code, s2, p, after, parts, more, found, limit, fuel, u.1);
        lemma_arrives_further(code, s, m, s2, after, (q.0 + u.0, u.1), t, last, w);
        (q.0 + u.0 + w.0, w.1)
    } else {
        (0, m)
    }
}

proof fn lemma_str_concat_runs(
    code: Code,
    s: Lowering,
    p: Program,
    env: Env,
    a: ExprId,
    b: ExprId,
    limit: int,
    fuel: nat,
    m: Machine,
) -> (r: (nat, Machine))
    requires
        poised(p, code, s, env, m),
        counted_parts(p, str_parts(p, a, limit).push(b), limit),
        covers(code, str_concat_code(s, p, a, b, limit).0),
        pieces_meant(
            p,
            env,
            str_parts(p, a, limit).push(b),
            Seq::empty(),
            limit,
            fuel,
        ) matches Some((after, pieces)) && joined(after, pieces) is Some,
    ensures
        ({
            let parts = str_parts(p, a, limit).push(b);
            let (after, pieces) = pieces_meant(p, env, parts, Seq::empty(), limit, fuel)->0;
            computes(
                code,
                s,
                m,
                str_concat_code(s, p, a, b, limit).0,
                str_concat_code(s, p, a, b, limit).1,
                joined(after, pieces),
                r,
            )
        }),
    decreases fuel, limit, 4int, p, 0int,
{
    let parts = str_parts(p, a, limit).push(b);
    let (after, pieces) = pieces_meant(p, env, parts, Seq::empty(), limit, fuel)->0;
    let (last, string) = joined(after, pieces)->0;
    let (s1, values) = str_values(s, p, parts, Seq::empty(), limit);
    let t = build_concat(s1, values).0;
    lemma_str_concat_built(p, s, a, b, limit);
    lemma_covered(code, s1, t);
    let q = lemma_str_values_run(
        code,
        s,
        p,
        env,
        parts,
        Seq::empty(),
        Seq::empty(),
        limit,
        fuel,
        m,
    );
    let u = lemma_concat_runs(code, s1, p, after, q.1, values, pieces);
    lemma_arrives_further(code, s, m, s1, after, q, t, last, u);
    (q.0 + u.0, u.1)
}

proof fn lemma_str_compare_runs(
    code: Code,
    s: Lowering,
    p: Program,
    env: Env,
    operator: BinOp,
    a: ExprId,
    b: ExprId,
    limit: int,
    fuel: nat,
    m: Machine,
) -> (r: (nat, Machine))
    requires
        poised(p, code, s, env, m),
        compares(operator),
        counted_string(p, a, limit),
        counted_string(p, b, limit),
        covers(code, str_compare_code(s, p, operator, a, b, limit).0),
        number_meant(p, env, a, limit, fuel) matches Some((after, x)) && number_meant(
            p,
            after,
            b,
            limit,
            fuel,
        ) matches Some((last, y)) && comparison(
            last,
            operator,
            Piece { string: x, owned: owns_str_result(p, a) },
            Piece { string: y, owned: owns_str_result(p, b) },
        ) is Some,
    ensures
        ({
            let (after, x) = number_meant(p, env, a, limit, fuel)->0;
            let (last, y) = number_meant(p, after, b, limit, fuel)->0;
            let outcome = comparison(
                last,
                operator,
                Piece { string: x, owned: owns_str_result(p, a) },
                Piece { string: y, owned: owns_str_result(p, b) },
            )->0;
            let (t, value) = str_compare_code(s, p, operator, a, b, limit);
            &&& arrives(code, s, m, t, outcome.env, r)
            &&& held(t, r.1, value, outcome.number->0)
        }),
    decreases fuel, limit, 4int, p, 0int,
{
    let (after, x) = number_meant(p, env, a, limit, fuel)->0;
    let (last, y) = number_meant(p, after, b, limit, fuel)->0;
    let one = Piece { string: x, owned: owns_str_result(p, a) };
    let two = Piece { string: y, owned: owns_str_result(p, b) };
    let outcome = comparison(last, operator, one, two)->0;
    let (s1, left) = expect_value(s, p, a, limit);
    let (s2, right) = expect_value(s1, p, b, limit);
    let t = compare_tail(s2, operator, left, right, one.owned, two.owned).0;
    lemma_str_compare_built(p, s, operator, a, b, limit);
    lemma_covered(code, s2, t);
    lemma_covered(code, s1, s2);
    let q = lemma_expect_runs(code, s, p, env, a, limit, fuel, m);
    let u = lemma_expect_runs(code, s1, p, after, b, limit, fuel, q.1);
    lemma_held_kept(s1, s2, q.1, u.1, left, x);
    lemma_arrives_further(code, s, m, s1, after, q, s2, last, u);
    let w = lemma_compared_runs(
        code,
        s2,
        p,
        last,
        operator,
        left,
        right,
        one,
        two,
        u.1,
    );
    lemma_arrives_further(code, s, m, s2, last, (q.0 + u.0, u.1), t, outcome.env, w);
    (q.0 + u.0 + w.0, w.1)
}

} // verus!
