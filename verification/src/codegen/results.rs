//! A compiled program computes what it means.
//!
//! The code of a whole program is the code of its functions, one behind the other, and of its
//! top-level statements. A machine that starts where the entry function does, with every global zero,
//! comes to where it returns with the globals holding what the program makes of them, and the
//! program's number written to the address that the entry function is given.

use vstd::prelude::*;

use super::builder::{
    Lowering, Program, Slot, body_begun, emitted, failed, function_added, global_added, global_slot,
    innermost_slot, next_function, nothing_lowered, op,
};
use super::emit::{storable};
use super::joining::{
    lemma_discarded_built, lemma_emitted_straight, lemma_own_built, lemma_scope_freed_built,
    lemma_straight_further, straight,
};
use super::texts::{
    lemma_discarded_runs, lemma_own_runs, lemma_scope_freed_runs, lemma_step, lemma_strings_changed,
};
use super::building::{
    extends, grows_on, knows, lemma_emitted_extends, lemma_emitted_scope, lemma_extends_further,
    lemma_extends_same, lemma_freed_grows, lemma_grows_further, lemma_sane_kept, lemma_stmt_built,
    sane, slots_sound,
};
use super::effects::{
    arrives, held, lemma_arrives_further, lemma_begun, lemma_expr_meant, lemma_expr_runs,
    lemma_function_built, lemma_here, lemma_looked_up, lemma_stmt_runs, lemma_stored_aside,
    lemma_stored_global, linked, mirrored, mirrors, poised, stands,
};
use super::evaluation::{
    Env, Held, Outcome, block_meant, counted, counted_function, counted_part, counted_program,
    counted_stmt, discarded, function_from, globals_released, items_meant, meant, number_meant,
    plain, program_meant, scope_released, stmt_meant, value_meant,
};
use super::execution::{
    Code, Floats, Machine, Strings, begins, built_on, caught_up, cell, code_of, covers, fits,
    lemma_built_further, lemma_built_moved, lemma_count_kept, lemma_covered, lemma_next, list,
    operand, performed, reaches, storing, string_at, string_released, tidy,
};
use super::flow::{
    lemma_discarded_str_freed, lemma_entry_code, lemma_function_code, lemma_functions_declared,
    lemma_globals_declared, lemma_group_declared, lemma_groups_declared, lemma_items_code,
    lemma_value_written,
};
use super::soundness::{told_apart};
use super::validity::{countable, roomier};
use super::ir::{Callee, FunctionName, InstView, Op, RuntimeFn, Value};
use super::lowering::{
    discarded_str_freed, expr_code, free_global_strings, free_scope_strings, free_str_slot,
    function_code, functions_code, functions_declared, global_strings_freed, globals_declared,
    group_declared, groups_declared, items_code, lowered, own_str, param_types, program_owns_str,
    program_type, scope_strings_freed, stmt_code, type_of, value_written,
};
use crate::parser::ast::{
    ExprId, FuncDefView, PinpType, Place, StmtView, SymId, TopLevelView, symbol_of,
};

verus! {

// ---------------------------------------------------------------------------
// Globals and functions declared
// ---------------------------------------------------------------------------

/// Nothing has been emitted; every global is apart from the others and holds a whole number or a
/// string.
pub open spec fn declares(s: Lowering) -> bool {
    &&& s.insts.len() == 0
    &&& s.blocks.len() == 0
    &&& s.globals.len() <= usize::MAX
    &&& forall|sym: u32| #[trigger]
        s.global_slots.contains_key(sym) ==> {
            &&& s.global_slots[sym].place matches Value::Global(index) && index < s.globals.len()
            &&& plain(s.global_slots[sym].value_type)
        }
    &&& forall|sym: u32, name: u32| #[trigger]
        s.global_slots.contains_key(sym) && #[trigger] s.global_slots.contains_key(name) && sym
            != name ==> s.global_slots[sym].place != s.global_slots[name].place
}

proof fn lemma_group_declares(
    s: Lowering,
    p: Program,
    group: Seq<Place>,
    values: Seq<ExprId>,
    from: int,
)
    requires
        declares(s),
        forall|k: int| 0 <= k < values.len() ==> plain(type_of(p, #[trigger] values[k])),
        group_declared(s, p, group, values, from).globals.len() <= usize::MAX,
    ensures
        declares(group_declared(s, p, group, values, from)),
        group_declared(s, p, group, values, from).functions == s.functions,
        group_declared(s, p, group, values, from).callables == s.callables,
    decreases group.len() - from,
{
    reveal(global_slot);
    if 0 <= from < group.len() && from < values.len() {
        let sym_id = symbol_of(group[from]);
        let t = type_of(p, values[from]);
        let s1 = match global_slot(s, sym_id) {
            Some(_) => s,
            None => global_added(storable(s, t).0, sym_id, t),
        };
        lemma_group_declared(s1, p, group, values, from + 1);
        assert(declares(s1) && s1.functions == s.functions && s1.callables == s.callables) by {
            reveal(global_added);
        }
        lemma_group_declares(s1, p, group, values, from + 1);
    }
}

proof fn lemma_groups_declares(
    s: Lowering,
    p: Program,
    groups: Seq<Seq<Place>>,
    values: Seq<ExprId>,
    from: int,
)
    requires
        declares(s),
        forall|k: int| 0 <= k < values.len() ==> plain(type_of(p, #[trigger] values[k])),
        groups_declared(s, p, groups, values, from).globals.len() <= usize::MAX,
    ensures
        declares(groups_declared(s, p, groups, values, from)),
        groups_declared(s, p, groups, values, from).functions == s.functions,
        groups_declared(s, p, groups, values, from).callables == s.callables,
    decreases groups.len() - from,
{
    if 0 <= from < groups.len() {
        let s1 = group_declared(s, p, groups[from], values, 0);
        lemma_groups_declared(s1, p, groups, values, from + 1);
        lemma_group_declares(s, p, groups[from], values, 0);
        lemma_groups_declares(s1, p, groups, values, from + 1);
    }
}

proof fn lemma_globals_declares(s: Lowering, p: Program, from: int)
    requires
        declares(s),
        counted_program(p),
        0 <= from,
        globals_declared(s, p, from).globals.len() <= usize::MAX,
    ensures
        declares(globals_declared(s, p, from)),
        globals_declared(s, p, from).functions == s.functions,
        globals_declared(s, p, from).callables == s.callables,
    decreases p.ast.top_level.len() - from,
{
    if from < p.ast.top_level.len() {
        let limit = p.ast.nodes.len() as int;
        let item = p.ast.top_level[from];
        let s1 = match item {
            TopLevelView::Stmt(StmtView::Assign(groups, _, values)) => groups_declared(
                s,
                p,
                groups,
                values,
                0,
            ),
            _ => s,
        };
        lemma_globals_declared(s1, p, from + 1);
        if let TopLevelView::Stmt(StmtView::Assign(groups, _, values)) = item {
            assert(counted_stmt(p, item->Stmt_0, limit));
            assert forall|k: int| 0 <= k < values.len() implies plain(
                type_of(p, #[trigger] values[k]),
            ) by {
                assert(counted_part(p, values[k], limit));
            }
            lemma_groups_declares(s, p, groups, values, 0);
        }
        lemma_globals_declares(s1, p, from + 1);
    }
}

/// A function that is defined from an item on is one of the items.
proof fn lemma_located(p: Program, from: int, sym: u32) -> (at: int)
    requires
        0 <= from,
        function_from(p, from, sym) is Some,
    ensures
        from <= at < p.ast.top_level.len(),
        p.ast.top_level[at] == TopLevelView::Func(function_from(p, from, sym)->0),
        function_from(p, from, sym)->0.name.0 == sym,
    decreases p.ast.top_level.len() - from,
{
    match p.ast.top_level[from] {
        TopLevelView::Func(func) if func.name.0 == sym => from,
        _ => lemma_located(p, from + 1, sym),
    }
}

/// Where no two functions share a name, each is found by its name.
proof fn lemma_found(p: Program, from: int, at: int)
    requires
        told_apart(p.ast),
        0 <= from <= at < p.ast.top_level.len(),
        p.ast.top_level[at] is Func,
    ensures
        function_from(p, from, p.ast.top_level[at]->Func_0.name.0) == Some(
            p.ast.top_level[at]->Func_0,
        ),
    decreases at - from,
{
    if from < at {
        lemma_found(p, from + 1, at);
        if let TopLevelView::Func(f) = p.ast.top_level[from] {
            assert(f.name != p.ast.top_level[at]->Func_0.name);
        }
    }
}

/// A function has no second definition.
proof fn lemma_unique(p: Program, at: int)
    requires
        told_apart(p.ast),
        0 <= at < p.ast.top_level.len(),
        p.ast.top_level[at] is Func,
    ensures
        function_from(p, at + 1, p.ast.top_level[at]->Func_0.name.0) is None,
{
    let sym = p.ast.top_level[at]->Func_0.name.0;
    if function_from(p, at + 1, sym) is Some {
        let other = lemma_located(p, at + 1, sym);
        assert(p.ast.top_level[at]->Func_0.name != p.ast.top_level[other]->Func_0.name);
    }
}

/// What a function found from an item on is, it is from the first item on.
proof fn lemma_same_found(p: Program, from: int, sym: u32)
    requires
        told_apart(p.ast),
        0 <= from,
        function_from(p, from, sym) is Some,
    ensures
        function_from(p, 0, sym) == function_from(p, from, sym),
{
    let at = lemma_located(p, from, sym);
    lemma_found(p, 0, at);
}

/// The functions from an item on are declared: each has a signature of its own, and no code yet.
pub open spec fn announced(p: Program, from: int, t: Lowering, first: int) -> bool {
    &&& forall|sym: u32|
        (#[trigger] function_from(p, from, sym)) matches Some(func) ==> {
            &&& t.callables.contains_key(sym)
            &&& first <= t.callables[sym] < t.functions.len()
            &&& t.functions[t.callables[sym] as int].params == param_types(func.params)
            &&& t.functions[t.callables[sym] as int].result == func.return_type
            &&& t.functions[t.callables[sym] as int].entry is None
        }
    &&& forall|sym: u32, name: u32|
        (#[trigger] function_from(p, from, sym)) is Some && (#[trigger] function_from(
            p,
            from,
            name,
        )) is Some && sym != name ==> t.callables[sym] != t.callables[name]
}

proof fn lemma_announced(s: Lowering, p: Program, from: int)
    requires
        told_apart(p.ast),
        0 <= from,
        functions_declared(s, p, from).functions.len() <= usize::MAX,
    ensures
        ({
            let t = functions_declared(s, p, from);
            &&& announced(p, from, t, s.functions.len() as int)
            &&& begins(s.functions, t.functions)
            &&& forall|sym: u32|
                function_from(p, from, sym) is None ==> #[trigger] t.callables.contains_key(sym)
                    == s.callables.contains_key(sym) && t.callables[sym] == s.callables[sym]
            &&& t.insts == s.insts
            &&& t.blocks == s.blocks
            &&& t.global_slots == s.global_slots
            &&& t.globals == s.globals
        }),
    decreases p.ast.top_level.len() - from,
{
    if from < p.ast.top_level.len() {
        reveal(function_added);
        let s1 = match p.ast.top_level[from] {
            TopLevelView::Func(func) => function_added(
                s,
                FunctionName::Named(func.name),
                param_types(func.params),
                func.return_type,
            ),
            TopLevelView::Stmt(_) => s,
        };
        let t = functions_declared(s1, p, from + 1);
        assert(functions_declared(s, p, from) == t);
        lemma_functions_declared(s1, p, from + 1);
        lemma_announced(s1, p, from + 1);
        if let TopLevelView::Func(func) = p.ast.top_level[from] {
            lemma_unique(p, from);
            let n = s.functions.len() as int;
            let mine = func.name.0;
            assert(t.callables.contains_key(mine) == s1.callables.contains_key(mine));
            assert(t.callables[mine] == n);
            assert(t.functions[n] == s1.functions[n]);
            assert forall|sym: u32| (#[trigger] function_from(p, from, sym)) is Some && sym
                != mine implies function_from(p, from + 1, sym) == function_from(p, from, sym) by {}
            assert(begins(s.functions, t.functions)) by {
                assert forall|k: int| 0 <= k < s.functions.len() implies #[trigger] t.functions[k]
                    == s.functions[k] by {
                    assert(t.functions[k] == s1.functions[k]);
                }
            }
            assert forall|sym: u32| function_from(p, from, sym) is None implies #[trigger] t.callables.contains_key(
            sym) == s.callables.contains_key(sym) && t.callables[sym] == s.callables[sym] by {
                assert(sym != mine);
                assert(function_from(p, from + 1, sym) is None);
            }
            assert forall|sym: u32|
                (#[trigger] function_from(p, from, sym)) is Some implies {
                &&& t.callables.contains_key(sym)
                &&& n <= t.callables[sym] < t.functions.len()
                &&& t.functions[t.callables[sym] as int].params == param_types(
                    function_from(p, from, sym)->0.params,
                )
                &&& t.functions[t.callables[sym] as int].result == function_from(
                    p,
                    from,
                    sym,
                )->0.return_type
                &&& t.functions[t.callables[sym] as int].entry is None
            } by {
                if sym != mine {
                    assert(function_from(p, from + 1, sym) == function_from(p, from, sym));
                }
            }
            assert forall|sym: u32, name: u32|
                (#[trigger] function_from(p, from, sym)) is Some && (#[trigger] function_from(
                    p,
                    from,
                    name,
                )) is Some && sym != name implies t.callables[sym] != t.callables[name] by {
                if sym != mine {
                    assert(function_from(p, from + 1, sym) is Some);
                }
                if name != mine {
                    assert(function_from(p, from + 1, name) is Some);
                }
            }
        } else {
            assert forall|sym: u32| #[trigger] function_from(p, from, sym) == function_from(
                p,
                from + 1,
                sym,
            ) by {}
            assert forall|sym: u32| function_from(p, from, sym) is None implies #[trigger] t.callables.contains_key(
            sym) == s.callables.contains_key(sym) && t.callables[sym] == s.callables[sym] by {
                assert(function_from(p, from + 1, sym) is None);
            }
        }
    }
}

// ---------------------------------------------------------------------------
// The code of the functions
// ---------------------------------------------------------------------------

/// What was emitted stays as it is.
pub open spec fn kept(a: Lowering, b: Lowering) -> bool {
    &&& begins(a.insts, b.insts)
    &&& begins(a.texts, b.texts)
    &&& begins(a.floats, b.floats)
    &&& a.blocks.len() <= b.blocks.len()
    &&& forall|x: int| 0 <= x < a.blocks.len() ==> #[trigger] list(b, x) == list(a, x)
}

proof fn lemma_kept_covered(code: Code, a: Lowering, b: Lowering)
    requires
        kept(a, b),
        covers(code, b),
    ensures
        covers(code, a),
{
    assert forall|x: int| 0 <= x < a.blocks.len() implies begins(
        #[trigger] list(a, x),
        code.blocks[x],
    ) by {
        assert(list(b, x) == list(a, x));
    }
}

/// Code that is built on a body that has just begun leaves what stood before it.
proof fn lemma_begun_kept(p: Program, a: Lowering, begun: Lowering, t: Lowering)
    requires
        begun.insts == a.insts,
        begun.texts == a.texts,
        begun.floats == a.floats,
        begun.blocks.len() == a.blocks.len() + 1,
        begun.current == a.blocks.len(),
        forall|x: int| 0 <= x < a.blocks.len() ==> #[trigger] list(begun, x) == list(a, x),
        built_on(begun, t),
    ensures
        kept(a, t),
{
    assert forall|x: int| 0 <= x < a.blocks.len() implies #[trigger] list(t, x) == list(a, x) by {
        assert(list(begun, x) == list(a, x));
    }
}

/// No two functions have the same place among the functions.
pub open spec fn placed_apart(p: Program, callables: Map<u32, usize>) -> bool {
    forall|sym: u32, name: u32|
        (#[trigger] function_from(p, 0, sym)) is Some && (#[trigger] function_from(p, 0, name)) is Some
            && sym != name ==> callables[sym] != callables[name]
}

proof fn lemma_functions_grow(s: Lowering, p: Program, from: int)
    ensures
        roomier(s, functions_code(s, p, from)),
    decreases p.ast.top_level.len() - from,
{
    if 0 <= from < p.ast.top_level.len() {
        let s1 = match p.ast.top_level[from] {
            TopLevelView::Func(func) => {
                lemma_function_code(s, p, func);
                function_code(s, p, func)
            },
            TopLevelView::Stmt(_) => s,
        };
        lemma_functions_grow(s1, p, from + 1);
    }
}

/// One function lowered: its code begins in a block of its own, and calls of it begin there.
proof fn lemma_function_lowered(p: Program, s: Lowering, a: Lowering, func: FuncDefView)
    requires
        tidy(a),
        knows(p, a),
        slots_sound(s),
        a.global_slots == s.global_slots,
        function_from(p, 0, func.name.0) == Some(func),
        counted_function(p, func),
        a.functions[a.callables[func.name.0] as int].entry is None,
        fits(function_code(a, p, func)),
    ensures
        ({
            let t = function_code(a, p, func);
            let f = a.callables[func.name.0] as int;
            &&& tidy(t)
            &&& knows(p, t)
            &&& t.global_slots == a.global_slots
            &&& t.callables == a.callables
            &&& kept(a, t)
            &&& t.functions.len() == a.functions.len()
            &&& t.functions[f].entry == Some(a.blocks.len() as usize)
            &&& forall|j: int|
                0 <= j < a.functions.len() && j != f ==> #[trigger] t.functions[j] == a.functions[j]
        }),
{
    let t = function_code(a, p, func);
    let f = a.callables[func.name.0];
    let begun = body_begun(a, f, true);
    lemma_function_built(p, s, a, func);
    lemma_begun(p, s, a, f, true);
    lemma_begun_kept(p, a, begun, t);
    reveal(body_begun);
}

/// The functions from an item on lowered.
proof fn lemma_functions_lowered(p: Program, s: Lowering, a: Lowering, from: int)
    requires
        counted_program(p),
        told_apart(p.ast),
        0 <= from,
        tidy(a),
        knows(p, a),
        slots_sound(s),
        a.global_slots == s.global_slots,
        placed_apart(p, a.callables),
        forall|sym: u32|
            (#[trigger] function_from(p, from, sym)) is Some
                ==> a.functions[a.callables[sym] as int].entry is None,
        fits(functions_code(a, p, from)),
    ensures
        ({
            let t = functions_code(a, p, from);
            &&& tidy(t)
            &&& knows(p, t)
            &&& t.global_slots == a.global_slots
            &&& t.callables == a.callables
            &&& kept(a, t)
            &&& t.functions.len() == a.functions.len()
            &&& forall|j: int|
                0 <= j < a.functions.len() && (forall|sym: u32|
                    (#[trigger] function_from(p, from, sym)) is Some ==> a.callables[sym] != j)
                    ==> #[trigger] t.functions[j] == a.functions[j]
        }),
    decreases p.ast.top_level.len() - from,
{
    if from < p.ast.top_level.len() {
        match p.ast.top_level[from] {
            TopLevelView::Func(func) => {
                let t = function_code(a, p, func);
                let u = functions_code(t, p, from + 1);
                let mine = func.name.0;
                lemma_functions_grow(t, p, from + 1);
                lemma_one_lowered(p, s, a, from);
                lemma_functions_lowered(p, s, t, from + 1);
                assert(kept(a, u)) by {
                    assert forall|x: int| 0 <= x < a.blocks.len() implies #[trigger] list(u, x)
                        == list(a, x) by {
                        assert(list(t, x) == list(a, x));
                    }
                }
                assert forall|j: int|
                    0 <= j < a.functions.len() && (forall|sym: u32|
                        (#[trigger] function_from(p, from, sym)) is Some ==> a.callables[sym] != j)
                    implies #[trigger] u.functions[j] == a.functions[j] by {
                    assert(function_from(p, from, mine) is Some);
                    assert(t.functions[j] == a.functions[j]);
                    assert forall|sym: u32|
                        (#[trigger] function_from(p, from + 1, sym)) is Some implies t.callables[sym]
                        != j by {
                        assert(function_from(p, from, sym) is Some);
                    }
                }
            },
            TopLevelView::Stmt(_) => {
                assert forall|sym: u32| #[trigger] function_from(p, from + 1, sym) == function_from(
                    p,
                    from,
                    sym,
                ) by {}
                lemma_functions_lowered(p, s, a, from + 1);
                assert forall|j: int|
                    0 <= j < a.functions.len() && (forall|sym: u32|
                        (#[trigger] function_from(p, from, sym)) is Some ==> a.callables[sym] != j)
                    implies #[trigger] functions_code(a, p, from).functions[j] == a.functions[j] by {
                    assert forall|sym: u32|
                        (#[trigger] function_from(p, from + 1, sym)) is Some implies a.callables[sym]
                        != j by {
                        assert(function_from(p, from, sym) is Some);
                    }
                }
            },
        }
    }
}

/// The function of an item lowered, and what that leaves to the items behind it.
proof fn lemma_one_lowered(p: Program, s: Lowering, a: Lowering, from: int)
    requires
        counted_program(p),
        told_apart(p.ast),
        0 <= from < p.ast.top_level.len(),
        p.ast.top_level[from] is Func,
        tidy(a),
        knows(p, a),
        slots_sound(s),
        a.global_slots == s.global_slots,
        placed_apart(p, a.callables),
        forall|sym: u32|
            (#[trigger] function_from(p, from, sym)) is Some
                ==> a.functions[a.callables[sym] as int].entry is None,
        fits(function_code(a, p, p.ast.top_level[from]->Func_0)),
    ensures
        ({
            let func = p.ast.top_level[from]->Func_0;
            let t = function_code(a, p, func);
            let f = a.callables[func.name.0] as int;
            &&& function_from(p, from, func.name.0) == Some(func)
            &&& function_from(p, 0, func.name.0) == Some(func)
            &&& tidy(t)
            &&& knows(p, t)
            &&& t.global_slots == a.global_slots
            &&& t.callables == a.callables
            &&& kept(a, t)
            &&& t.functions.len() == a.functions.len()
            &&& 0 <= f < t.functions.len()
            &&& t.functions[f].entry == Some(a.blocks.len() as usize)
            &&& forall|j: int|
                0 <= j < a.functions.len() && j != f ==> #[trigger] t.functions[j] == a.functions[j]
            &&& forall|sym: u32|
                (#[trigger] function_from(p, from + 1, sym)) is Some ==> {
                    &&& sym != func.name.0
                    &&& a.callables[sym] != f
                    &&& function_from(p, from, sym) == function_from(p, from + 1, sym)
                    &&& t.functions[t.callables[sym] as int].entry is None
                }
        }),
{
    let func = p.ast.top_level[from]->Func_0;
    let t = function_code(a, p, func);
    let mine = func.name.0;
    let f = a.callables[mine];
    lemma_found(p, 0, from);
    lemma_unique(p, from);
    assert(p.ast.top_level[from] == TopLevelView::Func(func));
    assert(counted_function(p, func));
    assert(function_from(p, from, mine) == Some(func));
    assert(function_from(p, 0, mine) == Some(func));
    lemma_function_lowered(p, s, a, func);
    assert forall|sym: u32| (#[trigger] function_from(p, from + 1, sym)) is Some implies {
        &&& sym != mine
        &&& a.callables[sym] != f
        &&& function_from(p, from, sym) == function_from(p, from + 1, sym)
        &&& t.functions[t.callables[sym] as int].entry is None
    } by {
        assert(function_from(p, from, sym) == function_from(p, from + 1, sym));
        lemma_same_found(p, from + 1, sym);
        assert(function_from(p, 0, sym) is Some);
    }
}

/// The entry of every function is the one that the lowering has found.
pub open spec fn same_entries(code: Code, t: Lowering) -> bool {
    &&& t.functions.len() <= code.functions.len()
    &&& forall|j: int|
        0 <= j < t.functions.len() ==> (#[trigger] code.functions[j]).entry == t.functions[j].entry
}

/// Every function from an item on stands in the code.
proof fn lemma_functions_stand(code: Code, p: Program, s: Lowering, a: Lowering, from: int)
    requires
        counted_program(p),
        told_apart(p.ast),
        0 <= from,
        tidy(a),
        knows(p, a),
        slots_sound(s),
        a.global_slots == s.global_slots,
        placed_apart(p, a.callables),
        forall|sym: u32|
            (#[trigger] function_from(p, from, sym)) is Some
                ==> a.functions[a.callables[sym] as int].entry is None,
        covers(code, functions_code(a, p, from)),
        same_entries(code, functions_code(a, p, from)),
    ensures
        forall|sym: u32|
            (#[trigger] function_from(p, from, sym)) matches Some(func) ==> exists|b: Lowering|
                b.callables == a.callables && b.global_slots == a.global_slots
                    && #[trigger] stands(p, code, func, b),
    decreases p.ast.top_level.len() - from,
{
    if from < p.ast.top_level.len() {
        match p.ast.top_level[from] {
            TopLevelView::Func(func) => {
                let t = function_code(a, p, func);
                let u = functions_code(t, p, from + 1);
                let mine = func.name.0;
                let f = a.callables[mine] as int;
                lemma_functions_grow(t, p, from + 1);
                lemma_one_lowered(p, s, a, from);
                lemma_functions_lowered(p, s, t, from + 1);
                lemma_functions_stand(code, p, s, t, from + 1);
                assert(u.functions[f] == t.functions[f]) by {
                    assert forall|sym: u32|
                        (#[trigger] function_from(p, from + 1, sym)) is Some implies t.callables[sym]
                        != f by {}
                }
                assert(code.functions[f].entry == Some(a.blocks.len() as usize));
                lemma_kept_covered(code, t, u);
                assert(stands(p, code, func, a));
                assert forall|sym: u32|
                    (#[trigger] function_from(p, from, sym)) is Some implies exists|
                    b: Lowering,
                |
                    b.callables == a.callables && b.global_slots == a.global_slots
                        && #[trigger] stands(p, code, function_from(p, from, sym)->0, b) by {
                    if sym != mine {
                        assert(function_from(p, from + 1, sym) == function_from(p, from, sym));
                    }
                }
            },
            TopLevelView::Stmt(_) => {
                assert forall|sym: u32| #[trigger] function_from(p, from + 1, sym) == function_from(
                    p,
                    from,
                    sym,
                ) by {}
                lemma_functions_stand(code, p, s, a, from + 1);
                assert forall|sym: u32|
                    (#[trigger] function_from(p, from, sym)) is Some implies exists|
                    b: Lowering,
                |
                    b.callables == a.callables && b.global_slots == a.global_slots
                        && #[trigger] stands(p, code, function_from(p, from, sym)->0, b) by {
                    assert(function_from(p, from + 1, sym) == function_from(p, from, sym));
                }
            },
        }
    }
}

// ---------------------------------------------------------------------------
// The top-level statements
// ---------------------------------------------------------------------------

proof fn lemma_items_built(p: Program, s: Lowering, from: int)
    requires
        sane(p, s),
        counted_program(p),
        0 <= from,
        fits(items_code(s, p, from).0),
    ensures
        grows_on(p, s, items_code(s, p, from).0),
    decreases p.ast.top_level.len() - from,
{
    lemma_extends_same(p, s);
    if from < p.ast.top_level.len() {
        match p.ast.top_level[from] {
            TopLevelView::Func(_) => {
                lemma_items_built(p, s, from + 1);
            },
            TopLevelView::Stmt(stmt) => {
                let limit = p.ast.nodes.len() as int;
                let (s1, yielded) = stmt_code(s, p, stmt, limit);
                let s2 = discarded_str_freed(s1, p, stmt, yielded);
                lemma_items_code(s2, p, from + 1);
                lemma_discarded_str_freed(s1, p, stmt, yielded);
                assert(counted_stmt(p, stmt, limit));
                lemma_stmt_built(p, s, stmt, limit);
                if from < p.ast.top_level.len() - 1 {
                    lemma_discarded_built(p, s1, stmt, yielded);
                    lemma_items_built(p, s2, from + 1);
                    lemma_grows_further(p, s, s1, s2);
                    lemma_grows_further(p, s, s2, items_code(s2, p, from + 1).0);
                }
            },
        }
    }
}

proof fn lemma_items_run(
    code: Code,
    s: Lowering,
    p: Program,
    env: Env,
    from: int,
    fuel: nat,
    m: Machine,
) -> (r: (nat, Machine))
    requires
        poised(p, code, s, env, m),
        0 <= from,
        covers(code, items_code(s, p, from).0),
        items_meant(p, env, from, fuel) is Some,
    ensures
        ({
            let (t, value) = items_code(s, p, from);
            let outcome = items_meant(p, env, from, fuel)->0;
            &&& arrives(code, s, m, t, outcome.env, r)
            &&& outcome.number matches Some(x) ==> value is Some && held(t, r.1, value->0, x)
        }),
    decreases p.ast.top_level.len() - from,
{
    lemma_here(code, s, m, env);
    if from < p.ast.top_level.len() {
        match p.ast.top_level[from] {
            TopLevelView::Func(_) => lemma_items_run(code, s, p, env, from + 1, fuel, m),
            TopLevelView::Stmt(stmt) => {
                let limit = p.ast.nodes.len() as int;
                let (s1, yielded) = stmt_code(s, p, stmt, limit);
                let s2 = discarded_str_freed(s1, p, stmt, yielded);
                assert(counted_stmt(p, stmt, limit));
                let outcome = stmt_meant(p, env, stmt, limit, fuel)->0;
                if from == p.ast.top_level.len() - 1 {
                    lemma_stmt_runs(code, s, p, env, stmt, limit, fuel, m)
                } else {
                    let t = items_code(s2, p, from + 1).0;
                    let after = discarded(p, stmt, outcome)->0;
                    let last = items_meant(p, after, from + 1, fuel)->0.env;
                    lemma_items_code(s2, p, from + 1);
                    lemma_discarded_str_freed(s1, p, stmt, yielded);
                    lemma_stmt_built(p, s, stmt, limit);
                    lemma_discarded_built(p, s1, stmt, yielded);
                    lemma_items_built(p, s2, from + 1);
                    lemma_covered(code, s2, t);
                    lemma_covered(code, s1, s2);
                    let q = lemma_stmt_runs(code, s, p, env, stmt, limit, fuel, m);
                    let w = lemma_discarded_runs(code, s1, p, stmt, yielded, outcome, q.1);
                    lemma_arrives_further(code, s, m, s1, outcome.env, q, s2, after, w);
                    let u = lemma_items_run(code, s2, p, after, from + 1, fuel, w.1);
                    lemma_arrives_further(code, s, m, s2, after, (q.0 + w.0, w.1), t, last, u);
                    (q.0 + w.0 + u.0, u.1)
                }
            },
        }
    } else {
        (0, m)
    }
}

/// A program has a number exactly where its last item has a value.
proof fn lemma_items_number(p: Program, env: Env, from: int, fuel: nat)
    requires
        counted_program(p),
        0 <= from,
        from < p.ast.top_level.len() || p.ast.top_level.len() == 0,
        items_meant(p, env, from, fuel) is Some,
    ensures
        plain(program_type(p)) || program_type(p) == PinpType::Void,
        items_meant(p, env, from, fuel)->0.number is Some <==> plain(program_type(p)),
    decreases p.ast.top_level.len() - from,
{
    let limit = p.ast.nodes.len() as int;
    if from < p.ast.top_level.len() {
        match p.ast.top_level[from] {
            TopLevelView::Func(_) => {
                if from < p.ast.top_level.len() - 1 {
                    lemma_items_number(p, env, from + 1, fuel);
                } else {
                    assert(items_meant(p, env, from + 1, fuel) == items_meant(
                        p,
                        env,
                        from + 1,
                        fuel,
                    ));
                }
            },
            TopLevelView::Stmt(stmt) => {
                assert(counted_stmt(p, stmt, limit));
                if from == p.ast.top_level.len() - 1 {
                    match stmt {
                        StmtView::Expr(expr_id) => {
                            assert(counted(p, expr_id, limit));
                            lemma_expr_meant(p, env, expr_id, limit, fuel);
                        },
                        StmtView::Assign(_, _, values) => {
                            assert(counted_part(p, values[values.len() - 1], limit));
                        },
                        StmtView::While(cond, body) => {
                            lemma_no_number(p, env, stmt, limit, fuel);
                        },
                        StmtView::Loop(body, cond, until) => {
                            lemma_no_number(p, env, stmt, limit, fuel);
                        },
                        _ => {},
                    }
                } else {
                    let outcome = stmt_meant(p, env, stmt, limit, fuel)->0;
                    let after = discarded(p, stmt, outcome)->0;
                    lemma_items_number(p, after, from + 1, fuel);
                }
            },
        }
    }
}

/// A loop has no number.
proof fn lemma_no_number(p: Program, env: Env, stmt: StmtView, limit: int, fuel: nat)
    requires
        stmt is While || stmt is Loop,
        stmt_meant(p, env, stmt, limit, fuel) is Some,
    ensures
        stmt_meant(p, env, stmt, limit, fuel)->0.number is None,
    decreases fuel,
{
    match stmt {
        StmtView::While(cond, body) => {
            let (after, x) = number_meant(p, env, cond, limit, fuel)->0;
            if x != 0 {
                let ran = block_meant(p, after, body, limit, fuel)->0;
                lemma_no_number(p, ran.env, stmt, limit, (fuel - 1) as nat);
            }
        },
        StmtView::Loop(body, cond, until) => {
            let ran = block_meant(p, env, body, limit, fuel)->0;
            let (after, x) = number_meant(p, ran.env, cond, limit, fuel)->0;
            if (x != 0) != until {
                lemma_no_number(p, after, stmt, limit, (fuel - 1) as nat);
            }
        },
        _ => {},
    }
}

/// The strings of the globals released.
proof fn lemma_global_freed_built(p: Program, s: Lowering, symbols: int, from: int)
    requires
        sane(p, s),
        0 <= from,
        fits(global_strings_freed(s, symbols, from)),
    ensures
        straight(p, s, global_strings_freed(s, symbols, from)),
    decreases symbols - from,
{
    lemma_extends_same(p, s);
    if from < symbols {
        if let Some(slot) = global_slot(s, SymId(from as u32)) {
            if slot.value_type == PinpType::Str {
                let free = InstView::Call(
                    Callee::Runtime(RuntimeFn::StrFree),
                    seq![slot.place],
                );
                let s1 = emitted(s, free);
                lemma_global_freed_grows(s1, symbols, from + 1);
                lemma_emitted_straight(p, s, free);
                lemma_global_freed_built(p, s1, symbols, from + 1);
                lemma_straight_further(p, s, s1, global_strings_freed(s1, symbols, from + 1));
            } else {
                lemma_global_freed_built(p, s, symbols, from + 1);
            }
        } else {
            lemma_global_freed_built(p, s, symbols, from + 1);
        }
    }
}

proof fn lemma_global_freed_runs(
    code: Code,
    s: Lowering,
    p: Program,
    env: Env,
    symbols: int,
    from: int,
    m: Machine,
) -> (r: (nat, Machine))
    requires
        sane(p, s),
        caught_up(s, m),
        mirrors(s, env, m),
        0 <= from,
        covers(code, global_strings_freed(s, symbols, from)),
        globals_released(env, symbols, from) is Some,
    ensures
        arrives(
            code,
            s,
            m,
            global_strings_freed(s, symbols, from),
            globals_released(env, symbols, from)->0,
            r,
        ),
        r.1.slots == m.slots,
    decreases symbols - from,
{
    lemma_here(code, s, m, env);
    if from < symbols {
        let sym = from as u32;
        lemma_looked_up(s, env, m, sym);
        if env.globals.contains_key(sym) && env.globals[sym].kind == PinpType::Str {
            let slot = s.global_slots[sym];
            let free = InstView::Call(Callee::Runtime(RuntimeFn::StrFree), seq![slot.place]);
            let s1 = emitted(s, free);
            let t = global_strings_freed(s1, symbols, from + 1);
            lemma_global_freed_built(p, s, symbols, from);
            lemma_global_freed_grows(s1, symbols, from + 1);
            lemma_emitted_straight(p, s, free);
            lemma_global_freed_built(p, s1, symbols, from + 1);
            lemma_covered(code, s1, t);
            assert(slot.place is Global);
            let old = env.globals[sym].value;
            assert(string_at(code, m, slot.place) == old);
            let strings = string_released(env.strings, old)->0;
            let emptied = Held { kind: PinpType::Str, value: 0 };
            let e1 = Env { globals: env.globals.insert(sym, emptied), strings, ..env };
            let last = globals_released(e1, symbols, from + 1)->0;
            lemma_strings_changed(s, env, m, strings);
            let m1 = Machine { strings, ..m };
            lemma_stored_global(s, Env { strings, ..env }, m1, sym, emptied);
            let m2 = storing(m1, slot.place, 0);
            assert(mirrors(s, e1, m2));
            assert(seq![slot.place][0] == slot.place);
            assert(performed(code, m, s.insts.len() as usize, free) == Some(m2));
            let q = lemma_step(code, s, free, e1, m, m2);
            let u = lemma_global_freed_runs(code, s1, p, e1, symbols, from + 1, m2);
            lemma_arrives_further(code, s, m, s1, e1, q, t, last, u);
            (q.0 + u.0, u.1)
        } else {
            lemma_global_freed_runs(code, s, p, env, symbols, from + 1, m)
        }
    } else {
        (0, m)
    }
}

/// Releasing strings takes nothing away.
proof fn lemma_global_freed_grows(s: Lowering, symbols: int, from: int)
    ensures
        s.blocks.len() <= global_strings_freed(s, symbols, from).blocks.len(),
        s.insts.len() <= global_strings_freed(s, symbols, from).insts.len(),
    decreases symbols - from,
{
    reveal(emitted);
    if 0 <= from < symbols {
        let s1 = match global_slot(s, SymId(from as u32)) {
            Some(slot) => if slot.value_type == PinpType::Str {
                free_str_slot(s, slot.place)
            } else {
                s
            },
            None => s,
        };
        lemma_global_freed_grows(s1, symbols, from + 1);
    }
}

// ---------------------------------------------------------------------------
// Whole programs
// ---------------------------------------------------------------------------

/// The names that are assigned at the top level, with where each is kept.
pub open spec fn globals_of(p: Program) -> Map<u32, Slot> {
    globals_declared(nothing_lowered(), p, 0).global_slots
}

/// No string, and the number of the first one.
pub open spec fn no_strings() -> Strings {
    Strings { kept: Map::empty(), next: 1 }
}

/// Before a program runs, every global is zero or the empty string, no block knows a name, and no
/// string has storage.
pub open spec fn nothing_run(p: Program, floats: Floats) -> Env {
    Env {
        globals: Map::new(
            |sym: u32| globals_of(p).contains_key(sym),
            |sym: u32| Held { kind: globals_of(p)[sym].value_type, value: 0 },
        ),
        frames: seq![Map::empty()],
        inside: false,
        strings: no_strings(),
        floats,
    }
}

/// A machine about to run the entry function, which is the last one. A global is zero to begin with.
pub open spec fn started(p: Program, floats: Floats) -> Machine {
    let s = lowered(p);
    Machine {
        block: s.functions.last().entry->0,
        at: 0,
        came_from: 0,
        yielded: Map::empty(),
        ranges: Map::empty(),
        slots: Map::empty(),
        cells: Map::empty(),
        params: Seq::empty(),
        memory: Map::new(
            |place: Value| place matches Value::Global(index) && index < s.globals.len(),
            |place: Value| 0,
        ),
        callers: Seq::empty(),
        strings: no_strings(),
        floats,
        constants: s.floats,
    }
}

/// The machine has come to where the entry function returns.
pub open spec fn finished(code: Code, m: Machine) -> bool {
    &&& m.callers.len() == 0
    &&& m.block < code.blocks.len()
    &&& 0 <= m.at < code.blocks[m.block as int].len()
    &&& code.blocks[m.block as int][m.at] < code.insts.len()
    &&& code.insts[code.blocks[m.block as int][m.at] as int] == InstView::Op(Op::ReturnVoid)
}

/// The declarations of a program, before any code, with the names of no block in scope.
pub open spec fn declarations(p: Program) -> Lowering {
    functions_declared(globals_declared(nothing_lowered(), p, 0), p, 0)
}

/// Where the code of the entry function begins, behind the code of the functions.
pub open spec fn entry_begun(p: Program) -> Lowering {
    let s = functions_code(declarations(p), p, 0);
    body_begun(
        function_added(s, FunctionName::Entry, Seq::empty(), PinpType::Void),
        next_function(s),
        false,
    )
}

/// The states that the lowering of the entry function goes through: where it begins, behind the
/// statements, and with the program's value written out.
pub open spec fn entry_states(p: Program) -> (Lowering, Lowering, Lowering) {
    let s = entry_begun(p);
    let (t, yielded) = items_code(s, p, 0);
    (s, t, value_written(t, p, yielded))
}

/// How much there is at the stations of a lowering.
proof fn lemma_program_grows(p: Program)
    ensures
        ({
            let s1 = globals_declared(nothing_lowered(), p, 0);
            let s2 = declarations(p);
            let s3 = functions_code(s2, p, 0);
            &&& roomier(s1, s2)
            &&& roomier(s2, s3)
            &&& roomier(s3, lowered(p))
        }),
{
    let s1 = globals_declared(nothing_lowered(), p, 0);
    let s2 = declarations(p);
    lemma_entry_code(functions_code(s2, p, 0), p);
    lemma_functions_grow(s2, p, 0);
    lemma_functions_declared(s1, p, 0);
}

/// What is declared, and that the functions are lowered behind it.
proof fn lemma_functions_part(p: Program)
    requires
        counted_program(p),
        told_apart(p.ast),
        countable(lowered(p)),
    ensures
        ({
            let s2 = declarations(p);
            let s3 = functions_code(s2, p, 0);
            &&& tidy(s2)
            &&& knows(p, s2)
            &&& slots_sound(Lowering { frames: seq![Map::empty()], ..s2 })
            &&& placed_apart(p, s2.callables)
            &&& forall|sym: u32|
                (#[trigger] function_from(p, 0, sym)) is Some
                    ==> s2.functions[s2.callables[sym] as int].entry is None
            &&& tidy(s3)
            &&& knows(p, s3)
            &&& s2.global_slots == globals_of(p)
            &&& s3.global_slots == s2.global_slots
            &&& s3.callables == s2.callables
            &&& forall|sym: u32| #[trigger]
                globals_of(p).contains_key(sym) ==> (
                globals_of(p)[sym].place matches Value::Global(index) && index
                    < lowered(p).globals.len())
        }),
{
    let s1 = globals_declared(nothing_lowered(), p, 0);
    let s2 = declarations(p);
    lemma_program_grows(p);
    lemma_globals_declares(nothing_lowered(), p, 0);
    lemma_announced(s1, p, 0);
    let around = Lowering { frames: seq![Map::empty()], ..s2 };
    assert(slots_sound(around)) by {
        assert(forall|k: int, sym: u32|
            0 <= k < around.frames.len() ==> !around.frames[k].contains_key(sym));
    }
    assert(placed_apart(p, s2.callables));
    assert(tidy(s2) && knows(p, s2));
    lemma_functions_lowered(p, around, s2, 0);
}

/// The entry function lowered.
proof fn lemma_entry_part(p: Program)
    requires
        counted_program(p),
        told_apart(p.ast),
        countable(lowered(p)),
        plain(program_type(p)) || program_type(p) == PinpType::Void,
    ensures
        ({
            let (s, t, u) = entry_states(p);
            let s3 = functions_code(declarations(p), p, 0);
            &&& sane(p, s)
            &&& list(s, s.current as int).len() == 0
            &&& s.current == s3.blocks.len()
            &&& s.frames == seq![Map::<u32, Slot>::empty()]
            &&& !s.in_function
            &&& s.global_slots == s3.global_slots
            &&& s.callables == s3.callables
            &&& s.functions.len() == s3.functions.len() + 1
            &&& s.functions.last().entry == Some(s.current)
            &&& forall|j: int|
                0 <= j < s3.functions.len() ==> #[trigger] s.functions[j] == s3.functions[j]
            &&& kept(s3, lowered(p))
            &&& grows_on(p, s, t)
            &&& extends(p, t, u)
            &&& straight(p, u, free_scope_strings(u, p))
            &&& straight(
                p,
                free_scope_strings(u, p),
                free_global_strings(free_scope_strings(u, p), p),
            )
            &&& extends(p, free_global_strings(free_scope_strings(u, p), p), lowered(p))
            &&& lowered(p) == op(
                free_global_strings(free_scope_strings(u, p), p),
                Op::ReturnVoid,
            )
        }),
{
    let s2 = declarations(p);
    let s3 = functions_code(s2, p, 0);
    let (s, t, u) = entry_states(p);
    let yielded = items_code(s, p, 0).1;
    let symbols = p.ast.names.len() as int;
    let u1 = free_scope_strings(u, p);
    let u2 = free_global_strings(u1, p);
    let ret = InstView::Op(Op::ReturnVoid);
    let around = Lowering { frames: seq![Map::empty()], ..s2 };
    assert(lowered(p) == emitted(u2, ret));
    lemma_functions_part(p);
    lemma_program_grows(p);
    lemma_count_kept(u2, ret);
    lemma_global_freed_grows(u1, symbols, 0);
    lemma_freed_grows(u, symbols, 0);
    lemma_value_written(t, p, yielded);
    lemma_items_code(s, p, 0);
    assert(s.blocks.len() == s3.blocks.len() + 1 && s.functions.len() == s3.functions.len() + 1) by {
        reveal(function_added);
        reveal(body_begun);
    }
    assert(s.functions.len() <= usize::MAX) by {
        lemma_released_functions(u, p);
    }
    lemma_entry_begun(p, around, s3);
    lemma_items_built(p, s, 0);
    lemma_written_built(p, t, yielded);
    lemma_scope_freed_built(p, u, symbols, 0);
    lemma_global_freed_built(p, u1, symbols, 0);
    lemma_emitted_extends(p, u2, ret);
    lemma_built_further(s, t, u);
    lemma_built_further(s, u, u1);
    lemma_built_further(s, u1, u2);
    lemma_built_further(s, u2, lowered(p));
    lemma_begun_kept(p, s3, s, lowered(p));
}

/// Releasing strings and returning declares no function.
proof fn lemma_released_functions(u: Lowering, p: Program)
    ensures
        op(free_global_strings(free_scope_strings(u, p), p), Op::ReturnVoid).functions
            == u.functions,
{
    let symbols = p.ast.names.len() as int;
    let u1 = free_scope_strings(u, p);
    lemma_scope_functions(u, symbols, 0);
    lemma_global_functions(u1, symbols, 0);
    lemma_emitted_scope(free_global_strings(u1, p), InstView::Op(Op::ReturnVoid));
}

proof fn lemma_scope_functions(s: Lowering, symbols: int, from: int)
    ensures
        scope_strings_freed(s, symbols, from).functions == s.functions,
    decreases symbols - from,
{
    reveal(emitted);
    if 0 <= from < symbols {
        let s1 = match innermost_slot(s, from as u32) {
            Some(slot) => if slot.value_type == PinpType::Str {
                free_str_slot(s, slot.place)
            } else {
                s
            },
            None => s,
        };
        lemma_scope_functions(s1, symbols, from + 1);
    }
}

proof fn lemma_global_functions(s: Lowering, symbols: int, from: int)
    ensures
        global_strings_freed(s, symbols, from).functions == s.functions,
    decreases symbols - from,
{
    reveal(emitted);
    if 0 <= from < symbols {
        let s1 = match global_slot(s, SymId(from as u32)) {
            Some(slot) => if slot.value_type == PinpType::Str {
                free_str_slot(s, slot.place)
            } else {
                s
            },
            None => s,
        };
        lemma_global_functions(s1, symbols, from + 1);
    }
}

/// How the lowering of a program goes: the functions, then the entry function.
proof fn lemma_program_built(p: Program)
    requires
        counted_program(p),
        told_apart(p.ast),
        countable(lowered(p)),
        plain(program_type(p)) || program_type(p) == PinpType::Void,
    ensures
        ({
            let code = code_of(lowered(p));
            let (s, t, u) = entry_states(p);
            &&& lowered(p).functions.last().entry == Some(s.current)
            &&& linked(p, code, s.callables, s.global_slots)
            &&& covers(code, lowered(p))
            &&& covers(code, free_global_strings(free_scope_strings(u, p), p))
            &&& covers(code, free_scope_strings(u, p))
            &&& covers(code, u)
            &&& covers(code, t)
        }),
{
    let code = code_of(lowered(p));
    let s2 = declarations(p);
    let s3 = functions_code(s2, p, 0);
    let (s, t, u) = entry_states(p);
    let around = Lowering { frames: seq![Map::empty()], ..s2 };
    lemma_functions_part(p);
    lemma_entry_part(p);
    let last = lowered(p);
    assert(last.functions == s.functions);
    assert(covers(code, last));
    let u1 = free_scope_strings(u, p);
    let u2 = free_global_strings(u1, p);
    lemma_covered(code, u2, last);
    lemma_covered(code, u1, u2);
    lemma_covered(code, u, u1);
    lemma_covered(code, t, u);
    lemma_kept_covered(code, s3, last);
    assert(same_entries(code, s3));
    lemma_functions_stand(code, p, around, s2, 0);
    assert(linked(p, code, s.callables, s.global_slots)) by {
        reveal(linked);
    }
}

/// Where the entry function begins.
proof fn lemma_entry_begun(p: Program, around: Lowering, s3: Lowering)
    requires
        tidy(s3),
        knows(p, s3),
        slots_sound(around),
        s3.global_slots == around.global_slots,
        s3.functions.len() < usize::MAX,
        s3.blocks.len() < usize::MAX,
    ensures
        ({
            let s4 = function_added(s3, FunctionName::Entry, Seq::empty(), PinpType::Void);
            let s = body_begun(s4, next_function(s3), false);
            &&& sane(p, s)
            &&& s.current == s3.blocks.len()
            &&& s.blocks.len() == s3.blocks.len() + 1
            &&& s.insts == s3.insts
            &&& s.texts == s3.texts
            &&& s.floats == s3.floats
            &&& list(s, s.current as int).len() == 0
            &&& forall|x: int| 0 <= x < s3.blocks.len() ==> #[trigger] list(s, x) == list(s3, x)
            &&& s.frames == seq![Map::<u32, Slot>::empty()]
            &&& s.global_slots == s3.global_slots
            &&& s.callables == s3.callables
            &&& !s.in_function
            &&& s.functions.len() == s3.functions.len() + 1
            &&& s.functions.last().entry == Some(s.current)
            &&& forall|j: int|
                0 <= j < s3.functions.len() ==> #[trigger] s.functions[j] == s3.functions[j]
        }),
{
    reveal(function_added);
    reveal(next_function);
    let s4 = function_added(s3, FunctionName::Entry, Seq::empty(), PinpType::Void);
    let s = body_begun(s4, next_function(s3), false);
    assert(tidy(s4));
    assert(knows(p, s4));
    lemma_begun(p, around, s4, next_function(s3), false);
    assert forall|x: int| 0 <= x < s3.blocks.len() implies #[trigger] list(s, x) == list(s3, x) by {
        assert(list(s, x) == list(s4, x));
    }
    reveal(body_begun);
}

/// The program's value written out.
proof fn lemma_written_built(p: Program, t: Lowering, yielded: Option<Value>)
    requires
        sane(p, t),
        plain(program_type(p)) || program_type(p) == PinpType::Void,
        fits(value_written(t, p, yielded)),
    ensures
        extends(p, t, value_written(t, p, yielded)),
        yielded is Some && program_type(p) == PinpType::Str ==> {
            let (t1, kept) = own_str(t, yielded->0, program_owns_str(p));
            &&& straight(p, t, t1)
            &&& straight(p, t1, value_written(t, p, yielded))
            &&& fits(t1)
        },
{
    let u = value_written(t, p, yielded);
    lemma_extends_same(p, t);
    if program_type(p) != PinpType::Void {
        match yielded {
            Some(value) => if program_type(p) == PinpType::Str {
                let (t1, kept) = own_str(t, value, program_owns_str(p));
                let store = InstView::Op(Op::Store(Value::Param(0), kept));
                lemma_count_kept(t1, store);
                lemma_own_built(p, t, value, program_owns_str(p));
                lemma_emitted_straight(p, t1, store);
                lemma_extends_further(p, t, t1, emitted(t1, store));
            } else {
                lemma_emitted_extends(p, t, InstView::Op(Op::Store(Value::Param(0), value)));
            },
            None => {
                reveal(failed);
                lemma_built_moved(t, u);
                lemma_sane_kept(p, t, u);
            },
        }
    }
}

/// The program's value written out, to have for oneself.
proof fn lemma_written_runs(
    code: Code,
    t: Lowering,
    p: Program,
    outcome: Outcome,
    yielded: Option<Value>,
    m: Machine,
) -> (r: (nat, Machine))
    requires
        sane(p, t),
        caught_up(t, m),
        mirrors(t, outcome.env, m),
        plain(program_type(p)) || program_type(p) == PinpType::Void,
        outcome.number is Some <==> plain(program_type(p)),
        outcome.number matches Some(x) ==> yielded is Some && held(t, m, yielded->0, x),
        covers(code, value_written(t, p, yielded)),
        value_meant(p, outcome) is Some,
    ensures
        ({
            let last = value_meant(p, outcome)->0;
            &&& arrives(code, t, m, value_written(t, p, yielded), last.env, r)
            &&& last.number is Some <==> outcome.number is Some
            &&& last.number matches Some(x) ==> cell(r.1, Value::Param(0)) == Some(x)
        }),
{
    let u = value_written(t, p, yielded);
    let last = value_meant(p, outcome)->0;
    lemma_here(code, t, m, outcome.env);
    lemma_written_built(p, t, yielded);
    match outcome.number {
        Some(x) => {
            let value = yielded->0;
            let owned = if program_type(p) == PinpType::Str {
                program_owns_str(p)
            } else {
                true
            };
            let (t1, kept) = own_str(t, value, owned);
            let y = last.number->0;
            let store = InstView::Op(Op::Store(Value::Param(0), kept));
            assert(u == emitted(t1, store));
            assert(built_on(t1, u)) by {
                if program_type(p) != PinpType::Str {
                    assert(t1 == t);
                }
            }
            lemma_covered(code, t1, u);
            let q = lemma_own_runs(code, t, p, outcome.env, m, value, x, owned);
            let m1 = storing(q.1, Value::Param(0), y);
            lemma_stored_aside(t1, last.env, q.1, Value::Param(0), y);
            let w = lemma_step(code, t1, store, last.env, q.1, m1);
            lemma_arrives_further(code, t, m, t1, last.env, q, u, last.env, w);
            (q.0 + w.0, w.1)
        },
        None => (0, m),
    }
}

/// A compiled program computes what it means. Where a program on numbers and strings, with
/// functions that call each other, blocks with names of their own, branches, ranges and loops, means
/// something within `fuel` rounds of calls and loops, a machine that starts where the entry function
/// does, with every global zero or empty and no string in storage, comes to where that function
/// returns. There the globals hold what the program makes of them, the strings that have storage are
/// the ones that the program leaves, and the address that the entry function is given holds the
/// program's value, which it has exactly where its last item has one. It does so however floats are
/// computed with. A string given to a new name of a block or a function has no meaning here.
pub proof fn programs_compute_what_they_mean(p: Program, floats: Floats, fuel: nat)
    requires
        counted_program(p),
        told_apart(p.ast),
        countable(lowered(p)),
        program_meant(p, nothing_run(p, floats), fuel) is Some,
    ensures
        ({
            let code = code_of(lowered(p));
            let outcome = program_meant(p, nothing_run(p, floats), fuel)->0;
            &&& outcome.number is Some <==> program_type(p) != PinpType::Void
            &&& outcome.env.globals.dom() == globals_of(p).dom()
            &&& exists|after: Machine|
                {
                    &&& #[trigger] reaches(code, started(p, floats), after)
                    &&& finished(code, after)
                    &&& forall|sym: u32| #[trigger]
                        globals_of(p).contains_key(sym) ==> cell(
                            after,
                            globals_of(p)[sym].place,
                        ) == Some(outcome.env.globals[sym].value)
                    &&& outcome.number matches Some(x) ==> cell(after, Value::Param(0)) == Some(x)
                    &&& after.strings == outcome.env.strings
                }
        }),
{
    let code = code_of(lowered(p));
    let env = nothing_run(p, floats);
    let m = started(p, floats);
    let symbols = p.ast.names.len() as int;
    let ran = items_meant(p, env, 0, fuel)->0;
    let written = value_meant(p, ran)->0;
    let outcome = program_meant(p, env, fuel)->0;
    lemma_items_number(p, env, 0, fuel);
    lemma_functions_part(p);
    lemma_entry_part(p);
    lemma_program_built(p);
    let (s, t, u) = entry_states(p);
    let u1 = free_scope_strings(u, p);
    let u2 = free_global_strings(u1, p);
    let left = scope_released(written.env, symbols, 0)->0;
    let yielded = items_code(s, p, 0).1;
    let ret = InstView::Op(Op::ReturnVoid);
    assert(mirrors(s, env, m)) by {
        reveal(mirrored);
    }
    let q = lemma_items_run(code, s, p, env, 0, fuel, m);
    let w = lemma_written_runs(code, t, p, ran, yielded, q.1);
    lemma_arrives_further(code, s, m, t, ran.env, q, u, written.env, w);
    let f = lemma_scope_freed_runs(code, u, p, written.env, symbols, 0, w.1);
    lemma_arrives_further(code, s, m, u, written.env, (q.0 + w.0, w.1), u1, left, f);
    let v = lemma_global_freed_runs(code, u1, p, left, symbols, 0, f.1);
    lemma_arrives_further(
        code,
        s,
        m,
        u1,
        left,
        (q.0 + w.0 + f.0, f.1),
        u2,
        outcome.env,
        v,
    );
    let after = v.1;
    assert(reaches(code, m, after));
    assert(caught_up(u2, after));
    lemma_emitted_extends(p, u2, ret);
    lemma_next(code, u2, ret, after);
    assert(code.insts[u2.insts.len() as int] == ret) by {
        assert(lowered(p).insts[u2.insts.len() as int] == ret);
    }
    assert(finished(code, after));
    assert(outcome.env.globals.dom() =~= globals_of(p).dom()) by {
        reveal(mirrored);
        assert forall|sym: u32| outcome.env.globals.dom().contains(sym) == globals_of(
            p,
        ).dom().contains(sym) by {
            assert(u2.global_slots.contains_key(sym) == outcome.env.globals.contains_key(sym));
        }
    }
    assert forall|sym: u32| #[trigger] globals_of(p).contains_key(sym) implies cell(
        after,
        globals_of(p)[sym].place,
    ) == Some(outcome.env.globals[sym].value) by {
        reveal(mirrored);
        assert(u2.global_slots.contains_key(sym));
        assert(outcome.env.globals.contains_key(sym));
    }
}
/// The code of an expression computes what the expression means: the machine comes to where the code
/// ends, with the slots and the globals holding what the names stand for there, and with the
/// expression's number, which it has exactly where its type is that of a number or of a string.
pub proof fn expressions_compute_what_they_mean(
    code: Code,
    s: Lowering,
    p: Program,
    env: Env,
    expr_id: ExprId,
    limit: int,
    fuel: nat,
    m: Machine,
)
    requires
        poised(p, code, s, env, m),
        counted(p, expr_id, limit),
        covers(code, expr_code(s, p, expr_id, limit).0),
        meant(p, env, expr_id, limit, fuel) is Some,
    ensures
        ({
            let (t, value) = expr_code(s, p, expr_id, limit);
            let outcome = meant(p, env, expr_id, limit, fuel)->0;
            &&& outcome.number is Some <==> plain(type_of(p, expr_id))
            &&& exists|after: Machine|
                {
                    &&& #[trigger] reaches(code, m, after)
                    &&& caught_up(t, after)
                    &&& mirrors(t, outcome.env, after)
                    &&& outcome.number is Some ==> value is Some && operand(after, value->0)
                        == outcome.number
                }
        }),
{
    let r = lemma_expr_runs(code, s, p, env, expr_id, limit, fuel, m);
    assert(reaches(code, m, r.1));
}

/// The code of a statement does what the statement means: the machine comes to where the code ends,
/// with the slots and the globals holding what the statement makes of the names.
pub proof fn statements_do_what_they_mean(
    code: Code,
    s: Lowering,
    p: Program,
    env: Env,
    stmt: StmtView,
    limit: int,
    fuel: nat,
    m: Machine,
)
    requires
        poised(p, code, s, env, m),
        counted_stmt(p, stmt, limit),
        covers(code, stmt_code(s, p, stmt, limit).0),
        stmt_meant(p, env, stmt, limit, fuel) is Some,
    ensures
        ({
            let t = stmt_code(s, p, stmt, limit).0;
            let outcome = stmt_meant(p, env, stmt, limit, fuel)->0;
            exists|after: Machine|
                {
                    &&& #[trigger] reaches(code, m, after)
                    &&& caught_up(t, after)
                    &&& mirrors(t, outcome.env, after)
                }
        }),
{
    let r = lemma_stmt_runs(code, s, p, env, stmt, limit, fuel, m);
    assert(reaches(code, m, r.1));
}

} // verus!
