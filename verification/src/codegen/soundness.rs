//! What the type checker accepts can be lowered.
//!
//! A lowering fails where a name means nothing, where a value is needed of what yields none, or
//! where a type calls for something else than it stands for. Along a program that the type checker
//! accepts, none of these comes: the names that the type checker knows are names that the lowering
//! knows.

use vstd::prelude::*;

use super::builder::{
    CodegenError, Lowering, Program, Slot, block_appended, body_begun, callable, called, emitted,
    entered, float_added, function_added, global_added, global_slot, innermost_slot,
    inside_function, local_slot, name_bound, nearest, nothing_lowered, op, positioned,
    scope_popped, scope_pushed, signature, text_added,
};
use super::emit::{alloca_at_entry, promote, resolve_place, storable, var_slot};
use super::ir::{Callee, FunctionName, InstView, IrFunctionView, IrType, Op, RuntimeFn, Value};
use super::lowering::{
    StrPart, args_code, arms_code, as_float, as_int, block_code, block_for_effect_code,
    branch_code, build_concat, build_str_constant, discarded_str_freed, expect_value, expr_code,
    free_global_strings, free_scope_strings, free_str_slot, free_str_value, function_code,
    functions_code, functions_declared, global_strings_freed, globals_declared, group_declared,
    group_stored, groups_declared, groups_stored, items_code, load_place, lowered, node_code,
    own_str, owned_str_code, owns_str_result, param_types, params_code, parts_freed, parts_stored,
    program_type, result_code, scope_strings_freed, segments_code, spill_str, stmt_code,
    stmts_code, stmts_from, store_to_place, str_from_value, str_parts, str_values, value_written,
    values_code,
};
use crate::parser::ast::{
    AstView, BinOp, BlockView, ExprId, FStrSegment, FuncDefView, IfArmView, NodeView, Param,
    PinpType, Place, StmtView, SymId, TopLevelView, block_ok, func_ok, node_ok, stmt_ok, symbol_of,
    top_level_ok,
};
use crate::parser::grammar::{ParseErrorView, parsed};
use crate::parser::trees::{annotated_item, parsed_programs_are_trees};
use crate::sema::{
    SemaState, analyzed, args_checked, arms_checked, assignable_to, binds_values,
    block_locals_do_not_escape, block_type, branches_joined, built_in_type, condition,
    definitions_add_their_own_function, expr_type, first_unbound, func_checked, group_assigned,
    groups_assigned, joined, lemma_arms_names, lemma_expr_names, lemma_first_void, lookup,
    node_type, opened, params_frame, place_assigned, place_type, resolved, same_names, signature_of,
    statements_keep_bindings, stmt_checked, stmts_checked, value_types,
};
use crate::typing::{
    arms_typed, block_typed, ending, expr_typed, exprs_typed, func_typed, inside, items_typed,
    node_typed, recorded_types_are_the_types_found, stmt_typed, stmts_typed, unshared,
};

verus! {

// ---------------------------------------------------------------------------
// What lowering knows
// ---------------------------------------------------------------------------

/// What a lowering in progress knows, apart from what it has emitted.
#[verifier::ext_equal]
pub struct Context {
    pub failure: Option<CodegenError>,
    pub frames: Seq<Map<u32, Slot>>,
    pub global_slots: Map<u32, Slot>,
    pub callables: Map<u32, usize>,
    pub functions: Seq<IrFunctionView>,
    pub in_function: bool,
}

pub open spec fn context(s: Lowering) -> Context {
    Context {
        failure: s.failure,
        frames: s.frames,
        global_slots: s.global_slots,
        callables: s.callables,
        functions: s.functions,
        in_function: s.in_function,
    }
}

broadcast proof fn lemma_emitted_context(s: Lowering, inst: InstView)
    ensures
        #[trigger] context(emitted(s, inst)) == context(s),
{
    reveal(emitted);
}

broadcast proof fn lemma_entered_context(s: Lowering, at: usize, inst: Op)
    ensures
        #[trigger] context(entered(s, at, inst)) == context(s),
{
    reveal(entered);
}

broadcast proof fn lemma_block_appended_context(s: Lowering, label: Seq<char>)
    ensures
        #[trigger] context(block_appended(s, label)) == context(s),
{
    reveal(block_appended);
}

broadcast proof fn lemma_positioned_context(s: Lowering, block: usize)
    ensures
        #[trigger] context(positioned(s, block)) == context(s),
{
    reveal(positioned);
}

broadcast proof fn lemma_text_added_context(s: Lowering, content: Seq<char>)
    ensures
        #[trigger] context(text_added(s, content)) == context(s),
{
    reveal(text_added);
}

broadcast proof fn lemma_float_added_context(s: Lowering, digits: Seq<char>)
    ensures
        #[trigger] context(float_added(s, digits)) == context(s),
{
    reveal(float_added);
}

broadcast group group_context {
    lemma_emitted_context,
    lemma_entered_context,
    lemma_block_appended_context,
    lemma_positioned_context,
    lemma_text_added_context,
    lemma_float_added_context,
}

// ---------------------------------------------------------------------------
// Types that values have
// ---------------------------------------------------------------------------

/// A type that lowering renders and stores.
pub open spec fn plain(t: PinpType) -> bool {
    t == PinpType::Bool || t == PinpType::Int || t == PinpType::Float || t == PinpType::Str
}

/// The type of a value, or of none.
pub open spec fn plain_or_void(t: PinpType) -> bool {
    plain(t) || t == PinpType::Void
}

/// Names that calls do not resolve.
pub open spec fn built_in(name: Seq<char>) -> bool {
    name == "identity"@ || name == "str"@ || name == "meminfo"@
}

/// What the type checker knows is of types that lowering renders and stores.
pub open spec fn plain_state(ast: AstView, st: SemaState) -> bool {
    &&& binds_values(st)
    &&& forall|k: int, sym: u32|
        0 <= k < st.scopes.len() && #[trigger] st.scopes[k].contains_key(sym) ==> plain(
            st.scopes[k][sym],
        )
    &&& forall|f: u32| #[trigger]
        st.funcs.contains_key(f) ==> {
            &&& plain_or_void(st.funcs[f].return_type)
            &&& forall|i: int|
                0 <= i < st.funcs[f].params.len() ==> plain(#[trigger] st.funcs[f].params[i])
            &&& !built_in(ast.names[f as int])
        }
}

/// Functions that are defined once, of types that lowering renders and stores, and not by the name
/// of a built-in one.
pub open spec fn ordinary(ast: AstView) -> bool {
    &&& forall|i: int|
        0 <= i < ast.top_level.len() ==> (#[trigger] ast.top_level[i] matches TopLevelView::Func(
            func,
        ) ==> ordinary_function(ast, func))
    &&& told_apart(ast)
}

/// No two functions of the program have the same name.
pub open spec fn told_apart(ast: AstView) -> bool {
    forall|i: int, j: int|
        0 <= i < j < ast.top_level.len() ==> (#[trigger] ast.top_level[i] matches TopLevelView::Func(
            f,
        ) && #[trigger] ast.top_level[j] matches TopLevelView::Func(g) ==> f.name != g.name)
}

pub open spec fn ordinary_function(ast: AstView, func: FuncDefView) -> bool {
    &&& plain_or_void(func.return_type)
    &&& forall|i: int|
        0 <= i < func.params.len() ==> plain_or_void((#[trigger] func.params[i]).param_type)
    &&& !built_in(ast.names[func.name.0 as int])
}

proof fn lemma_lookup(scopes: Seq<Map<u32, PinpType>>, base: int, top: int, sym: u32)
    requires
        0 <= base <= top <= scopes.len(),
    ensures
        match lookup(scopes, base, top, sym) {
            Some(t) => exists|k: int|
                base <= k < top && #[trigger] scopes[k].contains_key(sym) && scopes[k][sym] == t,
            None => forall|k: int| base <= k < top ==> !#[trigger] scopes[k].contains_key(sym),
        },
    decreases top - base,
{
    if top > base && !scopes[top - 1].contains_key(sym) {
        lemma_lookup(scopes, base, top - 1, sym);
    }
}

/// Where all branches of an `if` yield a value together, each of them yields one.
proof fn lemma_branches(so_far: PinpType, branches: Seq<Option<PinpType>>, from: int)
    requires
        0 <= from <= branches.len(),
    ensures
        branches_joined(so_far, branches, from) != PinpType::Void ==> {
            &&& so_far != PinpType::Void
            &&& forall|k: int|
                from <= k < branches.len() ==> (#[trigger] branches[k] matches Some(b) && b
                    != PinpType::Void)
        },
        plain_or_void(so_far) && (forall|k: int|
            from <= k < branches.len() ==> (#[trigger] branches[k] matches Some(b)
                ==> plain_or_void(b))) ==> plain_or_void(branches_joined(so_far, branches, from)),
    decreases branches.len() - from,
{
    if from < branches.len() {
        if let Some(branch) = branches[from] {
            if let Some(wider) = joined(so_far, branch) {
                lemma_branches(wider, branches, from + 1);
            }
        }
    }
}

/// The types of the arms' branches are those of the expressions they end in.
proof fn lemma_endings(
    ast: AstView,
    types: Seq<PinpType>,
    st: SemaState,
    arms: Seq<IfArmView>,
    done: Seq<Option<PinpType>>,
    limit: int,
)
    requires
        arms_typed(ast, types, st, arms, done, limit),
        done.len() <= arms.len(),
        forall|k: int| 0 <= k < done.len() ==> #[trigger] done[k] == ending(types, arms[k].body),
    ensures
        arms_checked(ast, st, arms, done, limit).1 matches Ok(branches) && branches.len()
            == arms.len() && forall|k: int|
            0 <= k < arms.len() ==> #[trigger] branches[k] == ending(types, arms[k].body),
    decreases arms.len() - done.len(),
{
    if done.len() < arms.len() {
        let arm = arms[done.len() as int];
        let s1 = condition(ast, st, arm.cond, limit).0;
        assert(block_typed(ast, types, s1, arm.body, limit));
        let s2 = block_type(ast, s1, arm.body, limit).0;
        lemma_endings(ast, types, s2, arms, done.push(ending(types, arm.body)), limit);
    }
}

// ---------------------------------------------------------------------------
// The type checker finds plain types
// ---------------------------------------------------------------------------

proof fn lemma_expr_plain(
    ast: AstView,
    types: Seq<PinpType>,
    st: SemaState,
    expr_id: ExprId,
    limit: int,
)
    requires
        ast.well_formed(),
        0 <= limit <= ast.nodes.len(),
        plain_state(ast, st),
        expr_typed(ast, types, st, expr_id, limit),
    ensures
        plain_or_void(types[expr_id.0 as int]),
        plain_state(ast, expr_type(ast, st, expr_id, limit).0),
    decreases limit, 0int, ast, 0int,
{
    let id = expr_id.0 as int;
    let node = ast.nodes[id];
    lemma_expr_names(ast, st, expr_id, limit);
    assert(node_ok(node, ast.bounds_before(id)));
    assert(node_type(ast, st, node, id).1 matches Ok(t) && t == types[id]);
    match node {
        NodeView::Var(sym_id) => {
            lemma_lookup(st.scopes, st.base, st.scopes.len() as int, sym_id.0);
            assert(resolved(st, sym_id) == Some(types[id]));
            let k = choose|k: int|
                st.base <= k < st.scopes.len() && #[trigger] st.scopes[k].contains_key(sym_id.0)
                    && st.scopes[k][sym_id.0] == types[id];
            assert(plain(st.scopes[k][sym_id.0]));
        },
        NodeView::If(arms, else_block) => {
            lemma_endings(ast, types, st, arms, Seq::empty(), id);
            lemma_arms_plain(ast, types, st, arms, Seq::empty(), id);
            if let Some(block) = else_block {
                let (s1, branches) = arms_checked(ast, st, arms, Seq::empty(), id);
                assert(block_typed(ast, types, s1, block, id));
                lemma_block_plain(ast, types, s1, block, id);
                if let Some(last) = ending(types, block) {
                    let found = branches->Ok_0;
                    assert forall|k: int| 0 <= k < found.len() implies (
                    #[trigger] found[k] matches Some(b) ==> plain_or_void(b)) by {
                        assert(found[k] == ending(types, arms[k].body));
                    }
                    lemma_branches(last, branches->Ok_0, 0);
                }
            }
        },
        _ => {},
    }
}

proof fn lemma_arms_plain(
    ast: AstView,
    types: Seq<PinpType>,
    st: SemaState,
    arms: Seq<IfArmView>,
    done: Seq<Option<PinpType>>,
    limit: int,
)
    requires
        ast.well_formed(),
        0 <= limit <= ast.nodes.len(),
        plain_state(ast, st),
        forall|i: int|
            0 <= i < arms.len() ==> block_ok((#[trigger] arms[i]).body, ast.bounds_before(limit)),
        arms_typed(ast, types, st, arms, done, limit),
    ensures
        forall|k: int|
            done.len() <= k < arms.len() ==> (ending(types, (#[trigger] arms[k]).body) matches Some(
                b,
            ) ==> plain_or_void(b)),
        plain_state(ast, arms_checked(ast, st, arms, done, limit).0),
    decreases limit, 2int, ast, arms.len() - done.len(),
{
    if done.len() < arms.len() {
        let arm = arms[done.len() as int];
        lemma_expr_plain(ast, types, st, arm.cond, limit);
        let s1 = condition(ast, st, arm.cond, limit).0;
        assert(block_typed(ast, types, s1, arm.body, limit));
        lemma_block_plain(ast, types, s1, arm.body, limit);
        let s2 = block_type(ast, s1, arm.body, limit).0;
        lemma_arms_plain(ast, types, s2, arms, done.push(ending(types, arm.body)), limit);
    }
}

proof fn lemma_block_plain(
    ast: AstView,
    types: Seq<PinpType>,
    st: SemaState,
    block: BlockView,
    limit: int,
)
    requires
        ast.well_formed(),
        0 <= limit <= ast.nodes.len(),
        plain_state(ast, st),
        block_ok(block, ast.bounds_before(limit)),
        block_typed(ast, types, st, block, limit),
    ensures
        ending(types, block) matches Some(b) ==> plain_or_void(b),
        plain_state(ast, block_type(ast, st, block, limit).0),
    decreases limit, 1int, block, block.stmts.len() + 1,
{
    let inner = opened(st, Map::empty());
    lemma_stmts_plain(ast, types, inner, block, 0, limit);
    if let Some(result) = block.result {
        lemma_expr_plain(
            ast,
            types,
            stmts_checked(ast, inner, block, 0, limit).0,
            result,
            limit,
        );
    }
    block_locals_do_not_escape(ast, st, block, limit);
}

proof fn lemma_stmts_plain(
    ast: AstView,
    types: Seq<PinpType>,
    st: SemaState,
    block: BlockView,
    from: int,
    limit: int,
)
    requires
        ast.well_formed(),
        0 <= limit <= ast.nodes.len(),
        plain_state(ast, st),
        block_ok(block, ast.bounds_before(limit)),
        stmts_typed(ast, types, st, block, from, limit),
    ensures
        stmts_checked(ast, st, block, from, limit).1 is Ok,
        plain_state(ast, stmts_checked(ast, st, block, from, limit).0),
    decreases limit, 1int, block, block.stmts.len() - from,
{
    if 0 <= from < block.stmts.len() {
        assert(stmt_typed(ast, types, st, block.stmts[from], limit));
        lemma_stmt_plain(ast, types, st, block.stmts[from], limit);
        let s1 = stmt_checked(ast, st, block.stmts[from], limit).0;
        lemma_stmts_plain(ast, types, s1, block, from + 1, limit);
    }
}

/// The values of an assignment are of the types recorded, and plain.
proof fn lemma_values_plain(
    ast: AstView,
    types: Seq<PinpType>,
    st: SemaState,
    values: Seq<ExprId>,
    done: Seq<PinpType>,
    limit: int,
)
    requires
        ast.well_formed(),
        0 <= limit <= ast.nodes.len(),
        plain_state(ast, st),
        done.len() <= values.len(),
        forall|i: int|
            0 <= i < done.len() ==> #[trigger] done[i] == types[values[i].0 as int] && plain(
                done[i],
            ),
        exprs_typed(ast, types, st, values, done.len() as int, limit),
        value_types(ast, st, values, done, limit).1 is Ok,
    ensures
        value_types(ast, st, values, done, limit).1 matches Ok(found) && found.len()
            == values.len() && forall|i: int|
            0 <= i < values.len() ==> #[trigger] found[i] == types[values[i].0 as int] && plain(
                found[i],
            ),
        plain_state(ast, value_types(ast, st, values, done, limit).0),
        same_names(st, value_types(ast, st, values, done, limit).0),
    decreases limit, 0int, ast, values.len() - done.len() + 1,
{
    if done.len() < values.len() {
        let value = values[done.len() as int];
        lemma_expr_plain(ast, types, st, value, limit);
        lemma_expr_names(ast, st, value, limit);
        assert(expr_typed(ast, types, st, value, limit));
        let s1 = expr_type(ast, st, value, limit).0;
        lemma_values_plain(ast, types, s1, values, done.push(types[value.0 as int]), limit);
    }
}

proof fn lemma_group_plain(
    ast: AstView,
    st: SemaState,
    group: Seq<Place>,
    values: Seq<PinpType>,
    from: int,
)
    requires
        plain_state(ast, st),
        0 <= from,
        group.len() == values.len(),
        forall|i: int| 0 <= i < values.len() ==> plain(#[trigger] values[i]),
        group_assigned(ast, st, group, values, from).1 is Ok,
    ensures
        plain_state(ast, group_assigned(ast, st, group, values, from).0),
    decreases group.len() - from,
{
    if from < group.len() {
        let s1 = place_assigned(ast, st, group[from], values[from]).0;
        assert(plain_state(ast, s1)) by {
            assert(plain(values[from]));
        }
        lemma_group_plain(ast, s1, group, values, from + 1);
    }
}

proof fn lemma_groups_plain(
    ast: AstView,
    st: SemaState,
    groups: Seq<Seq<Place>>,
    values: Seq<PinpType>,
    from: int,
)
    requires
        plain_state(ast, st),
        0 <= from,
        forall|i: int| 0 <= i < groups.len() ==> (#[trigger] groups[i]).len() == values.len(),
        forall|i: int| 0 <= i < values.len() ==> plain(#[trigger] values[i]),
        groups_assigned(ast, st, groups, values, from).1 is Ok,
    ensures
        plain_state(ast, groups_assigned(ast, st, groups, values, from).0),
    decreases groups.len() - from,
{
    if from < groups.len() {
        lemma_group_plain(ast, st, groups[from], values, 0);
        let s1 = group_assigned(ast, st, groups[from], values, 0).0;
        lemma_groups_plain(ast, s1, groups, values, from + 1);
    }
}

proof fn lemma_stmt_plain(
    ast: AstView,
    types: Seq<PinpType>,
    st: SemaState,
    stmt: StmtView,
    limit: int,
)
    requires
        ast.well_formed(),
        0 <= limit <= ast.nodes.len(),
        plain_state(ast, st),
        stmt_ok(stmt, ast.bounds_before(limit)),
        stmt_typed(ast, types, st, stmt, limit),
    ensures
        plain_state(ast, stmt_checked(ast, st, stmt, limit).0),
        stmt matches StmtView::Assign(_, _, values) ==> forall|i: int|
            0 <= i < values.len() ==> plain(types[(#[trigger] values[i]).0 as int]),
    decreases limit, 1int, stmt, 0int,
{
    match stmt {
        StmtView::Expr(expr_id) => {
            lemma_expr_plain(ast, types, st, expr_id, limit);
        },
        StmtView::Assign(targets, _, values) => {
            lemma_values_plain(ast, types, st, values, Seq::empty(), limit);
            let (s1, r) = value_types(ast, st, values, Seq::empty(), limit);
            let found = r->Ok_0;
            lemma_groups_plain(ast, s1, targets, found, 0);
            assert forall|i: int| 0 <= i < values.len() implies plain(
                types[(#[trigger] values[i]).0 as int],
            ) by {
                assert(plain(found[i]));
            }
        },
        StmtView::While(cond, body) => {
            lemma_expr_plain(ast, types, st, cond, limit);
            lemma_block_plain(ast, types, condition(ast, st, cond, limit).0, body, limit);
        },
        StmtView::Loop(body, cond, _) => {
            lemma_block_plain(ast, types, st, body, limit);
            lemma_expr_plain(ast, types, block_type(ast, st, body, limit).0, cond, limit);
        },
        _ => {},
    }
}

// ---------------------------------------------------------------------------
// Names
// ---------------------------------------------------------------------------

/// Whether a name bound in frame `i` is found there, in a frame around it, or among the globals.
pub open spec fn covered(c: Context, i: int, sym: u32) -> bool {
    ||| c.global_slots.contains_key(sym)
    ||| exists|j: int| 0 <= j <= i && #[trigger] c.frames[j].contains_key(sym)
}

/// The globals and functions that the type checker knows are ones that the lowering knows.
pub open spec fn globals_known(ast: AstView, st: SemaState, c: Context) -> bool {
    &&& c.failure is None
    &&& plain_state(ast, st)
    &&& forall|sym: u32| #[trigger]
        st.scopes[0].contains_key(sym) ==> c.global_slots.contains_key(sym)
    &&& forall|sym: u32| #[trigger]
        c.global_slots.contains_key(sym) ==> plain(c.global_slots[sym].value_type)
    &&& forall|f: u32| #[trigger]
        st.funcs.contains_key(f) ==> {
            &&& c.callables.contains_key(f)
            &&& c.callables[f] < c.functions.len()
            &&& c.functions[c.callables[f] as int].params == st.funcs[f].params
            &&& c.functions[c.callables[f] as int].result == st.funcs[f].return_type
        }
}

/// The names that the type checker knows are names that the lowering knows, frame by frame.
pub open spec fn known(ast: AstView, st: SemaState, c: Context) -> bool {
    &&& globals_known(ast, st, c)
    &&& c.frames.len() == st.scopes.len() - st.base
    &&& forall|k: int, sym: u32|
        st.base <= k < st.scopes.len() && #[trigger] st.scopes[k].contains_key(sym) ==> covered(
            c,
            k - st.base,
            sym,
        )
    &&& forall|j: int, sym: u32|
        0 <= j < c.frames.len() && #[trigger] c.frames[j].contains_key(sym) ==> plain(
            c.frames[j][sym].value_type,
        )
}

/// What statements leave of a context: names are added to its innermost frame alone.
pub open spec fn kept(before: Context, after: Context) -> bool {
    &&& after.failure == before.failure
    &&& after.frames.len() == before.frames.len()
    &&& after.frames.drop_last() == before.frames.drop_last()
    &&& after.global_slots == before.global_slots
    &&& after.callables == before.callables
    &&& after.functions == before.functions
    &&& after.in_function == before.in_function
}

proof fn lemma_nearest(frames: Seq<Map<u32, Slot>>, top: int, sym: u32)
    requires
        0 <= top <= frames.len(),
    ensures
        match nearest(frames, top, sym) {
            Some(slot) => exists|j: int|
                0 <= j < top && #[trigger] frames[j].contains_key(sym) && frames[j][sym] == slot,
            None => forall|j: int| 0 <= j < top ==> !#[trigger] frames[j].contains_key(sym),
        },
    decreases top,
{
    if top > 0 && !frames[top - 1].contains_key(sym) {
        lemma_nearest(frames, top - 1, sym);
    }
}

/// A name that the type checker knows has a place, with a type that is rendered and stored.
proof fn lemma_place_known(ast: AstView, st: SemaState, s: Lowering, place: Place)
    requires
        known(ast, st, context(s)),
        place_type(ast, st, place) is Ok,
    ensures
        match place {
            Place::Local(sym_id) => {
                &&& var_slot(s, sym_id, false).0 == s
                &&& plain(var_slot(s, sym_id, false).1.value_type)
            },
            Place::Global(sym_id) => {
                &&& var_slot(s, sym_id, true).0 == s
                &&& plain(var_slot(s, sym_id, true).1.value_type)
                &&& s.global_slots.contains_key(sym_id.0)
            },
        },
{
    reveal(local_slot);
    reveal(global_slot);
    if let Place::Local(sym_id) = place {
        lemma_lookup(st.scopes, st.base, st.scopes.len() as int, sym_id.0);
        lemma_nearest(s.frames, s.frames.len() as int, sym_id.0);
        let k = choose|k: int|
            st.base <= k < st.scopes.len() && #[trigger] st.scopes[k].contains_key(sym_id.0)
                && Some(st.scopes[k][sym_id.0]) == resolved(st, sym_id);
        assert(covered(context(s), k - st.base, sym_id.0));
        if !s.global_slots.contains_key(sym_id.0) {
            let j = choose|j: int|
                0 <= j <= k - st.base && #[trigger] context(s).frames[j].contains_key(sym_id.0);
            assert(s.frames[j].contains_key(sym_id.0));
        }
    }
}

// ---------------------------------------------------------------------------
// Strings
// ---------------------------------------------------------------------------

proof fn lemma_parts_stored_context(
    s: Lowering,
    base: Value,
    parts: Seq<StrPart>,
    slots: Seq<Value>,
)
    ensures
        context(parts_stored(s, base, parts, slots).0) == context(s),
    decreases parts.len() - slots.len(),
{
    broadcast use group_context;

    if slots.len() < parts.len() {
        let index = slots.len() as int;
        let slot = super::builder::next_value(s);
        let s1 = op(s, Op::ElementPtr(IrType::Str, base, Value::Int(index as i64)));
        let s2 = op(s1, Op::Store(slot, parts[index].value));
        lemma_parts_stored_context(s2, base, parts, slots.push(slot));
        assert(context(s1) == context(s));
        assert(context(s2) == context(s1));
    }
}

proof fn lemma_parts_freed_context(
    s: Lowering,
    parts: Seq<StrPart>,
    slots: Seq<Value>,
    from: int,
)
    ensures
        context(parts_freed(s, parts, slots, from)) == context(s),
    decreases parts.len() - from,
{
    broadcast use group_context;

    if 0 <= from < parts.len() {
        let s1 = if parts[from].owned {
            free_str_slot(s, slots[from])
        } else {
            s
        };
        lemma_parts_freed_context(s1, parts, slots, from + 1);
        assert(context(s1) == context(s));
    }
}

broadcast proof fn lemma_concat_context(s: Lowering, parts: Seq<StrPart>)
    ensures
        #[trigger] context(build_concat(s, parts).0) == context(s),
{
    broadcast use group_context;

    let base = super::builder::next_value(s);
    let s1 = entered(s, 0, Op::Alloca(IrType::StrArray(parts.len() as usize)));
    lemma_parts_stored_context(s1, base, parts, Seq::empty());
    let (s2, slots) = parts_stored(s1, base, parts, Seq::empty());
    let s3 = called(
        s2,
        Callee::Runtime(RuntimeFn::StrConcatN),
        seq![base, Value::Int(parts.len() as i64)],
    );
    lemma_parts_freed_context(s3, parts, slots, 0);
    assert(context(s3) == context(s2));
    assert(context(s1) == context(s));
}

proof fn lemma_scope_strings_context(s: Lowering, symbols: int, from: int)
    ensures
        context(scope_strings_freed(s, symbols, from)) == context(s),
    decreases symbols - from,
{
    broadcast use group_context;

    if 0 <= from < symbols {
        let s1 = match innermost_slot(s, from as u32) {
            Some(slot) => if slot.value_type == PinpType::Str {
                free_str_slot(s, slot.place)
            } else {
                s
            },
            None => s,
        };
        lemma_scope_strings_context(s1, symbols, from + 1);
        assert(context(s1) == context(s));
    }
}

proof fn lemma_global_strings_context(s: Lowering, symbols: int, from: int)
    ensures
        context(global_strings_freed(s, symbols, from)) == context(s),
    decreases symbols - from,
{
    broadcast use group_context;

    if 0 <= from < symbols {
        let s1 = match global_slot(s, SymId(from as u32)) {
            Some(slot) => if slot.value_type == PinpType::Str {
                free_str_slot(s, slot.place)
            } else {
                s
            },
            None => s,
        };
        lemma_global_strings_context(s1, symbols, from + 1);
        assert(context(s1) == context(s));
    }
}

/// A value of a type that is rendered can be rendered.
broadcast proof fn lemma_rendered_context(s: Lowering, value: Value, value_type: PinpType)
    requires
        plain(value_type),
    ensures
        #[trigger] context(str_from_value(s, value, value_type).0) == context(s),
{
    broadcast use group_context;

}

broadcast proof fn lemma_promoted_context(
    s: Lowering,
    value: Value,
    from: PinpType,
    to: PinpType,
)
    ensures
        #[trigger] context(promote(s, value, from, to).0) == context(s),
{
    broadcast use group_context;

}

broadcast proof fn lemma_own_str_context(s: Lowering, value: Value, owned: bool)
    ensures
        #[trigger] context(own_str(s, value, owned).0) == context(s),
{
    broadcast use lemma_concat_context;

}

broadcast proof fn lemma_alloca_context(s: Lowering, pinp_type: PinpType)
    requires
        plain(pinp_type),
    ensures
        #[trigger] context(alloca_at_entry(s, pinp_type).0) == context(s),
{
    broadcast use group_context;

}

broadcast proof fn lemma_constant_context(s: Lowering, content: Seq<char>)
    ensures
        #[trigger] context(build_str_constant(s, content).0) == context(s),
{
    broadcast use group_context;

}

broadcast proof fn lemma_freed_value_context(s: Lowering, value: Value)
    ensures
        #[trigger] context(free_str_value(s, value)) == context(s),
{
    broadcast use group_context;
    broadcast use lemma_alloca_context;

}

broadcast proof fn lemma_spilled_context(s: Lowering, value: Value)
    ensures
        #[trigger] context(spill_str(s, value).0) == context(s),
{
    broadcast use group_context;
    broadcast use lemma_alloca_context;

}

broadcast group group_shapes {
    lemma_concat_context,
    lemma_rendered_context,
    lemma_promoted_context,
    lemma_own_str_context,
    lemma_alloca_context,
    lemma_constant_context,
    lemma_freed_value_context,
    lemma_spilled_context,
}

/// The holes of an f-string name what can be rendered.
proof fn lemma_segments_context(
    p: Program,
    st: SemaState,
    s: Lowering,
    segments: Seq<FStrSegment>,
    done: Seq<StrPart>,
)
    requires
        known(p.ast, st, context(s)),
        first_unbound(p.ast, st, segments, done.len() as int) is None,
    ensures
        context(segments_code(s, p, segments, done).0) == context(s),
    decreases segments.len() - done.len(),
{
    broadcast use {group_context, group_shapes};

    if done.len() < segments.len() {
        match segments[done.len() as int] {
            FStrSegment::Literal(str_id) => {
                let (s1, value) = build_str_constant(s, p.ast.strings[str_id.0 as int]);
                assert(context(s1) == context(s));
                lemma_segments_context(
                    p,
                    st,
                    s1,
                    segments,
                    done.push(StrPart { value, owned: true }),
                );
            },
            FStrSegment::Interp(place) => {
                lemma_place_known(p.ast, st, s, place);
                let (s1, (raw, value_type)) = load_place(s, place);
                assert(context(s1) == context(s));
                let (s2, value) = str_from_value(s1, raw, value_type);
                assert(context(s2) == context(s1));
                let owned = value_type != PinpType::Str;
                lemma_segments_context(p, st, s2, segments, done.push(StrPart { value, owned }));
            },
        }
    }
}

// ---------------------------------------------------------------------------
// Expressions
// ---------------------------------------------------------------------------

/// An expression that the type checker types is lowered, and yields a value unless its type is
/// `Void`.
proof fn lemma_expr_lowered(p: Program, st: SemaState, s: Lowering, expr_id: ExprId, limit: int)
    requires
        p.ast.well_formed(),
        0 <= limit <= p.ast.nodes.len(),
        known(p.ast, st, context(s)),
        expr_typed(p.ast, p.types, st, expr_id, limit),
    ensures
        context(expr_code(s, p, expr_id, limit).0) == context(s),
        expr_code(s, p, expr_id, limit).1 is Some <==> p.types[expr_id.0 as int] != PinpType::Void,
    decreases limit, 0int, p, 0int,
{
    lemma_node_lowered(p, st, s, expr_id, expr_id.0 as int);
}

/// The same where a value is needed of it.
proof fn lemma_value_lowered(p: Program, st: SemaState, s: Lowering, expr_id: ExprId, limit: int)
    requires
        p.ast.well_formed(),
        0 <= limit <= p.ast.nodes.len(),
        known(p.ast, st, context(s)),
        expr_typed(p.ast, p.types, st, expr_id, limit),
        p.types[expr_id.0 as int] != PinpType::Void,
    ensures
        context(expect_value(s, p, expr_id, limit).0) == context(s),
        context(as_int(s, p, expr_id, limit).0) == context(s),
        context(as_float(s, p, expr_id, limit).0) == context(s),
        context(owned_str_code(s, p, expr_id, limit).0) == context(s),
        same_names(st, expr_type(p.ast, st, expr_id, limit).0),
        known(p.ast, expr_type(p.ast, st, expr_id, limit).0, context(s)),
    decreases limit, 1int, p, 0int,
{
    broadcast use {group_context, group_shapes};

    lemma_expr_lowered(p, st, s, expr_id, limit);
    lemma_expr_names(p.ast, st, expr_id, limit);
}

/// The states in which the operands of a chain of string `+` are checked.
proof fn lemma_chain(p: Program, st: SemaState, expr_id: ExprId, limit: int) -> (states: Seq<
    SemaState,
>)
    requires
        p.ast.well_formed(),
        0 <= limit <= p.ast.nodes.len(),
        binds_values(st),
        expr_typed(p.ast, p.types, st, expr_id, limit),
        plain(p.types[expr_id.0 as int]),
    ensures
        states.len() == str_parts(p, expr_id, limit).len(),
        forall|k: int|
            0 <= k < states.len() ==> {
                let part = str_parts(p, expr_id, limit)[k];
                &&& same_names(st, #[trigger] states[k])
                &&& expr_typed(p.ast, p.types, states[k], part, limit)
                &&& plain(p.types[part.0 as int])
            },
    decreases limit,
{
    let id = expr_id.0 as int;
    match p.ast.nodes[id] {
        NodeView::Bin(BinOp::Add, lhs, rhs) if p.types[id] == PinpType::Str => {
            assert(expr_typed(p.ast, p.types, st, lhs, id));
            let s1 = expr_type(p.ast, st, lhs, id).0;
            assert(expr_typed(p.ast, p.types, s1, rhs, id));
            lemma_expr_names(p.ast, st, lhs, id);
            assert(node_type(p.ast, st, p.ast.nodes[id], id).1 matches Ok(t) && t == p.types[id]);
            let left = lemma_chain(p, st, lhs, id);
            let parts = str_parts(p, lhs, id);
            assert(str_parts(p, expr_id, limit) == parts.push(rhs));
            let states = left.push(s1);
            assert forall|k: int| 0 <= k < states.len() implies {
                let part = str_parts(p, expr_id, limit)[k];
                &&& same_names(st, #[trigger] states[k])
                &&& expr_typed(p.ast, p.types, states[k], part, limit)
                &&& plain(p.types[part.0 as int])
            } by {
                let part = parts.push(rhs)[k];
                if k < left.len() {
                    assert(states[k] == left[k]);
                    assert(part == parts[k]);
                }
                assert(expr_typed(p.ast, p.types, states[k], part, id));
            }
            states
        },
        _ => {
            assert(str_parts(p, expr_id, limit) == seq![expr_id]);
            seq![st]
        },
    }
}

/// The operands of a join are lowered.
proof fn lemma_parts_lowered(
    p: Program,
    states: Seq<SemaState>,
    s: Lowering,
    parts: Seq<ExprId>,
    done: Seq<StrPart>,
    limit: int,
)
    requires
        p.ast.well_formed(),
        0 <= limit <= p.ast.nodes.len(),
        states.len() == parts.len(),
        forall|k: int|
            0 <= k < states.len() ==> {
                &&& known(p.ast, #[trigger] states[k], context(s))
                &&& expr_typed(p.ast, p.types, states[k], parts[k], limit)
                &&& plain(p.types[parts[k].0 as int])
            },
    ensures
        context(str_values(s, p, parts, done, limit).0) == context(s),
    decreases limit, 3int, p, parts.len() - done.len(),
{
    broadcast use group_shapes;

    if done.len() < parts.len() {
        let at = done.len() as int;
        let part = parts[at];
        assert(known(p.ast, states[at], context(s)));
        lemma_value_lowered(p, states[at], s, part, limit);
        let (s1, raw) = expect_value(s, p, part, limit);
        let part_type = p.types[part.0 as int];
        let (s2, value) = str_from_value(s1, raw, part_type);
        assert(context(s2) == context(s));
        let owned = part_type != PinpType::Str || owns_str_result(p, part);
        lemma_parts_lowered(p, states, s2, parts, done.push(StrPart { value, owned }), limit);
    }
}

/// The arguments of a call are lowered.
proof fn lemma_args_lowered(
    p: Program,
    st: SemaState,
    s: Lowering,
    callee: SymId,
    args: Seq<ExprId>,
    params: Seq<PinpType>,
    done: Seq<Value>,
    limit: int,
)
    requires
        p.ast.well_formed(),
        0 <= limit <= p.ast.nodes.len(),
        known(p.ast, st, context(s)),
        forall|i: int| 0 <= i < params.len() ==> plain(#[trigger] params[i]),
        args.len() == params.len(),
        exprs_typed(p.ast, p.types, st, args, done.len() as int, limit),
        args_checked(p.ast, st, callee, args, params, done.len() as int, limit).1 is Ok,
    ensures
        context(args_code(s, p, args, params, done, limit).0) == context(s),
    decreases limit, 3int, p, args.len() - done.len(),
{
    broadcast use group_shapes;

    if done.len() < args.len() {
        let at = done.len() as int;
        let arg = args[at];
        assert(expr_typed(p.ast, p.types, st, arg, limit));
        assert(plain(params[at]));
        lemma_value_lowered(p, st, s, arg, limit);
        let st1 = expr_type(p.ast, st, arg, limit).0;
        let (s1, raw) = if p.types[arg.0 as int] == PinpType::Str {
            owned_str_code(s, p, arg, limit)
        } else {
            expect_value(s, p, arg, limit)
        };
        let (s2, value) = promote(s1, raw, p.types[arg.0 as int], params[at]);
        assert(context(s2) == context(s));
        lemma_args_lowered(p, st1, s2, callee, args, params, done.push(value), limit);
    }
}

/// A binary operation is lowered.
proof fn lemma_bin_lowered(
    p: Program,
    st: SemaState,
    s: Lowering,
    t: PinpType,
    operator: BinOp,
    lhs: ExprId,
    rhs: ExprId,
    limit: int,
)
    requires
        p.ast.well_formed(),
        0 <= limit <= p.ast.nodes.len(),
        known(p.ast, st, context(s)),
        expr_typed(p.ast, p.types, st, lhs, limit),
        expr_typed(p.ast, p.types, expr_type(p.ast, st, lhs, limit).0, rhs, limit),
        crate::sema::binary_result(
            operator,
            p.types[lhs.0 as int],
            p.types[rhs.0 as int],
        ) matches Ok(found) && found == t,
    ensures
        context(super::lowering::bin_code(s, p, t, operator, lhs, rhs, limit).0) == context(s),
    decreases limit, 6int, p, 0int,
{
    broadcast use {group_context, group_shapes};

    let st1 = expr_type(p.ast, st, lhs, limit).0;
    lemma_value_lowered(p, st, s, lhs, limit);
    match operator {
        BinOp::And | BinOp::Or => {
            let (s1, left) = expect_value(s, p, lhs, limit);
            let rhs_block = super::builder::next_block(s1);
            let s2 = block_appended(s1, "sc_rhs"@);
            let merge = super::builder::next_block(s2);
            let s3 = block_appended(s2, "sc_merge"@);
            let s4 = if operator == BinOp::And {
                op(s3, Op::CondBranch(left, rhs_block, merge))
            } else {
                op(s3, Op::CondBranch(left, merge, rhs_block))
            };
            let s7 = positioned(s4, rhs_block);
            assert(context(s7) == context(s4));
            assert(context(s4) == context(s3));
            assert(context(s3) == context(s2));
            assert(context(s2) == context(s1));
            lemma_value_lowered(p, st1, s7, rhs, limit);
            let (s8, right) = expect_value(s7, p, rhs, limit);
            let s9 = op(s8, Op::Branch(merge));
            let s10 = positioned(s9, merge);
            assert(context(s9) == context(s8));
            assert(context(s10) == context(s9));
        },
        BinOp::Add | BinOp::Sub | BinOp::Mul => {
            if t == PinpType::Str {
                let left = lemma_chain(p, st, lhs, limit);
                let parts = str_parts(p, lhs, limit).push(rhs);
                let states = left.push(st1);
                assert forall|k: int| 0 <= k < states.len() implies {
                    &&& known(p.ast, #[trigger] states[k], context(s))
                    &&& expr_typed(p.ast, p.types, states[k], parts[k], limit)
                    &&& plain(p.types[parts[k].0 as int])
                } by {
                    if k < left.len() {
                        assert(states[k] == left[k]);
                    }
                }
                lemma_parts_lowered(p, states, s, parts, Seq::empty(), limit);
            } else {
                lemma_value_lowered(p, st1, as_float(s, p, lhs, limit).0, rhs, limit);
                lemma_value_lowered(p, st1, as_int(s, p, lhs, limit).0, rhs, limit);
            }
        },
        BinOp::Div | BinOp::Pow => {
            lemma_value_lowered(p, st1, as_float(s, p, lhs, limit).0, rhs, limit);
        },
        BinOp::IntDiv | BinOp::Mod => {
            lemma_value_lowered(p, st1, as_int(s, p, lhs, limit).0, rhs, limit);
        },
        BinOp::Xor => {
            lemma_value_lowered(p, st1, expect_value(s, p, lhs, limit).0, rhs, limit);
        },
        _ => {
            lemma_value_lowered(p, st1, expect_value(s, p, lhs, limit).0, rhs, limit);
            lemma_value_lowered(p, st1, as_float(s, p, lhs, limit).0, rhs, limit);
            lemma_value_lowered(p, st1, as_int(s, p, lhs, limit).0, rhs, limit);
        },
    }
}

proof fn lemma_node_lowered(p: Program, st: SemaState, s: Lowering, expr_id: ExprId, limit: int)
    requires
        p.ast.well_formed(),
        limit == expr_id.0,
        limit < p.ast.nodes.len(),
        known(p.ast, st, context(s)),
        node_type(p.ast, st, p.ast.nodes[limit], limit).1 matches Ok(t) && t == p.types[limit],
        node_typed(p.ast, p.types, st, p.ast.nodes[limit], limit),
    ensures
        ({
            let (t, r) = node_code(s, p, p.types[limit], p.ast.nodes[limit], limit);
            &&& context(t) == context(s)
            &&& r is Some <==> p.types[limit] != PinpType::Void
        }),
    decreases limit, 13int, p, 0int,
{
    broadcast use {group_context, group_shapes};

    let node = p.ast.nodes[limit];
    let t = p.types[limit];
    assert(node_ok(node, p.ast.bounds_before(limit)));
    match node {
        NodeView::FStr(segments) => {
            lemma_segments_context(p, st, s, segments, Seq::empty());
        },
        NodeView::Var(sym_id) => {
            lemma_place_known(p.ast, st, s, Place::Local(sym_id));
            lemma_lookup(st.scopes, st.base, st.scopes.len() as int, sym_id.0);
        },
        NodeView::Global(sym_id) => {
            lemma_place_known(p.ast, st, s, Place::Global(sym_id));
        },
        NodeView::Unary(operator, operand) => {
            assert(expr_typed(p.ast, p.types, st, operand, limit));
            lemma_value_lowered(p, st, s, operand, limit);
        },
        NodeView::Bin(operator, lhs, rhs) => {
            let st1 = expr_type(p.ast, st, lhs, limit).0;
            assert(expr_typed(p.ast, p.types, st, lhs, limit));
            assert(expr_typed(p.ast, p.types, st1, rhs, limit));
            lemma_bin_lowered(p, st, s, t, operator, lhs, rhs, limit);
        },
        NodeView::Call(callee, args) => {
            reveal(callable);
            reveal(signature);
            if st.funcs.contains_key(callee.0) {
                let function = s.callables[callee.0];
                lemma_args_lowered(
                    p,
                    st,
                    s,
                    callee,
                    args,
                    s.functions[function as int].params,
                    Seq::empty(),
                    limit,
                );
            } else {
                assert(built_in_type(p.ast, st, callee, args, limit) == built_in_type(
                    p.ast,
                    st,
                    callee,
                    args,
                    limit,
                ));
                reveal_strlit("identity");
                reveal_strlit("str");
                reveal_strlit("meminfo");
                if args.len() == 1 {
                    let arg = args[0];
                    assert(expr_typed(p.ast, p.types, st, arg, limit));
                    lemma_value_lowered(p, st, s, arg, limit);
                    let (s1, raw) = expect_value(s, p, arg, limit);
                    let (s2, value) = str_from_value(s1, raw, p.types[arg.0 as int]);
                    assert(context(s2) == context(s1));
                }
            }
        },
        NodeView::If(arms, else_block) => {
            lemma_if_lowered(p, st, s, t, arms, else_block, limit);
        },
        _ => {},
    }
}

/// An `if` is lowered.
proof fn lemma_if_lowered(
    p: Program,
    st: SemaState,
    s: Lowering,
    t: PinpType,
    arms: Seq<IfArmView>,
    else_block: Option<BlockView>,
    limit: int,
)
    requires
        p.ast.well_formed(),
        0 <= limit <= p.ast.nodes.len(),
        known(p.ast, st, context(s)),
        node_ok(NodeView::If(arms, else_block), p.ast.bounds_before(limit)),
        node_type(p.ast, st, NodeView::If(arms, else_block), limit).1 matches Ok(found) && found
            == t,
        node_typed(p.ast, p.types, st, NodeView::If(arms, else_block), limit),
    ensures
        ({
            let (after, r) = super::lowering::if_code(s, p, t, arms, else_block, limit);
            &&& context(after) == context(s)
            &&& r is Some <==> t != PinpType::Void
        }),
    decreases limit, 12int, p, 0int,
{
    broadcast use {group_context, group_shapes};

    let merge = super::builder::next_block(s);
    let s1 = block_appended(s, "if_merge"@);
    assert(context(s1) == context(s));
    lemma_endings(p.ast, p.types, st, arms, Seq::empty(), limit);
    let (st1, branches) = arms_checked(p.ast, st, arms, Seq::empty(), limit);
    let found = branches->Ok_0;
    lemma_arms_names(p.ast, st, arms, Seq::empty(), limit);
    lemma_arms_plain(p.ast, p.types, st, arms, Seq::empty(), limit);
    if let Some(block) = else_block {
        assert(block_typed(p.ast, p.types, st1, block, limit));
        lemma_block_plain(p.ast, p.types, st1, block, limit);
        if let Some(last) = ending(p.types, block) {
            lemma_branches(last, found, 0);
        }
    }
    if t != PinpType::Void {
        assert forall|k: int| 0 <= k < arms.len() implies (ending(
            p.types,
            (#[trigger] arms[k]).body,
        ) matches Some(b) && b != PinpType::Void) by {
            assert(found[k] == ending(p.types, arms[k].body));
        }
        assert forall|k: int| 0 <= k < found.len() implies (
        #[trigger] found[k] matches Some(b) ==> plain_or_void(b)) by {
            assert(found[k] == ending(p.types, arms[k].body));
        }
    }
    lemma_arms_lowered(p, st, s1, t, arms, Seq::empty(), merge, Seq::empty(), limit);
    let (s2, from_arms) = arms_code(s1, p, t, arms, merge, Seq::empty(), 0, limit);
    if let Some(block) = else_block {
        lemma_branch_lowered(p, st1, s2, t, block, from_arms, limit);
    }
}

/// The arms of an `if` are lowered.
proof fn lemma_arms_lowered(
    p: Program,
    st: SemaState,
    s: Lowering,
    t: PinpType,
    arms: Seq<IfArmView>,
    done: Seq<Option<PinpType>>,
    merge: usize,
    incomings: Seq<(Value, usize)>,
    limit: int,
)
    requires
        p.ast.well_formed(),
        0 <= limit <= p.ast.nodes.len(),
        known(p.ast, st, context(s)),
        forall|i: int|
            0 <= i < arms.len() ==> block_ok(
                (#[trigger] arms[i]).body,
                p.ast.bounds_before(limit),
            ),
        arms_typed(p.ast, p.types, st, arms, done, limit),
        t != PinpType::Void ==> forall|k: int|
            0 <= k < arms.len() ==> (ending(p.types, (#[trigger] arms[k]).body) matches Some(b) && b
                != PinpType::Void),
    ensures
        context(
            arms_code(s, p, t, arms, merge, incomings, done.len() as int, limit).0,
        ) == context(s),
    decreases limit, 11int, p, arms.len() - done.len(),
{
    broadcast use group_context;

    if done.len() < arms.len() {
        let arm = arms[done.len() as int];
        assert(expr_typed(p.ast, p.types, st, arm.cond, limit));
        lemma_value_lowered(p, st, s, arm.cond, limit);
        let st1 = condition(p.ast, st, arm.cond, limit).0;
        let (s1, cond) = expect_value(s, p, arm.cond, limit);
        let then_block = super::builder::next_block(s1);
        let s2 = block_appended(s1, "if_then"@);
        let next = super::builder::next_block(s2);
        let s3 = block_appended(s2, "if_next"@);
        let s4 = op(s3, Op::CondBranch(cond, then_block, next));
        let s5 = positioned(s4, then_block);
        assert(context(s2) == context(s1));
        assert(context(s3) == context(s2));
        assert(context(s4) == context(s3));
        assert(context(s5) == context(s4));
        assert(block_typed(p.ast, p.types, st1, arm.body, limit));
        lemma_branch_lowered(p, st1, s5, t, arm.body, incomings, limit);
        let (s6, more) = branch_code(s5, p, t, arm.body, incomings, limit);
        let s7 = op(s6, Op::Branch(merge));
        let s8 = positioned(s7, next);
        assert(context(s7) == context(s6));
        assert(context(s8) == context(s7));
        block_locals_do_not_escape(p.ast, st1, arm.body, limit);
        let st2 = block_type(p.ast, st1, arm.body, limit).0;
        lemma_arms_lowered(
            p,
            st2,
            s8,
            t,
            arms,
            done.push(ending(p.types, arm.body)),
            merge,
            more,
            limit,
        );
    }
}

/// A branch of an `if` is lowered.
proof fn lemma_branch_lowered(
    p: Program,
    st: SemaState,
    s: Lowering,
    t: PinpType,
    block: BlockView,
    incomings: Seq<(Value, usize)>,
    limit: int,
)
    requires
        p.ast.well_formed(),
        0 <= limit <= p.ast.nodes.len(),
        known(p.ast, st, context(s)),
        block_ok(block, p.ast.bounds_before(limit)),
        block_typed(p.ast, p.types, st, block, limit),
        t != PinpType::Void ==> (ending(p.types, block) matches Some(b) && b != PinpType::Void),
    ensures
        context(branch_code(s, p, t, block, incomings, limit).0) == context(s),
    decreases limit, 10int, block, block.stmts.len() + 4,
{
    broadcast use group_shapes;

    lemma_block_lowered(p, st, s, block, limit);
    lemma_effect_lowered(p, st, s, block, limit);
}

// ---------------------------------------------------------------------------
// Statements
// ---------------------------------------------------------------------------

/// A block is lowered, and leaves no name behind.
proof fn lemma_block_lowered(p: Program, st: SemaState, s: Lowering, block: BlockView, limit: int)
    requires
        p.ast.well_formed(),
        0 <= limit <= p.ast.nodes.len(),
        known(p.ast, st, context(s)),
        block_ok(block, p.ast.bounds_before(limit)),
        block_typed(p.ast, p.types, st, block, limit),
    ensures
        context(block_code(s, p, block, limit).0) == context(s),
        block_code(s, p, block, limit).1 is Some <==> (ending(p.types, block) matches Some(b) && b
            != PinpType::Void),
    decreases limit, 10int, block, block.stmts.len() + 2,
{
    broadcast use group_shapes;

    reveal(scope_pushed);
    reveal(scope_popped);
    let inner = opened(st, Map::empty());
    let s1 = scope_pushed(s);
    lemma_opened(p.ast, st, context(s), context(s1));
    lemma_stmts_lowered(p, inner, s1, block, 0, limit);
    let s2 = stmts_code(s1, p, block, limit);
    let st2 = stmts_checked(p.ast, inner, block, 0, limit).0;
    let (s3, value) = result_code(s2, p, block.result, limit);
    if let Some(result) = block.result {
        assert(expr_typed(p.ast, p.types, st2, result, limit));
        lemma_expr_lowered(p, st2, s2, result, limit);
        if p.types[result.0 as int] != PinpType::Void {
            lemma_value_lowered(p, st2, s2, result, limit);
        }
    }
    assert(context(s3) == context(s2));
    lemma_scope_strings_context(s3, p.ast.names.len() as int, 0);
    let s4 = free_scope_strings(s3, p);
    let s5 = scope_popped(s4);
    assert(s5.frames =~= s.frames) by {
        assert(s1.frames.drop_last() =~= s.frames);
    }
}

/// A frame that is opened holds no name yet.
proof fn lemma_opened(ast: AstView, st: SemaState, before: Context, after: Context)
    requires
        known(ast, st, before),
        after == (Context { frames: before.frames.push(Map::empty()), ..before }),
    ensures
        known(ast, opened(st, Map::empty()), after),
{
    let inner = opened(st, Map::empty());
    assert forall|k: int, sym: u32|
        inner.base <= k < inner.scopes.len() && #[trigger] inner.scopes[k].contains_key(
            sym,
        ) implies covered(after, k - inner.base, sym) by {
        assert(st.scopes[k].contains_key(sym));
        assert(covered(before, k - st.base, sym));
        if !before.global_slots.contains_key(sym) {
            let j = choose|j: int|
                0 <= j <= k - st.base && #[trigger] before.frames[j].contains_key(sym);
            assert(after.frames[j].contains_key(sym));
        }
    }
    assert forall|j: int, sym: u32|
        0 <= j < after.frames.len() && #[trigger] after.frames[j].contains_key(sym) implies plain(
        after.frames[j][sym].value_type,
    ) by {
        assert(before.frames[j].contains_key(sym));
    }
    assert(inner.scopes[0] == st.scopes[0]);
}

/// A block run for its effect is lowered.
proof fn lemma_effect_lowered(p: Program, st: SemaState, s: Lowering, block: BlockView, limit: int)
    requires
        p.ast.well_formed(),
        0 <= limit <= p.ast.nodes.len(),
        known(p.ast, st, context(s)),
        block_ok(block, p.ast.bounds_before(limit)),
        block_typed(p.ast, p.types, st, block, limit),
    ensures
        context(block_for_effect_code(s, p, block, limit)) == context(s),
    decreases limit, 10int, block, block.stmts.len() + 3,
{
    broadcast use group_shapes;

    lemma_block_lowered(p, st, s, block, limit);
}

/// The statements of a block are lowered: behind them the lowering knows the names that the type
/// checker does.
proof fn lemma_stmts_lowered(
    p: Program,
    st: SemaState,
    s: Lowering,
    block: BlockView,
    from: int,
    limit: int,
)
    requires
        p.ast.well_formed(),
        0 <= limit <= p.ast.nodes.len(),
        known(p.ast, st, context(s)),
        st.scopes.len() >= 2,
        block_ok(block, p.ast.bounds_before(limit)),
        stmts_typed(p.ast, p.types, st, block, from, limit),
    ensures
        ({
            let t = stmts_from(s, p, block, from, limit);
            &&& known(p.ast, stmts_checked(p.ast, st, block, from, limit).0, context(t))
            &&& kept(context(s), context(t))
        }),
    decreases limit, 10int, block, block.stmts.len() - from,
{
    if 0 <= from < block.stmts.len() {
        let stmt = block.stmts[from];
        assert(stmt_typed(p.ast, p.types, st, stmt, limit));
        lemma_stmt_lowered(p, st, s, stmt, limit);
        let (s1, yielded) = stmt_code(s, p, stmt, limit);
        lemma_discarded(p, s1, stmt, yielded);
        let s2 = discarded_str_freed(s1, p, stmt, yielded);
        statements_keep_bindings(p.ast, st, stmt, limit);
        let st1 = stmt_checked(p.ast, st, stmt, limit).0;
        lemma_stmts_lowered(p, st1, s2, block, from + 1, limit);
    }
}

/// A string that a statement yields can be released.
proof fn lemma_discarded(p: Program, s: Lowering, stmt: StmtView, yielded: Option<Value>)
    requires
        stmt matches StmtView::Expr(expr_id) ==> (yielded is Some <==> p.types[expr_id.0 as int]
            != PinpType::Void),
    ensures
        context(discarded_str_freed(s, p, stmt, yielded)) == context(s),
{
    broadcast use group_shapes;

}

/// The values of an assignment are lowered.
proof fn lemma_values_lowered(
    p: Program,
    st: SemaState,
    s: Lowering,
    values: Seq<ExprId>,
    found: Seq<PinpType>,
    done: Seq<Value>,
    limit: int,
)
    requires
        p.ast.well_formed(),
        0 <= limit <= p.ast.nodes.len(),
        known(p.ast, st, context(s)),
        found.len() == done.len(),
        done.len() <= values.len(),
        exprs_typed(p.ast, p.types, st, values, done.len() as int, limit),
        value_types(p.ast, st, values, found, limit).1 is Ok,
    ensures
        context(values_code(s, p, values, done, limit).0) == context(s),
        values_code(s, p, values, done, limit).1.len() == values.len(),
    decreases limit, 3int, p, values.len() - done.len(),
{
    if done.len() < values.len() {
        let value = values[done.len() as int];
        assert(expr_typed(p.ast, p.types, st, value, limit));
        lemma_value_lowered(p, st, s, value, limit);
        let st1 = expr_type(p.ast, st, value, limit).0;
        let t = p.types[value.0 as int];
        let (s1, yielded) = if t == PinpType::Str {
            owned_str_code(s, p, value, limit)
        } else {
            expect_value(s, p, value, limit)
        };
        lemma_values_lowered(
            p,
            st1,
            s1,
            values,
            found.push(t),
            done.push(yielded),
            limit,
        );
    }
}

/// A statement's targets are globals that have been declared.
pub open spec fn declared(stmt: StmtView, c: Context) -> bool {
    stmt matches StmtView::Assign(groups, _, _) ==> groups_are_declared(groups, c)
}

pub open spec fn groups_are_declared(groups: Seq<Seq<Place>>, c: Context) -> bool {
    forall|i: int, j: int|
        0 <= i < groups.len() && 0 <= j < groups[i].len() ==> c.global_slots.contains_key(
            symbol_of(#[trigger] groups[i][j]).0,
        )
}

/// A value is stored to a target: where the type checker binds a name, the lowering knows it.
proof fn lemma_store_lowered(
    ast: AstView,
    st: SemaState,
    s: Lowering,
    place: Place,
    value: Value,
    value_type: PinpType,
    first: bool,
)
    requires
        known(ast, st, context(s)),
        plain(value_type),
        place_assigned(ast, st, place, value_type).1 is Ok,
        st.scopes.len() >= 2 || s.global_slots.contains_key(symbol_of(place).0),
    ensures
        known(
            ast,
            place_assigned(ast, st, place, value_type).0,
            context(store_to_place(s, place, value, value_type, first)),
        ),
        kept(context(s), context(store_to_place(s, place, value, value_type, first))),
{
    broadcast use {group_context, group_shapes};

    reveal(local_slot);
    reveal(global_slot);
    reveal(inside_function);
    reveal(name_bound);
    let after = place_assigned(ast, st, place, value_type).0;
    let (s1, slot) = resolve_place(s, place, value_type);
    let c = context(s);
    let d = context(s1);
    let t = store_to_place(s, place, value, value_type, first);
    assert(context(t) == d);
    match place {
        Place::Global(sym_id) => {
            lemma_place_known(ast, st, s, place);
        },
        Place::Local(sym_id) => {
            let sym = sym_id.0;
            let top = c.frames.len() - 1;
            lemma_nearest(s.frames, s.frames.len() as int, sym);
            lemma_lookup(st.scopes, st.base, st.scopes.len() as int, sym);
            let fresh = local_slot(s, sym_id) is None && (s.in_function || global_slot(s, sym_id)
                is None);
            let (s5, made) = alloca_at_entry(s, value_type);
            if fresh {
                assert(context(s5) == c);
                assert(s1 == name_bound(s5, sym_id, Slot { place: made, value_type }));
                assert(d.frames == c.frames.update(
                    top,
                    c.frames[top].insert(sym, Slot { place: made, value_type }),
                ));
                assert(d.frames.drop_last() =~= c.frames.drop_last());
                assert(d.frames[top].contains_key(sym));
            } else {
                assert(d == c);
            }
            assert forall|k: int, other: u32|
                after.base <= k < after.scopes.len() && #[trigger] after.scopes[k].contains_key(
                    other,
                ) implies covered(d, k - after.base, other) by {
                if st.scopes[k].contains_key(other) {
                    assert(covered(c, k - st.base, other));
                    if !c.global_slots.contains_key(other) {
                        let j = choose|j: int|
                            0 <= j <= k - st.base && #[trigger] c.frames[j].contains_key(other);
                        assert(d.frames[j].contains_key(other));
                    }
                } else {
                    assert(other == sym && k == st.scopes.len() - 1);
                    if fresh {
                        assert(d.frames[top].contains_key(sym));
                    } else if local_slot(s, sym_id) is Some {
                        let j = choose|j: int|
                            0 <= j < s.frames.len() && #[trigger] s.frames[j].contains_key(sym)
                                && Some(s.frames[j][sym]) == local_slot(s, sym_id);
                        assert(d.frames[j].contains_key(sym));
                    }
                }
            }
            assert forall|j: int, other: u32|
                0 <= j < d.frames.len() && #[trigger] d.frames[j].contains_key(other) implies plain(
                d.frames[j][other].value_type,
            ) by {
                if c.frames[j].contains_key(other) {
                }
            }
            assert(plain_state(ast, after));
            assert(st.scopes.len() >= 2 ==> after.scopes[0] == st.scopes[0]);
        },
    }
}

proof fn lemma_group_lowered(
    p: Program,
    st: SemaState,
    s: Lowering,
    group: Seq<Place>,
    values: Seq<ExprId>,
    found: Seq<PinpType>,
    evaluated: Seq<Value>,
    first: bool,
    from: int,
)
    requires
        known(p.ast, st, context(s)),
        0 <= from,
        group.len() == values.len(),
        found.len() == values.len(),
        evaluated.len() == values.len(),
        forall|i: int|
            0 <= i < values.len() ==> #[trigger] found[i] == p.types[values[i].0 as int] && plain(
                found[i],
            ),
        group_assigned(p.ast, st, group, found, from).1 is Ok,
        st.scopes.len() >= 2 || forall|j: int|
            0 <= j < group.len() ==> s.global_slots.contains_key(symbol_of(#[trigger] group[j]).0),
    ensures
        ({
            let t = group_stored(s, p, group, values, evaluated, first, from);
            &&& known(p.ast, group_assigned(p.ast, st, group, found, from).0, context(t))
            &&& kept(context(s), context(t))
        }),
        group_assigned(p.ast, st, group, found, from).0.scopes.len() == st.scopes.len(),
    decreases group.len() - from,
{
    if from < group.len() {
        assert(plain(found[from]));
        assert(symbol_of(group[from]) == symbol_of(group[from]));
        lemma_store_lowered(
            p.ast,
            st,
            s,
            group[from],
            evaluated[from],
            found[from],
            first,
        );
        let s1 = store_to_place(s, group[from], evaluated[from], found[from], first);
        let st1 = place_assigned(p.ast, st, group[from], found[from]).0;
        lemma_group_lowered(p, st1, s1, group, values, found, evaluated, first, from + 1);
    }
}

proof fn lemma_groups_lowered(
    p: Program,
    st: SemaState,
    s: Lowering,
    groups: Seq<Seq<Place>>,
    values: Seq<ExprId>,
    found: Seq<PinpType>,
    evaluated: Seq<Value>,
    from: int,
)
    requires
        known(p.ast, st, context(s)),
        0 <= from,
        forall|i: int| 0 <= i < groups.len() ==> (#[trigger] groups[i]).len() == values.len(),
        found.len() == values.len(),
        evaluated.len() == values.len(),
        forall|i: int|
            0 <= i < values.len() ==> #[trigger] found[i] == p.types[values[i].0 as int] && plain(
                found[i],
            ),
        groups_assigned(p.ast, st, groups, found, from).1 is Ok,
        st.scopes.len() >= 2 || groups_are_declared(groups, context(s)),
    ensures
        ({
            let t = groups_stored(s, p, groups, values, evaluated, from);
            &&& known(p.ast, groups_assigned(p.ast, st, groups, found, from).0, context(t))
            &&& kept(context(s), context(t))
        }),
    decreases groups.len() - from,
{
    if from < groups.len() {
        let group = groups[from];
        if st.scopes.len() < 2 {
            assert forall|j: int| 0 <= j < group.len() implies s.global_slots.contains_key(
                symbol_of(#[trigger] group[j]).0,
            ) by {
                assert(groups[from][j] == group[j]);
            }
        }
        lemma_group_lowered(p, st, s, group, values, found, evaluated, from == 0, 0);
        let s1 = group_stored(s, p, group, values, evaluated, from == 0, 0);
        let st1 = group_assigned(p.ast, st, group, found, 0).0;
        lemma_groups_lowered(p, st1, s1, groups, values, found, evaluated, from + 1);
    }
}

/// A statement is lowered: behind it the lowering knows the names that the type checker does.
proof fn lemma_stmt_lowered(p: Program, st: SemaState, s: Lowering, stmt: StmtView, limit: int)
    requires
        p.ast.well_formed(),
        0 <= limit <= p.ast.nodes.len(),
        known(p.ast, st, context(s)),
        st.scopes.len() >= 2 || declared(stmt, context(s)),
        stmt_ok(stmt, p.ast.bounds_before(limit)),
        stmt_typed(p.ast, p.types, st, stmt, limit),
    ensures
        ({
            let (t, yielded) = stmt_code(s, p, stmt, limit);
            &&& known(p.ast, stmt_checked(p.ast, st, stmt, limit).0, context(t))
            &&& kept(context(s), context(t))
            &&& stmt matches StmtView::Expr(expr_id) ==> (yielded is Some <==> p.types[expr_id.0 as int]
                != PinpType::Void)
            &&& stmt is Assign ==> yielded is Some
        }),
    decreases limit, 10int, stmt, 0int,
{
    broadcast use group_context;

    match stmt {
        StmtView::Expr(expr_id) => {
            lemma_expr_lowered(p, st, s, expr_id, limit);
            lemma_expr_names(p.ast, st, expr_id, limit);
        },
        StmtView::Assign(groups, _, values) => {
            lemma_values_plain(p.ast, p.types, st, values, Seq::empty(), limit);
            lemma_values_lowered(p, st, s, values, Seq::empty(), Seq::empty(), limit);
            let (st1, r) = value_types(p.ast, st, values, Seq::empty(), limit);
            let (s1, evaluated) = values_code(s, p, values, Seq::empty(), limit);
            lemma_groups_lowered(p, st1, s1, groups, values, r->Ok_0, evaluated, 0);
        },
        StmtView::While(cond, body) => {
            let header = super::builder::next_block(s);
            let s1 = block_appended(s, "while_header"@);
            let body_block = super::builder::next_block(s1);
            let s2 = block_appended(s1, "while_body"@);
            let exit = super::builder::next_block(s2);
            let s3 = block_appended(s2, "while_exit"@);
            let s4 = op(s3, Op::Branch(header));
            let s5 = positioned(s4, header);
            assert(context(s1) == context(s));
            assert(context(s2) == context(s1));
            assert(context(s3) == context(s2));
            assert(context(s4) == context(s3));
            assert(context(s5) == context(s4));
            assert(expr_typed(p.ast, p.types, st, cond, limit));
            lemma_value_lowered(p, st, s5, cond, limit);
            let st1 = condition(p.ast, st, cond, limit).0;
            let (s6, holds) = expect_value(s5, p, cond, limit);
            let s7 = op(s6, Op::CondBranch(holds, body_block, exit));
            let s8 = positioned(s7, body_block);
            assert(context(s7) == context(s6));
            assert(context(s8) == context(s7));
            assert(block_typed(p.ast, p.types, st1, body, limit));
            lemma_effect_lowered(p, st1, s8, body, limit);
            block_locals_do_not_escape(p.ast, st1, body, limit);
            let s9 = block_for_effect_code(s8, p, body, limit);
            let s10 = op(s9, Op::Branch(header));
            let s11 = positioned(s10, exit);
            assert(context(s10) == context(s9));
            assert(context(s11) == context(s10));
        },
        StmtView::Loop(body, cond, until) => {
            let body_block = super::builder::next_block(s);
            let s1 = block_appended(s, "loop_body"@);
            let exit = super::builder::next_block(s1);
            let s2 = block_appended(s1, "loop_exit"@);
            let s3 = op(s2, Op::Branch(body_block));
            let s4 = positioned(s3, body_block);
            assert(context(s1) == context(s));
            assert(context(s2) == context(s1));
            assert(context(s3) == context(s2));
            assert(context(s4) == context(s3));
            assert(block_typed(p.ast, p.types, st, body, limit));
            lemma_effect_lowered(p, st, s4, body, limit);
            block_locals_do_not_escape(p.ast, st, body, limit);
            let st1 = block_type(p.ast, st, body, limit).0;
            let s5 = block_for_effect_code(s4, p, body, limit);
            assert(expr_typed(p.ast, p.types, st1, cond, limit));
            lemma_value_lowered(p, st1, s5, cond, limit);
            let (s6, holds) = expect_value(s5, p, cond, limit);
            let s7 = if until {
                op(s6, Op::CondBranch(holds, exit, body_block))
            } else {
                op(s6, Op::CondBranch(holds, body_block, exit))
            };
            let s8 = positioned(s7, exit);
            assert(context(s7) == context(s6));
            assert(context(s8) == context(s7));
        },
        _ => {},
    }
}

// ---------------------------------------------------------------------------
// Programs
// ---------------------------------------------------------------------------

/// Whether the values of a statement are of types that are rendered and stored.
pub open spec fn plain_values(types: Seq<PinpType>, stmt: StmtView) -> bool {
    match stmt {
        StmtView::Expr(expr_id) => plain_or_void(types[expr_id.0 as int]),
        StmtView::Assign(_, _, values) => forall|i: int|
            0 <= i < values.len() ==> plain(types[(#[trigger] values[i]).0 as int]),
        _ => true,
    }
}

/// What the type checker accepts takes no parameters without a value.
proof fn lemma_params_plain(ast: AstView, st: SemaState, func: FuncDefView)
    requires
        ordinary_function(ast, func),
        func_checked(ast, st, func).1 is Ok,
    ensures
        forall|i: int| 0 <= i < func.params.len() ==> plain((#[trigger] func.params[i]).param_type),
{
    reveal(func_checked);
    lemma_first_void(func.params, 0);
}

proof fn lemma_function_plain(ast: AstView, st: SemaState, func: FuncDefView)
    requires
        ast.well_formed(),
        plain_state(ast, st),
        func_ok(func, ast.bounds()),
        ordinary_function(ast, func),
        func_checked(ast, st, func).1 is Ok,
    ensures
        plain_state(ast, func_checked(ast, st, func).0),
        func_checked(ast, st, func).0.scopes == st.scopes,
        func_checked(ast, st, func).0.base == st.base,
        func_checked(ast, st, func).0.funcs == st.funcs.insert(func.name.0, signature_of(func)),
{
    definitions_add_their_own_function(ast, st, func);
    lemma_params_plain(ast, st, func);
    let after = func_checked(ast, st, func).0;
    assert forall|f: u32| #[trigger] after.funcs.contains_key(f) implies {
        &&& plain_or_void(after.funcs[f].return_type)
        &&& forall|i: int|
            0 <= i < after.funcs[f].params.len() ==> plain(#[trigger] after.funcs[f].params[i])
        &&& !built_in(ast.names[f as int])
    } by {
        if f != func.name.0 {
            assert(st.funcs.contains_key(f));
        } else {
            let params = signature_of(func).params;
            assert forall|i: int| 0 <= i < params.len() implies plain(#[trigger] params[i]) by {
                assert(plain(func.params[i].param_type));
            }
        }
    }
}

proof fn lemma_items_plain(ast: AstView, types: Seq<PinpType>, st: SemaState, from: int)
    requires
        ast.well_formed(),
        ordinary(ast),
        0 <= from,
        plain_state(ast, st),
        items_typed(ast, types, st, from),
    ensures
        forall|k: int|
            from <= k < ast.top_level.len() ==> (#[trigger] ast.top_level[k] matches TopLevelView::Stmt(
                stmt,
            ) ==> plain_values(types, stmt)),
    decreases ast.top_level.len() - from,
{
    if from < ast.top_level.len() {
        let limit = ast.nodes.len() as int;
        assert(ast.bounds_before(limit) == ast.bounds());
        assert(top_level_ok(ast.top_level[from], ast.bounds()));
        match ast.top_level[from] {
            TopLevelView::Stmt(stmt) => {
                assert(stmt_typed(ast, types, st, stmt, limit));
                lemma_stmt_plain(ast, types, st, stmt, limit);
                if let StmtView::Expr(expr_id) = stmt {
                    lemma_expr_plain(ast, types, st, expr_id, limit);
                }
                lemma_items_plain(ast, types, stmt_checked(ast, st, stmt, limit).0, from + 1);
            },
            TopLevelView::Func(func) => {
                lemma_function_plain(ast, st, func);
                lemma_items_plain(ast, types, func_checked(ast, st, func).0, from + 1);
            },
        }
    }
}

/// The type of an accepted program's value is rendered and stored, or `Void`.
proof fn lemma_program_plain(p: Program)
    requires
        p.ast.well_formed(),
        forall|k: int|
            0 <= k < p.ast.top_level.len() ==> (
            #[trigger] p.ast.top_level[k] matches TopLevelView::Stmt(stmt) ==> plain_values(
                p.types,
                stmt,
            )),
    ensures
        plain_or_void(program_type(p)),
{
    let count = p.ast.top_level.len() as int;
    if count > 0 {
        assert(top_level_ok(p.ast.top_level[count - 1], p.ast.bounds()));
        if let TopLevelView::Stmt(StmtView::Assign(_, _, values)) = p.ast.top_level[count - 1] {
            assert(values.last() == values[values.len() - 1]);
        }
    }
}

/// Globals are added and nothing else changes.
pub open spec fn more_globals(before: Context, after: Context) -> bool {
    &&& after == (Context { global_slots: after.global_slots, ..before })
    &&& forall|sym: u32| #[trigger]
        before.global_slots.contains_key(sym) ==> after.global_slots.contains_key(sym)
    &&& forall|sym: u32| #[trigger]
        after.global_slots.contains_key(sym) ==> plain(after.global_slots[sym].value_type)
}

proof fn lemma_group_declared(
    s: Lowering,
    p: Program,
    group: Seq<Place>,
    values: Seq<ExprId>,
    from: int,
)
    requires
        more_globals(context(s), context(s)),
        0 <= from,
        group.len() == values.len(),
        forall|i: int|
            0 <= i < values.len() ==> plain(p.types[(#[trigger] values[i]).0 as int]),
    ensures
        more_globals(context(s), context(group_declared(s, p, group, values, from))),
        forall|j: int|
            from <= j < group.len() ==> context(
                group_declared(s, p, group, values, from),
            ).global_slots.contains_key(symbol_of(#[trigger] group[j]).0),
    decreases group.len() - from,
{
    reveal(global_slot);
    reveal(global_added);
    if from < group.len() {
        let sym_id = symbol_of(group[from]);
        let value_type = p.types[values[from].0 as int];
        assert(plain(value_type));
        let s1 = match global_slot(s, sym_id) {
            Some(_) => s,
            None => global_added(storable(s, value_type).0, sym_id, value_type),
        };
        assert(more_globals(context(s), context(s1)));
        lemma_group_declared(s1, p, group, values, from + 1);
        assert(context(s1).global_slots.contains_key(sym_id.0));
    }
}

proof fn lemma_groups_declared(
    s: Lowering,
    p: Program,
    groups: Seq<Seq<Place>>,
    values: Seq<ExprId>,
    from: int,
)
    requires
        more_globals(context(s), context(s)),
        0 <= from,
        forall|i: int| 0 <= i < groups.len() ==> (#[trigger] groups[i]).len() == values.len(),
        forall|i: int|
            0 <= i < values.len() ==> plain(p.types[(#[trigger] values[i]).0 as int]),
    ensures
        more_globals(context(s), context(groups_declared(s, p, groups, values, from))),
        forall|i: int, j: int|
            from <= i < groups.len() && 0 <= j < groups[i].len() ==> context(
                groups_declared(s, p, groups, values, from),
            ).global_slots.contains_key(symbol_of(#[trigger] groups[i][j]).0),
    decreases groups.len() - from,
{
    if from < groups.len() {
        lemma_group_declared(s, p, groups[from], values, 0);
        let s1 = group_declared(s, p, groups[from], values, 0);
        lemma_groups_declared(s1, p, groups, values, from + 1);
        let t = groups_declared(s, p, groups, values, from);
        assert forall|i: int, j: int|
            from <= i < groups.len() && 0 <= j < groups[i].len() implies context(
            t,
        ).global_slots.contains_key(symbol_of(#[trigger] groups[i][j]).0) by {
            if i == from {
                assert(context(s1).global_slots.contains_key(symbol_of(groups[from][j]).0));
            }
        }
    }
}

/// Every name assigned at the top level is a global.
pub open spec fn all_declared(ast: AstView, c: Context) -> bool {
    forall|k: int|
        0 <= k < ast.top_level.len() ==> (#[trigger] ast.top_level[k] matches TopLevelView::Stmt(
            stmt,
        ) ==> declared(stmt, c))
}

proof fn lemma_globals_declared(s: Lowering, p: Program, from: int)
    requires
        p.ast.well_formed(),
        more_globals(context(s), context(s)),
        0 <= from,
        forall|k: int|
            0 <= k < p.ast.top_level.len() ==> (
            #[trigger] p.ast.top_level[k] matches TopLevelView::Stmt(stmt) ==> plain_values(
                p.types,
                stmt,
            )),
    ensures
        more_globals(context(s), context(globals_declared(s, p, from))),
        forall|k: int|
            from <= k < p.ast.top_level.len() ==> (
            #[trigger] p.ast.top_level[k] matches TopLevelView::Stmt(stmt) ==> declared(
                stmt,
                context(globals_declared(s, p, from)),
            )),
    decreases p.ast.top_level.len() - from,
{
    if from < p.ast.top_level.len() {
        let item = p.ast.top_level[from];
        assert(top_level_ok(item, p.ast.bounds()));
        let s1 = match item {
            TopLevelView::Stmt(StmtView::Assign(groups, _, values)) => {
                lemma_groups_declared(s, p, groups, values, 0);
                groups_declared(s, p, groups, values, 0)
            },
            _ => s,
        };
        lemma_globals_declared(s1, p, from + 1);
        let t = globals_declared(s, p, from);
        assert(t == globals_declared(s1, p, from + 1));
        if let TopLevelView::Stmt(StmtView::Assign(groups, spans, values)) = item {
            assert(groups_are_declared(groups, context(s1)));
            assert(groups_are_declared(groups, context(t)));
        }
    }
}

/// A function can be called by its name, with its signature.
pub open spec fn function_known(c: Context, func: FuncDefView) -> bool {
    &&& c.callables.contains_key(func.name.0)
    &&& c.callables[func.name.0] < c.functions.len()
    &&& c.functions[c.callables[func.name.0] as int].params == param_types(func.params)
    &&& c.functions[c.callables[func.name.0] as int].result == func.return_type
}

pub open spec fn functions_known(ast: AstView, c: Context) -> bool {
    forall|k: int|
        0 <= k < ast.top_level.len() ==> (#[trigger] ast.top_level[k] matches TopLevelView::Func(
            func,
        ) ==> function_known(c, func))
}

/// Whether a function of this name is defined from the item at `from` on.
pub open spec fn named_from(ast: AstView, from: int, name: u32) -> bool {
    exists|k: int|
        from <= k < ast.top_level.len() && (#[trigger] ast.top_level[k] matches TopLevelView::Func(
            func,
        ) && func.name.0 == name)
}

proof fn lemma_functions_declared(s: Lowering, p: Program, from: int)
    requires
        ordinary(p.ast),
        p.ast.top_level.len() <= usize::MAX,
        0 <= from <= p.ast.top_level.len(),
        s.functions.len() <= from,
    ensures
        ({
            let t = functions_declared(s, p, from);
            &&& context(t) == (Context {
                callables: t.callables,
                functions: t.functions,
                ..context(s)
            })
            &&& s.functions.len() <= t.functions.len()
            &&& forall|i: int|
                0 <= i < s.functions.len() ==> #[trigger] t.functions[i] == s.functions[i]
            &&& forall|name: u32| #[trigger]
                s.callables.contains_key(name) && !named_from(p.ast, from, name)
                    ==> t.callables.contains_key(name) && t.callables[name] == s.callables[name]
            &&& forall|k: int|
                from <= k < p.ast.top_level.len() ==> (
                #[trigger] p.ast.top_level[k] matches TopLevelView::Func(func) ==> function_known(
                    context(t),
                    func,
                ))
        }),
    decreases p.ast.top_level.len() - from,
{
    reveal(function_added);
    if from < p.ast.top_level.len() {
        let item = p.ast.top_level[from];
        let s1 = match item {
            TopLevelView::Func(func) => function_added(
                s,
                FunctionName::Named(func.name),
                param_types(func.params),
                func.return_type,
            ),
            TopLevelView::Stmt(_) => s,
        };
        lemma_functions_declared(s1, p, from + 1);
        let t = functions_declared(s, p, from);
        assert(t == functions_declared(s1, p, from + 1));
        assert forall|name: u32| #[trigger]
            s.callables.contains_key(name) && !named_from(p.ast, from, name) implies t.callables.contains_key(
        name) && t.callables[name] == s.callables[name] by {
            assert(!named_from(p.ast, from + 1, name));
            if let TopLevelView::Func(func) = item {
                assert(p.ast.top_level[from] matches TopLevelView::Func(f) && f.name
                    == func.name);
                assert(func.name.0 != name);
            }
            assert(s1.callables.contains_key(name));
        }
        if let TopLevelView::Func(func) = item {
            assert(!named_from(p.ast, from + 1, func.name.0)) by {
                if named_from(p.ast, from + 1, func.name.0) {
                    let k = choose|k: int|
                        from + 1 <= k < p.ast.top_level.len() && (
                        #[trigger] p.ast.top_level[k] matches TopLevelView::Func(g) && g.name.0
                            == func.name.0);
                    let g = p.ast.top_level[k]->Func_0;
                    assert(g.name == func.name);
                    assert(p.ast.top_level[from] == item);
                }
            }
            assert(s1.callables.contains_key(func.name.0));
            assert(s1.callables[func.name.0] == s.functions.len());
            assert(t.functions[s.functions.len() as int] == s1.functions[s.functions.len() as int]);
            assert(function_known(context(t), func));
        }
    }
}

/// The signatures of functions are as they were.
pub open spec fn same_signatures(before: Seq<IrFunctionView>, after: Seq<IrFunctionView>) -> bool {
    &&& after.len() == before.len()
    &&& forall|i: int|
        0 <= i < before.len() ==> (#[trigger] after[i]).params == before[i].params
            && after[i].result == before[i].result
}

/// What lowering a function leaves of a context.
pub open spec fn outer_kept(before: Context, after: Context) -> bool {
    &&& after.failure is None
    &&& after.global_slots == before.global_slots
    &&& after.callables == before.callables
    &&& same_signatures(before.functions, after.functions)
}

/// The parameters of a function are names of its frame.
proof fn lemma_params_lowered(s: Lowering, params: Seq<Param>, from: int)
    requires
        s.frames.len() == 1,
        0 <= from <= params.len(),
        forall|i: int| 0 <= i < params.len() ==> plain((#[trigger] params[i]).param_type),
        forall|sym: u32| #[trigger]
            s.frames[0].contains_key(sym) ==> plain(s.frames[0][sym].value_type),
    ensures
        ({
            let t = params_code(s, params, from);
            &&& context(t) == (Context { frames: t.frames, ..context(s) })
            &&& t.frames.len() == 1
            &&& forall|sym: u32| #[trigger]
                s.frames[0].contains_key(sym) ==> t.frames[0].contains_key(sym)
            &&& forall|i: int|
                from <= i < params.len() ==> t.frames[0].contains_key((#[trigger] params[i]).name.0)
            &&& forall|sym: u32| #[trigger]
                t.frames[0].contains_key(sym) ==> plain(t.frames[0][sym].value_type)
        }),
    decreases params.len() - from,
{
    broadcast use group_context;

    reveal(name_bound);
    if from < params.len() {
        let param = params[from];
        assert(plain(param.param_type));
        let (s1, ir_type) = storable(s, param.param_type);
        let slot = super::builder::next_value(s1);
        let s2 = op(s1, Op::Alloca(ir_type));
        let s3 = op(s2, Op::Store(slot, Value::Param(from as usize)));
        assert(context(s2) == context(s1));
        assert(context(s3) == context(s2));
        assert(s3.frames == s.frames);
        let s4 = name_bound(s3, param.name, Slot { place: slot, value_type: param.param_type });
        assert(s4.frames[0] == s.frames[0].insert(
            param.name.0,
            Slot { place: slot, value_type: param.param_type },
        ));
        assert(s4.frames[0].contains_key(param.name.0));
        assert forall|sym: u32| #[trigger] s4.frames[0].contains_key(sym) implies plain(
            s4.frames[0][sym].value_type,
        ) by {
            if sym != param.name.0 {
                assert(s.frames[0].contains_key(sym));
            }
        }
        lemma_params_lowered(s4, params, from + 1);
        let t = params_code(s, params, from);
        assert(t == params_code(s4, params, from + 1));
        assert forall|sym: u32| #[trigger] s.frames[0].contains_key(
            sym,
        ) implies t.frames[0].contains_key(sym) by {
            assert(s4.frames[0].contains_key(sym));
        }
        assert(context(s4) == (Context { frames: s4.frames, ..context(s) }));
    }
}

proof fn lemma_params_frame_names(params: Seq<Param>, count: int)
    requires
        0 <= count <= params.len(),
        forall|i: int| 0 <= i < params.len() ==> plain((#[trigger] params[i]).param_type),
    ensures
        forall|sym: u32| #[trigger]
            params_frame(params, count).contains_key(sym) ==> {
                &&& exists|i: int| 0 <= i < count && (#[trigger] params[i]).name.0 == sym
                &&& plain(params_frame(params, count)[sym])
            },
    decreases count,
{
    if count > 0 {
        lemma_params_frame_names(params, count - 1);
        assert(plain(params[count - 1].param_type));
        assert forall|sym: u32| #[trigger] params_frame(params, count).contains_key(sym) implies {
            &&& exists|i: int| 0 <= i < count && (#[trigger] params[i]).name.0 == sym
            &&& plain(params_frame(params, count)[sym])
        } by {
            if sym == params[count - 1].name.0 {
                assert(params[count - 1].name.0 == sym);
            } else {
                assert(params_frame(params, count - 1).contains_key(sym));
            }
        }
    }
}

/// A function is lowered.
proof fn lemma_function_lowered(p: Program, st: SemaState, s: Lowering, func: FuncDefView)
    requires
        p.ast.well_formed(),
        globals_known(p.ast, st, context(s)),
        st.scopes.len() == 1,
        st.base == 0,
        func_ok(func, p.ast.bounds()),
        ordinary_function(p.ast, func),
        function_known(context(s), func),
        func_typed(p.ast, p.types, st, func),
    ensures
        outer_kept(context(s), context(function_code(s, p, func))),
{
    broadcast use {group_context, group_shapes};

    reveal(callable);
    reveal(body_begun);
    let limit = p.ast.nodes.len() as int;
    let function = s.callables[func.name.0];
    let s0 = body_begun(s, function, true);
    assert(same_signatures(s.functions, s0.functions));
    lemma_params_plain(p.ast, st, func);
    lemma_params_lowered(s0, func.params, 0);
    let s1 = params_code(s0, func.params, 0);
    lemma_params_frame_names(func.params, func.params.len() as int);
    let frame = params_frame(func.params, func.params.len() as int);
    let inner = inside(st, func);
    assert(inner.scopes[0] == st.scopes[0]);
    assert(inner.scopes[1] == frame);
    assert(plain_state(p.ast, inner));
    assert forall|f: u32| #[trigger] inner.funcs.contains_key(f) implies {
        &&& s1.callables.contains_key(f)
        &&& s1.callables[f] < s1.functions.len()
        &&& s1.functions[s1.callables[f] as int].params == inner.funcs[f].params
        &&& s1.functions[s1.callables[f] as int].result == inner.funcs[f].return_type
    } by {
        assert(st.funcs.contains_key(f));
    }
    assert forall|k: int, sym: u32|
        inner.base <= k < inner.scopes.len() && #[trigger] inner.scopes[k].contains_key(
            sym,
        ) implies covered(context(s1), k - inner.base, sym) by {
        assert(k == 1);
        assert(frame.contains_key(sym));
        let i = choose|i: int|
            0 <= i < func.params.len() && (#[trigger] func.params[i]).name.0 == sym;
        assert(s1.frames[0].contains_key(func.params[i].name.0));
        assert(context(s1).frames[0].contains_key(sym));
    }
    assert(known(p.ast, inner, context(s1)));
    assert(p.ast.bounds_before(limit) == p.ast.bounds());
    lemma_stmts_lowered(p, inner, s1, func.body, 0, limit);
    let s2 = stmts_code(s1, p, func.body, limit);
    let st2 = stmts_checked(p.ast, inner, func.body, 0, limit).0;
    let result = func.body.result->0;
    assert(expr_typed(p.ast, p.types, st2, result, limit));
    let t = p.types[result.0 as int];
    assert(assignable_to(t, func.return_type)) by {
        reveal(func_checked);
    }
    lemma_expr_lowered(p, st2, s2, result, limit);
    if func.return_type == PinpType::Void {
        let (s3, yielded) = expr_code(s2, p, result, limit);
        lemma_discarded(p, s3, StmtView::Expr(result), yielded);
        let s4 = discarded_str_freed(s3, p, StmtView::Expr(result), yielded);
        lemma_scope_strings_context(s4, p.ast.names.len() as int, 0);
    } else {
        lemma_value_lowered(p, st2, s2, result, limit);
        let (s3, raw) = if func.return_type == PinpType::Str {
            owned_str_code(s2, p, result, limit)
        } else {
            expect_value(s2, p, result, limit)
        };
        let (s4, value) = promote(s3, raw, t, func.return_type);
        assert(context(s4) == context(s3));
        lemma_scope_strings_context(s4, p.ast.names.len() as int, 0);
    }
}

/// At the top level every name is a global.
proof fn lemma_top_level_known(ast: AstView, st: SemaState, c: Context)
    requires
        globals_known(ast, st, c),
        st.scopes.len() == 1,
        st.base == 0,
        c.frames == seq![Map::<u32, Slot>::empty()],
    ensures
        known(ast, st, c),
{
}

/// The functions of a program are lowered.
proof fn lemma_functions_lowered(p: Program, st: SemaState, s: Lowering, from: int)
    requires
        p.ast.well_formed(),
        ordinary(p.ast),
        0 <= from,
        globals_known(p.ast, st, context(s)),
        st.scopes.len() == 1,
        st.base == 0,
        functions_known(p.ast, context(s)),
        all_declared(p.ast, context(s)),
        items_typed(p.ast, p.types, st, from),
    ensures
        outer_kept(context(s), context(functions_code(s, p, from))),
    decreases p.ast.top_level.len() - from,
{
    if from < p.ast.top_level.len() {
        let limit = p.ast.nodes.len() as int;
        let item = p.ast.top_level[from];
        assert(p.ast.bounds_before(limit) == p.ast.bounds());
        assert(top_level_ok(item, p.ast.bounds()));
        match item {
            TopLevelView::Stmt(stmt) => {
                let at_top = Lowering { frames: seq![Map::empty()], ..s };
                lemma_top_level_known(p.ast, st, context(at_top));
                assert(declared(stmt, context(at_top)));
                lemma_stmt_lowered(p, st, at_top, stmt, limit);
                statements_keep_bindings(p.ast, st, stmt, limit);
                lemma_functions_lowered(p, stmt_checked(p.ast, st, stmt, limit).0, s, from + 1);
            },
            TopLevelView::Func(func) => {
                lemma_function_lowered(p, st, s, func);
                lemma_function_plain(p.ast, st, func);
                let s1 = function_code(s, p, func);
                let st1 = func_checked(p.ast, st, func).0;
                lemma_callable(p.ast, st, context(s1), func);
                lemma_still_known(p.ast, context(s), context(s1));
                lemma_functions_lowered(p, st1, s1, from + 1);
            },
        }
    }
}

/// A function that has been defined is one that can be called.
proof fn lemma_callable(ast: AstView, st: SemaState, c: Context, func: FuncDefView)
    requires
        globals_known(ast, st, c),
        function_known(c, func),
        plain_state(ast, func_checked(ast, st, func).0),
        func_checked(ast, st, func).0.scopes == st.scopes,
        func_checked(ast, st, func).0.funcs == st.funcs.insert(func.name.0, signature_of(func)),
    ensures
        globals_known(ast, func_checked(ast, st, func).0, c),
{
    let after = func_checked(ast, st, func).0;
    assert(param_types(func.params) =~= signature_of(func).params);
    assert forall|f: u32| #[trigger] after.funcs.contains_key(f) implies {
        &&& c.callables.contains_key(f)
        &&& c.callables[f] < c.functions.len()
        &&& c.functions[c.callables[f] as int].params == after.funcs[f].params
        &&& c.functions[c.callables[f] as int].result == after.funcs[f].return_type
    } by {
        if f != func.name.0 {
            assert(st.funcs.contains_key(f));
        }
    }
}

proof fn lemma_still_known(ast: AstView, before: Context, after: Context)
    requires
        functions_known(ast, before),
        all_declared(ast, before),
        outer_kept(before, after),
    ensures
        functions_known(ast, after),
        all_declared(ast, after),
{
    assert forall|k: int| 0 <= k < ast.top_level.len() implies (
    #[trigger] ast.top_level[k] matches TopLevelView::Stmt(stmt) ==> declared(stmt, after)) by {
        if let TopLevelView::Stmt(stmt) = ast.top_level[k] {
            assert(declared(stmt, before));
        }
    }
}

/// The top-level statements of a program are lowered, and the last of them yields the program's
/// value.
proof fn lemma_items_lowered(p: Program, st: SemaState, s: Lowering, from: int)
    requires
        p.ast.well_formed(),
        ordinary(p.ast),
        0 <= from,
        known(p.ast, st, context(s)),
        st.scopes.len() == 1,
        st.base == 0,
        functions_known(p.ast, context(s)),
        all_declared(p.ast, context(s)),
        items_typed(p.ast, p.types, st, from),
    ensures
        items_code(s, p, from).0.failure is None,
        from < p.ast.top_level.len() && program_type(p) != PinpType::Void ==> items_code(
            s,
            p,
            from,
        ).1 is Some,
    decreases p.ast.top_level.len() - from,
{
    if from < p.ast.top_level.len() {
        let limit = p.ast.nodes.len() as int;
        let item = p.ast.top_level[from];
        assert(p.ast.bounds_before(limit) == p.ast.bounds());
        assert(top_level_ok(item, p.ast.bounds()));
        match item {
            TopLevelView::Stmt(stmt) => {
                assert(declared(stmt, context(s)));
                lemma_stmt_lowered(p, st, s, stmt, limit);
                statements_keep_bindings(p.ast, st, stmt, limit);
                let (s1, yielded) = stmt_code(s, p, stmt, limit);
                let st1 = stmt_checked(p.ast, st, stmt, limit).0;
                if from < p.ast.top_level.len() - 1 {
                    lemma_discarded(p, s1, stmt, yielded);
                    let s2 = discarded_str_freed(s1, p, stmt, yielded);
                    assert(outer_kept(context(s), context(s2)));
                    lemma_still_known(p.ast, context(s), context(s2));
                    lemma_items_lowered(p, st1, s2, from + 1);
                }
            },
            TopLevelView::Func(func) => {
                lemma_function_plain(p.ast, st, func);
                lemma_callable(p.ast, st, context(s), func);
                lemma_items_lowered(p, func_checked(p.ast, st, func).0, s, from + 1);
            },
        }
    }
}

/// What the type checker accepts can be lowered. The program is a tree, and its functions are
/// ordinary: the name of a built-in function does not resolve to one of the program, a second
/// definition takes the place of the first, and what a function is declared to take may not be
/// renderable.
pub proof fn checked_programs_are_lowered(ast: AstView, types: Seq<PinpType>)
    requires
        ast.well_formed(),
        types.len() == ast.nodes.len(),
        ast.top_level.len() <= usize::MAX,
        unshared(ast),
        ordinary(ast),
        analyzed(ast, types).1 is Ok,
    ensures
        lowered(Program { ast, types: analyzed(ast, types).0.types }).failure is None,
{
    broadcast use {group_context, group_shapes};

    let p = Program { ast, types: analyzed(ast, types).0.types };
    let st = SemaState { scopes: seq![Map::empty()], base: 0, funcs: Map::empty(), types };
    recorded_types_are_the_types_found(ast, types);
    assert(plain_state(ast, st));
    lemma_items_plain(ast, p.types, st, 0);
    lemma_program_plain(p);
    let s0 = nothing_lowered();
    lemma_globals_declared(s0, p, 0);
    let s1 = globals_declared(s0, p, 0);
    lemma_functions_declared(s1, p, 0);
    let s2 = functions_declared(s1, p, 0);
    assert(all_declared(ast, context(s2))) by {
        assert forall|k: int| 0 <= k < ast.top_level.len() implies (
        #[trigger] ast.top_level[k] matches TopLevelView::Stmt(stmt) ==> declared(
            stmt,
            context(s2),
        )) by {
            if let TopLevelView::Stmt(stmt) = ast.top_level[k] {
                assert(declared(stmt, context(s1)));
            }
        }
    }
    assert(globals_known(ast, st, context(s2)));
    lemma_functions_lowered(p, st, s2, 0);
    let s3 = functions_code(s2, p, 0);
    lemma_still_known(ast, context(s2), context(s3));
    reveal(function_added);
    reveal(body_begun);
    let function = super::builder::next_function(s3);
    let s4 = function_added(s3, FunctionName::Entry, Seq::empty(), PinpType::Void);
    let s5 = body_begun(s4, function, false);
    assert(functions_known(ast, context(s5))) by {
        assert forall|k: int| 0 <= k < ast.top_level.len() implies (
        #[trigger] ast.top_level[k] matches TopLevelView::Func(func) ==> function_known(
            context(s5),
            func,
        )) by {
            if let TopLevelView::Func(func) = ast.top_level[k] {
                assert(function_known(context(s3), func));
            }
        }
    }
    assert(all_declared(ast, context(s5))) by {
        assert forall|k: int| 0 <= k < ast.top_level.len() implies (
        #[trigger] ast.top_level[k] matches TopLevelView::Stmt(stmt) ==> declared(
            stmt,
            context(s5),
        )) by {
            if let TopLevelView::Stmt(stmt) = ast.top_level[k] {
                assert(declared(stmt, context(s3)));
            }
        }
    }
    assert(globals_known(ast, st, context(s5)));
    lemma_top_level_known(ast, st, context(s5));
    lemma_items_lowered(p, st, s5, 0);
    let (s6, yielded) = items_code(s5, p, 0);
    let s7 = value_written(s6, p, yielded);
    assert(context(s7) == context(s6));
    lemma_scope_strings_context(s7, ast.names.len() as int, 0);
    let s8 = free_scope_strings(s7, p);
    lemma_global_strings_context(s8, ast.names.len() as int, 0);
    let s9 = free_global_strings(s8, p);
    assert(context(op(s9, Op::ReturnVoid)) == context(s9));
    assert(context(op(s9, Op::ReturnVoid)).failure is None);
}


/// What is parsed and checked can be lowered, where no two functions have the same name and none
/// has the name of a built-in function.
pub proof fn checked_sources_are_lowered(source: Seq<u8>, ast: AstView, types: Seq<PinpType>)
    requires
        parsed(source) == Ok::<AstView, ParseErrorView>(ast),
        ast.well_formed(),
        types.len() == ast.nodes.len(),
        ast.top_level.len() <= usize::MAX,
        told_apart(ast),
        forall|i: int|
            0 <= i < ast.top_level.len() ==> (#[trigger] ast.top_level[i] matches TopLevelView::Func(
                func,
            ) ==> !built_in(ast.names[func.name.0 as int])),
        analyzed(ast, types).1 is Ok,
    ensures
        lowered(Program { ast, types: analyzed(ast, types).0.types }).failure is None,
{
    parsed_programs_are_trees(source);
    assert forall|i: int| 0 <= i < ast.top_level.len() implies (
    #[trigger] ast.top_level[i] matches TopLevelView::Func(func) ==> ordinary_function(
        ast,
        func,
    )) by {
        assert(annotated_item(ast.top_level[i]));
    }
    checked_programs_are_lowered(ast, types);
}

} // verus!
