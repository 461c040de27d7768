//! The code of strings does with them what programs mean by it.
//!
//! A string that the code makes is the one that the program comes to, and what the program releases
//! the machine releases too.

use vstd::prelude::*;

use super::builder::{
    Lowering, Program, emitted, innermost_slot, inside_function, next_text, next_value, text_added,
};
use super::emit::{alloca_at_entry, resolve_place, var_slot};
use super::building::{lemma_emitted_scope, lemma_found_whole, lemma_freed_grows, sane};
use super::joining::{
    compare_tail, concat_states, lemma_concat_built, lemma_emitted_straight, lemma_free_value_built,
    lemma_parts_built, lemma_parts_freed_built, lemma_scope_freed_built, lemma_segments_built,
    lemma_spill_built, lemma_str_store_built, lemma_straight_further, lemma_tail_built,
    lemma_text_straight,
};
use super::effects::{
    arrives, held, lemma_arrives_further, lemma_held_kept, lemma_here, lemma_looked_up,
    lemma_name_slot, lemma_read, lemma_stored_aside, lemma_stored_global, lemma_stored_local,
    lemma_yields_more, mirrored, mirrors,
};
use super::evaluation::{
    Env, Held, Outcome, Piece, compares, comparison, discarded, frame_of, fstring_meant, joined,
    made, name_held, name_read, name_replaced, name_written, own, pieces_released, pieces_text,
    released, rendered, scope_released, segments_meant, strings_compared,
};
use super::execution::{
    Code, Machine, Strings, caught_up, content_of, covers, element, gathered, is_slot,
    lemma_count_kept, lemma_covered, lemma_emitted_on, lemma_next, lemma_run_step, list, making,
    performed, putting, ready, run, same_before, same_scope, storing, string_at, string_released,
    text_of, yielding,
};
use super::flow::{lemma_build_concat, lemma_spill_str};
use super::ir::{Callee, Inst, InstView, IrType, Op, RuntimeFn, Value, basic_type};
use super::lowering::{
    StrPart, build_concat, build_str_constant, discarded_str_freed, free_str_slot, free_str_value,
    fstring_code, load_place, own_str, owns_str_result, parts_freed, parts_stored,
    scope_strings_freed, segments_code, spill_str, store_to_place, str_from_value, str_predicate,
    str_relation, type_of,
};
use super::meaning::{truth};
use crate::runtime::string::{decimal_bytes, ordered};
use crate::parser::ast::{BinOp, FStrSegment, PinpType, Place, StmtView, symbol_of};

verus! {

/// One instruction more that stays in the block, and what it does to the names and the strings.
pub proof fn lemma_step(
    code: Code,
    s: Lowering,
    inst: InstView,
    env: Env,
    m: Machine,
    after: Machine,
) -> (r: (nat, Machine))
    requires
        ready(s),
        caught_up(s, m),
        !is_slot(inst),
        covers(code, emitted(s, inst)),
        performed(code, m, s.insts.len() as usize, inst) == Some(after),
        after.block == m.block,
        after.at == m.at + 1,
        after.params == m.params,
        after.callers == m.callers,
        after.ranges == m.ranges,
        after.yielded == m.yielded || exists|x: int|
            after.yielded == #[trigger] m.yielded.insert(s.insts.len() as usize, x),
        mirrors(s, env, after),
    ensures
        r == (1nat, after),
        arrives(code, s, m, emitted(s, inst), env, r),
{
    lemma_count_kept(s, inst);
    lemma_emitted_on(s, inst);
    lemma_next(code, s, inst, m);
    assert(run(code, m, 0) == Some(m));
    lemma_run_step(code, m, m, after, 0);
    (1nat, after)
}

/// Where a slot is made nothing runs.
pub proof fn lemma_unmoved(code: Code, s: Lowering, t: Lowering, env: Env, m: Machine)
    requires
        caught_up(s, m),
        mirrors(s, env, m),
        same_scope(s, t),
        t.current == s.current,
        t.blocks.len() == s.blocks.len(),
        list(t, s.current as int) == list(s, s.current as int),
    ensures
        arrives(code, s, m, t, env, (0, m)),
{
    assert(run(code, m, 0) == Some(m));
}

/// A value that is a slot of no name.
pub open spec fn aside(s: Lowering, place: Value) -> bool {
    &&& place is Inst
    &&& forall|k: int, sym: u32|
        0 <= k < s.frames.len() && #[trigger] s.frames[k].contains_key(sym)
            ==> s.frames[k][sym].place != place
}

/// A string put in a slot of its own.
proof fn lemma_spill_runs(
    code: Code,
    s: Lowering,
    p: Program,
    env: Env,
    m: Machine,
    value: Value,
    string: int,
) -> (r: (nat, Machine))
    requires
        sane(p, s),
        caught_up(s, m),
        mirrors(s, env, m),
        held(s, m, value, string),
        covers(code, spill_str(s, value).0),
    ensures
        ({
            let (t, slot) = spill_str(s, value);
            &&& arrives(code, s, m, t, env, r)
            &&& r.1.strings == m.strings
            &&& r.1.yielded == m.yielded
            &&& r.1.slots == m.slots.insert(slot, string)
            &&& slot == Value::Inst(s.insts.len() as usize)
            &&& s.insts.len() < t.insts.len()
            &&& element(code, slot) is None
            &&& aside(t, slot)
        }),
{
    let (t, slot) = spill_str(s, value);
    let s1 = alloca_at_entry(s, PinpType::Str).0;
    lemma_spill_str(s, value);
    lemma_spill_built(p, s, value);
    lemma_covered(code, s1, t);
    lemma_unmoved(code, s, s1, env, m);
    let store = InstView::Op(Op::Store(slot, value));
    assert(code.insts[s.insts.len() as int] == s1.insts[s.insts.len() as int]);
    assert(element(code, slot) is None);
    let after = storing(m, slot, string);
    assert(aside(s1, slot));
    lemma_stored_aside(s1, env, m, slot, string);
    let q = lemma_step(code, s1, store, env, m, after);
    lemma_arrives_further(code, s, m, s1, env, (0, m), t, env, q);
    (0 + q.0, q.1)
}

/// A string released in a slot of no name.
proof fn lemma_free_runs(
    code: Code,
    s: Lowering,
    p: Program,
    env: Env,
    m: Machine,
    slot: Value,
) -> (r: (nat, Machine))
    requires
        sane(p, s),
        caught_up(s, m),
        mirrors(s, env, m),
        element(code, slot) is Some || aside(s, slot),
        covers(code, free_str_slot(s, slot)),
        released(env, string_at(code, m, slot)) is Some,
    ensures
        ({
            let last = released(env, string_at(code, m, slot))->0;
            &&& arrives(code, s, m, free_str_slot(s, slot), last, r)
            &&& r.1 == (Machine {
                strings: last.strings,
                ..putting(code, m, slot, 0)
            })
        }),
{
    let last = released(env, string_at(code, m, slot))->0;
    let free = InstView::Call(Callee::Runtime(RuntimeFn::StrFree), seq![slot]);
    let m1 = Machine { strings: last.strings, ..m };
    let after = putting(code, m1, slot, 0);
    assert(mirrors(s, last, m1)) by {
        lemma_strings_changed(s, env, m, last.strings);
    }
    assert(mirrors(s, last, after)) by {
        if element(code, slot) is None {
            lemma_stored_aside(s, last, m1, slot, 0);
        }
    }
    assert(seq![slot][0] == slot);
    assert(performed(code, m, s.insts.len() as usize, free) == Some(after));
    lemma_step(code, s, free, last, m, after)
}

/// A string that the code makes.
proof fn lemma_made_runs(
    code: Code,
    s: Lowering,
    p: Program,
    inst: InstView,
    env: Env,
    m: Machine,
    text: Option<Seq<u8>>,
) -> (r: (nat, Machine))
    requires
        sane(p, s),
        caught_up(s, m),
        mirrors(s, env, m),
        !is_slot(inst),
        covers(code, emitted(s, inst)),
        performed(code, m, s.insts.len() as usize, inst) == making(
            m,
            s.insts.len() as usize,
            text,
        ),
        made(env, text) is Some,
    ensures
        ({
            let (last, string) = made(env, text)->0;
            let t = emitted(s, inst);
            &&& arrives(code, s, m, t, last, r)
            &&& held(t, r.1, next_value(s), string)
            &&& r.1.slots == m.slots
            &&& r.1.cells == m.cells
        }),
{
    let (last, string) = made(env, text)->0;
    let after = making(m, s.insts.len() as usize, text)->0;
    lemma_strings_changed(s, env, m, last.strings);
    assert(after.yielded == m.yielded.insert(s.insts.len() as usize, m.strings.next));
    assert(mirrors(s, last, after));
    lemma_count_kept(s, inst);
    lemma_next(code, s, inst, m);
    lemma_step(code, s, inst, last, m, after)
}

pub proof fn lemma_strings_changed(s: Lowering, env: Env, m: Machine, strings: Strings)
    requires
        mirrors(s, env, m),
    ensures
        mirrors(s, Env { strings, ..env }, Machine { strings, ..m }),
        env.strings == m.strings,
{
    reveal(mirrored);
}

/// A string from fixed text.
pub proof fn lemma_constant_runs(
    code: Code,
    s: Lowering,
    p: Program,
    env: Env,
    m: Machine,
    content: Seq<char>,
) -> (r: (nat, Machine))
    requires
        sane(p, s),
        caught_up(s, m),
        mirrors(s, env, m),
        covers(code, build_str_constant(s, content).0),
        made(env, Some(content_of(content))) is Some,
    ensures
        ({
            let (last, string) = made(env, Some(content_of(content)))->0;
            let (t, value) = build_str_constant(s, content);
            &&& arrives(code, s, m, t, last, r)
            &&& held(t, r.1, value, string)
        }),
{
    let (last, string) = made(env, Some(content_of(content)))->0;
    let s1 = text_added(s, content);
    let make = InstView::Call(Callee::Runtime(RuntimeFn::StrFromCstr), seq![next_text(s)]);
    let t = emitted(s1, make);
    lemma_text_straight(p, s, content);
    lemma_unmoved(code, s, s1, env, m);
    lemma_count_kept(s1, make);
    reveal(next_text);
    let n = s.texts.len() as int;
    assert(s1.texts[n] == content);
    assert(code.texts[n] == content);
    assert(seq![next_text(s)][0] == next_text(s));
    let q = lemma_made_runs(code, s1, p, make, env, m, Some(content_of(content)));
    lemma_arrives_further(code, s, m, s1, env, (0, m), t, last, q);
    (0 + q.0, q.1)
}

/// A value rendered as a string.
pub proof fn lemma_render_runs(
    code: Code,
    s: Lowering,
    p: Program,
    env: Env,
    m: Machine,
    value: Value,
    kind: PinpType,
    x: int,
) -> (r: (nat, Machine))
    requires
        sane(p, s),
        caught_up(s, m),
        mirrors(s, env, m),
        held(s, m, value, x),
        covers(code, str_from_value(s, value, kind).0),
        rendered(env, kind, x) is Some,
    ensures
        ({
            let (last, string) = rendered(env, kind, x)->0;
            let (t, made) = str_from_value(s, value, kind);
            &&& arrives(code, s, m, t, last, r)
            &&& held(t, r.1, made, string)
        }),
{
    let (last, string) = rendered(env, kind, x)->0;
    lemma_here(code, s, m, env);
    if kind == PinpType::Int {
        let make = InstView::Call(Callee::Runtime(RuntimeFn::StrFromInt), seq![value]);
        assert(seq![value][0] == value);
        lemma_made_runs(code, s, p, make, env, m, Some(decimal_bytes(x)))
    } else if kind == PinpType::Float {
        let make = InstView::Call(Callee::Runtime(RuntimeFn::StrFromFloat), seq![value]);
        assert(seq![value][0] == value);
        lemma_made_runs(code, s, p, make, env, m, Some((env.floats.digits)(x)))
    } else if kind == PinpType::Bool {
        let s4 = text_added(s, "true"@);
        let s5 = text_added(s4, "false"@);
        let pick = InstView::Op(Op::Select(value, next_text(s), next_text(s4)));
        let s6 = emitted(s5, pick);
        let make = InstView::Call(Callee::Runtime(RuntimeFn::StrFromCstr), seq![next_value(s5)]);
        let t = emitted(s6, make);
        lemma_count_kept(s5, pick);
        lemma_count_kept(s6, make);
        lemma_text_straight(p, s, "true"@);
        lemma_text_straight(p, s4, "false"@);
        lemma_straight_further(p, s, s4, s5);
        lemma_emitted_straight(p, s5, pick);
        lemma_emitted_straight(p, s6, make);
        lemma_covered(code, s6, t);
        lemma_unmoved(code, s, s5, env, m);
        reveal(next_text);
        let n = s.texts.len() as int;
        assert(t.texts == s.texts.push("true"@).push("false"@));
        assert(t.texts[n] == "true"@ && t.texts[n + 1] == "false"@);
        assert(code.texts[n] == "true"@ && code.texts[n + 1] == "false"@);
        let index = if x != 0 {
            n
        } else {
            n + 1
        };
        let m1 = yielding(m, s5.insts.len() as usize, index);
        assert(mirrors(s5, env, m1));
        let q1 = lemma_yields_more(code, s, m, s5, env, (0, m), pick, index);
        assert(seq![next_value(s5)][0] == next_value(s5));
        let q2 = lemma_made_runs(code, s6, p, make, env, q1.1, Some(content_of(
            if x != 0 {
                "true"@
            } else {
                "false"@
            },
        )));
        lemma_arrives_further(code, s, m, s6, env, q1, t, last, q2);
        (q1.0 + q2.0, q2.1)
    } else {
        (0nat, m)
    }
}

/// What the parts of a join hold.
pub open spec fn pieces_held(
    t: Lowering,
    m: Machine,
    parts: Seq<StrPart>,
    pieces: Seq<Piece>,
) -> bool {
    &&& parts.len() == pieces.len()
    &&& forall|k: int|
        #![trigger parts[k]]
        #![trigger pieces[k]]
        0 <= k < parts.len() ==> {
            &&& held(t, m, parts[k].value, pieces[k].string)
            &&& parts[k].owned == pieces[k].owned
        }
}

pub proof fn lemma_pieces_kept(
    s: Lowering,
    t: Lowering,
    m: Machine,
    after: Machine,
    parts: Seq<StrPart>,
    pieces: Seq<Piece>,
)
    requires
        pieces_held(s, m, parts, pieces),
        s.insts.len() <= t.insts.len(),
        same_before(s, m, after),
    ensures
        pieces_held(t, after, parts, pieces),
{
    assert forall|k: int|
        #![trigger parts[k]]
        #![trigger pieces[k]]
        0 <= k < parts.len() implies {
        &&& held(t, after, parts[k].value, pieces[k].string)
        &&& parts[k].owned == pieces[k].owned
    } by {
        lemma_held_kept(s, t, m, after, parts[k].value, pieces[k].string);
    }
}

/// The slots of an array whose elements from the one at `from` on hold the parts.
pub open spec fn array_holds(
    code: Code,
    m: Machine,
    base: Value,
    slots: Seq<Value>,
    pieces: Seq<Piece>,
    from: int,
) -> bool {
    forall|k: int|
        #![trigger slots[k]]
        #![trigger pieces[k]]
        from <= k < slots.len() ==> {
            &&& element(code, slots[k]) == Some((base, k))
            &&& m.cells.contains_key((base, k))
            &&& m.cells[(base, k)] == pieces[k].string
        }
}

/// The parts of a join put in the array.
proof fn lemma_parts_run(
    code: Code,
    s: Lowering,
    p: Program,
    env: Env,
    m: Machine,
    base: Value,
    parts: Seq<StrPart>,
    pieces: Seq<Piece>,
    slots: Seq<Value>,
) -> (r: (nat, Machine))
    requires
        sane(p, s),
        caught_up(s, m),
        mirrors(s, env, m),
        slots.len() <= parts.len() <= i64::MAX,
        pieces_held(s, m, parts, pieces),
        array_holds(code, m, base, slots, pieces, 0),
        covers(code, parts_stored(s, base, parts, slots).0),
    ensures
        ({
            let (t, all) = parts_stored(s, base, parts, slots);
            &&& arrives(code, s, m, t, env, r)
            &&& all.len() == parts.len()
            &&& array_holds(code, r.1, base, all, pieces, 0)
            &&& r.1.strings == m.strings
        }),
    decreases parts.len() - slots.len(),
{
    lemma_here(code, s, m, env);
    if slots.len() < parts.len() {
        let index = slots.len() as int;
        let address = InstView::Op(
            Op::ElementPtr(IrType::Str, base, Value::Int(index as i64)),
        );
        let s1 = emitted(s, address);
        let slot = next_value(s);
        let store = InstView::Op(Op::Store(slot, parts[index].value));
        let s2 = emitted(s1, store);
        let more = slots.push(slot);
        let t = parts_stored(s2, base, parts, more).0;
        lemma_parts_built(p, s, base, parts, slots);
        lemma_covered(code, s2, t);
        lemma_covered(code, s1, s2);
        let m1 = Machine { at: m.at + 1, ..m };
        assert(mirrors(s, env, m1));
        lemma_next(code, s, address, m);
        let q1 = lemma_step(code, s, address, env, m, m1);
        lemma_count_kept(s, address);
        assert(s1.insts[s.insts.len() as int] == address) by {
            lemma_emitted_on(s, address);
        }
        assert(element(code, slot) == Some((base, index)));
        let x = pieces[index].string;
        lemma_held_kept(s, s1, m, m1, parts[index].value, x);
        let m2 = Machine { at: m1.at + 1, cells: m1.cells.insert((base, index), x), ..m1 };
        assert(mirrors(s1, env, m1));
        assert(mirrors(s1, env, m2));
        let q2 = lemma_step(code, s1, store, env, m1, m2);
        lemma_arrives_further(code, s, m, s1, env, q1, s2, env, q2);
        lemma_pieces_kept(s, s2, m, m2, parts, pieces);
        assert forall|k: int|
            #![trigger more[k]]
            #![trigger pieces[k]]
            0 <= k < more.len() implies {
            &&& element(code, more[k]) == Some((base, k))
            &&& m2.cells.contains_key((base, k))
            &&& m2.cells[(base, k)] == pieces[k].string
        } by {
            if k < index {
                assert(more[k] == slots[k]);
            }
        }
        let q3 = lemma_parts_run(code, s2, p, env, m2, base, parts, pieces, more);
        let q = (q1.0 + q2.0, q2.1);
        lemma_arrives_further(code, s, m, s2, env, q, t, env, q3);
        (q.0 + q3.0, q3.1)
    } else {
        (0nat, m)
    }
}

/// What the array holds is what the parts hold.
proof fn lemma_gathered(
    code: Code,
    m: Machine,
    base: Value,
    slots: Seq<Value>,
    pieces: Seq<Piece>,
    count: int,
)
    requires
        array_holds(code, m, base, slots, pieces, 0),
        slots.len() == pieces.len(),
        0 <= count <= pieces.len(),
    ensures
        gathered(m, base, count) == pieces_text(m.strings, pieces, count),
    decreases count,
{
    if count > 0 {
        lemma_gathered(code, m, base, slots, pieces, count - 1);
        assert(m.cells[(base, count - 1)] == pieces[count - 1].string);
    }
}

/// The owned ones among the parts released.
proof fn lemma_parts_freed_run(
    code: Code,
    s: Lowering,
    p: Program,
    env: Env,
    m: Machine,
    base: Value,
    parts: Seq<StrPart>,
    pieces: Seq<Piece>,
    slots: Seq<Value>,
    from: int,
) -> (r: (nat, Machine))
    requires
        sane(p, s),
        caught_up(s, m),
        mirrors(s, env, m),
        0 <= from,
        parts.len() == pieces.len() == slots.len(),
        forall|k: int| #![trigger parts[k]] 0 <= k < parts.len() ==> parts[k].owned
            == pieces[k].owned,
        array_holds(code, m, base, slots, pieces, from),
        covers(code, parts_freed(s, parts, slots, from)),
        pieces_released(env, pieces, from) is Some,
    ensures
        arrives(
            code,
            s,
            m,
            parts_freed(s, parts, slots, from),
            pieces_released(env, pieces, from)->0,
            r,
        ),
    decreases parts.len() - from,
{
    lemma_here(code, s, m, env);
    if from < parts.len() {
        assert(parts[from].owned == pieces[from].owned);
        if parts[from].owned {
            let slot = slots[from];
            let s1 = free_str_slot(s, slot);
            let t = parts_freed(s1, parts, slots, from + 1);
            let last = pieces_released(env, pieces, from)->0;
            lemma_parts_freed_built(p, s, parts, slots, from);
            lemma_covered(code, s1, t);
            assert(element(code, slot) == Some((base, from)));
            assert(string_at(code, m, slot) == pieces[from].string);
            let mid = released(env, pieces[from].string)->0;
            let q1 = lemma_free_runs(code, s, p, env, m, slot);
            assert(array_holds(code, q1.1, base, slots, pieces, from + 1));
            let q2 = lemma_parts_freed_run(
                code,
                s1,
                p,
                mid,
                q1.1,
                base,
                parts,
                pieces,
                slots,
                from + 1,
            );
            lemma_arrives_further(code, s, m, s1, mid, q1, t, last, q2);
            (q1.0 + q2.0, q2.1)
        } else {
            lemma_parts_freed_run(
                code,
                s,
                p,
                env,
                m,
                base,
                parts,
                pieces,
                slots,
                from + 1,
            )
        }
    } else {
        (0nat, m)
    }
}

/// A join.
pub proof fn lemma_concat_runs(
    code: Code,
    s: Lowering,
    p: Program,
    env: Env,
    m: Machine,
    parts: Seq<StrPart>,
    pieces: Seq<Piece>,
) -> (r: (nat, Machine))
    requires
        sane(p, s),
        caught_up(s, m),
        mirrors(s, env, m),
        pieces_held(s, m, parts, pieces),
        covers(code, build_concat(s, parts).0),
        joined(env, pieces) is Some,
    ensures
        ({
            let (t, value) = build_concat(s, parts);
            let (last, string) = joined(env, pieces)->0;
            &&& arrives(code, s, m, t, last, r)
            &&& held(t, r.1, value, string)
        }),
{
    let (t, value) = build_concat(s, parts);
    let (last, string) = joined(env, pieces)->0;
    let (s1, s2, s3) = concat_states(s, parts);
    let base = next_value(s);
    let slots = parts_stored(s1, base, parts, Seq::empty()).1;
    let count = Value::Int(parts.len() as i64);
    let join = InstView::Call(Callee::Runtime(RuntimeFn::StrConcatN), seq![base, count]);
    lemma_concat_built(p, s, parts);
    lemma_covered(code, s3, t);
    lemma_covered(code, s2, s3);
    assert(parts.len() <= i64::MAX);
    lemma_unmoved(code, s, s1, env, m);
    lemma_pieces_kept(s, s1, m, m, parts, pieces);
    let q1 = lemma_parts_run(code, s1, p, env, m, base, parts, pieces, Seq::empty());
    lemma_arrives_further(code, s, m, s1, env, (0, m), s2, env, q1);
    lemma_gathered(code, q1.1, base, slots, pieces, pieces.len() as int);
    let text = pieces_text(env.strings, pieces, pieces.len() as int);
    lemma_strings_changed(s2, env, q1.1, env.strings);
    assert(seq![base, count][0] == base && seq![base, count][1] == count);
    let (mid, _) = made(env, text)->0;
    let q2 = lemma_made_runs(code, s2, p, join, env, q1.1, text);
    assert(array_holds(code, q2.1, base, slots, pieces, 0));
    lemma_arrives_further(code, s, m, s2, env, (0 + q1.0, q1.1), s3, mid, q2);
    let q3 = lemma_parts_freed_run(code, s3, p, mid, q2.1, base, parts, pieces, slots, 0);
    lemma_arrives_further(code, s, m, s3, mid, (0 + q1.0 + q2.0, q2.1), t, last, q3);
    lemma_held_kept(s3, t, q2.1, q3.1, value, string);
    (0 + q1.0 + q2.0 + q3.0, q3.1)
}

/// A string to have for oneself.
pub proof fn lemma_own_runs(
    code: Code,
    s: Lowering,
    p: Program,
    env: Env,
    m: Machine,
    value: Value,
    string: int,
    owned: bool,
) -> (r: (nat, Machine))
    requires
        sane(p, s),
        caught_up(s, m),
        mirrors(s, env, m),
        held(s, m, value, string),
        covers(code, own_str(s, value, owned).0),
        own(env, string, owned) is Some,
    ensures
        ({
            let (t, kept) = own_str(s, value, owned);
            let (last, x) = own(env, string, owned)->0;
            &&& arrives(code, s, m, t, last, r)
            &&& held(t, r.1, kept, x)
        }),
{
    lemma_here(code, s, m, env);
    if owned {
        (0nat, m)
    } else {
        let parts = seq![StrPart { value, owned: false }];
        let pieces = seq![Piece { string, owned: false }];
        assert(pieces_text(env.strings, pieces, 0) == Some(Seq::<u8>::empty()));
        assert(pieces_text(env.strings, pieces, 1) == text_of(env.strings, string)) by {
            if text_of(env.strings, string) is Some {
                assert(Seq::<u8>::empty() + text_of(env.strings, string)->0 =~= text_of(
                    env.strings,
                    string,
                )->0);
            }
        }
        let (mid, _) = own(env, string, owned)->0;
        assert(pieces_released(mid, pieces, 1) == Some(mid));
        assert(pieces_released(mid, pieces, 0) == Some(mid));
        lemma_concat_runs(code, s, p, env, m, parts, pieces)
    }
}

/// The parts of an f-string.
proof fn lemma_segments_run(
    code: Code,
    s: Lowering,
    p: Program,
    env: Env,
    m: Machine,
    segments: Seq<FStrSegment>,
    done: Seq<StrPart>,
    pieces: Seq<Piece>,
) -> (r: (nat, Machine))
    requires
        sane(p, s),
        caught_up(s, m),
        mirrors(s, env, m),
        done.len() <= segments.len(),
        pieces_held(s, m, done, pieces),
        covers(code, segments_code(s, p, segments, done).0),
        segments_meant(p, env, segments, pieces) is Some,
    ensures
        ({
            let (t, parts) = segments_code(s, p, segments, done);
            let (last, all) = segments_meant(p, env, segments, pieces)->0;
            &&& arrives(code, s, m, t, last, r)
            &&& pieces_held(t, r.1, parts, all)
        }),
    decreases segments.len() - done.len(),
{
    lemma_here(code, s, m, env);
    if done.len() < segments.len() {
        let (t, parts) = segments_code(s, p, segments, done);
        let (last, all) = segments_meant(p, env, segments, pieces)->0;
        lemma_segments_built(p, s, segments, done);
        match segments[done.len() as int] {
            FStrSegment::Literal(str_id) => {
                let content = p.ast.strings[str_id.0 as int];
                let (s1, value) = build_str_constant(s, content);
                let (mid, string) = made(env, Some(content_of(content)))->0;
                lemma_covered(code, s1, t);
                let q1 = lemma_constant_runs(code, s, p, env, m, content);
                lemma_pieces_kept(s, s1, m, q1.1, done, pieces);
                let more = done.push(StrPart { value, owned: true });
                let found = pieces.push(Piece { string, owned: true });
                lemma_pieces_more(s1, q1.1, done, pieces, more.last(), found.last());
                let q2 = lemma_segments_run(code, s1, p, mid, q1.1, segments, more, found);
                lemma_arrives_further(code, s, m, s1, mid, q1, t, last, q2);
                (q1.0 + q2.0, q2.1)
            },
            FStrSegment::Interp(place) => {
                let (s1, (raw, kind)) = load_place(s, place);
                let (s2, value) = str_from_value(s1, raw, kind);
                let read = name_held(env, symbol_of(place), place is Global)->0;
                let (mid, string) = rendered(env, read.kind, read.value)->0;
                lemma_covered(code, s2, t);
                lemma_covered(code, s1, s2);
                let q1 = lemma_place_read_runs(code, s, p, env, m, place);
                lemma_pieces_kept(s, s1, m, q1.1, done, pieces);
                let q2 = lemma_render_runs(code, s1, p, env, q1.1, raw, kind, read.value);
                lemma_arrives_further(code, s, m, s1, env, q1, s2, mid, q2);
                lemma_pieces_kept(s1, s2, q1.1, q2.1, done, pieces);
                let owned = kind != PinpType::Str;
                let more = done.push(StrPart { value, owned });
                let found = pieces.push(Piece { string, owned });
                lemma_pieces_more(s2, q2.1, done, pieces, more.last(), found.last());
                let q3 = lemma_segments_run(code, s2, p, mid, q2.1, segments, more, found);
                let q = (q1.0 + q2.0, q2.1);
                lemma_arrives_further(code, s, m, s2, mid, q, t, last, q3);
                (q.0 + q3.0, q3.1)
            },
        }
    } else {
        (0nat, m)
    }
}

pub proof fn lemma_pieces_more(
    t: Lowering,
    m: Machine,
    parts: Seq<StrPart>,
    pieces: Seq<Piece>,
    part: StrPart,
    piece: Piece,
)
    requires
        pieces_held(t, m, parts, pieces),
        held(t, m, part.value, piece.string),
        part.owned == piece.owned,
    ensures
        pieces_held(t, m, parts.push(part), pieces.push(piece)),
{
    let more = parts.push(part);
    let found = pieces.push(piece);
    assert forall|k: int|
        #![trigger more[k]]
        #![trigger found[k]]
        0 <= k < more.len() implies {
        &&& held(t, m, more[k].value, found[k].string)
        &&& more[k].owned == found[k].owned
    } by {
        if k < parts.len() {
            assert(more[k] == parts[k] && found[k] == pieces[k]);
        }
    }
}

/// A name read inside an f-string.
proof fn lemma_place_read_runs(
    code: Code,
    s: Lowering,
    p: Program,
    env: Env,
    m: Machine,
    place: Place,
) -> (r: (nat, Machine))
    requires
        sane(p, s),
        caught_up(s, m),
        mirrors(s, env, m),
        name_held(env, symbol_of(place), place is Global) is Some,
        covers(code, load_place(s, place).0),
    ensures
        ({
            let (t, (value, kind)) = load_place(s, place);
            let read = name_held(env, symbol_of(place), place is Global)->0;
            &&& arrives(code, s, m, t, env, r)
            &&& held(t, r.1, value, read.value)
            &&& kind == read.kind
        }),
{
    lemma_here(code, s, m, env);
    lemma_read(s, env, m, symbol_of(place), place is Global);
    let slot = var_slot(s, symbol_of(place), place is Global).1;
    let inst = InstView::Op(Op::Load(basic_type(slot.value_type)->0, slot.place));
    let x = name_read(env, symbol_of(place), place is Global)->0;
    lemma_emitted_scope(s, inst);
    lemma_yields_more(code, s, m, s, env, (0, m), inst, x)
}

/// An f-string.
pub proof fn lemma_fstring_runs(
    code: Code,
    s: Lowering,
    p: Program,
    env: Env,
    m: Machine,
    segments: Seq<FStrSegment>,
) -> (r: (nat, Machine))
    requires
        sane(p, s),
        caught_up(s, m),
        mirrors(s, env, m),
        covers(code, fstring_code(s, p, segments).0),
        fstring_meant(p, env, segments) is Some,
    ensures
        ({
            let (t, value) = fstring_code(s, p, segments);
            let (last, string) = fstring_meant(p, env, segments)->0;
            &&& arrives(code, s, m, t, last, r)
            &&& held(t, r.1, value, string)
        }),
{
    if segments.len() == 0 {
        lemma_constant_runs(code, s, p, env, m, ""@)
    } else if segments.len() == 1 && segments[0] is Literal {
        lemma_constant_runs(
            code,
            s,
            p,
            env,
            m,
            p.ast.strings[segments[0]->Literal_0.0 as int],
        )
    } else {
        let (s1, parts) = segments_code(s, p, segments, Seq::empty());
        let (mid, pieces) = segments_meant(p, env, segments, Seq::empty())->0;
        let (t, value) = build_concat(s1, parts);
        let (last, string) = joined(mid, pieces)->0;
        lemma_build_concat(s1, parts);
        lemma_segments_built(p, s, segments, Seq::empty());
        lemma_concat_built(p, s1, parts);
        lemma_covered(code, s1, t);
        let q1 = lemma_segments_run(code, s, p, env, m, segments, Seq::empty(), Seq::empty());
        let q2 = lemma_concat_runs(code, s1, p, mid, q1.1, parts, pieces);
        lemma_arrives_further(code, s, m, s1, mid, q1, t, last, q2);
        (q1.0 + q2.0, q2.1)
    }
}

/// Two strings compared, and released where they are no name's.
pub proof fn lemma_compared_runs(
    code: Code,
    s: Lowering,
    p: Program,
    env: Env,
    operator: BinOp,
    left_value: Value,
    right_value: Value,
    one: Piece,
    two: Piece,
    m: Machine,
) -> (r: (nat, Machine))
    requires
        sane(p, s),
        caught_up(s, m),
        mirrors(s, env, m),
        compares(operator),
        held(s, m, left_value, one.string),
        held(s, m, right_value, two.string),
        covers(code, compare_tail(s, operator, left_value, right_value, one.owned, two.owned).0),
        comparison(env, operator, one, two) is Some,
    ensures
        ({
            let (t, value) = compare_tail(
                s,
                operator,
                left_value,
                right_value,
                one.owned,
                two.owned,
            );
            let outcome = comparison(env, operator, one, two)->0;
            &&& arrives(code, s, m, t, outcome.env, r)
            &&& held(t, r.1, value, outcome.number->0)
        }),
{
    let (t, value) = compare_tail(s, operator, left_value, right_value, one.owned, two.owned);
    let (s3, left) = spill_str(s, left_value);
    let (s4, right) = spill_str(s3, right_value);
    let ask = InstView::Call(Callee::Runtime(str_relation(operator)), seq![left, right]);
    let s5 = emitted(s4, ask);
    let test = InstView::Op(
        Op::IntCompare(str_predicate(operator), next_value(s4), Value::I32(0)),
    );
    let s6 = emitted(s5, test);
    let s7 = if one.owned {
        free_str_slot(s6, left)
    } else {
        s6
    };
    lemma_tail_built(p, s, operator, left_value, right_value, one.owned, two.owned);
    lemma_covered(code, s7, t);
    lemma_covered(code, s6, s7);
    lemma_covered(code, s5, s6);
    lemma_covered(code, s4, s5);
    lemma_covered(code, s3, s4);
    let a = text_of(env.strings, one.string)->0;
    let b = text_of(env.strings, two.string)->0;
    let pieces = seq![one, two];
    let last = pieces_released(env, pieces, 0)->0;
    let q1 = lemma_spill_runs(code, s, p, env, m, left_value, one.string);
    lemma_held_kept(s, s3, m, q1.1, right_value, two.string);
    let q2 = lemma_spill_runs(code, s3, p, env, q1.1, right_value, two.string);
    lemma_arrives_further(code, s, m, s3, env, q1, s4, env, q2);
    let m2 = q2.1;
    let q = (q1.0 + q2.0, m2);
    assert(left != right);
    assert(string_at(code, m2, left) == one.string);
    assert(string_at(code, m2, right) == two.string);
    assert(seq![left, right][0] == left && seq![left, right][1] == right);
    lemma_strings_changed(s4, env, m2, env.strings);
    let answer = if operator == BinOp::Eq || operator == BinOp::Ne {
        truth(a == b)
    } else {
        ordered(a, b, 0)
    };
    let q3 = lemma_yields_more(code, s, m, s4, env, q, ask, answer);
    let x = strings_compared(operator, a, b);
    let q4 = lemma_yields_more(code, s, m, s5, env, q3, test, x);
    let m4 = q4.1;
    assert(m4.slots == m2.slots);
    assert(pieces_released(last, pieces, 2) == Some(last));
    let mid = if one.owned {
        released(env, one.string)->0
    } else {
        env
    };
    assert(pieces_released(env, pieces, 0) == pieces_released(mid, pieces, 1));
    let q5 = if one.owned {
        let w = lemma_free_runs(code, s6, p, env, m4, left);
        lemma_arrives_further(code, s, m, s6, env, q4, s7, mid, w);
        lemma_held_kept(s6, s7, m4, w.1, value, x);
        (q4.0 + w.0, w.1)
    } else {
        q4
    };
    assert(string_at(code, q5.1, right) == two.string);
    assert(aside(s7, right));
    assert(pieces_released(mid, pieces, 1) == if two.owned {
        released(mid, two.string)
    } else {
        Some(mid)
    }) by {
        if two.owned && released(mid, two.string) is Some {
            let end = released(mid, two.string)->0;
            assert(pieces_released(end, pieces, 2) == Some(end));
        } else if !two.owned {
            assert(pieces_released(mid, pieces, 2) == Some(mid));
        }
    }
    if two.owned {
        let w = lemma_free_runs(code, s7, p, mid, q5.1, right);
        lemma_arrives_further(code, s, m, s7, mid, q5, t, last, w);
        lemma_held_kept(s7, t, q5.1, w.1, value, x);
        (q5.0 + w.0, w.1)
    } else {
        q5
    }
}

/// A string written to a name that is there: its old one is released.
pub proof fn lemma_str_store_runs(
    code: Code,
    s: Lowering,
    p: Program,
    env: Env,
    place: Place,
    value: Value,
    first: bool,
    x: int,
    m: Machine,
) -> (r: (nat, Machine))
    requires
        sane(p, s),
        caught_up(s, m),
        mirrors(s, env, m),
        held(s, m, value, x),
        covers(code, store_to_place(s, place, value, PinpType::Str, first)),
        own(env, x, first) matches Some((mid, kept)) && name_written(
            mid,
            place,
            PinpType::Str,
            kept,
        ) is Some,
    ensures
        ({
            let (mid, kept) = own(env, x, first)->0;
            arrives(
                code,
                s,
                m,
                store_to_place(s, place, value, PinpType::Str, first),
                name_written(mid, place, PinpType::Str, kept)->0,
                r,
            )
        }),
{
    let t = store_to_place(s, place, value, PinpType::Str, first);
    let (mid, string) = own(env, x, first)->0;
    let last = name_written(mid, place, PinpType::Str, string)->0;
    let sym = symbol_of(place).0;
    let (s1, slot) = resolve_place(s, place, PinpType::Str);
    let (s3, kept) = own_str(s1, value, first);
    let free = InstView::Call(Callee::Runtime(RuntimeFn::StrFree), seq![slot.place]);
    let s4 = emitted(s3, free);
    let store = InstView::Op(Op::Store(slot.place, kept));
    lemma_str_store_built(p, s, place, value, first);
    lemma_looked_up(s, env, m, sym);
    lemma_found_whole(s, place);
    assert(mid.globals == env.globals && mid.frames == env.frames && mid.inside == env.inside);
    let k = frame_of(s.frames, s.frames.len() as int, sym);
    let local = place is Local && k >= 0;
    assert(s1 == s && slot == if local {
        s.frames[k][sym]
    } else {
        s.global_slots[sym]
    }) by {
        reveal(inside_function);
    }
    lemma_covered(code, s4, t);
    lemma_covered(code, s3, s4);
    lemma_covered(code, s, s3);
    let q1 = lemma_own_runs(code, s, p, env, m, value, x, first);
    lemma_looked_up(s3, mid, q1.1, sym);
    lemma_name_slot(code, p, s, slot.place);
    let old = name_replaced(mid, place)->0;
    assert(old == if local {
        mid.frames[k][sym]
    } else {
        mid.globals[sym]
    });
    assert(string_at(code, q1.1, slot.place) == old.value);
    let strings = string_released(mid.strings, old.value)->0;
    let given = Env { strings, ..mid };
    let m1 = Machine { strings, ..q1.1 };
    lemma_strings_changed(s3, mid, q1.1, strings);
    let emptied = Held { kind: old.kind, value: 0 };
    let written = Held { kind: old.kind, value: string };
    let m2 = storing(m1, slot.place, 0);
    let m3 = storing(m2, slot.place, string);
    let e1 = named_as(given, local, k, sym, emptied);
    if local {
        lemma_stored_local(s3, given, m1, k, sym, emptied);
    } else {
        lemma_stored_global(s3, given, m1, sym, emptied);
    }
    assert(mirrors(s3, e1, m2));
    assert(seq![slot.place][0] == slot.place);
    assert(performed(code, q1.1, s3.insts.len() as usize, free) == Some(m2));
    let q2 = lemma_step(code, s3, free, e1, q1.1, m2);
    lemma_arrives_further(code, s, m, s3, mid, q1, s4, e1, q2);
    lemma_held_kept(s3, s4, q1.1, m2, kept, string);
    let e2 = named_as(e1, local, k, sym, written);
    if local {
        lemma_stored_local(s4, e1, m2, k, sym, written);
        assert(e2.frames =~= given.frames.update(k, given.frames[k].insert(sym, written))) by {
            assert(given.frames[k].insert(sym, emptied).insert(sym, written)
                =~= given.frames[k].insert(sym, written));
        }
    } else {
        lemma_stored_global(s4, e1, m2, sym, written);
        assert(e2.globals =~= given.globals.insert(sym, written));
    }
    assert(e2 == last);
    let q3 = lemma_step(code, s4, store, e2, m2, m3);
    lemma_arrives_further(code, s, m, s4, e1, (q1.0 + q2.0, q2.1), t, e2, q3);
    (q1.0 + q2.0 + q3.0, q3.1)
}

/// A name that is there stands for something else.
pub open spec fn named_as(env: Env, local: bool, k: int, sym: u32, held: Held) -> Env {
    if local {
        Env { frames: env.frames.update(k, env.frames[k].insert(sym, held)), ..env }
    } else {
        Env { globals: env.globals.insert(sym, held), ..env }
    }
}

/// A string that nothing receives.
pub proof fn lemma_discarded_runs(
    code: Code,
    s: Lowering,
    p: Program,
    stmt: StmtView,
    yielded: Option<Value>,
    outcome: Outcome,
    m: Machine,
) -> (r: (nat, Machine))
    requires
        sane(p, s),
        caught_up(s, m),
        mirrors(s, outcome.env, m),
        stmt matches StmtView::Expr(expr_id) ==> type_of(p, expr_id) == PinpType::Str
            ==> outcome.number is Some,
        outcome.number matches Some(x) ==> yielded is Some && held(s, m, yielded->0, x),
        covers(code, discarded_str_freed(s, p, stmt, yielded)),
        discarded(p, stmt, outcome) is Some,
    ensures
        arrives(
            code,
            s,
            m,
            discarded_str_freed(s, p, stmt, yielded),
            discarded(p, stmt, outcome)->0,
            r,
        ),
{
    lemma_here(code, s, m, outcome.env);
    match stmt {
        StmtView::Expr(expr_id) => {
            if type_of(p, expr_id) == PinpType::Str && owns_str_result(p, expr_id) {
                let value = yielded->0;
                let x = outcome.number->0;
                let (s1, slot) = spill_str(s, value);
                let t = free_str_value(s, value);
                let last = released(outcome.env, x)->0;
                lemma_free_value_built(p, s, value);
                lemma_covered(code, s1, t);
                let q1 = lemma_spill_runs(code, s, p, outcome.env, m, value, x);
                assert(string_at(code, q1.1, slot) == x);
                let q2 = lemma_free_runs(code, s1, p, outcome.env, q1.1, slot);
                lemma_arrives_further(code, s, m, s1, outcome.env, q1, t, last, q2);
                (q1.0 + q2.0, q2.1)
            } else {
                (0nat, m)
            }
        },
        _ => (0nat, m),
    }
}

/// The strings of the innermost names released.
pub proof fn lemma_scope_freed_runs(
    code: Code,
    s: Lowering,
    p: Program,
    env: Env,
    symbols: int,
    from: int,
    m: Machine,
) -> (r: (nat, Machine))
    requires
        sane(p, s),
        caught_up(s, m),
        mirrors(s, env, m),
        0 <= from,
        covers(code, scope_strings_freed(s, symbols, from)),
        scope_released(env, symbols, from) is Some,
    ensures
        arrives(
            code,
            s,
            m,
            scope_strings_freed(s, symbols, from),
            scope_released(env, symbols, from)->0,
            r,
        ),
        forall|k: usize| #[trigger]
            m.slots.contains_key(Value::Param(k)) ==> r.1.slots.contains_key(Value::Param(k))
                && r.1.slots[Value::Param(k)] == m.slots[Value::Param(k)],
    decreases symbols - from,
{
    lemma_here(code, s, m, env);
    if from < symbols {
        let sym = from as u32;
        let last = s.frames.len() - 1;
        assert(env.frames.len() == s.frames.len() && env.frames[last].contains_key(sym)
            == s.frames[last].contains_key(sym) && (s.frames[last].contains_key(sym) ==> {
            &&& m.slots.contains_key(s.frames[last][sym].place)
            &&& m.slots[s.frames[last][sym].place] == env.frames[last][sym].value
            &&& s.frames[last][sym].value_type == env.frames[last][sym].kind
        })) by {
            reveal(mirrored);
        }
        assert(innermost_slot(s, sym) == if s.frames[last].contains_key(sym) {
            Some(s.frames[last][sym])
        } else {
            None
        }) by {
            reveal(innermost_slot);
        }
        if env.frames[last].contains_key(sym) && env.frames[last][sym].kind == PinpType::Str {
            let slot = s.frames[last][sym];
            let free = InstView::Call(Callee::Runtime(RuntimeFn::StrFree), seq![slot.place]);
            let s1 = emitted(s, free);
            let t = scope_strings_freed(s1, symbols, from + 1);
            lemma_freed_grows(s1, symbols, from + 1);
            lemma_emitted_straight(p, s, free);
            lemma_scope_freed_built(p, s1, symbols, from + 1);
            lemma_covered(code, s1, t);
            lemma_covered(code, s, s1);
            lemma_name_slot(code, p, s, slot.place);
            let old = env.frames[last][sym].value;
            assert(string_at(code, m, slot.place) == old);
            let strings = string_released(env.strings, old)->0;
            let emptied = Held { kind: PinpType::Str, value: 0 };
            let e1 = Env {
                frames: env.frames.update(last, env.frames[last].insert(sym, emptied)),
                strings,
                ..env
            };
            let end = scope_released(e1, symbols, from + 1)->0;
            lemma_strings_changed(s, env, m, strings);
            let m1 = Machine { strings, ..m };
            lemma_stored_local(s, Env { strings, ..env }, m1, last, sym, emptied);
            let m2 = storing(m1, slot.place, 0);
            assert(mirrors(s, e1, m2));
            assert(seq![slot.place][0] == slot.place);
            assert(performed(code, m, s.insts.len() as usize, free) == Some(m2));
            let q = lemma_step(code, s, free, e1, m, m2);
            let u = lemma_scope_freed_runs(code, s1, p, e1, symbols, from + 1, m2);
            assert forall|k: usize| #[trigger] m.slots.contains_key(Value::Param(k)) implies {
                &&& u.1.slots.contains_key(Value::Param(k))
                &&& u.1.slots[Value::Param(k)] == m.slots[Value::Param(k)]
            } by {
                assert(slot.place is Inst);
                assert(m2.slots.contains_key(Value::Param(k)));
            }
            lemma_arrives_further(code, s, m, s1, e1, q, t, end, u);
            (q.0 + u.0, u.1)
        } else {
            lemma_scope_freed_runs(code, s, p, env, symbols, from + 1, m)
        }
    } else {
        (0nat, m)
    }
}

} // verus!
