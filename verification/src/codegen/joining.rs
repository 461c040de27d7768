//! What the lowering of strings adds to code: it goes on in the block it stands in.

use vstd::prelude::*;

use super::builder::{
    Lowering, Program, called, emitted, entered, failed, float_added, innermost_slot, next_text,
    next_value, op, text_added,
};
use super::emit::{alloca_at_entry, resolve_place, storable};
use super::building::{
    extends, grows_on, is_alloca, lemma_emitted_extends, lemma_extends_further, lemma_extends_same,
    lemma_found_whole, lemma_freed_grows, lemma_grows_further, lemma_resolve_built, lemma_sane_kept,
    sane,
};
use super::evaluation::{made, plain};
use super::execution::{fits, is_slot, lemma_built_moved, lemma_count_kept, lemma_entered_on, list};
use super::flow::{
    lemma_build_concat, lemma_own_str, lemma_segments_code, lemma_spill_str, lemma_str_from_value,
};
use super::ir::{Callee, InstView, IrType, Op, RuntimeFn, Value};
use super::lowering::{
    StrPart, build_concat, build_str_constant, discarded_str_freed, free_str_slot, free_str_value,
    fstring_code, load_place, own_str, owns_str_result, parts_freed, parts_stored, place_slot,
    scope_strings_freed, segments_code, spill_str, store_to_place, str_from_value, str_predicate,
    str_relation, type_of,
};
use crate::parser::ast::{BinOp, FStrSegment, PinpType, Place, StmtView};

verus! {

/// Code that goes on from `s` in the block it stands in, with the names as they were.
pub open spec fn straight(p: Program, s: Lowering, t: Lowering) -> bool {
    &&& extends(p, s, t)
    &&& t.current == s.current
    &&& t.blocks.len() == s.blocks.len()
}

pub proof fn lemma_straight_further(p: Program, s: Lowering, t: Lowering, u: Lowering)
    requires
        straight(p, s, t),
        straight(p, t, u),
    ensures
        straight(p, s, u),
{
    lemma_extends_further(p, s, t, u);
}

pub proof fn lemma_emitted_straight(p: Program, s: Lowering, inst: InstView)
    requires
        sane(p, s),
        fits(emitted(s, inst)),
    ensures
        straight(p, s, emitted(s, inst)),
        emitted(s, inst).insts == s.insts.push(inst),
        emitted(s, inst).texts == s.texts,
        emitted(s, inst).floats == s.floats,
{
    lemma_emitted_extends(p, s, inst);
    lemma_count_kept(s, inst);
}

pub proof fn lemma_entered_straight(p: Program, s: Lowering, at: usize, o: Op)
    requires
        sane(p, s),
        is_slot(InstView::Op(o)),
        fits(entered(s, at, o)),
    ensures
        straight(p, s, entered(s, at, o)),
        entered(s, at, o).insts == s.insts.push(InstView::Op(o)),
        list(entered(s, at, o), s.current as int) == list(s, s.current as int),
{
    assert(entered(s, at, o).insts.len() == s.insts.len() + 1) by {
        reveal(entered);
    }
    lemma_entered_on(s, at, o);
    lemma_sane_kept(p, s, entered(s, at, o));
}

pub proof fn lemma_text_straight(p: Program, s: Lowering, content: Seq<char>)
    requires
        sane(p, s),
    ensures
        straight(p, s, text_added(s, content)),
        text_added(s, content).insts == s.insts,
        text_added(s, content).blocks == s.blocks,
        text_added(s, content).texts == s.texts.push(content),
        text_added(s, content).floats == s.floats,
        text_added(s, content).frames == s.frames,
        text_added(s, content).global_slots == s.global_slots,
        text_added(s, content).in_function == s.in_function,
{
    reveal(text_added);
    let t = text_added(s, content);
    lemma_built_moved(s, t);
    lemma_sane_kept(p, s, t);
}

pub proof fn lemma_float_straight(p: Program, s: Lowering, digits: Seq<char>)
    requires
        sane(p, s),
    ensures
        straight(p, s, float_added(s, digits)),
        float_added(s, digits).insts == s.insts,
        float_added(s, digits).blocks == s.blocks,
        float_added(s, digits).floats == s.floats.push(digits),
        float_added(s, digits).frames == s.frames,
        float_added(s, digits).global_slots == s.global_slots,
        float_added(s, digits).in_function == s.in_function,
{
    reveal(float_added);
    let t = float_added(s, digits);
    lemma_built_moved(s, t);
    lemma_sane_kept(p, s, t);
}

/// A slot for a string.
pub proof fn lemma_str_slot_built(p: Program, s: Lowering)
    requires
        sane(p, s),
        fits(alloca_at_entry(s, PinpType::Str).0),
    ensures
        ({
            let (t, slot) = alloca_at_entry(s, PinpType::Str);
            &&& straight(p, s, t)
            &&& slot == Value::Inst(s.insts.len() as usize)
            &&& s.insts.len() < t.insts.len()
            &&& is_alloca(t.insts[s.insts.len() as int])
            &&& list(t, s.current as int) == list(s, s.current as int)
        }),
{
    reveal(next_value);
    let slot = next_value(s);
    let first = Op::Alloca(IrType::Str);
    let second = Op::Store(slot, Value::Zero(IrType::Str));
    let s2 = entered(s, 0, first);
    let s4 = entered(s2, 1, second);
    assert(s2.insts.len() == s.insts.len() + 1 && s4.insts.len() == s2.insts.len() + 1
        && s2.blocks.len() == s.blocks.len() && s4.blocks.len() == s2.blocks.len()) by {
        reveal(entered);
    }
    assert(alloca_at_entry(s, PinpType::Str) == (s4, slot));
    lemma_entered_straight(p, s, 0, first);
    lemma_entered_straight(p, s2, 1, second);
    lemma_straight_further(p, s, s2, s4);
}

pub proof fn lemma_spill_built(p: Program, s: Lowering, value: Value)
    requires
        sane(p, s),
        fits(spill_str(s, value).0),
    ensures
        ({
            let (t, slot) = spill_str(s, value);
            let s1 = alloca_at_entry(s, PinpType::Str).0;
            &&& straight(p, s, t)
            &&& straight(p, s, s1)
            &&& straight(p, s1, t)
            &&& slot == Value::Inst(s.insts.len() as usize)
            &&& s.insts.len() < s1.insts.len() < t.insts.len()
            &&& is_alloca(s1.insts[s.insts.len() as int])
            &&& t == op(s1, Op::Store(slot, value))
            &&& list(s1, s.current as int) == list(s, s.current as int)
        }),
{
    let (s1, slot) = alloca_at_entry(s, PinpType::Str);
    let store = InstView::Op(Op::Store(slot, value));
    lemma_count_kept(s1, store);
    lemma_str_slot_built(p, s);
    lemma_emitted_straight(p, s1, store);
    lemma_straight_further(p, s, s1, emitted(s1, store));
}

pub proof fn lemma_free_value_built(p: Program, s: Lowering, value: Value)
    requires
        sane(p, s),
        fits(free_str_value(s, value)),
    ensures
        ({
            let (s1, slot) = spill_str(s, value);
            &&& straight(p, s, free_str_value(s, value))
            &&& straight(p, s, s1)
            &&& straight(p, s1, free_str_value(s, value))
            &&& fits(s1)
        }),
{
    let (s1, slot) = spill_str(s, value);
    let free = InstView::Call(Callee::Runtime(RuntimeFn::StrFree), seq![slot]);
    lemma_count_kept(s1, free);
    lemma_spill_built(p, s, value);
    lemma_emitted_straight(p, s1, free);
    lemma_straight_further(p, s, s1, emitted(s1, free));
}

pub proof fn lemma_constant_built(p: Program, s: Lowering, content: Seq<char>)
    requires
        sane(p, s),
        fits(build_str_constant(s, content).0),
    ensures
        straight(p, s, build_str_constant(s, content).0),
{
    let s1 = text_added(s, content);
    let make = InstView::Call(Callee::Runtime(RuntimeFn::StrFromCstr), seq![next_text(s)]);
    lemma_count_kept(s1, make);
    lemma_text_straight(p, s, content);
    lemma_emitted_straight(p, s1, make);
    lemma_straight_further(p, s, s1, emitted(s1, make));
}

pub proof fn lemma_render_built(p: Program, s: Lowering, value: Value, kind: PinpType)
    requires
        sane(p, s),
        plain(kind),
        fits(str_from_value(s, value, kind).0),
    ensures
        straight(p, s, str_from_value(s, value, kind).0),
{
    lemma_extends_same(p, s);
    if kind == PinpType::Int {
        lemma_emitted_straight(
            p,
            s,
            InstView::Call(Callee::Runtime(RuntimeFn::StrFromInt), seq![value]),
        );
    } else if kind == PinpType::Float {
        lemma_emitted_straight(
            p,
            s,
            InstView::Call(Callee::Runtime(RuntimeFn::StrFromFloat), seq![value]),
        );
    } else if kind == PinpType::Bool {
        let s4 = text_added(s, "true"@);
        let s5 = text_added(s4, "false"@);
        let pick = InstView::Op(Op::Select(value, next_text(s), next_text(s4)));
        let s6 = emitted(s5, pick);
        let make = InstView::Call(Callee::Runtime(RuntimeFn::StrFromCstr), seq![next_value(s5)]);
        lemma_count_kept(s5, pick);
        lemma_count_kept(s6, make);
        lemma_text_straight(p, s, "true"@);
        lemma_text_straight(p, s4, "false"@);
        lemma_emitted_straight(p, s5, pick);
        lemma_emitted_straight(p, s6, make);
        lemma_straight_further(p, s, s4, s5);
        lemma_straight_further(p, s, s5, s6);
        lemma_straight_further(p, s, s6, emitted(s6, make));
    }
}

/// The parts of a join stored: two instructions for each.
proof fn lemma_parts_grow(s: Lowering, base: Value, parts: Seq<StrPart>, slots: Seq<Value>)
    requires
        slots.len() <= parts.len(),
    ensures
        ({
            let (t, made) = parts_stored(s, base, parts, slots);
            &&& t.insts.len() == s.insts.len() + 2 * (parts.len() - slots.len())
            &&& t.blocks.len() == s.blocks.len()
            &&& made.len() == parts.len()
        }),
    decreases parts.len() - slots.len(),
{
    if slots.len() < parts.len() {
        let index = slots.len() as int;
        let address = InstView::Op(
            Op::ElementPtr(IrType::Str, base, Value::Int(index as i64)),
        );
        let s1 = emitted(s, address);
        let store = InstView::Op(Op::Store(next_value(s), parts[index].value));
        lemma_count_kept(s, address);
        lemma_count_kept(s1, store);
        lemma_parts_grow(emitted(s1, store), base, parts, slots.push(next_value(s)));
    }
}

pub proof fn lemma_parts_built(
    p: Program,
    s: Lowering,
    base: Value,
    parts: Seq<StrPart>,
    slots: Seq<Value>,
)
    requires
        sane(p, s),
        slots.len() <= parts.len(),
        fits(parts_stored(s, base, parts, slots).0),
    ensures
        straight(p, s, parts_stored(s, base, parts, slots).0),
        slots.len() < parts.len() ==> {
            let index = slots.len() as int;
            let s1 = op(s, Op::ElementPtr(IrType::Str, base, Value::Int(index as i64)));
            let s2 = op(s1, Op::Store(next_value(s), parts[index].value));
            &&& straight(p, s, s1)
            &&& straight(p, s1, s2)
            &&& s2.insts.len() == s.insts.len() + 2
            &&& straight(p, s2, parts_stored(s, base, parts, slots).0)
            &&& parts_stored(s, base, parts, slots) == parts_stored(
                s2,
                base,
                parts,
                slots.push(next_value(s)),
            )
        },
    decreases parts.len() - slots.len(),
{
    lemma_extends_same(p, s);
    if slots.len() < parts.len() {
        let index = slots.len() as int;
        let address = InstView::Op(
            Op::ElementPtr(IrType::Str, base, Value::Int(index as i64)),
        );
        let s1 = emitted(s, address);
        let store = InstView::Op(Op::Store(next_value(s), parts[index].value));
        let s2 = emitted(s1, store);
        let more = slots.push(next_value(s));
        lemma_count_kept(s, address);
        lemma_count_kept(s1, store);
        lemma_parts_grow(s2, base, parts, more);
        lemma_emitted_straight(p, s, address);
        lemma_emitted_straight(p, s1, store);
        lemma_parts_built(p, s2, base, parts, more);
        lemma_straight_further(p, s, s1, s2);
        lemma_straight_further(p, s, s2, parts_stored(s2, base, parts, more).0);
    }
}

proof fn lemma_parts_freed_grow(
    s: Lowering,
    parts: Seq<StrPart>,
    slots: Seq<Value>,
    from: int,
)
    ensures
        s.insts.len() <= parts_freed(s, parts, slots, from).insts.len(),
        s.blocks.len() == parts_freed(s, parts, slots, from).blocks.len(),
    decreases parts.len() - from,
{
    if 0 <= from < parts.len() {
        let free = InstView::Call(Callee::Runtime(RuntimeFn::StrFree), seq![slots[from]]);
        lemma_count_kept(s, free);
        if parts[from].owned {
            lemma_parts_freed_grow(emitted(s, free), parts, slots, from + 1);
        } else {
            lemma_parts_freed_grow(s, parts, slots, from + 1);
        }
    }
}

pub proof fn lemma_parts_freed_built(
    p: Program,
    s: Lowering,
    parts: Seq<StrPart>,
    slots: Seq<Value>,
    from: int,
)
    requires
        sane(p, s),
        0 <= from,
        fits(parts_freed(s, parts, slots, from)),
    ensures
        straight(p, s, parts_freed(s, parts, slots, from)),
        from < parts.len() && parts[from].owned ==> {
            let s1 = free_str_slot(s, slots[from]);
            &&& straight(p, s, s1)
            &&& fits(s1)
            &&& straight(p, s1, parts_freed(s1, parts, slots, from + 1))
        },
    decreases parts.len() - from,
{
    lemma_extends_same(p, s);
    if from < parts.len() {
        let free = InstView::Call(Callee::Runtime(RuntimeFn::StrFree), seq![slots[from]]);
        let s1 = emitted(s, free);
        if parts[from].owned {
            lemma_parts_freed_grow(s1, parts, slots, from + 1);
            lemma_emitted_straight(p, s, free);
            lemma_parts_freed_built(p, s1, parts, slots, from + 1);
            lemma_straight_further(p, s, s1, parts_freed(s1, parts, slots, from + 1));
        } else {
            lemma_parts_freed_built(p, s, parts, slots, from + 1);
        }
    }
}

/// The states that a join goes through: with its array made, with its parts stored, and joined.
pub open spec fn concat_states(s: Lowering, parts: Seq<StrPart>) -> (Lowering, Lowering, Lowering) {
    let base = next_value(s);
    let s1 = entered(s, 0, Op::Alloca(IrType::StrArray(parts.len() as usize)));
    let s2 = parts_stored(s1, base, parts, Seq::empty()).0;
    let s3 = called(
        s2,
        Callee::Runtime(RuntimeFn::StrConcatN),
        seq![base, Value::Int(parts.len() as i64)],
    );
    (s1, s2, s3)
}

pub proof fn lemma_concat_built(p: Program, s: Lowering, parts: Seq<StrPart>)
    requires
        sane(p, s),
        fits(build_concat(s, parts).0),
    ensures
        ({
            let (s1, s2, s3) = concat_states(s, parts);
            let t = build_concat(s, parts).0;
            &&& straight(p, s, t)
            &&& straight(p, s, s1)
            &&& straight(p, s1, s2)
            &&& straight(p, s2, s3)
            &&& straight(p, s3, t)
            &&& fits(s2)
            &&& fits(s3)
            &&& list(s1, s.current as int) == list(s, s.current as int)
            &&& s1.insts.len() == s.insts.len() + 1
            &&& s2.insts.len() == s1.insts.len() + 2 * parts.len()
        }),
{
    let (s1, s2, s3) = concat_states(s, parts);
    let base = next_value(s);
    let first = Op::Alloca(IrType::StrArray(parts.len() as usize));
    let join = InstView::Call(
        Callee::Runtime(RuntimeFn::StrConcatN),
        seq![base, Value::Int(parts.len() as i64)],
    );
    let slots = parts_stored(s1, base, parts, Seq::empty()).1;
    let t = parts_freed(s3, parts, slots, 0);
    assert(s1.insts.len() == s.insts.len() + 1 && s1.blocks.len() == s.blocks.len()) by {
        reveal(entered);
    }
    lemma_parts_grow(s1, base, parts, Seq::empty());
    lemma_count_kept(s2, join);
    lemma_parts_freed_grow(s3, parts, slots, 0);
    lemma_entered_straight(p, s, 0, first);
    lemma_parts_built(p, s1, base, parts, Seq::empty());
    lemma_emitted_straight(p, s2, join);
    lemma_parts_freed_built(p, s3, parts, slots, 0);
    lemma_straight_further(p, s, s1, s2);
    lemma_straight_further(p, s, s2, s3);
    lemma_straight_further(p, s, s3, t);
}

pub proof fn lemma_own_built(p: Program, s: Lowering, value: Value, owned: bool)
    requires
        sane(p, s),
        fits(own_str(s, value, owned).0),
    ensures
        straight(p, s, own_str(s, value, owned).0),
{
    lemma_extends_same(p, s);
    if !owned {
        lemma_concat_built(p, s, seq![StrPart { value, owned: false }]);
    }
}

/// The segments of an f-string.
pub proof fn lemma_segments_built(
    p: Program,
    s: Lowering,
    segments: Seq<FStrSegment>,
    done: Seq<StrPart>,
)
    requires
        sane(p, s),
        done.len() <= segments.len(),
        fits(segments_code(s, p, segments, done).0),
    ensures
        straight(p, s, segments_code(s, p, segments, done).0),
        segments_code(s, p, segments, done).1.len() == segments.len(),
        done.len() < segments.len() ==> match segments[done.len() as int] {
            FStrSegment::Literal(str_id) => {
                let (s1, value) = build_str_constant(s, p.ast.strings[str_id.0 as int]);
                let part = StrPart { value, owned: true };
                let t = segments_code(s1, p, segments, done.push(part));
                &&& straight(p, s, s1)
                &&& fits(s1)
                &&& segments_code(s, p, segments, done) == t
                &&& straight(p, s1, t.0)
            },
            FStrSegment::Interp(place) => {
                let (s1, (raw, kind)) = load_place(s, place);
                let (s2, value) = str_from_value(s1, raw, kind);
                let part = StrPart { value, owned: kind != PinpType::Str };
                let t = segments_code(s2, p, segments, done.push(part));
                &&& straight(p, s, s1)
                &&& straight(p, s1, s2)
                &&& fits(s2)
                &&& segments_code(s, p, segments, done) == t
                &&& straight(p, s2, t.0)
            },
        },
    decreases segments.len() - done.len(),
{
    lemma_extends_same(p, s);
    if done.len() < segments.len() {
        match segments[done.len() as int] {
            FStrSegment::Literal(str_id) => {
                let content = p.ast.strings[str_id.0 as int];
                let (s1, value) = build_str_constant(s, content);
                let part = StrPart { value, owned: true };
                lemma_segments_code(s1, p, segments, done.push(part));
                lemma_constant_built(p, s, content);
                lemma_segments_built(p, s1, segments, done.push(part));
                lemma_straight_further(
                    p,
                    s,
                    s1,
                    segments_code(s1, p, segments, done.push(part)).0,
                );
            },
            FStrSegment::Interp(place) => {
                let (s1, (raw, kind)) = load_place(s, place);
                let (s2, value) = str_from_value(s1, raw, kind);
                let part = StrPart { value, owned: kind != PinpType::Str };
                lemma_segments_code(s2, p, segments, done.push(part));
                lemma_str_from_value(s1, raw, kind);
                lemma_place_read_built(p, s, place);
                lemma_render_built(p, s1, raw, kind);
                lemma_segments_built(p, s2, segments, done.push(part));
                lemma_straight_further(p, s, s1, s2);
                lemma_straight_further(
                    p,
                    s,
                    s2,
                    segments_code(s2, p, segments, done.push(part)).0,
                );
            },
        }
    }
}

/// A name read inside an f-string.
proof fn lemma_place_read_built(p: Program, s: Lowering, place: Place)
    requires
        sane(p, s),
        fits(load_place(s, place).0),
    ensures
        straight(p, s, load_place(s, place).0),
        plain(place_slot(s, place).1.value_type),
{
    reveal(failed);
    lemma_found_whole(s, place);
    let (s1, slot) = place_slot(s, place);
    let (s2, ir_type) = storable(s1, slot.value_type);
    let inst = InstView::Op(Op::Load(ir_type, slot.place));
    lemma_count_kept(s2, inst);
    lemma_built_moved(s, s2);
    lemma_sane_kept(p, s, s2);
    lemma_emitted_straight(p, s2, inst);
    lemma_straight_further(p, s, s2, emitted(s2, inst));
}

pub proof fn lemma_fstring_built(p: Program, s: Lowering, segments: Seq<FStrSegment>)
    requires
        sane(p, s),
        fits(fstring_code(s, p, segments).0),
    ensures
        straight(p, s, fstring_code(s, p, segments).0),
{
    if segments.len() == 0 {
        lemma_constant_built(p, s, ""@);
    } else if segments.len() == 1 && segments[0] is Literal {
        lemma_constant_built(p, s, p.ast.strings[segments[0]->Literal_0.0 as int]);
    } else {
        let (s1, parts) = segments_code(s, p, segments, Seq::empty());
        lemma_build_concat(s1, parts);
        lemma_segments_built(p, s, segments, Seq::empty());
        lemma_concat_built(p, s1, parts);
        lemma_straight_further(p, s, s1, build_concat(s1, parts).0);
    }
}

/// A string assigned to a name.
pub proof fn lemma_str_store_built(
    p: Program,
    s: Lowering,
    place: Place,
    value: Value,
    first: bool,
)
    requires
        sane(p, s),
        fits(store_to_place(s, place, value, PinpType::Str, first)),
    ensures
        ({
            let t = store_to_place(s, place, value, PinpType::Str, first);
            let (s1, slot) = resolve_place(s, place, PinpType::Str);
            let (s3, kept) = own_str(s1, value, first);
            let s4 = free_str_slot(s3, slot.place);
            &&& grows_on(p, s, t)
            &&& grows_on(p, s, s1)
            &&& s1.current == s.current
            &&& list(s1, s.current as int) == list(s, s.current as int)
            &&& straight(p, s1, s3)
            &&& straight(p, s3, s4)
            &&& straight(p, s4, t)
            &&& t == op(s4, Op::Store(slot.place, kept))
            &&& fits(s1)
            &&& fits(s3)
        }),
{
    let (s1, slot) = resolve_place(s, place, PinpType::Str);
    let (s3, kept) = own_str(s1, value, first);
    let free = InstView::Call(Callee::Runtime(RuntimeFn::StrFree), seq![slot.place]);
    let s4 = emitted(s3, free);
    let store = InstView::Op(Op::Store(slot.place, kept));
    lemma_count_kept(s3, free);
    lemma_count_kept(s4, store);
    lemma_own_str(s1, value, first);
    lemma_resolve_built(p, s, place, PinpType::Str);
    lemma_own_built(p, s1, value, first);
    lemma_emitted_straight(p, s3, free);
    lemma_emitted_straight(p, s4, store);
    lemma_grows_further(p, s, s1, s3);
    lemma_grows_further(p, s, s3, s4);
    lemma_grows_further(p, s, s4, emitted(s4, store));
}

/// A string that nothing receives.
pub proof fn lemma_discarded_built(
    p: Program,
    s: Lowering,
    stmt: StmtView,
    yielded: Option<Value>,
)
    requires
        sane(p, s),
        stmt matches StmtView::Expr(expr_id) ==> type_of(p, expr_id) == PinpType::Str
            ==> yielded is Some,
        fits(discarded_str_freed(s, p, stmt, yielded)),
    ensures
        extends(p, s, discarded_str_freed(s, p, stmt, yielded)),
{
    lemma_extends_same(p, s);
    if let StmtView::Expr(expr_id) = stmt {
        if type_of(p, expr_id) == PinpType::Str && owns_str_result(p, expr_id) {
            lemma_free_value_built(p, s, yielded->0);
        }
    }
}

/// A comparison of strings behind its operands.
pub open spec fn compare_tail(
    s: Lowering,
    operator: BinOp,
    left_value: Value,
    right_value: Value,
    left_owned: bool,
    right_owned: bool,
) -> (Lowering, Value) {
    let (s3, left) = spill_str(s, left_value);
    let (s4, right) = spill_str(s3, right_value);
    let s5 = called(s4, Callee::Runtime(str_relation(operator)), seq![left, right]);
    let s6 = op(s5, Op::IntCompare(str_predicate(operator), next_value(s4), Value::I32(0)));
    let s7 = if left_owned {
        free_str_slot(s6, left)
    } else {
        s6
    };
    let s9 = if right_owned {
        free_str_slot(s7, right)
    } else {
        s7
    };
    (s9, next_value(s5))
}

pub proof fn lemma_tail_grows(
    s: Lowering,
    operator: BinOp,
    left_value: Value,
    right_value: Value,
    left_owned: bool,
    right_owned: bool,
)
    ensures
        ({
            let t = compare_tail(
                s,
                operator,
                left_value,
                right_value,
                left_owned,
                right_owned,
            ).0;
            &&& s.insts.len() <= t.insts.len()
            &&& s.blocks.len() == t.blocks.len()
        }),
{
    reveal(emitted);
    reveal(entered);
}

pub proof fn lemma_tail_built(
    p: Program,
    s: Lowering,
    operator: BinOp,
    left_value: Value,
    right_value: Value,
    left_owned: bool,
    right_owned: bool,
)
    requires
        sane(p, s),
        fits(compare_tail(s, operator, left_value, right_value, left_owned, right_owned).0),
    ensures
        ({
            let t = compare_tail(
                s,
                operator,
                left_value,
                right_value,
                left_owned,
                right_owned,
            ).0;
            let (s3, left) = spill_str(s, left_value);
            let (s4, right) = spill_str(s3, right_value);
            let s5 = called(s4, Callee::Runtime(str_relation(operator)), seq![left, right]);
            let s6 = op(
                s5,
                Op::IntCompare(str_predicate(operator), next_value(s4), Value::I32(0)),
            );
            let s7 = if left_owned {
                free_str_slot(s6, left)
            } else {
                s6
            };
            &&& straight(p, s, t)
            &&& straight(p, s, s3)
            &&& straight(p, s3, s4)
            &&& straight(p, s4, s5)
            &&& straight(p, s5, s6)
            &&& straight(p, s6, s7)
            &&& straight(p, s7, t)
        }),
{
    let t = compare_tail(s, operator, left_value, right_value, left_owned, right_owned).0;
    let (s3, left) = spill_str(s, left_value);
    let (s4, right) = spill_str(s3, right_value);
    let ask = InstView::Call(Callee::Runtime(str_relation(operator)), seq![left, right]);
    let s5 = emitted(s4, ask);
    let test = InstView::Op(
        Op::IntCompare(str_predicate(operator), next_value(s4), Value::I32(0)),
    );
    let s6 = emitted(s5, test);
    let first = InstView::Call(Callee::Runtime(RuntimeFn::StrFree), seq![left]);
    let s7 = if left_owned {
        emitted(s6, first)
    } else {
        s6
    };
    let second = InstView::Call(Callee::Runtime(RuntimeFn::StrFree), seq![right]);
    lemma_spill_str(s, left_value);
    lemma_spill_str(s3, right_value);
    lemma_count_kept(s4, ask);
    lemma_count_kept(s5, test);
    lemma_count_kept(s6, first);
    lemma_count_kept(s7, second);
    lemma_spill_built(p, s, left_value);
    lemma_spill_built(p, s3, right_value);
    lemma_emitted_straight(p, s4, ask);
    lemma_emitted_straight(p, s5, test);
    lemma_extends_same(p, s6);
    if left_owned {
        lemma_emitted_straight(p, s6, first);
    }
    lemma_extends_same(p, s7);
    if right_owned {
        lemma_emitted_straight(p, s7, second);
    }
    lemma_straight_further(p, s, s3, s4);
    lemma_straight_further(p, s, s4, s5);
    lemma_straight_further(p, s, s5, s6);
    lemma_straight_further(p, s, s6, s7);
    lemma_straight_further(p, s, s7, t);
}

/// The strings of the innermost scope released.
pub proof fn lemma_scope_freed_built(p: Program, s: Lowering, symbols: int, from: int)
    requires
        sane(p, s),
        0 <= from,
        fits(scope_strings_freed(s, symbols, from)),
    ensures
        straight(p, s, scope_strings_freed(s, symbols, from)),
    decreases symbols - from,
{
    lemma_extends_same(p, s);
    if from < symbols {
        if let Some(slot) = innermost_slot(s, from as u32) {
            if slot.value_type == PinpType::Str {
                let free = InstView::Call(
                    Callee::Runtime(RuntimeFn::StrFree),
                    seq![slot.place],
                );
                let s1 = emitted(s, free);
                lemma_freed_grows(s1, symbols, from + 1);
                lemma_emitted_straight(p, s, free);
                lemma_scope_freed_built(p, s1, symbols, from + 1);
                lemma_straight_further(p, s, s1, scope_strings_freed(s1, symbols, from + 1));
            } else {
                lemma_scope_freed_built(p, s, symbols, from + 1);
            }
        } else {
            lemma_scope_freed_built(p, s, symbols, from + 1);
        }
    }
}

} // verus!
