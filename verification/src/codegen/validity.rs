//! What holds of every module that lowering makes, whatever the program.
//!
//! A block runs to a single branch or return at its end. A branch goes to a block of the same
//! function. An operand was emitted before the instruction that reads it. A slot is allocated where
//! a function starts, so that no loop allocates it again.

use vstd::prelude::*;

use super::builder::{
    CodegenError, Lowering, Slot, block_appended, emitted, entered, entry_block, failed,
    float_added, global_slot, innermost_slot, local_slot, name_bound, nearest, next_block,
    next_float, next_text, next_value, positioned, scope_popped, scope_pushed, text_added,
};
use super::ir::{Callee, InstView, IrBlockView, ModuleView, Op, Value};
use crate::parser::ast::SymId;

verus! {

// ---------------------------------------------------------------------------
// Valid modules
// ---------------------------------------------------------------------------

/// Whether an instruction ends its block.
pub open spec fn is_terminator(inst: InstView) -> bool {
    match inst {
        InstView::Op(Op::Branch(_)) => true,
        InstView::Op(Op::CondBranch(_, _, _)) => true,
        InstView::Op(Op::ReturnVoid) => true,
        InstView::Op(Op::Return(_)) => true,
        InstView::Op(Op::Unreachable) => true,
        _ => false,
    }
}

/// Whether a value can be read by the instruction `at` that place in the arena: an instruction's
/// value was emitted before, and a constant exists.
pub open spec fn readable(m: ModuleView, at: int, value: Value) -> bool {
    match value {
        Value::Inst(id) => id < at,
        Value::Global(id) => id < m.globals.len(),
        Value::Text(id) => id < m.texts.len(),
        Value::Float(id) => id < m.floats.len(),
        _ => true,
    }
}

/// Whether every operand of an instruction can be read, and what it calls exists.
pub open spec fn operands_readable(m: ModuleView, at: int, inst: InstView) -> bool {
    match inst {
        InstView::Op(o) => match o {
            Op::Alloca(_) => true,
            Op::Load(_, a) => readable(m, at, a),
            Op::Store(a, b) => readable(m, at, a) && readable(m, at, b),
            Op::ElementPtr(_, a, b) => readable(m, at, a) && readable(m, at, b),
            Op::IntBinary(_, a, b) => readable(m, at, a) && readable(m, at, b),
            Op::FloatBinary(_, a, b) => readable(m, at, a) && readable(m, at, b),
            Op::IntNeg(a) => readable(m, at, a),
            Op::FloatNeg(a) => readable(m, at, a),
            Op::Not(a) => readable(m, at, a),
            Op::IntCompare(_, a, b) => readable(m, at, a) && readable(m, at, b),
            Op::FloatCompare(_, a, b) => readable(m, at, a) && readable(m, at, b),
            Op::Select(a, b, c) => readable(m, at, a) && readable(m, at, b) && readable(m, at, c),
            Op::Cast(_, a) => readable(m, at, a),
            Op::InsertField(a, b, _) => readable(m, at, a) && readable(m, at, b),
            Op::ExtractField(a, _) => readable(m, at, a),
            Op::Branch(_) => true,
            Op::CondBranch(a, _, _) => readable(m, at, a),
            Op::ReturnVoid => true,
            Op::Return(a) => readable(m, at, a),
            Op::Unreachable => true,
        },
        InstView::Call(callee, args) => {
            &&& callee matches Callee::Function(function) ==> function < m.functions.len()
            &&& forall|i: int| 0 <= i < args.len() ==> readable(m, at, #[trigger] args[i])
        },
        InstView::Phi(_, incomings) => forall|i: int|
            0 <= i < incomings.len() ==> readable(m, at, (#[trigger] incomings[i]).0)
                && incomings[i].1 < m.blocks.len(),
    }
}

/// Whether an instruction may stand in a block: it branches to blocks of the block's own function,
/// and it allocates only where a function starts.
pub open spec fn stands_in(m: ModuleView, block: IrBlockView, inst: InstView) -> bool {
    match inst {
        InstView::Op(Op::Branch(target)) => at_home(m, block, target),
        InstView::Op(Op::CondBranch(_, yes, no)) => at_home(m, block, yes) && at_home(m, block, no),
        InstView::Op(Op::Alloca(_)) => block.label == "entry"@,
        _ => true,
    }
}

/// Whether a block belongs to the same function as another.
pub open spec fn at_home(m: ModuleView, block: IrBlockView, target: usize) -> bool {
    target < m.blocks.len() && m.blocks[target as int].function == block.function
}

/// Whether the instructions a block lists exist, may stand there, and only the last of them ends
/// it.
pub open spec fn well_built(m: ModuleView, block: IrBlockView) -> bool {
    &&& forall|i: int|
        0 <= i < block.insts.len() ==> (#[trigger] block.insts[i]) < m.insts.len() && stands_in(
            m,
            block,
            m.insts[block.insts[i] as int],
        )
    &&& forall|i: int|
        0 <= i < block.insts.len() - 1 ==> !is_terminator(
            m.insts[(#[trigger] block.insts[i]) as int],
        )
}

/// Whether a block ends in a branch or a return.
pub open spec fn ended(m: ModuleView, block: IrBlockView) -> bool {
    block.insts.len() > 0 && is_terminator(m.insts[block.insts.last() as int])
}

/// A module in which control always has somewhere to go and every operand has been computed.
pub open spec fn valid_module(m: ModuleView) -> bool {
    &&& forall|b: int|
        0 <= b < m.blocks.len() ==> well_built(m, #[trigger] m.blocks[b]) && ended(m, m.blocks[b])
            && m.blocks[b].function < m.functions.len()
    &&& forall|f: int|
        0 <= f < m.functions.len() ==> ((#[trigger] m.functions[f]).entry matches Some(entry)
            ==> entry < m.blocks.len() && m.blocks[entry as int].function == f
            && m.blocks[entry as int].label == "entry"@)
    &&& forall|k: int|
        0 <= k < m.insts.len() ==> operands_readable(m, k, #[trigger] m.insts[k])
}

// ---------------------------------------------------------------------------
// The same while a module is under construction
// ---------------------------------------------------------------------------

pub open spec fn module_so_far(s: Lowering) -> ModuleView {
    ModuleView {
        insts: s.insts,
        blocks: s.blocks,
        functions: s.functions,
        globals: s.globals,
        texts: s.texts,
        floats: s.floats,
    }
}

/// Whether everything emitted so far can be counted by a machine word.
pub open spec fn countable(s: Lowering) -> bool {
    &&& s.insts.len() <= usize::MAX
    &&& s.blocks.len() <= usize::MAX
    &&& s.functions.len() <= usize::MAX
    &&& s.globals.len() <= usize::MAX
    &&& s.texts.len() <= usize::MAX
    &&& s.floats.len() <= usize::MAX
}

/// There is as much of everything, or more.
pub open spec fn roomier(s: Lowering, t: Lowering) -> bool {
    &&& s.insts.len() <= t.insts.len()
    &&& s.blocks.len() <= t.blocks.len()
    &&& s.texts.len() <= t.texts.len()
    &&& s.floats.len() <= t.floats.len()
    &&& s.functions.len() <= t.functions.len()
    &&& s.globals.len() <= t.globals.len()
}

/// Emission only adds: nothing there is less of, and the functions and globals stay as they are.
pub open spec fn grows(s: Lowering, t: Lowering) -> bool {
    &&& s.insts.len() <= t.insts.len()
    &&& s.blocks.len() <= t.blocks.len()
    &&& s.texts.len() <= t.texts.len()
    &&& s.floats.len() <= t.floats.len()
    &&& s.functions == t.functions
    &&& s.globals == t.globals
    &&& s.callables == t.callables
    &&& s.global_slots == t.global_slots
}

/// Whether a block is under construction (0), ended (1), or neither (2).
pub open spec fn block_shape(s: Lowering, b: int) -> int {
    if !well_built(module_so_far(s), s.blocks[b]) {
        2
    } else if ended(module_so_far(s), s.blocks[b]) {
        1
    } else {
        0
    }
}

/// How far each block has come.
#[verifier::opaque]
pub open spec fn shape(s: Lowering) -> Seq<int> {
    Seq::new(s.blocks.len(), |b: int| block_shape(s, b))
}

/// The function of each block.
#[verifier::opaque]
pub open spec fn homes(s: Lowering) -> Seq<usize> {
    Seq::new(s.blocks.len(), |b: int| s.blocks[b].function)
}

/// Whether every instruction's operands can be read.
#[verifier::opaque]
pub open spec fn all_readable(s: Lowering) -> bool {
    forall|k: int|
        0 <= k < s.insts.len() ==> operands_readable(module_so_far(s), k, #[trigger] s.insts[k])
}

/// Whether every function starts in a block of its own.
#[verifier::opaque]
pub open spec fn entries_stand(s: Lowering) -> bool {
    &&& forall|f: int|
        0 <= f < s.functions.len() ==> ((#[trigger] s.functions[f]).entry matches Some(entry)
            ==> entry < s.blocks.len() && s.blocks[entry as int].function == f
            && s.blocks[entry as int].label == "entry"@)
    &&& forall|b: int| 0 <= b < s.blocks.len() ==> (#[trigger] s.blocks[b]).function < s.functions.len()
}

/// A value that the next instruction can read.
pub open spec fn usable(s: Lowering, value: Value) -> bool {
    readable(module_so_far(s), s.insts.len() as int, value)
}

/// Whether every name in scope is bound to a place that can be read.
#[verifier::opaque]
pub open spec fn slots_usable(s: Lowering) -> bool {
    &&& forall|i: int, sym: u32|
        0 <= i < s.frames.len() && (#[trigger] s.frames[i]).contains_key(sym) ==> usable(
            s,
            (#[trigger] s.frames[i][sym]).place,
        )
    &&& forall|sym: u32| #[trigger]
        s.global_slots.contains_key(sym) ==> usable(s, s.global_slots[sym].place)
}

/// Whether no block is beyond repair.
pub open spec fn unbroken(shape: Seq<int>) -> bool {
    forall|b: int| 0 <= b < shape.len() ==> #[trigger] shape[b] == 0 || shape[b] == 1
}

/// The state between two instructions, wherever emission stands.
pub open spec fn sound(s: Lowering) -> bool {
    &&& s.current < s.blocks.len()
    &&& unbroken(shape(s))
    &&& all_readable(s)
    &&& entries_stand(s)
    &&& slots_usable(s)
}

/// The state in which the current block can take another instruction.
pub open spec fn live(s: Lowering) -> bool {
    sound(s) && shape(s)[s.current as int] == 0
}

/// The shape when emission has moved on from block `from` to block `to`: everything new is ended
/// but the block it stands in, and what was there is as it was but for the block it left.
pub open spec fn moved(before: Seq<int>, from: int, count: int, to: int) -> Seq<int> {
    Seq::new(
        count as nat,
        |b: int|
            if b == to {
                0
            } else if b < before.len() && b != from {
                before[b]
            } else {
                1
            },
    )
}

/// Every new block belongs to the function `home`.
pub open spec fn homed(before: Seq<usize>, count: int, home: usize) -> Seq<usize> {
    Seq::new(
        count as nat,
        |b: int|
            if b < before.len() {
                before[b]
            } else {
                home
            },
    )
}

/// Emission has gone on from `s` to `t` and left nothing unfinished behind.
pub open spec fn flows(s: Lowering, t: Lowering) -> bool {
    &&& live(t)
    &&& t.current == s.current || t.current >= s.blocks.len()
    &&& shape(t) == moved(shape(s), s.current as int, t.blocks.len() as int, t.current as int)
    &&& homes(t) == homed(homes(s), t.blocks.len() as int, homes(s)[s.current as int])
}

/// Whether an instruction can be emitted here.
pub open spec fn fits(s: Lowering, inst: InstView) -> bool {
    &&& operands_readable(module_so_far(s), s.insts.len() as int, inst)
    &&& match inst {
        InstView::Op(Op::Branch(target)) => near(s, target),
        InstView::Op(Op::CondBranch(_, yes, no)) => near(s, yes) && near(s, no),
        InstView::Op(Op::Alloca(_)) => s.current < s.blocks.len()
            && s.blocks[s.current as int].label == "entry"@,
        _ => true,
    }
}

/// Whether a block belongs to the function being emitted into.
pub open spec fn near(s: Lowering, target: usize) -> bool {
    target < s.blocks.len() && homes(s)[target as int] == homes(s)[s.current as int]
}

// ---------------------------------------------------------------------------
// The single steps
// ---------------------------------------------------------------------------

pub proof fn lemma_readable_grows(s: Lowering, t: Lowering)
    requires
        roomier(s, t),
        all_readable(s),
        t.insts.len() == s.insts.len() || t.insts.len() == s.insts.len() + 1,
        forall|k: int| 0 <= k < s.insts.len() ==> t.insts[k] == s.insts[k],
        t.insts.len() > s.insts.len() ==> operands_readable(
            module_so_far(s),
            s.insts.len() as int,
            t.insts[s.insts.len() as int],
        ),
    ensures
        all_readable(t),
{
    reveal(all_readable);
    assert forall|k: int| 0 <= k < t.insts.len() implies operands_readable(
        module_so_far(t),
        k,
        #[trigger] t.insts[k],
    ) by {
        assert(operands_readable(module_so_far(s), k, t.insts[k]));
        lemma_operands_grow(s, t, k, t.insts[k]);
    }
}

proof fn lemma_operands_grow(s: Lowering, t: Lowering, at: int, inst: InstView)
    requires
        roomier(s, t),
        operands_readable(module_so_far(s), at, inst),
    ensures
        operands_readable(module_so_far(t), at, inst),
{
    match inst {
        InstView::Call(callee, args) => {
            assert forall|i: int| 0 <= i < args.len() implies readable(
                module_so_far(t),
                at,
                #[trigger] args[i],
            ) by {
                assert(readable(module_so_far(s), at, args[i]));
            }
        },
        InstView::Phi(_, incomings) => {
            assert forall|i: int| 0 <= i < incomings.len() implies readable(
                module_so_far(t),
                at,
                (#[trigger] incomings[i]).0,
            ) && incomings[i].1 < t.blocks.len() by {
                assert(readable(module_so_far(s), at, incomings[i].0));
            }
        },
        _ => {},
    }
}

pub proof fn lemma_slots_grow(s: Lowering, t: Lowering)
    requires
        roomier(s, t),
        slots_usable(s),
        t.frames == s.frames,
        t.global_slots == s.global_slots,
    ensures
        slots_usable(t),
{
    reveal(slots_usable);
    assert forall|i: int, sym: u32|
        0 <= i < t.frames.len() && (#[trigger] t.frames[i]).contains_key(sym) implies usable(
        t,
        (#[trigger] t.frames[i][sym]).place,
    ) by {
        assert(usable(s, s.frames[i][sym].place));
    }
    assert forall|sym: u32| #[trigger] t.global_slots.contains_key(sym) implies usable(
        t,
        t.global_slots[sym].place,
    ) by {
        assert(usable(s, s.global_slots[sym].place));
    }
}

/// A block that keeps its instructions keeps its shape while others grow.
pub proof fn lemma_shape_kept(s: Lowering, t: Lowering, b: int)
    requires
        roomier(s, t),
        0 <= b < s.blocks.len(),
        t.blocks[b] == s.blocks[b],
        forall|k: int| 0 <= k < s.insts.len() ==> t.insts[k] == s.insts[k],
        forall|c: int|
            0 <= c < s.blocks.len() ==> (#[trigger] t.blocks[c]).function == s.blocks[c].function,
        block_shape(s, b) != 2,
    ensures
        block_shape(t, b) == block_shape(s, b),
{
    let block = s.blocks[b];
    let m = module_so_far(s);
    let n = module_so_far(t);
    assert forall|i: int| 0 <= i < block.insts.len() implies (#[trigger] block.insts[i])
        < n.insts.len() && stands_in(n, block, n.insts[block.insts[i] as int]) by {
        assert(stands_in(m, block, m.insts[block.insts[i] as int]));
    }
    assert forall|i: int| 0 <= i < block.insts.len() - 1 implies !is_terminator(
        n.insts[(#[trigger] block.insts[i]) as int],
    ) by {
        assert(!is_terminator(m.insts[block.insts[i] as int]));
    }
}

/// The counts behind [`shape`] and [`homes`].
pub broadcast proof fn lemma_shape_len(s: Lowering)
    ensures
        #[trigger] shape(s).len() == s.blocks.len(),
{
    reveal(shape);
}

pub broadcast proof fn lemma_homes_len(s: Lowering)
    ensures
        #[trigger] homes(s).len() == s.blocks.len(),
{
    reveal(homes);
}

/// What changes neither instructions nor blocks changes no shape.
pub proof fn lemma_same_code(s: Lowering, t: Lowering)
    requires
        grows(s, t),
        t.insts == s.insts,
        t.blocks == s.blocks,
    ensures
        homes(t) == homes(s),
        unbroken(shape(s)) ==> shape(t) == shape(s),
        all_readable(s) ==> all_readable(t),
        entries_stand(s) ==> entries_stand(t),
{
    reveal(shape);
    reveal(homes);
    reveal(entries_stand);
    if unbroken(shape(s)) {
        assert forall|b: int| 0 <= b < s.blocks.len() implies shape(t)[b] == shape(s)[b] by {
            assert(shape(s)[b] == 0 || shape(s)[b] == 1);
            lemma_shape_kept(s, t, b);
        }
        assert(shape(t) =~= shape(s));
    }
    assert(homes(t) =~= homes(s));
    if all_readable(s) {
        lemma_readable_grows(s, t);
    }
}

/// Emitting an instruction adds it to the current block, which it may end.
pub proof fn lemma_emitted(s: Lowering, inst: InstView)
    ensures
        grows(s, emitted(s, inst)),
        emitted(s, inst).current == s.current,
        emitted(s, inst).blocks.len() == s.blocks.len(),
        emitted(s, inst).frames == s.frames,
        live(s) && fits(s, inst) && countable(emitted(s, inst)) ==> {
            &&& sound(emitted(s, inst))
            &&& usable(emitted(s, inst), next_value(s))
            &&& homes(emitted(s, inst)) == homes(s)
            &&& shape(emitted(s, inst)) == (if is_terminator(inst) {
                shape(s).update(s.current as int, 1)
            } else {
                shape(s)
            })
        },
{
    broadcast use lemma_shape_len, lemma_homes_len;

    reveal(emitted);
    reveal(next_value);
    let t = emitted(s, inst);
    if live(s) && fits(s, inst) && countable(t) {
        let cur = s.current as int;
        let id = s.insts.len() as usize;
        assert(id == s.insts.len());
        reveal(shape);
        reveal(homes);
        reveal(entries_stand);
        assert(t.insts[s.insts.len() as int] == inst);
        lemma_readable_grows(s, t);
        lemma_slots_grow(s, t);
        assert(homes(t) =~= homes(s));
        assert forall|c: int| 0 <= c < s.blocks.len() implies (#[trigger] t.blocks[c]).function
            == s.blocks[c].function by {}
        let after = if is_terminator(inst) {
            shape(s).update(cur, 1)
        } else {
            shape(s)
        };
        assert forall|b: int| 0 <= b < s.blocks.len() implies shape(t)[b] == after[b] by {
            assert(shape(s)[b] == 0 || shape(s)[b] == 1);
            if b != cur {
                lemma_shape_kept(s, t, b);
            } else {
                let block = s.blocks[b];
                let m = module_so_far(s);
                let n = module_so_far(t);
                assert(shape(s)[b] == block_shape(s, b));
                assert forall|i: int| 0 <= i < t.blocks[b].insts.len() implies (
                #[trigger] t.blocks[b].insts[i]) < n.insts.len() && stands_in(
                    n,
                    t.blocks[b],
                    n.insts[t.blocks[b].insts[i] as int],
                ) by {
                    if i < block.insts.len() {
                        assert(t.blocks[b].insts[i] == block.insts[i]);
                        assert(stands_in(m, block, m.insts[block.insts[i] as int]));
                    }
                }
                assert forall|i: int| 0 <= i < t.blocks[b].insts.len() - 1 implies !is_terminator(
                    n.insts[(#[trigger] t.blocks[b].insts[i]) as int],
                ) by {
                    assert(t.blocks[b].insts[i] == block.insts[i]);
                    if i == block.insts.len() - 1 {
                        assert(!is_terminator(m.insts[block.insts.last() as int]));
                    } else {
                        assert(!is_terminator(m.insts[block.insts[i] as int]));
                    }
                }
            }
        }
        assert(shape(t) =~= after);
        assert(unbroken(shape(t)));
    }
}

/// A block more is one to be filled, of the current function.
pub proof fn lemma_block_appended(s: Lowering, label: Seq<char>)
    ensures
        grows(s, block_appended(s, label)),
        block_appended(s, label).current == s.current,
        block_appended(s, label).blocks.len() == s.blocks.len() + 1,
        block_appended(s, label).frames == s.frames,
        sound(s) && countable(block_appended(s, label)) ==> {
            &&& sound(block_appended(s, label))
            &&& next_block(s) == s.blocks.len()
            &&& homes(block_appended(s, label)) == homes(s).push(homes(s)[s.current as int])
            &&& shape(block_appended(s, label)) == shape(s).push(0)
        },
{
    broadcast use lemma_shape_len, lemma_homes_len;

    reveal(block_appended);
    reveal(next_block);
    let t = block_appended(s, label);
    if sound(s) && countable(t) {
        reveal(shape);
        reveal(homes);
        reveal(entries_stand);
        lemma_readable_grows(s, t);
        lemma_slots_grow(s, t);
        assert forall|c: int| 0 <= c < s.blocks.len() implies (#[trigger] t.blocks[c]).function
            == s.blocks[c].function by {}
        assert forall|b: int| 0 <= b < s.blocks.len() implies shape(t)[b] == shape(s)[b] by {
            assert(shape(s)[b] == 0 || shape(s)[b] == 1);
            lemma_shape_kept(s, t, b);
        }
        assert(t.blocks[s.blocks.len() as int].insts.len() == 0);
        assert(shape(t) =~= shape(s).push(0));
        assert(homes(t) =~= homes(s).push(homes(s)[s.current as int]));
        assert forall|b: int| 0 <= b < shape(t).len() implies #[trigger] shape(t)[b] == 0
            || shape(t)[b] == 1 by {
            if b < s.blocks.len() {
                assert(shape(s)[b] == 0 || shape(s)[b] == 1);
            }
        }
        assert(s.blocks[s.current as int].function < s.functions.len());
    }
}

pub proof fn lemma_positioned(s: Lowering, block: usize)
    ensures
        grows(s, positioned(s, block)),
        positioned(s, block).current == block,
        positioned(s, block).blocks == s.blocks,
        positioned(s, block).frames == s.frames,
        sound(s) && block < s.blocks.len() ==> {
            &&& sound(positioned(s, block))
            &&& homes(positioned(s, block)) == homes(s)
            &&& shape(positioned(s, block)) == shape(s)
        },
{
    reveal(positioned);
    lemma_same_code(s, positioned(s, block));
    if sound(s) {
        lemma_slots_grow(s, positioned(s, block));
    }
}

pub proof fn lemma_text_added(s: Lowering, content: Seq<char>)
    ensures
        grows(s, text_added(s, content)),
        text_added(s, content).current == s.current,
        text_added(s, content).blocks == s.blocks,
        text_added(s, content).frames == s.frames,
        sound(s) && countable(text_added(s, content)) ==> {
            &&& sound(text_added(s, content))
            &&& usable(text_added(s, content), next_text(s))
            &&& homes(text_added(s, content)) == homes(s)
            &&& shape(text_added(s, content)) == shape(s)
        },
{
    reveal(text_added);
    reveal(next_text);
    lemma_same_code(s, text_added(s, content));
    if sound(s) {
        lemma_slots_grow(s, text_added(s, content));
    }
}

pub proof fn lemma_float_added(s: Lowering, digits: Seq<char>)
    ensures
        grows(s, float_added(s, digits)),
        float_added(s, digits).current == s.current,
        float_added(s, digits).blocks == s.blocks,
        float_added(s, digits).frames == s.frames,
        sound(s) && countable(float_added(s, digits)) ==> {
            &&& sound(float_added(s, digits))
            &&& usable(float_added(s, digits), next_float(s))
            &&& homes(float_added(s, digits)) == homes(s)
            &&& shape(float_added(s, digits)) == shape(s)
        },
{
    reveal(float_added);
    reveal(next_float);
    lemma_same_code(s, float_added(s, digits));
    if sound(s) {
        lemma_slots_grow(s, float_added(s, digits));
    }
}

pub proof fn lemma_failed(s: Lowering, error: CodegenError)
    ensures
        grows(s, failed(s, error)),
        failed(s, error).current == s.current,
        failed(s, error).blocks == s.blocks,
        failed(s, error).frames == s.frames,
        sound(s) ==> {
            &&& sound(failed(s, error))
            &&& homes(failed(s, error)) == homes(s)
            &&& shape(failed(s, error)) == shape(s)
        },
{
    reveal(failed);
    lemma_same_code(s, failed(s, error));
    if sound(s) {
        lemma_slots_grow(s, failed(s, error));
    }
}

pub proof fn lemma_scope_pushed(s: Lowering)
    ensures
        grows(s, scope_pushed(s)),
        scope_pushed(s).current == s.current,
        scope_pushed(s).blocks == s.blocks,
        sound(s) ==> {
            &&& sound(scope_pushed(s))
            &&& homes(scope_pushed(s)) == homes(s)
            &&& shape(scope_pushed(s)) == shape(s)
        },
{
    reveal(scope_pushed);
    let t = scope_pushed(s);
    lemma_same_code(s, t);
    if sound(s) {
        reveal(slots_usable);
        assert forall|i: int, sym: u32|
            0 <= i < t.frames.len() && (#[trigger] t.frames[i]).contains_key(sym) implies usable(
            t,
            (#[trigger] t.frames[i][sym]).place,
        ) by {
            assert(i < s.frames.len());
            assert(usable(s, s.frames[i][sym].place));
        }
    }
}

pub proof fn lemma_scope_popped(s: Lowering)
    ensures
        grows(s, scope_popped(s)),
        scope_popped(s).current == s.current,
        scope_popped(s).blocks == s.blocks,
        sound(s) ==> {
            &&& sound(scope_popped(s))
            &&& homes(scope_popped(s)) == homes(s)
            &&& shape(scope_popped(s)) == shape(s)
        },
{
    reveal(scope_popped);
    let t = scope_popped(s);
    lemma_same_code(s, t);
    if sound(s) {
        reveal(slots_usable);
        assert forall|i: int, sym: u32|
            0 <= i < t.frames.len() && (#[trigger] t.frames[i]).contains_key(sym) implies usable(
            t,
            (#[trigger] t.frames[i][sym]).place,
        ) by {
            assert(t.frames[i] == s.frames[i]);
            assert(usable(s, s.frames[i][sym].place));
        }
    }
}

pub proof fn lemma_name_bound(s: Lowering, sym_id: SymId, slot: Slot)
    ensures
        grows(s, name_bound(s, sym_id, slot)),
        name_bound(s, sym_id, slot).current == s.current,
        name_bound(s, sym_id, slot).blocks == s.blocks,
        sound(s) && usable(s, slot.place) ==> {
            &&& sound(name_bound(s, sym_id, slot))
            &&& homes(name_bound(s, sym_id, slot)) == homes(s)
            &&& shape(name_bound(s, sym_id, slot)) == shape(s)
        },
{
    reveal(name_bound);
    let t = name_bound(s, sym_id, slot);
    lemma_same_code(s, t);
    if sound(s) && usable(s, slot.place) {
        reveal(slots_usable);
        assert forall|i: int, sym: u32|
            0 <= i < t.frames.len() && (#[trigger] t.frames[i]).contains_key(sym) implies usable(
            t,
            (#[trigger] t.frames[i][sym]).place,
        ) by {
            if i < s.frames.len() - 1 || sym != sym_id.0 {
                assert(s.frames[i].contains_key(sym));
                assert(usable(s, s.frames[i][sym].place));
            }
        }
    }
}

proof fn lemma_nearest(s: Lowering, top: int, sym: u32)
    ensures
        sound(s) ==> (nearest(s.frames, top, sym) matches Some(slot) ==> usable(s, slot.place)),
    decreases top,
{
    reveal(slots_usable);
    if 0 < top <= s.frames.len() {
        if s.frames[top - 1].contains_key(sym) {
            if sound(s) {
                assert(usable(s, s.frames[top - 1][sym].place));
            }
        } else {
            lemma_nearest(s, top - 1, sym);
        }
    }
}

pub proof fn lemma_local_slot(s: Lowering, sym_id: SymId)
    ensures
        sound(s) ==> (local_slot(s, sym_id) matches Some(slot) ==> usable(s, slot.place)),
{
    reveal(local_slot);
    lemma_nearest(s, s.frames.len() as int, sym_id.0);
}

pub proof fn lemma_global_slot(s: Lowering, sym_id: SymId)
    ensures
        sound(s) ==> (global_slot(s, sym_id) matches Some(slot) ==> usable(s, slot.place)),
{
    reveal(global_slot);
    reveal(slots_usable);
}

pub proof fn lemma_innermost_slot(s: Lowering, sym: u32)
    ensures
        sound(s) ==> (innermost_slot(s, sym) matches Some(slot) ==> usable(s, slot.place)),
{
    reveal(innermost_slot);
    reveal(slots_usable);
    if s.frames.len() > 0 && s.frames.last().contains_key(sym) {
        assert(s.frames[s.frames.len() - 1].contains_key(sym));
    }
}

/// An instruction that ends nothing, placed ahead of the end of the block a function starts in,
/// changes no shape.
pub proof fn lemma_entered(s: Lowering, at: usize, inst: Op)
    ensures
        grows(s, entered(s, at, inst)),
        entered(s, at, inst).current == s.current,
        entered(s, at, inst).blocks.len() == s.blocks.len(),
        entered(s, at, inst).frames == s.frames,
        ({
            &&& sound(s)
            &&& countable(entered(s, at, inst))
            &&& operands_readable(module_so_far(s), s.insts.len() as int, InstView::Op(inst))
            &&& inst is Alloca || inst is Store
            &&& entry_block(s) matches Some(entry) ==> at == 0 || (at
                < s.blocks[entry as int].insts.len() + 1 && !is_terminator(
                s.insts[s.blocks[entry as int].insts[at - 1] as int],
            ))
        }) ==> {
            &&& sound(entered(s, at, inst))
            &&& usable(entered(s, at, inst), next_value(s))
            &&& homes(entered(s, at, inst)) == homes(s)
            &&& shape(entered(s, at, inst)) == shape(s)
        },
{
    broadcast use lemma_shape_len, lemma_homes_len;

    reveal(entered);
    reveal(next_value);
    let t = entered(s, at, inst);
    let fine = entry_block(s) matches Some(entry) ==> at == 0 || (at
        < s.blocks[entry as int].insts.len() + 1 && !is_terminator(
        s.insts[s.blocks[entry as int].insts[at - 1] as int],
    ));
    if sound(s) && countable(t) && operands_readable(
        module_so_far(s),
        s.insts.len() as int,
        InstView::Op(inst),
    ) && (inst is Alloca || inst is Store) && fine {
        let id = s.insts.len() as usize;
        assert(id == s.insts.len());
        reveal(shape);
        reveal(homes);
        reveal(entries_stand);
        assert(t.insts[s.insts.len() as int] == InstView::Op(inst));
        lemma_readable_grows(s, t);
        lemma_slots_grow(s, t);
        assert(homes(t) =~= homes(s));
        assert forall|c: int| 0 <= c < s.blocks.len() implies (#[trigger] t.blocks[c]).function
            == s.blocks[c].function && t.blocks[c].label == s.blocks[c].label by {}
        assert forall|b: int| 0 <= b < s.blocks.len() implies shape(t)[b] == shape(s)[b] by {
            assert(shape(s)[b] == 0 || shape(s)[b] == 1);
            if entry_block(s) == Some(b as usize) && at <= s.blocks[b].insts.len() {
                let f = s.blocks[s.current as int].function;
                assert(s.functions[f as int].entry == Some(b as usize));
                let block = s.blocks[b];
                let m = module_so_far(s);
                let n = module_so_far(t);
                let more = t.blocks[b].insts;
                assert(more == block.insts.insert(at as int, id));
                assert(shape(s)[b] == block_shape(s, b));
                assert forall|i: int| 0 <= i < more.len() implies (#[trigger] more[i])
                    < n.insts.len() && stands_in(n, t.blocks[b], n.insts[more[i] as int]) by {
                    if i < at {
                        assert(more[i] == block.insts[i]);
                        assert(stands_in(m, block, m.insts[block.insts[i] as int]));
                    } else if i > at {
                        assert(more[i] == block.insts[i - 1]);
                        assert(stands_in(m, block, m.insts[block.insts[i - 1] as int]));
                    }
                }
                assert forall|i: int| 0 <= i < more.len() - 1 implies !is_terminator(
                    n.insts[(#[trigger] more[i]) as int],
                ) by {
                    if i < at {
                        assert(more[i] == block.insts[i]);
                        if i < block.insts.len() - 1 {
                            assert(!is_terminator(m.insts[block.insts[i] as int]));
                        }
                    } else if i > at {
                        assert(more[i] == block.insts[i - 1]);
                        assert(!is_terminator(m.insts[block.insts[i - 1] as int]));
                    }
                }
                if at < block.insts.len() {
                    assert(more.last() == block.insts.last());
                }
            } else {
                lemma_shape_kept(s, t, b);
            }
        }
        assert(shape(t) =~= shape(s));
    }
}

} // verus!
