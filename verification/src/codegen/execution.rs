//! A machine that runs lowered code, and what lowering adds to code.
//!
//! The machine runs the instructions on integers, truth values, floats, ranges and strings one at a
//! time, from block to block and from function to function. Every string that the runtime makes is
//! storage of its own until it is released; what has been released cannot be read or released
//! again. Lowering goes on from what it has emitted: it adds to the block it stands in and opens
//! blocks, and leaves the other blocks as they run.

use vstd::prelude::*;
use vstd::utf8::encode_utf8;

use super::builder::{
    Lowering, block_appended, emitted, entered, next_block, next_value, positioned,
};
use super::ir::{
    Callee, Cast, FloatOp, FloatPredicate, InstView, IntOp, IrFunctionView, IrType, Op, RuntimeFn,
    Value,
};
use super::meaning::{compared, int_result, truth, wrapped};
use crate::runtime::string::{MAX_STR_HEAP_LEN, cstr_content, decimal_bytes, ordered};

verus! {

// ---------------------------------------------------------------------------
// The machine
// ---------------------------------------------------------------------------

/// The strings that have storage, each by its number, and the number of the next one that is made.
#[verifier::ext_equal]
pub struct Strings {
    pub kept: Map<int, Seq<u8>>,
    pub next: int,
}

/// The content of a string, unless its storage has been released. Number zero is the empty string,
/// which has none.
pub open spec fn text_of(strings: Strings, string: int) -> Option<Seq<u8>> {
    if string == 0 {
        Some(Seq::empty())
    } else if strings.kept.contains_key(string) {
        Some(strings.kept[string])
    } else {
        None
    }
}

/// A string more, with storage of its own; nothing, where it is too long to be one.
pub open spec fn string_made(strings: Strings, text: Option<Seq<u8>>) -> Option<Strings> {
    match text {
        Some(content) => if content.len() <= MAX_STR_HEAP_LEN {
            Some(
                Strings {
                    kept: strings.kept.insert(strings.next, content),
                    next: strings.next + 1,
                },
            )
        } else {
            None
        },
        None => None,
    }
}

/// The storage of a string released; nothing, where it has been released before.
pub open spec fn string_released(strings: Strings, string: int) -> Option<Strings> {
    if string == 0 {
        Some(strings)
    } else if strings.kept.contains_key(string) {
        Some(Strings { kept: strings.kept.remove(string), ..strings })
    } else {
        None
    }
}

/// How floats are computed with. A float goes by a number that stands for it, and nothing is said
/// of which: what is proved of programs holds for every arithmetic. An operation on two floats takes
/// the left operand first. `order` is negative, zero or positive, and there is none with what is not
/// a number.
pub struct Floats {
    pub literal: spec_fn(Seq<char>) -> int,
    pub from_int: spec_fn(int) -> int,
    pub from_truth: spec_fn(int) -> int,
    pub to_int: spec_fn(int) -> int,
    pub opposite: spec_fn(int) -> int,
    pub sum: spec_fn(int, int) -> int,
    pub difference: spec_fn(int, int) -> int,
    pub product: spec_fn(int, int) -> int,
    pub quotient: spec_fn(int, int) -> int,
    pub power: spec_fn(int, int) -> int,
    pub order: spec_fn(int, int) -> Option<int>,
    pub digits: spec_fn(int) -> Seq<u8>,
}

/// Code that can be run: the instructions, the ones that each block runs, and the functions.
pub struct Code {
    pub insts: Seq<InstView>,
    pub blocks: Seq<Seq<usize>>,
    pub functions: Seq<IrFunctionView>,
    pub texts: Seq<Seq<char>>,
    pub floats: Seq<Seq<char>>,
}

/// Making a slot, or emptying one for a string.
pub open spec fn is_slot(inst: InstView) -> bool {
    inst is Op && (inst->Op_0 is Alloca || (inst->Op_0 is Store && inst->Op_0->Store_1
        == Value::Zero(IrType::Str)))
}

/// The instructions of a block that run. A stack slot is there from the start of its function, and a
/// slot for a string starts out as the empty string, so neither takes a step.
pub open spec fn shown(insts: Seq<InstView>, ids: Seq<usize>) -> Seq<usize>
    decreases ids.len(),
{
    if ids.len() == 0 {
        Seq::empty()
    } else {
        let before = shown(insts, ids.drop_last());
        if is_slot(insts[ids.last() as int]) {
            before
        } else {
            before.push(ids.last())
        }
    }
}

/// The instructions that a block of a lowering runs so far.
pub open spec fn list(s: Lowering, b: int) -> Seq<usize> {
    shown(s.insts, s.blocks[b].insts)
}

/// The code that a lowering has arrived at.
pub open spec fn code_of(s: Lowering) -> Code {
    Code {
        insts: s.insts,
        blocks: Seq::new(s.blocks.len(), |b: int| list(s, b)),
        functions: s.functions,
        texts: s.texts,
        floats: s.floats,
    }
}

/// A call that has not returned: where it stands, and what its function knew.
pub struct Caller {
    pub block: usize,
    pub at: int,
    pub came_from: usize,
    pub yielded: Map<usize, int>,
    pub ranges: Map<usize, Seq<int>>,
    pub slots: Map<Value, int>,
    pub cells: Map<(Value, int), int>,
    pub params: Seq<int>,
}

/// A machine that runs code: where it is, the block it came from, what the instructions of the
/// function have yielded, what its slots, the elements of its arrays and its parameters hold, what
/// the globals hold, the calls that led here, the strings that have storage, how floats are computed
/// with, and the digits of the constants. A value that is a string or a float is its number.
pub struct Machine {
    pub block: usize,
    pub at: int,
    pub came_from: usize,
    pub yielded: Map<usize, int>,
    pub ranges: Map<usize, Seq<int>>,
    pub slots: Map<Value, int>,
    pub cells: Map<(Value, int), int>,
    pub params: Seq<int>,
    pub memory: Map<Value, int>,
    pub callers: Seq<Caller>,
    pub strings: Strings,
    pub floats: Floats,
    pub constants: Seq<Seq<char>>,
}

/// What a value is at this point.
pub open spec fn operand(m: Machine, value: Value) -> Option<int> {
    match value {
        Value::Bool(b) => Some(truth(b)),
        Value::Int(n) => Some(n as int),
        Value::I32(n) => Some(n as int),
        Value::Text(index) => Some(index as int),
        Value::Float(index) => if index < m.constants.len() {
            Some((m.floats.literal)(m.constants[index as int]))
        } else {
            None
        },
        Value::Inst(id) => if m.yielded.contains_key(id) {
            Some(m.yielded[id])
        } else {
            None
        },
        Value::Param(index) => if index < m.params.len() {
            Some(m.params[index as int])
        } else {
            None
        },
        _ => None,
    }
}

/// The fields of a range value at this point.
pub open spec fn fields(m: Machine, value: Value) -> Option<Seq<int>> {
    match value {
        Value::Undef(_) => Some(seq![0, 0, 0, 0]),
        Value::Inst(id) => if m.ranges.contains_key(id) {
            Some(m.ranges[id])
        } else {
            None
        },
        _ => None,
    }
}

/// What several values are, from the one at `from` on.
pub open spec fn operands(m: Machine, values: Seq<Value>, from: int) -> Option<Seq<int>>
    decreases values.len() - from,
{
    if from < 0 || from >= values.len() {
        Some(Seq::empty())
    } else {
        match (operand(m, values[from]), operands(m, values, from + 1)) {
            (Some(x), Some(rest)) => Some(seq![x] + rest),
            _ => None,
        }
    }
}

/// What the slot or the global at an address holds.
pub open spec fn cell(m: Machine, place: Value) -> Option<int> {
    if place is Global {
        if m.memory.contains_key(place) {
            Some(m.memory[place])
        } else {
            None
        }
    } else if m.slots.contains_key(place) {
        Some(m.slots[place])
    } else {
        None
    }
}

/// Whether a division is one that can be made.
pub open spec fn divides(a: int, b: int) -> bool {
    b != 0 && !(a == i64::MIN && b == -1)
}

pub open spec fn applied(o: IntOp, a: int, b: int) -> Option<int> {
    if (o == IntOp::SignedDiv || o == IntOp::SignedRem) && !divides(a, b) {
        None
    } else {
        Some(int_result(o, a, b))
    }
}

/// What an operation on two floats comes to.
pub open spec fn floats_applied(floats: Floats, o: FloatOp, a: int, b: int) -> int {
    match o {
        FloatOp::Add => (floats.sum)(a, b),
        FloatOp::Sub => (floats.difference)(a, b),
        FloatOp::Mul => (floats.product)(a, b),
        FloatOp::Div => (floats.quotient)(a, b),
    }
}

/// Whether two floats compare so. None of the relations holds where there is no order.
pub open spec fn floats_compared(floats: Floats, predicate: FloatPredicate, a: int, b: int) -> int {
    match (floats.order)(a, b) {
        Some(order) => truth(
            match predicate {
                FloatPredicate::Oeq => order == 0,
                FloatPredicate::One => order != 0,
                FloatPredicate::Olt => order < 0,
                FloatPredicate::Ogt => order > 0,
                FloatPredicate::Ole => order <= 0,
                FloatPredicate::Oge => order >= 0,
            },
        ),
        None => 0,
    }
}

/// The instruction `id` has yielded a number, and the next one comes.
pub open spec fn yielding(m: Machine, id: usize, result: int) -> Machine {
    Machine { at: m.at + 1, yielded: m.yielded.insert(id, result), ..m }
}

/// The same, where nothing comes of it.
pub open spec fn yielding_maybe(m: Machine, id: usize, result: Option<int>) -> Option<Machine> {
    match result {
        Some(x) => Some(yielding(m, id, x)),
        None => None,
    }
}

pub open spec fn jumped(m: Machine, block: usize) -> Machine {
    Machine { block, at: 0, came_from: m.block, ..m }
}

/// The slot or the global at an address holds a number, and the next instruction comes.
pub open spec fn storing(m: Machine, place: Value, x: int) -> Machine {
    if place is Global {
        Machine { at: m.at + 1, memory: m.memory.insert(place, x), ..m }
    } else {
        Machine { at: m.at + 1, slots: m.slots.insert(place, x), ..m }
    }
}

/// The element of an array of strings that an address is, if it is one.
pub open spec fn element(code: Code, place: Value) -> Option<(Value, int)> {
    match place {
        Value::Inst(id) => if id < code.insts.len() {
            match code.insts[id as int] {
                InstView::Op(Op::ElementPtr(IrType::Str, base, Value::Int(index))) => Some(
                    (base, index as int),
                ),
                _ => None,
            }
        } else {
            None
        },
        _ => None,
    }
}

/// The content of a constant: its bytes up to the first that is zero.
pub open spec fn content_of(text: Seq<char>) -> Seq<u8> {
    cstr_content(encode_utf8(text).push(0))
}

/// The string at an address. What has not been written to is the empty string.
pub open spec fn string_at(code: Code, m: Machine, place: Value) -> int {
    match element(code, place) {
        Some(address) => if m.cells.contains_key(address) {
            m.cells[address]
        } else {
            0
        },
        None => match cell(m, place) {
            Some(string) => string,
            None => 0,
        },
    }
}

/// The content of the string at an address.
pub open spec fn text_at(code: Code, m: Machine, place: Value) -> Option<Seq<u8>> {
    text_of(m.strings, string_at(code, m, place))
}

/// The contents of the first `count` strings of an array, one behind the other.
pub open spec fn gathered(m: Machine, base: Value, count: int) -> Option<Seq<u8>>
    decreases count,
{
    if count <= 0 {
        Some(Seq::empty())
    } else {
        let address = (base, count - 1);
        let string = if m.cells.contains_key(address) {
            m.cells[address]
        } else {
            0
        };
        match (gathered(m, base, count - 1), text_of(m.strings, string)) {
            (Some(before), Some(text)) => Some(before + text),
            _ => None,
        }
    }
}

/// A string is made.
pub open spec fn making(m: Machine, id: usize, text: Option<Seq<u8>>) -> Option<Machine> {
    match string_made(m.strings, text) {
        Some(strings) => Some(Machine { strings, ..yielding(m, id, m.strings.next) }),
        None => None,
    }
}

/// An address holds another string.
pub open spec fn putting(code: Code, m: Machine, place: Value, string: int) -> Machine {
    match element(code, place) {
        Some(address) => Machine { at: m.at + 1, cells: m.cells.insert(address, string), ..m },
        None => storing(m, place, string),
    }
}

/// The string at an address is released, and the empty string left there.
pub open spec fn releasing(code: Code, m: Machine, place: Value) -> Option<Machine> {
    match string_released(m.strings, string_at(code, m, place)) {
        Some(strings) => Some(putting(code, Machine { strings, ..m }, place, 0)),
        None => None,
    }
}

/// What a call of the runtime makes of the machine; nothing, where the machine cannot run it.
pub open spec fn runtime_performed(
    code: Code,
    m: Machine,
    id: usize,
    function: RuntimeFn,
    args: Seq<Value>,
) -> Option<Machine> {
    match function {
        RuntimeFn::StrFromCstr => match operand(m, args[0]) {
            Some(index) => if 0 <= index < code.texts.len() {
                making(m, id, Some(content_of(code.texts[index])))
            } else {
                None
            },
            None => None,
        },
        RuntimeFn::StrFromInt => match operand(m, args[0]) {
            Some(x) => making(m, id, Some(decimal_bytes(x))),
            None => None,
        },
        RuntimeFn::StrFromFloat => match operand(m, args[0]) {
            Some(x) => making(m, id, Some((m.floats.digits)(x))),
            None => None,
        },
        RuntimeFn::Pow => match (operand(m, args[0]), operand(m, args[1])) {
            (Some(x), Some(y)) => Some(yielding(m, id, (m.floats.power)(x, y))),
            _ => None,
        },
        RuntimeFn::StrConcatN => match operand(m, args[1]) {
            Some(count) => making(m, id, gathered(m, args[0], count)),
            None => None,
        },
        RuntimeFn::StrEq => match (text_at(code, m, args[0]), text_at(code, m, args[1])) {
            (Some(a), Some(b)) => Some(yielding(m, id, truth(a == b))),
            _ => None,
        },
        RuntimeFn::StrCmp => match (text_at(code, m, args[0]), text_at(code, m, args[1])) {
            (Some(a), Some(b)) => Some(yielding(m, id, ordered(a, b, 0))),
            _ => None,
        },
        RuntimeFn::StrFree => releasing(code, m, args[0]),
        RuntimeFn::MemInfo => Some(Machine { at: m.at + 1, ..m }),
        _ => None,
    }
}

/// A function is begun, and the call waits.
pub open spec fn calling(m: Machine, entry: usize, args: Seq<int>) -> Machine {
    Machine {
        block: entry,
        at: 0,
        came_from: 0,
        yielded: Map::empty(),
        ranges: Map::empty(),
        slots: Map::empty(),
        cells: Map::empty(),
        params: args,
        memory: m.memory,
        strings: m.strings,
        floats: m.floats,
        constants: m.constants,
        callers: m.callers.push(
            Caller {
                block: m.block,
                at: m.at,
                came_from: m.came_from,
                yielded: m.yielded,
                ranges: m.ranges,
                slots: m.slots,
                cells: m.cells,
                params: m.params,
            },
        ),
    }
}

/// The function that called goes on behind its call, which has yielded `result`.
pub open spec fn returned(code: Code, m: Machine, result: Option<int>) -> Option<Machine> {
    if m.callers.len() == 0 {
        None
    } else {
        let caller = m.callers.last();
        let id = code.blocks[caller.block as int][caller.at];
        Some(
            Machine {
                block: caller.block,
                at: caller.at + 1,
                came_from: caller.came_from,
                yielded: match result {
                    Some(x) => caller.yielded.insert(id, x),
                    None => caller.yielded,
                },
                ranges: caller.ranges,
                slots: caller.slots,
                cells: caller.cells,
                params: caller.params,
                memory: m.memory,
                callers: m.callers.drop_last(),
                strings: m.strings,
                floats: m.floats,
                constants: m.constants,
            },
        )
    }
}

/// The value that belongs to a block, among those from the one at `from` on.
pub open spec fn picked(incomings: Seq<(Value, usize)>, block: usize, from: int) -> Option<Value>
    decreases incomings.len() - from,
{
    if from < 0 || from >= incomings.len() {
        None
    } else if incomings[from].1 == block {
        Some(incomings[from].0)
    } else {
        picked(incomings, block, from + 1)
    }
}

/// What an instruction with fixed operands makes of the machine; nothing, where the machine cannot
/// run it.
pub open spec fn op_performed(code: Code, m: Machine, id: usize, inst: Op) -> Option<Machine> {
    match inst {
        Op::IntBinary(o, a, b) => match (operand(m, a), operand(m, b)) {
            (Some(x), Some(y)) => yielding_maybe(m, id, applied(o, x, y)),
            _ => None,
        },
        Op::IntCompare(predicate, a, b) => match (operand(m, a), operand(m, b)) {
            (Some(x), Some(y)) => Some(yielding(m, id, compared(predicate, x, y))),
            _ => None,
        },
        Op::Select(c, a, b) => match operand(m, c) {
            Some(x) => yielding_maybe(
                m,
                id,
                if x != 0 {
                    operand(m, a)
                } else {
                    operand(m, b)
                },
            ),
            None => None,
        },
        Op::IntNeg(a) => match operand(m, a) {
            Some(x) => Some(yielding(m, id, wrapped(-x))),
            None => None,
        },
        Op::Not(a) => match operand(m, a) {
            Some(x) => Some(yielding(m, id, truth(x == 0))),
            None => None,
        },
        Op::FloatBinary(o, a, b) => match (operand(m, a), operand(m, b)) {
            (Some(x), Some(y)) => Some(yielding(m, id, floats_applied(m.floats, o, x, y))),
            _ => None,
        },
        Op::FloatCompare(predicate, a, b) => match (operand(m, a), operand(m, b)) {
            (Some(x), Some(y)) => Some(
                yielding(m, id, floats_compared(m.floats, predicate, x, y)),
            ),
            _ => None,
        },
        Op::FloatNeg(a) => match operand(m, a) {
            Some(x) => Some(yielding(m, id, (m.floats.opposite)(x))),
            None => None,
        },
        Op::Cast(cast, a) => match operand(m, a) {
            Some(x) => Some(
                yielding(
                    m,
                    id,
                    match cast {
                        Cast::ZeroExtend => x,
                        Cast::SignedToFloat => (m.floats.from_int)(x),
                        Cast::UnsignedToFloat => (m.floats.from_truth)(x),
                        Cast::FloatToSigned => (m.floats.to_int)(x),
                    },
                ),
            ),
            None => None,
        },
        Op::InsertField(a, b, field) => match (fields(m, a), operand(m, b)) {
            (Some(range), Some(x)) => if field < range.len() {
                Some(
                    Machine {
                        at: m.at + 1,
                        ranges: m.ranges.insert(id, range.update(field as int, x)),
                        ..m
                    },
                )
            } else {
                None
            },
            _ => None,
        },
        Op::ExtractField(a, field) => match fields(m, a) {
            Some(range) => if field < range.len() {
                Some(yielding(m, id, range[field as int]))
            } else {
                None
            },
            None => None,
        },
        Op::Load(_, place) => yielding_maybe(m, id, cell(m, place)),
        Op::Store(place, a) => match operand(m, a) {
            Some(x) => Some(putting(code, m, place, x)),
            None => None,
        },
        Op::ElementPtr(IrType::Str, _, Value::Int(_)) => Some(Machine { at: m.at + 1, ..m }),
        Op::Branch(block) => Some(jumped(m, block)),
        Op::CondBranch(c, yes, no) => match operand(m, c) {
            Some(x) => Some(
                jumped(
                    m,
                    if x != 0 {
                        yes
                    } else {
                        no
                    },
                ),
            ),
            None => None,
        },
        Op::Return(a) => match operand(m, a) {
            Some(x) => returned(code, m, Some(x)),
            None => None,
        },
        Op::ReturnVoid => returned(code, m, None),
        _ => None,
    }
}

/// What an instruction makes of the machine; nothing, where the machine cannot run it.
pub open spec fn performed(code: Code, m: Machine, id: usize, inst: InstView) -> Option<Machine> {
    match inst {
        InstView::Op(o) => op_performed(code, m, id, o),
        InstView::Call(Callee::Function(function), args) => match operands(m, args, 0) {
            Some(numbers) => if function < code.functions.len() {
                match code.functions[function as int].entry {
                    Some(entry) => Some(calling(m, entry, numbers)),
                    None => None,
                }
            } else {
                None
            },
            None => None,
        },
        InstView::Call(Callee::Runtime(function), args) => runtime_performed(
            code,
            m,
            id,
            function,
            args,
        ),
        InstView::Phi(_, incomings) => match picked(incomings, m.came_from, 0) {
            Some(value) => yielding_maybe(m, id, operand(m, value)),
            None => None,
        },
        _ => None,
    }
}

/// One step.
pub open spec fn stepped(code: Code, m: Machine) -> Option<Machine> {
    if m.block >= code.blocks.len() || m.at < 0 || m.at >= code.blocks[m.block as int].len() {
        None
    } else {
        let id = code.blocks[m.block as int][m.at];
        if id >= code.insts.len() {
            None
        } else {
            performed(code, m, id, code.insts[id as int])
        }
    }
}

/// Some number of steps.
pub open spec fn run(code: Code, m: Machine, steps: nat) -> Option<Machine>
    decreases steps,
{
    if steps == 0 {
        Some(m)
    } else {
        match stepped(code, m) {
            None => None,
            Some(next) => run(code, next, (steps - 1) as nat),
        }
    }
}

/// Some number of steps take one machine to another.
pub open spec fn reaches(code: Code, a: Machine, b: Machine) -> bool {
    exists|steps: nat| run(code, a, steps) == Some(b)
}

pub proof fn lemma_run_on(code: Code, a: Machine, b: Machine, c: Machine, first: nat, second: nat)
    requires
        run(code, a, first) == Some(b),
        run(code, b, second) == Some(c),
    ensures
        run(code, a, first + second) == Some(c),
    decreases first,
{
    if first > 0 {
        lemma_run_on(code, stepped(code, a)->0, b, c, (first - 1) as nat, second);
    }
}

pub proof fn lemma_run_step(code: Code, a: Machine, b: Machine, c: Machine, first: nat)
    requires
        run(code, a, first) == Some(b),
        stepped(code, b) == Some(c),
    ensures
        run(code, a, first + 1) == Some(c),
{
    assert(run(code, c, 0) == Some(c));
    assert(run(code, b, 1) == Some(c));
    lemma_run_on(code, a, b, c, first, 1);
}

// ---------------------------------------------------------------------------
// What lowering adds
// ---------------------------------------------------------------------------

/// `a` is how `b` begins.
pub open spec fn begins<T>(a: Seq<T>, b: Seq<T>) -> bool {
    &&& a.len() <= b.len()
    &&& forall|k: int| 0 <= k < a.len() ==> #[trigger] b[k] == a[k]
}

/// Every instruction that a block runs is there.
pub open spec fn tidy(s: Lowering) -> bool {
    forall|b: int, k: int|
        0 <= b < s.blocks.len() && 0 <= k < s.blocks[b].insts.len()
            ==> #[trigger] s.blocks[b].insts[k] < s.insts.len()
}

/// A lowering that stands in a block.
pub open spec fn ready(s: Lowering) -> bool {
    tidy(s) && s.current < s.blocks.len()
}

/// Whether machine words can count what has been emitted.
pub open spec fn fits(s: Lowering) -> bool {
    s.insts.len() <= usize::MAX && s.blocks.len() <= usize::MAX
}

/// A lowering has gone on from `s`: it has added to the block it stood in and opened blocks, and
/// left what the other blocks run as it was.
pub open spec fn built_on(s: Lowering, t: Lowering) -> bool {
    &&& ready(s)
    &&& ready(t)
    &&& s.blocks.len() <= t.blocks.len()
    &&& t.current == s.current || t.current >= s.blocks.len()
    &&& begins(s.insts, t.insts)
    &&& begins(s.texts, t.texts)
    &&& begins(s.floats, t.floats)
    &&& begins(list(s, s.current as int), list(t, s.current as int))
    &&& forall|b: int|
        0 <= b < s.blocks.len() && b != s.current ==> #[trigger] list(t, b) == list(s, b)
}

/// The same names are known.
pub open spec fn same_scope(s: Lowering, t: Lowering) -> bool {
    &&& t.frames == s.frames
    &&& t.global_slots == s.global_slots
    &&& t.in_function == s.in_function
    &&& t.callables == s.callables
    &&& t.functions == s.functions
}

/// The same names are known, apart from new ones in the innermost scope.
pub open spec fn more_scope(s: Lowering, t: Lowering) -> bool {
    &&& t.frames.len() == s.frames.len()
    &&& s.frames.len() > 0
    &&& t.frames.drop_last() == s.frames.drop_last()
    &&& t.global_slots == s.global_slots
    &&& t.in_function == s.in_function
    &&& t.callables == s.callables
    &&& t.functions == s.functions
}

/// The code goes on from what a lowering has emitted so far.
pub open spec fn covers(code: Code, s: Lowering) -> bool {
    &&& begins(s.insts, code.insts)
    &&& code.insts.len() <= usize::MAX
    &&& begins(s.texts, code.texts)
    &&& begins(s.floats, code.floats)
    &&& code.texts.len() <= usize::MAX
    &&& code.floats.len() <= usize::MAX
    &&& s.blocks.len() <= code.blocks.len() <= usize::MAX
    &&& forall|b: int|
        0 <= b < s.blocks.len() ==> begins(#[trigger] list(s, b), code.blocks[b])
}

/// A machine that has run what a lowering has emitted into its block.
pub open spec fn caught_up(s: Lowering, m: Machine) -> bool {
    &&& m.block == s.current
    &&& s.current < s.blocks.len()
    &&& m.at == list(s, s.current as int).len()
}

proof fn lemma_shown_kept(a: Seq<InstView>, b: Seq<InstView>, ids: Seq<usize>)
    requires
        begins(a, b),
        forall|k: int| 0 <= k < ids.len() ==> #[trigger] ids[k] < a.len(),
    ensures
        shown(b, ids) == shown(a, ids),
    decreases ids.len(),
{
    if ids.len() > 0 {
        lemma_shown_kept(a, b, ids.drop_last());
    }
}

proof fn lemma_shown_pushed(insts: Seq<InstView>, ids: Seq<usize>, id: usize)
    ensures
        shown(insts, ids.push(id)) == if is_slot(insts[id as int]) {
            shown(insts, ids)
        } else {
            shown(insts, ids).push(id)
        },
{
    assert(ids.push(id).drop_last() =~= ids);
}

proof fn lemma_shown_inserted(insts: Seq<InstView>, ids: Seq<usize>, at: int, id: usize)
    requires
        0 <= at <= ids.len(),
        is_slot(insts[id as int]),
    ensures
        shown(insts, ids.insert(at, id)) == shown(insts, ids),
    decreases ids.len(),
{
    let more = ids.insert(at, id);
    if at == ids.len() {
        assert(more =~= ids.push(id));
        lemma_shown_pushed(insts, ids, id);
    } else {
        assert(more.drop_last() =~= ids.drop_last().insert(at, id));
        assert(more.last() == ids.last());
        lemma_shown_inserted(insts, ids.drop_last(), at, id);
    }
}

pub proof fn lemma_built_further(s: Lowering, t: Lowering, u: Lowering)
    requires
        built_on(s, t),
        built_on(t, u),
    ensures
        built_on(s, u),
{
    assert forall|b: int| 0 <= b < s.blocks.len() && b != s.current implies #[trigger] list(u, b)
        == list(s, b) by {
        assert(list(t, b) == list(s, b));
    }
    if t.current != s.current {
        assert(list(u, s.current as int) == list(t, s.current as int));
    }
}

pub proof fn lemma_covered(code: Code, s: Lowering, t: Lowering)
    requires
        built_on(s, t),
        covers(code, t),
    ensures
        covers(code, s),
{
    assert forall|b: int| 0 <= b < s.blocks.len() implies begins(
        #[trigger] list(s, b),
        code.blocks[b],
    ) by {
        assert(begins(list(t, b), code.blocks[b]));
        if b != s.current {
            assert(list(t, b) == list(s, b));
        }
    }
}

/// Where a lowering stands and which names it knows do not matter to what it has emitted.
pub proof fn lemma_covers_moved(code: Code, s: Lowering, t: Lowering)
    requires
        covers(code, t),
        s.insts == t.insts,
        s.blocks == t.blocks,
        begins(s.texts, t.texts),
        begins(s.floats, t.floats),
    ensures
        covers(code, s),
{
    assert forall|b: int| 0 <= b < s.blocks.len() implies begins(
        #[trigger] list(s, b),
        code.blocks[b],
    ) by {
        assert(list(s, b) == list(t, b));
    }
}

/// Nor to what it builds on.
pub proof fn lemma_built_moved(s: Lowering, t: Lowering)
    requires
        ready(s),
        s.insts == t.insts,
        s.blocks == t.blocks,
        s.current == t.current,
        begins(s.texts, t.texts),
        begins(s.floats, t.floats),
    ensures
        built_on(s, t),
{
    assert forall|b: int| 0 <= b < s.blocks.len() implies #[trigger] list(t, b) == list(s, b) by {}
}

pub proof fn lemma_emitted_on(s: Lowering, inst: InstView)
    requires
        ready(s),
        s.insts.len() < usize::MAX,
    ensures
        built_on(s, emitted(s, inst)),
        same_scope(s, emitted(s, inst)),
        emitted(s, inst).current == s.current,
        emitted(s, inst).insts == s.insts.push(inst),
        emitted(s, inst).texts == s.texts,
        emitted(s, inst).floats == s.floats,
        emitted(s, inst).blocks.len() == s.blocks.len(),
        list(emitted(s, inst), s.current as int) == if is_slot(inst) {
            list(s, s.current as int)
        } else {
            list(s, s.current as int).push(s.insts.len() as usize)
        },
{
    reveal(emitted);
    let t = emitted(s, inst);
    let n = s.insts.len() as usize;
    let c = s.current as int;
    assert(t.insts[n as int] == inst);
    assert forall|b: int, k: int|
        0 <= b < t.blocks.len() && 0 <= k < t.blocks[b].insts.len() implies
            #[trigger] t.blocks[b].insts[k] < t.insts.len() by {
        if b == c && k == s.blocks[c].insts.len() {
        } else {
            assert(t.blocks[b].insts[k] == s.blocks[b].insts[k]);
        }
    }
    assert forall|b: int| 0 <= b < s.blocks.len() && b != c implies #[trigger] list(t, b) == list(
        s,
        b,
    ) by {
        assert forall|k: int| 0 <= k < s.blocks[b].insts.len() implies
            #[trigger] s.blocks[b].insts[k] < s.insts.len() by {}
        lemma_shown_kept(s.insts, t.insts, s.blocks[b].insts);
    }
    assert forall|k: int| 0 <= k < s.blocks[c].insts.len() implies #[trigger] s.blocks[c].insts[k]
        < s.insts.len() by {}
    lemma_shown_kept(s.insts, t.insts, s.blocks[c].insts);
    lemma_shown_pushed(t.insts, s.blocks[c].insts, n);
}

/// A slot made where the function starts changes nothing that runs.
pub proof fn lemma_entered_on(s: Lowering, at: usize, o: Op)
    requires
        ready(s),
        s.insts.len() < usize::MAX,
        is_slot(InstView::Op(o)),
    ensures
        built_on(s, entered(s, at, o)),
        same_scope(s, entered(s, at, o)),
        entered(s, at, o).current == s.current,
        entered(s, at, o).insts == s.insts.push(InstView::Op(o)),
        entered(s, at, o).blocks.len() == s.blocks.len(),
        entered(s, at, o).texts == s.texts,
        entered(s, at, o).floats == s.floats,
        forall|b: int|
            0 <= b < s.blocks.len() ==> #[trigger] list(entered(s, at, o), b)
                == list(s, b),
{
    reveal(entered);
    let t = entered(s, at, o);
    let n = s.insts.len() as usize;
    assert(is_slot(t.insts[n as int]));
    assert forall|b: int| 0 <= b < s.blocks.len() implies #[trigger] list(t, b) == list(s, b) by {
        let ids = s.blocks[b].insts;
        assert forall|k: int| 0 <= k < ids.len() implies #[trigger] ids[k] < s.insts.len() by {
            assert(s.blocks[b].insts[k] < s.insts.len());
        }
        lemma_shown_kept(s.insts, t.insts, ids);
        if t.blocks[b].insts != ids {
            lemma_shown_inserted(t.insts, ids, at as int, n);
        }
    }
    assert forall|b: int, k: int|
        0 <= b < t.blocks.len() && 0 <= k < t.blocks[b].insts.len() implies
            #[trigger] t.blocks[b].insts[k] < t.insts.len() by {
        let ids = s.blocks[b].insts;
        if t.blocks[b].insts != ids {
            if k < at {
                assert(t.blocks[b].insts[k] == s.blocks[b].insts[k]);
            } else if k > at {
                assert(t.blocks[b].insts[k] == s.blocks[b].insts[k - 1]);
            }
        } else {
            assert(t.blocks[b].insts[k] == s.blocks[b].insts[k]);
        }
    }
}

pub proof fn lemma_appended_on(s: Lowering, label: Seq<char>)
    requires
        ready(s),
    ensures
        built_on(s, block_appended(s, label)),
        same_scope(s, block_appended(s, label)),
        block_appended(s, label).current == s.current,
        block_appended(s, label).insts == s.insts,
        block_appended(s, label).texts == s.texts,
        block_appended(s, label).floats == s.floats,
        block_appended(s, label).blocks.len() == s.blocks.len() + 1,
        list(block_appended(s, label), s.blocks.len() as int) == Seq::<usize>::empty(),
        forall|b: int|
            0 <= b < s.blocks.len() ==> #[trigger] list(block_appended(s, label), b) == list(s, b),
        s.blocks.len() <= usize::MAX ==> next_block(s) == s.blocks.len(),
{
    reveal(block_appended);
    reveal(next_block);
    let t = block_appended(s, label);
    assert forall|b: int, k: int|
        0 <= b < t.blocks.len() && 0 <= k < t.blocks[b].insts.len() implies
            #[trigger] t.blocks[b].insts[k] < t.insts.len() by {
        assert(t.blocks[b].insts[k] == s.blocks[b].insts[k]);
    }
}

pub proof fn lemma_positioned_at(s: Lowering, block: usize)
    ensures
        positioned(s, block) == (Lowering { current: block, ..s }),
        forall|b: int| #[trigger] list(positioned(s, block), b) == list(s, b),
{
    reveal(positioned);
}

/// An instruction more opens no block.
pub proof fn lemma_count_kept(s: Lowering, inst: InstView)
    ensures
        emitted(s, inst).blocks.len() == s.blocks.len(),
        emitted(s, inst).insts.len() == s.insts.len() + 1,
        emitted(s, inst).texts == s.texts,
        emitted(s, inst).floats == s.floats,
{
    reveal(emitted);
}

/// The machine comes to the instruction that is emitted next.
pub proof fn lemma_next(code: Code, s: Lowering, inst: InstView, m: Machine)
    requires
        ready(s),
        caught_up(s, m),
        !is_slot(inst),
        covers(code, emitted(s, inst)),
    ensures
        stepped(code, m) == performed(code, m, s.insts.len() as usize, inst),
        next_value(s) == Value::Inst(s.insts.len() as usize),
        s.insts.len() < code.insts.len(),
        code.blocks[m.block as int][m.at] == s.insts.len(),
{
    lemma_count_kept(s, inst);
    lemma_emitted_on(s, inst);
    reveal(next_value);
    let t = emitted(s, inst);
    let n = s.insts.len() as int;
    assert(t.insts[n] == inst);
    assert(code.insts[n] == t.insts[n]);
    let b = s.current as int;
    assert(begins(list(t, b), code.blocks[b]));
    assert(code.blocks[b][m.at] == list(t, b)[m.at]);
}

/// A value that has been yielded.
pub open spec fn in_bounds(s: Lowering, value: Value) -> bool {
    value matches Value::Inst(id) ==> id < s.insts.len()
}

/// What was yielded before the code of `s` ended is as it was, and so are the parameters and the
/// calls that led here.
pub open spec fn same_before(s: Lowering, m: Machine, after: Machine) -> bool {
    &&& after.params == m.params
    &&& after.callers == m.callers
    &&& after.floats == m.floats
    &&& after.constants == m.constants
    &&& forall|id: usize|
        id < s.insts.len() && #[trigger] m.yielded.contains_key(id) ==> {
            &&& after.yielded.contains_key(id)
            &&& after.yielded[id] == m.yielded[id]
        }
    &&& forall|id: usize|
        id < s.insts.len() && #[trigger] m.ranges.contains_key(id) ==> {
            &&& after.ranges.contains_key(id)
            &&& after.ranges[id] == m.ranges[id]
        }
}

pub proof fn lemma_operand_kept(s: Lowering, m: Machine, after: Machine, value: Value)
    requires
        same_before(s, m, after),
        in_bounds(s, value),
        operand(m, value) is Some,
    ensures
        operand(after, value) == operand(m, value),
{
}

/// What is kept over a stretch is kept over a longer one.
pub proof fn lemma_same_further(s: Lowering, t: Lowering, a: Machine, b: Machine, c: Machine)
    requires
        s.insts.len() <= t.insts.len(),
        same_before(s, a, b),
        same_before(t, b, c),
    ensures
        same_before(s, a, c),
{
}

/// An instruction that yields a number.
pub proof fn lemma_yields(code: Code, s: Lowering, inst: InstView, m: Machine, result: int)
    requires
        ready(s),
        caught_up(s, m),
        !is_slot(inst),
        covers(code, emitted(s, inst)),
        performed(code, m, s.insts.len() as usize, inst) == Some(
            yielding(m, s.insts.len() as usize, result),
        ),
    ensures
        ({
            let after = yielding(m, s.insts.len() as usize, result);
            &&& stepped(code, m) == Some(after)
            &&& caught_up(emitted(s, inst), after)
            &&& operand(after, next_value(s)) == Some(result)
            &&& in_bounds(emitted(s, inst), next_value(s))
            &&& same_before(s, m, after)
        }),
{
    lemma_next(code, s, inst, m);
    lemma_emitted_on(s, inst);
}

} // verus!
