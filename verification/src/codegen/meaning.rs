//! What emitted arithmetic computes.
//!
//! Instructions on integers and truth values are given the values they yield, on top of values
//! known from before. The shapes that ranges and indices are made of are then shown to compute what
//! they stand for.

use vstd::prelude::*;

use super::builder::{Lowering, Program, called, emitted, entered, next_value, op};
use super::emit::{
    RangeParts, default_step, member_test, normalize_index, out_of_bounds, range_continue,
};
use super::ir::{Callee, Cast, InstView, IntOp, IntPredicate, IrType, Op, RuntimeFn, Value};
use super::lowering::{
    StrPart, build_concat, free_str_slot, parts_freed, parts_stored, str_concat_code, str_parts,
    str_values,
};
use crate::parser::ast::{BinOp, ExprId, NodeView, PinpType, RangeKind};

verus! {

/// The 64-bit integer that a mathematical one is kept as.
pub open spec fn wrapped(x: int) -> int {
    (x + 0x8000_0000_0000_0000) % 0x1_0000_0000_0000_0000 - 0x8000_0000_0000_0000
}

pub open spec fn magnitude(x: int) -> int {
    if x < 0 {
        -x
    } else {
        x
    }
}

/// The quotient rounded towards zero.
pub open spec fn truncated_quotient(a: int, b: int) -> int {
    if (a < 0) == (b < 0) {
        magnitude(a) / magnitude(b)
    } else {
        -(magnitude(a) / magnitude(b))
    }
}

/// The remainder that goes with it, of the sign of the dividend.
pub open spec fn truncated_remainder(a: int, b: int) -> int {
    if a < 0 {
        -(magnitude(a) % magnitude(b))
    } else {
        magnitude(a) % magnitude(b)
    }
}

pub open spec fn truth(b: bool) -> int {
    if b {
        1
    } else {
        0
    }
}

/// What an integer operation yields; the logical ones are on truth values.
pub open spec fn int_result(o: IntOp, a: int, b: int) -> int {
    match o {
        IntOp::Add => wrapped(a + b),
        IntOp::Sub => wrapped(a - b),
        IntOp::Mul => wrapped(a * b),
        IntOp::SignedDiv => wrapped(truncated_quotient(a, b)),
        IntOp::SignedRem => truncated_remainder(a, b),
        IntOp::And => truth(a != 0 && b != 0),
        IntOp::Or => truth(a != 0 || b != 0),
        IntOp::Xor => truth((a != 0) != (b != 0)),
    }
}

/// What an integer comparison yields.
pub open spec fn compared(predicate: IntPredicate, a: int, b: int) -> int {
    match predicate {
        IntPredicate::Eq => truth(a == b),
        IntPredicate::Ne => truth(a != b),
        IntPredicate::Slt => truth(a < b),
        IntPredicate::Sgt => truth(a > b),
        IntPredicate::Sle => truth(a <= b),
        IntPredicate::Sge => truth(a >= b),
    }
}

/// Whether a value is not that of the instruction `id` or a later one.
pub open spec fn comes_before(value: Value, id: usize) -> bool {
    value matches Value::Inst(operand) ==> operand < id
}

/// What a value is, when the instructions from `base` on are run on top of what is `known`.
pub open spec fn value_of(
    insts: Seq<InstView>,
    base: int,
    known: spec_fn(Value) -> int,
    value: Value,
) -> int
    decreases (match value {
            Value::Inst(id) => id as int + 1,
            _ => 0,
        }),
{
    match value {
        Value::Bool(b) => truth(b),
        Value::Int(n) => n as int,
        Value::Inst(id) => if id < base || id >= insts.len() {
            known(value)
        } else {
            match insts[id as int] {
                InstView::Op(Op::IntBinary(o, a, b)) => if comes_before(a, id) && comes_before(
                    b,
                    id,
                ) {
                    int_result(
                        o,
                        value_of(insts, base, known, a),
                        value_of(insts, base, known, b),
                    )
                } else {
                    known(value)
                },
                InstView::Op(Op::IntCompare(predicate, a, b)) => if comes_before(a, id)
                    && comes_before(b, id) {
                    compared(
                        predicate,
                        value_of(insts, base, known, a),
                        value_of(insts, base, known, b),
                    )
                } else {
                    known(value)
                },
                InstView::Op(Op::Select(c, a, b)) => if comes_before(c, id) && comes_before(a, id)
                    && comes_before(b, id) {
                    if value_of(insts, base, known, c) != 0 {
                        value_of(insts, base, known, a)
                    } else {
                        value_of(insts, base, known, b)
                    }
                } else {
                    known(value)
                },
                InstView::Op(Op::Cast(Cast::ZeroExtend, a)) => if comes_before(a, id) {
                    value_of(insts, base, known, a)
                } else {
                    known(value)
                },
                InstView::Op(Op::Not(a)) => if comes_before(a, id) {
                    truth(value_of(insts, base, known, a) == 0)
                } else {
                    known(value)
                },
                InstView::Op(Op::IntNeg(a)) => if comes_before(a, id) {
                    wrapped(-value_of(insts, base, known, a))
                } else {
                    known(value)
                },
                _ => known(value),
            }
        },
        _ => known(value),
    }
}

/// Whether a value is not that of an instruction still to come.
pub open spec fn in_hand(s: Lowering, value: Value) -> bool {
    value matches Value::Inst(id) ==> id < s.insts.len()
}

/// An emitted instruction is the next of the arena.
proof fn lemma_op_emitted(s: Lowering, o: Op)
    ensures
        op(s, o).insts == s.insts.push(InstView::Op(o)),
        s.insts.len() <= usize::MAX ==> next_value(s) == Value::Inst(s.insts.len() as usize),
{
    reveal(emitted);
    reveal(next_value);
}

/// What was there before keeps its value whatever is emitted behind it.
proof fn lemma_value_kept(
    early: Seq<InstView>,
    late: Seq<InstView>,
    base: int,
    known: spec_fn(Value) -> int,
    value: Value,
)
    requires
        early.len() <= late.len(),
        forall|k: int| 0 <= k < early.len() ==> early[k] == late[k],
        value matches Value::Inst(id) ==> id < early.len(),
    ensures
        value_of(late, base, known, value) == value_of(early, base, known, value),
    decreases (match value {
            Value::Inst(id) => id as int + 1,
            _ => 0,
        }),
{
    if let Value::Inst(id) = value {
        if id >= base {
            match early[id as int] {
                InstView::Op(Op::IntBinary(_, a, b)) => {
                    if comes_before(a, id) && comes_before(b, id) {
                        lemma_value_kept(early, late, base, known, a);
                        lemma_value_kept(early, late, base, known, b);
                    }
                },
                InstView::Op(Op::IntCompare(_, a, b)) => {
                    if comes_before(a, id) && comes_before(b, id) {
                        lemma_value_kept(early, late, base, known, a);
                        lemma_value_kept(early, late, base, known, b);
                    }
                },
                InstView::Op(Op::Select(c, a, b)) => {
                    if comes_before(c, id) && comes_before(a, id) && comes_before(b, id) {
                        lemma_value_kept(early, late, base, known, c);
                        lemma_value_kept(early, late, base, known, a);
                        lemma_value_kept(early, late, base, known, b);
                    }
                },
                InstView::Op(Op::Cast(Cast::ZeroExtend, a)) => {
                    if comes_before(a, id) {
                        lemma_value_kept(early, late, base, known, a);
                    }
                },
                InstView::Op(Op::Not(a)) => {
                    if comes_before(a, id) {
                        lemma_value_kept(early, late, base, known, a);
                    }
                },
                InstView::Op(Op::IntNeg(a)) => {
                    if comes_before(a, id) {
                        lemma_value_kept(early, late, base, known, a);
                    }
                },
                _ => {},
            }
        }
    }
}

// ---------------------------------------------------------------------------
// Ranges
// ---------------------------------------------------------------------------

/// Whether a range that has reached `current` has not passed its end.
pub open spec fn goes_on(current: int, stop: int, inclusive: bool, going_up: bool) -> bool {
    if going_up {
        if inclusive {
            current <= stop
        } else {
            current < stop
        }
    } else {
        if inclusive {
            current >= stop
        } else {
            current > stop
        }
    }
}

/// Whether a number is one that a range counts through: some number of steps from its start, and
/// not past its end.
pub open spec fn in_range(x: int, start: int, stop: int, step: int, inclusive: bool) -> bool {
    &&& exists|k: int| k >= 0 && #[trigger] after_steps(start, step, k) == x
    &&& goes_on(x, stop, inclusive, step > 0)
}

pub open spec fn after_steps(start: int, step: int, k: int) -> int {
    start + k * step
}

/// The test that a loop over a range makes decides whether the range goes on.
pub proof fn loop_tests_decide(
    s: Lowering,
    known: spec_fn(Value) -> int,
    current: Value,
    stop: Value,
    inclusive: Value,
    going_up: Value,
)
    requires
        in_hand(s, current),
        in_hand(s, stop),
        in_hand(s, inclusive),
        in_hand(s, going_up),
        s.insts.len() + 7 <= usize::MAX,
    ensures
        ({
            let (t, r) = range_continue(s, current, stop, inclusive, going_up);
            let base = s.insts.len() as int;
            &&& t.insts.len() == s.insts.len() + 7
            &&& forall|k: int| 0 <= k < s.insts.len() ==> t.insts[k] == s.insts[k]
            &&& in_hand(t, r)
            &&& value_of(t.insts, base, known, r) == truth(
                goes_on(
                    value_of(s.insts, base, known, current),
                    value_of(s.insts, base, known, stop),
                    value_of(s.insts, base, known, inclusive) != 0,
                    value_of(s.insts, base, known, going_up) != 0,
                ),
            )
        }),
{
    lemma_loop_test(s, s.insts.len() as int, known, current, stop, inclusive, going_up);
}

proof fn lemma_loop_test(
    s: Lowering,
    base: int,
    known: spec_fn(Value) -> int,
    current: Value,
    stop: Value,
    inclusive: Value,
    going_up: Value,
)
    requires
        0 <= base <= s.insts.len(),
        in_hand(s, current),
        in_hand(s, stop),
        in_hand(s, inclusive),
        in_hand(s, going_up),
        s.insts.len() + 7 <= usize::MAX,
    ensures
        ({
            let (t, r) = range_continue(s, current, stop, inclusive, going_up);
            &&& t.insts.len() == s.insts.len() + 7
            &&& forall|k: int| 0 <= k < s.insts.len() ==> t.insts[k] == s.insts[k]
            &&& in_hand(t, r)
            &&& value_of(t.insts, base, known, r) == truth(
                goes_on(
                    value_of(s.insts, base, known, current),
                    value_of(s.insts, base, known, stop),
                    value_of(s.insts, base, known, inclusive) != 0,
                    value_of(s.insts, base, known, going_up) != 0,
                ),
            )
        }),
{
    let n = s.insts.len() as int;
    let le = Op::IntCompare(IntPredicate::Sle, current, stop);
    lemma_op_emitted(s, le);
    let s1 = op(s, le);
    let lt = Op::IntCompare(IntPredicate::Slt, current, stop);
    lemma_op_emitted(s1, lt);
    let s2 = op(s1, lt);
    let ge = Op::IntCompare(IntPredicate::Sge, current, stop);
    lemma_op_emitted(s2, ge);
    let s3 = op(s2, ge);
    let gt = Op::IntCompare(IntPredicate::Sgt, current, stop);
    lemma_op_emitted(s3, gt);
    let s4 = op(s3, gt);
    let up = Op::Select(inclusive, next_value(s), next_value(s1));
    lemma_op_emitted(s4, up);
    let s5 = op(s4, up);
    let down = Op::Select(inclusive, next_value(s2), next_value(s3));
    lemma_op_emitted(s5, down);
    let s6 = op(s5, down);
    let cond = Op::Select(going_up, next_value(s4), next_value(s5));
    lemma_op_emitted(s6, cond);
    let (t, r) = range_continue(s, current, stop, inclusive, going_up);
    let x = value_of(s.insts, base, known, current);
    let y = value_of(s.insts, base, known, stop);
    lemma_value_kept(s.insts, t.insts, base, known, current);
    lemma_value_kept(s.insts, t.insts, base, known, stop);
    lemma_value_kept(s.insts, t.insts, base, known, inclusive);
    lemma_value_kept(s.insts, t.insts, base, known, going_up);
    assert(t.insts[n] == InstView::Op(le));
    assert(t.insts[n + 1] == InstView::Op(lt));
    assert(t.insts[n + 2] == InstView::Op(ge));
    assert(t.insts[n + 3] == InstView::Op(gt));
    assert(t.insts[n + 4] == InstView::Op(up));
    assert(t.insts[n + 5] == InstView::Op(down));
    assert(t.insts[n + 6] == InstView::Op(cond));
    assert(value_of(t.insts, base, known, next_value(s)) == truth(x <= y));
    assert(value_of(t.insts, base, known, next_value(s1)) == truth(x < y));
    assert(value_of(t.insts, base, known, next_value(s2)) == truth(x >= y));
    assert(value_of(t.insts, base, known, next_value(s3)) == truth(x > y));
    let closed_end = value_of(t.insts, base, known, inclusive) != 0;
    assert(value_of(t.insts, base, known, next_value(s4)) == truth(
        if closed_end {
            x <= y
        } else {
            x < y
        },
    ));
    assert(value_of(t.insts, base, known, next_value(s5)) == truth(
        if closed_end {
            x >= y
        } else {
            x > y
        },
    ));
}

/// A difference is a whole number of steps in the range's direction exactly when the remainder is
/// zero and it does not point the other way.
pub proof fn lemma_on_a_step(x: int, start: int, step: int)
    requires
        step != 0,
    ensures
        (exists|k: int| k >= 0 && #[trigger] after_steps(start, step, k) == x) <==> (
        truncated_remainder(x - start, step) == 0 && (if step > 0 {
            x >= start
        } else {
            x <= start
        })),
{
    let d = x - start;
    let m = magnitude(step);
    let a = magnitude(d);
    if exists|k: int| k >= 0 && #[trigger] after_steps(start, step, k) == x {
        let k = choose|k: int| k >= 0 && #[trigger] after_steps(start, step, k) == x;
        assert(a == k * m && (step > 0 ==> d >= 0) && (step < 0 ==> d <= 0)) by (nonlinear_arith)
            requires
                k >= 0,
                step != 0,
                d == k * step,
                m == (if step < 0 {
                    -step
                } else {
                    step
                }),
                a == (if d < 0 {
                    -d
                } else {
                    d
                }),
        ;
        assert(a % m == 0) by (nonlinear_arith)
            requires
                m > 0,
                a == k * m,
        ;
    }
    if truncated_remainder(d, step) == 0 && (if step > 0 {
        x >= start
    } else {
        x <= start
    }) {
        let k = a / m;
        assert(a % m == 0);
        assert(a == k * m && k >= 0) by (nonlinear_arith)
            requires
                m > 0,
                a >= 0,
                a % m == 0,
                k == a / m,
        ;
        assert(k * step == d) by (nonlinear_arith)
            requires
                a == k * m,
                (step > 0 && m == step && a == d) || (step < 0 && m == -step && a == -d),
        ;
        assert(after_steps(start, step, k) == x);
    }
}

/// `x in range` decides membership: it yields one exactly for the numbers that the range counts
/// through. The step is not zero, and the distance from the range's start is one that 64 bits hold.
pub proof fn membership_tests_decide(
    s: Lowering,
    known: spec_fn(Value) -> int,
    candidate: Value,
    parts: RangeParts,
)
    requires
        in_hand(s, candidate),
        in_hand(s, parts.start),
        in_hand(s, parts.stop),
        in_hand(s, parts.step),
        in_hand(s, parts.inclusive),
        s.insts.len() + 16 <= usize::MAX,
        value_of(s.insts, s.insts.len() as int, known, parts.step) != 0,
        i64::MIN <= value_of(s.insts, s.insts.len() as int, known, candidate) - value_of(
            s.insts,
            s.insts.len() as int,
            known,
            parts.start,
        ) <= i64::MAX,
    ensures
        ({
            let (t, r) = member_test(s, candidate, parts);
            let base = s.insts.len() as int;
            value_of(t.insts, base, known, r) == truth(
                in_range(
                    value_of(s.insts, base, known, candidate),
                    value_of(s.insts, base, known, parts.start),
                    value_of(s.insts, base, known, parts.stop),
                    value_of(s.insts, base, known, parts.step),
                    value_of(s.insts, base, known, parts.inclusive) != 0,
                ),
            )
        }),
{
    let base = s.insts.len() as int;
    let x = value_of(s.insts, base, known, candidate);
    let start = value_of(s.insts, base, known, parts.start);
    let stop = value_of(s.insts, base, known, parts.stop);
    let step = value_of(s.insts, base, known, parts.step);
    let inclusive = value_of(s.insts, base, known, parts.inclusive) != 0;
    let offset = Op::IntBinary(IntOp::Sub, candidate, parts.start);
    lemma_op_emitted(s, offset);
    let s1 = op(s, offset);
    let remainder = Op::IntBinary(IntOp::SignedRem, next_value(s), parts.step);
    lemma_op_emitted(s1, remainder);
    let s2 = op(s1, remainder);
    let on_step = Op::IntCompare(IntPredicate::Eq, next_value(s1), Value::Int(0));
    lemma_op_emitted(s2, on_step);
    let s3 = op(s2, on_step);
    let going_up = Op::IntCompare(IntPredicate::Sgt, parts.step, Value::Int(0));
    lemma_op_emitted(s3, going_up);
    let s4 = op(s3, going_up);
    let up = next_value(s3);
    assert(forall|k: int| 0 <= k < base ==> s.insts[k] == s4.insts[k]);
    lemma_value_kept(s.insts, s4.insts, base, known, candidate);
    lemma_value_kept(s.insts, s4.insts, base, known, parts.start);
    lemma_value_kept(s.insts, s4.insts, base, known, parts.stop);
    lemma_value_kept(s.insts, s4.insts, base, known, parts.step);
    lemma_value_kept(s.insts, s4.insts, base, known, parts.inclusive);
    assert(s4.insts[base] == InstView::Op(offset));
    assert(s4.insts[base + 1] == InstView::Op(remainder));
    assert(s4.insts[base + 2] == InstView::Op(on_step));
    assert(s4.insts[base + 3] == InstView::Op(going_up));
    assert(value_of(s4.insts, base, known, Value::Int(0)) == 0);
    assert(value_of(s4.insts, base, known, next_value(s)) == x - start);
    assert(value_of(s4.insts, base, known, next_value(s1)) == truncated_remainder(
        x - start,
        step,
    ));
    assert(value_of(s4.insts, base, known, next_value(s2)) == truth(
        truncated_remainder(x - start, step) == 0,
    ));
    assert(value_of(s4.insts, base, known, up) == truth(step > 0));
    lemma_loop_test(s4, base, known, candidate, parts.stop, parts.inclusive, up);
    let (s5, within_stop) = range_continue(s4, candidate, parts.stop, parts.inclusive, up);
    let n = s5.insts.len() as int;
    let ge_start = Op::IntCompare(IntPredicate::Sge, candidate, parts.start);
    lemma_op_emitted(s5, ge_start);
    let s6 = op(s5, ge_start);
    let le_start = Op::IntCompare(IntPredicate::Sle, candidate, parts.start);
    lemma_op_emitted(s6, le_start);
    let s7 = op(s6, le_start);
    let from_start = Op::Select(up, next_value(s5), next_value(s6));
    lemma_op_emitted(s7, from_start);
    let s8 = op(s7, from_start);
    let member = Op::IntBinary(IntOp::And, next_value(s2), within_stop);
    lemma_op_emitted(s8, member);
    let s9 = op(s8, member);
    let inside = Op::IntBinary(IntOp::And, next_value(s8), next_value(s7));
    lemma_op_emitted(s9, inside);
    let (t, r) = member_test(s, candidate, parts);
    assert(t == op(s9, inside));
    assert(t.insts[n] == InstView::Op(ge_start));
    assert(t.insts[n + 1] == InstView::Op(le_start));
    assert(t.insts[n + 2] == InstView::Op(from_start));
    assert(t.insts[n + 3] == InstView::Op(member));
    assert(t.insts[n + 4] == InstView::Op(inside));
    assert(forall|k: int| 0 <= k < s4.insts.len() ==> s4.insts[k] == t.insts[k]);
    lemma_value_kept(s4.insts, t.insts, base, known, candidate);
    lemma_value_kept(s4.insts, t.insts, base, known, parts.start);
    lemma_value_kept(s4.insts, t.insts, base, known, next_value(s2));
    lemma_value_kept(s4.insts, t.insts, base, known, up);
    lemma_value_kept(s5.insts, t.insts, base, known, within_stop);
    assert(value_of(t.insts, base, known, next_value(s5)) == truth(x >= start));
    assert(value_of(t.insts, base, known, next_value(s6)) == truth(x <= start));
    assert(value_of(t.insts, base, known, next_value(s7)) == truth(
        if step > 0 {
            x >= start
        } else {
            x <= start
        },
    ));
    lemma_on_a_step(x, start, step);
    assert(value_of(t.insts, base, known, next_value(s8)) == truth(
        truncated_remainder(x - start, step) == 0 && goes_on(x, stop, inclusive, step > 0),
    ));
}

/// A range that gives no step advances: its step is one, up or down.
pub proof fn implied_steps_advance(
    s: Lowering,
    known: spec_fn(Value) -> int,
    kind: RangeKind,
    start: Value,
    stop: Value,
)
    requires
        in_hand(s, start),
        in_hand(s, stop),
        s.insts.len() + 2 <= usize::MAX,
    ensures
        ({
            let (t, r) = default_step(s, kind, start, stop);
            let base = s.insts.len() as int;
            value_of(t.insts, base, known, r) == (match kind {
                RangeKind::UpExclusive => 1int,
                RangeKind::DownExclusive => -1int,
                RangeKind::Inclusive => if value_of(s.insts, base, known, stop) >= value_of(
                    s.insts,
                    base,
                    known,
                    start,
                ) {
                    1
                } else {
                    -1
                },
            })
        }),
{
    let base = s.insts.len() as int;
    if kind == RangeKind::Inclusive {
        let up = Op::IntCompare(IntPredicate::Sge, stop, start);
        lemma_op_emitted(s, up);
        let s1 = op(s, up);
        let chosen = Op::Select(next_value(s), Value::Int(1), Value::Int(-1i64));
        lemma_op_emitted(s1, chosen);
        let (t, r) = default_step(s, kind, start, stop);
        assert(t == op(s1, chosen));
        assert(t.insts[base] == InstView::Op(up));
        assert(t.insts[base + 1] == InstView::Op(chosen));
        lemma_value_kept(s.insts, t.insts, base, known, start);
        lemma_value_kept(s.insts, t.insts, base, known, stop);
        assert(value_of(t.insts, base, known, Value::Int(1)) == 1);
        assert(value_of(t.insts, base, known, Value::Int(-1i64)) == -1);
        assert(value_of(t.insts, base, known, next_value(s)) == truth(
            value_of(s.insts, base, known, stop) >= value_of(s.insts, base, known, start),
        ));
    }
}

// ---------------------------------------------------------------------------
// Indices
// ---------------------------------------------------------------------------

/// An index counts from the front, or from the end when it is negative, and the check before an
/// element is reached refuses exactly those that lie outside.
pub proof fn index_checks_decide(
    s: Lowering,
    known: spec_fn(Value) -> int,
    index: Value,
    len: Value,
)
    requires
        in_hand(s, index),
        in_hand(s, len),
        s.insts.len() + 6 <= usize::MAX,
        0 <= value_of(s.insts, s.insts.len() as int, known, len) <= i64::MAX,
        i64::MIN <= value_of(s.insts, s.insts.len() as int, known, index) <= i64::MAX,
    ensures
        ({
            let base = s.insts.len() as int;
            let i = value_of(s.insts, base, known, index);
            let n = value_of(s.insts, base, known, len);
            let (s1, effective) = normalize_index(s, index, len);
            let (t, outside) = out_of_bounds(s1, effective, len);
            let e = if i < 0 {
                i + n
            } else {
                i
            };
            &&& value_of(t.insts, base, known, effective) == e
            &&& value_of(t.insts, base, known, outside) == truth(!(0 <= e < n))
        }),
{
    let base = s.insts.len() as int;
    let i = value_of(s.insts, base, known, index);
    let n = value_of(s.insts, base, known, len);
    let is_neg = Op::IntCompare(IntPredicate::Slt, index, Value::Int(0));
    lemma_op_emitted(s, is_neg);
    let s1 = op(s, is_neg);
    let adjusted = Op::IntBinary(IntOp::Add, index, len);
    lemma_op_emitted(s1, adjusted);
    let s2 = op(s1, adjusted);
    let chosen = Op::Select(next_value(s), next_value(s1), index);
    lemma_op_emitted(s2, chosen);
    let s3 = op(s2, chosen);
    let effective = next_value(s2);
    let too_low = Op::IntCompare(IntPredicate::Slt, effective, Value::Int(0));
    lemma_op_emitted(s3, too_low);
    let s4 = op(s3, too_low);
    let too_high = Op::IntCompare(IntPredicate::Sge, effective, len);
    lemma_op_emitted(s4, too_high);
    let s5 = op(s4, too_high);
    let either = Op::IntBinary(IntOp::Or, next_value(s3), next_value(s4));
    lemma_op_emitted(s5, either);
    let t = op(s5, either);
    assert(t.insts[base] == InstView::Op(is_neg));
    assert(t.insts[base + 1] == InstView::Op(adjusted));
    assert(t.insts[base + 2] == InstView::Op(chosen));
    assert(t.insts[base + 3] == InstView::Op(too_low));
    assert(t.insts[base + 4] == InstView::Op(too_high));
    assert(t.insts[base + 5] == InstView::Op(either));
    lemma_value_kept(s.insts, t.insts, base, known, index);
    lemma_value_kept(s.insts, t.insts, base, known, len);
    let e = if i < 0 {
        i + n
    } else {
        i
    };
    assert(value_of(t.insts, base, known, Value::Int(0)) == 0);
    assert(value_of(t.insts, base, known, next_value(s)) == truth(i < 0));
    assert(i < 0 ==> value_of(t.insts, base, known, next_value(s1)) == i + n);
    assert(value_of(t.insts, base, known, effective) == e);
    assert(value_of(t.insts, base, known, next_value(s3)) == truth(e < 0));
    assert(value_of(t.insts, base, known, next_value(s4)) == truth(e >= n));
}

// ---------------------------------------------------------------------------
// Joins
// ---------------------------------------------------------------------------

/// How many of the instructions join strings.
pub open spec fn joins(insts: Seq<InstView>) -> int
    decreases insts.len(),
{
    if insts.len() == 0 {
        0
    } else {
        joins(insts.drop_last()) + (if insts.last() matches InstView::Call(
            Callee::Runtime(RuntimeFn::StrConcatN),
            _,
        ) {
            1int
        } else {
            0int
        })
    }
}

proof fn lemma_joins_push(insts: Seq<InstView>, inst: InstView)
    ensures
        joins(insts.push(inst)) == joins(insts) + (if inst matches InstView::Call(
            Callee::Runtime(RuntimeFn::StrConcatN),
            _,
        ) {
            1int
        } else {
            0int
        }),
{
    assert(insts.push(inst).drop_last() =~= insts);
}

proof fn lemma_parts_stored_joins(s: Lowering, base: Value, parts: Seq<StrPart>, slots: Seq<Value>)
    ensures
        joins(parts_stored(s, base, parts, slots).0.insts) == joins(s.insts),
    decreases parts.len() - slots.len(),
{
    if slots.len() < parts.len() {
        let index = slots.len() as int;
        let slot = next_value(s);
        let address = Op::ElementPtr(IrType::Str, base, Value::Int(index as i64));
        lemma_op_emitted(s, address);
        let s1 = op(s, address);
        lemma_op_emitted(s1, Op::Store(slot, parts[index].value));
        lemma_joins_push(s.insts, InstView::Op(address));
        lemma_joins_push(s1.insts, InstView::Op(Op::Store(slot, parts[index].value)));
        let s2 = op(s1, Op::Store(slot, parts[index].value));
        lemma_parts_stored_joins(s2, base, parts, slots.push(slot));
    }
}

proof fn lemma_parts_freed_joins(s: Lowering, parts: Seq<StrPart>, slots: Seq<Value>, from: int)
    ensures
        joins(parts_freed(s, parts, slots, from).insts) == joins(s.insts),
    decreases parts.len() - from,
{
    if 0 <= from < parts.len() {
        reveal(emitted);
        let free = InstView::Call(Callee::Runtime(RuntimeFn::StrFree), seq![slots[from]]);
        lemma_joins_push(s.insts, free);
        let s1 = if parts[from].owned {
            free_str_slot(s, slots[from])
        } else {
            s
        };
        lemma_parts_freed_joins(s1, parts, slots, from + 1);
    }
}

/// However many parts there are, they are joined by a single call.
pub proof fn a_join_is_one_call(s: Lowering, parts: Seq<StrPart>)
    ensures
        joins(build_concat(s, parts).0.insts) == joins(s.insts) + 1,
{
    reveal(emitted);
    reveal(entered);
    let base = next_value(s);
    let slot = Op::Alloca(IrType::StrArray(parts.len() as usize));
    let s1 = entered(s, 0, slot);
    lemma_joins_push(s.insts, InstView::Op(slot));
    lemma_parts_stored_joins(s1, base, parts, Seq::empty());
    let (s2, slots) = parts_stored(s1, base, parts, Seq::empty());
    let args = seq![base, Value::Int(parts.len() as i64)];
    let s3 = called(s2, Callee::Runtime(RuntimeFn::StrConcatN), args);
    lemma_joins_push(
        s2.insts,
        InstView::Call(Callee::Runtime(RuntimeFn::StrConcatN), args),
    );
    lemma_parts_freed_joins(s3, parts, slots, 0);
}

/// A chain of string `+` is one join of its operands, however long it is: beyond what evaluating
/// the operands takes, it adds a single call. The operands are those of the whole left spine, in
/// order.
pub proof fn a_chain_is_one_join(s: Lowering, p: Program, lhs: ExprId, rhs: ExprId, limit: int)
    ensures
        ({
            let parts = str_parts(p, lhs, limit).push(rhs);
            let (s1, values) = str_values(s, p, parts, Seq::empty(), limit);
            joins(str_concat_code(s, p, lhs, rhs, limit).0.insts) == joins(s1.insts) + 1
        }),
{
    let parts = str_parts(p, lhs, limit).push(rhs);
    let (s1, values) = str_values(s, p, parts, Seq::empty(), limit);
    a_join_is_one_call(s1, values);
}

/// No operand of a chain is itself a chain that could be joined along with it on the left: the
/// first is not a string `+`, so nothing of the left spine is joined twice.
pub proof fn chains_are_flat(p: Program, expr_id: ExprId, limit: int)
    requires
        p.ast.well_formed(),
        expr_id.0 < limit <= p.ast.nodes.len(),
    ensures
        ({
            let first = str_parts(p, expr_id, limit)[0];
            !(p.types[first.0 as int] == PinpType::Str && p.ast.nodes[first.0 as int] matches NodeView::Bin(
                BinOp::Add,
                _,
                _,
            ))
        }),
        str_parts(p, expr_id, limit).len() >= 1,
    decreases limit,
{
    if p.types[expr_id.0 as int] == PinpType::Str {
        if let NodeView::Bin(BinOp::Add, lhs, rhs) = p.ast.nodes[expr_id.0 as int] {
            assert(crate::parser::ast::node_ok(
                p.ast.nodes[expr_id.0 as int],
                p.ast.bounds_before(expr_id.0 as int),
            ));
            chains_are_flat(p, lhs, expr_id.0 as int);
            let left = str_parts(p, lhs, expr_id.0 as int);
            assert(str_parts(p, expr_id, limit) == left.push(rhs));
            assert(left.push(rhs)[0] == left[0]);
        }
    }
}

} // verus!
