//! Lowering of strings: literals, f-strings, concatenation, comparison, `.len`, and the `str(x)`
//! and `meminfo()` built-ins.
//!
//! A string value in flight is either *owned*, freshly made and its consumer's to release, or
//! *borrowed*, which means that it is a binding's own, read out of its slot. Only reading a
//! variable borrows. A consumer that needs ownership of a borrowed string takes a copy: without
//! reference counting, two owners of one buffer would free it twice.

use vstd::prelude::*;

use super::builder::{CodeGen, CodegenError, Slot, called};
use super::ir::{Callee, IrType, Op, RuntimeFn, Value};
use super::lowering::{
    StrPart, build_concat, build_str_constant, copy_str, discarded_str_freed, free_global_strings,
    free_scope_strings, free_str_slot, free_str_value, fstring_code, global_strings_freed,
    load_place, own_str, owned_str_code, parts_freed, parts_stored, place_slot, scope_strings_freed,
    segments_code, spill_str, store_to_place, str_compare_code, str_concat_code,
    str_conversion_code, str_from_value, str_len_code, str_parts, str_predicate, str_relation,
    str_values,
};
use crate::parser::ast::{
    Ast, BinOp, ExprId, FStrSegment, Node, PinpType, Place, Stmt, StmtView, StrId, SymId, expr_ok,
    exprs_ok, node_ok,
};

verus! {

impl<'ast, 'src> CodeGen<'ast, 'src> {
    /// Joins evaluated parts in one call, and frees those that the join owns.
    pub(super) fn build_concat(&mut self, parts: &Vec<StrPart>) -> (r: Value)
        ensures
            final(self).program() == old(self).program(),
            (final(self).state(), r) == build_concat(old(self).state(), parts@),
    {
        let base: Value = self.enter(0, Op::Alloca(IrType::StrArray(parts.len())));
        let ghost entered_state = self.state();
        let mut slots: Vec<Value> = Vec::new();
        let mut index: usize = 0;
        while index < parts.len()
            invariant
                index <= parts@.len(),
                slots@.len() == index,
                self.program() == old(self).program(),
                parts_stored(entered_state, base, parts@, Seq::empty()) == parts_stored(
                    self.state(),
                    base,
                    parts@,
                    slots@,
                ),
            decreases parts@.len() - index,
        {
            let slot: Value = self.emit(
                Op::ElementPtr(IrType::Str, base, Value::Int(index as i64)),
            );
            let _ = self.emit(Op::Store(slot, parts[index].value));
            slots.push(slot);
            index = index + 1;
        }
        let ghost gathered = self.state();
        assert(parts_stored(entered_state, base, parts@, Seq::empty()) == (gathered, slots@));
        let joined: Value = self.call2(
            RuntimeFn::StrConcatN,
            base,
            Value::Int(parts.len() as i64),
        );
        let ghost called_state = self.state();
        let mut next: usize = 0;
        while next < parts.len()
            invariant
                next <= parts@.len(),
                slots@.len() == parts@.len(),
                self.program() == old(self).program(),
                parts_freed(called_state, parts@, slots@, 0) == parts_freed(
                    self.state(),
                    parts@,
                    slots@,
                    next as int,
                ),
            decreases parts@.len() - next,
        {
            if parts[next].owned {
                self.free_str_slot(slots[next]);
            }
            next = next + 1;
        }
        joined
    }

    /// Copies a string so that the result is owned: a join of the one part.
    pub(super) fn copy_str(&mut self, value: Value) -> (r: Value)
        ensures
            final(self).program() == old(self).program(),
            (final(self).state(), r) == copy_str(old(self).state(), value),
    {
        let mut parts: Vec<StrPart> = Vec::new();
        parts.push(StrPart { value, owned: false });
        assert(parts@ =~= seq![StrPart { value, owned: false }]);
        self.build_concat(&parts)
    }

    /// Frees every string bound in the innermost scope, in symbol order.
    pub(super) fn free_scope_strings(&mut self)
        requires
            old(self).ready(0),
        ensures
            final(self).program() == old(self).program(),
            final(self).state() == free_scope_strings(old(self).state(), old(self).program()),
    {
        let symbols: usize = self.tree().names.len();
        let mut index: usize = 0;
        while index < symbols
            invariant
                index <= symbols,
                symbols == self.program().ast.names.len(),
                symbols <= u32::MAX,
                self.program() == old(self).program(),
                scope_strings_freed(old(self).state(), symbols as int, 0) == scope_strings_freed(
                    self.state(),
                    symbols as int,
                    index as int,
                ),
            decreases symbols - index,
        {
            match self.find_innermost(index as u32) {
                Some(slot) => if slot.value_type == PinpType::Str {
                    self.free_str_slot(slot.place);
                },
                None => {},
            }
            index = index + 1;
        }
    }

    /// Frees every string held in a global, in symbol order.
    pub(super) fn free_global_strings(&mut self)
        requires
            old(self).ready(0),
        ensures
            final(self).program() == old(self).program(),
            final(self).state() == free_global_strings(old(self).state(), old(self).program()),
    {
        let symbols: usize = self.tree().names.len();
        let mut index: usize = 0;
        while index < symbols
            invariant
                index <= symbols,
                symbols == self.program().ast.names.len(),
                symbols <= u32::MAX,
                self.program() == old(self).program(),
                global_strings_freed(old(self).state(), symbols as int, 0) == global_strings_freed(
                    self.state(),
                    symbols as int,
                    index as int,
                ),
            decreases symbols - index,
        {
            match self.find_global(SymId(index as u32)) {
                Some(slot) => if slot.value_type == PinpType::Str {
                    self.free_str_slot(slot.place);
                },
                None => {},
            }
            index = index + 1;
        }
    }

    /// Lowers a string literal.
    pub(super) fn gen_str_literal(&mut self, str_id: StrId) -> (r: Value)
        requires
            old(self).ready(0),
            str_id.0 < old(self).program().ast.strings.len(),
        ensures
            final(self).program() == old(self).program(),
            (final(self).state(), r) == build_str_constant(
                old(self).state(),
                old(self).program().ast.strings[str_id.0 as int],
            ),
    {
        let ast: &'ast Ast<'src> = self.tree();
        assert(ast@.strings[str_id.0 as int] == ast.string_literals@[str_id.0 as int]@);
        self.build_str_constant(ast.string_literals[str_id.value()].as_str())
    }

    /// Collects the operands of a chain of string `+` in the order of evaluation.
    fn collect_str_parts(&self, expr_id: ExprId, Ghost(limit): Ghost<int>) -> (parts: Vec<ExprId>)
        requires
            self.ready(limit),
            expr_id.0 < limit,
        ensures
            parts@ == str_parts(self.program(), expr_id, limit),
            exprs_ok(parts@, self.program().ast.bounds_before(limit)),
        decreases expr_id.0,
    {
        let ast: &'ast Ast<'src> = self.tree();
        proof {
            assert(ast@.nodes[expr_id.0 as int] == ast.nodes@[expr_id.0 as int]@);
            assert(node_ok(ast@.nodes[expr_id.0 as int], ast@.bounds_before(expr_id.0 as int)));
        }
        if self.type_of(expr_id) == PinpType::Str {
            if let Node::Bin { op: BinOp::Add, lhs, rhs } = &ast.nodes[expr_id.value()] {
                let mut parts: Vec<ExprId> = self.collect_str_parts(
                    *lhs,
                    Ghost(expr_id.0 as int),
                );
                let ghost left = parts@;
                parts.push(*rhs);
                proof {
                    assert forall|i: int| 0 <= i < parts@.len() implies expr_ok(
                        #[trigger] parts@[i],
                        self.program().ast.bounds_before(limit),
                    ) by {
                        if i < left.len() {
                            assert(expr_ok(
                                left[i],
                                self.program().ast.bounds_before(expr_id.0 as int),
                            ));
                        }
                    }
                }
                return parts;
            }
        }
        let mut parts: Vec<ExprId> = Vec::new();
        parts.push(expr_id);
        assert(parts@ =~= seq![expr_id]);
        parts
    }

    /// Lowers a string concatenation: the whole left spine of `+` in one join.
    pub(super) fn gen_str_concat(&mut self, lhs: ExprId, rhs: ExprId, Ghost(limit): Ghost<int>) -> (r:
        Value)
        requires
            old(self).ready(limit),
            lhs.0 < limit,
            rhs.0 < limit,
        ensures
            final(self).program() == old(self).program(),
            (final(self).state(), r) == str_concat_code(
                old(self).state(),
                old(self).program(),
                lhs,
                rhs,
                limit,
            ),
        decreases limit, 4int, old(self).program(), 0int,
    {
        let mut parts: Vec<ExprId> = self.collect_str_parts(lhs, Ghost(limit));
        parts.push(rhs);
        let mut values: Vec<StrPart> = Vec::new();
        let mut index: usize = 0;
        while index < parts.len()
            invariant
                self.ready(limit),
                self.program() == old(self).program(),
                exprs_ok(parts@, self.program().ast.bounds_before(limit)),
                index <= parts@.len(),
                values@.len() == index,
                str_values(old(self).state(), self.program(), parts@, Seq::empty(), limit)
                    == str_values(self.state(), self.program(), parts@, values@, limit),
            decreases parts@.len() - index,
        {
            let part: ExprId = parts[index];
            assert(expr_ok(parts@[index as int], self.program().ast.bounds_before(limit)));
            let part_type: PinpType = self.type_of(part);
            let raw: Value = self.expect_value(part, Ghost(limit));
            let owned: bool = part_type != PinpType::Str || self.owns_str_result(part);
            let value: Value = self.str_from_value(raw, part_type);
            values.push(StrPart { value, owned });
            index = index + 1;
        }
        self.build_concat(&values)
    }

    /// Lowers an f-string: each segment becomes a string, then one join makes the result.
    pub(super) fn gen_fstring(&mut self, segments: &Vec<FStrSegment>) -> (r: Value)
        requires
            old(self).ready(0),
            forall|i: int|
                0 <= i < segments@.len() ==> (#[trigger] segments@[i] matches FStrSegment::Literal(
                    str_id,
                ) ==> str_id.0 < old(self).program().ast.strings.len()),
        ensures
            final(self).program() == old(self).program(),
            (final(self).state(), r) == fstring_code(
                old(self).state(),
                old(self).program(),
                segments@,
            ),
    {
        if segments.len() == 0 {
            return self.build_str_constant("");
        }
        if segments.len() == 1 {
            if let FStrSegment::Literal(str_id) = segments[0] {
                return self.gen_str_literal(str_id);
            }
        }
        let mut parts: Vec<StrPart> = Vec::new();
        let mut index: usize = 0;
        while index < segments.len()
            invariant
                self.ready(0),
                self.program() == old(self).program(),
                forall|i: int|
                    0 <= i < segments@.len() ==> (#[trigger] segments@[i] matches FStrSegment::Literal(
                        str_id,
                    ) ==> str_id.0 < self.program().ast.strings.len()),
                index <= segments@.len(),
                parts@.len() == index,
                segments_code(old(self).state(), self.program(), segments@, Seq::empty())
                    == segments_code(self.state(), self.program(), segments@, parts@),
            decreases segments@.len() - index,
        {
            match segments[index] {
                FStrSegment::Literal(str_id) => {
                    let value: Value = self.gen_str_literal(str_id);
                    parts.push(StrPart { value, owned: true });
                },
                FStrSegment::Interp(place) => {
                    let (raw, value_type): (Value, PinpType) = self.load_place(place);
                    let value: Value = self.str_from_value(raw, value_type);
                    parts.push(StrPart { value, owned: value_type != PinpType::Str });
                },
            }
            index = index + 1;
        }
        self.build_concat(&parts)
    }

    /// Lowers the `meminfo()` diagnostic, which evaluates to nothing.
    pub(super) fn gen_meminfo(&mut self)
        ensures
            final(self).program() == old(self).program(),
            final(self).state() == called(
                old(self).state(),
                Callee::Runtime(RuntimeFn::MemInfo),
                Seq::empty(),
            ),
    {
        let _ = self.call0(RuntimeFn::MemInfo);
    }

    /// Frees the string a statement yields when nothing receives it.
    pub(super) fn free_discarded_str(&mut self, stmt: &Stmt, yielded: Option<Value>)
        requires
            old(self).ready(0),
            stmt@ matches StmtView::Expr(expr_id) ==> expr_id.0
                < old(self).program().ast.nodes.len(),
        ensures
            final(self).program() == old(self).program(),
            final(self).state() == discarded_str_freed(
                old(self).state(),
                old(self).program(),
                stmt@,
                yielded,
            ),
    {
        if let Stmt::Expr(expr_id) = stmt {
            self.free_unused_str(*expr_id, yielded);
        }
    }

    /// Frees the string an expression yields when nothing receives it.
    pub(super) fn free_unused_str(&mut self, expr_id: ExprId, yielded: Option<Value>)
        requires
            old(self).ready(0),
            expr_id.0 < old(self).program().ast.nodes.len(),
        ensures
            final(self).program() == old(self).program(),
            final(self).state() == discarded_str_freed(
                old(self).state(),
                old(self).program(),
                StmtView::Expr(expr_id),
                yielded,
            ),
    {
        if self.type_of(expr_id) == PinpType::Str && self.owns_str_result(expr_id) {
            match yielded {
                Some(value) => self.free_str_value(value),
                None => self.fail(CodegenError::Malformed),
            }
        }
    }

    /// Writes a string value to a stack slot so that it can be passed to the runtime by address.
    pub(super) fn spill_str(&mut self, value: Value) -> (r: Value)
        ensures
            final(self).program() == old(self).program(),
            (final(self).state(), r) == spill_str(old(self).state(), value),
    {
        let slot: Value = self.alloca_at_entry(PinpType::Str);
        let _ = self.emit(Op::Store(slot, value));
        slot
    }

    /// Releases the string a slot holds and leaves the empty string in it.
    pub(super) fn free_str_slot(&mut self, slot: Value)
        ensures
            final(self).program() == old(self).program(),
            final(self).state() == free_str_slot(old(self).state(), slot),
    {
        let _ = self.call1(RuntimeFn::StrFree, slot);
    }

    /// Releases the storage behind a string value, by way of a slot.
    pub(super) fn free_str_value(&mut self, value: Value)
        ensures
            final(self).program() == old(self).program(),
            final(self).state() == free_str_value(old(self).state(), value),
    {
        let slot: Value = self.spill_str(value);
        self.free_str_slot(slot);
    }

    /// A string from fixed text.
    pub(super) fn build_str_constant(&mut self, content: &str) -> (r: Value)
        ensures
            final(self).program() == old(self).program(),
            (final(self).state(), r) == build_str_constant(old(self).state(), content@),
    {
        let text: Value = self.global_string_ptr(content);
        let value: Value = self.call1(RuntimeFn::StrFromCstr, text);
        value
    }

    /// Renders a value as a string. A value that is a string is handed back as it is, so the result
    /// carries its operand's ownership. A bool has only two renderings, a choice between two
    /// constants.
    pub(super) fn str_from_value(&mut self, value: Value, value_type: PinpType) -> (r: Value)
        ensures
            final(self).program() == old(self).program(),
            (final(self).state(), r) == str_from_value(old(self).state(), value, value_type),
    {
        let rendered: Value = match value_type {
            PinpType::Str => {
                value
            },
            PinpType::Int => {
                let digits: Value = self.call1(RuntimeFn::StrFromInt, value);
                digits
            },
            PinpType::Float => {
                let digits: Value = self.call1(RuntimeFn::StrFromFloat, value);
                digits
            },
            PinpType::Bool => {
                let true_text: Value = self.global_string_ptr("true");
                let false_text: Value = self.global_string_ptr("false");
                let text: Value = self.emit(Op::Select(value, true_text, false_text));
                let word: Value = self.call1(RuntimeFn::StrFromCstr, text);
                word
            },
            _ => {
                self.fail(CodegenError::Malformed);
                value
            },
        };
        rendered
    }

    /// A string value that the caller owns: as it is when it is owned already, otherwise a copy.
    pub(super) fn own_str(&mut self, value: Value, owned: bool) -> (r: Value)
        ensures
            final(self).program() == old(self).program(),
            (final(self).state(), r) == own_str(old(self).state(), value, owned),
    {
        let kept: Value = if owned {
            value
        } else {
            let copy: Value = self.copy_str(value);
            copy
        };
        kept
    }

    /// Evaluates a string that the caller owns.
    pub(super) fn gen_owned_str(&mut self, expr_id: ExprId, Ghost(limit): Ghost<int>) -> (r: Value)
        requires
            old(self).ready(limit),
            expr_id.0 < limit,
        ensures
            final(self).program() == old(self).program(),
            (final(self).state(), r) == owned_str_code(
                old(self).state(),
                old(self).program(),
                expr_id,
                limit,
            ),
        decreases limit, 2int, old(self).program(), 0int,
    {
        let value: Value = self.expect_value(expr_id, Ghost(limit));
        let owned: bool = self.owns_str_result(expr_id);
        let kept: Value = self.own_str(value, owned);
        kept
    }

    /// The `str(x)` built-in. What it yields is owned, whatever was passed in.
    pub(super) fn gen_str_conversion(&mut self, arg: ExprId, Ghost(limit): Ghost<int>) -> (r: Value)
        requires
            old(self).ready(limit),
            arg.0 < limit,
        ensures
            final(self).program() == old(self).program(),
            (final(self).state(), r) == str_conversion_code(
                old(self).state(),
                old(self).program(),
                arg,
                limit,
            ),
        decreases limit, 4int, old(self).program(), 0int,
    {
        let arg_type: PinpType = self.type_of(arg);
        let converted: Value = if arg_type == PinpType::Str {
            let kept: Value = self.gen_owned_str(arg, Ghost(limit));
            kept
        } else {
            let value: Value = self.expect_value(arg, Ghost(limit));
            let rendered: Value = self.str_from_value(value, arg_type);
            rendered
        };
        converted
    }

    /// `.len` on a string. Measuring a temporary is the last use of it.
    pub(super) fn gen_str_len(&mut self, object: ExprId, Ghost(limit): Ghost<int>) -> (r: Value)
        requires
            old(self).ready(limit),
            object.0 < limit,
        ensures
            final(self).program() == old(self).program(),
            (final(self).state(), r) == str_len_code(
                old(self).state(),
                old(self).program(),
                object,
                limit,
            ),
        decreases limit, 4int, old(self).program(), 0int,
    {
        let value: Value = self.expect_value(object, Ghost(limit));
        let slot: Value = self.spill_str(value);
        let length: Value = self.call1(RuntimeFn::StrLen, slot);
        let owned: bool = self.owns_str_result(object);
        if owned {
            self.free_str_slot(slot);
        }
        length
    }

    /// A comparison of strings: the runtime answers with a truth value for `==` and `!=`, and with
    /// a three-way sign for the orderings, which a comparison with zero turns into a `Bool`. It is
    /// the last use of an operand that is a temporary.
    pub(super) fn gen_str_compare(
        &mut self,
        operator: BinOp,
        lhs: ExprId,
        rhs: ExprId,
        Ghost(limit): Ghost<int>,
    ) -> (r: Value)
        requires
            old(self).ready(limit),
            lhs.0 < limit,
            rhs.0 < limit,
        ensures
            final(self).program() == old(self).program(),
            (final(self).state(), r) == str_compare_code(
                old(self).state(),
                old(self).program(),
                operator,
                lhs,
                rhs,
                limit,
            ),
        decreases limit, 4int, old(self).program(), 0int,
    {
        let left_value: Value = self.expect_value(lhs, Ghost(limit));
        let right_value: Value = self.expect_value(rhs, Ghost(limit));
        let left: Value = self.spill_str(left_value);
        let right: Value = self.spill_str(right_value);
        let answer: Value = self.call2(str_relation(operator), left, right);
        let relation: Value = self.emit(
            Op::IntCompare(str_predicate(operator), answer, Value::I32(0)),
        );
        let left_owned: bool = self.owns_str_result(lhs);
        if left_owned {
            self.free_str_slot(left);
        }
        let right_owned: bool = self.owns_str_result(rhs);
        if right_owned {
            self.free_str_slot(right);
        }
        relation
    }

    /// Where the value behind a place lives.
    pub(super) fn place_slot(&mut self, place: Place) -> (r: Slot)
        ensures
            final(self).program() == old(self).program(),
            (final(self).state(), r) == place_slot(old(self).state(), place),
    {
        let slot: Slot = match place {
            Place::Local(sym_id) => {
                let found: Slot = self.var_slot(sym_id, false);
                found
            },
            Place::Global(sym_id) => {
                let found: Slot = self.var_slot(sym_id, true);
                found
            },
        };
        slot
    }

    /// The value behind a place, and its type.
    pub(super) fn load_place(&mut self, place: Place) -> (r: (Value, PinpType))
        ensures
            final(self).program() == old(self).program(),
            (final(self).state(), r) == load_place(old(self).state(), place),
    {
        let slot: Slot = self.place_slot(place);
        let ir_type: IrType = self.storable(slot.value_type);
        let value: Value = self.emit(Op::Load(ir_type, slot.place));
        (value, slot.value_type)
    }

    /// Stores a value that an assignment evaluated to one of its targets. A string's old storage is
    /// released first. The first group of targets takes the string over; another binding gets a
    /// copy of its own, since two owners of one buffer would free it twice.
    pub(super) fn store_to_place(
        &mut self,
        place: Place,
        value: Value,
        value_type: PinpType,
        first: bool,
    )
        ensures
            final(self).program() == old(self).program(),
            final(self).state() == store_to_place(
                old(self).state(),
                place,
                value,
                value_type,
                first,
            ),
    {
        let slot: Slot = self.resolve_place(place, value_type);
        let stored: Value = if value_type == PinpType::Str {
            let kept: Value = self.own_str(value, first);
            self.free_str_slot(slot.place);
            kept
        } else {
            let promoted: Value = self.promote(value, value_type, slot.value_type);
            promoted
        };
        let _ = self.emit(Op::Store(slot.place, stored));
    }
}

} // verus!
