//! Lowering of statements and control flow.

use vstd::prelude::*;

use super::builder::{CodeGen, CodegenError, Slot};
use super::emit::{CountedLoop, RangeParts};
use super::ir::{IntOp, IntPredicate, IrType, Op, Value, element_ir_type, element_type};
use super::lowering::{
    arms_code, block_code, block_for_effect_code, block_result_type, branch_code, for_code,
    group_stored, groups_stored, if_code, indexed_assign2d_code, indexed_assign_code, loop_code,
    result_code, slice_assign_code, slice_bounds, stmt_code, stmts_code, stmts_from, store_element,
    values_code, while_code,
};
use crate::lexer::Span;
use crate::parser::ast::{
    ArrayElementType, BinOp, Block, ExprId, IfArm, NodeView, PinpType, Place, RangeKind, Stmt,
    StmtView, SymId, arm_views, block_ok, expr_ok, exprs_ok, nested, node_ok, optional_block,
    stmt_ok,
};

verus! {

impl<'ast, 'src> CodeGen<'ast, 'src> {
    /// The type of the expression a block ends in; `Void` when it ends in none.
    pub(super) fn block_result_type(&self, block: &Block) -> (r: PinpType)
        requires
            self.ready(0),
            block@.result matches Some(expr_id) ==> expr_id.0 < self.program().ast.nodes.len(),
        ensures
            r == block_result_type(self.program(), block@),
    {
        match block.result {
            None => PinpType::Void,
            Some(expr_id) => self.type_of(expr_id),
        }
    }

    /// Where a slice to be filled starts, and how many elements it has.
    pub(super) fn slice_bounds(&mut self, range: ExprId) -> (r: (i64, i64))
        requires
            old(self).ready(0),
            range.0 < old(self).program().ast.nodes.len(),
        ensures
            final(self).program() == old(self).program(),
            (final(self).state(), r) == slice_bounds(
                old(self).state(),
                old(self).program(),
                range,
            ),
    {
        let count: Option<(i64, i64)> = match self.literal_range(range) {
            Some(literal) => match literal.stop.checked_sub(literal.start) {
                Some(width) => match literal.kind {
                    RangeKind::Inclusive => if width < i64::MAX {
                        Some((literal.start, width + 1))
                    } else {
                        None
                    },
                    RangeKind::UpExclusive => Some((literal.start, width)),
                    RangeKind::DownExclusive => None,
                },
                None => None,
            },
            None => None,
        };
        match count {
            Some(bounds) => bounds,
            None => {
                self.fail(CodegenError::Malformed);
                (0, 0)
            },
        }
    }

    /// Lowers a branch of an `if` of type `t`, and records the value that flows from it.
    fn gen_branch(
        &mut self,
        t: PinpType,
        block: &Block,
        incomings: Vec<(Value, usize)>,
        Ghost(limit): Ghost<int>,
    ) -> (r: Vec<(Value, usize)>)
        requires
            old(self).ready(limit),
            block_ok(block@, old(self).program().ast.bounds_before(limit)),
        ensures
            final(self).program() == old(self).program(),
            (final(self).state(), r@) == branch_code(
                old(self).state(),
                old(self).program(),
                t,
                block@,
                incomings@,
                limit,
            ),
        decreases limit, 10int, block, block.stmts@.len() + 4,
    {
        let mut recorded: Vec<(Value, usize)> = incomings;
        if t == PinpType::Void {
            self.gen_block_for_effect(block, Ghost(limit));
            return recorded;
        }
        let yielded: Option<Value> = self.gen_block(block, Ghost(limit));
        match yielded {
            Some(value) => {
                let value_type: PinpType = self.block_result_type(block);
                let promoted: Value = self.promote(value, value_type, t);
                let end: usize = self.get_insert_block();
                recorded.push((promoted, end));
            },
            None => {
                self.fail(CodegenError::Malformed);
            },
        }
        recorded
    }

    /// Lowers the arms of an `if`, each testing in the block its predecessor falls through to.
    fn gen_arms(&mut self, t: PinpType, arms: &Vec<IfArm>, merge: usize, Ghost(limit): Ghost<int>) -> (r:
        Vec<(Value, usize)>)
        requires
            old(self).ready(limit),
            forall|i: int|
                0 <= i < arm_views(arms@).len() ==> (#[trigger] arm_views(arms@)[i]).cond.0 < limit
                    && block_ok(
                    arm_views(arms@)[i].body,
                    old(self).program().ast.bounds_before(limit),
                ),
        ensures
            final(self).program() == old(self).program(),
            (final(self).state(), r@) == arms_code(
                old(self).state(),
                old(self).program(),
                t,
                arm_views(arms@),
                merge,
                Seq::empty(),
                0,
                limit,
            ),
        decreases limit, 11int, old(self).program(), arms@.len() as int,
    {
        let mut incomings: Vec<(Value, usize)> = Vec::new();
        let mut index: usize = 0;
        while index < arms.len()
            invariant
                self.ready(limit),
                self.program() == old(self).program(),
                forall|i: int|
                    0 <= i < arm_views(arms@).len() ==> (#[trigger] arm_views(arms@)[i]).cond.0
                        < limit && block_ok(
                        arm_views(arms@)[i].body,
                        self.program().ast.bounds_before(limit),
                    ),
                index <= arms@.len(),
                arms_code(
                    old(self).state(),
                    self.program(),
                    t,
                    arm_views(arms@),
                    merge,
                    Seq::empty(),
                    0,
                    limit,
                ) == arms_code(
                    self.state(),
                    self.program(),
                    t,
                    arm_views(arms@),
                    merge,
                    incomings@,
                    index as int,
                    limit,
                ),
            decreases arms@.len() - index,
        {
            assert(arm_views(arms@)[index as int] == arms@[index as int]@);
            let cond: Value = self.expect_value(arms[index].cond, Ghost(limit));
            let then_block: usize = self.append_block("if_then");
            let next: usize = self.append_block("if_next");
            let _ = self.emit(Op::CondBranch(cond, then_block, next));
            self.position_at_end(then_block);
            incomings = self.gen_branch(t, &arms[index].body, incomings, Ghost(limit));
            let _ = self.emit(Op::Branch(merge));
            self.position_at_end(next);
            index = index + 1;
        }
        incomings
    }

    /// Lowers an `if` (and the one-line ternary, which has a single arm) as a chain of tests whose
    /// branches meet in one block. When it has a value, that block picks the taken branch's.
    pub(super) fn gen_if(
        &mut self,
        t: PinpType,
        arms: &Vec<IfArm>,
        else_block: &Option<Block>,
        Ghost(limit): Ghost<int>,
    ) -> (r: Option<Value>)
        requires
            old(self).ready(limit),
            node_ok(
                NodeView::If(arm_views(arms@), optional_block(*else_block)),
                old(self).program().ast.bounds_before(limit),
            ),
        ensures
            final(self).program() == old(self).program(),
            (final(self).state(), r) == if_code(
                old(self).state(),
                old(self).program(),
                t,
                arm_views(arms@),
                optional_block(*else_block),
                limit,
            ),
        decreases limit, 12int, old(self).program(), 0int,
    {
        let merge: usize = self.append_block("if_merge");
        let from_arms: Vec<(Value, usize)> = self.gen_arms(t, arms, merge, Ghost(limit));
        let incomings: Vec<(Value, usize)> = match else_block {
            Some(block) => self.gen_branch(t, block, from_arms, Ghost(limit)),
            None => from_arms,
        };
        let _ = self.emit(Op::Branch(merge));
        self.position_at_end(merge);
        if t == PinpType::Void {
            return None;
        }
        let ir_type: IrType = self.storable(t);
        let value: Value = self.phi(ir_type, incomings);
        Some(value)
    }

    /// Lowers the statements of a block.
    pub(super) fn gen_stmts(&mut self, block: &Block, Ghost(limit): Ghost<int>)
        requires
            old(self).ready(limit),
            block_ok(block@, old(self).program().ast.bounds_before(limit)),
        ensures
            final(self).program() == old(self).program(),
            final(self).state() == stmts_code(
                old(self).state(),
                old(self).program(),
                block@,
                limit,
            ),
        decreases limit, 10int, block, block.stmts@.len() + 1,
    {
        let mut index: usize = 0;
        while index < block.stmts.len()
            invariant
                self.ready(limit),
                self.program() == old(self).program(),
                block_ok(block@, self.program().ast.bounds_before(limit)),
                index <= block.stmts@.len(),
                stmts_code(old(self).state(), self.program(), block@, limit) == stmts_from(
                    self.state(),
                    self.program(),
                    block@,
                    index as int,
                    limit,
                ),
            decreases block.stmts@.len() - index,
        {
            proof {
                assert(block@.stmts[index as int] == block.stmts@[index as int]@);
                assert(stmt_ok(
                    block@.stmts[index as int],
                    self.program().ast.bounds_before(limit),
                ));
            }
            let stmt: &Stmt = &block.stmts[index];
            let yielded: Option<Value> = self.gen_stmt(stmt, Ghost(limit));
            self.free_discarded_str(stmt, yielded);
            index = index + 1;
        }
    }

    /// Evaluates the values of an assignment.
    fn gen_values(&mut self, values: &Vec<ExprId>, Ghost(limit): Ghost<int>) -> (r: Vec<Value>)
        requires
            old(self).ready(limit),
            exprs_ok(values@, old(self).program().ast.bounds_before(limit)),
        ensures
            final(self).program() == old(self).program(),
            r@.len() == values@.len(),
            (final(self).state(), r@) == values_code(
                old(self).state(),
                old(self).program(),
                values@,
                Seq::empty(),
                limit,
            ),
        decreases limit, 3int, old(self).program(), values@.len() as int,
    {
        let mut done: Vec<Value> = Vec::new();
        let mut index: usize = 0;
        while index < values.len()
            invariant
                self.ready(limit),
                self.program() == old(self).program(),
                exprs_ok(values@, self.program().ast.bounds_before(limit)),
                index <= values@.len(),
                done@.len() == index,
                values_code(old(self).state(), self.program(), values@, Seq::empty(), limit)
                    == values_code(self.state(), self.program(), values@, done@, limit),
            decreases values@.len() - index,
        {
            let expr_id: ExprId = values[index];
            assert(expr_ok(values@[index as int], self.program().ast.bounds_before(limit)));
            let value: Value = if self.type_of(expr_id) == PinpType::Str {
                self.gen_owned_str(expr_id, Ghost(limit))
            } else {
                self.expect_value(expr_id, Ghost(limit))
            };
            done.push(value);
            index = index + 1;
        }
        done
    }

    /// Stores the values of an assignment to one group of its targets.
    fn store_group(
        &mut self,
        group: &Vec<Place>,
        values: &Vec<ExprId>,
        evaluated: &Vec<Value>,
        first: bool,
    )
        requires
            old(self).ready(0),
            exprs_ok(values@, old(self).program().ast.bounds()),
            evaluated@.len() == values@.len(),
        ensures
            final(self).program() == old(self).program(),
            final(self).state() == group_stored(
                old(self).state(),
                old(self).program(),
                group@,
                values@,
                evaluated@,
                first,
                0,
            ),
    {
        let mut index: usize = 0;
        while index < group.len() && index < evaluated.len()
            invariant
                self.ready(0),
                self.program() == old(self).program(),
                exprs_ok(values@, self.program().ast.bounds()),
                evaluated@.len() == values@.len(),
                index <= group@.len(),
                group_stored(
                    old(self).state(),
                    self.program(),
                    group@,
                    values@,
                    evaluated@,
                    first,
                    0,
                ) == group_stored(
                    self.state(),
                    self.program(),
                    group@,
                    values@,
                    evaluated@,
                    first,
                    index as int,
                ),
            decreases group@.len() - index,
        {
            assert(expr_ok(values@[index as int], self.program().ast.bounds()));
            let value_type: PinpType = self.type_of(values[index]);
            self.store_to_place(group[index], evaluated[index], value_type, first);
            index = index + 1;
        }
    }

    /// Lowers an assignment: every value is evaluated before any target is written, so `a, b = b,
    /// a` swaps.
    fn gen_assign(
        &mut self,
        groups: &Vec<Vec<Place>>,
        spans: &Vec<Vec<Span>>,
        values: &Vec<ExprId>,
        Ghost(limit): Ghost<int>,
    ) -> (r: Option<Value>)
        requires
            old(self).ready(limit),
            exprs_ok(values@, old(self).program().ast.bounds_before(limit)),
        ensures
            final(self).program() == old(self).program(),
            (final(self).state(), r) == stmt_code(
                old(self).state(),
                old(self).program(),
                StmtView::Assign(nested(groups@), nested(spans@), values@),
                limit,
            ),
        decreases limit, 9int, old(self).program(), 0int,
    {
        let evaluated: Vec<Value> = self.gen_values(values, Ghost(limit));
        let ghost ready_to_store = self.state();
        proof {
            assert forall|i: int| 0 <= i < values@.len() implies expr_ok(
                #[trigger] values@[i],
                self.program().ast.bounds(),
            ) by {
                assert(expr_ok(values@[i], self.program().ast.bounds_before(limit)));
            }
        }
        let mut index: usize = 0;
        while index < groups.len()
            invariant
                self.ready(limit),
                self.program() == old(self).program(),
                exprs_ok(values@, self.program().ast.bounds()),
                evaluated@.len() == values@.len(),
                index <= groups@.len(),
                groups_stored(
                    ready_to_store,
                    self.program(),
                    nested(groups@),
                    values@,
                    evaluated@,
                    0,
                ) == groups_stored(
                    self.state(),
                    self.program(),
                    nested(groups@),
                    values@,
                    evaluated@,
                    index as int,
                ),
            decreases groups@.len() - index,
        {
            assert(nested(groups@)[index as int] == groups@[index as int]@);
            self.store_group(&groups[index], values, &evaluated, index == 0);
            index = index + 1;
        }
        if evaluated.len() > 0 {
            Some(evaluated[evaluated.len() - 1])
        } else {
            None
        }
    }

    /// Lowers a statement, with the value it yields: an expression's, or the last one an assignment
    /// binds.
    pub(super) fn gen_stmt(&mut self, stmt: &Stmt, Ghost(limit): Ghost<int>) -> (r: Option<Value>)
        requires
            old(self).ready(limit),
            stmt_ok(stmt@, old(self).program().ast.bounds_before(limit)),
        ensures
            final(self).program() == old(self).program(),
            (final(self).state(), r) == stmt_code(
                old(self).state(),
                old(self).program(),
                stmt@,
                limit,
            ),
        decreases limit, 10int, stmt, 0int,
    {
        match stmt {
            Stmt::Expr(expr_id) => self.gen_expr(*expr_id, Ghost(limit)),
            Stmt::Assign { target_lists, target_spans, values } => self.gen_assign(
                target_lists,
                target_spans,
                values,
                Ghost(limit),
            ),
            Stmt::While { cond, body } => {
                self.gen_while(*cond, body, Ghost(limit));
                None
            },
            Stmt::Loop { body, cond, until } => {
                self.gen_loop(body, *cond, *until, Ghost(limit));
                None
            },
            Stmt::For { var, source, body } => {
                self.gen_for(*var, *source, body, Ghost(limit));
                None
            },
            Stmt::IndexedAssign { target, index, value, compound_op } => {
                self.gen_indexed_assign(*target, *index, *value, *compound_op, Ghost(limit));
                None
            },
            Stmt::IndexedAssign2D { target, row, col, value, compound_op } => {
                self.gen_indexed_assign2d(*target, *row, *col, *value, *compound_op, Ghost(limit));
                None
            },
            Stmt::ForArray { .. } => {
                self.fail(CodegenError::Malformed);
                None
            },
        }
    }

    /// Evaluates the expression a block may end in. A string among these is owned, so that it
    /// outlives the block's own strings.
    pub(super) fn gen_result(
        &mut self,
        result: Option<ExprId>,
        Ghost(limit): Ghost<int>,
    ) -> (r: Option<Value>)
        requires
            old(self).ready(limit),
            result matches Some(part) ==> part.0 < limit,
        ensures
            final(self).program() == old(self).program(),
            (final(self).state(), r) == result_code(
                old(self).state(),
                old(self).program(),
                result,
                limit,
            ),
        decreases limit, 3int, old(self).program(), 0int,
    {
        let value: Option<Value> = match result {
            None => {
                None
            },
            Some(expr_id) => {
                let result_type: PinpType = self.type_of(expr_id);
                let yielded: Option<Value> = if result_type == PinpType::Str {
                    let owned: Value = self.gen_owned_str(expr_id, Ghost(limit));
                    Some(owned)
                } else {
                    let any: Option<Value> = self.gen_expr(expr_id, Ghost(limit));
                    any
                };
                yielded
            },
        };
        value
    }

    /// A block in a scope of its own: its statements, then its result. What the scope binds is
    /// released where it ends.
    pub(super) fn gen_block(
        &mut self,
        block: &Block,
        Ghost(limit): Ghost<int>,
    ) -> (r: Option<Value>)
        requires
            old(self).ready(limit),
            block_ok(block@, old(self).program().ast.bounds_before(limit)),
        ensures
            final(self).program() == old(self).program(),
            (final(self).state(), r) == block_code(
                old(self).state(),
                old(self).program(),
                block@,
                limit,
            ),
        decreases limit, 10int, block, block.stmts@.len() + 2,
    {
        self.push_scope();
        self.gen_stmts(block, Ghost(limit));
        let value: Option<Value> = self.gen_result(block.result, Ghost(limit));
        self.free_scope_strings();
        self.pop_scope();
        value
    }

    /// A block run for its effect. A string it yields is released.
    pub(super) fn gen_block_for_effect(&mut self, block: &Block, Ghost(limit): Ghost<int>)
        requires
            old(self).ready(limit),
            block_ok(block@, old(self).program().ast.bounds_before(limit)),
        ensures
            final(self).program() == old(self).program(),
            final(self).state() == block_for_effect_code(
                old(self).state(),
                old(self).program(),
                block@,
                limit,
            ),
        decreases limit, 10int, block, block.stmts@.len() + 3,
    {
        let value: Option<Value> = self.gen_block(block, Ghost(limit));
        let result_type: PinpType = self.block_result_type(block);
        match value {
            Some(unused) => {
                if result_type == PinpType::Str {
                    self.free_str_value(unused);
                }
            },
            None => {

            },
        }
    }

    /// A loop that tests before every pass.
    pub(super) fn gen_while(&mut self, cond: ExprId, body: &Block, Ghost(limit): Ghost<int>)
        requires
            old(self).ready(limit),
            cond.0 < limit,
            block_ok(body@, old(self).program().ast.bounds_before(limit)),
        ensures
            final(self).program() == old(self).program(),
            final(self).state() == while_code(
                old(self).state(),
                old(self).program(),
                cond,
                body@,
                limit,
            ),
        decreases limit, 10int, body, body.stmts@.len() + 4,
    {
        let header: usize = self.append_block("while_header");
        let body_block: usize = self.append_block("while_body");
        let exit: usize = self.append_block("while_exit");
        let _ = self.emit(Op::Branch(header));
        self.position_at_end(header);
        let holds: Value = self.expect_value(cond, Ghost(limit));
        let _ = self.emit(Op::CondBranch(holds, body_block, exit));
        self.position_at_end(body_block);
        self.gen_block_for_effect(body, Ghost(limit));
        let _ = self.emit(Op::Branch(header));
        self.position_at_end(exit);
    }

    /// A loop that tests behind every pass: it repeats while the condition holds, or until it does.
    pub(super) fn gen_loop(
        &mut self,
        body: &Block,
        cond: ExprId,
        until: bool,
        Ghost(limit): Ghost<int>,
    )
        requires
            old(self).ready(limit),
            block_ok(body@, old(self).program().ast.bounds_before(limit)),
            cond.0 < limit,
        ensures
            final(self).program() == old(self).program(),
            final(self).state() == loop_code(
                old(self).state(),
                old(self).program(),
                body@,
                cond,
                until,
                limit,
            ),
        decreases limit, 10int, body, body.stmts@.len() + 4,
    {
        let body_block: usize = self.append_block("loop_body");
        let exit: usize = self.append_block("loop_exit");
        let _ = self.emit(Op::Branch(body_block));
        self.position_at_end(body_block);
        self.gen_block_for_effect(body, Ghost(limit));
        let holds: Value = self.expect_value(cond, Ghost(limit));
        if until {
            let _ = self.emit(Op::CondBranch(holds, exit, body_block));
        } else {
            let _ = self.emit(Op::CondBranch(holds, body_block, exit));
        }
        self.position_at_end(exit);
    }

    /// A loop over a range. The loop variable is the counter's slot, bound in a scope around the
    /// body; the step is not zero, so the counter always advances.
    pub(super) fn gen_for(
        &mut self,
        var: SymId,
        source: ExprId,
        body: &Block,
        Ghost(limit): Ghost<int>,
    )
        requires
            old(self).ready(limit),
            source.0 < limit,
            block_ok(body@, old(self).program().ast.bounds_before(limit)),
        ensures
            final(self).program() == old(self).program(),
            final(self).state() == for_code(
                old(self).state(),
                old(self).program(),
                var,
                source,
                body@,
                limit,
            ),
        decreases limit, 10int, body, body.stmts@.len() + 4,
    {
        let range_value: Value = self.expect_value(source, Ghost(limit));
        let parts: RangeParts = self.extract_range(range_value);
        let counter: Value = self.alloca_at_entry(PinpType::Int);
        let _ = self.emit(Op::Store(counter, parts.start));
        let going_up: Value = self.emit(
            Op::IntCompare(IntPredicate::Sgt, parts.step, Value::Int(0)),
        );
        let header: usize = self.append_block("for_header");
        let body_block: usize = self.append_block("for_body");
        let exit: usize = self.append_block("for_exit");
        let _ = self.emit(Op::Branch(header));
        self.position_at_end(header);
        let current: Value = self.load_counter(counter);
        let goes_on: Value = self.range_continue(current, parts.stop, parts.inclusive, going_up);
        let _ = self.emit(Op::CondBranch(goes_on, body_block, exit));
        self.position_at_end(body_block);
        self.push_scope();
        self.bind(var, (Slot { place: counter, value_type: PinpType::Int }));
        self.gen_block_for_effect(body, Ghost(limit));
        self.pop_scope();
        let reached: Value = self.load_counter(counter);
        let following: Value = self.emit(Op::IntBinary(IntOp::Add, reached, parts.step));
        let _ = self.emit(Op::Store(counter, following));
        let _ = self.emit(Op::Branch(header));
        self.position_at_end(exit);
    }

    /// `array[start..stop] = value`: the value is stored into every element of the slice. The
    /// bounds are literals, so the number of passes is known.
    pub(super) fn gen_slice_assign(
        &mut self,
        elem: ArrayElementType,
        array: Value,
        range: ExprId,
        value: ExprId,
        Ghost(limit): Ghost<int>,
    )
        requires
            old(self).ready(limit),
            range.0 < limit,
            value.0 < limit,
        ensures
            final(self).program() == old(self).program(),
            final(self).state() == slice_assign_code(
                old(self).state(),
                old(self).program(),
                elem,
                array,
                range,
                value,
                limit,
            ),
        decreases limit, 4int, old(self).program(), 0int,
    {
        let bounds: (i64, i64) = self.slice_bounds(range);
        let raw: Value = self.expect_value(value, Ghost(limit));
        let raw_type: PinpType = self.type_of(value);
        let stored: Value = self.promote(raw, raw_type, element_type(elem));
        let counted: CountedLoop = self.begin_counted_loop(
            Value::Int(bounds.1),
            "sla_hdr",
            "sla_body",
            "sla_exit",
        );
        let target_index: Value = self.emit(
            Op::IntBinary(IntOp::Add, counted.current, Value::Int(bounds.0)),
        );
        let target: Value = self.build_element_ptr(elem, array, target_index);
        let _ = self.emit(Op::Store(target, stored));
        self.end_counted_loop(counted);
    }

    /// Stores to an element: the value itself, or what a compound assignment makes of the element
    /// and the value.
    pub(super) fn store_element(
        &mut self,
        elem: ArrayElementType,
        element_ptr: Value,
        value: ExprId,
        compound_op: Option<BinOp>,
        Ghost(limit): Ghost<int>,
    )
        requires
            old(self).ready(limit),
            value.0 < limit,
        ensures
            final(self).program() == old(self).program(),
            final(self).state() == store_element(
                old(self).state(),
                old(self).program(),
                elem,
                element_ptr,
                value,
                compound_op,
                limit,
            ),
        decreases limit, 5int, old(self).program(), 0int,
    {
        let stored: Value = match compound_op {
            None => {
                let raw: Value = self.expect_value(value, Ghost(limit));
                let raw_type: PinpType = self.type_of(value);
                let promoted: Value = self.promote(raw, raw_type, element_type(elem));
                promoted
            },
            Some(operator) => {
                let current: Value = self.emit(Op::Load(element_ir_type(elem), element_ptr));
                let combined: Value = self.apply_compound_op(
                    operator,
                    current,
                    elem,
                    value,
                    Ghost(limit),
                );
                combined
            },
        };
        let _ = self.emit(Op::Store(element_ptr, stored));
    }

    /// `array[index] = value`, with a slice filled where the index is a range.
    pub(super) fn gen_indexed_assign(
        &mut self,
        target: Place,
        index: ExprId,
        value: ExprId,
        compound_op: Option<BinOp>,
        Ghost(limit): Ghost<int>,
    )
        requires
            old(self).ready(limit),
            index.0 < limit,
            value.0 < limit,
        ensures
            final(self).program() == old(self).program(),
            final(self).state() == indexed_assign_code(
                old(self).state(),
                old(self).program(),
                target,
                index,
                value,
                compound_op,
                limit,
            ),
        decreases limit, 6int, old(self).program(), 0int,
    {
        let slot: Slot = self.place_slot(target);
        match slot.value_type {
            PinpType::Array(elem, n) => {
                let array: Value = self.emit(Op::Load(IrType::Ptr, slot.place));
                let sliced: bool = self.is_range(index);
                if sliced {
                    self.gen_slice_assign(elem, array, index, value, Ghost(limit));
                } else {
                    let position: Value = self.as_int(index, Ghost(limit));
                    let element_ptr: Value = self.bounds_check_and_gep(elem, array, position, n);
                    self.store_element(elem, element_ptr, value, compound_op, Ghost(limit));
                }
            },
            _ => {
                self.fail(CodegenError::Malformed);
            },
        }
    }

    /// `matrix[row, col] = value`.
    pub(super) fn gen_indexed_assign2d(
        &mut self,
        target: Place,
        row: ExprId,
        col: ExprId,
        value: ExprId,
        compound_op: Option<BinOp>,
        Ghost(limit): Ghost<int>,
    )
        requires
            old(self).ready(limit),
            row.0 < limit,
            col.0 < limit,
            value.0 < limit,
        ensures
            final(self).program() == old(self).program(),
            final(self).state() == indexed_assign2d_code(
                old(self).state(),
                old(self).program(),
                target,
                row,
                col,
                value,
                compound_op,
                limit,
            ),
        decreases limit, 6int, old(self).program(), 0int,
    {
        let slot: Slot = self.place_slot(target);
        match slot.value_type {
            PinpType::Matrix(elem, rows, cols) => {
                let matrix: Value = self.emit(Op::Load(IrType::Ptr, slot.place));
                let row_value: Value = self.as_int(row, Ghost(limit));
                let col_value: Value = self.as_int(col, Ghost(limit));
                let element_ptr: Value = self.bounds_check_and_gep_2d(
                    elem,
                    matrix,
                    row_value,
                    col_value,
                    rows,
                    cols,
                );
                self.store_element(elem, element_ptr, value, compound_op, Ghost(limit));
            },
            _ => {
                self.fail(CodegenError::Malformed);
            },
        }
    }
}

} // verus!
