//! Lowering of expressions and value conversions.

use vstd::prelude::*;

use super::builder::{CodeGen, CodegenError, Slot};
use super::emit::{CountedLoop, DimSlice, RangeParts};
use super::ir::{
    Callee, Cast, FloatOp, IntOp, IntPredicate, IrType, Op, RuntimeFn, Value, element_ir_type,
    element_type,
};
use super::lowering::{
    BuiltinMember, DimSel, LiteralRange, apply_compound_op, args_code, arithmetic_code,
    array_from_range_code, array_literal_code, as_float, as_int, bin_code, builtin_member,
    builtin_member_code, call_code, compare_code, comprehension_code, diagonal_stored, element_code,
    elements_stored, expect_value, expr_code, float_op, float_predicate, identity_code,
    index2d_code, index2d_col_slice_code, index2d_elem_code, index2d_row_slice_code, index_code,
    int_op, int_predicate, is_range, literal_range, matrix_literal_code, membership_code, neg_code,
    node_at, node_code, not_code, owns_str_result, range_code, range_parts_code, rows_stored,
    selector, short_circuit_code, slice_code, type_of,
};
use crate::parser::ast::{
    ArrayElementType, Ast, BinOp, ExprId, FStrSegment, Node, NodeView, PinpType, RangeKind, SymId,
    UnOp, expr_ok, exprs_ok, nested, node_ok, segment_ok, symbol_ok,
};
use crate::text::same;

verus! {

impl<'ast, 'src> CodeGen<'ast, 'src> {
    pub(super) fn type_of(&self, expr_id: ExprId) -> (r: PinpType)
        requires
            self.ready(0),
            expr_id.0 < self.program().ast.nodes.len(),
        ensures
            r == type_of(self.program(), expr_id),
    {
        self.tree().types[expr_id.value()]
    }

    /// Whether lowering an expression yields a string that its consumer has to release.
    pub(super) fn owns_str_result(&self, expr_id: ExprId) -> (r: bool)
        requires
            self.ready(0),
            expr_id.0 < self.program().ast.nodes.len(),
        ensures
            r == owns_str_result(self.program(), expr_id),
    {
        let ast: &'ast Ast<'src> = self.tree();
        assert(ast@.nodes[expr_id.0 as int] == ast.nodes@[expr_id.0 as int]@);
        match &ast.nodes[expr_id.value()] {
            Node::Var(_) => false,
            Node::Global(_) => false,
            _ => true,
        }
    }

    pub(super) fn is_range(&self, expr_id: ExprId) -> (r: bool)
        requires
            self.ready(0),
            expr_id.0 < self.program().ast.nodes.len(),
        ensures
            r == is_range(self.program(), expr_id),
    {
        let ast: &'ast Ast<'src> = self.tree();
        assert(ast@.nodes[expr_id.0 as int] == ast.nodes@[expr_id.0 as int]@);
        match &ast.nodes[expr_id.value()] {
            Node::Range { .. } => true,
            _ => false,
        }
    }

    fn literal_int(&self, expr_id: ExprId) -> (r: Option<i64>)
        requires
            self.ready(0),
            expr_id.0 < self.program().ast.nodes.len(),
        ensures
            r == (match node_at(self.program(), expr_id) {
                NodeView::Int(value) => Some(value),
                _ => None,
            }),
    {
        let ast: &'ast Ast<'src> = self.tree();
        assert(ast@.nodes[expr_id.0 as int] == ast.nodes@[expr_id.0 as int]@);
        match &ast.nodes[expr_id.value()] {
            Node::Int(value) => Some(*value),
            _ => None,
        }
    }

    /// A range expression with literal bounds.
    pub(super) fn literal_range(&self, expr_id: ExprId) -> (r: Option<LiteralRange>)
        requires
            self.ready(0),
            expr_id.0 < self.program().ast.nodes.len(),
        ensures
            r == literal_range(self.program(), expr_id),
    {
        let ast: &'ast Ast<'src> = self.tree();
        proof {
            assert(ast@.nodes[expr_id.0 as int] == ast.nodes@[expr_id.0 as int]@);
            assert(node_ok(ast@.nodes[expr_id.0 as int], ast@.bounds_before(expr_id.0 as int)));
        }
        match &ast.nodes[expr_id.value()] {
            Node::Range { start, stop, kind, .. } => {
                match (self.literal_int(*start), self.literal_int(*stop)) {
                    (Some(start), Some(stop)) => Some(LiteralRange { start, stop, kind: *kind }),
                    _ => None,
                }
            },
            _ => None,
        }
    }

    /// Classifies one dimension selector as a single index or a slice; `:` takes the dimension.
    pub(super) fn classify_2d_selector(
        &self,
        expr_id: ExprId,
        dimension: usize,
    ) -> (r: Option<DimSel>)
        requires
            self.ready(0),
            expr_id.0 < self.program().ast.nodes.len(),
        ensures
            r == selector(self.program(), expr_id, dimension),
    {
        let ast: &'ast Ast<'src> = self.tree();
        assert(ast@.nodes[expr_id.0 as int] == ast.nodes@[expr_id.0 as int]@);
        match &ast.nodes[expr_id.value()] {
            Node::FullExtent => Some(DimSel::Slice(DimSlice { start: 0, len: dimension })),
            Node::Range { .. } => match self.literal_range(expr_id) {
                Some(literal) => {
                    let start: usize = literal.start as usize;
                    let stop: usize = literal.stop as usize;
                    if stop < start {
                        return None;
                    }
                    match literal.kind {
                        RangeKind::Inclusive => if stop - start < usize::MAX {
                            Some(DimSel::Slice(DimSlice { start, len: stop - start + 1 }))
                        } else {
                            None
                        },
                        RangeKind::UpExclusive => Some(
                            DimSel::Slice(DimSlice { start, len: stop - start }),
                        ),
                        RangeKind::DownExclusive => None,
                    }
                },
                None => None,
            },
            _ => Some(DimSel::Scalar),
        }
    }

    /// The built-in member a name stands for.
    pub(super) fn builtin_member_of(&self, member: SymId) -> (r: Option<BuiltinMember>)
        requires
            self.ready(0),
            symbol_ok(member, self.program().ast.bounds()),
        ensures
            r == builtin_member(self.program(), member),
    {
        let ast: &'ast Ast<'src> = self.tree();
        let name: &str = ast.names[member.value()];
        assert(ast@.names[member.0 as int] == name@);
        if same(name, "len") {
            Some(BuiltinMember::Len)
        } else if same(name, "ndim") {
            Some(BuiltinMember::Ndim)
        } else if same(name, "rows") {
            Some(BuiltinMember::Rows)
        } else if same(name, "cols") {
            Some(BuiltinMember::Cols)
        } else {
            None
        }
    }

    /// Lowers an expression to its value, or to none for one that yields nothing.
    pub(super) fn gen_expr(
        &mut self,
        expr_id: ExprId,
        Ghost(limit): Ghost<int>,
    ) -> (r: Option<Value>)
        requires
            old(self).ready(limit),
            expr_id.0 < limit,
        ensures
            final(self).program() == old(self).program(),
            (final(self).state(), r) == expr_code(
                old(self).state(),
                old(self).program(),
                expr_id,
                limit,
            ),
        decreases limit, 0int, old(self).program(), 0int,
    {
        self.gen_node(expr_id)
    }

    fn gen_node(&mut self, expr_id: ExprId) -> (r: Option<Value>)
        requires
            old(self).ready(expr_id.0 as int),
            expr_id.0 < old(self).program().ast.nodes.len(),
        ensures
            final(self).program() == old(self).program(),
            (final(self).state(), r) == node_code(
                old(self).state(),
                old(self).program(),
                type_of(old(self).program(), expr_id),
                node_at(old(self).program(), expr_id),
                expr_id.0 as int,
            ),
        decreases expr_id.0 as int, 13int, old(self).program(), 0int,
    {
        let ast: &'ast Ast<'src> = self.tree();
        let ghost limit = expr_id.0 as int;
        proof {
            assert(ast@.nodes[limit] == ast.nodes@[limit]@);
            assert(node_ok(ast@.nodes[limit], ast@.bounds_before(limit)));
            if let NodeView::FStr(segments) = ast@.nodes[limit] {
                assert forall|i: int| 0 <= i < segments.len() implies (
                #[trigger] segments[i] matches FStrSegment::Literal(str_id) ==> str_id.0
                    < ast@.strings.len()) by {
                    assert(segment_ok(segments[i], ast@.bounds_before(limit)));
                }
            }
        }
        let t: PinpType = self.type_of(expr_id);
        match &ast.nodes[expr_id.value()] {
            Node::Int(value) => Some(Value::Int(*value)),
            Node::Float(digits) => Some(self.const_float(digits.as_str())),
            Node::Bool(value) => Some(Value::Bool(*value)),
            Node::Str(str_id) => Some(self.gen_str_literal(*str_id)),
            Node::FStr { segments } => Some(self.gen_fstring(segments)),
            Node::Var(sym_id) => Some(self.load_var(*sym_id, false)),
            Node::Global(sym_id) => Some(self.load_var(*sym_id, true)),
            Node::Unary { op: UnOp::Neg, operand } => Some(self.gen_neg(t, *operand, Ghost(limit))),
            Node::Unary { op: UnOp::Not, operand } => Some(self.gen_not(*operand, Ghost(limit))),
            Node::Bin { op, lhs, rhs } => Some(self.gen_bin(t, *op, *lhs, *rhs, Ghost(limit))),
            Node::Call { callee, args } => self.gen_call(t, *callee, args, Ghost(limit)),
            Node::If { arms, else_block } => self.gen_if(t, arms, else_block, Ghost(limit)),
            Node::Range { start, stop, step, kind } => Some(
                self.gen_range_parts(*start, *stop, *step, *kind, Ghost(limit)),
            ),
            Node::Membership { value, range } => Some(
                self.gen_membership(*value, *range, Ghost(limit)),
            ),
            Node::ArrayLiteral { elements } => Some(
                self.gen_array_literal(t, elements, Ghost(limit)),
            ),
            Node::MatrixLiteral { rows } => Some(self.gen_matrix_literal(t, rows, Ghost(limit))),
            Node::Index { array, index } => Some(self.gen_index(t, *array, *index, Ghost(limit))),
            Node::Index2D { matrix, row, col } => Some(
                self.gen_index2d(*matrix, *row, *col, Ghost(limit)),
            ),
            Node::Member { object, member } => Some(
                self.gen_builtin_member(*object, *member, Ghost(limit)),
            ),
            Node::Comprehension { element, var, var_type, source } => Some(
                self.gen_comprehension(t, *element, *var, *var_type, *source, Ghost(limit)),
            ),
            Node::FullExtent => {
                self.fail(CodegenError::Malformed);
                None
            },
        }
    }

    /// Lowers an expression that has to be a range.
    pub(super) fn gen_range(&mut self, expr_id: ExprId, Ghost(limit): Ghost<int>) -> (r: Value)
        requires
            old(self).ready(limit),
            expr_id.0 < limit,
        ensures
            final(self).program() == old(self).program(),
            (final(self).state(), r) == range_code(
                old(self).state(),
                old(self).program(),
                expr_id,
                limit,
            ),
        decreases limit, 0int, old(self).program(), 0int,
    {
        let ast: &'ast Ast<'src> = self.tree();
        proof {
            assert(ast@.nodes[expr_id.0 as int] == ast.nodes@[expr_id.0 as int]@);
            assert(node_ok(ast@.nodes[expr_id.0 as int], ast@.bounds_before(expr_id.0 as int)));
        }
        match &ast.nodes[expr_id.value()] {
            Node::Range { start, stop, step, kind } => self.gen_range_parts(
                *start,
                *stop,
                *step,
                *kind,
                Ghost(expr_id.0 as int),
            ),
            _ => {
                self.fail(CodegenError::Malformed);
                Value::Int(0)
            },
        }
    }

    /// Lowers the arguments of a call, each promoted to its parameter's type.
    fn gen_args(&mut self, args: &Vec<ExprId>, params: &Vec<PinpType>, Ghost(limit): Ghost<int>) -> (r:
        Vec<Value>)
        requires
            old(self).ready(limit),
            exprs_ok(args@, old(self).program().ast.bounds_before(limit)),
        ensures
            final(self).program() == old(self).program(),
            (final(self).state(), r@) == args_code(
                old(self).state(),
                old(self).program(),
                args@,
                params@,
                Seq::empty(),
                limit,
            ),
        decreases limit, 3int, old(self).program(), args@.len() as int,
    {
        let mut done: Vec<Value> = Vec::new();
        let mut index: usize = 0;
        while index < args.len() && index < params.len()
            invariant
                self.ready(limit),
                self.program() == old(self).program(),
                exprs_ok(args@, self.program().ast.bounds_before(limit)),
                done@.len() == index,
                index <= args@.len(),
                args_code(
                    old(self).state(),
                    self.program(),
                    args@,
                    params@,
                    Seq::empty(),
                    limit,
                ) == args_code(self.state(), self.program(), args@, params@, done@, limit),
            decreases args@.len() - index,
        {
            let arg: ExprId = args[index];
            assert(expr_ok(args@[index as int], self.program().ast.bounds_before(limit)));
            let arg_type: PinpType = self.type_of(arg);
            let raw: Value = if arg_type == PinpType::Str {
                self.gen_owned_str(arg, Ghost(limit))
            } else {
                self.expect_value(arg, Ghost(limit))
            };
            let value: Value = self.promote(raw, arg_type, params[index]);
            done.push(value);
            index = index + 1;
        }
        done
    }

    /// Lowers a call.
    fn gen_call(
        &mut self,
        t: PinpType,
        callee: SymId,
        args: &Vec<ExprId>,
        Ghost(limit): Ghost<int>,
    ) -> (r: Option<Value>)
        requires
            old(self).ready(limit),
            symbol_ok(callee, old(self).program().ast.bounds()),
            exprs_ok(args@, old(self).program().ast.bounds_before(limit)),
        ensures
            final(self).program() == old(self).program(),
            (final(self).state(), r) == call_code(
                old(self).state(),
                old(self).program(),
                t,
                callee,
                args@,
                limit,
            ),
        decreases limit, 5int, old(self).program(), 0int,
    {
        let ast: &'ast Ast<'src> = self.tree();
        let name: &str = ast.names[callee.value()];
        assert(ast@.names[callee.0 as int] == name@);
        if same(name, "identity") {
            Some(self.gen_identity(t))
        } else if args.len() == 1 && same(name, "str") {
            assert(expr_ok(args@[0], self.program().ast.bounds_before(limit)));
            Some(self.gen_str_conversion(args[0], Ghost(limit)))
        } else if args.len() == 0 && same(name, "meminfo") {
            self.gen_meminfo();
            None
        } else {
            match self.find_function(callee) {
                Some(function) => {
                    let params: Vec<PinpType> = self.param_types(function);
                    let (_, result): (usize, PinpType) = self.arity(function);
                    let values: Vec<Value> = self.gen_args(args, &params, Ghost(limit));
                    let value: Value = self.call(Callee::Function(function), values);
                    if result == PinpType::Void {
                        None
                    } else {
                        Some(value)
                    }
                },
                None => {
                    self.fail(CodegenError::Malformed);
                    None
                },
            }
        }
    }

    /// `identity(n, type)`: zeroed storage for `n * n` elements, with ones stored on the diagonal.
    fn gen_identity(&mut self, t: PinpType) -> (r: Value)
        ensures
            final(self).program() == old(self).program(),
            (final(self).state(), r) == identity_code(old(self).state(), t),
    {
        let (elem, n): (ArrayElementType, usize) = match t {
            PinpType::Matrix(elem, n, _) => (elem, n),
            _ => {
                self.fail(CodegenError::Malformed);
                return Value::Int(0);
            },
        };
        let total: usize = match n.checked_mul(n) {
            Some(total) if elem != ArrayElementType::Bool => total,
            _ => {
                self.fail(CodegenError::Malformed);
                return Value::Int(0);
            },
        };
        let bytes: Value = self.byte_count(total, elem);
        let matrix: Value = self.call1(RuntimeFn::Alloc, bytes);
        let _ = self.call3(RuntimeFn::Memset, matrix, Value::I32(0), bytes);
        let one: Value = if elem == ArrayElementType::Int {
            Value::Int(1)
        } else {
            self.const_float("1.0")
        };
        let ghost zeroed = self.state();
        let mut index: usize = 0;
        while index < n
            invariant
                index <= n,
                n * n <= usize::MAX,
                self.program() == old(self).program(),
                diagonal_stored(zeroed, elem, matrix, one, n, 0) == diagonal_stored(
                    self.state(),
                    elem,
                    matrix,
                    one,
                    n,
                    index as int,
                ),
            decreases n - index,
        {
            assert(index * n + index < n * n) by (nonlinear_arith)
                requires
                    index < n,
            ;
            assert(index * n >= 0) by (nonlinear_arith);
            let flat: usize = index * n + index;
            let address: Value = self.build_element_ptr(
                elem,
                matrix,
                Value::Int(flat as u64 as i64),
            );
            let _ = self.emit(Op::Store(address, one));
            index = index + 1;
        }
        matrix
    }

    /// Stores elements behind each other, the first at `offset`.
    fn store_elements(
        &mut self,
        elements: &Vec<ExprId>,
        elem: ArrayElementType,
        base: Value,
        offset: usize,
        Ghost(limit): Ghost<int>,
    )
        requires
            old(self).ready(limit),
            exprs_ok(elements@, old(self).program().ast.bounds_before(limit)),
        ensures
            final(self).program() == old(self).program(),
            final(self).state() == elements_stored(
                old(self).state(),
                old(self).program(),
                elements@,
                elem,
                base,
                offset,
                0,
                limit,
            ),
        decreases limit, 3int, old(self).program(), elements@.len() as int,
    {
        let mut index: usize = 0;
        while index < elements.len()
            invariant
                self.ready(limit),
                self.program() == old(self).program(),
                exprs_ok(elements@, self.program().ast.bounds_before(limit)),
                index <= elements@.len(),
                elements_stored(
                    old(self).state(),
                    self.program(),
                    elements@,
                    elem,
                    base,
                    offset,
                    0,
                    limit,
                ) == elements_stored(
                    self.state(),
                    self.program(),
                    elements@,
                    elem,
                    base,
                    offset,
                    index as int,
                    limit,
                ),
            decreases elements@.len() - index,
        {
            let element: ExprId = elements[index];
            assert(expr_ok(elements@[index as int], self.program().ast.bounds_before(limit)));
            let raw: Value = self.expect_value(element, Ghost(limit));
            let raw_type: PinpType = self.type_of(element);
            let promoted: Value = self.promote(raw, raw_type, element_type(elem));
            let position: usize = self.sum(offset, index);
            let address: Value = self.build_element_ptr(
                elem,
                base,
                Value::Int(position as u64 as i64),
            );
            let _ = self.emit(Op::Store(address, promoted));
            index = index + 1;
        }
    }

    /// `[e0, e1, …]`: storage with each promoted element in its place. A single range is spelled
    /// out instead.
    fn gen_array_literal(&mut self, t: PinpType, elements: &Vec<ExprId>, Ghost(limit): Ghost<int>) -> (r:
        Value)
        requires
            old(self).ready(limit),
            exprs_ok(elements@, old(self).program().ast.bounds_before(limit)),
        ensures
            final(self).program() == old(self).program(),
            (final(self).state(), r) == array_literal_code(
                old(self).state(),
                old(self).program(),
                t,
                elements@,
                limit,
            ),
        decreases limit, 5int, old(self).program(), 0int,
    {
        match t {
            PinpType::Array(elem, n) => {
                if elements.len() == 1 {
                    assert(expr_ok(elements@[0], self.program().ast.bounds_before(limit)));
                    if self.is_range(elements[0]) {
                        return self.gen_array_from_range(elements[0], elem, n, Ghost(limit));
                    }
                }
                let array: Value = self.build_pinp_alloc(n, elem);
                self.store_elements(elements, elem, array, 0, Ghost(limit));
                array
            },
            _ => {
                self.fail(CodegenError::Malformed);
                Value::Int(0)
            },
        }
    }

    /// Stores the rows of a matrix behind each other.
    fn store_rows(
        &mut self,
        rows: &Vec<Vec<ExprId>>,
        elem: ArrayElementType,
        base: Value,
        cols: usize,
        Ghost(limit): Ghost<int>,
    )
        requires
            old(self).ready(limit),
            forall|i: int|
                0 <= i < rows@.len() ==> exprs_ok(
                    (#[trigger] rows@[i])@,
                    old(self).program().ast.bounds_before(limit),
                ),
        ensures
            final(self).program() == old(self).program(),
            final(self).state() == rows_stored(
                old(self).state(),
                old(self).program(),
                nested(rows@),
                elem,
                base,
                cols,
                0,
                limit,
            ),
        decreases limit, 4int, old(self).program(), rows@.len() as int,
    {
        let mut row: usize = 0;
        while row < rows.len()
            invariant
                self.ready(limit),
                self.program() == old(self).program(),
                forall|i: int|
                    0 <= i < rows@.len() ==> exprs_ok(
                        (#[trigger] rows@[i])@,
                        self.program().ast.bounds_before(limit),
                    ),
                row <= rows@.len(),
                rows_stored(
                    old(self).state(),
                    self.program(),
                    nested(rows@),
                    elem,
                    base,
                    cols,
                    0,
                    limit,
                ) == rows_stored(
                    self.state(),
                    self.program(),
                    nested(rows@),
                    elem,
                    base,
                    cols,
                    row as int,
                    limit,
                ),
            decreases rows@.len() - row,
        {
            assert(nested(rows@)[row as int] == rows@[row as int]@);
            let offset: usize = self.product(row, cols);
            self.store_elements(&rows[row], elem, base, offset, Ghost(limit));
            row = row + 1;
        }
    }

    /// `[r0; r1; …]`: storage in row-major order with each promoted element in its place.
    fn gen_matrix_literal(&mut self, t: PinpType, rows: &Vec<Vec<ExprId>>, Ghost(limit): Ghost<int>) -> (r:
        Value)
        requires
            old(self).ready(limit),
            forall|i: int|
                0 <= i < nested(rows@).len() ==> exprs_ok(
                    #[trigger] nested(rows@)[i],
                    old(self).program().ast.bounds_before(limit),
                ),
        ensures
            final(self).program() == old(self).program(),
            (final(self).state(), r) == matrix_literal_code(
                old(self).state(),
                old(self).program(),
                t,
                nested(rows@),
                limit,
            ),
        decreases limit, 5int, old(self).program(), 0int,
    {
        proof {
            assert forall|i: int| 0 <= i < rows@.len() implies exprs_ok(
                (#[trigger] rows@[i])@,
                self.program().ast.bounds_before(limit),
            ) by {
                assert(nested(rows@)[i] == rows@[i]@);
            }
        }
        match t {
            PinpType::Matrix(elem, row_count, cols) => {
                let total: usize = self.product(row_count, cols);
                let matrix: Value = self.build_pinp_alloc(total, elem);
                self.store_rows(rows, elem, matrix, cols, Ghost(limit));
                matrix
            },
            _ => {
                self.fail(CodegenError::Malformed);
                Value::Int(0)
            },
        }
    }

    /// Evaluates an expression that has to produce a value.
    pub(super) fn expect_value(&mut self, expr_id: ExprId, Ghost(limit): Ghost<int>) -> (r: Value)
        requires
            old(self).ready(limit),
            expr_id.0 < limit,
        ensures
            final(self).program() == old(self).program(),
            (final(self).state(), r) == expect_value(
                old(self).state(),
                old(self).program(),
                expr_id,
                limit,
            ),
        decreases limit, 1int, old(self).program(), 0int,
    {
        let yielded: Option<Value> = self.gen_expr(expr_id, Ghost(limit));
        let value: Value = match yielded {
            Some(found) => {
                found
            },
            None => {
                self.fail(CodegenError::VoidValue);
                Value::Int(0)
            },
        };
        value
    }

    /// Evaluates an expression as an `i64`, widening a `Bool` operand.
    pub(super) fn as_int(&mut self, expr_id: ExprId, Ghost(limit): Ghost<int>) -> (r: Value)
        requires
            old(self).ready(limit),
            expr_id.0 < limit,
        ensures
            final(self).program() == old(self).program(),
            (final(self).state(), r) == as_int(
                old(self).state(),
                old(self).program(),
                expr_id,
                limit,
            ),
        decreases limit, 2int, old(self).program(), 0int,
    {
        let value: Value = self.expect_value(expr_id, Ghost(limit));
        let value_type: PinpType = self.type_of(expr_id);
        let widened: Value = if value_type == PinpType::Bool {
            let wide: Value = self.emit(Op::Cast(Cast::ZeroExtend, value));
            wide
        } else {
            value
        };
        widened
    }

    /// Evaluates an expression as a float, converting a `Bool` or an `Int`.
    pub(super) fn as_float(&mut self, expr_id: ExprId, Ghost(limit): Ghost<int>) -> (r: Value)
        requires
            old(self).ready(limit),
            expr_id.0 < limit,
        ensures
            final(self).program() == old(self).program(),
            (final(self).state(), r) == as_float(
                old(self).state(),
                old(self).program(),
                expr_id,
                limit,
            ),
        decreases limit, 2int, old(self).program(), 0int,
    {
        let value: Value = self.expect_value(expr_id, Ghost(limit));
        let value_type: PinpType = self.type_of(expr_id);
        let float: Value = match value_type {
            PinpType::Int => {
                let wide: Value = self.emit(Op::Cast(Cast::SignedToFloat, value));
                wide
            },
            PinpType::Bool => {
                let wide: Value = self.emit(Op::Cast(Cast::UnsignedToFloat, value));
                wide
            },
            _ => {
                value
            },
        };
        float
    }

    /// `-operand`: the operand is widened to the result's type, an integer or a float, and negated.
    pub(super) fn gen_neg(
        &mut self,
        result_type: PinpType,
        operand: ExprId,
        Ghost(limit): Ghost<int>,
    ) -> (r: Value)
        requires
            old(self).ready(limit),
            operand.0 < limit,
        ensures
            final(self).program() == old(self).program(),
            (final(self).state(), r) == neg_code(
                old(self).state(),
                old(self).program(),
                result_type,
                operand,
                limit,
            ),
        decreases limit, 4int, old(self).program(), 0int,
    {
        let value: Value = self.expect_value(operand, Ghost(limit));
        let operand_type: PinpType = self.type_of(operand);
        let widened: Value = self.promote(value, operand_type, result_type);
        let negated: Value = if result_type == PinpType::Int {
            let integer: Value = self.emit(Op::IntNeg(widened));
            integer
        } else {
            let float: Value = self.emit(Op::FloatNeg(widened));
            float
        };
        negated
    }

    /// `not operand`.
    pub(super) fn gen_not(&mut self, operand: ExprId, Ghost(limit): Ghost<int>) -> (r: Value)
        requires
            old(self).ready(limit),
            operand.0 < limit,
        ensures
            final(self).program() == old(self).program(),
            (final(self).state(), r) == not_code(
                old(self).state(),
                old(self).program(),
                operand,
                limit,
            ),
        decreases limit, 4int, old(self).program(), 0int,
    {
        let value: Value = self.expect_value(operand, Ghost(limit));
        let negated: Value = self.emit(Op::Not(value));
        negated
    }

    /// A range from its parts, with a step of one either way where none is given. Building a range
    /// whose step is zero is a runtime error, so every range has a step that advances.
    pub(super) fn gen_range_parts(
        &mut self,
        start: ExprId,
        stop: ExprId,
        step: Option<ExprId>,
        kind: RangeKind,
        Ghost(limit): Ghost<int>,
    ) -> (r: Value)
        requires
            old(self).ready(limit),
            start.0 < limit,
            stop.0 < limit,
            step matches Some(part) ==> part.0 < limit,
        ensures
            final(self).program() == old(self).program(),
            (final(self).state(), r) == range_parts_code(
                old(self).state(),
                old(self).program(),
                start,
                stop,
                step,
                kind,
                limit,
            ),
        decreases limit, 4int, old(self).program(), 0int,
    {
        let start_value: Value = self.as_int(start, Ghost(limit));
        let stop_value: Value = self.as_int(stop, Ghost(limit));
        let step_value: Value = match step {
            Some(step_id) => {
                let given: Value = self.as_int(step_id, Ghost(limit));
                given
            },
            None => {
                let implied: Value = self.default_step(kind, start_value, stop_value);
                implied
            },
        };
        self.guard_zero_step(step_value);
        let range: Value = self.build_range(
            start_value,
            stop_value,
            step_value,
            Value::Bool(kind == RangeKind::Inclusive),
        );
        range
    }

    /// `value in range`. The step of a range is not zero, so the remainder by it exists.
    pub(super) fn gen_membership(
        &mut self,
        value: ExprId,
        range: ExprId,
        Ghost(limit): Ghost<int>,
    ) -> (r: Value)
        requires
            old(self).ready(limit),
            value.0 < limit,
            range.0 < limit,
        ensures
            final(self).program() == old(self).program(),
            (final(self).state(), r) == membership_code(
                old(self).state(),
                old(self).program(),
                value,
                range,
                limit,
            ),
        decreases limit, 4int, old(self).program(), 0int,
    {
        let candidate: Value = self.as_int(value, Ghost(limit));
        let range_value: Value = self.expect_value(range, Ghost(limit));
        let parts: RangeParts = self.extract_range(range_value);
        let inside: Value = self.member_test(candidate, parts);
        inside
    }

    /// `+`, `-` or `*`: on strings a join, on floats when the result is one, and on integers
    /// otherwise.
    pub(super) fn gen_arithmetic(
        &mut self,
        result_type: PinpType,
        operator: BinOp,
        lhs: ExprId,
        rhs: ExprId,
        Ghost(limit): Ghost<int>,
    ) -> (r: Value)
        requires
            old(self).ready(limit),
            lhs.0 < limit,
            rhs.0 < limit,
        ensures
            final(self).program() == old(self).program(),
            (final(self).state(), r) == arithmetic_code(
                old(self).state(),
                old(self).program(),
                result_type,
                operator,
                lhs,
                rhs,
                limit,
            ),
        decreases limit, 5int, old(self).program(), 0int,
    {
        let result: Value = if result_type == PinpType::Str && operator == BinOp::Add {
            let joined: Value = self.gen_str_concat(lhs, rhs, Ghost(limit));
            joined
        } else if result_type == PinpType::Float {
            let left: Value = self.as_float(lhs, Ghost(limit));
            let right: Value = self.as_float(rhs, Ghost(limit));
            let float: Value = self.emit(Op::FloatBinary(float_op(operator), left, right));
            float
        } else {
            let left: Value = self.as_int(lhs, Ghost(limit));
            let right: Value = self.as_int(rhs, Ghost(limit));
            let integer: Value = self.emit(Op::IntBinary(int_op(operator), left, right));
            integer
        };
        result
    }

    /// A binary operation.
    pub(super) fn gen_bin(
        &mut self,
        result_type: PinpType,
        operator: BinOp,
        lhs: ExprId,
        rhs: ExprId,
        Ghost(limit): Ghost<int>,
    ) -> (r: Value)
        requires
            old(self).ready(limit),
            lhs.0 < limit,
            rhs.0 < limit,
        ensures
            final(self).program() == old(self).program(),
            (final(self).state(), r) == bin_code(
                old(self).state(),
                old(self).program(),
                result_type,
                operator,
                lhs,
                rhs,
                limit,
            ),
        decreases limit, 6int, old(self).program(), 0int,
    {
        let result: Value = match operator {
            BinOp::Add | BinOp::Sub | BinOp::Mul => {
                let value: Value = self.gen_arithmetic(
                    result_type,
                    operator,
                    lhs,
                    rhs,
                    Ghost(limit),
                );
                value
            },
            BinOp::Div => {
                let left: Value = self.as_float(lhs, Ghost(limit));
                let right: Value = self.as_float(rhs, Ghost(limit));
                let quotient: Value = self.emit(Op::FloatBinary(FloatOp::Div, left, right));
                quotient
            },
            BinOp::IntDiv | BinOp::Mod => {
                let left: Value = self.as_int(lhs, Ghost(limit));
                let right: Value = self.as_int(rhs, Ghost(limit));
                let integer: Value = self.emit(Op::IntBinary(int_op(operator), left, right));
                integer
            },
            BinOp::Pow => {
                let left: Value = self.as_float(lhs, Ghost(limit));
                let right: Value = self.as_float(rhs, Ghost(limit));
                let power: Value = self.build_pow(left, right);
                let raised: Value = if result_type == PinpType::Int {
                    let truncated: Value = self.emit(Op::Cast(Cast::FloatToSigned, power));
                    truncated
                } else {
                    power
                };
                raised
            },
            BinOp::Xor => {
                let left: Value = self.expect_value(lhs, Ghost(limit));
                let right: Value = self.expect_value(rhs, Ghost(limit));
                let either: Value = self.emit(Op::IntBinary(IntOp::Xor, left, right));
                either
            },
            BinOp::And | BinOp::Or => {
                let value: Value = self.gen_short_circuit(operator, lhs, rhs, Ghost(limit));
                value
            },
            _ => {
                let relation: Value = self.gen_compare(operator, lhs, rhs, Ghost(limit));
                relation
            },
        };
        result
    }

    /// A comparison, at the operands' common type: strings through the runtime, floats if either
    /// side is one, and integers otherwise.
    pub(super) fn gen_compare(
        &mut self,
        operator: BinOp,
        lhs: ExprId,
        rhs: ExprId,
        Ghost(limit): Ghost<int>,
    ) -> (r: Value)
        requires
            old(self).ready(limit),
            lhs.0 < limit,
            rhs.0 < limit,
        ensures
            final(self).program() == old(self).program(),
            (final(self).state(), r) == compare_code(
                old(self).state(),
                old(self).program(),
                operator,
                lhs,
                rhs,
                limit,
            ),
        decreases limit, 5int, old(self).program(), 0int,
    {
        let left_type: PinpType = self.type_of(lhs);
        let right_type: PinpType = self.type_of(rhs);
        let relation: Value = if left_type == PinpType::Str || right_type == PinpType::Str {
            let strings: Value = self.gen_str_compare(operator, lhs, rhs, Ghost(limit));
            strings
        } else if left_type == PinpType::Float || right_type == PinpType::Float {
            let left: Value = self.as_float(lhs, Ghost(limit));
            let right: Value = self.as_float(rhs, Ghost(limit));
            let floats: Value = self.emit(Op::FloatCompare(float_predicate(operator), left, right));
            floats
        } else {
            let left: Value = self.as_int(lhs, Ghost(limit));
            let right: Value = self.as_int(rhs, Ghost(limit));
            let integers: Value = self.emit(Op::IntCompare(int_predicate(operator), left, right));
            integers
        };
        relation
    }

    /// `and` and `or`: the right operand is evaluated only when the left one does not decide. The
    /// value is the deciding constant on the way past it, and the right operand's value behind it.
    pub(super) fn gen_short_circuit(
        &mut self,
        operator: BinOp,
        lhs: ExprId,
        rhs: ExprId,
        Ghost(limit): Ghost<int>,
    ) -> (r: Value)
        requires
            old(self).ready(limit),
            lhs.0 < limit,
            rhs.0 < limit,
        ensures
            final(self).program() == old(self).program(),
            (final(self).state(), r) == short_circuit_code(
                old(self).state(),
                old(self).program(),
                operator,
                lhs,
                rhs,
                limit,
            ),
        decreases limit, 4int, old(self).program(), 0int,
    {
        let left: Value = self.expect_value(lhs, Ghost(limit));
        let entry: usize = self.get_insert_block();
        let rhs_block: usize = self.append_block("sc_rhs");
        let merge: usize = self.append_block("sc_merge");
        if operator == BinOp::And {
            let _ = self.emit(Op::CondBranch(left, rhs_block, merge));
        } else {
            let _ = self.emit(Op::CondBranch(left, merge, rhs_block));
        }
        self.position_at_end(rhs_block);
        let right: Value = self.expect_value(rhs, Ghost(limit));
        let rhs_end: usize = self.get_insert_block();
        let _ = self.emit(Op::Branch(merge));
        self.position_at_end(merge);
        let decided: Value = self.phi2(
            IrType::I1,
            Value::Bool(operator == BinOp::Or),
            entry,
            right,
            rhs_end,
        );
        decided
    }

    /// A compound assignment's operator on what the element holds and the value of an expression.
    pub(super) fn apply_compound_op(
        &mut self,
        operator: BinOp,
        current: Value,
        elem: ArrayElementType,
        rhs: ExprId,
        Ghost(limit): Ghost<int>,
    ) -> (r: Value)
        requires
            old(self).ready(limit),
            rhs.0 < limit,
        ensures
            final(self).program() == old(self).program(),
            (final(self).state(), r) == apply_compound_op(
                old(self).state(),
                old(self).program(),
                operator,
                current,
                elem,
                rhs,
                limit,
            ),
        decreases limit, 4int, old(self).program(), 0int,
    {
        let value: Value = self.expect_value(rhs, Ghost(limit));
        let value_type: PinpType = self.type_of(rhs);
        let combined: Value = self.combine(operator, current, elem, value, value_type);
        combined
    }

    /// `[start..stop[:step]]`: `n` elements, filled with the range's integers by a counted loop.
    pub(super) fn gen_array_from_range(
        &mut self,
        range: ExprId,
        elem: ArrayElementType,
        n: usize,
        Ghost(limit): Ghost<int>,
    ) -> (r: Value)
        requires
            old(self).ready(limit),
            range.0 < limit,
        ensures
            final(self).program() == old(self).program(),
            (final(self).state(), r) == array_from_range_code(
                old(self).state(),
                old(self).program(),
                range,
                elem,
                n,
                limit,
            ),
        decreases limit, 4int, old(self).program(), 0int,
    {
        let array: Value = self.build_pinp_alloc(n, elem);
        let range_value: Value = self.gen_range(range, Ghost(limit));
        let parts: RangeParts = self.extract_range(range_value);
        let slots: (Value, Value) = self.begin_range_slots(PinpType::Int, parts.start);
        let header: usize = self.append_block("rinit_header");
        let body: usize = self.append_block("rinit_body");
        let exit: usize = self.append_block("rinit_exit");
        let _ = self.emit(Op::Branch(header));
        self.position_at_end(header);
        let position: Value = self.load_counter(slots.1);
        let cond: Value = self.emit(
            Op::IntCompare(IntPredicate::Slt, position, Value::Int(n as u64 as i64)),
        );
        let _ = self.emit(Op::CondBranch(cond, body, exit));
        self.position_at_end(body);
        let current: Value = self.load_counter(slots.0);
        let target: Value = self.load_counter(slots.1);
        let element_ptr: Value = self.build_element_ptr(elem, array, target);
        let element: Value = self.promote(current, PinpType::Int, element_type(elem));
        let _ = self.emit(Op::Store(element_ptr, element));
        let following: Value = self.emit(Op::IntBinary(IntOp::Add, current, parts.step));
        let _ = self.emit(Op::Store(slots.0, following));
        let next_target: Value = self.emit(Op::IntBinary(IntOp::Add, target, Value::Int(1)));
        let _ = self.emit(Op::Store(slots.1, next_target));
        let _ = self.emit(Op::Branch(header));
        self.position_at_end(exit);
        array
    }

    /// `array[index]`: bounds-checked, one element.
    pub(super) fn gen_element(
        &mut self,
        array: ExprId,
        index: ExprId,
        Ghost(limit): Ghost<int>,
    ) -> (r: Value)
        requires
            old(self).ready(limit),
            array.0 < limit,
            index.0 < limit,
        ensures
            final(self).program() == old(self).program(),
            (final(self).state(), r) == element_code(
                old(self).state(),
                old(self).program(),
                array,
                index,
                limit,
            ),
        decreases limit, 4int, old(self).program(), 0int,
    {
        let array_type: PinpType = self.type_of(array);
        let value: Value = match array_type {
            PinpType::Array(elem, n) => {
                let base: Value = self.expect_value(array, Ghost(limit));
                let position: Value = self.as_int(index, Ghost(limit));
                let element_ptr: Value = self.bounds_check_and_gep(elem, base, position, n);
                let element: Value = self.emit(Op::Load(element_ir_type(elem), element_ptr));
                element
            },
            _ => {
                self.fail(CodegenError::Malformed);
                Value::Int(0)
            },
        };
        value
    }

    /// `array[start..stop]`: a new array with the elements from `start` on, as many as the result's
    /// type says. The bounds are literals.
    pub(super) fn gen_slice(
        &mut self,
        result_type: PinpType,
        array: ExprId,
        range: ExprId,
        Ghost(limit): Ghost<int>,
    ) -> (r: Value)
        requires
            old(self).ready(limit),
            array.0 < limit,
            range.0 < limit,
        ensures
            final(self).program() == old(self).program(),
            (final(self).state(), r) == slice_code(
                old(self).state(),
                old(self).program(),
                result_type,
                array,
                range,
                limit,
            ),
        decreases limit, 4int, old(self).program(), 0int,
    {
        let bounds: Option<LiteralRange> = self.literal_range(range);
        let value: Value = match (result_type, bounds) {
            (PinpType::Array(elem, count), Some(literal)) => {
                let source: Value = self.expect_value(array, Ghost(limit));
                let target: Value = self.build_pinp_alloc(count, elem);
                let counted: CountedLoop = self.begin_counted_loop(
                    Value::Int(count as u64 as i64),
                    "slice_hdr",
                    "slice_body",
                    "slice_exit",
                );
                let source_index: Value = self.emit(
                    Op::IntBinary(IntOp::Add, counted.current, Value::Int(literal.start)),
                );
                self.copy_element(elem, source, source_index, target, counted.current);
                self.end_counted_loop(counted);
                target
            },
            _ => {
                self.fail(CodegenError::Malformed);
                Value::Int(0)
            },
        };
        value
    }

    /// `array[index]`, or a slice where the index is a range.
    pub(super) fn gen_index(
        &mut self,
        result_type: PinpType,
        array: ExprId,
        index: ExprId,
        Ghost(limit): Ghost<int>,
    ) -> (r: Value)
        requires
            old(self).ready(limit),
            array.0 < limit,
            index.0 < limit,
        ensures
            final(self).program() == old(self).program(),
            (final(self).state(), r) == index_code(
                old(self).state(),
                old(self).program(),
                result_type,
                array,
                index,
                limit,
            ),
        decreases limit, 5int, old(self).program(), 0int,
    {
        let sliced: bool = self.is_range(index);
        let value: Value = if sliced {
            let slice: Value = self.gen_slice(result_type, array, index, Ghost(limit));
            slice
        } else {
            let element: Value = self.gen_element(array, index, Ghost(limit));
            element
        };
        value
    }

    /// `matrix[row, col]`: one element, both dimensions bounds-checked.
    pub(super) fn gen_index2d_elem(
        &mut self,
        elem: ArrayElementType,
        matrix: Value,
        row: ExprId,
        col: ExprId,
        rows: usize,
        cols: usize,
        Ghost(limit): Ghost<int>,
    ) -> (r: Value)
        requires
            old(self).ready(limit),
            row.0 < limit,
            col.0 < limit,
        ensures
            final(self).program() == old(self).program(),
            (final(self).state(), r) == index2d_elem_code(
                old(self).state(),
                old(self).program(),
                elem,
                matrix,
                row,
                col,
                rows,
                cols,
                limit,
            ),
        decreases limit, 4int, old(self).program(), 0int,
    {
        let row_value: Value = self.as_int(row, Ghost(limit));
        let col_value: Value = self.as_int(col, Ghost(limit));
        let element_ptr: Value = self.bounds_check_and_gep_2d(
            elem,
            matrix,
            row_value,
            col_value,
            rows,
            cols,
        );
        let element: Value = self.emit(Op::Load(element_ir_type(elem), element_ptr));
        element
    }

    /// `matrix[row, c1..c1+n]`: part of a row.
    pub(super) fn gen_index2d_row_slice(
        &mut self,
        elem: ArrayElementType,
        matrix: Value,
        row: ExprId,
        rows: usize,
        cols: usize,
        slice: DimSlice,
        Ghost(limit): Ghost<int>,
    ) -> (r: Value)
        requires
            old(self).ready(limit),
            row.0 < limit,
        ensures
            final(self).program() == old(self).program(),
            (final(self).state(), r) == index2d_row_slice_code(
                old(self).state(),
                old(self).program(),
                elem,
                matrix,
                row,
                rows,
                cols,
                slice,
                limit,
            ),
        decreases limit, 4int, old(self).program(), 0int,
    {
        let row_value: Value = self.as_int(row, Ghost(limit));
        let part: Value = self.copy_row(elem, matrix, row_value, rows, cols, slice);
        part
    }

    /// `matrix[r1..r1+n, col]`: part of a column.
    pub(super) fn gen_index2d_col_slice(
        &mut self,
        elem: ArrayElementType,
        matrix: Value,
        col: ExprId,
        cols: usize,
        slice: DimSlice,
        Ghost(limit): Ghost<int>,
    ) -> (r: Value)
        requires
            old(self).ready(limit),
            col.0 < limit,
        ensures
            final(self).program() == old(self).program(),
            (final(self).state(), r) == index2d_col_slice_code(
                old(self).state(),
                old(self).program(),
                elem,
                matrix,
                col,
                cols,
                slice,
                limit,
            ),
        decreases limit, 4int, old(self).program(), 0int,
    {
        let col_value: Value = self.as_int(col, Ghost(limit));
        let part: Value = self.copy_column(elem, matrix, col_value, cols, slice);
        part
    }

    /// `matrix[row, col]`, where each selector is a single index or a slice.
    pub(super) fn gen_index2d(
        &mut self,
        matrix: ExprId,
        row: ExprId,
        col: ExprId,
        Ghost(limit): Ghost<int>,
    ) -> (r: Value)
        requires
            old(self).ready(limit),
            matrix.0 < limit,
            row.0 < limit,
            col.0 < limit,
        ensures
            final(self).program() == old(self).program(),
            (final(self).state(), r) == index2d_code(
                old(self).state(),
                old(self).program(),
                matrix,
                row,
                col,
                limit,
            ),
        decreases limit, 5int, old(self).program(), 0int,
    {
        let matrix_type: PinpType = self.type_of(matrix);
        let value: Value = match matrix_type {
            PinpType::Matrix(elem, rows, cols) => {
                let base: Value = self.expect_value(matrix, Ghost(limit));
                let row_sel: Option<DimSel> = self.classify_2d_selector(row, rows);
                let col_sel: Option<DimSel> = self.classify_2d_selector(col, cols);
                let selected: Value = match (row_sel, col_sel) {
                    (Some(DimSel::Scalar), Some(DimSel::Scalar)) => {
                        let element: Value = self.gen_index2d_elem(
                            elem,
                            base,
                            row,
                            col,
                            rows,
                            cols,
                            Ghost(limit),
                        );
                        element
                    },
                    (Some(DimSel::Scalar), Some(DimSel::Slice(slice))) => {
                        let part: Value = self.gen_index2d_row_slice(
                            elem,
                            base,
                            row,
                            rows,
                            cols,
                            slice,
                            Ghost(limit),
                        );
                        part
                    },
                    (Some(DimSel::Slice(slice)), Some(DimSel::Scalar)) => {
                        let part: Value = self.gen_index2d_col_slice(
                            elem,
                            base,
                            col,
                            cols,
                            slice,
                            Ghost(limit),
                        );
                        part
                    },
                    (Some(DimSel::Slice(row_slice)), Some(DimSel::Slice(col_slice))) => {
                        let part: Value = self.gen_index2d_submatrix(
                            elem,
                            base,
                            cols,
                            row_slice,
                            col_slice,
                        );
                        part
                    },
                    _ => {
                        self.fail(CodegenError::Malformed);
                        Value::Int(0)
                    },
                };
                selected
            },
            _ => {
                self.fail(CodegenError::Malformed);
                Value::Int(0)
            },
        };
        value
    }

    /// A built-in member. What an array or a matrix has is known from its type; only a string has
    /// to be asked for its length.
    pub(super) fn gen_builtin_member(
        &mut self,
        object: ExprId,
        member: SymId,
        Ghost(limit): Ghost<int>,
    ) -> (r: Value)
        requires
            old(self).ready(limit),
            object.0 < limit,
            symbol_ok(member, old(self).program().ast.bounds()),
        ensures
            final(self).program() == old(self).program(),
            (final(self).state(), r) == builtin_member_code(
                old(self).state(),
                old(self).program(),
                object,
                member,
                limit,
            ),
        decreases limit, 5int, old(self).program(), 0int,
    {
        let builtin: Option<BuiltinMember> = self.builtin_member_of(member);
        let object_type: PinpType = self.type_of(object);
        let value: Value = match (builtin, object_type) {
            (Some(BuiltinMember::Len), PinpType::Str) => {
                let length: Value = self.gen_str_len(object, Ghost(limit));
                length
            },
            (Some(BuiltinMember::Len), PinpType::Array(_, n)) => {
                Value::Int(n as u64 as i64)
            },
            (Some(BuiltinMember::Len), PinpType::Matrix(_, rows, cols)) => {
                let size: usize = self.product(rows, cols);
                Value::Int(size as u64 as i64)
            },
            (Some(BuiltinMember::Ndim), PinpType::Array(_, _)) => {
                Value::Int(1)
            },
            (Some(BuiltinMember::Ndim), PinpType::Matrix(_, _, _)) => {
                Value::Int(2)
            },
            (Some(BuiltinMember::Rows), PinpType::Matrix(_, rows, _)) => {
                Value::Int(rows as u64 as i64)
            },
            (Some(BuiltinMember::Cols), PinpType::Matrix(_, _, cols)) => {
                Value::Int(cols as u64 as i64)
            },
            _ => {
                self.fail(CodegenError::Malformed);
                Value::Int(0)
            },
        };
        value
    }

    /// `[element for var in source]`: an array of as many elements as the type says, one for each
    /// value of the range. The variable is in scope in the element alone.
    pub(super) fn gen_comprehension(
        &mut self,
        result_type: PinpType,
        element: ExprId,
        var: SymId,
        var_type: PinpType,
        source: ExprId,
        Ghost(limit): Ghost<int>,
    ) -> (r: Value)
        requires
            old(self).ready(limit),
            element.0 < limit,
            source.0 < limit,
        ensures
            final(self).program() == old(self).program(),
            (final(self).state(), r) == comprehension_code(
                old(self).state(),
                old(self).program(),
                result_type,
                element,
                var,
                var_type,
                source,
                limit,
            ),
        decreases limit, 5int, old(self).program(), 0int,
    {
        let value: Value = match result_type {
            PinpType::Array(elem, n) => {
                let array: Value = self.build_pinp_alloc(n, elem);
                let range_value: Value = self.gen_range(source, Ghost(limit));
                let parts: RangeParts = self.extract_range(range_value);
                let slots: (Value, Value) = self.begin_range_slots(var_type, parts.start);
                self.push_scope();
                self.bind(var, (Slot { place: slots.0, value_type: var_type }));
                let header: usize = self.append_block("compr_header");
                let body: usize = self.append_block("compr_body");
                let exit: usize = self.append_block("compr_exit");
                let _ = self.emit(Op::Branch(header));
                self.position_at_end(header);
                let position: Value = self.load_counter(slots.1);
                let cond: Value = self.emit(
                    Op::IntCompare(IntPredicate::Slt, position, Value::Int(n as u64 as i64)),
                );
                let _ = self.emit(Op::CondBranch(cond, body, exit));
                self.position_at_end(body);
                let raw: Value = self.expect_value(element, Ghost(limit));
                let raw_type: PinpType = self.type_of(element);
                let promoted: Value = self.promote(raw, raw_type, element_type(elem));
                let target: Value = self.load_counter(slots.1);
                let element_ptr: Value = self.build_element_ptr(elem, array, target);
                let _ = self.emit(Op::Store(element_ptr, promoted));
                let next_target: Value = self.emit(
                    Op::IntBinary(IntOp::Add, target, Value::Int(1)),
                );
                let _ = self.emit(Op::Store(slots.1, next_target));
                self.advance_range_var(var_type, slots.0, parts.step);
                let _ = self.emit(Op::Branch(header));
                self.position_at_end(exit);
                self.pop_scope();
                array
            },
            _ => {
                self.fail(CodegenError::Malformed);
                Value::Int(0)
            },
        };
        value
    }
}

} // verus!
