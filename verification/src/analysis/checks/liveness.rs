//! Liveness: which bindings still have a read ahead of them.
//!
//! A backward analysis — the fact at a point is the set of symbols something later will read. A
//! read makes a symbol live, a write kills it (whatever was there is gone), and at a merge the sets
//! union, because a symbol read on *any* onward path is still needed.
//!
//! Two findings fall out of the solution:
//!
//! * a write to a symbol that is not live immediately afterwards is a **dead store** — the value is
//!   replaced or discarded before anything looks at it;
//! * a symbol with no read anywhere is an **unused binding**.
//!
//! They are separate rules because the fix differs, and because reporting every store to a
//! never-read binding would bury the one line worth changing.

use crate::analysis::cfg::{
    action_ok, data_ok, graph_ok, successors_of, terminator_ok, Action, ActionView, BasicBlock,
    BlockData, BlockId, Cfg, CfgView, Terminator,
};
use crate::analysis::checks::reachability::diagnostic_views;
use crate::analysis::dataflow::{
    across_block, agrees_at, back_across_actions, budget, flows, flows_in, incoming, monotone,
    numbers, run, settled, solutions_are_fixpoints, solutions_are_least, solved, try_solve, unsolved,
    visited, Analysis, Direction, MergeableFact, Solution, SolveState, SymbolSetFact,
};
use crate::analysis::diagnostic::{finding, Diagnostic, DiagnosticCode, DiagnosticView};
use crate::lexer::Span;
use crate::parser::ast::{
    arm_views, block_ok, expr_ok, exprs_ok, nested, node_ok, place_sym, places_ok, stmt_ok,
    symbol_of, symbol_ok, Ast, AstView, Block, BlockView, ExprId, FStrSegment, IfArm, IfArmView,
    Node, NodeView, Place, ProgramAst, Stmt, StmtView, SymId, TopLevel, TopLevelView,
};
use crate::symbols::{set_contains, set_insert, set_items, symbol_set, SymbolSet};
use crate::text::{join3, same};
use vstd::prelude::*;
use vstd::string::*;

verus! {

// ---------------------------------------------------------------------------
// What is read and written
// ---------------------------------------------------------------------------

/// The symbols an expression below `limit` reads.
pub open spec fn reads_in_expr(ast: AstView, expr_id: ExprId, limit: int) -> Set<u32>
    decreases limit, 0int, ast, 0int,
{
    if expr_id.0 >= limit {
        Set::empty()
    } else {
        reads_in_node(ast, ast.nodes[expr_id.0 as int], expr_id.0 as int)
    }
}

/// The symbols a node reads whose parts lie below `limit`. Nested blocks — an `if`-expression's
/// arms — are walked for their reads.
pub open spec fn reads_in_node(ast: AstView, node: NodeView, limit: int) -> Set<u32>
    decreases limit, 3int, ast, 0int,
{
    match node {
        NodeView::Var(sym_id) => set![sym_id.0],
        NodeView::Global(sym_id) => set![sym_id.0],
        NodeView::FStr(segments) => reads_in_segments(segments, segments.len() as int),
        NodeView::Unary(_, operand) => reads_in_expr(ast, operand, limit),
        NodeView::Bin(_, lhs, rhs) => reads_in_expr(ast, lhs, limit).union(
            reads_in_expr(ast, rhs, limit),
        ),
        NodeView::Call(_, args) => reads_in_list(ast, args, args.len() as int, limit),
        NodeView::If(arms, else_block) => {
            let in_arms = reads_in_arms(ast, arms, arms.len() as int, limit);
            match else_block {
                Some(block) => in_arms.union(reads_in_block(ast, block, limit)),
                None => in_arms,
            }
        },
        NodeView::Range(start, stop, step, _) => {
            let bounds = reads_in_expr(ast, start, limit).union(reads_in_expr(ast, stop, limit));
            match step {
                Some(step) => bounds.union(reads_in_expr(ast, step, limit)),
                None => bounds,
            }
        },
        NodeView::Membership(value, range) => reads_in_expr(ast, value, limit).union(
            reads_in_expr(ast, range, limit),
        ),
        NodeView::ArrayLiteral(elements) => reads_in_list(
            ast,
            elements,
            elements.len() as int,
            limit,
        ),
        NodeView::MatrixLiteral(rows) => reads_in_rows(ast, rows, rows.len() as int, limit),
        NodeView::Index(array, index) => reads_in_expr(ast, array, limit).union(
            reads_in_expr(ast, index, limit),
        ),
        NodeView::Index2D(matrix, row, col) => reads_in_expr(ast, matrix, limit).union(
            reads_in_expr(ast, row, limit),
        ).union(reads_in_expr(ast, col, limit)),
        NodeView::Member(object, _) => reads_in_expr(ast, object, limit),
        NodeView::Comprehension(element, _, _, source) => reads_in_expr(ast, element, limit).union(
            reads_in_expr(ast, source, limit),
        ),
        NodeView::Int(_) | NodeView::Float(_) | NodeView::Bool(_) | NodeView::Str(_)
        | NodeView::FullExtent => Set::empty(),
    }
}

/// The symbols that the first `count` pieces of an f-string read.
pub open spec fn reads_in_segments(segments: Seq<FStrSegment>, count: int) -> Set<u32>
    decreases count,
{
    if count <= 0 {
        Set::empty()
    } else {
        match segments[count - 1] {
            FStrSegment::Literal(_) => reads_in_segments(segments, count - 1),
            FStrSegment::Interp(place) => reads_in_segments(segments, count - 1).insert(
                symbol_of(place).0,
            ),
        }
    }
}

/// The symbols that the first `count` of several expressions read.
pub open spec fn reads_in_list(ast: AstView, exprs: Seq<ExprId>, count: int, limit: int) -> Set<u32>
    decreases limit, 0int, ast, count + 1,
{
    if count <= 0 {
        Set::empty()
    } else {
        reads_in_list(ast, exprs, count - 1, limit).union(
            reads_in_expr(ast, exprs[count - 1], limit),
        )
    }
}

/// The symbols that the first `count` rows of a matrix read.
pub open spec fn reads_in_rows(
    ast: AstView,
    rows: Seq<Seq<ExprId>>,
    count: int,
    limit: int,
) -> Set<u32>
    decreases limit, 2int, ast, count,
{
    if count <= 0 {
        Set::empty()
    } else {
        reads_in_rows(ast, rows, count - 1, limit).union(
            reads_in_list(ast, rows[count - 1], rows[count - 1].len() as int, limit),
        )
    }
}

/// The symbols that the first `count` arms of an `if` read.
pub open spec fn reads_in_arms(
    ast: AstView,
    arms: Seq<IfArmView>,
    count: int,
    limit: int,
) -> Set<u32>
    decreases limit, 2int, ast, count,
{
    if count <= 0 {
        Set::empty()
    } else {
        reads_in_arms(ast, arms, count - 1, limit).union(
            reads_in_expr(ast, arms[count - 1].cond, limit),
        ).union(reads_in_block(ast, arms[count - 1].body, limit))
    }
}

/// The symbols a block reads.
pub open spec fn reads_in_block(ast: AstView, block: BlockView, limit: int) -> Set<u32>
    decreases limit, 1int, block, block.stmts.len() + 1,
{
    let in_stmts = reads_in_stmts(ast, block, block.stmts.len() as int, limit);
    match block.result {
        Some(result) => in_stmts.union(reads_in_expr(ast, result, limit)),
        None => in_stmts,
    }
}

/// The symbols that the first `count` statements of a block read.
pub open spec fn reads_in_stmts(ast: AstView, block: BlockView, count: int, limit: int) -> Set<u32>
    decreases limit, 1int, block, count,
{
    if count <= 0 || count > block.stmts.len() {
        Set::empty()
    } else {
        reads_in_stmts(ast, block, count - 1, limit).union(
            reads_in_stmt(ast, block.stmts[count - 1], limit),
        )
    }
}

/// Every symbol a statement reads, including inside nested blocks. An indexed assignment updates
/// part of an existing array, so it reads the binding.
pub open spec fn reads_in_stmt(ast: AstView, stmt: StmtView, limit: int) -> Set<u32>
    decreases limit, 1int, stmt, 0int,
{
    match stmt {
        StmtView::Assign(_, _, values) => reads_in_list(ast, values, values.len() as int, limit),
        StmtView::Expr(expr_id) => reads_in_expr(ast, expr_id, limit),
        StmtView::While(cond, body) => reads_in_expr(ast, cond, limit).union(
            reads_in_block(ast, body, limit),
        ),
        StmtView::Loop(body, cond, _) => reads_in_block(ast, body, limit).union(
            reads_in_expr(ast, cond, limit),
        ),
        StmtView::For(_, source, body) => reads_in_expr(ast, source, limit).union(
            reads_in_block(ast, body, limit),
        ),
        StmtView::ForArray(_, source, body) => reads_in_expr(ast, source, limit).union(
            reads_in_block(ast, body, limit),
        ),
        StmtView::IndexedAssign(target, index, value, _) => set![symbol_of(target).0].union(
            reads_in_expr(ast, index, limit),
        ).union(reads_in_expr(ast, value, limit)),
        StmtView::IndexedAssign2D(target, row, col, value, _) => set![symbol_of(target).0].union(
            reads_in_expr(ast, row, limit),
        ).union(reads_in_expr(ast, col, limit)).union(reads_in_expr(ast, value, limit)),
    }
}

/// The symbols an expression of the program reads.
pub open spec fn reads_of(ast: AstView, expr_id: ExprId) -> Set<u32> {
    reads_in_expr(ast, expr_id, ast.nodes.len() as int)
}

pub open spec fn action_reads(ast: AstView, action: ActionView) -> Set<u32> {
    match action {
        ActionView::Statement(stmt) => reads_in_stmt(ast, stmt, ast.nodes.len() as int),
        ActionView::Evaluate(expr_id) => reads_of(ast, expr_id),
        ActionView::Bind(_) => Set::empty(),
    }
}

pub open spec fn terminator_reads(ast: AstView, terminator: Terminator) -> Set<u32> {
    match terminator {
        Terminator::Branch { cond, then_block, else_block } => reads_of(ast, cond),
        Terminator::Return(Some(result)) => reads_of(ast, result),
        _ => Set::empty(),
    }
}

/// The bindings that the first `count` targets of one group write, with where each is written.
pub open spec fn writes_in_group(places: Seq<Place>, spans: Seq<Span>, count: int) -> Seq<
    (SymId, Span),
>
    decreases count,
{
    if count <= 0 {
        Seq::empty()
    } else {
        writes_in_group(places, spans, count - 1).push(
            (symbol_of(places[count - 1]), spans[count - 1]),
        )
    }
}

/// The bindings that the first `count` groups write, with where each is written.
pub open spec fn writes_in_groups(
    targets: Seq<Seq<Place>>,
    spans: Seq<Seq<Span>>,
    count: int,
) -> Seq<(SymId, Span)>
    decreases count,
{
    if count <= 0 {
        Seq::empty()
    } else {
        writes_in_groups(targets, spans, count - 1) + writes_in_group(
            targets[count - 1],
            spans[count - 1],
            targets[count - 1].len() as int,
        )
    }
}

/// The bindings a statement writes, with where each is written. An indexed assignment updates one
/// element of an existing array; the binding itself is read, not replaced.
pub open spec fn writes_in(stmt: StmtView) -> Seq<(SymId, Span)> {
    match stmt {
        StmtView::Assign(targets, spans, _) => writes_in_groups(
            targets,
            spans,
            targets.len() as int,
        ),
        _ => Seq::empty(),
    }
}

/// The symbols among the first `count` writes.
pub open spec fn written(writes: Seq<(SymId, Span)>, count: int) -> Set<u32>
    decreases count,
{
    if count <= 0 {
        Set::empty()
    } else {
        written(writes, count - 1).insert(writes[count - 1].0.0)
    }
}

pub open spec fn action_writes(action: ActionView) -> Set<u32> {
    match action {
        ActionView::Statement(stmt) => written(writes_in(stmt), writes_in(stmt).len() as int),
        ActionView::Evaluate(_) => Set::empty(),
        ActionView::Bind(sym_id) => set![sym_id.0],
    }
}

/// What is live before an action, given what is live behind it: kill first, then revive — a
/// statement's own reads happen before its write lands.
pub open spec fn live_before(ast: AstView, action: ActionView, live: Set<int>) -> Set<int> {
    live.difference(numbers(action_writes(action))).union(numbers(action_reads(ast, action)))
}

// ---------------------------------------------------------------------------
// Walking a program for its reads and writes
// ---------------------------------------------------------------------------

/// The analysis: a program, and the symbols that outlive the graph.
pub struct Liveness<'a, 'src> {
    pub ast: &'a Ast<'src>,
    pub escaping: &'a SymbolSet,
}

impl<'a, 'src> Liveness<'a, 'src> {
    fn name(&self, sym_id: SymId) -> (name: &'src str)
        requires
            symbol_ok(sym_id, self.ast@.bounds()),
        ensures
            name@ == self.ast@.names[sym_id.0 as int],
    {
        self.ast.names[sym_id.value()]
    }

    /// Every binding an expression reads.
    ///
    /// Nested blocks — an `if`-expression's arms, which the CFG treats as part of one atomic
    /// statement — are walked for their reads. Writes inside them are *not* collected, which loses
    /// a finding rather than inventing one.
    fn reads_of_expr(&self, expr_id: ExprId, out: &mut SymbolSet, Ghost(limit): Ghost<int>)
        requires
            self.ast@.well_formed(),
            expr_id.0 < limit <= self.ast@.nodes.len(),
        ensures
            final(out)@ == old(out)@.union(reads_in_expr(self.ast@, expr_id, limit)),
        decreases limit, 0int, self.ast@, 0int,
    {
        let ghost i = expr_id.0 as int;
        proof {
            assert(self.ast@.nodes[i] == self.ast.nodes@[i]@);
            assert(node_ok(self.ast@.nodes[i], self.ast@.bounds_before(i)));
        }
        match &self.ast.nodes[expr_id.value()] {
            Node::Var(sym_id) => {
                set_insert(out, sym_id.0);
            },
            Node::Global(sym_id) => {
                set_insert(out, sym_id.0);
            },
            Node::FStr { segments } => {
                self.reads_of_segments(segments, out);
            },
            Node::Unary { op, operand } => self.reads_of_expr(*operand, out, Ghost(i)),
            Node::Bin { op, lhs, rhs } => {
                self.reads_of_expr(*lhs, out, Ghost(i));
                self.reads_of_expr(*rhs, out, Ghost(i));
            },
            Node::Call { callee, args } => {
                self.reads_of_exprs(args, out, Ghost(i));
            },
            Node::If { arms, else_block } => {
                self.reads_of_arms(arms, out, Ghost(i));
                if let Some(else_body) = else_block {
                    self.reads_of_block(else_body, out, Ghost(i));
                }
            },
            Node::Range { start, stop, step, kind } => {
                self.reads_of_expr(*start, out, Ghost(i));
                self.reads_of_expr(*stop, out, Ghost(i));
                if let Some(step) = step {
                    self.reads_of_expr(*step, out, Ghost(i));
                }
            },
            Node::Membership { value, range } => {
                self.reads_of_expr(*value, out, Ghost(i));
                self.reads_of_expr(*range, out, Ghost(i));
            },
            Node::ArrayLiteral { elements } => {
                self.reads_of_exprs(elements, out, Ghost(i));
            },
            Node::MatrixLiteral { rows } => {
                self.reads_of_rows(rows, out, Ghost(i));
            },
            Node::Index { array, index } => {
                self.reads_of_expr(*array, out, Ghost(i));
                self.reads_of_expr(*index, out, Ghost(i));
            },
            Node::Index2D { matrix, row, col } => {
                self.reads_of_expr(*matrix, out, Ghost(i));
                self.reads_of_expr(*row, out, Ghost(i));
                self.reads_of_expr(*col, out, Ghost(i));
            },
            Node::Member { object, member } => self.reads_of_expr(*object, out, Ghost(i)),
            Node::Comprehension { element, var, var_type, source } => {
                self.reads_of_expr(*element, out, Ghost(i));
                self.reads_of_expr(*source, out, Ghost(i));
            },
            Node::Int(_) => {},
            Node::Float(_) => {},
            Node::Bool(_) => {},
            Node::Str(_) => {},
            Node::FullExtent => {},
        }
        proof {
            assert(out@ =~= old(out)@.union(reads_in_node(self.ast@, self.ast@.nodes[i], i)));
        }
    }

    /// Every binding that the pieces of an f-string read.
    fn reads_of_segments(&self, segments: &Vec<FStrSegment>, out: &mut SymbolSet)
        ensures
            final(out)@ == old(out)@.union(reads_in_segments(segments@, segments@.len() as int)),
    {
        let mut index: usize = 0;
        assert(out@ =~= old(out)@.union(reads_in_segments(segments@, 0)));
        while index < segments.len()
            invariant
                index <= segments@.len(),
                out@ == old(out)@.union(reads_in_segments(segments@, index as int)),
            decreases segments@.len() - index,
        {
            if let FStrSegment::Interp(place) = segments[index] {
                set_insert(out, place_sym(place).0);
            }
            assert(out@ =~= old(out)@.union(reads_in_segments(segments@, index + 1)));
            index = index + 1;
        }
    }

    /// Every binding that several expressions read.
    fn reads_of_exprs(&self, exprs: &Vec<ExprId>, out: &mut SymbolSet, Ghost(limit): Ghost<int>)
        requires
            self.ast@.well_formed(),
            0 <= limit <= self.ast@.nodes.len(),
            exprs_ok(exprs@, self.ast@.bounds_before(limit)),
        ensures
            final(out)@ == old(out)@.union(
                reads_in_list(self.ast@, exprs@, exprs@.len() as int, limit),
            ),
        decreases limit, 0int, self.ast@, 1int,
    {
        let mut index: usize = 0;
        assert(out@ =~= old(out)@.union(reads_in_list(self.ast@, exprs@, 0, limit)));
        while index < exprs.len()
            invariant
                self.ast@.well_formed(),
                0 <= limit <= self.ast@.nodes.len(),
                exprs_ok(exprs@, self.ast@.bounds_before(limit)),
                index <= exprs@.len(),
                out@ == old(out)@.union(reads_in_list(self.ast@, exprs@, index as int, limit)),
            decreases exprs@.len() - index,
        {
            self.reads_of_expr(exprs[index], out, Ghost(limit));
            assert(out@ =~= old(out)@.union(reads_in_list(self.ast@, exprs@, index + 1, limit)));
            index = index + 1;
        }
    }

    /// Every binding that the rows of a matrix read.
    fn reads_of_rows(&self, rows: &Vec<Vec<ExprId>>, out: &mut SymbolSet, Ghost(limit): Ghost<int>)
        requires
            self.ast@.well_formed(),
            0 <= limit <= self.ast@.nodes.len(),
            forall|i: int|
                0 <= i < rows@.len() ==> exprs_ok(
                    #[trigger] nested(rows@)[i],
                    self.ast@.bounds_before(limit),
                ),
        ensures
            final(out)@ == old(out)@.union(
                reads_in_rows(self.ast@, nested(rows@), rows@.len() as int, limit),
            ),
        decreases limit, 2int, self.ast@, 0int,
    {
        let mut index: usize = 0;
        assert(out@ =~= old(out)@.union(reads_in_rows(self.ast@, nested(rows@), 0, limit)));
        while index < rows.len()
            invariant
                self.ast@.well_formed(),
                0 <= limit <= self.ast@.nodes.len(),
                forall|i: int|
                    0 <= i < rows@.len() ==> exprs_ok(
                        #[trigger] nested(rows@)[i],
                        self.ast@.bounds_before(limit),
                    ),
                index <= rows@.len(),
                out@ == old(out)@.union(
                    reads_in_rows(self.ast@, nested(rows@), index as int, limit),
                ),
            decreases rows@.len() - index,
        {
            assert(nested(rows@)[index as int] == rows@[index as int]@);
            self.reads_of_exprs(&rows[index], out, Ghost(limit));
            assert(out@ =~= old(out)@.union(
                reads_in_rows(self.ast@, nested(rows@), index + 1, limit),
            ));
            index = index + 1;
        }
    }

    /// Every binding that the arms of an `if` read.
    fn reads_of_arms(&self, arms: &Vec<IfArm>, out: &mut SymbolSet, Ghost(limit): Ghost<int>)
        requires
            self.ast@.well_formed(),
            0 <= limit <= self.ast@.nodes.len(),
            forall|i: int|
                0 <= i < arms@.len() ==> expr_ok(
                    (#[trigger] arm_views(arms@)[i]).cond,
                    self.ast@.bounds_before(limit),
                ) && block_ok(arm_views(arms@)[i].body, self.ast@.bounds_before(limit)),
        ensures
            final(out)@ == old(out)@.union(
                reads_in_arms(self.ast@, arm_views(arms@), arms@.len() as int, limit),
            ),
        decreases limit, 2int, self.ast@, 0int,
    {
        let ghost views = arm_views(arms@);
        let mut index: usize = 0;
        assert(out@ =~= old(out)@.union(reads_in_arms(self.ast@, views, 0, limit)));
        while index < arms.len()
            invariant
                self.ast@.well_formed(),
                0 <= limit <= self.ast@.nodes.len(),
                views == arm_views(arms@),
                forall|i: int|
                    0 <= i < arms@.len() ==> expr_ok(
                        (#[trigger] views[i]).cond,
                        self.ast@.bounds_before(limit),
                    ) && block_ok(views[i].body, self.ast@.bounds_before(limit)),
                index <= arms@.len(),
                out@ == old(out)@.union(reads_in_arms(self.ast@, views, index as int, limit)),
            decreases arms@.len() - index,
        {
            assert(views[index as int] == arms@[index as int]@);
            self.reads_of_expr(arms[index].cond, out, Ghost(limit));
            self.reads_of_block(&arms[index].body, out, Ghost(limit));
            assert(out@ =~= old(out)@.union(reads_in_arms(self.ast@, views, index + 1, limit)));
            index = index + 1;
        }
    }

    fn reads_of_block(&self, block: &Block, out: &mut SymbolSet, Ghost(limit): Ghost<int>)
        requires
            self.ast@.well_formed(),
            0 <= limit <= self.ast@.nodes.len(),
            block_ok(block@, self.ast@.bounds_before(limit)),
        ensures
            final(out)@ == old(out)@.union(reads_in_block(self.ast@, block@, limit)),
        decreases limit, 1int, block, 1int,
    {
        let mut index: usize = 0;
        assert(out@ =~= old(out)@.union(reads_in_stmts(self.ast@, block@, 0, limit)));
        while index < block.stmts.len()
            invariant
                self.ast@.well_formed(),
                0 <= limit <= self.ast@.nodes.len(),
                block_ok(block@, self.ast@.bounds_before(limit)),
                index <= block.stmts@.len(),
                out@ == old(out)@.union(reads_in_stmts(self.ast@, block@, index as int, limit)),
            decreases block.stmts@.len() - index,
        {
            proof {
                assert(block@.stmts[index as int] == block.stmts@[index as int]@);
                assert(stmt_ok(block@.stmts[index as int], self.ast@.bounds_before(limit)));
            }
            self.reads_of_stmt(&block.stmts[index], out, Ghost(limit));
            assert(out@ =~= old(out)@.union(
                reads_in_stmts(self.ast@, block@, index + 1, limit),
            ));
            index = index + 1;
        }
        if let Some(result) = block.result {
            self.reads_of_expr(result, out, Ghost(limit));
        }
        assert(out@ =~= old(out)@.union(reads_in_block(self.ast@, block@, limit)));
    }

    /// Every binding a statement reads, including inside nested blocks.
    fn reads_of_stmt(&self, stmt: &Stmt, out: &mut SymbolSet, Ghost(limit): Ghost<int>)
        requires
            self.ast@.well_formed(),
            0 <= limit <= self.ast@.nodes.len(),
            stmt_ok(stmt@, self.ast@.bounds_before(limit)),
        ensures
            final(out)@ == old(out)@.union(reads_in_stmt(self.ast@, stmt@, limit)),
        decreases limit, 1int, stmt, 0int,
    {
        match stmt {
            Stmt::Assign { target_lists, target_spans, values } => {
                self.reads_of_exprs(values, out, Ghost(limit));
            },
            Stmt::Expr(expr_id) => self.reads_of_expr(*expr_id, out, Ghost(limit)),
            Stmt::While { cond, body } => {
                self.reads_of_expr(*cond, out, Ghost(limit));
                self.reads_of_block(body, out, Ghost(limit));
            },
            Stmt::Loop { body, cond, until } => {
                self.reads_of_block(body, out, Ghost(limit));
                self.reads_of_expr(*cond, out, Ghost(limit));
            },
            Stmt::For { var, source, body } => {
                self.reads_of_expr(*source, out, Ghost(limit));
                self.reads_of_block(body, out, Ghost(limit));
            },
            Stmt::ForArray { binders, source, body } => {
                self.reads_of_expr(*source, out, Ghost(limit));
                self.reads_of_block(body, out, Ghost(limit));
            },
            Stmt::IndexedAssign { target, index, value, compound_op } => {
                set_insert(out, place_sym(*target).0);
                self.reads_of_expr(*index, out, Ghost(limit));
                self.reads_of_expr(*value, out, Ghost(limit));
            },
            Stmt::IndexedAssign2D { target, row, col, value, compound_op } => {
                set_insert(out, place_sym(*target).0);
                self.reads_of_expr(*row, out, Ghost(limit));
                self.reads_of_expr(*col, out, Ghost(limit));
                self.reads_of_expr(*value, out, Ghost(limit));
            },
        }
        assert(out@ =~= old(out)@.union(reads_in_stmt(self.ast@, stmt@, limit)));
    }

    fn reads_of_action(&self, action: &Action<'_>, out: &mut SymbolSet)
        requires
            self.ast@.well_formed(),
            action_ok(action@, self.ast@.bounds()),
        ensures
            final(out)@ == old(out)@.union(action_reads(self.ast@, action@)),
    {
        let ghost limit = self.ast@.nodes.len() as int;
        match action {
            Action::Statement(stmt) => self.reads_of_stmt(stmt, out, Ghost(limit)),
            Action::Evaluate(expr_id) => self.reads_of_expr(*expr_id, out, Ghost(limit)),
            Action::Bind(_) => {},
        }
        assert(out@ =~= old(out)@.union(action_reads(self.ast@, action@)));
    }

    fn reads_of_terminator(&self, terminator: &Terminator, out: &mut SymbolSet)
        requires
            self.ast@.well_formed(),
            terminator_ok(*terminator, self.ast@.bounds()),
        ensures
            final(out)@ == old(out)@.union(terminator_reads(self.ast@, *terminator)),
    {
        let ghost limit = self.ast@.nodes.len() as int;
        match terminator {
            Terminator::Branch { cond, then_block, else_block } => self.reads_of_expr(
                *cond,
                out,
                Ghost(limit),
            ),
            Terminator::Return(Some(result)) => self.reads_of_expr(*result, out, Ghost(limit)),
            _ => {},
        }
        assert(out@ =~= old(out)@.union(terminator_reads(self.ast@, *terminator)));
    }

    /// The bindings a statement writes, with where each was written.
    fn writes_of_stmt(&self, stmt: &Stmt) -> (writes: Vec<(SymId, Span)>)
        requires
            stmt_ok(stmt@, self.ast@.bounds()),
        ensures
            writes@ == writes_in(stmt@),
            forall|i: int|
                0 <= i < writes@.len() ==> symbol_ok(
                    (#[trigger] writes@[i]).0,
                    self.ast@.bounds(),
                ),
    {
        let mut writes: Vec<(SymId, Span)> = Vec::new();
        match stmt {
            Stmt::Assign { target_lists, target_spans, values } => {
                let ghost targets = nested(target_lists@);
                let ghost spans = nested(target_spans@);
                let mut group: usize = 0;
                while group < target_lists.len()
                    invariant
                        stmt_ok(stmt@, self.ast@.bounds()),
                        stmt@ == StmtView::Assign(targets, spans, values@),
                        targets == nested(target_lists@),
                        spans == nested(target_spans@),
                        group <= target_lists@.len(),
                        writes@ == writes_in_groups(targets, spans, group as int),
                        forall|i: int|
                            0 <= i < writes@.len() ==> symbol_ok(
                                (#[trigger] writes@[i]).0,
                                self.ast@.bounds(),
                            ),
                    decreases target_lists@.len() - group,
                {
                    let ghost before = writes@;
                    proof {
                        assert(targets[group as int] == target_lists@[group as int]@);
                        assert(spans[group as int] == target_spans@[group as int]@);
                        assert(places_ok(targets[group as int], self.ast@.bounds()));
                    }
                    let mut index: usize = 0;
                    assert(writes@ =~= before + writes_in_group(
                        targets[group as int],
                        spans[group as int],
                        0,
                    ));
                    while index < target_lists[group].len()
                        invariant
                            group < target_lists@.len(),
                            group < target_spans@.len(),
                            targets == nested(target_lists@),
                            spans == nested(target_spans@),
                            targets[group as int] == target_lists@[group as int]@,
                            spans[group as int] == target_spans@[group as int]@,
                            targets[group as int].len() == spans[group as int].len(),
                            places_ok(targets[group as int], self.ast@.bounds()),
                            index <= target_lists@[group as int]@.len(),
                            writes@ == before + writes_in_group(
                                targets[group as int],
                                spans[group as int],
                                index as int,
                            ),
                            forall|i: int|
                                0 <= i < writes@.len() ==> symbol_ok(
                                    (#[trigger] writes@[i]).0,
                                    self.ast@.bounds(),
                                ),
                        decreases target_lists@[group as int]@.len() - index,
                    {
                        writes.push(
                            (place_sym(target_lists[group][index]), target_spans[group][index]),
                        );
                        assert(writes@ =~= before + writes_in_group(
                            targets[group as int],
                            spans[group as int],
                            index + 1,
                        ));
                        index = index + 1;
                    }
                    group = group + 1;
                }
            },
            // An indexed assignment updates one element of an existing array; the binding itself is
            // read, not replaced, so it is not a write for liveness purposes.
            _ => {},
        }
        writes
    }
}

// ---------------------------------------------------------------------------
// The analysis
// ---------------------------------------------------------------------------

/// Adds every symbol of a set to a fact.
fn revive(fact: &mut SymbolSetFact, symbols: &SymbolSet)
    ensures
        final(fact).symbols() == old(fact).symbols().union(symbols@),
{
    let items: Vec<u32> = set_items(symbols);
    let mut index: usize = 0;
    assert(fact.symbols() =~= old(fact).symbols().union(items@.take(0).to_set()));
    while index < items.len()
        invariant
            index <= items@.len(),
            fact.symbols() == old(fact).symbols().union(items@.take(index as int).to_set()),
        decreases items@.len() - index,
    {
        let ghost before = items@.take(index as int);
        let ghost sym = items@[index as int];
        fact.insert(SymId(items[index]));
        proof {
            let after = items@.take(index + 1);
            assert(after =~= before.push(sym));
            assert forall|s: u32| after.to_set().contains(s) <==> before.to_set().contains(s) || s
                == sym by {
                if before.contains(s) {
                    let k = before.index_of(s);
                    assert(after[k] == s);
                }
                if s == sym {
                    assert(after[index as int] == s);
                }
                if after.contains(s) && s != sym {
                    let k = after.index_of(s);
                    assert(before[k] == s);
                }
            }
            assert(fact.symbols() =~= old(fact).symbols().union(after.to_set()));
        }
        index = index + 1;
    }
    assert(items@.take(index as int) =~= items@);
}

impl<'ast, 'a, 'src> Analysis<'ast> for Liveness<'a, 'src> {
    type Fact = SymbolSetFact;

    open spec fn flow(&self) -> Direction {
        Direction::Backward
    }

    open spec fn known_at_boundary(&self) -> Set<int> {
        numbers(self.escaping@)
    }

    open spec fn known_across_action(&self, action: ActionView, known: Set<int>) -> Set<int> {
        live_before(self.ast@, action, known)
    }

    open spec fn known_across_terminator(
        &self,
        terminator: Terminator,
        known: Set<int>,
    ) -> Set<int> {
        known.union(numbers(terminator_reads(self.ast@, terminator)))
    }

    open spec fn taken(&self, cfg: CfgView, block: int) -> Seq<BlockId> {
        successors_of(cfg, block)
    }

    open spec fn understands(&self, data: BlockData) -> bool {
        self.ast@.well_formed() && data_ok(data, self.ast@.bounds())
    }

    proof fn taken_are_successors(&self, cfg: CfgView, block: int) {
    }

    fn direction(&self) -> (r: Direction) {
        Direction::Backward
    }

    fn boundary(&self) -> (fact: SymbolSetFact) {
        // Where the graph ends, everything that outlives it is still live.
        let mut fact: SymbolSetFact = SymbolSetFact::nothing_known();
        proof {
            assert forall|sym: u32| !fact.symbols().contains(sym) by {
                assert(!fact.known().contains(sym as int));
            }
        }
        revive(&mut fact, self.escaping);
        assert(fact.known() =~= numbers(self.escaping@));
        fact
    }

    fn transfer_action(&self, action: &Action<'ast>, fact: &mut SymbolSetFact) {
        proof {
            let data = choose|data: BlockData| #[trigger]
                self.understands(data) && data.actions.contains(action@);
            let k = data.actions.index_of(action@);
            assert(action_ok(data.actions[k], self.ast@.bounds()));
        }
        let ghost start = fact.symbols();
        match action {
            Action::Statement(stmt) => {
                // Kill first, then revive: a statement's own reads happen before its write lands,
                // so `s = s + 1` leaves `s` live going backwards.
                let writes: Vec<(SymId, Span)> = self.writes_of_stmt(stmt);
                let mut index: usize = 0;
                assert(fact.symbols() =~= start.difference(written(writes@, 0)));
                while index < writes.len()
                    invariant
                        index <= writes@.len(),
                        fact.symbols() == start.difference(written(writes@, index as int)),
                    decreases writes@.len() - index,
                {
                    fact.remove(writes[index].0);
                    assert(fact.symbols() =~= start.difference(written(writes@, index + 1)));
                    index = index + 1;
                }
            },
            Action::Evaluate(_) => {},
            // A loop variable is written afresh each iteration, so anything live before the binding
            // is not this binding's value.
            Action::Bind(sym_id) => {
                fact.remove(*sym_id);
            },
        }
        assert(fact.symbols() =~= start.difference(action_writes(action@)));
        let mut reads: SymbolSet = symbol_set();
        self.reads_of_action(action, &mut reads);
        assert(reads@ =~= action_reads(self.ast@, action@));
        revive(fact, &reads);
        assert(fact.known() =~= live_before(self.ast@, action@, old(fact).known()));
    }

    fn transfer_terminator(&self, terminator: &Terminator, fact: &mut SymbolSetFact) {
        let mut reads: SymbolSet = symbol_set();
        self.reads_of_terminator(terminator, &mut reads);
        assert(reads@ =~= terminator_reads(self.ast@, *terminator));
        revive(fact, &reads);
        assert(fact.known() =~= old(fact).known().union(
            numbers(terminator_reads(self.ast@, *terminator)),
        ));
    }

    fn live_successors(&self, cfg: &Cfg<'ast>, block_id: BlockId) -> (ids: Vec<BlockId>) {
        cfg.successors(block_id)
    }
}

// ---------------------------------------------------------------------------
// The findings
// ---------------------------------------------------------------------------

/// The facts of liveness over a graph, unless they do not settle within the solver's budget.
pub open spec fn live_facts(
    ast: &Ast<'_>,
    cfg: CfgView,
    escaping: &SymbolSet,
) -> Option<SolveState> {
    solved(cfg, &(Liveness { ast, escaping }))
}

proof fn lemma_back_across_alike(
    one: &Liveness<'_, '_>,
    two: &Liveness<'_, '_>,
    actions: Seq<ActionView>,
    from: int,
    known: Set<int>,
)
    requires
        one.ast == two.ast,
    ensures
        back_across_actions(one, actions, from, known) == back_across_actions(
            two,
            actions,
            from,
            known,
        ),
    decreases actions.len() - from,
{
    if 0 <= from < actions.len() {
        lemma_back_across_alike(one, two, actions, from + 1, known);
    }
}

proof fn lemma_run_alike(
    cfg: CfgView,
    one: &Liveness<'_, '_>,
    two: &Liveness<'_, '_>,
    st: SolveState,
    fuel: nat,
)
    requires
        one.ast == two.ast,
        one.escaping@ == two.escaping@,
    ensures
        run(cfg, one, st, fuel) == run(cfg, two, st, fuel),
    decreases fuel,
{
    if st.worklist.len() > 0 && fuel > 0 {
        let block = st.worklist.last().0 as int;
        let data = cfg.blocks[block];
        assert forall|item: int|
            flows_in(cfg, one, st.outs, block, item) == #[trigger] flows_in(
                cfg,
                two,
                st.outs,
                block,
                item,
            ) by {
            assert forall|from: int|
                #![trigger flows(cfg, one, from, block)]
                #![trigger flows(cfg, two, from, block)]
                flows(cfg, one, from, block) == flows(cfg, two, from, block) by {}
        }
        assert(incoming(cfg, one, st.outs, block) =~= incoming(cfg, two, st.outs, block));
        let known = incoming(cfg, one, st.outs, block);
        lemma_back_across_alike(
            one,
            two,
            data.actions,
            0,
            one.known_across_terminator(data.terminator, known),
        );
        assert(visited(cfg, one, st) == visited(cfg, two, st));
        lemma_run_alike(cfg, one, two, visited(cfg, one, st), (fuel - 1) as nat);
    }
}

/// What is live depends on which symbols escape, not on how they are held.
pub proof fn liveness_depends_on_the_symbols(
    ast: &Ast<'_>,
    cfg: CfgView,
    one: &SymbolSet,
    two: &SymbolSet,
)
    requires
        one@ == two@,
    ensures
        live_facts(ast, cfg, one) == live_facts(ast, cfg, two),
{
    lemma_run_alike(
        cfg,
        &(Liveness { ast, escaping: one }),
        &(Liveness { ast, escaping: two }),
        unsolved(cfg, Direction::Backward),
        budget(cfg),
    );
}

/// The symbols that the first `count` actions read.
pub open spec fn reads_in_actions(ast: AstView, actions: Seq<ActionView>, count: int) -> Set<u32>
    decreases count,
{
    if count <= 0 {
        Set::empty()
    } else {
        reads_in_actions(ast, actions, count - 1).union(action_reads(ast, actions[count - 1]))
    }
}

/// The symbols that anything in the first `count` blocks reads.
pub open spec fn reads_in_blocks(ast: AstView, blocks: Seq<BlockData>, count: int) -> Set<u32>
    decreases count,
{
    if count <= 0 {
        Set::empty()
    } else {
        let data = blocks[count - 1];
        reads_in_blocks(ast, blocks, count - 1).union(
            reads_in_actions(ast, data.actions, data.actions.len() as int),
        ).union(terminator_reads(ast, data.terminator))
    }
}

/// What has been reported so far, and which bindings have been reported as unused.
#[verifier::ext_equal]
pub struct Report {
    pub findings: Seq<DiagnosticView>,
    pub unused: Set<u32>,
}

/// A symbol that is deliberately not reported about: `_`, and whatever outlives the graph.
pub open spec fn exempt(ast: AstView, escaping: Set<u32>, sym_id: SymId) -> bool {
    ast.names[sym_id.0 as int] == "_"@ || escaping.contains(sym_id.0)
}

/// What the check goes by: the program, the symbols that outlive the graph, and those that anything
/// in the graph reads.
pub struct Grounds {
    pub ast: AstView,
    pub escaping: Set<u32>,
    pub ever_read: Set<u32>,
}

/// The symbols that statements among the first `count` actions of a block store to.
pub open spec fn stored(actions: Seq<ActionView>, count: int) -> Set<u32>
    decreases count,
{
    if count <= 0 {
        Set::empty()
    } else {
        let before = stored(actions, count - 1);
        match actions[count - 1] {
            ActionView::Statement(stmt) => before.union(
                written(writes_in(stmt), writes_in(stmt).len() as int),
            ),
            _ => before,
        }
    }
}

/// The report behind a write, given what is live behind its statement and what the block stores to
/// before it: a binding nothing reads is unused, and reported once, where the graph first stores to
/// it; another that is not live is a dead store.
pub open spec fn write_reported(
    grounds: Grounds,
    report: Report,
    live: Set<int>,
    earlier: Set<u32>,
    write: (SymId, Span),
) -> Report {
    let (sym_id, span) = write;
    let name = grounds.ast.names[sym_id.0 as int];
    if exempt(grounds.ast, grounds.escaping, sym_id) {
        report
    } else if !grounds.ever_read.contains(sym_id.0) {
        if report.unused.contains(sym_id.0) || earlier.contains(sym_id.0) {
            report
        } else {
            Report {
                findings: report.findings.push(
                    finding(
                        DiagnosticCode::UnusedBinding,
                        span,
                        "Binding `"@ + name + "` is never read."@,
                    ),
                ),
                unused: report.unused.insert(sym_id.0),
            }
        }
    } else if !live.contains(sym_id.0 as int) {
        Report {
            findings: report.findings.push(
                finding(
                    DiagnosticCode::DeadStore,
                    span,
                    "Value assigned to `"@ + name + "` is never read."@,
                ),
            ),
            ..report
        }
    } else {
        report
    }
}

/// The report behind the first `count` writes of a statement.
pub open spec fn writes_reported(
    grounds: Grounds,
    report: Report,
    live: Set<int>,
    earlier: Set<u32>,
    writes: Seq<(SymId, Span)>,
    count: int,
) -> Report
    decreases count,
{
    if count <= 0 {
        report
    } else {
        write_reported(
            grounds,
            writes_reported(grounds, report, live, earlier, writes, count - 1),
            live,
            earlier,
            writes[count - 1],
        )
    }
}

/// The report behind the first `count` actions of a block, taken last to first, when `live` is live
/// behind them.
pub open spec fn actions_reported(
    grounds: Grounds,
    report: Report,
    actions: Seq<ActionView>,
    count: int,
    live: Set<int>,
) -> Report
    decreases count,
{
    if count <= 0 {
        report
    } else {
        let action = actions[count - 1];
        let next = match action {
            ActionView::Statement(stmt) => writes_reported(
                grounds,
                report,
                live,
                stored(actions, count - 1),
                writes_in(stmt),
                writes_in(stmt).len() as int,
            ),
            _ => report,
        };
        actions_reported(
            grounds,
            next,
            actions,
            count - 1,
            live_before(grounds.ast, action, live),
        )
    }
}

/// The report behind the first `count` blocks, when `after` is live behind each.
pub open spec fn blocks_reported(
    grounds: Grounds,
    blocks: Seq<BlockData>,
    after: Seq<Set<int>>,
    count: int,
) -> Report
    decreases count,
{
    if count <= 0 {
        Report { findings: Seq::empty(), unused: Set::empty() }
    } else {
        let data = blocks[count - 1];
        actions_reported(
            grounds,
            blocks_reported(grounds, blocks, after, count - 1),
            data.actions,
            data.actions.len() as int,
            after[count - 1].union(numbers(terminator_reads(grounds.ast, data.terminator))),
        )
    }
}

/// The dead stores and unused bindings of a graph behind whose blocks the symbols `after` are
/// needed.
pub open spec fn unread_values(
    ast: AstView,
    cfg: CfgView,
    escaping: Set<u32>,
    after: Seq<Set<int>>,
) -> Seq<DiagnosticView> {
    let count = cfg.blocks.len() as int;
    let grounds = Grounds {
        ast,
        escaping,
        ever_read: reads_in_blocks(ast, cfg.blocks, count),
    };
    blocks_reported(grounds, cfg.blocks, after, count).findings
}

proof fn lemma_written_grows(writes: Seq<(SymId, Span)>, few: int, many: int)
    requires
        few <= many,
    ensures
        written(writes, few).subset_of(written(writes, many)),
    decreases many - few,
{
    if few < many {
        lemma_written_grows(writes, few, many - 1);
    }
}

proof fn lemma_stored_grows(actions: Seq<ActionView>, few: int, many: int)
    requires
        few <= many,
    ensures
        stored(actions, few).subset_of(stored(actions, many)),
    decreases many - few,
{
    if few < many {
        lemma_stored_grows(actions, few, many - 1);
    }
}

impl<'a, 'src> Liveness<'a, 'src> {
    /// Whether a symbol is deliberately not reported about.
    fn is_exempt(&self, sym_id: SymId) -> (r: bool)
        requires
            symbol_ok(sym_id, self.ast@.bounds()),
        ensures
            r == exempt(self.ast@, self.escaping@, sym_id),
    {
        // `_` exists to say "I am not using this"; a global may be read from a function this graph
        // knows nothing about.
        same(self.name(sym_id), "_") || set_contains(self.escaping, sym_id.0)
    }

    /// Every symbol anything reads, anywhere in a graph: what tells an unused binding from a merely
    /// dead store.
    fn reads_of_graph(&self, cfg: &Cfg<'_>) -> (out: SymbolSet)
        requires
            self.ast@.well_formed(),
            graph_ok(cfg@.blocks, self.ast@.bounds()),
        ensures
            out@ == reads_in_blocks(self.ast@, cfg@.blocks, cfg@.blocks.len() as int),
    {
        let mut out: SymbolSet = symbol_set();
        let count: usize = cfg.blocks().len();
        assert(count == cfg@.blocks.len());
        let mut index: usize = 0;
        while index < count
            invariant
                self.ast@.well_formed(),
                graph_ok(cfg@.blocks, self.ast@.bounds()),
                count == cfg@.blocks.len(),
                index <= count,
                out@ == reads_in_blocks(self.ast@, cfg@.blocks, index as int),
            decreases count - index,
        {
            let block: &BasicBlock = cfg.block(BlockId(index));
            let ghost data = cfg@.blocks[index as int];
            let ghost start = out@;
            assert(data_ok(data, self.ast@.bounds()));
            let mut position: usize = 0;
            assert(out@ =~= start.union(reads_in_actions(self.ast@, data.actions, 0)));
            while position < block.actions.len()
                invariant
                    self.ast@.well_formed(),
                    data == block@,
                    data_ok(data, self.ast@.bounds()),
                    position <= block.actions@.len(),
                    out@ == start.union(
                        reads_in_actions(self.ast@, data.actions, position as int),
                    ),
                decreases block.actions@.len() - position,
            {
                assert(data.actions[position as int] == block.actions@[position as int]@);
                self.reads_of_action(&block.actions[position], &mut out);
                assert(out@ =~= start.union(
                    reads_in_actions(self.ast@, data.actions, position + 1),
                ));
                position = position + 1;
            }
            self.reads_of_terminator(&block.terminator, &mut out);
            assert(out@ =~= reads_in_blocks(self.ast@, cfg@.blocks, index + 1));
            index = index + 1;
        }
        out
    }

    /// Whether a statement among the first `count` actions of a block stores to a symbol.
    fn is_stored(&self, block: &BasicBlock, count: usize, sym_id: SymId) -> (r: bool)
        requires
            self.ast@.well_formed(),
            data_ok(block@, self.ast@.bounds()),
            count <= block.actions@.len(),
        ensures
            r == stored(block@.actions, count as int).contains(sym_id.0),
    {
        let mut position: usize = 0;
        while position < count
            invariant
                self.ast@.well_formed(),
                data_ok(block@, self.ast@.bounds()),
                position <= count <= block.actions@.len(),
                !stored(block@.actions, position as int).contains(sym_id.0),
            decreases count - position,
        {
            let ghost action = block@.actions[position as int];
            assert(action == block.actions@[position as int]@);
            assert(block@.actions.contains(action));
            assert(action_ok(action, self.ast@.bounds()));
            if let Action::Statement(stmt) = block.actions[position] {
                let writes: Vec<(SymId, Span)> = self.writes_of_stmt(stmt);
                let mut index: usize = 0;
                while index < writes.len()
                    invariant
                        index <= writes@.len(),
                        position < count <= block.actions@.len(),
                        action == block@.actions[position as int],
                        action == ActionView::Statement(stmt@),
                        writes@ == writes_in(stmt@),
                        !written(writes@, index as int).contains(sym_id.0),
                    decreases writes@.len() - index,
                {
                    if writes[index].0.0 == sym_id.0 {
                        proof {
                            lemma_written_grows(writes@, index + 1, writes@.len() as int);
                            lemma_stored_grows(block@.actions, position + 1, count as int);
                        }
                        return true;
                    }
                    index = index + 1;
                }
            }
            position = position + 1;
        }
        false
    }

    /// Reports on the writes of one statement, given what is live behind it.
    fn report_writes(
        &self,
        block: &BasicBlock,
        position: usize,
        writes: &Vec<(SymId, Span)>,
        live: &SymbolSetFact,
        ever_read: &SymbolSet,
        unused: &mut SymbolSet,
        diagnostics: &mut Vec<Diagnostic>,
        Ghost(grounds): Ghost<Grounds>,
    )
        requires
            self.ast@.well_formed(),
            data_ok(block@, self.ast@.bounds()),
            position < block.actions@.len(),
            grounds == (Grounds {
                ast: self.ast@,
                escaping: self.escaping@,
                ever_read: ever_read@,
            }),
            forall|i: int|
                0 <= i < writes@.len() ==> symbol_ok(
                    (#[trigger] writes@[i]).0,
                    self.ast@.bounds(),
                ),
        ensures
            (Report { findings: diagnostic_views(final(diagnostics)@), unused: final(unused)@ })
                == writes_reported(
                grounds,
                (Report { findings: diagnostic_views(old(diagnostics)@), unused: old(unused)@ }),
                live.known(),
                stored(block@.actions, position as int),
                writes@,
                writes@.len() as int,
            ),
    {
        let ghost start = Report {
            findings: diagnostic_views(diagnostics@),
            unused: unused@,
        };
        let ghost earlier = stored(block@.actions, position as int);
        let mut index: usize = 0;
        while index < writes.len()
            invariant
                self.ast@.well_formed(),
                data_ok(block@, self.ast@.bounds()),
                position < block.actions@.len(),
                earlier == stored(block@.actions, position as int),
                grounds == (Grounds {
                    ast: self.ast@,
                    escaping: self.escaping@,
                    ever_read: ever_read@,
                }),
                forall|i: int|
                    0 <= i < writes@.len() ==> symbol_ok(
                        (#[trigger] writes@[i]).0,
                        self.ast@.bounds(),
                    ),
                index <= writes@.len(),
                (Report { findings: diagnostic_views(diagnostics@), unused: unused@ })
                    == writes_reported(
                    grounds,
                    start,
                    live.known(),
                    earlier,
                    writes@,
                    index as int,
                ),
            decreases writes@.len() - index,
        {
            let (sym_id, span): (SymId, Span) = writes[index];
            let ghost before = Report {
                findings: diagnostic_views(diagnostics@),
                unused: unused@,
            };
            let ghost view = before.findings;
            if !self.is_exempt(sym_id) {
                if !set_contains(ever_read, sym_id.0) {
                    if !self.is_stored(block, position, sym_id) && set_insert(unused, sym_id.0) {
                        let diagnostic: Diagnostic = Diagnostic::new(
                            DiagnosticCode::UnusedBinding,
                            span,
                            join3("Binding `", self.name(sym_id), "` is never read.").as_str(),
                        );
                        let ghost found = diagnostic@;
                        diagnostics.push(diagnostic);
                        assert(diagnostic_views(diagnostics@) =~= view.push(found));
                    } else {
                        assert(unused@ =~= before.unused);
                    }
                } else if !live.contains(sym_id) {
                    let diagnostic: Diagnostic = Diagnostic::new(
                        DiagnosticCode::DeadStore,
                        span,
                        join3(
                            "Value assigned to `",
                            self.name(sym_id),
                            "` is never read.",
                        ).as_str(),
                    );
                    let ghost found = diagnostic@;
                    diagnostics.push(diagnostic);
                    assert(diagnostic_views(diagnostics@) =~= view.push(found));
                }
            }
            proof {
                assert(live.known().contains(sym_id.0 as int) == live.symbols().contains(sym_id.0));
                assert((Report { findings: diagnostic_views(diagnostics@), unused: unused@ })
                    =~= write_reported(
                    grounds,
                    before,
                    live.known(),
                    earlier,
                    writes@[index as int],
                ));
            }
            index = index + 1;
        }
    }
}

/// The findings on a graph whose liveness has been solved.
fn report<'ast, 'src>(
    ast: &ProgramAst<'src>,
    cfg: &Cfg<'ast>,
    escaping: &SymbolSet,
    solution: &Solution<SymbolSetFact>,
) -> (diagnostics: Vec<Diagnostic>)
    requires
        ast@.well_formed(),
        graph_ok(cfg@.blocks, ast@.bounds()),
        solution.known_after().len() == cfg@.blocks.len(),
    ensures
        diagnostic_views(diagnostics@) == unread_values(
            ast@,
            cfg@,
            escaping@,
            solution.known_after(),
        ),
{
    let analysis: Liveness<'_, 'src> = Liveness { ast, escaping };
    let ever_read: SymbolSet = analysis.reads_of_graph(cfg);
    let ghost grounds = Grounds { ast: ast@, escaping: escaping@, ever_read: ever_read@ };
    let ghost after = solution.known_after();
    let mut diagnostics: Vec<Diagnostic> = Vec::new();
    // First write per symbol, so an unused binding is reported once, where it is introduced.
    let mut reported_unused: SymbolSet = symbol_set();
    let count: usize = cfg.blocks().len();
    assert(count == cfg@.blocks.len());
    assert(diagnostic_views(diagnostics@) =~= Seq::empty());
    let mut index: usize = 0;
    while index < count
        invariant
            ast@.well_formed(),
            graph_ok(cfg@.blocks, ast@.bounds()),
            analysis.ast == ast,
            analysis.escaping == escaping,
            grounds == (Grounds { ast: ast@, escaping: escaping@, ever_read: ever_read@ }),
            after == solution.known_after(),
            after.len() == cfg@.blocks.len(),
            count == cfg@.blocks.len(),
            index <= count,
            (Report { findings: diagnostic_views(diagnostics@), unused: reported_unused@ })
                == blocks_reported(grounds, cfg@.blocks, after, index as int),
        decreases count - index,
    {
        let block_id: BlockId = BlockId(index);
        let block: &BasicBlock = cfg.block(block_id);
        let ghost data = cfg@.blocks[index as int];
        let ghost start = Report {
            findings: diagnostic_views(diagnostics@),
            unused: reported_unused@,
        };
        proof {
            assert(data_ok(data, ast@.bounds()));
            assert(analysis.understands(data));
        }
        // Re-walk the block backwards from its outgoing fact to get the fact at each action; the
        // solver stores facts per block, and per-action facts are cheaper to recompute than to
        // keep.
        let mut live: SymbolSetFact = solution.after(block_id).clone();
        analysis.transfer_terminator(&block.terminator, &mut live);
        let ghost behind = live.known();
        let mut position: usize = block.actions.len();
        while position > 0
            invariant
                ast@.well_formed(),
                analysis.ast == ast,
                analysis.escaping == escaping,
                grounds == (Grounds { ast: ast@, escaping: escaping@, ever_read: ever_read@ }),
                data == block@,
                data_ok(data, ast@.bounds()),
                analysis.understands(data),
                position <= block.actions@.len(),
                block.actions@.len() == data.actions.len(),
                actions_reported(grounds, start, data.actions, data.actions.len() as int, behind)
                    == actions_reported(
                    grounds,
                    (Report { findings: diagnostic_views(diagnostics@), unused: reported_unused@ }),
                    data.actions,
                    position as int,
                    live.known(),
                ),
            decreases position,
        {
            position = position - 1;
            proof {
                assert(data.actions[position as int] == block.actions@[position as int]@);
                assert(data.actions.contains(block.actions@[position as int]@));
                assert(action_ok(data.actions[position as int], ast@.bounds()));
            }
            // `live` is what is needed *after* this action — exactly the question a dead store
            // asks.
            if let Action::Statement(stmt) = block.actions[position] {
                let writes: Vec<(SymId, Span)> = analysis.writes_of_stmt(stmt);
                analysis.report_writes(
                    block,
                    position,
                    &writes,
                    &live,
                    &ever_read,
                    &mut reported_unused,
                    &mut diagnostics,
                    Ghost(grounds),
                );
            }
            analysis.transfer_action(&block.actions[position], &mut live);
        }
        index = index + 1;
    }
    diagnostics
}

/// Reports dead stores and unused bindings in one graph.
///
/// `escaping` are symbols that outlive this graph — globals, which another function may read — and
/// are treated as live wherever the graph ends. Compute them once with [`escaping_symbols`].
pub fn check<'ast, 'src>(ast: &ProgramAst<'src>, cfg: &Cfg<'ast>, escaping: &SymbolSet) -> (
    diagnostics: Vec<Diagnostic>)
    requires
        ast@.well_formed(),
        graph_ok(cfg@.blocks, ast@.bounds()),
        live_facts(ast, cfg@, escaping) is Some,
    ensures
        diagnostic_views(diagnostics@) == unread_values(
            ast@,
            cfg@,
            escaping@,
            needed_sets(ast@, cfg@, escaping@),
        ),
{
    match try_check(ast, cfg, escaping) {
        Some(diagnostics) => diagnostics,
        None => Vec::new(),
    }
}

/// Reports dead stores and unused bindings in one graph, unless liveness does not settle within the
/// solver's budget.
pub fn try_check<'ast, 'src>(ast: &ProgramAst<'src>, cfg: &Cfg<'ast>, escaping: &SymbolSet) -> (r:
    Option<Vec<Diagnostic>>)
    requires
        ast@.well_formed(),
        graph_ok(cfg@.blocks, ast@.bounds()),
    ensures
        match r {
            Some(diagnostics) => {
                &&& live_facts(ast, cfg@, escaping) is Some
                &&& diagnostic_views(diagnostics@) == unread_values(
                    ast@,
                    cfg@,
                    escaping@,
                    needed_sets(ast@, cfg@, escaping@),
                )
            },
            None => live_facts(ast, cfg@, escaping) is None,
        },
{
    let analysis: Liveness<'_, 'src> = Liveness { ast, escaping };
    proof {
        assert forall|b: int| 0 <= b < cfg@.blocks.len() implies analysis.understands(
            #[trigger] cfg@.blocks[b],
        ) by {}
    }
    let entry: BlockId = cfg.entry();
    let solution: Solution<SymbolSetFact> = match try_solve(cfg, &analysis) {
        Some(solution) => solution,
        None => return None,
    };
    proof {
        live_means_read_ahead(ast, cfg@, escaping);
    }
    Some(report(ast, cfg, escaping, &solution))
}

// ---------------------------------------------------------------------------
// Symbols that escape
// ---------------------------------------------------------------------------

/// Whether a node reads a symbol through `::`, in a hole of an f-string too.
pub open spec fn names_global(node: NodeView, sym: u32) -> bool {
    match node {
        NodeView::Global(sym_id) => sym_id.0 == sym,
        NodeView::FStr(segments) => segments.contains(
            FStrSegment::Interp(Place::Global(SymId(sym))),
        ),
        _ => false,
    }
}

/// Whether one of several targets is a symbol named through `::`.
pub open spec fn targets_global(group: Seq<Place>, sym: u32) -> bool {
    group.contains(Place::Global(SymId(sym)))
}

/// Whether one of several groups of targets names a symbol through `::`.
pub open spec fn group_targets_global(groups: Seq<Seq<Place>>, sym: u32) -> bool {
    exists|i: int| 0 <= i < groups.len() && #[trigger] targets_global(groups[i], sym)
}

/// Whether a top-level item assigns to a symbol through `::`.
pub open spec fn assigns_global(item: TopLevelView, sym: u32) -> bool {
    match item {
        TopLevelView::Stmt(stmt) => match stmt {
            StmtView::Assign(targets, _, _) => group_targets_global(targets, sym),
            _ => false,
        },
        TopLevelView::Func(_) => false,
    }
}

/// Symbols whose life does not end with any one graph: everything named through `::`.
pub open spec fn escapes(ast: AstView, sym: u32) -> bool {
    ||| exists|i: int| 0 <= i < ast.nodes.len() && #[trigger] names_global(ast.nodes[i], sym)
    ||| exists|i: int| 0 <= i < ast.top_level.len() && #[trigger] assigns_global(
        ast.top_level[i],
        sym,
    )
}

/// The symbols that holes of an f-string name through `::`.
fn collect_global_holes(segments: &Vec<FStrSegment>, escaping: &mut SymbolSet)
    ensures
        forall|sym: u32| #[trigger]
            final(escaping)@.contains(sym) <==> old(escaping)@.contains(sym) || segments@.contains(
                FStrSegment::Interp(Place::Global(SymId(sym))),
            ),
{
    let ghost start = escaping@;
    let mut index: usize = 0;
    assert(segments@.take(0) =~= Seq::empty());
    while index < segments.len()
        invariant
            index <= segments@.len(),
            forall|sym: u32| #[trigger]
                escaping@.contains(sym) <==> start.contains(sym) || segments@.take(
                    index as int,
                ).contains(FStrSegment::Interp(Place::Global(SymId(sym)))),
        decreases segments@.len() - index,
    {
        let ghost here = index as int;
        let ghost before = escaping@;
        if let FStrSegment::Interp(Place::Global(sym_id)) = segments[index] {
            set_insert(escaping, sym_id.0);
        }
        proof {
            let seen = segments@.take(here);
            assert(segments@.take(here + 1) =~= seen.push(segments@[here]));
            assert forall|sym: u32| #[trigger]
                escaping@.contains(sym) <==> start.contains(sym) || segments@.take(
                    here + 1,
                ).contains(FStrSegment::Interp(Place::Global(SymId(sym)))) by {
                let hole = FStrSegment::Interp(Place::Global(SymId(sym)));
                if seen.contains(hole) {
                    let k = choose|k: int| 0 <= k < seen.len() && seen[k] == hole;
                    assert(seen.push(segments@[here])[k] == hole);
                }
                assert(seen.push(segments@[here])[here] == segments@[here]);
                if seen.push(segments@[here]).contains(hole) && segments@[here] != hole {
                    let k = choose|k: int|
                        0 <= k < here + 1 && seen.push(segments@[here])[k] == hole;
                    assert(seen[k] == hole);
                }
            }
        }
        index = index + 1;
    }
    assert(segments@.take(index as int) =~= segments@);
}

/// Symbols whose life does not end with any one graph: everything named through `::`.
///
/// A function writing `::total` is not making a dead store even if it never reads it back, and a
/// global the entry assigns may be read only from inside a function. Both directions are covered by
/// treating every `::`-named symbol as live wherever a graph ends.
///
/// Deliberately coarse: it counts a `::name` on the left of an assignment as well as a read, so a
/// global nothing ever reads is not reported. Over-approximating liveness only ever *suppresses* a
/// finding, which is the safe direction.
pub fn escaping_symbols(ast: &ProgramAst) -> (escaping: SymbolSet)
    ensures
        forall|sym: u32| #[trigger] escaping@.contains(sym) <==> escapes(ast@, sym),
{
    let mut escaping: SymbolSet = symbol_set();
    let mut index: usize = 0;
    while index < ast.nodes.len()
        invariant
            index <= ast.nodes@.len(),
            forall|sym: u32| #[trigger]
                escaping@.contains(sym) <==> exists|i: int|
                    0 <= i < index && #[trigger] names_global(ast@.nodes[i], sym),
        decreases ast.nodes@.len() - index,
    {
        let ghost before = escaping@;
        let ghost here = index as int;
        assert(ast@.nodes[here] == ast.nodes@[here]@);
        match &ast.nodes[index] {
            Node::Global(sym_id) => {
                set_insert(&mut escaping, sym_id.0);
            },
            Node::FStr { segments } => {
                collect_global_holes(segments, &mut escaping);
            },
            _ => {},
        }
        proof {
            assert forall|sym: u32| #[trigger] escaping@.contains(sym) <==> exists|i: int|
                0 <= i < index + 1 && #[trigger] names_global(ast@.nodes[i], sym) by {
                if escaping@.contains(sym) && !before.contains(sym) {
                    assert(names_global(ast@.nodes[here], sym));
                }
                if exists|i: int| 0 <= i < index + 1 && #[trigger] names_global(
                    ast@.nodes[i],
                    sym,
                ) {
                    let i = choose|i: int|
                        0 <= i < index + 1 && #[trigger] names_global(ast@.nodes[i], sym);
                    if i < index {
                        assert(before.contains(sym));
                    }
                }
            }
        }
        index = index + 1;
    }
    let ghost from_nodes = escaping@;
    let mut item: usize = 0;
    while item < ast.top_level.len()
        invariant
            item <= ast.top_level@.len(),
            forall|sym: u32| #[trigger]
                escaping@.contains(sym) <==> from_nodes.contains(sym) || exists|i: int|
                    0 <= i < item && #[trigger] assigns_global(ast@.top_level[i], sym),
        decreases ast.top_level@.len() - item,
    {
        let ghost before = escaping@;
        let ghost here = item as int;
        assert(ast@.top_level[here] == ast.top_level@[here]@);
        if let TopLevel::Stmt(stmt) = &ast.top_level[item] {
            collect_global_targets(stmt, &mut escaping);
        }
        proof {
            assert forall|sym: u32| #[trigger]
                escaping@.contains(sym) <==> from_nodes.contains(sym) || exists|i: int|
                    0 <= i < item + 1 && #[trigger] assigns_global(ast@.top_level[i], sym) by {
                if escaping@.contains(sym) && !before.contains(sym) {
                    assert(assigns_global(ast@.top_level[here], sym));
                }
                if exists|i: int|
                    0 <= i < item + 1 && #[trigger] assigns_global(ast@.top_level[i], sym) {
                    let i = choose|i: int|
                        0 <= i < item + 1 && #[trigger] assigns_global(ast@.top_level[i], sym);
                    if i < item {
                        assert(before.contains(sym));
                    }
                }
            }
        }
        item = item + 1;
    }
    escaping
}

/// Adds the symbols that a statement assigns to through `::`.
fn collect_global_targets(stmt: &Stmt, escaping: &mut SymbolSet)
    ensures
        forall|sym: u32| #[trigger]
            final(escaping)@.contains(sym) <==> old(escaping)@.contains(sym) || assigns_global(
                TopLevelView::Stmt(stmt@),
                sym,
            ),
{
    if let Stmt::Assign { target_lists, target_spans, values } = stmt {
        let ghost targets = nested(target_lists@);
        let mut group: usize = 0;
        while group < target_lists.len()
            invariant
                group <= target_lists@.len(),
                targets == nested(target_lists@),
                forall|sym: u32| #[trigger]
                    escaping@.contains(sym) <==> old(escaping)@.contains(sym) || exists|i: int|
                        0 <= i < group && #[trigger] targets_global(targets[i], sym),
            decreases target_lists@.len() - group,
        {
            let ghost before = escaping@;
            let ghost places = targets[group as int];
            assert(places == target_lists@[group as int]@);
            let mut index: usize = 0;
            while index < target_lists[group].len()
                invariant
                    group < target_lists@.len(),
                    places == target_lists@[group as int]@,
                    index <= places.len(),
                    forall|sym: u32| #[trigger]
                        escaping@.contains(sym) <==> before.contains(sym) || exists|i: int|
                            0 <= i < index && #[trigger] places[i] == Place::Global(SymId(sym)),
                decreases places.len() - index,
            {
                let ghost inner = escaping@;
                if let Place::Global(sym_id) = target_lists[group][index] {
                    set_insert(escaping, sym_id.0);
                }
                proof {
                    assert forall|sym: u32| #[trigger]
                        escaping@.contains(sym) <==> before.contains(sym) || exists|i: int|
                            0 <= i < index + 1 && #[trigger] places[i] == Place::Global(
                                SymId(sym),
                            ) by {
                        if escaping@.contains(sym) && !inner.contains(sym) {
                            assert(places[index as int] == Place::Global(SymId(sym)));
                        }
                        if exists|i: int|
                            0 <= i < index + 1 && #[trigger] places[i] == Place::Global(
                                SymId(sym),
                            ) {
                            let i = choose|i: int|
                                0 <= i < index + 1 && #[trigger] places[i] == Place::Global(
                                    SymId(sym),
                                );
                            if i < index {
                                assert(inner.contains(sym));
                            }
                        }
                    }
                }
                index = index + 1;
            }
            proof {
                assert forall|sym: u32| #[trigger]
                    escaping@.contains(sym) <==> old(escaping)@.contains(sym) || exists|i: int|
                        0 <= i < group + 1 && #[trigger] targets_global(targets[i], sym) by {
                    if escaping@.contains(sym) && !before.contains(sym) {
                        assert(targets_global(targets[group as int], sym));
                    }
                    if exists|i: int|
                        0 <= i < group + 1 && #[trigger] targets_global(targets[i], sym) {
                        let i = choose|i: int|
                            0 <= i < group + 1 && #[trigger] targets_global(targets[i], sym);
                        if i < group {
                            assert(before.contains(sym));
                        } else {
                            let k = places.index_of(Place::Global(SymId(sym)));
                            assert(places[k] == Place::Global(SymId(sym)));
                        }
                    }
                }
            }
            group = group + 1;
        }
        proof {
            assert(stmt@ == StmtView::Assign(targets, nested(target_spans@), values@));
            assert forall|sym: u32| #[trigger]
                escaping@.contains(sym) <==> old(escaping)@.contains(sym) || assigns_global(
                    TopLevelView::Stmt(stmt@),
                    sym,
                ) by {
                assert(group == targets.len());
                assert(assigns_global(TopLevelView::Stmt(stmt@), sym) == group_targets_global(
                    targets,
                    sym,
                ));
                if exists|i: int| 0 <= i < group && #[trigger] targets_global(targets[i], sym) {
                    let i = choose|i: int|
                        0 <= i < group && #[trigger] targets_global(targets[i], sym);
                    assert(0 <= i < targets.len() && targets_global(targets[i], sym));
                }
            }
        }
    } else {
        assert(!(stmt@ is Assign));
    }
}

// ---------------------------------------------------------------------------
// Live means read ahead
// ---------------------------------------------------------------------------

/// Whether the part of a block from the action at `from` on reads a symbol before writing it.
pub open spec fn read_first(
    ast: AstView,
    actions: Seq<ActionView>,
    from: int,
    terminator: Terminator,
    sym: u32,
) -> bool
    decreases actions.len() - from,
{
    if from < 0 || from >= actions.len() {
        terminator_reads(ast, terminator).contains(sym)
    } else {
        ||| action_reads(ast, actions[from]).contains(sym)
        ||| !action_writes(actions[from]).contains(sym) && read_first(
            ast,
            actions,
            from + 1,
            terminator,
            sym,
        )
    }
}

/// Whether no action from `from` on writes a symbol.
pub open spec fn left_alone(actions: Seq<ActionView>, from: int, sym: u32) -> bool {
    forall|i: int| from <= i < actions.len() ==> !action_writes(#[trigger] actions[i]).contains(sym)
}

pub open spec fn block_reads_first(ast: AstView, data: BlockData, sym: u32) -> bool {
    read_first(ast, data.actions, 0, data.terminator, sym)
}

/// A way on through a graph: each block to one of its successors.
pub open spec fn is_way(cfg: CfgView, way: Seq<int>) -> bool {
    &&& way.len() > 0
    &&& forall|i: int| 0 <= i < way.len() ==> 0 <= #[trigger] way[i] < cfg.blocks.len()
    &&& forall|i: int|
        #![trigger way[i]]
        0 < i < way.len() ==> successors_of(cfg, way[i - 1]).contains(BlockId(way[i] as usize))
}

/// A way from the end of its first block on which a symbol is needed: no block in between writes
/// it, and the last one reads it first, or ends the graph that the symbol outlives.
pub open spec fn needs(
    ast: AstView,
    cfg: CfgView,
    escaping: Set<u32>,
    way: Seq<int>,
    sym: u32,
) -> bool {
    let last = cfg.blocks[way.last()];
    &&& is_way(cfg, way)
    &&& forall|i: int|
        0 < i < way.len() - 1 ==> left_alone(cfg.blocks[#[trigger] way[i]].actions, 0, sym)
    &&& {
        ||| way.len() > 1 && block_reads_first(ast, last, sym)
        ||| way.last() == cfg.exit.0 && escaping.contains(sym) && (way.len() == 1 || left_alone(
            last.actions,
            0,
            sym,
        ))
    }
}

/// A symbol is needed behind a block: something reads it on some way on from there, before anything
/// writes it.
pub open spec fn needed_after(
    ast: AstView,
    cfg: CfgView,
    escaping: Set<u32>,
    block: int,
    sym: u32,
) -> bool {
    exists|way: Seq<int>| #[trigger] needs(ast, cfg, escaping, way, sym) && way[0] == block
}

proof fn lemma_back_across(
    analysis: &Liveness<'_, '_>,
    actions: Seq<ActionView>,
    from: int,
    terminator: Terminator,
    known: Set<int>,
    item: int,
)
    requires
        0 <= from <= actions.len(),
    ensures
        back_across_actions(
            analysis,
            actions,
            from,
            analysis.known_across_terminator(terminator, known),
        ).contains(item) <==> {
            ||| 0 <= item <= u32::MAX && read_first(
                analysis.ast@,
                actions,
                from,
                terminator,
                item as u32,
            )
            ||| known.contains(item) && !(0 <= item <= u32::MAX && !left_alone(
                actions,
                from,
                item as u32,
            ))
        },
    decreases actions.len() - from,
{
    let sym = item as u32;
    if from < actions.len() {
        lemma_back_across(analysis, actions, from + 1, terminator, known, item);
        if 0 <= item <= u32::MAX {
            if left_alone(actions, from, sym) {
                assert(!action_writes(actions[from]).contains(sym));
                assert(left_alone(actions, from + 1, sym));
            }
            if left_alone(actions, from + 1, sym) && !action_writes(actions[from]).contains(sym) {
                assert(left_alone(actions, from, sym));
            }
        }
    }
}

/// What is live in front of a block, given what is live behind it.
proof fn lemma_across(analysis: &Liveness<'_, '_>, data: BlockData, known: Set<int>, item: int)
    ensures
        across_block(analysis, data, known).contains(item) <==> {
            ||| 0 <= item <= u32::MAX && block_reads_first(analysis.ast@, data, item as u32)
            ||| known.contains(item) && !(0 <= item <= u32::MAX && !left_alone(
                data.actions,
                0,
                item as u32,
            ))
        },
{
    lemma_back_across(analysis, data.actions, 0, data.terminator, known, item);
}

/// A symbol is needed behind a block exactly if the graph ends there and it outlives the graph, or
/// a successor reads it first or passes on that it is needed.
proof fn lemma_needed_step(
    ast: AstView,
    cfg: CfgView,
    escaping: Set<u32>,
    block: int,
    sym: u32,
)
    requires
        cfg.well_formed(),
        0 <= block < cfg.blocks.len(),
    ensures
        needed_after(ast, cfg, escaping, block, sym) <==> {
            ||| block == cfg.exit.0 && escaping.contains(sym)
            ||| exists|next: int| #[trigger] needed_through(ast, cfg, escaping, block, next, sym)
        },
{
    if needed_after(ast, cfg, escaping, block, sym) {
        let way = choose|way: Seq<int>| #[trigger]
            needs(ast, cfg, escaping, way, sym) && way[0] == block;
        if way.len() > 1 {
            let next = way[1];
            let rest = way.skip(1);
            assert(rest.last() == way.last());
            assert(successors_of(cfg, way[1 - 1]).contains(BlockId(way[1] as usize)));
            assert(is_way(cfg, rest)) by {
                assert forall|i: int| 0 <= i < rest.len() implies 0 <= #[trigger] rest[i]
                    < cfg.blocks.len() by {
                    assert(rest[i] == way[i + 1]);
                }
                assert forall|i: int|
                    #![trigger rest[i]]
                    0 < i < rest.len() implies successors_of(cfg, rest[i - 1]).contains(
                    BlockId(rest[i] as usize),
                ) by {
                    assert(rest[i] == way[i + 1]);
                    assert(rest[i - 1] == way[i + 1 - 1]);
                }
            }
            assert forall|i: int| 0 < i < rest.len() - 1 implies left_alone(
                cfg.blocks[#[trigger] rest[i]].actions,
                0,
                sym,
            ) by {
                assert(rest[i] == way[i + 1]);
            }
            if way.len() > 2 {
                assert(left_alone(cfg.blocks[way[1]].actions, 0, sym));
                assert(needs(ast, cfg, escaping, rest, sym) && rest[0] == next);
            } else if !block_reads_first(ast, cfg.blocks[next], sym) {
                assert(needs(ast, cfg, escaping, rest, sym) && rest[0] == next);
            }
            assert(needed_through(ast, cfg, escaping, block, next, sym));
        }
    }
    if block == cfg.exit.0 && escaping.contains(sym) {
        let way = seq![block];
        assert(needs(ast, cfg, escaping, way, sym) && way[0] == block);
    }
    if exists|next: int| #[trigger] needed_through(ast, cfg, escaping, block, next, sym) {
        let next = choose|next: int| #[trigger]
            needed_through(ast, cfg, escaping, block, next, sym);
        if block_reads_first(ast, cfg.blocks[next], sym) {
            let way = seq![block, next];
            assert(is_way(cfg, way));
            assert(way.last() == next);
            assert(needs(ast, cfg, escaping, way, sym) && way[0] == block);
        } else {
            let rest = choose|way: Seq<int>| #[trigger]
                needs(ast, cfg, escaping, way, sym) && way[0] == next;
            let way = seq![block] + rest;
            assert(way.last() == rest.last());
            assert(is_way(cfg, way)) by {
                assert forall|i: int| 0 <= i < way.len() implies 0 <= #[trigger] way[i]
                    < cfg.blocks.len() by {
                    if i > 0 {
                        assert(way[i] == rest[i - 1]);
                    }
                }
                assert forall|i: int|
                    #![trigger way[i]]
                    0 < i < way.len() implies successors_of(cfg, way[i - 1]).contains(
                    BlockId(way[i] as usize),
                ) by {
                    assert(way[i] == rest[i - 1]);
                    if i > 1 {
                        assert(way[i - 1] == rest[i - 1 - 1]);
                    }
                }
            }
            assert forall|i: int| 0 < i < way.len() - 1 implies left_alone(
                cfg.blocks[#[trigger] way[i]].actions,
                0,
                sym,
            ) by {
                assert(way[i] == rest[i - 1]);
            }
            assert(needs(ast, cfg, escaping, way, sym) && way[0] == block);
        }
    }
}

/// A successor of a block reads a symbol first, or leaves it alone where it is needed behind.
pub open spec fn needed_through(
    ast: AstView,
    cfg: CfgView,
    escaping: Set<u32>,
    block: int,
    next: int,
    sym: u32,
) -> bool {
    &&& 0 <= next < cfg.blocks.len()
    &&& successors_of(cfg, block).contains(BlockId(next as usize))
    &&& {
        ||| block_reads_first(ast, cfg.blocks[next], sym)
        ||| left_alone(cfg.blocks[next].actions, 0, sym) && needed_after(
            ast,
            cfg,
            escaping,
            next,
            sym,
        )
    }
}

/// The symbols that are needed behind each block.
pub open spec fn needed_sets(ast: AstView, cfg: CfgView, escaping: Set<u32>) -> Seq<Set<int>> {
    Seq::new(
        cfg.blocks.len(),
        |b: int|
            Set::new(
                |item: int|
                    0 <= item <= u32::MAX && needed_after(ast, cfg, escaping, b, item as u32),
            ),
    )
}

/// The facts that say behind and in front of each block which symbols are needed.
spec fn needed_facts(ast: AstView, cfg: CfgView, escaping: Set<u32>) -> SolveState {
    SolveState {
        ins: needed_sets(ast, cfg, escaping),
        outs: Seq::new(
            cfg.blocks.len(),
            |b: int|
                Set::new(
                    |item: int|
                        0 <= item <= u32::MAX && (block_reads_first(
                            ast,
                            cfg.blocks[b],
                            item as u32,
                        ) || left_alone(cfg.blocks[b].actions, 0, item as u32) && needed_after(
                            ast,
                            cfg,
                            escaping,
                            b,
                            item as u32,
                        )),
                ),
        ),
        worklist: Seq::empty(),
    }
}

proof fn lemma_needed_settled(cfg: CfgView, analysis: &Liveness<'_, '_>)
    requires
        cfg.well_formed(),
    ensures
        settled(cfg, analysis, needed_facts(analysis.ast@, cfg, analysis.escaping@)),
        monotone(cfg, analysis),
{
    let ast = analysis.ast@;
    let escaping = analysis.escaping@;
    let st = needed_facts(ast, cfg, escaping);
    assert forall|b: int| 0 <= b < cfg.blocks.len() implies #[trigger] agrees_at(
        cfg,
        analysis,
        st,
        b,
    ) by {
        assert forall|item: int| st.ins[b].contains(item) <==> flows_in(
            cfg,
            analysis,
            st.outs,
            b,
            item,
        ) by {
            let sym = item as u32;
            if 0 <= item <= u32::MAX {
                lemma_needed_step(ast, cfg, escaping, b, sym);
            }
            if st.ins[b].contains(item) && !(b == cfg.exit.0 && escaping.contains(sym)) {
                let next = choose|next: int| #[trigger]
                    needed_through(ast, cfg, escaping, b, next, sym);
                assert(flows(cfg, analysis, next, b) && st.outs[next].contains(item));
            }
            if flows_in(cfg, analysis, st.outs, b, item) {
                if exists|from: int| #[trigger]
                    flows(cfg, analysis, from, b) && st.outs[from].contains(item) {
                    let from = choose|from: int| #[trigger]
                        flows(cfg, analysis, from, b) && st.outs[from].contains(item);
                    assert(needed_through(ast, cfg, escaping, b, from, sym));
                }
            }
        }
        assert(st.ins[b] =~= incoming(cfg, analysis, st.outs, b));
        assert forall|item: int| st.outs[b].contains(item) <==> across_block(
            analysis,
            cfg.blocks[b],
            st.ins[b],
        ).contains(item) by {
            lemma_across(analysis, cfg.blocks[b], st.ins[b], item);
        }
        assert(st.outs[b] =~= across_block(analysis, cfg.blocks[b], st.ins[b]));
    }
    assert forall|b: int, less: Set<int>, more: Set<int>|
        0 <= b < cfg.blocks.len() && less.subset_of(more) implies #[trigger] across_block(
        analysis,
        cfg.blocks[b],
        less,
    ).subset_of(#[trigger] across_block(analysis, cfg.blocks[b], more)) by {
        assert forall|item: int| across_block(analysis, cfg.blocks[b], less).contains(
            item,
        ) implies across_block(analysis, cfg.blocks[b], more).contains(item) by {
            lemma_across(analysis, cfg.blocks[b], less, item);
            lemma_across(analysis, cfg.blocks[b], more, item);
        }
    }
}

proof fn lemma_way_is_live(
    cfg: CfgView,
    analysis: &Liveness<'_, '_>,
    st: SolveState,
    way: Seq<int>,
    sym: u32,
)
    requires
        cfg.well_formed(),
        settled(cfg, analysis, st),
        needs(analysis.ast@, cfg, analysis.escaping@, way, sym),
    ensures
        st.ins[way[0]].contains(sym as int),
    decreases way.len(),
{
    let ast = analysis.ast@;
    let b = way[0];
    let item = sym as int;
    assert(agrees_at(cfg, analysis, st, b));
    if way.len() == 1 {
        assert(way.last() == b);
        assert(flows_in(cfg, analysis, st.outs, b, item));
    } else {
        let next = way[1];
        assert(successors_of(cfg, way[1 - 1]).contains(BlockId(way[1] as usize)));
        assert(agrees_at(cfg, analysis, st, next));
        lemma_across(analysis, cfg.blocks[next], st.ins[next], item);
        let rest = way.skip(1);
        if !block_reads_first(ast, cfg.blocks[next], sym) {
            assert(rest.last() == way.last());
            assert(rest[0] == next);
            assert(is_way(cfg, rest)) by {
                assert forall|i: int| 0 <= i < rest.len() implies 0 <= #[trigger] rest[i]
                    < cfg.blocks.len() by {
                    assert(rest[i] == way[i + 1]);
                }
                assert forall|i: int|
                    #![trigger rest[i]]
                    0 < i < rest.len() implies successors_of(cfg, rest[i - 1]).contains(
                    BlockId(rest[i] as usize),
                ) by {
                    assert(rest[i] == way[i + 1]);
                    assert(rest[i - 1] == way[i + 1 - 1]);
                }
            }
            assert forall|i: int| 0 < i < rest.len() - 1 implies left_alone(
                cfg.blocks[#[trigger] rest[i]].actions,
                0,
                sym,
            ) by {
                assert(rest[i] == way[i + 1]);
            }
            lemma_way_is_live(cfg, analysis, st, rest, sym);
            if way.len() > 2 {
                assert(left_alone(cfg.blocks[way[1]].actions, 0, sym));
            }
        }
        assert(flows(cfg, analysis, next, b) && st.outs[next].contains(item));
        assert(flows_in(cfg, analysis, st.outs, b, item));
    }
}

/// What the solver finds live behind each block is what is needed there: a symbol is live exactly
/// if something reads it on *some* way on, before anything writes it, or it outlives the graph that
/// the way ends.
pub proof fn live_means_read_ahead(ast: &Ast<'_>, cfg: CfgView, escaping: &SymbolSet)
    requires
        cfg.well_formed(),
    ensures
        live_facts(ast, cfg, escaping) matches Some(facts) ==> facts.ins == needed_sets(
            ast@,
            cfg,
            escaping@,
        ),
{
    let analysis = Liveness { ast, escaping };
    if let Some(st) = live_facts(ast, cfg, escaping) {
        solutions_are_fixpoints(cfg, &analysis);
        lemma_needed_settled(cfg, &analysis);
        let other = needed_facts(ast@, cfg, escaping@);
        solutions_are_least(cfg, &analysis, other);
        assert forall|b: int| 0 <= b < cfg.blocks.len() implies #[trigger] st.ins[b]
            == other.ins[b] by {
            assert forall|item: int| other.ins[b].contains(item) implies st.ins[b].contains(
                item,
            ) by {
                let way = choose|way: Seq<int>| #[trigger]
                    needs(ast@, cfg, escaping@, way, item as u32) && way[0] == b;
                lemma_way_is_live(cfg, &analysis, st, way, item as u32);
            }
            assert(st.ins[b].subset_of(other.ins[b]));
            assert(st.ins[b] =~= other.ins[b]);
        }
        assert(st.ins =~= needed_sets(ast@, cfg, escaping@));
    }
}

} // verus!
