//! Unreachable code: statements no execution can arrive at.
//!
//! A forward analysis over the simplest fact there is — reached, or not. Every block starts knowing
//! nothing (`false`), the entry is seeded as reached, and anything still `false` at fixpoint has no
//! path leading to it.
//!
//! What makes anything unreachable in a language with no `return` or `break` is a condition that
//! cannot vary. Only a **literal** `true`/`false` counts here, and an empty literal range: `while 1
//! > 2` is not folded, because doing constant arithmetic by hand would duplicate what constant
//! propagation will do properly later. That is a deliberate first-iteration limit, not an
//! oversight.

use crate::analysis::cfg::{
    action_ok, data_ok, graph_ok, successors_of, Action, ActionView, BasicBlock, BlockData,
    BlockId, Cfg, CfgView, Terminator,
};
use crate::analysis::dataflow::{
    across_actions, across_block, affected, agrees_at, arrived, budget, flows, flows_in, incoming,
    monotone, run, settled, solution_is, solutions_are_fixpoints, solutions_are_least, solve,
    solved, unsolved, visited, Analysis, Direction, MergeableFact, ReachabilityFact, Solution,
    SolveState,
};
use crate::analysis::diagnostic::{finding, Diagnostic, DiagnosticCode, DiagnosticView};
use crate::lexer::{no_span, Span};
use crate::parser::ast::{
    expr_ok, node_ok, stmt_ok, Ast, AstView, ExprId, Node, NodeView, ProgramAst, RangeKind, Stmt,
    StmtView, UnOp,
};
use crate::codegen::meaning::goes_on;
use vstd::prelude::*;

verus! {

// ---------------------------------------------------------------------------
// What can run
// ---------------------------------------------------------------------------

pub open spec fn literal(ast: AstView, expr_id: ExprId) -> Option<i64> {
    match ast.nodes[expr_id.0 as int] {
        NodeView::Int(value) => Some(value),
        _ => None,
    }
}

/// Whether a literal step counts up. `None` when the step is not a literal or does not advance.
pub open spec fn counts_up(ast: AstView, step: ExprId) -> Option<bool> {
    match ast.nodes[step.0 as int] {
        NodeView::Int(by) => if by == 0 {
            None
        } else {
            Some(by > 0)
        },
        NodeView::Unary(UnOp::Neg, operand) => match literal(ast, operand) {
            Some(by) => if by == 0 {
                None
            } else {
                Some(by < 0)
            },
            None => None,
        },
        _ => None,
    }
}

/// Whether a range with literal bounds is empty — `1..<1` and `5..1` are, `1..3` and `5..1:-1` are
/// not. `None` when a bound or a given step is not a literal, so nothing is assumed.
pub open spec fn is_empty_range(ast: AstView, range: NodeView) -> Option<bool> {
    match range {
        NodeView::Range(start, stop, step, kind) => match (
            literal(ast, start),
            literal(ast, stop),
        ) {
            (Some(first), Some(last)) => match step {
                None => Some(
                    match kind {
                        RangeKind::Inclusive => first > last,
                        RangeKind::UpExclusive => first >= last,
                        RangeKind::DownExclusive => first <= last,
                    },
                ),
                Some(step) => match counts_up(ast, step) {
                    Some(up) => Some(
                        !goes_on(first as int, last as int, kind == RangeKind::Inclusive, up),
                    ),
                    None => None,
                },
            },
            _ => None,
        },
        _ => None,
    }
}

/// Whether a condition is decided before the program runs. A literal `true`/`false` decides both
/// ways; an empty range decides *against* a loop's body, and no other range decides anything.
pub open spec fn decided(ast: AstView, cond: ExprId) -> Option<bool> {
    let node = ast.nodes[cond.0 as int];
    match node {
        NodeView::Bool(value) => Some(value),
        _ => if is_empty_range(ast, node) == Some(true) {
            Some(false)
        } else {
            None
        },
    }
}

/// The successors of a block that control can take: an edge out of a decided condition is never
/// taken the other way.
pub open spec fn possible(ast: AstView, cfg: CfgView, block: int) -> Seq<BlockId> {
    match cfg.blocks[block].terminator {
        Terminator::Branch { cond, then_block, else_block } => match decided(ast, cond) {
            Some(true) => seq![then_block],
            Some(false) => seq![else_block],
            None => seq![then_block, else_block],
        },
        _ => successors_of(cfg, block),
    }
}

/// A way that execution can take: from the entry, each block to one of its possible successors.
pub open spec fn is_path(ast: AstView, cfg: CfgView, path: Seq<int>) -> bool {
    &&& path.len() > 0
    &&& path[0] == cfg.entry.0
    &&& forall|i: int| 0 <= i < path.len() ==> 0 <= #[trigger] path[i] < cfg.blocks.len()
    &&& forall|i: int|
        #![trigger path[i]]
        0 < i < path.len() ==> possible(ast, cfg, path[i - 1]).contains(BlockId(path[i] as usize))
}

/// Execution can arrive at a block.
pub open spec fn can_arrive(ast: AstView, cfg: CfgView, block: int) -> bool {
    exists|path: Seq<int>| #[trigger] is_path(ast, cfg, path) && path.last() == block
}

/// A statement's position, taken from a representative expression.
pub open spec fn position_of(ast: AstView, stmt: StmtView) -> Span {
    match stmt {
        StmtView::Assign(_, spans, values) => if spans.len() > 0 && spans[0].len() > 0
            && spans[0][0] != no_span() {
            spans[0][0]
        } else if values.len() > 0 {
            ast.spans[values[0].0 as int]
        } else {
            no_span()
        },
        StmtView::Expr(expr_id) => ast.spans[expr_id.0 as int],
        StmtView::While(cond, _) => ast.spans[cond.0 as int],
        StmtView::Loop(_, cond, _) => ast.spans[cond.0 as int],
        StmtView::For(_, source, _) => ast.spans[source.0 as int],
        StmtView::ForArray(_, source, _) => ast.spans[source.0 as int],
        StmtView::IndexedAssign(_, index, _, _) => ast.spans[index.0 as int],
        StmtView::IndexedAssign2D(_, row, _, _, _) => ast.spans[row.0 as int],
    }
}

pub open spec fn action_span(ast: AstView, action: ActionView) -> Span {
    match action {
        ActionView::Statement(stmt) => position_of(ast, stmt),
        ActionView::Evaluate(expr_id) => ast.spans[expr_id.0 as int],
        ActionView::Bind(_) => no_span(),
    }
}

/// The span of the first action from `from` on that has one.
pub open spec fn span_from(ast: AstView, actions: Seq<ActionView>, from: int) -> Option<Span>
    decreases actions.len() - from,
{
    if from < 0 || from >= actions.len() {
        None
    } else if action_span(ast, actions[from]) != no_span() {
        Some(action_span(ast, actions[from]))
    } else {
        span_from(ast, actions, from + 1)
    }
}

/// The findings about the first `count` blocks: one for each block that no execution can arrive at,
/// where its first action with a position is.
pub open spec fn unreachable_among(ast: AstView, cfg: CfgView, count: int) -> Seq<DiagnosticView>
    decreases count,
{
    if count <= 0 {
        Seq::empty()
    } else {
        let before = unreachable_among(ast, cfg, count - 1);
        match span_from(ast, cfg.blocks[count - 1].actions, 0) {
            Some(span) => if can_arrive(ast, cfg, count - 1) {
                before
            } else {
                before.push(
                    finding(DiagnosticCode::UnreachableCode, span, "This code can never run."@),
                )
            },
            None => before,
        }
    }
}

/// The findings about all blocks.
pub open spec fn unreachable_code(ast: AstView, cfg: CfgView) -> Seq<DiagnosticView> {
    unreachable_among(ast, cfg, cfg.blocks.len() as int)
}

// ---------------------------------------------------------------------------
// The analysis
// ---------------------------------------------------------------------------

pub open spec fn diagnostic_views(diagnostics: Seq<Diagnostic>) -> Seq<DiagnosticView> {
    Seq::new(diagnostics.len(), |i: int| diagnostics[i]@)
}

struct Reachability<'a, 'src> {
    ast: &'a Ast<'src>,
}

impl<'a, 'src> Reachability<'a, 'src> {
    /// Whether `cond` is decided before the program runs: `Some(true)` when only the then-edge is
    /// ever taken, `Some(false)` when only the else-edge is, `None` when both remain possible.
    ///
    /// A literal `true`/`false` decides both ways. A `for` header is different: its "condition" is
    /// the range, and an empty one decides *against* the body — but a non-empty range decides
    /// nothing, because a loop that runs still finishes and leaves by the exit edge. Claiming
    /// otherwise marks everything after any literal `for` loop unreachable.
    fn constant_condition(&self, cond: ExprId) -> (r: Option<bool>)
        requires
            self.ast@.well_formed(),
            expr_ok(cond, self.ast@.bounds()),
        ensures
            r == decided(self.ast@, cond),
    {
        assert(self.ast@.nodes[cond.0 as int] == self.ast.nodes@[cond.0 as int]@);
        match &self.ast.nodes[cond.value()] {
            Node::Bool(value) => Some(*value),
            Node::Range { .. } => match literal_range_is_empty(self.ast, cond) {
                Some(true) => Some(false),
                Some(false) => None,
                None => None,
            },
            _ => None,
        }
    }
}

/// Whether a range with literal bounds is empty — `1..<1` and `5..1` are, `1..3` and `5..1:-1` are
/// not. `None` when a bound or a given step is not a literal, so nothing is assumed.
fn literal_range_is_empty(ast: &ProgramAst, range_id: ExprId) -> (r: Option<bool>)
    requires
        ast@.well_formed(),
        expr_ok(range_id, ast@.bounds()),
    ensures
        r == is_empty_range(ast@, ast@.nodes[range_id.0 as int]),
{
    proof {
        let i = range_id.0 as int;
        assert(ast@.nodes[i] == ast.nodes@[i]@);
        assert(node_ok(ast@.nodes[i], ast@.bounds_before(i)));
    }
    match &ast.nodes[range_id.value()] {
        Node::Range { start, stop, step, kind } => {
            let first: i64 = match literal_int(ast, *start) {
                Some(first) => first,
                None => return None,
            };
            let last: i64 = match literal_int(ast, *stop) {
                Some(last) => last,
                None => return None,
            };
            match step {
                None => Some(
                    match kind {
                        RangeKind::Inclusive => first > last,
                        RangeKind::UpExclusive => first >= last,
                        RangeKind::DownExclusive => first <= last,
                    },
                ),
                Some(step) => match step_counts_up(ast, *step) {
                    Some(up) => {
                        let beyond: bool = if up {
                            first > last
                        } else {
                            first < last
                        };
                        Some(beyond || (first == last && *kind != RangeKind::Inclusive))
                    },
                    None => None,
                },
            }
        },
        _ => None,
    }
}

fn step_counts_up(ast: &ProgramAst, step: ExprId) -> (r: Option<bool>)
    requires
        ast@.well_formed(),
        expr_ok(step, ast@.bounds()),
    ensures
        r == counts_up(ast@, step),
{
    proof {
        let i = step.0 as int;
        assert(ast@.nodes[i] == ast.nodes@[i]@);
        assert(node_ok(ast@.nodes[i], ast@.bounds_before(i)));
    }
    let (by, negated): (i64, bool) = match &ast.nodes[step.value()] {
        Node::Int(by) => (*by, false),
        Node::Unary { op, operand } => match (*op, literal_int(ast, *operand)) {
            (UnOp::Neg, Some(by)) => (by, true),
            _ => return None,
        },
        _ => return None,
    };
    if by == 0 {
        None
    } else {
        Some((by > 0) != negated)
    }
}

fn literal_int(ast: &ProgramAst, expr_id: ExprId) -> (r: Option<i64>)
    requires
        ast@.well_formed(),
        expr_ok(expr_id, ast@.bounds()),
    ensures
        r == literal(ast@, expr_id),
{
    assert(ast@.nodes[expr_id.0 as int] == ast.nodes@[expr_id.0 as int]@);
    match &ast.nodes[expr_id.value()] {
        Node::Int(value) => Some(*value),
        _ => None,
    }
}

impl<'ast, 'a, 'src> Analysis<'ast> for Reachability<'a, 'src> {
    type Fact = ReachabilityFact;

    open spec fn flow(&self) -> Direction {
        Direction::Forward
    }

    open spec fn known_at_boundary(&self) -> Set<int> {
        arrived()
    }

    open spec fn known_across_action(&self, action: ActionView, known: Set<int>) -> Set<int> {
        known
    }

    open spec fn known_across_terminator(
        &self,
        terminator: Terminator,
        known: Set<int>,
    ) -> Set<int> {
        known
    }

    closed spec fn taken(&self, cfg: CfgView, block: int) -> Seq<BlockId> {
        possible(self.ast@, cfg, block)
    }

    closed spec fn understands(&self, data: BlockData) -> bool {
        self.ast@.well_formed() && data_ok(data, self.ast@.bounds())
    }

    proof fn taken_are_successors(&self, cfg: CfgView, block: int) {
        lemma_possible(self.ast@, cfg, block);
    }

    fn direction(&self) -> (r: Direction) {
        Direction::Forward
    }

    fn boundary(&self) -> (fact: ReachabilityFact) {
        ReachabilityFact::reached()
    }

    fn transfer_action(&self, _action: &Action<'ast>, _fact: &mut ReachabilityFact) {
        // Nothing a block does can make the rest of it unreachable — pinp has no diverging
        // statement. Only a terminator decides where control goes next.
    }

    fn transfer_terminator(&self, _terminator: &Terminator, _fact: &mut ReachabilityFact) {
    }

    /// The whole checker, in one method: an edge out of a decided condition is never taken, so
    /// nothing beyond it is reached.
    fn live_successors(&self, cfg: &Cfg<'ast>, block_id: BlockId) -> (ids: Vec<BlockId>) {
        match cfg.block(block_id).terminator {
            Terminator::Branch { cond, then_block, else_block } => {
                let mut ids: Vec<BlockId> = Vec::new();
                match self.constant_condition(cond) {
                    Some(true) => {
                        ids.push(then_block);
                        assert(ids@ =~= seq![then_block]);
                    },
                    Some(false) => {
                        ids.push(else_block);
                        assert(ids@ =~= seq![else_block]);
                    },
                    None => {
                        ids.push(then_block);
                        ids.push(else_block);
                        assert(ids@ =~= seq![then_block, else_block]);
                    },
                }
                ids
            },
            _ => cfg.successors(block_id),
        }
    }
}

proof fn lemma_possible(ast: AstView, cfg: CfgView, block: int)
    ensures
        possible(ast, cfg, block).len() <= 2,
        forall|i: int|
            0 <= i < possible(ast, cfg, block).len() ==> successors_of(cfg, block).contains(
                #[trigger] possible(ast, cfg, block)[i],
            ),
{
    let ids = successors_of(cfg, block);
    if ids.len() > 0 {
        assert(ids.contains(ids[0]));
    }
    if ids.len() > 1 {
        assert(ids.contains(ids[1]));
    }
}

// ---------------------------------------------------------------------------
// Arriving is what the analysis finds
// ---------------------------------------------------------------------------

proof fn lemma_across(analysis: &Reachability<'_, '_>, data: BlockData, known: Set<int>)
    ensures
        across_block(analysis, data, known) == known,
{
    lemma_across_actions(analysis, data.actions, data.actions.len() as int, known);
}

proof fn lemma_across_actions(
    analysis: &Reachability<'_, '_>,
    actions: Seq<ActionView>,
    count: int,
    known: Set<int>,
)
    ensures
        across_actions(analysis, actions, count, known) == known,
    decreases count,
{
    if count > 0 {
        lemma_across_actions(analysis, actions, count - 1, known);
    }
}

/// How many of the first `count` facts do not say that a point is reached.
spec fn blank(outs: Seq<Set<int>>, count: int) -> nat
    decreases count,
{
    if count <= 0 {
        0
    } else {
        blank(outs, count - 1) + if outs[count - 1] == arrived() {
            0nat
        } else {
            1
        }
    }
}

proof fn lemma_blank_bound(outs: Seq<Set<int>>, count: int)
    requires
        0 <= count,
    ensures
        blank(outs, count) <= count,
    decreases count,
{
    if count > 0 {
        lemma_blank_bound(outs, count - 1);
    }
}

proof fn lemma_blank_update(outs: Seq<Set<int>>, count: int, at: int)
    requires
        0 <= at < outs.len(),
        0 <= count <= outs.len(),
        outs[at] != arrived(),
    ensures
        blank(outs.update(at, arrived()), count) == blank(outs, count) - if at < count {
            1int
        } else {
            0
        },
    decreases count,
{
    if count > 0 {
        lemma_blank_update(outs, count - 1, at);
    }
}

/// Facts so far: each block's is "reached" or nothing, nothing is claimed that does not flow in,
/// and only blocks are listed.
spec fn rising(cfg: CfgView, analysis: &Reachability<'_, '_>, st: SolveState) -> bool {
    &&& st.ins.len() == cfg.blocks.len()
    &&& st.outs.len() == cfg.blocks.len()
    &&& forall|i: int|
        0 <= i < st.worklist.len() ==> (#[trigger] st.worklist[i]).0 < cfg.blocks.len()
    &&& forall|b: int| 0 <= b < cfg.blocks.len() ==> (#[trigger] st.outs[b]).subset_of(arrived())
    &&& forall|b: int|
        0 <= b < cfg.blocks.len() ==> (#[trigger] st.outs[b]).subset_of(
            incoming(cfg, analysis, st.outs, b),
        )
}

proof fn lemma_incoming_grows(
    cfg: CfgView,
    analysis: &Reachability<'_, '_>,
    outs: Seq<Set<int>>,
    more: Seq<Set<int>>,
    block: int,
)
    requires
        outs.len() == cfg.blocks.len(),
        more.len() == cfg.blocks.len(),
        forall|b: int| 0 <= b < outs.len() ==> (#[trigger] outs[b]).subset_of(more[b]),
    ensures
        incoming(cfg, analysis, outs, block).subset_of(incoming(cfg, analysis, more, block)),
{
    assert forall|item: int| incoming(cfg, analysis, outs, block).contains(item) implies incoming(
        cfg,
        analysis,
        more,
        block,
    ).contains(item) by {
        if exists|from: int| #[trigger]
            flows(cfg, analysis, from, block) && outs[from].contains(item) {
            let from = choose|from: int| #[trigger]
                flows(cfg, analysis, from, block) && outs[from].contains(item);
            assert(outs[from].subset_of(more[from]));
            assert(flows(cfg, analysis, from, block) && more[from].contains(item));
        }
    }
}

proof fn lemma_incoming_small(
    cfg: CfgView,
    analysis: &Reachability<'_, '_>,
    outs: Seq<Set<int>>,
    block: int,
)
    requires
        outs.len() == cfg.blocks.len(),
        forall|b: int| 0 <= b < outs.len() ==> (#[trigger] outs[b]).subset_of(arrived()),
    ensures
        incoming(cfg, analysis, outs, block).subset_of(arrived()),
{
    assert forall|item: int| incoming(cfg, analysis, outs, block).contains(
        item,
    ) implies arrived().contains(item) by {
        if exists|from: int| #[trigger]
            flows(cfg, analysis, from, block) && outs[from].contains(item) {
            let from = choose|from: int| #[trigger]
                flows(cfg, analysis, from, block) && outs[from].contains(item);
            assert(outs[from].subset_of(arrived()));
        }
    }
}

proof fn lemma_visit_rises(cfg: CfgView, analysis: &Reachability<'_, '_>, st: SolveState)
    requires
        cfg.well_formed(),
        rising(cfg, analysis, st),
        st.worklist.len() > 0,
    ensures
        ({
            let after = visited(cfg, analysis, st);
            &&& rising(cfg, analysis, after)
            &&& after.worklist.len() + 3 * blank(after.outs, cfg.blocks.len() as int)
                < st.worklist.len() + 3 * blank(st.outs, cfg.blocks.len() as int)
        }),
{
    let after = visited(cfg, analysis, st);
    let count = cfg.blocks.len() as int;
    let block = st.worklist.last().0 as int;
    assert(st.worklist[st.worklist.len() - 1] == st.worklist.last());
    let known = incoming(cfg, analysis, st.outs, block);
    lemma_across(analysis, cfg.blocks[block], known);
    lemma_incoming_small(cfg, analysis, st.outs, block);
    let rest = st.worklist.drop_last();
    if known == st.outs[block] {
        assert(after.outs =~= st.outs);
        assert forall|i: int| 0 <= i < after.worklist.len() implies (
        #[trigger] after.worklist[i]).0 < cfg.blocks.len() by {
            assert(after.worklist[i] == st.worklist[i]);
        }
    } else {
        assert(st.outs[block].subset_of(known));
        assert(known.contains(0)) by {
            if !known.contains(0) {
                assert(known =~= st.outs[block]);
            }
        }
        assert(known =~= arrived());
        assert(st.outs[block] != arrived());
        lemma_blank_update(st.outs, count, block);
        let next = possible(analysis.ast@, cfg, block);
        assert(affected(cfg, analysis, block) == next);
        lemma_possible(analysis.ast@, cfg, block);
        assert forall|i: int| 0 <= i < after.worklist.len() implies (
        #[trigger] after.worklist[i]).0 < cfg.blocks.len() by {
            if i < rest.len() {
                assert(after.worklist[i] == st.worklist[i]);
            } else {
                assert(after.worklist[i] == next[i - rest.len()]);
                assert(successors_of(cfg, block).contains(next[i - rest.len()]));
                let data = cfg.blocks[block];
                assert(crate::analysis::cfg::goes_on(data.terminator, count)
                    || crate::analysis::cfg::is_return(data.terminator) || data.terminator
                    == Terminator::Exit);
            }
        }
        assert forall|b: int| 0 <= b < cfg.blocks.len() implies (
        #[trigger] after.outs[b]).subset_of(incoming(cfg, analysis, after.outs, b)) by {
            assert forall|c: int| 0 <= c < st.outs.len() implies (#[trigger] st.outs[c]).subset_of(
                after.outs[c],
            ) by {}
            lemma_incoming_grows(cfg, analysis, st.outs, after.outs, b);
            assert(st.outs[b].subset_of(incoming(cfg, analysis, st.outs, b)));
        }
    }
}

proof fn lemma_run_ends(cfg: CfgView, analysis: &Reachability<'_, '_>, st: SolveState, fuel: nat)
    requires
        cfg.well_formed(),
        rising(cfg, analysis, st),
        fuel >= st.worklist.len() + 3 * blank(st.outs, cfg.blocks.len() as int),
    ensures
        run(cfg, analysis, st, fuel) is Some,
    decreases fuel,
{
    if st.worklist.len() > 0 {
        lemma_visit_rises(cfg, analysis, st);
        lemma_run_ends(cfg, analysis, visited(cfg, analysis, st), (fuel - 1) as nat);
    }
}

/// The analysis settles on every graph, well within the budget.
proof fn lemma_settles(cfg: CfgView, analysis: &Reachability<'_, '_>)
    requires
        cfg.well_formed(),
    ensures
        solved(cfg, analysis) is Some,
{
    let st = unsolved(cfg, Direction::Forward);
    let count = cfg.blocks.len() as int;
    lemma_blank_bound(st.outs, count);
    lemma_run_ends(cfg, analysis, st, budget(cfg));
}

/// The facts that say of each block whether execution can arrive there.
spec fn arrivals(ast: AstView, cfg: CfgView) -> SolveState {
    let facts = Seq::new(
        cfg.blocks.len(),
        |b: int|
            if can_arrive(ast, cfg, b) {
                arrived()
            } else {
                Set::empty()
            },
    );
    SolveState { ins: facts, outs: facts, worklist: Seq::empty() }
}

proof fn lemma_arrivals_settled(cfg: CfgView, analysis: &Reachability<'_, '_>)
    requires
        cfg.well_formed(),
    ensures
        settled(cfg, analysis, arrivals(analysis.ast@, cfg)),
        monotone(cfg, analysis),
{
    let ast = analysis.ast@;
    let st = arrivals(ast, cfg);
    assert forall|b: int| 0 <= b < cfg.blocks.len() implies #[trigger] agrees_at(
        cfg,
        analysis,
        st,
        b,
    ) by {
        lemma_across(analysis, cfg.blocks[b], st.ins[b]);
        assert forall|item: int| st.ins[b].contains(item) <==> flows_in(
            cfg,
            analysis,
            st.outs,
            b,
            item,
        ) by {
            if st.ins[b].contains(item) {
                let path = choose|path: Seq<int>| #[trigger]
                    is_path(ast, cfg, path) && path.last() == b;
                let n = path.len();
                assert(path[n - 1] == b);
                if n == 1 {
                    assert(b == cfg.entry.0);
                } else {
                    let shorter = path.drop_last();
                    let from = path[n - 2];
                    assert(shorter.last() == from);
                    assert(is_path(ast, cfg, shorter)) by {
                        assert forall|i: int| 0 <= i < shorter.len() implies 0
                            <= #[trigger] shorter[i] < cfg.blocks.len() by {
                            assert(shorter[i] == path[i]);
                        }
                        assert forall|i: int|
                            #![trigger shorter[i]]
                            0 < i < shorter.len() implies possible(
                            ast,
                            cfg,
                            shorter[i - 1],
                        ).contains(BlockId(shorter[i] as usize)) by {
                            assert(shorter[i] == path[i]);
                        }
                    }
                    assert(can_arrive(ast, cfg, from));
                    assert(possible(ast, cfg, path[n - 1 - 1]).contains(
                        BlockId(path[n - 1] as usize),
                    ));
                    assert(flows(cfg, analysis, from, b) && st.outs[from].contains(item));
                }
            }
            if flows_in(cfg, analysis, st.outs, b, item) {
                if b == cfg.entry.0 {
                    let path = seq![b];
                    assert(is_path(ast, cfg, path) && path.last() == b);
                    assert(can_arrive(ast, cfg, b));
                    if !arrived().contains(item) {
                        let from = choose|from: int| #[trigger]
                            flows(cfg, analysis, from, b) && st.outs[from].contains(item);
                        assert(st.outs[from].contains(item));
                    }
                } else {
                    let from = choose|from: int| #[trigger]
                        flows(cfg, analysis, from, b) && st.outs[from].contains(item);
                    assert(can_arrive(ast, cfg, from));
                    let path = choose|path: Seq<int>| #[trigger]
                        is_path(ast, cfg, path) && path.last() == from;
                    let longer = path.push(b);
                    assert(is_path(ast, cfg, longer)) by {
                        assert forall|i: int| 0 <= i < longer.len() implies 0
                            <= #[trigger] longer[i] < cfg.blocks.len() by {
                            if i < path.len() {
                                assert(longer[i] == path[i]);
                            }
                        }
                        assert forall|i: int|
                            #![trigger longer[i]]
                            0 < i < longer.len() implies possible(
                            ast,
                            cfg,
                            longer[i - 1],
                        ).contains(BlockId(longer[i] as usize)) by {
                            if i < path.len() {
                                assert(longer[i] == path[i]);
                            }
                        }
                    }
                    assert(longer.last() == b);
                    assert(can_arrive(ast, cfg, b));
                }
            }
        }
        assert(st.ins[b] =~= incoming(cfg, analysis, st.outs, b));
    }
    assert forall|b: int, less: Set<int>, more: Set<int>|
        0 <= b < cfg.blocks.len() && less.subset_of(more) implies #[trigger] across_block(
        analysis,
        cfg.blocks[b],
        less,
    ).subset_of(#[trigger] across_block(analysis, cfg.blocks[b], more)) by {
        lemma_across(analysis, cfg.blocks[b], less);
        lemma_across(analysis, cfg.blocks[b], more);
    }
}

proof fn lemma_path_reached(
    cfg: CfgView,
    analysis: &Reachability<'_, '_>,
    st: SolveState,
    path: Seq<int>,
    at: int,
)
    requires
        cfg.well_formed(),
        settled(cfg, analysis, st),
        is_path(analysis.ast@, cfg, path),
        0 <= at < path.len(),
    ensures
        st.ins[path[at]].contains(0),
    decreases at,
{
    let b = path[at];
    assert(agrees_at(cfg, analysis, st, b));
    if at == 0 {
        assert(flows_in(cfg, analysis, st.outs, b, 0));
    } else {
        lemma_path_reached(cfg, analysis, st, path, at - 1);
        let from = path[at - 1];
        assert(agrees_at(cfg, analysis, st, from));
        lemma_across(analysis, cfg.blocks[from], st.ins[from]);
        assert(possible(analysis.ast@, cfg, path[at - 1]).contains(BlockId(path[at] as usize)));
        assert(flows(cfg, analysis, from, b) && st.outs[from].contains(0));
        assert(flows_in(cfg, analysis, st.outs, b, 0));
    }
}

/// A block is found to be reached exactly when there is a path to it.
proof fn lemma_reached(cfg: CfgView, analysis: &Reachability<'_, '_>, block: int)
    requires
        cfg.well_formed(),
        0 <= block < cfg.blocks.len(),
    ensures
        solved(cfg, analysis) is Some,
        solved(cfg, analysis)->0.ins.len() == cfg.blocks.len(),
        solved(cfg, analysis)->0.ins[block].contains(0) <==> can_arrive(
            analysis.ast@,
            cfg,
            block,
        ),
{
    let ast = analysis.ast@;
    lemma_settles(cfg, analysis);
    let st = solved(cfg, analysis)->0;
    solutions_are_fixpoints(cfg, analysis);
    lemma_arrivals_settled(cfg, analysis);
    solutions_are_least(cfg, analysis, arrivals(ast, cfg));
    if can_arrive(ast, cfg, block) {
        let path = choose|path: Seq<int>| #[trigger] is_path(
            ast,
            cfg,
            path,
        ) && path.last() == block;
        lemma_path_reached(cfg, analysis, st, path, path.len() - 1);
    }
    if st.ins[block].contains(0) {
        assert(st.ins[block].subset_of(arrivals(ast, cfg).ins[block]));
    }
}

// ---------------------------------------------------------------------------
// The checker
// ---------------------------------------------------------------------------

/// Reports every statement that cannot run.
pub fn check<'ast, 'src>(ast: &ProgramAst<'src>, cfg: &Cfg<'ast>) -> (diagnostics: Vec<Diagnostic>)
    requires
        ast@.well_formed(),
        graph_ok(cfg@.blocks, ast@.bounds()),
    ensures
        diagnostic_views(diagnostics@) == unreachable_code(ast@, cfg@),
{
    let analysis: Reachability<'_, 'src> = Reachability { ast };
    let block_count: usize = cfg.blocks().len();
    proof {
        assert(cfg@.blocks.len() == block_count);
        lemma_settles(cfg@, &analysis);
        assert forall|b: int| 0 <= b < cfg@.blocks.len() implies analysis.understands(
            #[trigger] cfg@.blocks[b],
        ) by {}
    }
    let solution: Solution<ReachabilityFact> = solve(cfg, &analysis);
    let mut diagnostics: Vec<Diagnostic> = Vec::new();
    let mut index: usize = 0;
    assert(diagnostic_views(diagnostics@) =~= Seq::empty());
    while index < block_count
        invariant
            index <= block_count,
            block_count == cfg@.blocks.len(),
            ast@.well_formed(),
            cfg@.well_formed(),
            graph_ok(cfg@.blocks, ast@.bounds()),
            analysis.ast == ast,
            solved(cfg@, &analysis) is Some,
            solution_is(solution, Direction::Forward, solved(cfg@, &analysis)->0),
            diagnostic_views(diagnostics@) == unreachable_among(ast@, cfg@, index as int),
        decreases block_count - index,
    {
        let block_id: BlockId = BlockId(index);
        proof {
            lemma_reached(cfg@, &analysis, index as int);
        }
        if !solution.before(block_id).is_reached() {
            // One finding per unreachable block, at its first action: reporting every statement in
            // a skipped body would bury the one fact the reader needs.
            if let Some(span) = first_span(ast, cfg, block_id) {
                let ghost before = diagnostic_views(diagnostics@);
                let diagnostic: Diagnostic = Diagnostic::new(
                    DiagnosticCode::UnreachableCode,
                    span,
                    "This code can never run.",
                );
                let ghost found = diagnostic@;
                diagnostics.push(diagnostic);
                assert(diagnostic_views(diagnostics@) =~= before.push(found));
            }
        }
        index = index + 1;
    }
    diagnostics
}

/// Where to point a finding about `block_id` — the span of its first action that has one.
fn first_span(ast: &ProgramAst, cfg: &Cfg, block_id: BlockId) -> (r: Option<Span>)
    requires
        ast@.well_formed(),
        graph_ok(cfg@.blocks, ast@.bounds()),
        block_id.0 < cfg@.blocks.len(),
    ensures
        r == span_from(ast@, cfg@.blocks[block_id.0 as int].actions, 0),
{
    let block: &BasicBlock = cfg.block(block_id);
    let ghost actions = cfg@.blocks[block_id.0 as int].actions;
    let mut index: usize = 0;
    assert(data_ok(cfg@.blocks[block_id.0 as int], ast@.bounds()));
    while index < block.actions.len()
        invariant
            ast@.well_formed(),
            actions == block@.actions,
            actions == cfg@.blocks[block_id.0 as int].actions,
            forall|i: int|
                0 <= i < actions.len() ==> action_ok(#[trigger] actions[i], ast@.bounds()),
            index <= block.actions@.len(),
            span_from(ast@, actions, 0) == span_from(ast@, actions, index as int),
        decreases block.actions@.len() - index,
    {
        assert(actions[index as int] == block.actions@[index as int]@);
        let span: Span = match block.actions[index] {
            Action::Statement(stmt) => stmt_span(ast, stmt),
            Action::Evaluate(expr_id) => ast.span_of(expr_id),
            Action::Bind(_) => Span::unknown(),
        };
        if !span.is_unknown() {
            return Some(span);
        }
        index = index + 1;
    }
    None
}

/// A statement's position, taken from a representative expression. Statements are not arena
/// entries, so they have no span of their own.
fn stmt_span(ast: &ProgramAst, stmt: &Stmt) -> (span: Span)
    requires
        ast@.well_formed(),
        stmt_ok(stmt@, ast@.bounds()),
    ensures
        span == position_of(ast@, stmt@),
{
    match stmt {
        Stmt::Assign { target_lists, target_spans, values } => {
            if target_spans.len() > 0 && target_spans[0].len() > 0 {
                assert(stmt@->Assign_1[0] == target_spans@[0]@);
                let span: Span = target_spans[0][0];
                if !span.is_unknown() {
                    return span;
                }
            }
            if values.len() > 0 {
                assert(expr_ok(values@[0], ast@.bounds()));
                ast.span_of(values[0])
            } else {
                Span::unknown()
            }
        },
        Stmt::Expr(expr_id) => ast.span_of(*expr_id),
        Stmt::While { cond, body } => ast.span_of(*cond),
        Stmt::Loop { body, cond, until } => ast.span_of(*cond),
        Stmt::For { var, source, body } => ast.span_of(*source),
        Stmt::ForArray { binders, source, body } => ast.span_of(*source),
        // An indexed target is a `Place`, which carries no span; the index expression is the
        // nearest thing with a position.
        Stmt::IndexedAssign { target, index, value, compound_op } => ast.span_of(*index),
        Stmt::IndexedAssign2D { target, row, col, value, compound_op } => ast.span_of(*row),
    }
}

} // verus!
