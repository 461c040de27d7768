//! Control-flow graph construction: a program's shape rewritten as basic blocks and the edges
//! between them.
//!
//! A *basic block* is a run of actions with no branching inside it: once entered, every action
//! executes, and control leaves only through the block's terminator. That is what lets an analysis
//! reason about a whole block at a time and only join facts where edges meet.
//!
//! The graph is built per function, plus one for the top level. Nothing is lowered to a new
//! instruction set — the blocks hold borrowed AST statements — so this is *construction*, not the
//! lowering that [`crate::codegen`] does.

use crate::parser::ast::{
    arm_views, block_ok, expr_ok, func_ok, node_ok, optional_block, stmt_ok, symbol_ok,
    top_level_ok, Ast, AstView, Block, BlockView, Bounds, ExprId, FuncDef, FuncDefView, IfArm,
    IfArmView, Node, NodeView, ProgramAst, Stmt, StmtView, SymId, TopLevel, TopLevelView,
};
use crate::text::{decimal, decimal_text, join2, join5, join7};
use vstd::prelude::*;
use vstd::string::*;

verus! {

/// An index into [`Cfg::blocks`].
#[derive(Debug, Clone, Copy, PartialEq, Eq, Hash, Structural)]
pub struct BlockId(pub usize);

impl BlockId {
    pub fn value(self) -> (r: usize)
        ensures
            r == self.0,
    {
        self.0
    }
}

/// One thing a basic block does, in order.
#[derive(Debug, Clone, Copy, PartialEq)]
pub enum Action<'ast> {
    /// Execute a statement.
    Statement(&'ast Stmt),
    /// Evaluate an expression for its value — a nested block's trailing result, whose value feeds
    /// the construct around it.
    Evaluate(ExprId),
    /// A loop variable taking its value for the current iteration: a write with no statement of its
    /// own, modelled so an analysis sees the definition.
    Bind(SymId),
}

/// What an [`Action`] does.
pub enum ActionView {
    Statement(StmtView),
    Evaluate(ExprId),
    Bind(SymId),
}

impl<'ast> View for Action<'ast> {
    type V = ActionView;

    open spec fn view(&self) -> ActionView {
        match *self {
            Action::Statement(stmt) => ActionView::Statement(stmt@),
            Action::Evaluate(expr_id) => ActionView::Evaluate(expr_id),
            Action::Bind(sym_id) => ActionView::Bind(sym_id),
        }
    }
}

/// How control leaves a basic block.
#[derive(Debug, Clone, Copy, PartialEq, Eq, Structural)]
pub enum Terminator {
    /// Continue unconditionally.
    Goto(BlockId),
    /// Two-way branch on a condition.
    Branch { cond: ExprId, then_block: BlockId, else_block: BlockId },
    /// Leave the function, with its result if it has one. Its sole successor is [`Cfg::exit`].
    ///
    /// **Any number of blocks may carry this.** Exactly one does today — the body's trailing
    /// result — but an explicit `return` will produce several, and nothing here assumes otherwise.
    Return(Option<ExprId>),
    /// The unique sink, carried only by [`Cfg::exit`]. No successors.
    Exit,
}

/// A run of actions ending in exactly one terminator.
#[derive(Debug, PartialEq)]
pub struct BasicBlock<'ast> {
    pub actions: Vec<Action<'ast>>,
    pub terminator: Terminator,
}

/// What a [`BasicBlock`] holds.
#[verifier::ext_equal]
pub struct BlockData {
    pub actions: Seq<ActionView>,
    pub terminator: Terminator,
}

pub open spec fn action_views(actions: Seq<Action<'_>>) -> Seq<ActionView> {
    Seq::new(actions.len(), |i: int| actions[i]@)
}

impl<'ast> View for BasicBlock<'ast> {
    type V = BlockData;

    open spec fn view(&self) -> BlockData {
        BlockData { actions: action_views(self.actions@), terminator: self.terminator }
    }
}

pub open spec fn block_datas(blocks: Seq<BasicBlock<'_>>) -> Seq<BlockData> {
    Seq::new(blocks.len(), |i: int| blocks[i]@)
}

// ---------------------------------------------------------------------------
// The graph that a program stands for
// ---------------------------------------------------------------------------

/// A block that does nothing yet.
pub open spec fn fresh() -> BlockData {
    BlockData { actions: Seq::empty(), terminator: Terminator::Exit }
}

pub open spec fn with_terminator(
    graph: Seq<BlockData>,
    block: BlockId,
    terminator: Terminator,
) -> Seq<BlockData> {
    graph.update(block.0 as int, BlockData { terminator, ..graph[block.0 as int] })
}

pub open spec fn with_action(
    graph: Seq<BlockData>,
    block: BlockId,
    action: ActionView,
) -> Seq<BlockData> {
    let data = graph[block.0 as int];
    graph.update(block.0 as int, BlockData { actions: data.actions.push(action), ..data })
}

/// The id that the next block will have.
pub open spec fn next_id(graph: Seq<BlockData>) -> BlockId {
    BlockId(graph.len() as usize)
}

pub open spec fn is_if(ast: AstView, expr_id: ExprId, limit: int) -> bool {
    expr_id.0 < limit && ast.nodes[expr_id.0 as int] is If
}

/// The graph behind a statement whose expressions lie below `limit`, and the block that control
/// falls through to.
pub open spec fn graph_stmt(
    ast: AstView,
    graph: Seq<BlockData>,
    stmt: StmtView,
    current: BlockId,
    limit: int,
) -> (Seq<BlockData>, BlockId)
    decreases limit, 1int, stmt, 0int,
{
    match stmt {
        StmtView::Expr(expr_id) => if is_if(ast, expr_id, limit) {
            let node = ast.nodes[expr_id.0 as int];
            graph_arms(
                ast,
                graph.push(fresh()),
                node->If_0,
                0,
                node->If_1,
                current,
                next_id(graph),
                expr_id.0 as int,
            )
        } else {
            (with_action(graph, current, ActionView::Statement(stmt)), current)
        },
        StmtView::Assign(..) | StmtView::IndexedAssign(..) | StmtView::IndexedAssign2D(..) => (
            with_action(graph, current, ActionView::Statement(stmt)),
            current,
        ),
        // Pre-test loop: a header that tests, a body that jumps back to it, and an exit.
        StmtView::While(cond, body) => {
            let (g1, header, body_block, exit) = loop_head(graph, current, cond);
            let (g2, end) = graph_block(ast, g1, body, body_block, limit);
            (with_terminator(g2, end, Terminator::Goto(header)), exit)
        },
        // Post-test loop: the body runs first, then the condition decides whether to repeat.
        // `until` swaps the successors — repeat while the condition is *false*.
        StmtView::Loop(body, cond, until) => {
            let body_block = next_id(graph);
            let exit = BlockId((graph.len() + 1) as usize);
            let g1 = with_terminator(
                graph.push(fresh()).push(fresh()),
                current,
                Terminator::Goto(body_block),
            );
            let (g2, end) = graph_block(ast, g1, body, body_block, limit);
            let terminator = if until {
                Terminator::Branch { cond, then_block: exit, else_block: body_block }
            } else {
                Terminator::Branch { cond, then_block: body_block, else_block: exit }
            };
            (with_terminator(g2, end, terminator), exit)
        },
        StmtView::For(var, source, body) => counted_loop(
            ast,
            graph,
            seq![var],
            source,
            body,
            current,
            limit,
        ),
        StmtView::ForArray(binders, source, body) => counted_loop(
            ast,
            graph,
            binders,
            source,
            body,
            current,
            limit,
        ),
    }
}

/// `for` over a range, array, or matrix: the source evaluated once, and the binders bound at the
/// start of each pass over the body.
pub open spec fn counted_loop(
    ast: AstView,
    graph: Seq<BlockData>,
    binders: Seq<SymId>,
    source: ExprId,
    body: BlockView,
    current: BlockId,
    limit: int,
) -> (Seq<BlockData>, BlockId)
    decreases limit, 1int, body, body.stmts.len() + 2,
{
    let g0 = with_action(graph, current, ActionView::Evaluate(source));
    let (g1, header, body_block, exit) = loop_head(g0, current, source);
    let (g2, end) = graph_block(
        ast,
        with_binds(g1, body_block, binders, binders.len() as int),
        body,
        body_block,
        limit,
    );
    (with_terminator(g2, end, Terminator::Goto(header)), exit)
}

/// The first `count` binders bound in a block.
pub open spec fn with_binds(
    graph: Seq<BlockData>,
    block: BlockId,
    binders: Seq<SymId>,
    count: int,
) -> Seq<BlockData>
    decreases count,
{
    if count <= 0 {
        graph
    } else {
        with_action(
            with_binds(graph, block, binders, count - 1),
            block,
            ActionView::Bind(binders[count - 1]),
        )
    }
}

/// A loop's header, body and exit blocks, with control going from `current` to the header and from
/// there to the other two.
pub open spec fn loop_head(graph: Seq<BlockData>, current: BlockId, cond: ExprId) -> (
    Seq<BlockData>,
    BlockId,
    BlockId,
    BlockId,
) {
    let header = next_id(graph);
    let body_block = BlockId((graph.len() + 1) as usize);
    let exit = BlockId((graph.len() + 2) as usize);
    let g1 = with_terminator(
        graph.push(fresh()).push(fresh()).push(fresh()),
        current,
        Terminator::Goto(header),
    );
    (
        with_terminator(
            g1,
            header,
            Terminator::Branch { cond, then_block: body_block, else_block: exit },
        ),
        header,
        body_block,
        exit,
    )
}

/// `if`/`elif`/`else` from the arm at `from` on, tested in the block `testing`: a chain of diamonds
/// joined at `merge`.
pub open spec fn graph_arms(
    ast: AstView,
    graph: Seq<BlockData>,
    arms: Seq<IfArmView>,
    from: int,
    else_block: Option<BlockView>,
    testing: BlockId,
    merge: BlockId,
    limit: int,
) -> (Seq<BlockData>, BlockId)
    decreases limit, 2int, ast, arms.len() - from,
{
    if from < 0 || from >= arms.len() {
        // The trailing `else` occupies the final fall-through block; without one, that block simply
        // continues to the merge.
        let (g1, end) = match else_block {
            Some(body) => graph_block(ast, graph, body, testing, limit),
            None => (graph, testing),
        };
        (with_terminator(g1, end, Terminator::Goto(merge)), merge)
    } else {
        let arm = arms[from];
        let then_block = next_id(graph);
        let next = BlockId((graph.len() + 1) as usize);
        let g1 = with_terminator(
            graph.push(fresh()).push(fresh()),
            testing,
            Terminator::Branch { cond: arm.cond, then_block, else_block: next },
        );
        let (g2, end) = graph_block(ast, g1, arm.body, then_block, limit);
        graph_arms(
            ast,
            with_terminator(g2, end, Terminator::Goto(merge)),
            arms,
            from + 1,
            else_block,
            next,
            merge,
            limit,
        )
    }
}

/// A nested block: its statements, then its trailing result evaluated where the block ends.
pub open spec fn graph_block(
    ast: AstView,
    graph: Seq<BlockData>,
    block: BlockView,
    current: BlockId,
    limit: int,
) -> (Seq<BlockData>, BlockId)
    decreases limit, 1int, block, block.stmts.len() + 1,
{
    let (g1, end) = graph_stmts(ast, graph, block, 0, current, limit);
    match block.result {
        Some(result) => (with_action(g1, end, ActionView::Evaluate(result)), end),
        None => (g1, end),
    }
}

/// The statements of a block from the one at `from` on.
pub open spec fn graph_stmts(
    ast: AstView,
    graph: Seq<BlockData>,
    block: BlockView,
    from: int,
    current: BlockId,
    limit: int,
) -> (Seq<BlockData>, BlockId)
    decreases limit, 1int, block, block.stmts.len() - from,
{
    if from < 0 || from >= block.stmts.len() {
        (graph, current)
    } else {
        let (g1, next) = graph_stmt(ast, graph, block.stmts[from], current, limit);
        graph_stmts(ast, g1, block, from + 1, next, limit)
    }
}

/// The statements of the top level from the item at `from` on; function definitions have graphs of
/// their own.
pub open spec fn graph_items(
    ast: AstView,
    graph: Seq<BlockData>,
    from: int,
    current: BlockId,
) -> (Seq<BlockData>, BlockId)
    decreases ast.top_level.len() - from,
{
    if from < 0 || from >= ast.top_level.len() {
        (graph, current)
    } else {
        match ast.top_level[from] {
            TopLevelView::Stmt(stmt) => {
                let (g1, next) = graph_stmt(ast, graph, stmt, current, ast.nodes.len() as int);
                graph_items(ast, g1, from + 1, next)
            },
            TopLevelView::Func(_) => graph_items(ast, graph, from + 1, current),
        }
    }
}

/// The graph of one function, or of the top-level program.
#[verifier::ext_equal]
pub struct CfgView {
    pub blocks: Seq<BlockData>,
    pub entry: BlockId,
    pub exit: BlockId,
}

/// A graph whose last block leaves the function with `result`, with its exit added.
pub open spec fn finished(graph: Seq<BlockData>, last: BlockId, result: Option<ExprId>) -> CfgView {
    CfgView {
        blocks: with_terminator(graph, last, Terminator::Return(result)).push(fresh()),
        entry: BlockId(0),
        exit: next_id(graph),
    }
}

/// The graph of a function body. The body's trailing result is the value the function returns.
pub open spec fn function_graph(ast: AstView, func: FuncDefView) -> CfgView {
    let (graph, last) = graph_stmts(
        ast,
        seq![fresh()],
        func.body,
        0,
        BlockId(0),
        ast.nodes.len() as int,
    );
    finished(graph, last, func.body.result)
}

/// The graph of the top-level program. A program's value is its last statement's, so there is no
/// separate result expression.
pub open spec fn entry_graph(ast: AstView) -> CfgView {
    let (graph, last) = graph_items(ast, seq![fresh()], 0, BlockId(0));
    finished(graph, last, None)
}

/// Where a terminator leads in a graph with this exit.
pub open spec fn targets(terminator: Terminator, exit: BlockId) -> Seq<BlockId> {
    match terminator {
        Terminator::Goto(target) => seq![target],
        Terminator::Branch { cond, then_block, else_block } => seq![then_block, else_block],
        Terminator::Return(_) => seq![exit],
        Terminator::Exit => Seq::empty(),
    }
}

/// Blocks control can reach directly from `block`.
pub open spec fn successors_of(cfg: CfgView, block: int) -> Seq<BlockId> {
    targets(cfg.blocks[block].terminator, cfg.exit)
}

/// How often `target` stands in the first `count` of `ids`, as that many entries `source`.
pub open spec fn edges_into(ids: Seq<BlockId>, count: int, target: BlockId, source: BlockId) -> Seq<
    BlockId,
>
    decreases count,
{
    if count <= 0 {
        Seq::empty()
    } else if ids[count - 1] == target {
        edges_into(ids, count - 1, target, source).push(source)
    } else {
        edges_into(ids, count - 1, target, source)
    }
}

/// The blocks among the first `count` that reach `target` directly, once per edge.
pub open spec fn predecessors_among(cfg: CfgView, count: int, target: BlockId) -> Seq<BlockId>
    decreases count,
{
    if count <= 0 {
        Seq::empty()
    } else {
        let ids = successors_of(cfg, count - 1);
        predecessors_among(cfg, count - 1, target) + edges_into(
            ids,
            ids.len() as int,
            target,
            BlockId((count - 1) as usize),
        )
    }
}

/// The blocks that reach `target` directly, once per edge.
pub open spec fn predecessors_of(cfg: CfgView, target: int) -> Seq<BlockId> {
    predecessors_among(cfg, cfg.blocks.len() as int, BlockId(target as usize))
}

/// Control goes on inside a graph of `len` blocks.
pub open spec fn goes_on(terminator: Terminator, len: int) -> bool {
    match terminator {
        Terminator::Goto(target) => target.0 < len,
        Terminator::Branch { cond, then_block, else_block } => then_block.0 < len && else_block.0
            < len,
        _ => false,
    }
}

pub open spec fn is_return(terminator: Terminator) -> bool {
    terminator is Return
}

impl CfgView {
    /// Every edge leads to a block, and control leaves the exit alone by nowhere.
    pub open spec fn well_formed(self) -> bool {
        &&& self.entry.0 < self.blocks.len()
        &&& self.exit.0 < self.blocks.len()
        &&& self.blocks.len() <= usize::MAX
        &&& forall|b: int|
            0 <= b < self.blocks.len() ==> {
                ||| goes_on((#[trigger] self.blocks[b]).terminator, self.blocks.len() as int)
                ||| is_return(self.blocks[b].terminator)
                ||| self.blocks[b].terminator == Terminator::Exit && b == self.exit.0
            }
    }
}

/// What an action mentions is in the program.
pub open spec fn action_ok(action: ActionView, at: Bounds) -> bool {
    match action {
        ActionView::Statement(stmt) => stmt_ok(stmt, at),
        ActionView::Evaluate(expr_id) => expr_ok(expr_id, at),
        ActionView::Bind(sym_id) => symbol_ok(sym_id, at),
    }
}

pub open spec fn terminator_ok(terminator: Terminator, at: Bounds) -> bool {
    match terminator {
        Terminator::Branch { cond, then_block, else_block } => expr_ok(cond, at),
        Terminator::Return(Some(result)) => expr_ok(result, at),
        _ => true,
    }
}

/// What a block mentions is in the program.
pub open spec fn data_ok(data: BlockData, at: Bounds) -> bool {
    &&& forall|i: int| 0 <= i < data.actions.len() ==> action_ok(#[trigger] data.actions[i], at)
    &&& terminator_ok(data.terminator, at)
}

/// What the blocks of a graph mention is in the program.
pub open spec fn graph_ok(graph: Seq<BlockData>, at: Bounds) -> bool {
    forall|b: int| 0 <= b < graph.len() ==> data_ok(#[trigger] graph[b], at)
}

/// Building on from `before` at `current` up to `after` at `end`: blocks that were there stay as
/// they are but for `current`, and of `current` and the new blocks all but `end` are decided.
pub open spec fn built(
    before: Seq<BlockData>,
    current: BlockId,
    after: Seq<BlockData>,
    end: BlockId,
) -> bool {
    &&& before.len() <= after.len() <= usize::MAX
    &&& current.0 < before.len()
    &&& end.0 < after.len()
    &&& end == current || end.0 >= before.len()
    &&& after[end.0 as int].terminator == Terminator::Exit
    &&& forall|b: int|
        0 <= b < before.len() && b != current.0 ==> #[trigger] after[b] == before[b]
    &&& forall|b: int|
        before.len() <= b < after.len() && b != end.0 ==> goes_on(
            (#[trigger] after[b]).terminator,
            after.len() as int,
        )
    &&& current != end ==> goes_on(after[current.0 as int].terminator, after.len() as int)
}

/// Between two arms of an `if` whose merge block is `merge`: it is there and open.
spec fn built_up_to(
    before: Seq<BlockData>,
    current: BlockId,
    after: Seq<BlockData>,
    testing: BlockId,
    merge: BlockId,
) -> bool {
    &&& before.len() < after.len() <= usize::MAX
    &&& current.0 < before.len()
    &&& testing.0 < after.len()
    &&& merge.0 == before.len()
    &&& testing == current || testing.0 > merge.0
    &&& after[testing.0 as int].terminator == Terminator::Exit
    &&& after[merge.0 as int].terminator == Terminator::Exit
    &&& forall|b: int|
        0 <= b < before.len() && b != current.0 ==> #[trigger] after[b] == before[b]
    &&& forall|b: int|
        before.len() < b < after.len() && b != testing.0 ==> goes_on(
            (#[trigger] after[b]).terminator,
            after.len() as int,
        )
    &&& current != testing ==> goes_on(after[current.0 as int].terminator, after.len() as int)
}

proof fn lemma_binds(graph: Seq<BlockData>, block: BlockId, binders: Seq<SymId>, count: int)
    requires
        block.0 < graph.len(),
    ensures
        with_binds(graph, block, binders, count).len() == graph.len(),
        with_binds(graph, block, binders, count)[block.0 as int].terminator
            == graph[block.0 as int].terminator,
        forall|b: int|
            0 <= b < graph.len() && b != block.0 ==> #[trigger] with_binds(
                graph,
                block,
                binders,
                count,
            )[b] == graph[b],
    decreases count,
{
    if count > 0 {
        lemma_binds(graph, block, binders, count - 1);
    }
}

// ---------------------------------------------------------------------------
// Building
// ---------------------------------------------------------------------------

/// Builds one [`Cfg`]. Threads a "current block" through a recursive walk of the statements.
struct CfgBuilder<'ast, 'src> {
    ast: &'ast Ast<'src>,
    blocks: Vec<BasicBlock<'ast>>,
}

impl<'ast, 'src> CfgBuilder<'ast, 'src> {
    spec fn graph(self) -> Seq<BlockData> {
        block_datas(self.blocks@)
    }

    /// The program is well-formed and `current` is a block whose fate is open.
    spec fn open_at(self, current: BlockId) -> bool {
        &&& self.ast@.well_formed()
        &&& current.0 < self.graph().len()
        &&& self.graph()[current.0 as int].terminator == Terminator::Exit
        &&& graph_ok(self.graph(), self.ast@.bounds())
    }

    fn new(ast: &'ast Ast<'src>) -> (builder: CfgBuilder<'ast, 'src>)
        ensures
            builder.ast == ast,
            builder.graph() == Seq::<BlockData>::empty(),
    {
        let builder: CfgBuilder<'ast, 'src> = CfgBuilder { ast, blocks: Vec::new() };
        assert(builder.graph() =~= Seq::empty());
        builder
    }

    fn new_block(&mut self) -> (block_id: BlockId)
        ensures
            final(self).ast == old(self).ast,
            block_id == next_id(old(self).graph()),
            block_id.0 == old(self).graph().len(),
            final(self).graph() == old(self).graph().push(fresh()),
            final(self).graph().len() <= usize::MAX,
    {
        // The terminator is a placeholder every construction path overwrites once the block's fate
        // is known. It is deliberately the same value the real exit carries, so a block that
        // somehow kept it behaves as a sink rather than pointing somewhere wrong.
        let block: BasicBlock<'ast> = BasicBlock {
            actions: Vec::new(),
            terminator: Terminator::Exit,
        };
        assert(block@ =~= fresh());
        let index: usize = self.blocks.len();
        self.blocks.push(block);
        proof {
            assert(self.blocks.len() == self.blocks@.len());
            assert(self.graph() =~= old(self).graph().push(fresh()));
        }
        BlockId(index)
    }

    fn set_terminator(&mut self, block_id: BlockId, terminator: Terminator)
        requires
            block_id.0 < old(self).graph().len(),
        ensures
            final(self).ast == old(self).ast,
            final(self).graph() == with_terminator(old(self).graph(), block_id, terminator),
    {
        self.blocks[block_id.value()].terminator = terminator;
        proof {
            assert(self.graph() =~= with_terminator(old(self).graph(), block_id, terminator));
        }
    }

    fn push_action(&mut self, block_id: BlockId, action: Action<'ast>)
        requires
            block_id.0 < old(self).graph().len(),
        ensures
            final(self).ast == old(self).ast,
            final(self).graph() == with_action(old(self).graph(), block_id, action@),
    {
        let ghost i = block_id.0 as int;
        self.blocks[block_id.value()].actions.push(action);
        proof {
            assert(self.blocks@[i]@.actions =~= old(self).graph()[i].actions.push(action@));
            assert(self.graph() =~= with_action(old(self).graph(), block_id, action@));
        }
    }

    /// Lowers the statements of a block, returning the block control falls through to.
    fn build_stmts(&mut self, block: &'ast Block, current: BlockId, Ghost(limit): Ghost<int>) -> (end:
        BlockId)
        requires
            old(self).open_at(current),
            0 <= limit <= old(self).ast@.nodes.len(),
            block_ok(block@, old(self).ast@.bounds_before(limit)),
        ensures
            final(self).ast == old(self).ast,
            (final(self).graph(), end) == graph_stmts(
                old(self).ast@,
                old(self).graph(),
                block@,
                0,
                current,
                limit,
            ),
            built(old(self).graph(), current, final(self).graph(), end),
            final(self).open_at(end),
        decreases limit, 1int, block, block.stmts@.len() as int,
    {
        let ghost start = self.graph();
        let mut reached: BlockId = current;
        let mut index: usize = 0;
        assert(self.blocks.len() == self.blocks@.len());
        while index < block.stmts.len()
            invariant
                self.ast == old(self).ast,
                self.open_at(reached),
                0 <= limit <= self.ast@.nodes.len(),
                block_ok(block@, self.ast@.bounds_before(limit)),
                index <= block.stmts@.len(),
                start == old(self).graph(),
                built(start, current, self.graph(), reached),
                graph_stmts(self.ast@, start, block@, 0, current, limit) == graph_stmts(
                    self.ast@,
                    self.graph(),
                    block@,
                    index as int,
                    reached,
                    limit,
                ),
            decreases block.stmts@.len() - index,
        {
            proof {
                assert(block@.stmts[index as int] == block.stmts@[index as int]@);
                assert(stmt_ok(block@.stmts[index as int], self.ast@.bounds_before(limit)));
            }
            reached = self.build_stmt(&block.stmts[index], reached, Ghost(limit));
            index = index + 1;
        }
        reached
    }

    fn build_stmt(&mut self, stmt: &'ast Stmt, current: BlockId, Ghost(limit): Ghost<int>) -> (end:
        BlockId)
        requires
            old(self).open_at(current),
            0 <= limit <= old(self).ast@.nodes.len(),
            stmt_ok(stmt@, old(self).ast@.bounds_before(limit)),
        ensures
            final(self).ast == old(self).ast,
            (final(self).graph(), end) == graph_stmt(
                old(self).ast@,
                old(self).graph(),
                stmt@,
                current,
                limit,
            ),
            built(old(self).graph(), current, final(self).graph(), end),
            final(self).open_at(end),
        decreases limit, 1int, stmt, 0int,
    {
        assert(self.blocks.len() == self.blocks@.len());
        match stmt {
            // An `if` in statement position is real control flow, so it becomes real branches.
            Stmt::Expr(expr_id) => {
                let ast: &'ast Ast<'src> = self.ast;
                let ghost i = expr_id.0 as int;
                proof {
                    assert(ast@.nodes[i] == ast.nodes@[i]@);
                    assert(node_ok(ast@.nodes[i], ast@.bounds_before(i)));
                }
                match &ast.nodes[expr_id.value()] {
                    Node::If { arms, else_block } => self.build_if(
                        arms,
                        else_block,
                        current,
                        Ghost(i),
                    ),
                    _ => {
                        self.push_action(current, Action::Statement(stmt));
                        current
                    },
                }
            },
            Stmt::Assign { .. } => {
                self.push_action(current, Action::Statement(stmt));
                current
            },
            Stmt::IndexedAssign { .. } => {
                self.push_action(current, Action::Statement(stmt));
                current
            },
            Stmt::IndexedAssign2D { .. } => {
                self.push_action(current, Action::Statement(stmt));
                current
            },
            Stmt::While { cond, body } => self.build_while(*cond, body, current, Ghost(limit)),
            Stmt::Loop { body, cond, until } => self.build_loop(
                body,
                *cond,
                *until,
                current,
                Ghost(limit),
            ),
            Stmt::For { var, source, body } => {
                let mut binders: Vec<SymId> = Vec::new();
                binders.push(*var);
                assert(binders@ =~= seq![*var]);
                self.build_counted_loop(&binders, *source, body, current, Ghost(limit))
            },
            Stmt::ForArray { binders, source, body } => self.build_counted_loop(
                binders,
                *source,
                body,
                current,
                Ghost(limit),
            ),
        }
    }

    /// `if`/`elif`/`else` as a chain of diamonds joined at one merge block.
    fn build_if(
        &mut self,
        arms: &'ast Vec<IfArm>,
        else_block: &'ast Option<Block>,
        current: BlockId,
        Ghost(limit): Ghost<int>,
    ) -> (end: BlockId)
        requires
            old(self).open_at(current),
            0 <= limit <= old(self).ast@.nodes.len(),
            node_ok(
                NodeView::If(arm_views(arms@), optional_block(*else_block)),
                old(self).ast@.bounds_before(limit),
            ),
        ensures
            final(self).ast == old(self).ast,
            (final(self).graph(), end) == graph_arms(
                old(self).ast@,
                old(self).graph().push(fresh()),
                arm_views(arms@),
                0,
                optional_block(*else_block),
                current,
                next_id(old(self).graph()),
                limit,
            ),
            built(old(self).graph(), current, final(self).graph(), end),
            final(self).open_at(end),
        decreases limit, 3int, old(self).ast@, 0int,
    {
        let ghost start = self.graph();
        let ghost views = arm_views(arms@);
        let ghost ast = self.ast@;
        let ghost at = self.ast@.bounds_before(limit);
        assert(self.blocks.len() == self.blocks@.len());
        let merge: BlockId = self.new_block();
        let mut testing: BlockId = current;
        let mut index: usize = 0;
        while index < arms.len()
            invariant
                self.ast == old(self).ast,
                ast == self.ast@,
                ast.well_formed(),
                at == ast.bounds_before(limit),
                0 <= limit <= ast.nodes.len(),
                views == arm_views(arms@),
                node_ok(NodeView::If(views, optional_block(*else_block)), at),
                index <= arms@.len(),
                start == old(self).graph(),
                merge == next_id(start),
                start.len() < usize::MAX,
                merge != testing,
                built_up_to(start, current, self.graph(), testing, merge),
                self.open_at(testing),
                graph_arms(
                    ast,
                    start.push(fresh()),
                    views,
                    0,
                    optional_block(*else_block),
                    current,
                    merge,
                    limit,
                ) == graph_arms(
                    ast,
                    self.graph(),
                    views,
                    index as int,
                    optional_block(*else_block),
                    testing,
                    merge,
                    limit,
                ),
            decreases arms@.len() - index,
        {
            proof {
                assert(views[index as int] == arms@[index as int]@);
                assert(block_ok(views[index as int].body, at));
            }
            let then_block: BlockId = self.new_block();
            let next: BlockId = self.new_block();
            self.set_terminator(
                testing,
                Terminator::Branch { cond: arms[index].cond, then_block, else_block: next },
            );
            let arm_end: BlockId = self.build_block(&arms[index].body, then_block, Ghost(limit));
            self.set_terminator(arm_end, Terminator::Goto(merge));
            testing = next;
            index = index + 1;
        }
        // The trailing `else` occupies the final fall-through block; without one, that block simply
        // continues to the merge.
        match else_block {
            Some(else_body) => {
                let else_end: BlockId = self.build_block(else_body, testing, Ghost(limit));
                self.set_terminator(else_end, Terminator::Goto(merge));
            },
            None => {
                self.set_terminator(testing, Terminator::Goto(merge));
            },
        }
        merge
    }

    /// A nested block: its statements, then its trailing result evaluated where the block ends.
    fn build_block(&mut self, block: &'ast Block, current: BlockId, Ghost(limit): Ghost<int>) -> (end:
        BlockId)
        requires
            old(self).open_at(current),
            0 <= limit <= old(self).ast@.nodes.len(),
            block_ok(block@, old(self).ast@.bounds_before(limit)),
        ensures
            final(self).ast == old(self).ast,
            (final(self).graph(), end) == graph_block(
                old(self).ast@,
                old(self).graph(),
                block@,
                current,
                limit,
            ),
            built(old(self).graph(), current, final(self).graph(), end),
            final(self).open_at(end),
        decreases limit, 1int, block, block.stmts@.len() + 1,
    {
        let end: BlockId = self.build_stmts(block, current, Ghost(limit));
        if let Some(result) = block.result {
            self.push_action(end, Action::Evaluate(result));
        }
        end
    }

    /// Pre-test loop: a header that tests, a body that jumps back to it, and an exit.
    fn build_while(
        &mut self,
        cond: ExprId,
        body: &'ast Block,
        current: BlockId,
        Ghost(limit): Ghost<int>,
    ) -> (end: BlockId)
        requires
            old(self).open_at(current),
            0 <= limit <= old(self).ast@.nodes.len(),
            cond.0 < limit,
            block_ok(body@, old(self).ast@.bounds_before(limit)),
        ensures
            final(self).ast == old(self).ast,
            (final(self).graph(), end) == graph_stmt(
                old(self).ast@,
                old(self).graph(),
                StmtView::While(cond, body@),
                current,
                limit,
            ),
            built(old(self).graph(), current, final(self).graph(), end),
            final(self).open_at(end),
        decreases limit, 1int, body, body.stmts@.len() + 2,
    {
        assert(self.blocks.len() == self.blocks@.len());
        let header: BlockId = self.new_block();
        let body_block: BlockId = self.new_block();
        let exit: BlockId = self.new_block();
        self.set_terminator(current, Terminator::Goto(header));
        self.set_terminator(
            header,
            Terminator::Branch { cond, then_block: body_block, else_block: exit },
        );
        let body_end: BlockId = self.build_block(body, body_block, Ghost(limit));
        // The back edge: what makes the solver iterate rather than run once.
        self.set_terminator(body_end, Terminator::Goto(header));
        exit
    }

    /// Post-test loop: the body runs first, then the condition decides whether to repeat. `until`
    /// swaps the successors — repeat while the condition is *false*.
    fn build_loop(
        &mut self,
        body: &'ast Block,
        cond: ExprId,
        until: bool,
        current: BlockId,
        Ghost(limit): Ghost<int>,
    ) -> (end: BlockId)
        requires
            old(self).open_at(current),
            0 <= limit <= old(self).ast@.nodes.len(),
            cond.0 < limit,
            block_ok(body@, old(self).ast@.bounds_before(limit)),
        ensures
            final(self).ast == old(self).ast,
            (final(self).graph(), end) == graph_stmt(
                old(self).ast@,
                old(self).graph(),
                StmtView::Loop(body@, cond, until),
                current,
                limit,
            ),
            built(old(self).graph(), current, final(self).graph(), end),
            final(self).open_at(end),
        decreases limit, 1int, body, body.stmts@.len() + 2,
    {
        assert(self.blocks.len() == self.blocks@.len());
        let body_block: BlockId = self.new_block();
        let exit: BlockId = self.new_block();
        self.set_terminator(current, Terminator::Goto(body_block));
        let body_end: BlockId = self.build_block(body, body_block, Ghost(limit));
        let (then_block, else_block): (BlockId, BlockId) = if until {
            (exit, body_block)
        } else {
            (body_block, exit)
        };
        self.set_terminator(body_end, Terminator::Branch { cond, then_block, else_block });
        exit
    }

    /// `for` over a range, array, or matrix. The source is evaluated once before the loop; each
    /// iteration binds the loop variables, so an analysis sees a definition per pass.
    fn build_counted_loop(
        &mut self,
        binders: &Vec<SymId>,
        source: ExprId,
        body: &'ast Block,
        current: BlockId,
        Ghost(limit): Ghost<int>,
    ) -> (end: BlockId)
        requires
            old(self).open_at(current),
            0 <= limit <= old(self).ast@.nodes.len(),
            source.0 < limit,
            forall|i: int|
                0 <= i < binders@.len() ==> symbol_ok(
                    #[trigger] binders@[i],
                    old(self).ast@.bounds(),
                ),
            block_ok(body@, old(self).ast@.bounds_before(limit)),
        ensures
            final(self).ast == old(self).ast,
            (final(self).graph(), end) == counted_loop(
                old(self).ast@,
                old(self).graph(),
                binders@,
                source,
                body@,
                current,
                limit,
            ),
            built(old(self).graph(), current, final(self).graph(), end),
            final(self).open_at(end),
        decreases limit, 1int, body, body.stmts@.len() + 2,
    {
        assert(self.blocks.len() == self.blocks@.len());
        self.push_action(current, Action::Evaluate(source));
        let header: BlockId = self.new_block();
        let body_block: BlockId = self.new_block();
        let exit: BlockId = self.new_block();
        self.set_terminator(current, Terminator::Goto(header));
        // The header decides whether another iteration runs. It has no condition expression of its
        // own — the counter is implicit — so it branches on the source, which is already evaluated.
        self.set_terminator(
            header,
            Terminator::Branch { cond: source, then_block: body_block, else_block: exit },
        );
        let ghost head = self.graph();
        let mut index: usize = 0;
        while index < binders.len()
            invariant
                self.ast == old(self).ast,
                index <= binders@.len(),
                body_block.0 < self.graph().len(),
                graph_ok(self.graph(), self.ast@.bounds()),
                forall|i: int|
                    0 <= i < binders@.len() ==> symbol_ok(
                        #[trigger] binders@[i],
                        self.ast@.bounds(),
                    ),
                self.graph() == with_binds(head, body_block, binders@, index as int),
            decreases binders@.len() - index,
        {
            self.push_action(body_block, Action::Bind(binders[index]));
            index = index + 1;
        }
        proof {
            lemma_binds(head, body_block, binders@, binders@.len() as int);
        }
        let body_end: BlockId = self.build_block(body, body_block, Ghost(limit));
        self.set_terminator(body_end, Terminator::Goto(header));
        exit
    }
}

/// The exit is the one block that leads nowhere, and control reaches it from exactly one block.
pub open spec fn leaves_once(cfg: CfgView) -> bool {
    &&& cfg.blocks[cfg.exit.0 as int] == fresh()
    &&& cfg.entry != cfg.exit
    &&& forall|b: int|
        0 <= b < cfg.blocks.len() ==> ((#[trigger] cfg.blocks[b]).terminator == Terminator::Exit
            <==> b == cfg.exit.0)
    &&& exists|last: int| #[trigger] returns_only_at(cfg, last)
}

/// One block, `last`, leaves the function, and no other does.
pub open spec fn returns_only_at(cfg: CfgView, last: int) -> bool {
    &&& 0 <= last < cfg.blocks.len()
    &&& forall|b: int|
        0 <= b < cfg.blocks.len() ==> (is_return((#[trigger] cfg.blocks[b]).terminator) <==> b
            == last)
}

pub open spec fn ids_in_order(ids: Seq<BlockId>, count: int) -> bool {
    ids.len() == count && forall|i: int| 0 <= i < count ==> (#[trigger] ids[i]).0 == i
}

/// The blocks among the first `count` that leave the function.
pub open spec fn returning_among(cfg: CfgView, count: int) -> Seq<BlockId>
    decreases count,
{
    if count <= 0 {
        Seq::empty()
    } else if is_return(cfg.blocks[count - 1].terminator) {
        returning_among(cfg, count - 1).push(BlockId((count - 1) as usize))
    } else {
        returning_among(cfg, count - 1)
    }
}

/// The lines of the first `count` edges out of a block.
pub open spec fn dot_edges(block: int, ids: Seq<BlockId>, count: int) -> Seq<char>
    decreases count,
{
    if count <= 0 {
        Seq::empty()
    } else {
        dot_edges(block, ids, count - 1) + ("  "@ + decimal_text(block as nat) + " -> "@
            + decimal_text(ids[count - 1].0 as nat) + ";\n"@)
    }
}

/// The lines of the first `count` blocks.
pub open spec fn dot_blocks(cfg: CfgView, count: int) -> Seq<char>
    decreases count,
{
    if count <= 0 {
        Seq::empty()
    } else {
        let block = count - 1;
        let ids = successors_of(cfg, block);
        dot_blocks(cfg, count - 1) + ("  "@ + decimal_text(block as nat) + " [label=\""@
            + decimal_text(block as nat) + ": "@ + decimal_text(cfg.blocks[block].actions.len())
            + " action(s)\"];\n"@) + dot_edges(block, ids, ids.len() as int)
    }
}

/// The graph in Graphviz `dot` form.
pub open spec fn dot_text(cfg: CfgView) -> Seq<char> {
    "digraph cfg {\n"@ + dot_blocks(cfg, cfg.blocks.len() as int) + "}\n"@
}

pub open spec fn id_lists(lists: Seq<Vec<BlockId>>) -> Seq<Seq<BlockId>> {
    Seq::new(lists.len(), |i: int| lists[i]@)
}

/// The control-flow graph of one function, or of the top-level program.
#[derive(Debug)]
pub struct Cfg<'ast> {
    blocks: Vec<BasicBlock<'ast>>,
    entry: BlockId,
    exit: BlockId,
    predecessors: Vec<Vec<BlockId>>,
}

impl<'ast> View for Cfg<'ast> {
    type V = CfgView;

    closed spec fn view(&self) -> CfgView {
        CfgView { blocks: block_datas(self.blocks@), entry: self.entry, exit: self.exit }
    }
}

impl<'ast> Cfg<'ast> {
    #[verifier::type_invariant]
    spec fn consistent(&self) -> bool {
        &&& self@.well_formed()
        &&& self.predecessors@.len() == self.blocks@.len()
        &&& forall|b: int|
            0 <= b < self.blocks@.len() ==> (#[trigger] self.predecessors@[b])@ == predecessors_of(
                self@,
                b,
            )
    }

    /// The graph of a function body.
    pub fn build_function<'src>(
        ast: &'ast ProgramAst<'src>,
        func: &'ast FuncDef,
    ) -> (cfg: Cfg<'ast>)
        requires
            ast.well_formed(),
            func_ok(func@, ast@.bounds()),
        ensures
            cfg@ == function_graph(ast@, func@),
            cfg@.well_formed(),
            leaves_once(cfg@),
            graph_ok(cfg@.blocks, ast@.bounds()),
    {
        let mut builder: CfgBuilder<'ast, 'src> = CfgBuilder::new(ast);
        let entry: BlockId = builder.new_block();
        assert(builder.graph() =~= seq![fresh()]);
        let reached: BlockId = builder.build_stmts(
            &func.body,
            entry,
            Ghost(ast@.nodes.len() as int),
        );
        let ghost graph = builder.graph();
        // The body's trailing result is the value the function returns.
        builder.set_terminator(reached, Terminator::Return(func.body.result));
        proof {
            assert(builder.graph().len() == builder.blocks@.len());
            assert forall|b: int| 0 <= b < builder.blocks@.len() implies goes_on(
                (#[trigger] builder.blocks@[b]).terminator,
                builder.blocks@.len() as int,
            ) || is_return(builder.blocks@[b].terminator) by {
                assert(builder.graph()[b] == builder.blocks@[b]@);
                if b != reached.0 {
                    assert(builder.graph()[b] == graph[b]);
                }
            }
        }
        let cfg: Cfg<'ast> = finish(builder.blocks, entry);
        proof {
            assert(cfg@ =~= finished(graph, reached, func.body.result));
            lemma_leaves_once(graph, reached, func.body.result);
        }
        cfg
    }

    /// The graph of the top-level program: every statement, in order, skipping function
    /// definitions (each of which gets its own graph).
    pub fn build_entry<'src>(ast: &'ast ProgramAst<'src>) -> (cfg: Cfg<'ast>)
        requires
            ast.well_formed(),
        ensures
            cfg@ == entry_graph(ast@),
            cfg@.well_formed(),
            leaves_once(cfg@),
            graph_ok(cfg@.blocks, ast@.bounds()),
    {
        let mut builder: CfgBuilder<'ast, 'src> = CfgBuilder::new(ast);
        let entry: BlockId = builder.new_block();
        let ghost start = builder.graph();
        assert(start =~= seq![fresh()]);
        let mut reached: BlockId = entry;
        let mut index: usize = 0;
        assert(builder.blocks.len() == builder.blocks@.len());
        while index < ast.top_level.len()
            invariant
                ast.well_formed(),
                builder.ast == ast,
                builder.open_at(reached),
                start == seq![fresh()],
                entry == BlockId(0),
                built(start, entry, builder.graph(), reached),
                index <= ast.top_level@.len(),
                graph_items(ast@, start, 0, entry) == graph_items(
                    ast@,
                    builder.graph(),
                    index as int,
                    reached,
                ),
            decreases ast.top_level@.len() - index,
        {
            proof {
                assert(ast@.top_level[index as int] == ast.top_level@[index as int]@);
                assert(top_level_ok(ast@.top_level[index as int], ast@.bounds()));
            }
            match &ast.top_level[index] {
                TopLevel::Stmt(stmt) => {
                    reached = builder.build_stmt(stmt, reached, Ghost(ast@.nodes.len() as int));
                },
                TopLevel::Func(_) => {},
            }
            index = index + 1;
        }
        let ghost graph = builder.graph();
        // A program's value is its last statement's, so there is no separate result expression.
        builder.set_terminator(reached, Terminator::Return(None));
        proof {
            assert(builder.graph().len() == builder.blocks@.len());
            assert forall|b: int| 0 <= b < builder.blocks@.len() implies goes_on(
                (#[trigger] builder.blocks@[b]).terminator,
                builder.blocks@.len() as int,
            ) || is_return(builder.blocks@[b].terminator) by {
                assert(builder.graph()[b] == builder.blocks@[b]@);
                if b != reached.0 {
                    assert(builder.graph()[b] == graph[b]);
                }
            }
        }
        let cfg: Cfg<'ast> = finish(builder.blocks, entry);
        proof {
            assert(cfg@ =~= finished(graph, reached, None));
            lemma_leaves_once(graph, reached, None);
        }
        cfg
    }

    pub fn blocks(&self) -> (r: &Vec<BasicBlock<'ast>>)
        ensures
            block_datas(r@) == self@.blocks,
            self@.well_formed(),
    {
        proof {
            use_type_invariant(self);
        }
        &self.blocks
    }

    pub fn block(&self, block_id: BlockId) -> (r: &BasicBlock<'ast>)
        requires
            block_id.0 < self@.blocks.len(),
        ensures
            r@ == self@.blocks[block_id.0 as int],
    {
        &self.blocks[block_id.value()]
    }

    pub fn entry(&self) -> (r: BlockId)
        ensures
            r == self@.entry,
            self@.well_formed(),
    {
        proof {
            use_type_invariant(self);
        }
        self.entry
    }

    pub fn exit(&self) -> (r: BlockId)
        ensures
            r == self@.exit,
            self@.well_formed(),
    {
        proof {
            use_type_invariant(self);
        }
        self.exit
    }

    /// Every block's id, in order.
    pub fn block_ids(&self) -> (ids: Vec<BlockId>)
        ensures
            ids_in_order(ids@, self@.blocks.len() as int),
    {
        let mut ids: Vec<BlockId> = Vec::new();
        while ids.len() < self.blocks.len()
            invariant
                ids@.len() <= self.blocks@.len(),
                ids_in_order(ids@, ids@.len() as int),
            decreases self.blocks@.len() - ids@.len(),
        {
            ids.push(BlockId(ids.len()));
        }
        ids
    }

    /// Blocks control can reach directly from `block_id`.
    pub fn successors(&self, block_id: BlockId) -> (ids: Vec<BlockId>)
        requires
            block_id.0 < self@.blocks.len(),
        ensures
            ids@ == successors_of(self@, block_id.0 as int),
            forall|i: int| 0 <= i < ids@.len() ==> (#[trigger] ids@[i]).0 < self@.blocks.len(),
    {
        proof {
            use_type_invariant(self);
            assert(self@.blocks[block_id.0 as int] == self.blocks@[block_id.0 as int]@);
        }
        target_ids(self.blocks[block_id.value()].terminator, self.exit)
    }

    /// Blocks that reach `block_id` directly. Computed once at construction, since a backward
    /// analysis walks these on every pass.
    pub fn predecessors(&self, block_id: BlockId) -> (ids: &Vec<BlockId>)
        requires
            block_id.0 < self@.blocks.len(),
        ensures
            ids@ == predecessors_of(self@, block_id.0 as int),
    {
        proof {
            use_type_invariant(self);
        }
        &self.predecessors[block_id.value()]
    }

    /// Every block that leaves the function. One today; several once `return` exists.
    pub fn returning_blocks(&self) -> (ids: Vec<BlockId>)
        ensures
            ids@ == returning_among(self@, self@.blocks.len() as int),
    {
        let mut ids: Vec<BlockId> = Vec::new();
        let mut index: usize = 0;
        while index < self.blocks.len()
            invariant
                index <= self.blocks@.len(),
                ids@ == returning_among(self@, index as int),
            decreases self.blocks@.len() - index,
        {
            assert(self@.blocks[index as int] == self.blocks@[index as int]@);
            if let Terminator::Return(_) = self.blocks[index].terminator {
                ids.push(BlockId(index));
            }
            index = index + 1;
        }
        ids
    }

    /// The graph in Graphviz `dot` form. A test that fails on structure is far easier to read as a
    /// picture than as a list of indices.
    pub fn to_dot(&self) -> (out: String)
        ensures
            out@ == dot_text(self@),
    {
        let mut lines: String = String::new();
        let mut index: usize = 0;
        assert(lines@ =~= dot_blocks(self@, 0));
        while index < self.blocks.len()
            invariant
                index <= self.blocks@.len(),
                lines@ == dot_blocks(self@, index as int),
            decreases self.blocks@.len() - index,
        {
            proof {
                assert(self@.blocks[index as int] == self.blocks@[index as int]@);
            }
            let number: String = decimal(index as u64);
            let label: String = join7(
                "  ",
                number.as_str(),
                " [label=\"",
                number.as_str(),
                ": ",
                decimal(self.blocks[index].actions.len() as u64).as_str(),
                " action(s)\"];\n",
            );
            lines = join2(lines.as_str(), label.as_str());
            let ids: Vec<BlockId> = self.successors(BlockId(index));
            let ghost head = lines@;
            let mut edge: usize = 0;
            assert(head + dot_edges(index as int, ids@, 0) =~= head);
            while edge < ids.len()
                invariant
                    edge <= ids@.len(),
                    number@ == decimal_text(index as nat),
                    lines@ == head + dot_edges(index as int, ids@, edge as int),
                decreases ids@.len() - edge,
            {
                let line: String = join5(
                    "  ",
                    number.as_str(),
                    " -> ",
                    decimal(ids[edge].value() as u64).as_str(),
                    ";\n",
                );
                lines = join2(lines.as_str(), line.as_str());
                assert(lines@ =~= head + dot_edges(index as int, ids@, edge + 1));
                edge = edge + 1;
            }
            index = index + 1;
        }
        crate::text::join3("digraph cfg {\n", lines.as_str(), "}\n")
    }
}

/// Where a terminator leads in a graph with this exit.
fn target_ids(terminator: Terminator, exit: BlockId) -> (ids: Vec<BlockId>)
    ensures
        ids@ == targets(terminator, exit),
{
    let mut ids: Vec<BlockId> = Vec::new();
    match terminator {
        Terminator::Goto(target) => {
            ids.push(target);
            assert(ids@ =~= seq![target]);
        },
        Terminator::Branch { cond, then_block, else_block } => {
            ids.push(then_block);
            ids.push(else_block);
            assert(ids@ =~= seq![then_block, else_block]);
        },
        Terminator::Return(_) => {
            ids.push(exit);
            assert(ids@ =~= seq![exit]);
        },
        Terminator::Exit => {},
    }
    ids
}

proof fn lemma_leaves_once(graph: Seq<BlockData>, last: BlockId, result: Option<ExprId>)
    requires
        built(seq![fresh()], BlockId(0), graph, last),
        graph.len() < usize::MAX,
    ensures
        finished(graph, last, result).well_formed(),
        leaves_once(finished(graph, last, result)),
{
    let cfg = finished(graph, last, result);
    assert forall|b: int| 0 <= b < cfg.blocks.len() implies {
        ||| goes_on((#[trigger] cfg.blocks[b]).terminator, cfg.blocks.len() as int)
        ||| is_return(cfg.blocks[b].terminator)
        ||| cfg.blocks[b].terminator == Terminator::Exit && b == cfg.exit.0
    } by {
        if b < graph.len() && b != last.0 {
            assert(cfg.blocks[b] == graph[b]);
            assert(goes_on(graph[b].terminator, graph.len() as int));
        }
    }
    assert forall|b: int| 0 <= b < cfg.blocks.len() implies (is_return(
        (#[trigger] cfg.blocks[b]).terminator,
    ) <==> b == last.0) by {
        if b < graph.len() && b != last.0 {
            assert(cfg.blocks[b] == graph[b]);
            assert(goes_on(graph[b].terminator, graph.len() as int));
        }
    }
    assert(returns_only_at(cfg, last.0 as int));
}

/// Adds the unique exit block, wires predecessors, and hands over the finished graph.
fn finish<'ast>(decided: Vec<BasicBlock<'ast>>, entry: BlockId) -> (cfg: Cfg<'ast>)
    requires
        entry.0 < decided@.len(),
        forall|b: int|
            0 <= b < decided@.len() ==> goes_on(
                (#[trigger] decided@[b]).terminator,
                decided@.len() as int,
            ) || is_return(decided@[b].terminator),
    ensures
        cfg@ == (CfgView {
            blocks: block_datas(decided@).push(fresh()),
            entry,
            exit: BlockId(decided@.len() as usize),
        }),
        decided@.len() < usize::MAX,
{
    let exit: BlockId = BlockId(decided.len());
    let mut blocks: Vec<BasicBlock<'ast>> = decided;
    let sink: BasicBlock<'ast> = BasicBlock { actions: Vec::new(), terminator: Terminator::Exit };
    assert(sink@ =~= fresh());
    blocks.push(sink);
    assert(blocks.len() == blocks@.len());
    let ghost view = CfgView { blocks: block_datas(blocks@), entry, exit };
    proof {
        assert(view.blocks =~= block_datas(decided@).push(fresh()));
        assert forall|b: int| 0 <= b < view.blocks.len() implies {
            ||| goes_on((#[trigger] view.blocks[b]).terminator, view.blocks.len() as int)
            ||| is_return(view.blocks[b].terminator)
            ||| view.blocks[b].terminator == Terminator::Exit && b == view.exit.0
        } by {
            if b < decided@.len() {
                assert(view.blocks[b].terminator == decided@[b].terminator);
            }
        }
        assert(view.well_formed());
    }
    let mut predecessors: Vec<Vec<BlockId>> = Vec::new();
    while predecessors.len() < blocks.len()
        invariant
            predecessors@.len() <= blocks@.len(),
            forall|b: int|
                0 <= b < predecessors@.len() ==> (#[trigger] predecessors@[b])@ == Seq::<
                    BlockId,
                >::empty(),
        decreases blocks@.len() - predecessors@.len(),
    {
        predecessors.push(Vec::new());
    }
    let mut index: usize = 0;
    while index < blocks.len()
        invariant
            view == (CfgView { blocks: block_datas(blocks@), entry, exit }),
            view.well_formed(),
            index <= blocks@.len(),
            predecessors@.len() == blocks@.len(),
            forall|b: int|
                0 <= b < blocks@.len() ==> (#[trigger] predecessors@[b])@ == predecessors_among(
                    view,
                    index as int,
                    BlockId(b as usize),
                ),
        decreases blocks@.len() - index,
    {
        let block_id: BlockId = BlockId(index);
        let ids: Vec<BlockId> = target_ids(blocks[index].terminator, exit);
        proof {
            assert(ids@ == successors_of(view, index as int));
            assert(view.blocks[index as int] == blocks@[index as int]@);
        }
        let ghost before = id_lists(predecessors@);
        let mut edge: usize = 0;
        while edge < ids.len()
            invariant
                edge <= ids@.len(),
                block_id.0 == index,
                index < blocks@.len(),
                blocks@.len() <= usize::MAX,
                predecessors@.len() == blocks@.len(),
                before.len() == blocks@.len(),
                forall|i: int| 0 <= i < ids@.len() ==> (#[trigger] ids@[i]).0 < blocks@.len(),
                forall|b: int|
                    0 <= b < blocks@.len() ==> (#[trigger] predecessors@[b])@ == before[b]
                        + edges_into(ids@, edge as int, BlockId(b as usize), block_id),
            decreases ids@.len() - edge,
        {
            let target: usize = ids[edge].value();
            let ghost lists = predecessors@;
            predecessors[target].push(block_id);
            proof {
                assert forall|b: int| 0 <= b < blocks@.len() implies (
                #[trigger] predecessors@[b])@ == before[b] + edges_into(
                    ids@,
                    edge + 1,
                    BlockId(b as usize),
                    block_id,
                ) by {
                    assert(lists[b]@ == before[b] + edges_into(
                        ids@,
                        edge as int,
                        BlockId(b as usize),
                        block_id,
                    ));
                    if b == target {
                        assert(predecessors@[b]@ =~= before[b] + edges_into(
                            ids@,
                            edge + 1,
                            BlockId(b as usize),
                            block_id,
                        ));
                    }
                }
            }
            edge = edge + 1;
        }
        proof {
            assert forall|b: int| 0 <= b < blocks@.len() implies (#[trigger] predecessors@[b])@
                == predecessors_among(view, index + 1, BlockId(b as usize)) by {
                assert(before[b] == predecessors_among(view, index as int, BlockId(b as usize)));
            }
        }
        index = index + 1;
    }
    Cfg { blocks, entry, exit, predecessors }
}

proof fn lemma_edges_into(ids: Seq<BlockId>, count: int, target: BlockId, source: BlockId)
    requires
        0 <= count <= ids.len(),
    ensures
        forall|other: BlockId|
            edges_into(ids, count, target, source).contains(other) ==> other == source,
        edges_into(ids, count, target, source).contains(source) <==> exists|i: int|
            0 <= i < count && ids[i] == target,
    decreases count,
{
    if count > 0 {
        lemma_edges_into(ids, count - 1, target, source);
        let shorter = edges_into(ids, count - 1, target, source);
        let all = edges_into(ids, count, target, source);
        if ids[count - 1] == target {
            assert(all[all.len() - 1] == source);
            assert forall|other: BlockId| all.contains(other) implies other == source by {
                let i = choose|i: int| 0 <= i < all.len() && all[i] == other;
                if i < shorter.len() {
                    assert(shorter[i] == other);
                    assert(shorter.contains(other));
                }
            }
        } else {
            if exists|i: int| 0 <= i < count && ids[i] == target {
                let i = choose|i: int| 0 <= i < count && ids[i] == target;
                assert(0 <= i < count - 1 && ids[i] == target);
            }
        }
    }
}

proof fn lemma_predecessors_among(cfg: CfgView, count: int, target: BlockId, source: BlockId)
    requires
        0 <= count <= cfg.blocks.len() <= usize::MAX,
    ensures
        predecessors_among(cfg, count, target).contains(source) <==> source.0 < count
            && successors_of(cfg, source.0 as int).contains(target),
    decreases count,
{
    if count > 0 {
        lemma_predecessors_among(cfg, count - 1, target, source);
        let ids = successors_of(cfg, count - 1);
        let last = BlockId((count - 1) as usize);
        lemma_edges_into(ids, ids.len() as int, target, last);
        let shorter = predecessors_among(cfg, count - 1, target);
        let edges = edges_into(ids, ids.len() as int, target, last);
        let all = predecessors_among(cfg, count, target);
        assert(all == shorter + edges);
        if all.contains(source) {
            let i = all.index_of(source);
            if i < shorter.len() {
                assert(shorter[i] == source);
            } else {
                assert(edges[i - shorter.len()] == source);
                assert(edges.contains(source));
                let k = choose|k: int| 0 <= k < ids.len() && ids[k] == target;
                assert(ids.contains(target));
            }
        }
        if source.0 < count && successors_of(cfg, source.0 as int).contains(target) {
            if source.0 == count - 1 {
                let k = ids.index_of(target);
                assert(0 <= k < ids.len() && ids[k] == target);
                assert(edges.contains(source));
                let i = edges.index_of(source);
                assert(all[shorter.len() + i] == source);
            } else {
                let i = shorter.index_of(source);
                assert(all[i] == source);
            }
        }
    }
}

/// How often a block stands in a list.
pub open spec fn occurrences(ids: Seq<BlockId>, id: BlockId) -> nat
    decreases ids.len(),
{
    if ids.len() == 0 {
        0
    } else {
        occurrences(ids.drop_last(), id) + if ids.last() == id {
            1nat
        } else {
            0
        }
    }
}

proof fn lemma_occurrences_joined(a: Seq<BlockId>, b: Seq<BlockId>, id: BlockId)
    ensures
        occurrences(a + b, id) == occurrences(a, id) + occurrences(b, id),
    decreases b.len(),
{
    if b.len() == 0 {
        assert(a + b =~= a);
    } else {
        assert((a + b).drop_last() =~= a + b.drop_last());
        lemma_occurrences_joined(a, b.drop_last(), id);
    }
}

proof fn lemma_edges_counted(
    ids: Seq<BlockId>,
    count: int,
    target: BlockId,
    source: BlockId,
    id: BlockId,
)
    requires
        0 <= count <= ids.len(),
    ensures
        occurrences(edges_into(ids, count, target, source), id) == if id == source {
            occurrences(ids.take(count), target)
        } else {
            0
        },
    decreases count,
{
    if count > 0 {
        lemma_edges_counted(ids, count - 1, target, source, id);
        assert(ids.take(count).drop_last() =~= ids.take(count - 1));
        let shorter = edges_into(ids, count - 1, target, source);
        assert(shorter.push(source).drop_last() =~= shorter);
    }
}

proof fn lemma_predecessors_counted(cfg: CfgView, count: int, target: BlockId, source: BlockId)
    requires
        0 <= count <= cfg.blocks.len() <= usize::MAX,
    ensures
        occurrences(predecessors_among(cfg, count, target), source) == if source.0 < count {
            occurrences(successors_of(cfg, source.0 as int), target)
        } else {
            0
        },
    decreases count,
{
    if count > 0 {
        lemma_predecessors_counted(cfg, count - 1, target, source);
        let ids = successors_of(cfg, count - 1);
        let last = BlockId((count - 1) as usize);
        lemma_edges_counted(ids, ids.len() as int, target, last, source);
        assert(ids.take(ids.len() as int) =~= ids);
        lemma_occurrences_joined(
            predecessors_among(cfg, count - 1, target),
            edges_into(ids, ids.len() as int, target, last),
            source,
        );
    }
}

/// A block's predecessors are exactly the blocks it is a successor of, once per edge.
pub proof fn predecessors_mirror_successors(cfg: CfgView, source: BlockId, target: BlockId)
    requires
        cfg.blocks.len() <= usize::MAX,
    ensures
        source.0 < cfg.blocks.len() ==> occurrences(
            predecessors_of(cfg, target.0 as int),
            source,
        ) == occurrences(successors_of(cfg, source.0 as int), target),
        predecessors_of(cfg, target.0 as int).contains(source) <==> source.0 < cfg.blocks.len()
            && successors_of(cfg, source.0 as int).contains(target),
{
    lemma_predecessors_among(cfg, cfg.blocks.len() as int, target, source);
    lemma_predecessors_counted(cfg, cfg.blocks.len() as int, target, source);
}

} // verus!
