//! The paths of a graph are the runs of a program.
//!
//! What a statement does when it runs is a sequence of events: the actions it performs and the
//! conditions it tests, with what came of them. Which sequences a statement can perform is said here
//! in the terms of the language. Each of them is a path of the graph that is built for it.

use crate::analysis::cfg::{
    counted_loop, entry_graph, fresh, function_graph, graph_arms, graph_block, graph_items,
    graph_stmt, graph_stmts, loop_head, next_id, successors_of, with_action, with_binds,
    with_terminator, ActionView, BlockData, BlockId, CfgView, Terminator,
};
use crate::parser::ast::{
    AstView, BlockView, ExprId, FuncDefView, IfArmView, StmtView, SymId, TopLevelView,
};
use vstd::prelude::*;

verus! {

/// One thing that happens in a run: an action, or a test with its outcome. The test of a `for` is
/// whether its source has more.
pub enum Event {
    Act(ActionView),
    Test(ExprId, bool),
}

// ---------------------------------------------------------------------------
// Runs
// ---------------------------------------------------------------------------

/// A statement can perform these events, in this order.
pub open spec fn runs_stmt(ast: AstView, stmt: StmtView, ev: Seq<Event>, limit: int) -> bool
    decreases limit, 1int, stmt, 0int, 0int,
{
    match stmt {
        StmtView::Expr(expr_id) => if expr_id.0 < limit && ast.nodes[expr_id.0 as int] is If {
            let node = ast.nodes[expr_id.0 as int];
            runs_arms(ast, node->If_0, 0, node->If_1, ev, expr_id.0 as int)
        } else {
            ev == seq![Event::Act(ActionView::Statement(stmt))]
        },
        StmtView::Assign(..) | StmtView::IndexedAssign(..) | StmtView::IndexedAssign2D(..) => ev
            == seq![Event::Act(ActionView::Statement(stmt))],
        StmtView::While(cond, body) => runs_while(ast, cond, body, ev, limit),
        StmtView::Loop(body, cond, until) => runs_loop(ast, body, cond, until, ev, limit),
        StmtView::For(var, source, body) => {
            &&& ev.len() > 0
            &&& ev[0] == Event::Act(ActionView::Evaluate(source))
            &&& runs_rounds(ast, seq![var], source, body, ev.skip(1), limit)
        },
        StmtView::ForArray(binders, source, body) => {
            &&& ev.len() > 0
            &&& ev[0] == Event::Act(ActionView::Evaluate(source))
            &&& runs_rounds(ast, binders, source, body, ev.skip(1), limit)
        },
    }
}

/// A `while` tests; where the test holds it goes through its body and starts over.
pub open spec fn runs_while(
    ast: AstView,
    cond: ExprId,
    body: BlockView,
    ev: Seq<Event>,
    limit: int,
) -> bool
    decreases limit, 1int, body, body.stmts.len() + 2, ev.len(),
{
    ||| ev == seq![Event::Test(cond, false)]
    ||| ev.len() > 0 && ev[0] == Event::Test(cond, true) && exists|k: int|
        1 <= k <= ev.len() && runs_block(ast, body, ev.subrange(1, k), limit) && runs_while(
            ast,
            cond,
            body,
            #[trigger] ev.skip(k),
            limit,
        )
}

/// A `loop` goes through its body and tests; it starts over until the test comes out as `until`.
pub open spec fn runs_loop(
    ast: AstView,
    body: BlockView,
    cond: ExprId,
    until: bool,
    ev: Seq<Event>,
    limit: int,
) -> bool
    decreases limit, 1int, body, body.stmts.len() + 2, ev.len(),
{
    exists|k: int|
        0 <= k < ev.len() && runs_block(ast, body, #[trigger] ev.take(k), limit) && {
            ||| k == ev.len() - 1 && ev[k] == Event::Test(cond, until)
            ||| ev[k] == Event::Test(cond, !until) && runs_loop(
                ast,
                body,
                cond,
                until,
                ev.skip(k + 1),
                limit,
            )
        }
}

/// The rounds of a `for`: where its source has more, the binders take their values and the body is
/// gone through.
pub open spec fn runs_rounds(
    ast: AstView,
    binders: Seq<SymId>,
    source: ExprId,
    body: BlockView,
    ev: Seq<Event>,
    limit: int,
) -> bool
    decreases limit, 1int, body, body.stmts.len() + 2, ev.len(),
{
    ||| ev == seq![Event::Test(source, false)]
    ||| {
        let first = 1 + binders.len() as int;
        &&& ev.len() >= first
        &&& ev[0] == Event::Test(source, true)
        &&& ev.subrange(1, first) == bind_events(binders)
        &&& exists|k: int|
            first <= k <= ev.len() && runs_block(
                ast,
                body,
                ev.subrange(first, k),
                limit,
            ) && runs_rounds(ast, binders, source, body, #[trigger] ev.skip(k), limit)
    }
}

pub open spec fn bind_events(binders: Seq<SymId>) -> Seq<Event> {
    Seq::new(binders.len(), |j: int| Event::Act(ActionView::Bind(binders[j])))
}

/// A block performs its statements, then what it ends in.
pub open spec fn runs_block(ast: AstView, block: BlockView, ev: Seq<Event>, limit: int) -> bool
    decreases limit, 1int, block, block.stmts.len() + 1, 0int,
{
    match block.result {
        Some(result) => {
            &&& ev.len() > 0
            &&& ev.last() == Event::Act(ActionView::Evaluate(result))
            &&& runs_stmts(ast, block, 0, ev.drop_last(), limit)
        },
        None => runs_stmts(ast, block, 0, ev, limit),
    }
}

/// The statements of a block from the one at `from` on, one after the other.
pub open spec fn runs_stmts(
    ast: AstView,
    block: BlockView,
    from: int,
    ev: Seq<Event>,
    limit: int,
) -> bool
    decreases limit, 1int, block, block.stmts.len() - from, 0int,
{
    if from < 0 || from >= block.stmts.len() {
        ev.len() == 0
    } else {
        exists|k: int|
            0 <= k <= ev.len() && runs_stmt(ast, block.stmts[from], ev.take(k), limit) && runs_stmts(
                ast,
                block,
                from + 1,
                #[trigger] ev.skip(k),
                limit,
            )
    }
}

/// The arms of an `if` from the one at `from` on: the first whose test holds, or the `else`.
pub open spec fn runs_arms(
    ast: AstView,
    arms: Seq<IfArmView>,
    from: int,
    else_block: Option<BlockView>,
    ev: Seq<Event>,
    limit: int,
) -> bool
    decreases limit, 2int, ast, arms.len() - from, 0int,
{
    if from < 0 || from >= arms.len() {
        match else_block {
            Some(block) => runs_block(ast, block, ev, limit),
            None => ev.len() == 0,
        }
    } else {
        ev.len() > 0 && {
            ||| ev[0] == Event::Test(arms[from].cond, true) && runs_block(
                ast,
                arms[from].body,
                ev.skip(1),
                limit,
            )
            ||| ev[0] == Event::Test(arms[from].cond, false) && runs_arms(
                ast,
                arms,
                from + 1,
                else_block,
                ev.skip(1),
                limit,
            )
        }
    }
}

/// The statements of the top level from the item at `from` on.
pub open spec fn runs_items(ast: AstView, from: int, ev: Seq<Event>) -> bool
    decreases ast.top_level.len() - from,
{
    if from < 0 || from >= ast.top_level.len() {
        ev.len() == 0
    } else {
        match ast.top_level[from] {
            TopLevelView::Func(_) => runs_items(ast, from + 1, ev),
            TopLevelView::Stmt(stmt) => exists|k: int|
                0 <= k <= ev.len() && #[trigger] runs_stmt(
                    ast,
                    stmt,
                    ev.take(k),
                    ast.nodes.len() as int,
                ) && runs_items(ast, from + 1, ev.skip(k)),
        }
    }
}

// ---------------------------------------------------------------------------
// Paths
// ---------------------------------------------------------------------------

/// A place in a graph: before an action of a block, or behind its last one.
pub struct Spot {
    pub block: int,
    pub at: int,
}

/// Where a path of `n` steps comes to that performs exactly these events.
pub open spec fn walk(g: Seq<BlockData>, spot: Spot, ev: Seq<Event>, n: nat) -> Option<Spot>
    decreases n,
{
    if n == 0 {
        if ev.len() == 0 {
            Some(spot)
        } else {
            None
        }
    } else if spot.block < 0 || spot.block >= g.len() || spot.at < 0 {
        None
    } else {
        let data = g[spot.block];
        if spot.at < data.actions.len() {
            if ev.len() > 0 && ev[0] == Event::Act(data.actions[spot.at]) {
                walk(g, Spot { at: spot.at + 1, ..spot }, ev.skip(1), (n - 1) as nat)
            } else {
                None
            }
        } else {
            match data.terminator {
                Terminator::Goto(target) => walk(
                    g,
                    Spot { block: target.0 as int, at: 0 },
                    ev,
                    (n - 1) as nat,
                ),
                Terminator::Branch { cond, then_block, else_block } => if ev.len() > 0 && ev[0]
                    == Event::Test(cond, true) {
                    walk(
                        g,
                        Spot { block: then_block.0 as int, at: 0 },
                        ev.skip(1),
                        (n - 1) as nat,
                    )
                } else if ev.len() > 0 && ev[0] == Event::Test(cond, false) {
                    walk(
                        g,
                        Spot { block: else_block.0 as int, at: 0 },
                        ev.skip(1),
                        (n - 1) as nat,
                    )
                } else {
                    None
                },
                _ => None,
            }
        }
    }
}

/// A path leads from one place to another and performs exactly these events on the way.
pub open spec fn leads(g: Seq<BlockData>, from: Spot, ev: Seq<Event>, to: Spot) -> bool {
    exists|n: nat| #[trigger] walk(g, from, ev, n) == Some(to)
}

/// Behind the last action of a block.
pub open spec fn end_of(g: Seq<BlockData>, block: BlockId) -> Spot {
    Spot { block: block.0 as int, at: g[block.0 as int].actions.len() as int }
}

pub open spec fn start_of(block: BlockId) -> Spot {
    Spot { block: block.0 as int, at: 0 }
}

/// `a` is how `b` begins.
pub open spec fn begins(a: Seq<ActionView>, b: Seq<ActionView>) -> bool {
    a.len() <= b.len() && forall|i: int| 0 <= i < a.len() ==> #[trigger] b[i] == a[i]
}

/// `after` has the blocks of `before`; only the block `open`, whose end was not decided, may have
/// been gone on with.
pub open spec fn extended(before: Seq<BlockData>, open: BlockId, after: Seq<BlockData>) -> bool {
    &&& open.0 < before.len() <= after.len()
    &&& before[open.0 as int].terminator == Terminator::Exit
    &&& begins(before[open.0 as int].actions, after[open.0 as int].actions)
    &&& forall|b: int|
        0 <= b < before.len() && b != open.0 ==> #[trigger] after[b] == before[b]
}

/// A construct built from `current` on, which control leaves at the open block `end`.
pub open spec fn grown(
    before: Seq<BlockData>,
    current: BlockId,
    after: Seq<BlockData>,
    end: BlockId,
) -> bool {
    &&& extended(before, current, after)
    &&& end.0 < after.len()
    &&& end == current || end.0 >= before.len()
    &&& after[end.0 as int].terminator == Terminator::Exit
}

proof fn lemma_grown_further(
    a: Seq<BlockData>,
    x: BlockId,
    b: Seq<BlockData>,
    y: BlockId,
    c: Seq<BlockData>,
    z: BlockId,
)
    requires
        grown(a, x, b, y),
        grown(b, y, c, z),
    ensures
        grown(a, x, c, z),
        extended(b, y, c),
{
    assert forall|i: int| 0 <= i < a.len() && i != x.0 implies #[trigger] c[i] == a[i] by {
        assert(b[i] == a[i]);
    }
    if x != y {
        assert(c[x.0 as int] == b[x.0 as int]);
    }
    assert forall|i: int| 0 <= i < a[x.0 as int].actions.len() implies #[trigger] c[x.0 as int].actions[i]
        == a[x.0 as int].actions[i] by {
        assert(b[x.0 as int].actions[i] == a[x.0 as int].actions[i]);
        if x == y {
            assert(c[x.0 as int].actions[i] == b[x.0 as int].actions[i]);
        }
    }
}

proof fn lemma_walk_joined(
    g: Seq<BlockData>,
    a: Spot,
    one: Seq<Event>,
    n: nat,
    b: Spot,
    two: Seq<Event>,
    m: nat,
    c: Spot,
)
    requires
        walk(g, a, one, n) == Some(b),
        walk(g, b, two, m) == Some(c),
    ensures
        walk(g, a, one + two, n + m) == Some(c),
    decreases n,
{
    let both = one + two;
    if n == 0 {
        assert(both =~= two);
    } else {
        let data = g[a.block];
        if one.len() > 0 {
            assert(both.skip(1) =~= one.skip(1) + two);
            assert(both[0] == one[0]);
        }
        if a.at < data.actions.len() {
            let next = Spot { at: a.at + 1, ..a };
            lemma_walk_joined(g, next, one.skip(1), (n - 1) as nat, b, two, m, c);
        } else {
            match data.terminator {
                Terminator::Goto(target) => {
                    lemma_walk_joined(g, start_of(target), one, (n - 1) as nat, b, two, m, c);
                },
                Terminator::Branch { cond, then_block, else_block } => {
                    let next = if one[0] == Event::Test(cond, true) {
                        then_block
                    } else {
                        else_block
                    };
                    lemma_walk_joined(
                        g,
                        start_of(next),
                        one.skip(1),
                        (n - 1) as nat,
                        b,
                        two,
                        m,
                        c,
                    );
                },
                _ => {},
            }
        }
        assert((n + m - 1) as nat == (n - 1) as nat + m);
    }
}

/// One path behind another.
proof fn lemma_leads_further(
    g: Seq<BlockData>,
    a: Spot,
    one: Seq<Event>,
    b: Spot,
    two: Seq<Event>,
    c: Spot,
)
    requires
        leads(g, a, one, b),
        leads(g, b, two, c),
    ensures
        leads(g, a, one + two, c),
{
    let n = choose|n: nat| #[trigger] walk(g, a, one, n) == Some(b);
    let m = choose|m: nat| #[trigger] walk(g, b, two, m) == Some(c);
    lemma_walk_joined(g, a, one, n, b, two, m, c);
}

proof fn lemma_walk_extended(
    g: Seq<BlockData>,
    open: BlockId,
    h: Seq<BlockData>,
    a: Spot,
    ev: Seq<Event>,
    n: nat,
)
    requires
        extended(g, open, h),
        walk(g, a, ev, n) is Some,
    ensures
        walk(h, a, ev, n) == walk(g, a, ev, n),
    decreases n,
{
    if n > 0 {
        let data = g[a.block];
        if a.at < data.actions.len() {
            let next = Spot { at: a.at + 1, ..a };
            assert(h[a.block].actions[a.at] == g[a.block].actions[a.at]) by {
                if a.block != open.0 {
                    assert(h[a.block] == g[a.block]);
                }
            }
            lemma_walk_extended(g, open, h, next, ev.skip(1), (n - 1) as nat);
        } else {
            assert(a.block != open.0);
            assert(h[a.block] == g[a.block]);
            match data.terminator {
                Terminator::Goto(target) => {
                    lemma_walk_extended(g, open, h, start_of(target), ev, (n - 1) as nat);
                },
                Terminator::Branch { cond, then_block, else_block } => {
                    let next = if ev[0] == Event::Test(cond, true) {
                        then_block
                    } else {
                        else_block
                    };
                    lemma_walk_extended(g, open, h, start_of(next), ev.skip(1), (n - 1) as nat);
                },
                _ => {},
            }
        }
    }
}

/// A path stays one when the graph is gone on with.
proof fn lemma_leads_extended(
    g: Seq<BlockData>,
    open: BlockId,
    h: Seq<BlockData>,
    a: Spot,
    ev: Seq<Event>,
    b: Spot,
)
    requires
        extended(g, open, h),
        leads(g, a, ev, b),
    ensures
        leads(h, a, ev, b),
{
    let n = choose|n: nat| #[trigger] walk(g, a, ev, n) == Some(b);
    lemma_walk_extended(g, open, h, a, ev, n);
}

proof fn lemma_here(g: Seq<BlockData>, a: Spot)
    ensures
        leads(g, a, Seq::empty(), a),
{
    assert(walk(g, a, Seq::empty(), 0) == Some(a));
}

proof fn lemma_goto(g: Seq<BlockData>, block: BlockId, target: BlockId)
    requires
        block.0 < g.len(),
        g[block.0 as int].terminator == Terminator::Goto(target),
    ensures
        leads(g, end_of(g, block), Seq::empty(), start_of(target)),
{
    assert(walk(g, start_of(target), Seq::empty(), 0) == Some(start_of(target)));
    assert(walk(g, end_of(g, block), Seq::empty(), 1) == Some(start_of(target)));
}

proof fn lemma_test(
    g: Seq<BlockData>,
    block: BlockId,
    cond: ExprId,
    then_block: BlockId,
    else_block: BlockId,
    holds: bool,
)
    requires
        block.0 < g.len(),
        g[block.0 as int].terminator == (Terminator::Branch { cond, then_block, else_block }),
    ensures
        leads(
            g,
            end_of(g, block),
            seq![Event::Test(cond, holds)],
            start_of(
                if holds {
                    then_block
                } else {
                    else_block
                },
            ),
        ),
{
    let next = start_of(
        if holds {
            then_block
        } else {
            else_block
        },
    );
    let ev = seq![Event::Test(cond, holds)];
    assert(ev.skip(1) =~= Seq::empty());
    assert(walk(g, next, Seq::empty(), 0) == Some(next));
    assert(walk(g, end_of(g, block), ev, 1) == Some(next));
}

/// An action more at the end of an open block.
proof fn lemma_act(g: Seq<BlockData>, block: BlockId, action: ActionView)
    requires
        block.0 < g.len(),
        g[block.0 as int].terminator == Terminator::Exit,
    ensures
        ({
            let h = with_action(g, block, action);
            &&& grown(g, block, h, block)
            &&& h.len() == g.len()
            &&& leads(h, end_of(g, block), seq![Event::Act(action)], end_of(h, block))
        }),
{
    let h = with_action(g, block, action);
    let ev = seq![Event::Act(action)];
    assert(ev.skip(1) =~= Seq::empty());
    assert(walk(h, end_of(h, block), Seq::empty(), 0) == Some(end_of(h, block)));
    assert(walk(h, end_of(g, block), ev, 1) == Some(end_of(h, block)));
}

// ---------------------------------------------------------------------------
// Graphs only grow
// ---------------------------------------------------------------------------

/// The binders bound in a block.
proof fn lemma_bound(g: Seq<BlockData>, block: BlockId, binders: Seq<SymId>, count: int)
    requires
        block.0 < g.len(),
        g[block.0 as int].terminator == Terminator::Exit,
        0 <= count <= binders.len(),
    ensures
        ({
            let h = with_binds(g, block, binders, count);
            &&& grown(g, block, h, block)
            &&& h.len() == g.len()
            &&& leads(h, end_of(g, block), bind_events(binders).take(count), end_of(h, block))
        }),
    decreases count,
{
    lemma_here(g, end_of(g, block));
    let all = bind_events(binders);
    if count > 0 {
        let before = with_binds(g, block, binders, count - 1);
        let h = with_binds(g, block, binders, count);
        let action = ActionView::Bind(binders[count - 1]);
        lemma_bound(g, block, binders, count - 1);
        lemma_act(before, block, action);
        lemma_grown_further(g, block, before, block, h, block);
        let one = all.take(count - 1);
        lemma_leads_extended(before, block, h, end_of(g, block), one, end_of(before, block));
        lemma_leads_further(
            h,
            end_of(g, block),
            one,
            end_of(before, block),
            seq![Event::Act(action)],
            end_of(h, block),
        );
        assert(all.take(count) =~= one + seq![Event::Act(action)]);
    } else {
        assert(all.take(0) =~= Seq::empty());
    }
}

proof fn lemma_binds_len(g: Seq<BlockData>, block: BlockId, binders: Seq<SymId>, count: int)
    requires
        block.0 < g.len(),
    ensures
        with_binds(g, block, binders, count).len() == g.len(),
    decreases count,
{
    if count > 0 {
        lemma_binds_len(g, block, binders, count - 1);
    }
}

proof fn lemma_stmt_len(
    ast: AstView,
    g: Seq<BlockData>,
    stmt: StmtView,
    current: BlockId,
    limit: int,
)
    requires
        current.0 < g.len(),
    ensures
        g.len() <= graph_stmt(ast, g, stmt, current, limit).0.len(),
        graph_stmt(ast, g, stmt, current, limit).1.0 < graph_stmt(
            ast,
            g,
            stmt,
            current,
            limit,
        ).0.len(),
    decreases limit, 1int, stmt, 0int,
{
    match stmt {
        StmtView::Expr(expr_id) => {
            if expr_id.0 < limit && ast.nodes[expr_id.0 as int] is If {
                let node = ast.nodes[expr_id.0 as int];
                lemma_arms_len(
                    ast,
                    g.push(fresh()),
                    node->If_0,
                    0,
                    node->If_1,
                    current,
                    next_id(g),
                    expr_id.0 as int,
                );
            }
        },
        StmtView::While(cond, body) => {
            let (g1, header, body_block, exit) = loop_head(g, current, cond);
            lemma_block_len(ast, g1, body, body_block, limit);
        },
        StmtView::Loop(body, cond, until) => {
            let body_block = next_id(g);
            let g1 = with_terminator(
                g.push(fresh()).push(fresh()),
                current,
                Terminator::Goto(body_block),
            );
            lemma_block_len(ast, g1, body, body_block, limit);
        },
        StmtView::For(var, source, body) => {
            lemma_rounds_len(ast, g, seq![var], source, body, current, limit);
        },
        StmtView::ForArray(binders, source, body) => {
            lemma_rounds_len(ast, g, binders, source, body, current, limit);
        },
        _ => {},
    }
}

proof fn lemma_rounds_len(
    ast: AstView,
    g: Seq<BlockData>,
    binders: Seq<SymId>,
    source: ExprId,
    body: BlockView,
    current: BlockId,
    limit: int,
)
    requires
        current.0 < g.len(),
    ensures
        ({
            let (h, end) = counted_loop(ast, g, binders, source, body, current, limit);
            g.len() + 3 <= h.len() && end.0 < h.len()
        }),
    decreases limit, 1int, body, body.stmts.len() + 2,
{
    let g0 = with_action(g, current, ActionView::Evaluate(source));
    let (g1, header, body_block, exit) = loop_head(g0, current, source);
    lemma_binds_len(g1, body_block, binders, binders.len() as int);
    lemma_block_len(
        ast,
        with_binds(g1, body_block, binders, binders.len() as int),
        body,
        body_block,
        limit,
    );
}

proof fn lemma_arms_len(
    ast: AstView,
    g: Seq<BlockData>,
    arms: Seq<IfArmView>,
    from: int,
    else_block: Option<BlockView>,
    testing: BlockId,
    merge: BlockId,
    limit: int,
)
    requires
        testing.0 < g.len(),
        merge.0 < g.len(),
    ensures
        ({
            let (h, end) = graph_arms(ast, g, arms, from, else_block, testing, merge, limit);
            g.len() <= h.len() && end == merge
        }),
    decreases limit, 2int, ast, arms.len() - from,
{
    if from < 0 || from >= arms.len() {
        if let Some(body) = else_block {
            lemma_block_len(ast, g, body, testing, limit);
        }
    } else {
        let arm = arms[from];
        let then_block = next_id(g);
        let next = BlockId((g.len() + 1) as usize);
        let g1 = with_terminator(
            g.push(fresh()).push(fresh()),
            testing,
            Terminator::Branch { cond: arm.cond, then_block, else_block: next },
        );
        let (g2, end) = graph_block(ast, g1, arm.body, then_block, limit);
        lemma_block_len(ast, g1, arm.body, then_block, limit);
        lemma_arms_len(
            ast,
            with_terminator(g2, end, Terminator::Goto(merge)),
            arms,
            from + 1,
            else_block,
            next,
            merge,
            limit,
        );
    }
}

proof fn lemma_block_len(
    ast: AstView,
    g: Seq<BlockData>,
    block: BlockView,
    current: BlockId,
    limit: int,
)
    requires
        current.0 < g.len(),
    ensures
        ({
            let (h, end) = graph_block(ast, g, block, current, limit);
            g.len() <= h.len() && end.0 < h.len()
        }),
    decreases limit, 1int, block, block.stmts.len() + 1,
{
    lemma_stmts_len(ast, g, block, 0, current, limit);
}

proof fn lemma_stmts_len(
    ast: AstView,
    g: Seq<BlockData>,
    block: BlockView,
    from: int,
    current: BlockId,
    limit: int,
)
    requires
        current.0 < g.len(),
    ensures
        ({
            let (h, end) = graph_stmts(ast, g, block, from, current, limit);
            g.len() <= h.len() && end.0 < h.len()
        }),
    decreases limit, 1int, block, block.stmts.len() - from,
{
    if 0 <= from < block.stmts.len() {
        let (g1, next) = graph_stmt(ast, g, block.stmts[from], current, limit);
        lemma_stmt_len(ast, g, block.stmts[from], current, limit);
        lemma_stmts_len(ast, g1, block, from + 1, next, limit);
    }
}

// ---------------------------------------------------------------------------
// Runs are paths
// ---------------------------------------------------------------------------

/// Every run of a statement is a path through what is built for it, from where it was built on to
/// where control leaves it.
pub proof fn statements_run_along_paths(
    ast: AstView,
    g: Seq<BlockData>,
    stmt: StmtView,
    current: BlockId,
    limit: int,
    ev: Seq<Event>,
)
    requires
        current.0 < g.len(),
        g[current.0 as int].terminator == Terminator::Exit,
        graph_stmt(ast, g, stmt, current, limit).0.len() <= usize::MAX,
    ensures
        ({
            let (h, end) = graph_stmt(ast, g, stmt, current, limit);
            &&& grown(g, current, h, end)
            &&& runs_stmt(ast, stmt, ev, limit) ==> leads(
                h,
                end_of(g, current),
                ev,
                end_of(h, end),
            )
        }),
    decreases limit, 1int, stmt, 0int, 0int,
{
    match stmt {
        StmtView::Expr(expr_id) => {
            if expr_id.0 < limit && ast.nodes[expr_id.0 as int] is If {
                lemma_if_path(ast, g, expr_id, current, ev);
            } else {
                lemma_act(g, current, ActionView::Statement(stmt));
            }
        },
        StmtView::While(cond, body) => {
            lemma_while_path(ast, g, cond, body, current, limit, ev);
        },
        StmtView::Loop(body, cond, until) => {
            lemma_loop_path(ast, g, body, cond, until, current, limit, ev);
        },
        StmtView::For(var, source, body) => {
            lemma_rounds_path(ast, g, seq![var], source, body, current, limit, ev);
        },
        StmtView::ForArray(binders, source, body) => {
            lemma_rounds_path(ast, g, binders, source, body, current, limit, ev);
        },
        _ => {
            lemma_act(g, current, ActionView::Statement(stmt));
        },
    }
}

proof fn lemma_if_path(
    ast: AstView,
    g: Seq<BlockData>,
    expr_id: ExprId,
    current: BlockId,
    ev: Seq<Event>,
)
    requires
        current.0 < g.len(),
        g[current.0 as int].terminator == Terminator::Exit,
        ast.nodes[expr_id.0 as int] is If,
        ({
            let node = ast.nodes[expr_id.0 as int];
            graph_arms(
                ast,
                g.push(fresh()),
                node->If_0,
                0,
                node->If_1,
                current,
                next_id(g),
                expr_id.0 as int,
            ).0.len() <= usize::MAX
        }),
    ensures
        ({
            let node = ast.nodes[expr_id.0 as int];
            let (h, end) = graph_arms(
                ast,
                g.push(fresh()),
                node->If_0,
                0,
                node->If_1,
                current,
                next_id(g),
                expr_id.0 as int,
            );
            &&& grown(g, current, h, end)
            &&& runs_arms(ast, node->If_0, 0, node->If_1, ev, expr_id.0 as int) ==> leads(
                h,
                end_of(g, current),
                ev,
                end_of(h, end),
            )
        }),
    decreases expr_id.0 as int, 3int, ast, 0int, 0int,
{
    let node = ast.nodes[expr_id.0 as int];
    let g0 = g.push(fresh());
    lemma_arms_len(
        ast,
        g0,
        node->If_0,
        0,
        node->If_1,
        current,
        next_id(g),
        expr_id.0 as int,
    );
    lemma_arms_path(
        ast,
        g0,
        node->If_0,
        0,
        node->If_1,
        current,
        next_id(g),
        expr_id.0 as int,
        ev,
    );
    let (h, end) = graph_arms(
        ast,
        g0,
        node->If_0,
        0,
        node->If_1,
        current,
        next_id(g),
        expr_id.0 as int,
    );
    assert forall|b: int| 0 <= b < g.len() && b != current.0 implies #[trigger] h[b] == g[b] by {
        assert(g0[b] == g[b]);
    }
}

/// Between the arms of an `if`: blocks that were there are as they were, but for the one that tests
/// and goes on.
proof fn lemma_arms_path(
    ast: AstView,
    g: Seq<BlockData>,
    arms: Seq<IfArmView>,
    from: int,
    else_block: Option<BlockView>,
    testing: BlockId,
    merge: BlockId,
    limit: int,
    ev: Seq<Event>,
)
    requires
        testing.0 < g.len(),
        merge.0 < g.len(),
        testing != merge,
        g[testing.0 as int].terminator == Terminator::Exit,
        g[merge.0 as int] == fresh(),
        0 <= from,
        graph_arms(ast, g, arms, from, else_block, testing, merge, limit).0.len() <= usize::MAX,
    ensures
        ({
            let (h, end) = graph_arms(ast, g, arms, from, else_block, testing, merge, limit);
            &&& end == merge
            &&& extended(g, testing, h)
            &&& h[merge.0 as int] == fresh()
            &&& runs_arms(ast, arms, from, else_block, ev, limit) ==> leads(
                h,
                end_of(g, testing),
                ev,
                start_of(merge),
            )
        }),
    decreases limit, 2int, ast, arms.len() - from, 0int,
{
    let (h, last) = graph_arms(ast, g, arms, from, else_block, testing, merge, limit);
    lemma_arms_len(ast, g, arms, from, else_block, testing, merge, limit);
    if from >= arms.len() {
        let (g1, end) = match else_block {
            Some(body) => graph_block(ast, g, body, testing, limit),
            None => (g, testing),
        };
        match else_block {
            Some(body) => {
                lemma_block_len(ast, g, body, testing, limit);
                lemma_block_path(ast, g, body, testing, limit, ev);
            },
            None => {
                lemma_here(g, end_of(g, testing));
            },
        }
        assert(h == with_terminator(g1, end, Terminator::Goto(merge)));
        assert(g1[merge.0 as int] == fresh());
        assert(end != merge);
        lemma_ended(g, testing, g1, end, Terminator::Goto(merge));
        lemma_goto(h, end, merge);
        if runs_arms(ast, arms, from, else_block, ev, limit) {
            if else_block is None {
                assert(ev =~= Seq::empty());
            }
            lemma_leads_extended(g1, end, h, end_of(g, testing), ev, end_of(g1, end));
            lemma_leads_further(
                h,
                end_of(g, testing),
                ev,
                end_of(h, end),
                Seq::empty(),
                start_of(merge),
            );
            assert(ev + Seq::empty() =~= ev);
        }
    } else {
        let arm = arms[from];
        let then_block = next_id(g);
        let next = BlockId((g.len() + 1) as usize);
        let branch = Terminator::Branch { cond: arm.cond, then_block, else_block: next };
        let g1 = with_terminator(g.push(fresh()).push(fresh()), testing, branch);
        let (g2, end) = graph_block(ast, g1, arm.body, then_block, limit);
        let g3 = with_terminator(g2, end, Terminator::Goto(merge));
        lemma_block_len(ast, g1, arm.body, then_block, limit);
        lemma_arms_len(ast, g3, arms, from + 1, else_block, next, merge, limit);
        let rest = ev.skip(1);
        lemma_block_path(ast, g1, arm.body, then_block, limit, rest);
        lemma_ended(g1, then_block, g2, end, Terminator::Goto(merge));
        assert(g1[merge.0 as int] == fresh() && g2[merge.0 as int] == g1[merge.0 as int]);
        assert(g1[next.0 as int] == fresh() && g2[next.0 as int] == g1[next.0 as int]);
        assert(g3[merge.0 as int] == fresh() && g3[next.0 as int] == fresh());
        assert(g3[testing.0 as int] == g1[testing.0 as int]);
        lemma_arms_path(ast, g3, arms, from + 1, else_block, next, merge, limit, rest);
        assert(extended(g, testing, h)) by {
            assert forall|b: int| 0 <= b < g.len() && b != testing.0 implies #[trigger] h[b]
                == g[b] by {
                assert(h[b] == g3[b]);
                assert(g2[b] == g1[b]);
            }
            assert(h[testing.0 as int] == g3[testing.0 as int]);
        }
        if runs_arms(ast, arms, from, else_block, ev, limit) {
            let holds = ev[0] == Event::Test(arm.cond, true);
            assert(end_of(h, testing) == end_of(g, testing));
            lemma_test(h, testing, arm.cond, then_block, next, holds);
            let first = seq![Event::Test(arm.cond, holds)];
            assert(ev =~= first + rest);
            if holds && runs_block(ast, arm.body, rest, limit) {
                lemma_leads_extended(g2, end, g3, end_of(g1, then_block), rest, end_of(g2, end));
                lemma_goto(g3, end, merge);
                lemma_leads_further(
                    g3,
                    end_of(g1, then_block),
                    rest,
                    end_of(g3, end),
                    Seq::empty(),
                    start_of(merge),
                );
                assert(rest + Seq::empty() =~= rest);
                lemma_leads_extended(
                    g3,
                    next,
                    h,
                    end_of(g1, then_block),
                    rest,
                    start_of(merge),
                );
                assert(end_of(g1, then_block) == start_of(then_block));
                lemma_leads_further(
                    h,
                    end_of(g, testing),
                    first,
                    start_of(then_block),
                    rest,
                    start_of(merge),
                );
            } else {
                assert(end_of(g3, next) == start_of(next));
                lemma_leads_further(
                    h,
                    end_of(g, testing),
                    first,
                    start_of(next),
                    rest,
                    start_of(merge),
                );
            }
        }
    }
}

/// The end of a construct decided.
proof fn lemma_ended(
    g: Seq<BlockData>,
    current: BlockId,
    h: Seq<BlockData>,
    end: BlockId,
    terminator: Terminator,
)
    requires
        grown(g, current, h, end),
    ensures
        ({
            let k = with_terminator(h, end, terminator);
            &&& extended(h, end, k)
            &&& extended(g, current, k)
            &&& k.len() == h.len()
            &&& end_of(k, end) == end_of(h, end)
            &&& k[end.0 as int].terminator == terminator
        }),
{
    let k = with_terminator(h, end, terminator);
    assert forall|b: int| 0 <= b < g.len() && b != current.0 implies #[trigger] k[b] == g[b] by {
        assert(h[b] == g[b]);
    }
}

proof fn lemma_while_path(
    ast: AstView,
    g: Seq<BlockData>,
    cond: ExprId,
    body: BlockView,
    current: BlockId,
    limit: int,
    ev: Seq<Event>,
)
    requires
        current.0 < g.len(),
        g[current.0 as int].terminator == Terminator::Exit,
        ({
            let (g1, header, body_block, exit) = loop_head(g, current, cond);
            graph_block(ast, g1, body, body_block, limit).0.len() <= usize::MAX
        }),
    ensures
        ({
            let (g1, header, body_block, exit) = loop_head(g, current, cond);
            let (g2, end) = graph_block(ast, g1, body, body_block, limit);
            let h = with_terminator(g2, end, Terminator::Goto(header));
            &&& grown(g, current, h, exit)
            &&& runs_while(ast, cond, body, ev, limit) ==> leads(
                h,
                end_of(g, current),
                ev,
                end_of(h, exit),
            )
        }),
    decreases limit, 1int, body, body.stmts.len() + 3, 0int,
{
    let (g1, header, body_block, exit) = loop_head(g, current, cond);
    let (g2, end) = graph_block(ast, g1, body, body_block, limit);
    let h = with_terminator(g2, end, Terminator::Goto(header));
    lemma_block_len(ast, g1, body, body_block, limit);
    lemma_block_path(ast, g1, body, body_block, limit, Seq::empty());
    lemma_ended(g1, body_block, g2, end, Terminator::Goto(header));
    lemma_head(g, current, cond, h);
    if runs_while(ast, cond, body, ev, limit) {
        lemma_while_rounds(ast, g1, cond, body, header, body_block, exit, limit, ev);
        lemma_goto(h, current, header);
        lemma_leads_further(
            h,
            end_of(g, current),
            Seq::empty(),
            start_of(header),
            ev,
            start_of(exit),
        );
        assert(Seq::empty() + ev =~= ev);
    }
}

/// The blocks of a loop are as they were made when its body has been built.
proof fn lemma_head(g: Seq<BlockData>, current: BlockId, cond: ExprId, h: Seq<BlockData>)
    requires
        current.0 < g.len(),
        g[current.0 as int].terminator == Terminator::Exit,
        h.len() <= usize::MAX,
        ({
            let (g1, header, body_block, exit) = loop_head(g, current, cond);
            extended(g1, body_block, h)
        }),
    ensures
        ({
            let (g1, header, body_block, exit) = loop_head(g, current, cond);
            &&& header.0 == g.len()
            &&& body_block.0 == g.len() + 1
            &&& exit.0 == g.len() + 2
            &&& g1.len() == g.len() + 3
            &&& grown(g, current, h, exit)
            &&& h[current.0 as int].terminator == Terminator::Goto(header)
            &&& h[current.0 as int].actions == g[current.0 as int].actions
            &&& h[header.0 as int] == (BlockData {
                actions: Seq::empty(),
                terminator: Terminator::Branch { cond, then_block: body_block, else_block: exit },
            })
            &&& g1[body_block.0 as int] == fresh()
            &&& h[exit.0 as int] == fresh()
        }),
{
    let (g1, header, body_block, exit) = loop_head(g, current, cond);
    assert(h[exit.0 as int] == g1[exit.0 as int]);
    assert(h[header.0 as int] == g1[header.0 as int]);
    assert(h[current.0 as int] == g1[current.0 as int]);
    assert forall|b: int| 0 <= b < g.len() && b != current.0 implies #[trigger] h[b] == g[b] by {
        assert(h[b] == g1[b]);
    }
}

proof fn lemma_while_rounds(
    ast: AstView,
    g1: Seq<BlockData>,
    cond: ExprId,
    body: BlockView,
    header: BlockId,
    body_block: BlockId,
    exit: BlockId,
    limit: int,
    ev: Seq<Event>,
)
    requires
        body_block.0 < g1.len(),
        header.0 < g1.len(),
        header != body_block,
        g1[body_block.0 as int] == fresh(),
        g1[header.0 as int] == (BlockData {
            actions: Seq::empty(),
            terminator: Terminator::Branch { cond, then_block: body_block, else_block: exit },
        }),
        graph_block(ast, g1, body, body_block, limit).0.len() <= usize::MAX,
        runs_while(ast, cond, body, ev, limit),
    ensures
        ({
            let (g2, end) = graph_block(ast, g1, body, body_block, limit);
            let h = with_terminator(g2, end, Terminator::Goto(header));
            leads(h, start_of(header), ev, start_of(exit))
        }),
    decreases limit, 1int, body, body.stmts.len() + 2, ev.len(),
{
    let (g2, end) = graph_block(ast, g1, body, body_block, limit);
    let h = with_terminator(g2, end, Terminator::Goto(header));
    lemma_block_path(ast, g1, body, body_block, limit, Seq::empty());
    lemma_ended(g1, body_block, g2, end, Terminator::Goto(header));
    assert(h[header.0 as int] == g1[header.0 as int]);
    assert(end_of(h, header) == start_of(header));
    if ev == seq![Event::Test(cond, false)] {
        lemma_test(h, header, cond, body_block, exit, false);
    } else {
        let k = choose|k: int|
            1 <= k <= ev.len() && runs_block(ast, body, ev.subrange(1, k), limit) && runs_while(
                ast,
                cond,
                body,
                #[trigger] ev.skip(k),
                limit,
            );
        let piece = ev.subrange(1, k);
        lemma_test(h, header, cond, body_block, exit, true);
        lemma_block_path(ast, g1, body, body_block, limit, piece);
        lemma_leads_extended(g2, end, h, start_of(body_block), piece, end_of(g2, end));
        lemma_goto(h, end, header);
        lemma_while_rounds(ast, g1, cond, body, header, body_block, exit, limit, ev.skip(k));
        let first = seq![Event::Test(cond, true)];
        lemma_leads_further(h, start_of(header), first, start_of(body_block), piece, end_of(h, end));
        lemma_leads_further(
            h,
            start_of(header),
            first + piece,
            end_of(h, end),
            Seq::empty(),
            start_of(header),
        );
        lemma_leads_further(
            h,
            start_of(header),
            first + piece + Seq::empty(),
            start_of(header),
            ev.skip(k),
            start_of(exit),
        );
        assert(first + piece + Seq::empty() + ev.skip(k) =~= ev);
    }
}

proof fn lemma_loop_path(
    ast: AstView,
    g: Seq<BlockData>,
    body: BlockView,
    cond: ExprId,
    until: bool,
    current: BlockId,
    limit: int,
    ev: Seq<Event>,
)
    requires
        current.0 < g.len(),
        g[current.0 as int].terminator == Terminator::Exit,
        graph_stmt(ast, g, StmtView::Loop(body, cond, until), current, limit).0.len()
            <= usize::MAX,
    ensures
        ({
            let (h, exit) = graph_stmt(
                ast,
                g,
                StmtView::Loop(body, cond, until),
                current,
                limit,
            );
            &&& grown(g, current, h, exit)
            &&& runs_loop(ast, body, cond, until, ev, limit) ==> leads(
                h,
                end_of(g, current),
                ev,
                end_of(h, exit),
            )
        }),
    decreases limit, 1int, body, body.stmts.len() + 3, 0int,
{
    let stmt = StmtView::Loop(body, cond, until);
    let (h, exit) = graph_stmt(ast, g, stmt, current, limit);
    let body_block = next_id(g);
    let g1 = with_terminator(
        g.push(fresh()).push(fresh()),
        current,
        Terminator::Goto(body_block),
    );
    let (g2, end) = graph_block(ast, g1, body, body_block, limit);
    let terminator = if until {
        Terminator::Branch { cond, then_block: exit, else_block: body_block }
    } else {
        Terminator::Branch { cond, then_block: body_block, else_block: exit }
    };
    lemma_block_len(ast, g1, body, body_block, limit);
    assert(h == with_terminator(g2, end, terminator));
    lemma_block_path(ast, g1, body, body_block, limit, Seq::empty());
    lemma_ended(g1, body_block, g2, end, terminator);
    assert(h[exit.0 as int] == g1[exit.0 as int]);
    assert(h[current.0 as int] == g1[current.0 as int]);
    assert(grown(g, current, h, exit)) by {
        assert forall|b: int| 0 <= b < g.len() && b != current.0 implies #[trigger] h[b] == g[b] by {
            assert(h[b] == g1[b]);
        }
    }
    if runs_loop(ast, body, cond, until, ev, limit) {
        lemma_loop_rounds(ast, g1, body, cond, until, body_block, exit, limit, ev);
        lemma_goto(h, current, body_block);
        lemma_leads_further(
            h,
            end_of(g, current),
            Seq::empty(),
            start_of(body_block),
            ev,
            start_of(exit),
        );
        assert(Seq::empty() + ev =~= ev);
    }
}

proof fn lemma_loop_rounds(
    ast: AstView,
    g1: Seq<BlockData>,
    body: BlockView,
    cond: ExprId,
    until: bool,
    body_block: BlockId,
    exit: BlockId,
    limit: int,
    ev: Seq<Event>,
)
    requires
        body_block.0 < g1.len(),
        g1[body_block.0 as int] == fresh(),
        graph_block(ast, g1, body, body_block, limit).0.len() <= usize::MAX,
        runs_loop(ast, body, cond, until, ev, limit),
    ensures
        ({
            let (g2, end) = graph_block(ast, g1, body, body_block, limit);
            let h = with_terminator(
                g2,
                end,
                if until {
                    Terminator::Branch { cond, then_block: exit, else_block: body_block }
                } else {
                    Terminator::Branch { cond, then_block: body_block, else_block: exit }
                },
            );
            leads(h, start_of(body_block), ev, start_of(exit))
        }),
    decreases limit, 1int, body, body.stmts.len() + 2, ev.len(),
{
    let (g2, end) = graph_block(ast, g1, body, body_block, limit);
    let then_block = if until {
        exit
    } else {
        body_block
    };
    let else_block = if until {
        body_block
    } else {
        exit
    };
    let terminator = Terminator::Branch { cond, then_block, else_block };
    let h = with_terminator(g2, end, terminator);
    let k = choose|k: int|
        0 <= k < ev.len() && runs_block(ast, body, #[trigger] ev.take(k), limit) && {
            ||| k == ev.len() - 1 && ev[k] == Event::Test(cond, until)
            ||| ev[k] == Event::Test(cond, !until) && runs_loop(
                ast,
                body,
                cond,
                until,
                ev.skip(k + 1),
                limit,
            )
        };
    let piece = ev.take(k);
    lemma_block_path(ast, g1, body, body_block, limit, piece);
    lemma_ended(g1, body_block, g2, end, terminator);
    lemma_leads_extended(g2, end, h, start_of(body_block), piece, end_of(g2, end));
    if k == ev.len() - 1 && ev[k] == Event::Test(cond, until) {
        lemma_test(h, end, cond, then_block, else_block, until);
        let last = seq![Event::Test(cond, until)];
        lemma_leads_further(h, start_of(body_block), piece, end_of(h, end), last, start_of(exit));
        assert(piece + last =~= ev);
    } else {
        lemma_test(h, end, cond, then_block, else_block, !until);
        let last = seq![Event::Test(cond, !until)];
        lemma_leads_further(
            h,
            start_of(body_block),
            piece,
            end_of(h, end),
            last,
            start_of(body_block),
        );
        lemma_loop_rounds(ast, g1, body, cond, until, body_block, exit, limit, ev.skip(k + 1));
        lemma_leads_further(
            h,
            start_of(body_block),
            piece + last,
            start_of(body_block),
            ev.skip(k + 1),
            start_of(exit),
        );
        assert(piece + last + ev.skip(k + 1) =~= ev);
    }
}

proof fn lemma_rounds_path(
    ast: AstView,
    g: Seq<BlockData>,
    binders: Seq<SymId>,
    source: ExprId,
    body: BlockView,
    current: BlockId,
    limit: int,
    ev: Seq<Event>,
)
    requires
        current.0 < g.len(),
        g[current.0 as int].terminator == Terminator::Exit,
        counted_loop(ast, g, binders, source, body, current, limit).0.len() <= usize::MAX,
    ensures
        ({
            let (h, exit) = counted_loop(ast, g, binders, source, body, current, limit);
            &&& grown(g, current, h, exit)
            &&& ev.len() > 0 && ev[0] == Event::Act(ActionView::Evaluate(source)) && runs_rounds(
                ast,
                binders,
                source,
                body,
                ev.skip(1),
                limit,
            ) ==> leads(h, end_of(g, current), ev, end_of(h, exit))
        }),
    decreases limit, 1int, body, body.stmts.len() + 3, 0int,
{
    let (h, last) = counted_loop(ast, g, binders, source, body, current, limit);
    let n = binders.len() as int;
    let g0 = with_action(g, current, ActionView::Evaluate(source));
    let (g1, header, body_block, exit) = loop_head(g0, current, source);
    let gb = with_binds(g1, body_block, binders, n);
    let (g2, end) = graph_block(ast, gb, body, body_block, limit);
    lemma_act(g, current, ActionView::Evaluate(source));
    lemma_binds_len(g1, body_block, binders, n);
    lemma_block_len(ast, gb, body, body_block, limit);
    assert(h == with_terminator(g2, end, Terminator::Goto(header)));
    assert(g1[body_block.0 as int] == fresh());
    lemma_bound(g1, body_block, binders, n);
    lemma_block_path(ast, gb, body, body_block, limit, Seq::empty());
    lemma_ended(gb, body_block, g2, end, Terminator::Goto(header));
    lemma_grown_further(g1, body_block, gb, body_block, g2, end);
    lemma_ended(g1, body_block, g2, end, Terminator::Goto(header));
    lemma_head(g0, current, source, h);
    lemma_grown_further(g, current, g0, current, h, exit);
    if ev.len() > 0 && ev[0] == Event::Act(ActionView::Evaluate(source)) && runs_rounds(
        ast,
        binders,
        source,
        body,
        ev.skip(1),
        limit,
    ) {
        let rest = ev.skip(1);
        let first = seq![Event::Act(ActionView::Evaluate(source))];
        lemma_rounds(
            ast,
            g1,
            binders,
            source,
            body,
            header,
            body_block,
            exit,
            limit,
            rest,
        );
        lemma_goto(h, current, header);
        lemma_leads_extended(g0, current, h, end_of(g, current), first, end_of(g0, current));
        lemma_leads_further(
            h,
            end_of(g, current),
            first,
            end_of(h, current),
            Seq::empty(),
            start_of(header),
        );
        lemma_leads_further(
            h,
            end_of(g, current),
            first + Seq::empty(),
            start_of(header),
            rest,
            start_of(exit),
        );
        assert(first + Seq::empty() + rest =~= ev);
    }
}

proof fn lemma_rounds(
    ast: AstView,
    g1: Seq<BlockData>,
    binders: Seq<SymId>,
    source: ExprId,
    body: BlockView,
    header: BlockId,
    body_block: BlockId,
    exit: BlockId,
    limit: int,
    ev: Seq<Event>,
)
    requires
        body_block.0 < g1.len(),
        header.0 < g1.len(),
        header != body_block,
        g1[body_block.0 as int] == fresh(),
        g1[header.0 as int] == (BlockData {
            actions: Seq::empty(),
            terminator: Terminator::Branch {
                cond: source,
                then_block: body_block,
                else_block: exit,
            },
        }),
        graph_block(
            ast,
            with_binds(g1, body_block, binders, binders.len() as int),
            body,
            body_block,
            limit,
        ).0.len() <= usize::MAX,
        runs_rounds(ast, binders, source, body, ev, limit),
    ensures
        ({
            let gb = with_binds(g1, body_block, binders, binders.len() as int);
            let (g2, end) = graph_block(ast, gb, body, body_block, limit);
            let h = with_terminator(g2, end, Terminator::Goto(header));
            leads(h, start_of(header), ev, start_of(exit))
        }),
    decreases limit, 1int, body, body.stmts.len() + 2, ev.len(),
{
    let n = binders.len() as int;
    let gb = with_binds(g1, body_block, binders, n);
    let (g2, end) = graph_block(ast, gb, body, body_block, limit);
    let h = with_terminator(g2, end, Terminator::Goto(header));
    lemma_bound(g1, body_block, binders, n);
    lemma_block_path(ast, gb, body, body_block, limit, Seq::empty());
    lemma_ended(gb, body_block, g2, end, Terminator::Goto(header));
    assert(gb[header.0 as int] == g1[header.0 as int]);
    assert(h[header.0 as int] == gb[header.0 as int]);
    assert(end_of(h, header) == start_of(header));
    if ev == seq![Event::Test(source, false)] {
        lemma_test(h, header, source, body_block, exit, false);
    } else {
        let k = choose|k: int|
            1 + n <= k <= ev.len() && runs_block(
                ast,
                body,
                ev.subrange(1 + n, k),
                limit,
            ) && runs_rounds(ast, binders, source, body, #[trigger] ev.skip(k), limit);
        let piece = ev.subrange(1 + n, k);
        let binds = bind_events(binders);
        assert(binds.take(n) =~= binds);
        lemma_test(h, header, source, body_block, exit, true);
        lemma_leads_extended(gb, body_block, h, start_of(body_block), binds, end_of(gb, body_block));
        lemma_block_path(ast, gb, body, body_block, limit, piece);
        lemma_leads_extended(g2, end, h, end_of(gb, body_block), piece, end_of(g2, end));
        lemma_goto(h, end, header);
        lemma_rounds(
            ast,
            g1,
            binders,
            source,
            body,
            header,
            body_block,
            exit,
            limit,
            ev.skip(k),
        );
        let first = seq![Event::Test(source, true)];
        lemma_leads_further(
            h,
            start_of(header),
            first,
            start_of(body_block),
            binds,
            end_of(gb, body_block),
        );
        lemma_leads_further(
            h,
            start_of(header),
            first + binds,
            end_of(gb, body_block),
            piece,
            end_of(h, end),
        );
        lemma_leads_further(
            h,
            start_of(header),
            first + binds + piece,
            end_of(h, end),
            Seq::empty(),
            start_of(header),
        );
        lemma_leads_further(
            h,
            start_of(header),
            first + binds + piece + Seq::empty(),
            start_of(header),
            ev.skip(k),
            start_of(exit),
        );
        assert(ev.subrange(1, 1 + n) == binds);
        assert(ev =~= first + ev.subrange(1, 1 + n) + piece + Seq::empty() + ev.skip(k));
    }
}

proof fn lemma_block_path(
    ast: AstView,
    g: Seq<BlockData>,
    block: BlockView,
    current: BlockId,
    limit: int,
    ev: Seq<Event>,
)
    requires
        current.0 < g.len(),
        g[current.0 as int].terminator == Terminator::Exit,
        graph_block(ast, g, block, current, limit).0.len() <= usize::MAX,
    ensures
        ({
            let (h, end) = graph_block(ast, g, block, current, limit);
            &&& grown(g, current, h, end)
            &&& runs_block(ast, block, ev, limit) ==> leads(
                h,
                end_of(g, current),
                ev,
                end_of(h, end),
            )
        }),
    decreases limit, 1int, block, block.stmts.len() + 1, 0int,
{
    let (g1, end) = graph_stmts(ast, g, block, 0, current, limit);
    lemma_stmts_len(ast, g, block, 0, current, limit);
    match block.result {
        Some(result) => {
            let part = if ev.len() > 0 {
                ev.drop_last()
            } else {
                ev
            };
            let action = ActionView::Evaluate(result);
            let h = with_action(g1, end, action);
            lemma_stmts_path(ast, g, block, 0, current, limit, part);
            lemma_act(g1, end, action);
            lemma_grown_further(g, current, g1, end, h, end);
            if runs_block(ast, block, ev, limit) {
                let last = seq![Event::Act(action)];
                lemma_leads_extended(g1, end, h, end_of(g, current), part, end_of(g1, end));
                lemma_leads_further(
                    h,
                    end_of(g, current),
                    part,
                    end_of(g1, end),
                    last,
                    end_of(h, end),
                );
                assert(part + last =~= ev);
            }
        },
        None => {
            lemma_stmts_path(ast, g, block, 0, current, limit, ev);
        },
    }
}

proof fn lemma_stmts_path(
    ast: AstView,
    g: Seq<BlockData>,
    block: BlockView,
    from: int,
    current: BlockId,
    limit: int,
    ev: Seq<Event>,
)
    requires
        current.0 < g.len(),
        g[current.0 as int].terminator == Terminator::Exit,
        0 <= from,
        graph_stmts(ast, g, block, from, current, limit).0.len() <= usize::MAX,
    ensures
        ({
            let (h, end) = graph_stmts(ast, g, block, from, current, limit);
            &&& grown(g, current, h, end)
            &&& runs_stmts(ast, block, from, ev, limit) ==> leads(
                h,
                end_of(g, current),
                ev,
                end_of(h, end),
            )
        }),
    decreases limit, 1int, block, block.stmts.len() - from, 0int,
{
    let (h, end) = graph_stmts(ast, g, block, from, current, limit);
    if from >= block.stmts.len() {
        lemma_here(g, end_of(g, current));
        if ev.len() == 0 {
            assert(ev =~= Seq::empty());
        }
    } else {
        let stmt = block.stmts[from];
        let (g1, next) = graph_stmt(ast, g, stmt, current, limit);
        lemma_stmt_len(ast, g, stmt, current, limit);
        lemma_stmts_len(ast, g1, block, from + 1, next, limit);
        let k = if runs_stmts(ast, block, from, ev, limit) {
            choose|k: int|
                0 <= k <= ev.len() && runs_stmt(ast, stmt, ev.take(k), limit) && runs_stmts(
                    ast,
                    block,
                    from + 1,
                    #[trigger] ev.skip(k),
                    limit,
                )
        } else {
            0
        };
        statements_run_along_paths(ast, g, stmt, current, limit, ev.take(k));
        lemma_stmts_path(ast, g1, block, from + 1, next, limit, ev.skip(k));
        lemma_grown_further(g, current, g1, next, h, end);
        if runs_stmts(ast, block, from, ev, limit) {
            lemma_leads_extended(g1, next, h, end_of(g, current), ev.take(k), end_of(g1, next));
            lemma_leads_further(
                h,
                end_of(g, current),
                ev.take(k),
                end_of(g1, next),
                ev.skip(k),
                end_of(h, end),
            );
            assert(ev.take(k) + ev.skip(k) =~= ev);
        }
    }
}

proof fn lemma_items_len(ast: AstView, g: Seq<BlockData>, from: int, current: BlockId)
    requires
        current.0 < g.len(),
    ensures
        ({
            let (h, end) = graph_items(ast, g, from, current);
            g.len() <= h.len() && end.0 < h.len()
        }),
    decreases ast.top_level.len() - from,
{
    if 0 <= from < ast.top_level.len() {
        match ast.top_level[from] {
            TopLevelView::Stmt(stmt) => {
                let (g1, next) = graph_stmt(ast, g, stmt, current, ast.nodes.len() as int);
                lemma_stmt_len(ast, g, stmt, current, ast.nodes.len() as int);
                lemma_items_len(ast, g1, from + 1, next);
            },
            TopLevelView::Func(_) => {
                lemma_items_len(ast, g, from + 1, current);
            },
        }
    }
}

proof fn lemma_items_path(
    ast: AstView,
    g: Seq<BlockData>,
    from: int,
    current: BlockId,
    ev: Seq<Event>,
)
    requires
        current.0 < g.len(),
        g[current.0 as int].terminator == Terminator::Exit,
        0 <= from,
        graph_items(ast, g, from, current).0.len() <= usize::MAX,
    ensures
        ({
            let (h, end) = graph_items(ast, g, from, current);
            &&& grown(g, current, h, end)
            &&& runs_items(ast, from, ev) ==> leads(h, end_of(g, current), ev, end_of(h, end))
        }),
    decreases ast.top_level.len() - from,
{
    let (h, end) = graph_items(ast, g, from, current);
    if from >= ast.top_level.len() {
        lemma_here(g, end_of(g, current));
        if ev.len() == 0 {
            assert(ev =~= Seq::empty());
        }
    } else {
        match ast.top_level[from] {
            TopLevelView::Func(_) => {
                lemma_items_path(ast, g, from + 1, current, ev);
            },
            TopLevelView::Stmt(stmt) => {
                let limit = ast.nodes.len() as int;
                let (g1, next) = graph_stmt(ast, g, stmt, current, limit);
                lemma_stmt_len(ast, g, stmt, current, limit);
                lemma_items_len(ast, g1, from + 1, next);
                let k = if runs_items(ast, from, ev) {
                    choose|k: int|
                        0 <= k <= ev.len() && #[trigger] runs_stmt(
                            ast,
                            stmt,
                            ev.take(k),
                            limit,
                        ) && runs_items(ast, from + 1, ev.skip(k))
                } else {
                    0
                };
                statements_run_along_paths(ast, g, stmt, current, limit, ev.take(k));
                lemma_items_path(ast, g1, from + 1, next, ev.skip(k));
                lemma_grown_further(g, current, g1, next, h, end);
                if runs_items(ast, from, ev) {
                    lemma_leads_extended(
                        g1,
                        next,
                        h,
                        end_of(g, current),
                        ev.take(k),
                        end_of(g1, next),
                    );
                    lemma_leads_further(
                        h,
                        end_of(g, current),
                        ev.take(k),
                        end_of(g1, next),
                        ev.skip(k),
                        end_of(h, end),
                    );
                    assert(ev.take(k) + ev.skip(k) =~= ev);
                }
            },
        }
    }
}

/// A path from a graph's entry performs these events and comes to a block that then leaves with
/// this result.
pub open spec fn leaves_by(cfg: CfgView, ev: Seq<Event>, result: Option<ExprId>) -> bool {
    exists|last: BlockId| #[trigger] leaves_at(cfg, ev, result, last)
}

pub open spec fn leaves_at(
    cfg: CfgView,
    ev: Seq<Event>,
    result: Option<ExprId>,
    last: BlockId,
) -> bool {
    &&& last.0 < cfg.blocks.len()
    &&& cfg.blocks[last.0 as int].terminator == Terminator::Return(result)
    &&& leads(cfg.blocks, start_of(cfg.entry), ev, end_of(cfg.blocks, last))
}

proof fn lemma_finished(
    g: Seq<BlockData>,
    last: BlockId,
    result: Option<ExprId>,
    ev: Seq<Event>,
)
    requires
        grown(seq![fresh()], BlockId(0), g, last),
        leads(g, start_of(BlockId(0)), ev, end_of(g, last)),
    ensures
        ({
            let h = with_terminator(g, last, Terminator::Return(result)).push(fresh());
            &&& last.0 < h.len()
            &&& h[last.0 as int].terminator == Terminator::Return(result)
            &&& leads(h, start_of(BlockId(0)), ev, end_of(h, last))
        }),
{
    let h = with_terminator(g, last, Terminator::Return(result)).push(fresh());
    assert(extended(g, last, h));
    lemma_leads_extended(g, last, h, start_of(BlockId(0)), ev, end_of(g, last));
}

/// Whatever a program does at its top level, with any number of rounds of each loop, is a path of
/// its graph from the entry to where it leaves.
pub proof fn programs_run_along_paths(ast: AstView, ev: Seq<Event>)
    requires
        entry_graph(ast).blocks.len() <= usize::MAX,
        runs_items(ast, 0, ev),
    ensures
        leaves_by(entry_graph(ast), ev, None),
{
    let start = seq![fresh()];
    let (g, last) = graph_items(ast, start, 0, BlockId(0));
    lemma_items_len(ast, start, 0, BlockId(0));
    lemma_items_path(ast, start, 0, BlockId(0), ev);
    assert(end_of(start, BlockId(0)) == start_of(BlockId(0)));
    lemma_finished(g, last, None, ev);
    assert(leaves_at(entry_graph(ast), ev, None, last));
}

/// Whatever a function does is a path of its graph from the entry to where it leaves with its
/// result.
pub proof fn functions_run_along_paths(ast: AstView, func: FuncDefView, ev: Seq<Event>)
    requires
        function_graph(ast, func).blocks.len() <= usize::MAX,
        runs_stmts(ast, func.body, 0, ev, ast.nodes.len() as int),
    ensures
        leaves_by(function_graph(ast, func), ev, func.body.result),
{
    let start = seq![fresh()];
    let limit = ast.nodes.len() as int;
    let (g, last) = graph_stmts(ast, start, func.body, 0, BlockId(0), limit);
    lemma_stmts_len(ast, start, func.body, 0, BlockId(0), limit);
    lemma_stmts_path(ast, start, func.body, 0, BlockId(0), limit, ev);
    assert(end_of(start, BlockId(0)) == start_of(BlockId(0)));
    lemma_finished(g, last, func.body.result, ev);
    assert(leaves_at(function_graph(ast, func), ev, func.body.result, last));
}

/// A step of a path out of a block goes to a successor of the block, every successor can be gone to
/// by such a step, and a block that leaves has the exit as its only successor.
pub proof fn steps_go_to_successors(cfg: CfgView, block: BlockId, next: BlockId)
    requires
        block.0 < cfg.blocks.len(),
    ensures
        (exists|ev: Seq<Event>| #[trigger]
            walk(cfg.blocks, end_of(cfg.blocks, block), ev, 1) == Some(start_of(next))) || (
        cfg.blocks[block.0 as int].terminator is Return && next == cfg.exit) <==> successors_of(
            cfg,
            block.0 as int,
        ).contains(next),
{
    let g = cfg.blocks;
    let ids = successors_of(cfg, block.0 as int);
    let spot = end_of(g, block);
    match g[block.0 as int].terminator {
        Terminator::Goto(target) => {
            let none = Seq::<Event>::empty();
            assert(walk(g, start_of(target), none, 0) == Some(start_of(target)));
            assert(walk(g, spot, none, 1) == Some(start_of(target)));
            assert(ids[0] == target);
            assert forall|ev: Seq<Event>| #[trigger]
                walk(g, spot, ev, 1) == Some(start_of(next)) implies next == target by {
                assert(walk(g, start_of(target), ev, 0) == walk(g, spot, ev, 1));
            }
        },
        Terminator::Branch { cond, then_block, else_block } => {
            let yes = seq![Event::Test(cond, true)];
            let no = seq![Event::Test(cond, false)];
            assert(yes.skip(1) =~= Seq::empty() && no.skip(1) =~= Seq::empty());
            assert(walk(g, start_of(then_block), yes.skip(1), 0) == Some(start_of(then_block)));
            assert(walk(g, start_of(else_block), no.skip(1), 0) == Some(start_of(else_block)));
            assert(walk(g, spot, yes, 1) == Some(start_of(then_block)));
            assert(walk(g, spot, no, 1) == Some(start_of(else_block)));
            assert(ids[0] == then_block && ids[1] == else_block);
            assert forall|ev: Seq<Event>| #[trigger]
                walk(g, spot, ev, 1) == Some(start_of(next)) implies next == then_block || next
                == else_block by {
                assert(walk(g, start_of(then_block), ev.skip(1), 0) == walk(g, spot, ev, 1)
                    || walk(g, start_of(else_block), ev.skip(1), 0) == walk(g, spot, ev, 1));
            }
        },
        Terminator::Return(_) => {
            assert(ids[0] == cfg.exit);
        },
        Terminator::Exit => {},
    }
}

} // verus!
