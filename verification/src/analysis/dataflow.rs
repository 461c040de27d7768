//! The dataflow framework: everything an analysis needs except the analysis itself.
//!
//! A *dataflow analysis* answers a question about every point in a program by propagating **facts**
//! along the control-flow graph until they stop changing. Three pieces define one:
//!
//! * a [`MergeableFact`] — what the analysis knows at a point, with a "nothing known yet" value and
//!   a merge for what two incoming paths knew;
//! * a [`Direction`] — forward along the edges (what has happened) or backward against them (what
//!   is still going to happen);
//! * a **transfer function** saying how one action changes a fact.
//!
//! [`solve`] then does the rest: start every block knowing nothing, put the boundary fact where
//! execution begins (or ends), and keep re-evaluating blocks whose input changed until nothing
//! does.

use crate::analysis::cfg::{
    predecessors_mirror_successors, predecessors_of, successors_of, Action, ActionView, BasicBlock,
    BlockData, BlockId, Cfg, CfgView, Terminator,
};
use crate::parser::ast::SymId;
use crate::symbols::{
    set_contains, set_insert, set_items, set_remove, symbol_set, SymbolSet,
};
use vstd::prelude::*;

verus! {

/// What [`solve`] needs from a fact type — and the whole of what it needs.
///
/// A *fact* is whatever an analysis knows at one point in the program: "execution can reach here",
/// "these bindings are still going to be read". Facts arrive at a point from several paths at once,
/// so the solver requires exactly two things and no others: a value for a point it has not examined
/// yet, and a way to combine what two paths knew that also says whether it learned anything.
///
/// That pair is why this is a trait rather than a couple of methods on each fact type — one
/// worklist solver then serves every analysis. Implementing this and [`Analysis`] is the entire
/// cost of adding a new one.
///
/// Compiler literature calls this structure a *join-semilattice with a least element*: facts
/// ordered by how much they say, where [`nothing_known`](Self::nothing_known) is the "bottom" and
/// [`merge`](Self::merge) is the "join". Those are the words to search for; the methods are spelled
/// here as what they do. What a fact says is modelled by the set of the things it knows.
pub trait MergeableFact: Clone + PartialEq {
    /// What this fact knows.
    spec fn known(&self) -> Set<int>;

    /// What is known about a point the solver has not examined yet: nothing.
    ///
    /// [`solve`] starts every block here, so merging it into another fact must add nothing.
    fn nothing_known() -> (fact: Self)
        ensures
            fact.known() == Set::<int>::empty(),
    ;

    /// Combines another path's fact into this one, returning whether this fact gained anything.
    ///
    /// [`solve`] relies on merging only ever *adding* information, never removing it.
    fn merge(&mut self, other: &Self) -> (gained: bool)
        ensures
            final(self).known() == old(self).known().union(other.known()),
            gained == (final(self).known() != old(self).known()),
    ;
}

/// Whether facts flow along the edges or against them.
#[derive(Debug, Clone, Copy, PartialEq, Eq, Structural)]
pub enum Direction {
    /// From entry towards exit: what is true about how a point was reached.
    Forward,
    /// From exit back towards entry: what is true about what happens after a point.
    Backward,
}

/// One analysis: a lattice, a direction, and the transfer functions over a block's contents.
pub trait Analysis<'ast> {
    type Fact: MergeableFact;

    /// Which way the facts flow.
    spec fn flow(&self) -> Direction;

    /// What the fact at the boundary knows.
    spec fn known_at_boundary(&self) -> Set<int>;

    /// What is known on the other side of an action.
    spec fn known_across_action(&self, action: ActionView, known: Set<int>) -> Set<int>;

    /// What is known on the other side of a terminator.
    spec fn known_across_terminator(&self, terminator: Terminator, known: Set<int>) -> Set<int>;

    /// The successors of a block that control can take.
    spec fn taken(&self, cfg: CfgView, block: int) -> Seq<BlockId>;

    /// Whether a block is one that this analysis can look at.
    spec fn understands(&self, data: BlockData) -> bool;

    /// Every successor taken is a successor.
    proof fn taken_are_successors(&self, cfg: CfgView, block: int)
        ensures
            forall|i: int|
                0 <= i < self.taken(cfg, block).len() ==> successors_of(cfg, block).contains(
                    #[trigger] self.taken(cfg, block)[i],
                ),
    ;

    fn direction(&self) -> (r: Direction)
        ensures
            r == self.flow(),
    ;

    /// The fact where the analysis starts — at the entry block for a forward analysis, at the exit
    /// for a backward one.
    fn boundary(&self) -> (fact: Self::Fact)
        ensures
            fact.known() == self.known_at_boundary(),
    ;

    /// How one action transforms a fact. For a backward analysis this is applied against program
    /// order, so it describes the same action seen from the other side.
    fn transfer_action(&self, action: &Action<'ast>, fact: &mut Self::Fact)
        requires
            exists|data: BlockData| #[trigger]
                self.understands(data) && data.actions.contains(action@),
        ensures
            final(fact).known() == self.known_across_action(action@, old(fact).known()),
    ;

    /// How a block's terminator transforms a fact — a `Branch` reads its condition, a `Return` its
    /// result expression.
    fn transfer_terminator(&self, terminator: &Terminator, fact: &mut Self::Fact)
        requires
            exists|data: BlockData| #[trigger]
                self.understands(data) && data.terminator == terminator,
        ensures
            final(fact).known() == self.known_across_terminator(*terminator, old(fact).known()),
    ;

    /// Which of `block_id`'s successors control can actually take.
    ///
    /// Every one of them, unless an analysis knows better: an analysis that can decide a condition
    /// before the program runs prunes the edge that is never taken, which is what makes anything
    /// unreachable at all. Whether an edge is feasible is an analysis's judgement rather than the
    /// graph's, so it lives here — the graph records what the program *says*.
    ///
    /// [`solve`] honours this in both directions: an edge dropped here carries no facts either way.
    fn live_successors(&self, cfg: &Cfg<'ast>, block_id: BlockId) -> (ids: Vec<BlockId>)
        requires
            block_id.0 < cfg@.blocks.len(),
            self.understands(cfg@.blocks[block_id.0 as int]),
        ensures
            ids@ == self.taken(cfg@, block_id.0 as int),
    ;
}

// ---------------------------------------------------------------------------
// What solving computes
// ---------------------------------------------------------------------------

/// How many block visits [`solve`] allows per block before it decides the analysis will never
/// converge.
///
/// A correct analysis over a lattice of finite height needs a small multiple of the block count. A
/// bound turns the one bug this framework cannot rule out — facts that never settle — into a
/// failure that can be seen instead of a hung process.
pub const VISIT_BUDGET_PER_BLOCK: usize = 64;

/// What is known behind the first `count` actions.
pub open spec fn across_actions<'ast, A: Analysis<'ast>>(
    analysis: &A,
    actions: Seq<ActionView>,
    count: int,
    known: Set<int>,
) -> Set<int>
    decreases count,
{
    if count <= 0 {
        known
    } else {
        analysis.known_across_action(
            actions[count - 1],
            across_actions(analysis, actions, count - 1, known),
        )
    }
}

/// What is known in front of the actions from `from` on, when `known` is known behind them.
pub open spec fn back_across_actions<'ast, A: Analysis<'ast>>(
    analysis: &A,
    actions: Seq<ActionView>,
    from: int,
    known: Set<int>,
) -> Set<int>
    decreases actions.len() - from,
{
    if from < 0 || from >= actions.len() {
        known
    } else {
        analysis.known_across_action(
            actions[from],
            back_across_actions(analysis, actions, from + 1, known),
        )
    }
}

/// What is known on the far side of a block, in the analysis's direction.
pub open spec fn across_block<'ast, A: Analysis<'ast>>(
    analysis: &A,
    data: BlockData,
    known: Set<int>,
) -> Set<int> {
    match analysis.flow() {
        Direction::Forward => analysis.known_across_terminator(
            data.terminator,
            across_actions(analysis, data.actions, data.actions.len() as int, known),
        ),
        Direction::Backward => back_across_actions(
            analysis,
            data.actions,
            0,
            analysis.known_across_terminator(data.terminator, known),
        ),
    }
}

/// Facts flow directly from the block `from` to the block `to`: along an edge that is taken, or
/// against one.
pub open spec fn flows<'ast, A: Analysis<'ast>>(
    cfg: CfgView,
    analysis: &A,
    from: int,
    to: int,
) -> bool {
    &&& 0 <= from < cfg.blocks.len()
    &&& 0 <= to < cfg.blocks.len()
    &&& match analysis.flow() {
        Direction::Forward => analysis.taken(cfg, from).contains(BlockId(to as usize)),
        Direction::Backward => analysis.taken(cfg, to).contains(BlockId(from as usize)),
    }
}

/// The block that the boundary fact enters.
pub open spec fn start_block<'ast, A: Analysis<'ast>>(cfg: CfgView, analysis: &A) -> int {
    match analysis.flow() {
        Direction::Forward => cfg.entry.0 as int,
        Direction::Backward => cfg.exit.0 as int,
    }
}

/// Something that flows into a block: the boundary fact, or what a block that flows into it knows
/// on its far side.
pub open spec fn flows_in<'ast, A: Analysis<'ast>>(
    cfg: CfgView,
    analysis: &A,
    outgoing: Seq<Set<int>>,
    block: int,
    item: int,
) -> bool {
    ||| block == start_block(cfg, analysis) && analysis.known_at_boundary().contains(item)
    ||| exists|from: int| #[trigger] flows(
        cfg,
        analysis,
        from,
        block,
    ) && outgoing[from].contains(item)
}

/// Everything that flows into a block.
pub open spec fn incoming<'ast, A: Analysis<'ast>>(
    cfg: CfgView,
    analysis: &A,
    outgoing: Seq<Set<int>>,
    block: int,
) -> Set<int> {
    Set::new(|item: int| flows_in(cfg, analysis, outgoing, block, item))
}

/// The solver between two visits: what is known where facts enter each block and where they leave
/// it, and the blocks still to visit, the next one last.
#[verifier::ext_equal]
pub struct SolveState {
    pub ins: Seq<Set<int>>,
    pub outs: Seq<Set<int>>,
    pub worklist: Seq<BlockId>,
}

/// The blocks to visit again once a block's outgoing fact has changed.
pub open spec fn affected<'ast, A: Analysis<'ast>>(cfg: CfgView, analysis: &A, block: int) -> Seq<
    BlockId,
> {
    match analysis.flow() {
        Direction::Forward => analysis.taken(cfg, block),
        Direction::Backward => predecessors_of(cfg, block),
    }
}

/// One visit: the next block is evaluated again from what flows into it.
pub open spec fn visited<'ast, A: Analysis<'ast>>(
    cfg: CfgView,
    analysis: &A,
    st: SolveState,
) -> SolveState {
    let block = st.worklist.last().0 as int;
    let known = incoming(cfg, analysis, st.outs, block);
    let out = across_block(analysis, cfg.blocks[block], known);
    let rest = st.worklist.drop_last();
    if out == st.outs[block] {
        SolveState { ins: st.ins.update(block, known), worklist: rest, ..st }
    } else {
        SolveState {
            ins: st.ins.update(block, known),
            outs: st.outs.update(block, out),
            worklist: rest + affected(cfg, analysis, block),
        }
    }
}

/// Visits until nothing is left to visit, `fuel` times at most.
pub open spec fn run<'ast, A: Analysis<'ast>>(
    cfg: CfgView,
    analysis: &A,
    st: SolveState,
    fuel: nat,
) -> Option<SolveState>
    decreases fuel,
{
    if st.worklist.len() == 0 {
        Some(st)
    } else if fuel == 0 {
        None
    } else {
        run(cfg, analysis, visited(cfg, analysis, st), (fuel - 1) as nat)
    }
}

/// The solver before its first visit: nothing is known, and every block is to be visited. A forward
/// analysis begins with the first block, a backward one with the last.
pub open spec fn unsolved(cfg: CfgView, flow: Direction) -> SolveState {
    let count = cfg.blocks.len();
    SolveState {
        ins: Seq::new(count, |i: int| Set::empty()),
        outs: Seq::new(count, |i: int| Set::empty()),
        worklist: match flow {
            Direction::Forward => Seq::new(count, |i: int| BlockId((count - 1 - i) as usize)),
            Direction::Backward => Seq::new(count, |i: int| BlockId(i as usize)),
        },
    }
}

pub open spec fn budget(cfg: CfgView) -> nat {
    (cfg.blocks.len() * VISIT_BUDGET_PER_BLOCK + 1) as nat
}

/// What solving an analysis ends with, unless it does not settle within the budget.
pub open spec fn solved<'ast, A: Analysis<'ast>>(cfg: CfgView, analysis: &A) -> Option<SolveState> {
    run(cfg, analysis, unsolved(cfg, analysis.flow()), budget(cfg))
}

/// An analysis can look at every block of a graph.
pub open spec fn understands_all<'ast, A: Analysis<'ast>>(cfg: CfgView, analysis: &A) -> bool {
    forall|b: int| 0 <= b < cfg.blocks.len() ==> analysis.understands(#[trigger] cfg.blocks[b])
}

// ---------------------------------------------------------------------------
// The solver
// ---------------------------------------------------------------------------

/// What each of a list of facts knows.
pub open spec fn knowns<F: MergeableFact>(facts: Seq<F>) -> Seq<Set<int>> {
    Seq::new(facts.len(), |i: int| facts[i].known())
}

/// A fact that knows what `fact` knows.
fn copy_of<F: MergeableFact>(fact: &F) -> (copy: F)
    ensures
        copy.known() == fact.known(),
{
    let mut copy: F = F::nothing_known();
    copy.merge(fact);
    assert(copy.known() =~= fact.known());
    copy
}

/// Whether two facts know the same.
fn agree<F: MergeableFact>(a: &F, b: &F) -> (r: bool)
    ensures
        r == (a.known() == b.known()),
{
    let mut first: F = copy_of(a);
    let mut second: F = copy_of(b);
    let a_gains: bool = first.merge(b);
    let b_gains: bool = second.merge(a);
    proof {
        assert(first.known() =~= second.known());
        if a.known() == b.known() {
            assert(a.known().union(b.known()) =~= a.known());
        }
    }
    !a_gains && !b_gains
}

/// As many facts as there are blocks, none of which knows anything.
fn unknown_facts<F: MergeableFact>(count: usize) -> (facts: Vec<F>)
    ensures
        knowns(facts@) == Seq::new(count as nat, |i: int| Set::<int>::empty()),
{
    let mut facts: Vec<F> = Vec::new();
    while facts.len() < count
        invariant
            facts@.len() <= count,
            forall|i: int|
                0 <= i < facts@.len() ==> (#[trigger] facts@[i]).known() == Set::<int>::empty(),
        decreases count - facts@.len(),
    {
        facts.push(F::nothing_known());
    }
    assert(knowns(facts@) =~= Seq::new(count as nat, |i: int| Set::<int>::empty()));
    facts
}

/// Whether a list of blocks holds one.
fn holds(ids: &Vec<BlockId>, block_id: BlockId) -> (r: bool)
    ensures
        r == ids@.contains(block_id),
{
    let mut index: usize = 0;
    while index < ids.len()
        invariant
            index <= ids@.len(),
            forall|i: int| 0 <= i < index ==> #[trigger] ids@[i] != block_id,
        decreases ids@.len() - index,
    {
        if ids[index] == block_id {
            return true;
        }
        index = index + 1;
    }
    false
}

/// The facts either side of every block, in **program order**: `before` holds just before a block's
/// actions run and `after` just after its terminator, whichever direction produced them.
#[derive(Debug)]
pub struct Solution<F> {
    before: Vec<F>,
    after: Vec<F>,
}

impl<F: MergeableFact> Solution<F> {
    /// What is known before each block.
    pub closed spec fn known_before(self) -> Seq<Set<int>> {
        knowns(self.before@)
    }

    /// What is known after each block.
    pub closed spec fn known_after(self) -> Seq<Set<int>> {
        knowns(self.after@)
    }

    /// The fact holding immediately before `block_id`'s first action.
    pub fn before(&self, block_id: BlockId) -> (fact: &F)
        requires
            block_id.0 < self.known_before().len(),
        ensures
            fact.known() == self.known_before()[block_id.0 as int],
    {
        &self.before[block_id.value()]
    }

    /// The fact holding immediately after `block_id`'s terminator.
    pub fn after(&self, block_id: BlockId) -> (fact: &F)
        requires
            block_id.0 < self.known_after().len(),
        ensures
            fact.known() == self.known_after()[block_id.0 as int],
    {
        &self.after[block_id.value()]
    }
}

/// The facts of a solution are those the solver ends with, in program order.
pub open spec fn solution_is<F: MergeableFact>(
    solution: Solution<F>,
    flow: Direction,
    st: SolveState,
) -> bool {
    match flow {
        Direction::Forward => solution.known_before() == st.ins && solution.known_after()
            == st.outs,
        Direction::Backward => solution.known_after() == st.ins && solution.known_before()
            == st.outs,
    }
}

/// The fact that flows into a block.
fn merged_input<'ast, A: Analysis<'ast>>(
    cfg: &Cfg<'ast>,
    analysis: &A,
    outs: &Vec<A::Fact>,
    block_id: BlockId,
) -> (fact: A::Fact)
    requires
        cfg@.well_formed(),
        understands_all(cfg@, analysis),
        outs@.len() == cfg@.blocks.len(),
        block_id.0 < cfg@.blocks.len(),
    ensures
        fact.known() == incoming(cfg@, analysis, knowns(outs@), block_id.0 as int),
{
    let ghost block = block_id.0 as int;
    let mut fact: A::Fact = A::Fact::nothing_known();
    let forward: bool = analysis.direction() == Direction::Forward;
    if forward {
        // Input is everything the predecessors produced — over the edges that can be taken, so a
        // predecessor whose branch never comes this way contributes nothing.
        let ids: &Vec<BlockId> = cfg.predecessors(block_id);
        let mut index: usize = 0;
        while index < ids.len()
            invariant
                cfg@.well_formed(),
                understands_all(cfg@, analysis),
                outs@.len() == cfg@.blocks.len(),
                block == block_id.0,
                block < cfg@.blocks.len(),
                ids@ == predecessors_of(cfg@, block),
                index <= ids@.len(),
                forall|item: int| #[trigger]
                    fact.known().contains(item) <==> exists|i: int|
                        0 <= i < index && analysis.taken(cfg@, ids@[i].0 as int).contains(block_id)
                            && (#[trigger] outs@[ids@[i].0 as int]).known().contains(item),
            decreases ids@.len() - index,
        {
            let predecessor: BlockId = ids[index];
            proof {
                predecessors_mirror_successors(cfg@, predecessor, block_id);
                assert(ids@.contains(predecessor));
            }
            let live: Vec<BlockId> = analysis.live_successors(cfg, predecessor);
            let ghost before = fact.known();
            let ghost from = predecessor.0 as int;
            if holds(&live, block_id) {
                fact.merge(&outs[predecessor.value()]);
            }
            proof {
                assert forall|item: int| #[trigger]
                    fact.known().contains(item) <==> exists|i: int|
                        0 <= i < index + 1 && analysis.taken(cfg@, ids@[i].0 as int).contains(
                            block_id,
                        ) && (#[trigger] outs@[ids@[i].0 as int]).known().contains(item) by {
                    if before.contains(item) {
                        let i = choose|i: int|
                            0 <= i < index && analysis.taken(cfg@, ids@[i].0 as int).contains(
                                block_id,
                            ) && (#[trigger] outs@[ids@[i].0 as int]).known().contains(item);
                        assert(0 <= i < index + 1);
                    }
                    if fact.known().contains(item) && !before.contains(item) {
                        assert(outs@[ids@[index as int].0 as int].known().contains(item));
                    }
                    if exists|i: int|
                        0 <= i < index + 1 && analysis.taken(cfg@, ids@[i].0 as int).contains(
                            block_id,
                        ) && (#[trigger] outs@[ids@[i].0 as int]).known().contains(item) {
                        let i = choose|i: int|
                            0 <= i < index + 1 && analysis.taken(cfg@, ids@[i].0 as int).contains(
                                block_id,
                            ) && (#[trigger] outs@[ids@[i].0 as int]).known().contains(item);
                        if i < index {
                            assert(before.contains(item));
                        }
                    }
                }
            }
            index = index + 1;
        }
        proof {
            assert forall|item: int| fact.known().contains(item) <==> exists|from: int| #[trigger]
                flows(cfg@, analysis, from, block) && knowns(outs@)[from].contains(item) by {
                if fact.known().contains(item) {
                    let i = choose|i: int|
                        0 <= i < index && analysis.taken(cfg@, ids@[i].0 as int).contains(block_id)
                            && (#[trigger] outs@[ids@[i].0 as int]).known().contains(item);
                    predecessors_mirror_successors(cfg@, ids@[i], block_id);
                    assert(ids@.contains(ids@[i]));
                    assert(flows(cfg@, analysis, ids@[i].0 as int, block));
                    assert(knowns(outs@)[ids@[i].0 as int].contains(item));
                }
                if exists|from: int| #[trigger]
                    flows(cfg@, analysis, from, block) && knowns(outs@)[from].contains(item) {
                    let from = choose|from: int| #[trigger]
                        flows(cfg@, analysis, from, block) && knowns(outs@)[from].contains(item);
                    let source = BlockId(from as usize);
                    analysis.taken_are_successors(cfg@, from);
                    let k = analysis.taken(cfg@, from).index_of(block_id);
                    assert(analysis.taken(cfg@, from)[k] == block_id);
                    predecessors_mirror_successors(cfg@, source, block_id);
                    let i = ids@.index_of(source);
                    assert(ids@[i] == source);
                    assert(outs@[ids@[i].0 as int].known().contains(item));
                }
            }
        }
    } else {
        // Input is everything the reachable successors will need.
        proof {
            analysis.taken_are_successors(cfg@, block);
        }
        let ids: Vec<BlockId> = analysis.live_successors(cfg, block_id);
        proof {
            assert forall|i: int| 0 <= i < ids@.len() implies (#[trigger] ids@[i]).0
                < cfg@.blocks.len() by {
                assert(successors_of(cfg@, block).contains(ids@[i]));
                assert(crate::analysis::cfg::goes_on(
                    cfg@.blocks[block].terminator,
                    cfg@.blocks.len() as int,
                ) || crate::analysis::cfg::is_return(cfg@.blocks[block].terminator)
                    || cfg@.blocks[block].terminator == Terminator::Exit);
            }
        }
        let mut index: usize = 0;
        while index < ids.len()
            invariant
                outs@.len() == cfg@.blocks.len(),
                block == block_id.0,
                forall|i: int| 0 <= i < ids@.len() ==> (#[trigger] ids@[i]).0 < cfg@.blocks.len(),
                index <= ids@.len(),
                forall|item: int| #[trigger]
                    fact.known().contains(item) <==> exists|i: int|
                        0 <= i < index && (#[trigger] outs@[ids@[i].0 as int]).known().contains(
                            item,
                        ),
            decreases ids@.len() - index,
        {
            let ghost before = fact.known();
            fact.merge(&outs[ids[index].value()]);
            proof {
                assert forall|item: int| #[trigger]
                    fact.known().contains(item) <==> exists|i: int|
                        0 <= i < index + 1 && (#[trigger] outs@[ids@[i].0 as int]).known().contains(
                            item,
                        ) by {
                    if before.contains(item) {
                        let i = choose|i: int|
                            0 <= i < index && (
                            #[trigger] outs@[ids@[i].0 as int]).known().contains(item);
                        assert(0 <= i < index + 1);
                    }
                    if fact.known().contains(item) && !before.contains(item) {
                        assert(outs@[ids@[index as int].0 as int].known().contains(item));
                    }
                    if exists|i: int|
                        0 <= i < index + 1 && (#[trigger] outs@[ids@[i].0 as int]).known().contains(
                            item,
                        ) {
                        let i = choose|i: int|
                            0 <= i < index + 1 && (
                            #[trigger] outs@[ids@[i].0 as int]).known().contains(item);
                        if i < index {
                            assert(before.contains(item));
                        }
                    }
                }
            }
            index = index + 1;
        }
        proof {
            assert forall|item: int| fact.known().contains(item) <==> exists|from: int| #[trigger]
                flows(cfg@, analysis, from, block) && knowns(outs@)[from].contains(item) by {
                if fact.known().contains(item) {
                    let i = choose|i: int|
                        0 <= i < index && (#[trigger] outs@[ids@[i].0 as int]).known().contains(
                            item,
                        );
                    assert(ids@.contains(ids@[i]));
                    assert(flows(cfg@, analysis, ids@[i].0 as int, block));
                    assert(knowns(outs@)[ids@[i].0 as int].contains(item));
                }
                if exists|from: int| #[trigger]
                    flows(cfg@, analysis, from, block) && knowns(outs@)[from].contains(item) {
                    let from = choose|from: int| #[trigger]
                        flows(cfg@, analysis, from, block) && knowns(outs@)[from].contains(item);
                    let i = ids@.index_of(BlockId(from as usize));
                    assert(ids@[i].0 == from);
                    assert(outs@[ids@[i].0 as int].known().contains(item));
                }
            }
        }
    }
    let ghost merged = fact.known();
    let start: BlockId = if forward {
        cfg.entry()
    } else {
        cfg.exit()
    };
    if block_id == start {
        fact.merge(&analysis.boundary());
    }
    proof {
        assert forall|item: int| fact.known().contains(item) <==> flows_in(
            cfg@,
            analysis,
            knowns(outs@),
            block,
            item,
        ) by {
            assert(merged.contains(item) <==> exists|from: int| #[trigger]
                flows(cfg@, analysis, from, block) && knowns(outs@)[from].contains(item));
        }
        assert(fact.known() =~= incoming(cfg@, analysis, knowns(outs@), block));
    }
    fact
}

/// Carries a fact to the far side of a block.
fn transfer_block<'ast, A: Analysis<'ast>>(
    cfg: &Cfg<'ast>,
    analysis: &A,
    block_id: BlockId,
    fact: &mut A::Fact,
)
    requires
        cfg@.well_formed(),
        understands_all(cfg@, analysis),
        block_id.0 < cfg@.blocks.len(),
    ensures
        final(fact).known() == across_block(
            analysis,
            cfg@.blocks[block_id.0 as int],
            old(fact).known(),
        ),
{
    let ghost data = cfg@.blocks[block_id.0 as int];
    let ghost start = fact.known();
    let block: &BasicBlock<'ast> = cfg.block(block_id);
    assert(data.actions.len() == block.actions@.len());
    assert(analysis.understands(data));
    if analysis.direction() == Direction::Forward {
        let mut index: usize = 0;
        while index < block.actions.len()
            invariant
                data == block@,
                analysis.understands(data),
                index <= block.actions@.len(),
                fact.known() == across_actions(analysis, data.actions, index as int, start),
            decreases block.actions@.len() - index,
        {
            assert(data.actions[index as int] == block.actions@[index as int]@);
            assert(data.actions.contains(block.actions@[index as int]@));
            analysis.transfer_action(&block.actions[index], fact);
            index = index + 1;
        }
        analysis.transfer_terminator(&block.terminator, fact);
    } else {
        analysis.transfer_terminator(&block.terminator, fact);
        let ghost behind = fact.known();
        let mut index: usize = block.actions.len();
        while index > 0
            invariant
                data == block@,
                analysis.understands(data),
                index <= block.actions@.len(),
                block.actions@.len() == data.actions.len(),
                fact.known() == back_across_actions(analysis, data.actions, index as int, behind),
            decreases index,
        {
            index = index - 1;
            assert(data.actions[index as int] == block.actions@[index as int]@);
            assert(data.actions.contains(block.actions@[index as int]@));
            analysis.transfer_action(&block.actions[index], fact);
        }
    }
}

/// Runs `analysis` over `cfg` until the facts stop changing; `None` if they have not after
/// [`VISIT_BUDGET_PER_BLOCK`] visits per block, which means that merging its facts does not settle.
pub fn try_solve<'ast, A: Analysis<'ast>>(cfg: &Cfg<'ast>, analysis: &A) -> (r: Option<
    Solution<A::Fact>,
>)
    requires
        understands_all(cfg@, analysis),
    ensures
        match r {
            Some(solution) => solved(cfg@, analysis) matches Some(st) && solution_is(
                solution,
                analysis.flow(),
                st,
            ),
            None => solved(cfg@, analysis) is None,
        },
{
    let ghost view = cfg@;
    let block_count: usize = cfg.blocks().len();
    let mut ins: Vec<A::Fact> = unknown_facts(block_count);
    let mut outs: Vec<A::Fact> = unknown_facts(block_count);

    // Every block starts on the worklist. Seeding only the boundary would stall immediately: the
    // first evaluation of a block whose neighbours all know nothing yet produces nothing too, sees
    // no change, and so never enqueues anyone. The boundary fact enters through the merge, on
    // whichever block owns it.
    let forward: bool = analysis.direction() == Direction::Forward;
    let mut worklist: Vec<BlockId> = Vec::new();
    while worklist.len() < block_count
        invariant
            worklist@.len() <= block_count,
            forall|i: int|
                0 <= i < worklist@.len() ==> (#[trigger] worklist@[i]).0 == if forward {
                    block_count - 1 - i
                } else {
                    i
                },
        decreases block_count - worklist@.len(),
    {
        // The next block comes from the end, so a forward analysis lists them in reverse — facts
        // then flow with the edges instead of against them, and convergence takes fewer passes.
        // Correctness does not depend on the order.
        let index: usize = worklist.len();
        worklist.push(
            BlockId(
                if forward {
                    block_count - 1 - index
                } else {
                    index
                },
            ),
        );
    }
    let ghost st0 = unsolved(view, analysis.flow());
    proof {
        assert(view.blocks.len() == block_count);
        assert(worklist@ =~= st0.worklist);
        assert(knowns(ins@) =~= st0.ins);
    }
    let limit: u128 = block_count as u128 * VISIT_BUDGET_PER_BLOCK as u128 + 1;
    let mut visits: u128 = 0;
    while worklist.len() > 0
        invariant
            view == cfg@,
            view.well_formed(),
            understands_all(view, analysis),
            forward == (analysis.flow() == Direction::Forward),
            block_count == view.blocks.len(),
            ins@.len() == block_count,
            outs@.len() == block_count,
            limit == budget(view),
            visits <= limit,
            st0 == unsolved(view, analysis.flow()),
            forall|i: int| 0 <= i < worklist@.len() ==> (#[trigger] worklist@[i]).0 < block_count,
            run(view, analysis, st0, budget(view)) == run(
                view,
                analysis,
                (SolveState { ins: knowns(ins@), outs: knowns(outs@), worklist: worklist@ }),
                (limit - visits) as nat,
            ),
        decreases limit - visits,
    {
        let ghost st = SolveState { ins: knowns(ins@), outs: knowns(outs@), worklist: worklist@ };
        let ghost listed = worklist@;
        if visits >= limit {
            return None;
        }
        visits = visits + 1;
        let block_id: BlockId = match worklist.pop() {
            Some(block_id) => block_id,
            None => cfg.entry(),
        };
        let ghost block = block_id.0 as int;
        assert(listed.last() == block_id);
        let input: A::Fact = merged_input(cfg, analysis, &outs, block_id);
        let mut fact: A::Fact = copy_of(&input);
        transfer_block(cfg, analysis, block_id, &mut fact);
        let ghost ins_before = ins@;
        let ghost outs_before = outs@;
        ins.set(block_id.value(), input);
        proof {
            assert(knowns(ins@) =~= knowns(ins_before).update(block, input.known()));
        }
        if !agree(&fact, &outs[block_id.value()]) {
            let ghost out = fact.known();
            outs.set(block_id.value(), fact);
            proof {
                assert(knowns(outs@) =~= knowns(outs_before).update(block, out));
            }
            let ghost rest = worklist@;
            if forward {
                let mut next: Vec<BlockId> = analysis.live_successors(cfg, block_id);
                proof {
                    analysis.taken_are_successors(view, block);
                    lemma_targets_in_range(view, block, next@);
                }
                worklist.append(&mut next);
            } else {
                let ids: &Vec<BlockId> = cfg.predecessors(block_id);
                let mut index: usize = 0;
                while index < ids.len()
                    invariant
                        view == cfg@,
                        view.well_formed(),
                        ids@ == predecessors_of(view, block_id.0 as int),
                        index <= ids@.len(),
                        block_count == view.blocks.len(),
                        forall|i: int|
                            0 <= i < worklist@.len() ==> (#[trigger] worklist@[i]).0 < block_count,
                        worklist@ == rest + ids@.take(index as int),
                    decreases ids@.len() - index,
                {
                    proof {
                        predecessors_mirror_successors(view, ids@[index as int], block_id);
                        assert(ids@.contains(ids@[index as int]));
                    }
                    worklist.push(ids[index]);
                    assert(worklist@ =~= rest + ids@.take(index + 1));
                    index = index + 1;
                }
                assert(ids@.take(index as int) =~= ids@);
            }
            assert(worklist@ =~= rest + affected(view, analysis, block));
        }
        proof {
            let after = SolveState {
                ins: knowns(ins@),
                outs: knowns(outs@),
                worklist: worklist@,
            };
            assert(after =~= visited(view, analysis, st));
        }
    }
    let ghost done = SolveState { ins: knowns(ins@), outs: knowns(outs@), worklist: worklist@ };
    assert(solved(view, analysis) == Some(done));
    if forward {
        Some(Solution { before: ins, after: outs })
    } else {
        Some(Solution { before: outs, after: ins })
    }
}

proof fn lemma_targets_in_range(cfg: CfgView, block: int, ids: Seq<BlockId>)
    requires
        cfg.well_formed(),
        0 <= block < cfg.blocks.len(),
        forall|i: int|
            0 <= i < ids.len() ==> successors_of(cfg, block).contains(#[trigger] ids[i]),
    ensures
        forall|i: int| 0 <= i < ids.len() ==> (#[trigger] ids[i]).0 < cfg.blocks.len(),
{
    assert forall|i: int| 0 <= i < ids.len() implies (#[trigger] ids[i]).0 < cfg.blocks.len() by {
        assert(successors_of(cfg, block).contains(ids[i]));
        let data = cfg.blocks[block];
        assert(crate::analysis::cfg::goes_on(data.terminator, cfg.blocks.len() as int)
            || crate::analysis::cfg::is_return(data.terminator) || data.terminator
            == Terminator::Exit);
    }
}

/// Runs `analysis` over `cfg` until the facts stop changing.
pub fn solve<'ast, A: Analysis<'ast>>(
    cfg: &Cfg<'ast>,
    analysis: &A,
) -> (solution: Solution<A::Fact>)
    requires
        understands_all(cfg@, analysis),
        solved(cfg@, analysis) is Some,
    ensures
        solution_is(solution, analysis.flow(), solved(cfg@, analysis)->0),
{
    match try_solve(cfg, analysis) {
        Some(solution) => solution,
        None => Solution { before: Vec::new(), after: Vec::new() },
    }
}

// ---------------------------------------------------------------------------
// Fact types
// ---------------------------------------------------------------------------

/// Whether execution can arrive at a program point.
///
/// `false` is "not reached yet" and joining is "reached from anywhere", so a point stays false only
/// if no path whatsoever leads to it — which is exactly what makes it unreachable.
#[derive(Debug, Clone, Copy, PartialEq, Eq, Default, Structural)]
pub struct ReachabilityFact(bool);

/// What a reached point knows: the one thing there is to know.
pub open spec fn arrived() -> Set<int> {
    set![0]
}

impl ReachabilityFact {
    pub fn reached() -> (fact: ReachabilityFact)
        ensures
            fact.known() == arrived(),
    {
        ReachabilityFact(true)
    }

    pub fn is_reached(self) -> (r: bool)
        ensures
            r == self.known().contains(0),
            r == (self.known() == arrived()),
    {
        assert(arrived().contains(0));
        self.0
    }
}

impl MergeableFact for ReachabilityFact {
    closed spec fn known(&self) -> Set<int> {
        if self.0 {
            arrived()
        } else {
            Set::empty()
        }
    }

    fn nothing_known() -> (fact: ReachabilityFact) {
        ReachabilityFact(false)
    }

    fn merge(&mut self, other: &ReachabilityFact) -> (gained: bool) {
        let joined: bool = self.0 || other.0;
        let changed: bool = joined != self.0;
        self.0 = joined;
        proof {
            assert(arrived().contains(0));
            assert(self.known() =~= old(self).known().union(other.known()));
        }
        changed
    }
}

/// A set of symbols: the fact shape of any analysis asking "which bindings satisfy X *here*".
///
/// Liveness is the first user — the symbols still to be read — and definite assignment and
/// ownership want the same shape. Joining is union, so a fact only ever grows and the lattice
/// height is bounded by the number of symbols in the program.
#[derive(Debug, PartialEq)]
pub struct SymbolSetFact(SymbolSet);

impl Clone for SymbolSetFact {
    fn clone(&self) -> (copy: SymbolSetFact)
        ensures
            copy.symbols() == self.symbols(),
    {
        let mut copy: SymbolSetFact = SymbolSetFact(symbol_set());
        copy.absorb(self);
        assert(copy.symbols() =~= self.symbols());
        copy
    }
}

impl Default for SymbolSetFact {
    fn default() -> (fact: SymbolSetFact)
        ensures
            fact.symbols() == Set::<u32>::empty(),
    {
        SymbolSetFact(symbol_set())
    }
}

impl SymbolSetFact {
    /// The symbols in the set, by number.
    pub closed spec fn symbols(self) -> Set<u32> {
        self.0@
    }

    pub fn contains(&self, sym_id: SymId) -> (r: bool)
        ensures
            r == self.symbols().contains(sym_id.0),
    {
        set_contains(&self.0, sym_id.0)
    }

    /// Adds a symbol, returning whether it was absent.
    pub fn insert(&mut self, sym_id: SymId) -> (fresh: bool)
        ensures
            final(self).symbols() == old(self).symbols().insert(sym_id.0),
            fresh == !old(self).symbols().contains(sym_id.0),
    {
        set_insert(&mut self.0, sym_id.0)
    }

    /// Drops a symbol, returning whether it was present.
    pub fn remove(&mut self, sym_id: SymId) -> (was_there: bool)
        ensures
            final(self).symbols() == old(self).symbols().remove(sym_id.0),
            was_there == old(self).symbols().contains(sym_id.0),
    {
        set_remove(&mut self.0, sym_id.0)
    }

    pub fn len(&self) -> (count: usize)
        ensures
            self.symbols().finite(),
            count == self.symbols().len(),
    {
        let items: Vec<u32> = set_items(&self.0);
        proof {
            items@.unique_seq_to_set();
            vstd::seq_lib::seq_to_set_is_finite(items@);
        }
        items.len()
    }

    pub fn is_empty(&self) -> (r: bool)
        ensures
            r == (self.symbols() == Set::<u32>::empty()),
    {
        let count: usize = self.len();
        proof {
            if count == 0 {
                assert(self.symbols() =~= Set::empty());
            }
        }
        count == 0
    }

    /// Adds the symbols of another set, returning whether any was absent.
    fn absorb(&mut self, other: &SymbolSetFact) -> (gained: bool)
        ensures
            final(self).symbols() == old(self).symbols().union(other.symbols()),
            gained == (final(self).symbols() != old(self).symbols()),
    {
        let ghost start = self.symbols();
        let items: Vec<u32> = set_items(&other.0);
        let mut gained: bool = false;
        let mut index: usize = 0;
        while index < items.len()
            invariant
                index <= items@.len(),
                start == old(self).symbols(),
                forall|sym: u32| #[trigger]
                    self.symbols().contains(sym) <==> start.contains(sym) || items@.take(
                        index as int,
                    ).contains(sym),
                gained == exists|i: int| 0 <= i < index && !start.contains(#[trigger] items@[i]),
                items@.no_duplicates(),
            decreases items@.len() - index,
        {
            let sym: u32 = items[index];
            let ghost before = self.symbols();
            proof {
                assert(!items@.take(index as int).contains(sym)) by {
                    if items@.take(index as int).contains(sym) {
                        let i = items@.take(index as int).index_of(sym);
                        assert(items@[i] == sym);
                    }
                }
            }
            if set_insert(&mut self.0, sym) {
                assert(!before.contains(sym) && !start.contains(items@[index as int]));
                gained = true;
            }
            proof {
                assert(items@.take(index + 1) =~= items@.take(index as int).push(sym));
                assert(self.symbols() =~= before.insert(sym));
                assert forall|other_sym: u32| #[trigger]
                    self.symbols().contains(other_sym) <==> start.contains(other_sym)
                        || items@.take(index + 1).contains(other_sym) by {
                    let shorter = items@.take(index as int);
                    let longer = items@.take(index + 1);
                    if shorter.contains(other_sym) {
                        let i = shorter.index_of(other_sym);
                        assert(longer[i] == other_sym);
                    }
                    if other_sym == sym {
                        assert(longer[index as int] == sym);
                    }
                    if longer.contains(other_sym) && other_sym != sym {
                        let i = longer.index_of(other_sym);
                        assert(shorter[i] == other_sym);
                    }
                }
            }
            index = index + 1;
        }
        proof {
            assert(items@.take(index as int) =~= items@);
            assert forall|sym: u32| #[trigger] self.symbols().contains(sym) <==> start.contains(sym)
                || other.symbols().contains(sym) by {
                assert(items@.to_set().contains(sym) <==> items@.contains(sym));
            }
            assert(self.symbols() =~= start.union(other.symbols()));
            if gained {
                let i = choose|i: int| 0 <= i < index && !start.contains(#[trigger] items@[i]);
                assert(items@.contains(items@[i]));
                assert(self.symbols().contains(items@[i]));
            } else {
                assert forall|sym: u32| self.symbols().contains(sym) implies start.contains(
                    sym,
                ) by {
                    if !start.contains(sym) {
                        assert(items@.contains(sym));
                        let i = items@.index_of(sym);
                        assert(items@[i] == sym);
                    }
                }
                assert(self.symbols() =~= start);
            }
        }
        gained
    }

    /// The symbols of the set, each once, in no particular order.
    pub fn iter(&self) -> (ids: Vec<SymId>)
        ensures
            ids@.no_duplicates(),
            forall|sym_id: SymId| ids@.contains(sym_id) <==> self.symbols().contains(sym_id.0),
    {
        let items: Vec<u32> = set_items(&self.0);
        let mut ids: Vec<SymId> = Vec::new();
        while ids.len() < items.len()
            invariant
                ids@.len() <= items@.len(),
                forall|i: int| 0 <= i < ids@.len() ==> (#[trigger] ids@[i]).0 == items@[i],
            decreases items@.len() - ids@.len(),
        {
            ids.push(SymId(items[ids.len()]));
        }
        proof {
            assert forall|sym_id: SymId| ids@.contains(sym_id) implies self.symbols().contains(
                sym_id.0,
            ) by {
                let i = ids@.index_of(sym_id);
                assert(items@[i] == sym_id.0);
                assert(items@.contains(sym_id.0));
                assert(items@.to_set().contains(sym_id.0));
            }
            assert forall|sym_id: SymId| self.symbols().contains(
                sym_id.0,
            ) implies ids@.contains(sym_id) by {
                assert(items@.to_set().contains(sym_id.0));
                let i = items@.index_of(sym_id.0);
                assert(ids@[i] == sym_id);
            }
            assert(ids@.no_duplicates()) by {
                assert forall|i: int, j: int|
                    0 <= i < ids@.len() && 0 <= j < ids@.len() && i != j implies ids@[i]
                    != ids@[j] by {
                    assert(items@[i] != items@[j]);
                }
            }
        }
        ids
    }
}

/// A set of symbols as what a fact knows.
pub open spec fn numbers(symbols: Set<u32>) -> Set<int> {
    Set::new(|i: int| 0 <= i <= u32::MAX && symbols.contains(i as u32))
}

impl MergeableFact for SymbolSetFact {
    open spec fn known(&self) -> Set<int> {
        numbers(self.symbols())
    }

    fn nothing_known() -> (fact: SymbolSetFact) {
        let fact: SymbolSetFact = SymbolSetFact(symbol_set());
        assert(fact.known() =~= Set::<int>::empty());
        fact
    }

    fn merge(&mut self, other: &SymbolSetFact) -> (gained: bool) {
        let gained: bool = self.absorb(other);
        proof {
            assert(self.known() =~= old(self).known().union(other.known()));
            if gained {
                let sym = choose|sym: u32|
                    self.symbols().contains(sym) != old(self).symbols().contains(sym);
                if forall|sym: u32| self.symbols().contains(sym) == old(self).symbols().contains(
                    sym,
                ) {
                    assert(self.symbols() =~= old(self).symbols());
                }
                assert(self.known().contains(sym as int) != old(self).known().contains(sym as int));
            }
        }
        gained
    }
}

// ---------------------------------------------------------------------------
// What holds of every solution
// ---------------------------------------------------------------------------

/// A block's facts agree with its neighbours': what enters it is what flows into it, and what
/// leaves it is that carried across the block.
pub open spec fn agrees_at<'ast, A: Analysis<'ast>>(
    cfg: CfgView,
    analysis: &A,
    st: SolveState,
    block: int,
) -> bool {
    &&& st.ins[block] == incoming(cfg, analysis, st.outs, block)
    &&& st.outs[block] == across_block(analysis, cfg.blocks[block], st.ins[block])
}

/// The facts of every block agree with its neighbours'.
pub open spec fn settled<'ast, A: Analysis<'ast>>(
    cfg: CfgView,
    analysis: &A,
    st: SolveState,
) -> bool {
    &&& st.ins.len() == cfg.blocks.len()
    &&& st.outs.len() == cfg.blocks.len()
    &&& forall|b: int|
        0 <= b < cfg.blocks.len() ==> #[trigger] agrees_at(cfg, analysis, st, b)
}

/// There are facts for every block, only blocks are listed, and every block that is not listed
/// agrees with its neighbours.
spec fn in_order<'ast, A: Analysis<'ast>>(cfg: CfgView, analysis: &A, st: SolveState) -> bool {
    &&& st.ins.len() == cfg.blocks.len()
    &&& st.outs.len() == cfg.blocks.len()
    &&& forall|i: int|
        0 <= i < st.worklist.len() ==> (#[trigger] st.worklist[i]).0 < cfg.blocks.len()
    &&& forall|b: int|
        0 <= b < cfg.blocks.len() && !st.worklist.contains(BlockId(b as usize))
            ==> #[trigger] agrees_at(cfg, analysis, st, b)
}

proof fn lemma_affected<'ast, A: Analysis<'ast>>(cfg: CfgView, analysis: &A, block: int)
    requires
        cfg.well_formed(),
        0 <= block < cfg.blocks.len(),
    ensures
        forall|to: int| #[trigger]
            flows(cfg, analysis, block, to) ==> affected(cfg, analysis, block).contains(
                BlockId(to as usize),
            ),
        forall|i: int|
            0 <= i < affected(cfg, analysis, block).len() ==> (#[trigger] affected(
                cfg,
                analysis,
                block,
            )[i]).0 < cfg.blocks.len(),
{
    let here = BlockId(block as usize);
    assert forall|to: int| #[trigger] flows(cfg, analysis, block, to) implies affected(
        cfg,
        analysis,
        block,
    ).contains(BlockId(to as usize)) by {
        if analysis.flow() == Direction::Backward {
            analysis.taken_are_successors(cfg, to);
            let k = analysis.taken(cfg, to).index_of(here);
            assert(analysis.taken(cfg, to)[k] == here);
            predecessors_mirror_successors(cfg, BlockId(to as usize), here);
        }
    }
    match analysis.flow() {
        Direction::Forward => {
            analysis.taken_are_successors(cfg, block);
            lemma_targets_in_range(cfg, block, analysis.taken(cfg, block));
        },
        Direction::Backward => {
            assert forall|i: int| 0 <= i < predecessors_of(cfg, block).len() implies (
            #[trigger] predecessors_of(cfg, block)[i]).0 < cfg.blocks.len() by {
                let source = predecessors_of(cfg, block)[i];
                assert(predecessors_of(cfg, block).contains(source));
                predecessors_mirror_successors(cfg, source, here);
            }
        },
    }
}

proof fn lemma_incoming_unaffected<'ast, A: Analysis<'ast>>(
    cfg: CfgView,
    analysis: &A,
    outs: Seq<Set<int>>,
    changed: int,
    out: Set<int>,
    block: int,
)
    requires
        outs.len() == cfg.blocks.len(),
        0 <= changed < cfg.blocks.len(),
        !flows(cfg, analysis, changed, block),
    ensures
        incoming(cfg, analysis, outs.update(changed, out), block) == incoming(
            cfg,
            analysis,
            outs,
            block,
        ),
{
    let after = outs.update(changed, out);
    assert forall|item: int| flows_in(cfg, analysis, after, block, item) == flows_in(
        cfg,
        analysis,
        outs,
        block,
        item,
    ) by {
        if exists|from: int| #[trigger]
            flows(cfg, analysis, from, block) && outs[from].contains(item) {
            let from = choose|from: int| #[trigger]
                flows(cfg, analysis, from, block) && outs[from].contains(item);
            assert(flows(cfg, analysis, from, block) && after[from].contains(item));
        }
        if exists|from: int| #[trigger]
            flows(cfg, analysis, from, block) && after[from].contains(item) {
            let from = choose|from: int| #[trigger]
                flows(cfg, analysis, from, block) && after[from].contains(item);
            assert(flows(cfg, analysis, from, block) && outs[from].contains(item));
        }
    }
    assert(incoming(cfg, analysis, after, block) =~= incoming(cfg, analysis, outs, block));
}

proof fn lemma_visit_in_order<'ast, A: Analysis<'ast>>(cfg: CfgView, analysis: &A, st: SolveState)
    requires
        cfg.well_formed(),
        in_order(cfg, analysis, st),
        st.worklist.len() > 0,
    ensures
        in_order(cfg, analysis, visited(cfg, analysis, st)),
{
    let after = visited(cfg, analysis, st);
    let here = st.worklist.last();
    let block = here.0 as int;
    let known = incoming(cfg, analysis, st.outs, block);
    let out = across_block(analysis, cfg.blocks[block], known);
    let rest = st.worklist.drop_last();
    assert(st.worklist[st.worklist.len() - 1] == here);
    lemma_affected(cfg, analysis, block);
    assert forall|i: int| 0 <= i < after.worklist.len() implies (#[trigger] after.worklist[i]).0
        < cfg.blocks.len() by {
        if i < rest.len() {
            assert(after.worklist[i] == st.worklist[i]);
        } else {
            assert(after.worklist[i] == affected(cfg, analysis, block)[i - rest.len()]);
        }
    }
    assert forall|b: int|
        0 <= b < cfg.blocks.len() && !after.worklist.contains(
            BlockId(b as usize),
        ) implies #[trigger] agrees_at(cfg, analysis, after, b) by {
        let id = BlockId(b as usize);
        assert(!rest.contains(id)) by {
            if rest.contains(id) {
                let i = rest.index_of(id);
                assert(after.worklist[i] == id);
            }
        }
        if b != block {
            assert(!st.worklist.contains(id)) by {
                if st.worklist.contains(id) {
                    let i = st.worklist.index_of(id);
                    assert(rest[i] == id);
                }
            }
            assert(agrees_at(cfg, analysis, st, b));
        }
        if out != st.outs[block] {
            if flows(cfg, analysis, block, b) {
                let i = affected(cfg, analysis, block).index_of(id);
                assert(after.worklist[rest.len() + i] == id);
            }
            lemma_incoming_unaffected(cfg, analysis, st.outs, block, out, b);
        } else {
            assert(after.outs =~= st.outs);
        }
    }
}

proof fn lemma_run_settles<'ast, A: Analysis<'ast>>(
    cfg: CfgView,
    analysis: &A,
    st: SolveState,
    fuel: nat,
)
    requires
        cfg.well_formed(),
        in_order(cfg, analysis, st),
    ensures
        run(cfg, analysis, st, fuel) matches Some(end) ==> settled(cfg, analysis, end),
    decreases fuel,
{
    if st.worklist.len() > 0 && fuel > 0 {
        lemma_visit_in_order(cfg, analysis, st);
        lemma_run_settles(cfg, analysis, visited(cfg, analysis, st), (fuel - 1) as nat);
    }
}

proof fn lemma_unsolved_in_order<'ast, A: Analysis<'ast>>(cfg: CfgView, analysis: &A)
    requires
        cfg.well_formed(),
    ensures
        in_order(cfg, analysis, unsolved(cfg, analysis.flow())),
{
    let st = unsolved(cfg, analysis.flow());
    let count = cfg.blocks.len();
    assert forall|b: int|
        0 <= b < cfg.blocks.len() && !st.worklist.contains(
            BlockId(b as usize),
        ) implies #[trigger] agrees_at(cfg, analysis, st, b) by {
        match analysis.flow() {
            Direction::Forward => {
                assert(st.worklist[count - 1 - b] == BlockId(b as usize));
            },
            Direction::Backward => {
                assert(st.worklist[b] == BlockId(b as usize));
            },
        }
    }
}

/// What solving ends with is a fixpoint: evaluating any block again changes nothing.
pub proof fn solutions_are_fixpoints<'ast, A: Analysis<'ast>>(cfg: CfgView, analysis: &A)
    requires
        cfg.well_formed(),
    ensures
        solved(cfg, analysis) matches Some(st) ==> settled(cfg, analysis, st),
{
    lemma_unsolved_in_order(cfg, analysis);
    lemma_run_settles(cfg, analysis, unsolved(cfg, analysis.flow()), budget(cfg));
}

/// Knowing more on one side of a block means knowing no less on the other.
pub open spec fn monotone<'ast, A: Analysis<'ast>>(cfg: CfgView, analysis: &A) -> bool {
    forall|b: int, less: Set<int>, more: Set<int>|
        0 <= b < cfg.blocks.len() && less.subset_of(more) ==> #[trigger] across_block(
            analysis,
            cfg.blocks[b],
            less,
        ).subset_of(#[trigger] across_block(analysis, cfg.blocks[b], more))
}

/// Nothing is known in `st` that is not known in `other`.
pub open spec fn says_no_more(st: SolveState, other: SolveState) -> bool {
    &&& st.ins.len() == other.ins.len()
    &&& st.outs.len() == other.outs.len()
    &&& forall|b: int| 0 <= b < st.ins.len() ==> (#[trigger] st.ins[b]).subset_of(other.ins[b])
    &&& forall|b: int| 0 <= b < st.outs.len() ==> (#[trigger] st.outs[b]).subset_of(other.outs[b])
}

proof fn lemma_visit_says_no_more<'ast, A: Analysis<'ast>>(
    cfg: CfgView,
    analysis: &A,
    st: SolveState,
    other: SolveState,
)
    requires
        cfg.well_formed(),
        in_order(cfg, analysis, st),
        st.worklist.len() > 0,
        monotone(cfg, analysis),
        settled(cfg, analysis, other),
        says_no_more(st, other),
    ensures
        says_no_more(visited(cfg, analysis, st), other),
{
    let block = st.worklist.last().0 as int;
    assert(st.worklist[st.worklist.len() - 1] == st.worklist.last());
    let known = incoming(cfg, analysis, st.outs, block);
    assert(agrees_at(cfg, analysis, other, block));
    assert(known.subset_of(other.ins[block])) by {
        assert forall|item: int| known.contains(item) implies other.ins[block].contains(item) by {
            if exists|from: int| #[trigger]
                flows(cfg, analysis, from, block) && st.outs[from].contains(item) {
                let from = choose|from: int| #[trigger]
                    flows(cfg, analysis, from, block) && st.outs[from].contains(item);
                assert(st.outs[from].subset_of(other.outs[from]));
                assert(flows(cfg, analysis, from, block) && other.outs[from].contains(item));
            }
            assert(flows_in(cfg, analysis, other.outs, block, item));
        }
    }
    let out = across_block(analysis, cfg.blocks[block], known);
    assert(out.subset_of(across_block(analysis, cfg.blocks[block], other.ins[block])));
}

proof fn lemma_run_says_no_more<'ast, A: Analysis<'ast>>(
    cfg: CfgView,
    analysis: &A,
    st: SolveState,
    other: SolveState,
    fuel: nat,
)
    requires
        cfg.well_formed(),
        in_order(cfg, analysis, st),
        monotone(cfg, analysis),
        settled(cfg, analysis, other),
        says_no_more(st, other),
    ensures
        run(cfg, analysis, st, fuel) matches Some(end) ==> says_no_more(end, other),
    decreases fuel,
{
    if st.worklist.len() > 0 && fuel > 0 {
        lemma_visit_in_order(cfg, analysis, st);
        lemma_visit_says_no_more(cfg, analysis, st, other);
        lemma_run_says_no_more(
            cfg,
            analysis,
            visited(cfg, analysis, st),
            other,
            (fuel - 1) as nat,
        );
    }
}

/// Of all the ways to assign facts that agree with each other, solving a monotone analysis ends
/// with the one that says least.
pub proof fn solutions_are_least<'ast, A: Analysis<'ast>>(
    cfg: CfgView,
    analysis: &A,
    other: SolveState,
)
    requires
        cfg.well_formed(),
        monotone(cfg, analysis),
        settled(cfg, analysis, other),
    ensures
        solved(cfg, analysis) matches Some(st) ==> says_no_more(st, other),
{
    lemma_unsolved_in_order(cfg, analysis);
    lemma_run_says_no_more(
        cfg,
        analysis,
        unsolved(cfg, analysis.flow()),
        other,
        budget(cfg),
    );
}

} // verus!
