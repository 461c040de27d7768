//! The worklist solver and its facts.

use pinp::analysis::cfg::{Action, ActionView, BlockData, BlockId, Cfg, CfgView, Terminator};
use pinp::analysis::dataflow::{
    Analysis, Direction, MergeableFact, ReachabilityFact, SymbolSetFact, solve, try_solve,
};
use pinp::parser::{ProgramAst, SymId, parse};

fn parsed(src: &str) -> ProgramAst<'_> {
    parse(src).unwrap()
}

/// A forward analysis that simply records how far execution can get: every block it reaches
/// ends up `true`. Deliberately trivial, so a failure here is the solver's fault and not a
/// checker's.
struct Reached;

impl<'ast> Analysis<'ast> for Reached {
    type Fact = ReachabilityFact;
    fn flow(&self) -> Direction {
        self.direction()
    }

    fn known_at_boundary(&self) -> vstd::set::Set<vstd::prelude::int> {
        unreachable!("only stated")
    }

    fn known_across_action(
        &self,
        _action: ActionView,
        _known: vstd::set::Set<vstd::prelude::int>,
    ) -> vstd::set::Set<vstd::prelude::int> {
        unreachable!("only stated")
    }

    fn known_across_terminator(
        &self,
        _terminator: Terminator,
        _known: vstd::set::Set<vstd::prelude::int>,
    ) -> vstd::set::Set<vstd::prelude::int> {
        unreachable!("only stated")
    }

    fn taken(&self, _cfg: CfgView, _block: vstd::prelude::int) -> vstd::seq::Seq<BlockId> {
        unreachable!("only stated")
    }

    fn understands(&self, _data: BlockData) -> bool {
        unreachable!("only stated")
    }

    fn taken_are_successors(&self, _cfg: CfgView, _block: vstd::prelude::int) {}

    fn direction(&self) -> Direction {
        Direction::Forward
    }

    fn boundary(&self) -> ReachabilityFact {
        ReachabilityFact::reached()
    }

    fn transfer_action(&self, _action: &Action<'ast>, _fact: &mut ReachabilityFact) {}

    fn transfer_terminator(&self, _terminator: &Terminator, _fact: &mut ReachabilityFact) {}

    fn live_successors(&self, cfg: &Cfg<'ast>, block_id: BlockId) -> Vec<BlockId> {
        cfg.successors(block_id)
    }
}

/// A backward analysis collecting every symbol bound by a loop, to exercise the other
/// direction without depending on the liveness checker.
struct BoundSymbols;

impl<'ast> Analysis<'ast> for BoundSymbols {
    type Fact = SymbolSetFact;
    fn flow(&self) -> Direction {
        self.direction()
    }

    fn known_at_boundary(&self) -> vstd::set::Set<vstd::prelude::int> {
        unreachable!("only stated")
    }

    fn known_across_action(
        &self,
        _action: ActionView,
        _known: vstd::set::Set<vstd::prelude::int>,
    ) -> vstd::set::Set<vstd::prelude::int> {
        unreachable!("only stated")
    }

    fn known_across_terminator(
        &self,
        _terminator: Terminator,
        _known: vstd::set::Set<vstd::prelude::int>,
    ) -> vstd::set::Set<vstd::prelude::int> {
        unreachable!("only stated")
    }

    fn taken(&self, _cfg: CfgView, _block: vstd::prelude::int) -> vstd::seq::Seq<BlockId> {
        unreachable!("only stated")
    }

    fn understands(&self, _data: BlockData) -> bool {
        unreachable!("only stated")
    }

    fn taken_are_successors(&self, _cfg: CfgView, _block: vstd::prelude::int) {}

    fn direction(&self) -> Direction {
        Direction::Backward
    }

    fn boundary(&self) -> SymbolSetFact {
        SymbolSetFact::nothing_known()
    }

    fn transfer_action(&self, action: &Action<'ast>, fact: &mut SymbolSetFact) {
        if let Action::Bind(sym_id) = action {
            fact.insert(*sym_id);
        }
    }

    fn transfer_terminator(&self, _terminator: &Terminator, _fact: &mut SymbolSetFact) {}

    fn live_successors(&self, cfg: &Cfg<'ast>, block_id: BlockId) -> Vec<BlockId> {
        cfg.successors(block_id)
    }
}

#[test]
fn a_forward_analysis_reaches_every_block_of_straight_line_code() {
    let ast = parsed("a = 1\nb = 2\na + b");
    let cfg = Cfg::build_entry(&ast);
    let solution = solve(&cfg, &Reached);
    for block_id in cfg.block_ids() {
        assert!(
            solution.before(block_id).is_reached(),
            "block {block_id:?} not reached"
        );
    }
}

#[test]
fn facts_propagate_around_a_back_edge() {
    // A loop needs more than one pass: the header is first evaluated before the body has
    // contributed anything, so the solver has to come back to it.
    let ast = parsed("n = 0\nwhile n < 3\n    n += 1\nn\n");
    let cfg = Cfg::build_entry(&ast);
    let solution = solve(&cfg, &Reached);
    for block_id in cfg.block_ids() {
        assert!(
            solution.before(block_id).is_reached(),
            "block {block_id:?} not reached"
        );
    }
}

#[test]
fn a_backward_analysis_carries_facts_against_the_edges() {
    // The loop variable is bound inside the body, and a backward analysis must have that fact
    // available *before* the loop — which only happens by flowing against the edges.
    let ast = parsed("total = 0\nfor idx in 1..3\n    total += idx\ntotal\n");
    let cfg = Cfg::build_entry(&ast);
    let solution = solve(&cfg, &BoundSymbols);
    assert_eq!(
        solution.before(cfg.entry()).len(),
        1,
        "the binding inside the loop reaches the entry"
    );
    assert!(
        solution.after(cfg.exit()).is_empty(),
        "nothing is bound after the program ends"
    );
}

#[test]
fn a_single_block_program_converges() {
    let ast = parsed("1 + 1");
    let cfg = Cfg::build_entry(&ast);
    let solution = solve(&cfg, &Reached);
    assert!(solution.before(cfg.entry()).is_reached());
    assert!(solution.after(cfg.entry()).is_reached());
}

#[test]
fn the_reachability_fact_reports_changes_exactly_once() {
    let mut fact = ReachabilityFact::nothing_known();
    assert!(!fact.is_reached());
    assert!(
        fact.merge(&ReachabilityFact::reached()),
        "unreached to reached is a change"
    );
    assert!(
        !fact.merge(&ReachabilityFact::reached()),
        "already reached is not a change"
    );
    assert!(
        !fact.merge(&ReachabilityFact::nothing_known()),
        "joining downward never changes anything"
    );
    assert!(fact.is_reached());
}

#[test]
fn the_symbol_set_fact_reports_changes_exactly_once() {
    let mut fact = SymbolSetFact::nothing_known();
    let mut other = SymbolSetFact::nothing_known();
    other.insert(SymId(1));
    other.insert(SymId(2));
    assert!(fact.merge(&other), "two new symbols");
    assert!(!fact.merge(&other), "the same symbols again change nothing");
    assert_eq!(fact.len(), 2);
    assert!(fact.contains(SymId(1)));
    assert!(fact.remove(SymId(1)));
    assert!(!fact.contains(SymId(1)));
}

/// A lattice whose `join` always lands strictly above what arrived, so a cycle in the graph
/// drives it up for ever. This is the mistake the visit budget exists to catch — an
/// unbounded lattice, which no amount of iterating will settle.
#[derive(Clone, PartialEq)]
struct NeverSettles(u32);

impl MergeableFact for NeverSettles {
    fn known(&self) -> vstd::set::Set<vstd::prelude::int> {
        unreachable!("only stated")
    }

    fn nothing_known() -> NeverSettles {
        NeverSettles(0)
    }

    fn merge(&mut self, other: &NeverSettles) -> bool {
        self.0 = self.0.max(other.0 + 1);
        true
    }
}

struct Divergent;

impl<'ast> Analysis<'ast> for Divergent {
    type Fact = NeverSettles;
    fn flow(&self) -> Direction {
        self.direction()
    }

    fn known_at_boundary(&self) -> vstd::set::Set<vstd::prelude::int> {
        unreachable!("only stated")
    }

    fn known_across_action(
        &self,
        _action: ActionView,
        _known: vstd::set::Set<vstd::prelude::int>,
    ) -> vstd::set::Set<vstd::prelude::int> {
        unreachable!("only stated")
    }

    fn known_across_terminator(
        &self,
        _terminator: Terminator,
        _known: vstd::set::Set<vstd::prelude::int>,
    ) -> vstd::set::Set<vstd::prelude::int> {
        unreachable!("only stated")
    }

    fn taken(&self, _cfg: CfgView, _block: vstd::prelude::int) -> vstd::seq::Seq<BlockId> {
        unreachable!("only stated")
    }

    fn understands(&self, _data: BlockData) -> bool {
        unreachable!("only stated")
    }

    fn taken_are_successors(&self, _cfg: CfgView, _block: vstd::prelude::int) {}

    fn direction(&self) -> Direction {
        Direction::Forward
    }

    fn boundary(&self) -> NeverSettles {
        NeverSettles(0)
    }

    fn transfer_action(&self, _action: &Action<'ast>, _fact: &mut NeverSettles) {}

    fn transfer_terminator(&self, _terminator: &Terminator, _fact: &mut NeverSettles) {}

    fn live_successors(&self, cfg: &Cfg<'ast>, block_id: BlockId) -> Vec<BlockId> {
        cfg.successors(block_id)
    }
}

#[test]
#[should_panic(expected = "did not converge")]
fn a_non_monotone_analysis_is_caught_rather_than_looping_forever() {
    let ast = parsed("n = 0\nwhile n < 3\n    n += 1\nn\n");
    let cfg = Cfg::build_entry(&ast);
    try_solve(&cfg, &Divergent).expect("the analysis did not converge");
}
