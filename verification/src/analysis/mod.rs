//! Static analysis: the pass that answers questions about *how values flow* through a program.
//!
//! [`crate::sema`] checks a program by walking its shape — a scope stack and a type per node — and
//! that is enough to accept a correct program and reject an incorrect one. It cannot say whether a
//! value is ever read, or whether a statement can run at all, because those questions are about
//! paths rather than syntax. This layer builds the machinery for them: a control-flow graph, a
//! dataflow solver over it, and checkers written against that solver.
//!
//! Two properties hold throughout:
//!
//! * **Read-only.** Nothing here transforms the program, and codegen never consults it. A checker
//!   can be wrong without a compiled program being wrong.
//! * **Advisory and batched.** Findings are warnings, and a run reports all of them — the opposite
//!   of sema's fail-fast single error, and the reason the layer exists separately.

pub mod cfg;
pub mod checks;
pub mod dataflow;
pub mod diagnostic;
pub mod runs;

pub use diagnostic::{Diagnostic, DiagnosticCode, Severity};

use crate::analysis::cfg::{entry_graph, function_graph, graph_ok, Cfg, CfgView};
use crate::analysis::checks::liveness;
use crate::analysis::checks::liveness::{escapes, live_facts, needed_sets, unread_values};
use crate::analysis::checks::reachability;
use crate::analysis::checks::reachability::{diagnostic_views, unreachable_code};
use crate::analysis::diagnostic::DiagnosticView;
use crate::lexer::{no_span, Span};
use crate::parser::ast::{top_level_ok, Ast, AstView, ProgramAst, TopLevel, TopLevelView};
use crate::symbols::SymbolSet;
use vstd::prelude::*;

verus! {

/// Where a finding sorts: by where it begins, then by where it ends; a position with no span sorts
/// last rather than to the top of the file.
pub open spec fn sort_place(span: Span) -> (int, int) {
    if span == no_span() {
        (u32::MAX as int, u32::MAX as int)
    } else {
        (span.start as int, span.end as int)
    }
}

pub open spec fn not_after(a: Span, b: Span) -> bool {
    let (x, y) = (sort_place(a), sort_place(b));
    x.0 < y.0 || x.0 == y.0 && x.1 <= y.1
}

/// Where in a sorted list a finding goes: behind the last of the first `count` that is not after
/// it.
pub open spec fn slot(sorted: Seq<DiagnosticView>, count: int, span: Span) -> int
    decreases count,
{
    if count <= 0 || not_after(sorted[count - 1].span, span) {
        count
    } else {
        slot(sorted, count - 1, span)
    }
}

/// The findings in source order; those at one place stay in the order they were made.
pub open spec fn in_source_order(findings: Seq<DiagnosticView>) -> Seq<DiagnosticView>
    decreases findings.len(),
{
    if findings.len() == 0 {
        Seq::empty()
    } else {
        let sorted = in_source_order(findings.drop_last());
        sorted.insert(slot(sorted, sorted.len() as int, findings.last().span), findings.last())
    }
}

/// The graphs of the functions among the first `count` items.
pub open spec fn function_graphs(ast: AstView, count: int) -> Seq<CfgView>
    decreases count,
{
    if count <= 0 {
        Seq::empty()
    } else {
        match ast.top_level[count - 1] {
            TopLevelView::Func(func) => function_graphs(ast, count - 1).push(
                function_graph(ast, func),
            ),
            TopLevelView::Stmt(_) => function_graphs(ast, count - 1),
        }
    }
}

/// The graphs of a program: one for the top level, and one per function.
pub open spec fn graphs(ast: AstView) -> Seq<CfgView> {
    seq![entry_graph(ast)] + function_graphs(ast, ast.top_level.len() as int)
}

/// The symbols named through `::`.
pub open spec fn escaping_set(ast: AstView) -> Set<u32> {
    Set::new(|sym: u32| escapes(ast, sym))
}

/// What every checker finds in one graph.
pub open spec fn graph_findings(ast: AstView, cfg: CfgView) -> Seq<DiagnosticView> {
    unreachable_code(ast, cfg) + unread_values(
        ast,
        cfg,
        escaping_set(ast),
        needed_sets(ast, cfg, escaping_set(ast)),
    )
}

/// What every checker finds in the first `count` of some graphs.
pub open spec fn findings_among(ast: AstView, graphs: Seq<CfgView>, count: int) -> Seq<
    DiagnosticView,
>
    decreases count,
{
    if count <= 0 {
        Seq::empty()
    } else {
        findings_among(ast, graphs, count - 1) + graph_findings(ast, graphs[count - 1])
    }
}

/// All findings about a program, in source order.
pub open spec fn findings(ast: AstView) -> Seq<DiagnosticView> {
    let all = graphs(ast);
    in_source_order(findings_among(ast, all, all.len() as int))
}

/// Liveness settles within the solver's budget on a graph, however the symbols that escape are
/// held.
pub open spec fn settles_on(ast: &Ast<'_>, cfg: CfgView) -> bool {
    forall|escaping: SymbolSet|
        escaping@ == escaping_set(ast@) ==> #[trigger] live_facts(ast, cfg, &escaping) is Some
}

/// Liveness settles within the solver's budget on every graph of a program.
pub open spec fn settles(ast: &Ast<'_>) -> bool {
    forall|i: int| 0 <= i < graphs(ast@).len() ==> #[trigger] settles_on(ast, graphs(ast@)[i])
}

spec fn cfg_views(cfgs: Seq<Cfg<'_>>) -> Seq<CfgView> {
    Seq::new(cfgs.len(), |i: int| cfgs[i]@)
}

/// The graphs of a program: one for the top level, and one per function.
fn build_graphs<'ast, 'src>(ast: &'ast ProgramAst<'src>) -> (cfgs: Vec<Cfg<'ast>>)
    requires
        ast.well_formed(),
    ensures
        cfg_views(cfgs@) == graphs(ast@),
        forall|i: int|
            0 <= i < cfgs@.len() ==> graph_ok((#[trigger] cfgs@[i])@.blocks, ast@.bounds()),
{
    let mut cfgs: Vec<Cfg<'ast>> = Vec::new();
    cfgs.push(Cfg::build_entry(ast));
    let mut index: usize = 0;
    assert(cfg_views(cfgs@) =~= seq![entry_graph(ast@)] + function_graphs(ast@, 0));
    while index < ast.top_level.len()
        invariant
            ast.well_formed(),
            index <= ast.top_level@.len(),
            cfg_views(cfgs@) == seq![entry_graph(ast@)] + function_graphs(ast@, index as int),
            forall|i: int|
                0 <= i < cfgs@.len() ==> graph_ok((#[trigger] cfgs@[i])@.blocks, ast@.bounds()),
        decreases ast.top_level@.len() - index,
    {
        let ghost before = cfg_views(cfgs@);
        proof {
            assert(ast@.top_level[index as int] == ast.top_level@[index as int]@);
            assert(top_level_ok(ast@.top_level[index as int], ast@.bounds()));
        }
        if let TopLevel::Func(func) = &ast.top_level[index] {
            let cfg: Cfg<'ast> = Cfg::build_function(ast, func);
            let ghost view = cfg@;
            cfgs.push(cfg);
            assert(cfg_views(cfgs@) =~= before.push(view));
        }
        assert(cfg_views(cfgs@) =~= seq![entry_graph(ast@)] + function_graphs(ast@, index + 1));
        index = index + 1;
    }
    cfgs
}

/// Where a finding sorts.
fn sort_key(span: Span) -> (key: (u32, u32))
    ensures
        (key.0 as int, key.1 as int) == sort_place(span),
{
    if span.is_unknown() {
        (u32::MAX, u32::MAX)
    } else {
        (span.start, span.end)
    }
}

/// Sorts findings top to bottom; those at one place stay in the order they were made.
fn sort_by_place(diagnostics: Vec<Diagnostic>) -> (sorted: Vec<Diagnostic>)
    ensures
        diagnostic_views(sorted@) == in_source_order(diagnostic_views(diagnostics@)),
{
    let ghost all = diagnostic_views(diagnostics@);
    let mut rest: Vec<Diagnostic> = diagnostics;
    let mut reversed: Vec<Diagnostic> = Vec::new();
    while rest.len() > 0
        invariant
            diagnostic_views(rest@) == all.take(rest@.len() as int),
            rest@.len() + reversed@.len() == all.len(),
            forall|i: int|
                0 <= i < reversed@.len() ==> (#[trigger] reversed@[i])@ == all[all.len() - 1 - i],
        decreases rest@.len(),
    {
        let ghost before = rest@;
        if let Some(diagnostic) = rest.pop() {
            proof {
                let last = before.len() - 1;
                assert(diagnostic_views(before)[last] == before[last]@);
                assert(all.take(before.len() as int)[last] == all[last]);
                assert(diagnostic_views(rest@) =~= all.take(rest@.len() as int)) by {
                    assert forall|i: int| 0 <= i < rest@.len() implies (
                    #[trigger] diagnostic_views(rest@)[i]) == all[i] by {
                        assert(diagnostic_views(before)[i] == all.take(before.len() as int)[i]);
                    }
                }
            }
            reversed.push(diagnostic);
        }
    }
    let mut sorted: Vec<Diagnostic> = Vec::new();
    assert(all.take(0) =~= Seq::empty());
    assert(diagnostic_views(sorted@) =~= in_source_order(all.take(0)));
    while reversed.len() > 0
        invariant
            sorted@.len() + reversed@.len() == all.len(),
            forall|i: int|
                0 <= i < reversed@.len() ==> (#[trigger] reversed@[i])@ == all[all.len() - 1 - i],
            diagnostic_views(sorted@) == in_source_order(all.take(sorted@.len() as int)),
        decreases reversed@.len(),
    {
        let ghost done = sorted@.len() as int;
        let ghost before = sorted@;
        let ghost views = diagnostic_views(sorted@);
        let ghost left = reversed@;
        if let Some(diagnostic) = reversed.pop() {
            proof {
                assert(left[left.len() - 1]@ == all[done]);
                assert(all.take(done + 1).drop_last() =~= all.take(done));
                assert(all.take(done + 1).last() == all[done]);
            }
            let key: (u32, u32) = sort_key(diagnostic.span);
            let mut at: usize = sorted.len();
            loop
                invariant
                    at <= sorted@.len(),
                    sorted@ == before,
                    views == diagnostic_views(before),
                    (key.0 as int, key.1 as int) == sort_place(diagnostic.span),
                    slot(views, views.len() as int, diagnostic.span) == slot(
                        views,
                        at as int,
                        diagnostic.span,
                    ),
                ensures
                    at <= sorted@.len(),
                    at == slot(views, views.len() as int, diagnostic.span),
                decreases at,
            {
                if at == 0 {
                    break;
                }
                assert(views[at - 1] == before[at - 1]@);
                let other: (u32, u32) = sort_key(sorted[at - 1].span);
                if other.0 < key.0 || (other.0 == key.0 && other.1 <= key.1) {
                    break;
                }
                at = at - 1;
            }
            let ghost found = diagnostic@;
            sorted.insert(at, diagnostic);
            assert(diagnostic_views(sorted@) =~= views.insert(at as int, found));
        }
    }
    assert(all.take(sorted@.len() as int) =~= all);
    sorted
}

/// Appends findings to others.
fn extend(diagnostics: &mut Vec<Diagnostic>, more: Vec<Diagnostic>)
    ensures
        diagnostic_views(final(diagnostics)@) == diagnostic_views(old(diagnostics)@)
            + diagnostic_views(more@),
{
    let mut rest: Vec<Diagnostic> = more;
    diagnostics.append(&mut rest);
    assert(diagnostic_views(diagnostics@) =~= diagnostic_views(old(diagnostics)@)
        + diagnostic_views(more@));
}

/// Runs every checker over a program, returning all findings in source order, unless liveness does
/// not settle on one of its graphs within the solver's budget.
pub fn try_check(ast: &ProgramAst) -> (r: Option<Vec<Diagnostic>>)
    requires
        ast.well_formed(),
    ensures
        match r {
            Some(diagnostics) => settles(ast) && diagnostic_views(diagnostics@) == findings(ast@),
            None => !settles(ast),
        },
{
    let escaping: SymbolSet = liveness::escaping_symbols(ast);
    assert(escaping@ =~= escaping_set(ast@));
    let cfgs: Vec<Cfg> = build_graphs(ast);
    let ghost all = graphs(ast@);
    let mut diagnostics: Vec<Diagnostic> = Vec::new();
    let mut index: usize = 0;
    assert(diagnostic_views(diagnostics@) =~= Seq::empty());
    while index < cfgs.len()
        invariant
            ast.well_formed(),
            escaping@ == escaping_set(ast@),
            all == graphs(ast@),
            cfg_views(cfgs@) == all,
            forall|i: int|
                0 <= i < cfgs@.len() ==> graph_ok((#[trigger] cfgs@[i])@.blocks, ast@.bounds()),
            index <= cfgs@.len(),
            diagnostic_views(diagnostics@) == findings_among(ast@, all, index as int),
            forall|i: int| 0 <= i < index ==> #[trigger] settles_on(ast, all[i]),
        decreases cfgs@.len() - index,
    {
        let ghost cfg = all[index as int];
        assert(cfg_views(cfgs@)[index as int] == cfgs@[index as int]@);
        let unreachable: Vec<Diagnostic> = reachability::check(ast, &cfgs[index]);
        let unread: Vec<Diagnostic> = match liveness::try_check(ast, &cfgs[index], &escaping) {
            Some(unread) => unread,
            None => {
                proof {
                    assert(live_facts(ast, cfg, &escaping) is None);
                    assert(!settles_on(ast, all[index as int]));
                }
                return None;
            },
        };
        proof {
            assert(settles_on(ast, all[index as int])) by {
                assert forall|other: SymbolSet|
                    other@ == escaping_set(ast@) implies #[trigger] live_facts(
                    ast,
                    cfg,
                    &other,
                ) is Some by {
                    liveness::liveness_depends_on_the_symbols(ast, cfg, &escaping, &other);
                }
            }
        }
        let ghost before = diagnostic_views(diagnostics@);
        extend(&mut diagnostics, unreachable);
        extend(&mut diagnostics, unread);
        assert(diagnostic_views(diagnostics@) =~= before + graph_findings(ast@, cfg));
        index = index + 1;
    }
    // Report top to bottom. Findings are produced per graph and per checker, which is neither of
    // those orders.
    Some(sort_by_place(diagnostics))
}

/// Runs every checker over a program, returning all findings in source order.
///
/// One control-flow graph per function plus one for the top level, each handed to every checker.
pub fn check(ast: &ProgramAst) -> (diagnostics: Vec<Diagnostic>)
    requires
        ast.well_formed(),
        settles(ast),
    ensures
        diagnostic_views(diagnostics@) == findings(ast@),
{
    match try_check(ast) {
        Some(diagnostics) => diagnostics,
        None => Vec::new(),
    }
}

proof fn lemma_slot(sorted: Seq<DiagnosticView>, count: int, span: Span)
    requires
        0 <= count <= sorted.len(),
    ensures
        0 <= slot(sorted, count, span) <= count,
        slot(sorted, count, span) > 0 ==> not_after(
            sorted[slot(sorted, count, span) - 1].span,
            span,
        ),
        forall|i: int|
            slot(sorted, count, span) <= i < count ==> !not_after(#[trigger] sorted[i].span, span),
    decreases count,
{
    if count > 0 && !not_after(sorted[count - 1].span, span) {
        lemma_slot(sorted, count - 1, span);
    }
}

/// Findings no two of which stand in the wrong order.
pub open spec fn sorted_by_place(sorted: Seq<DiagnosticView>) -> bool {
    forall|i: int, j: int|
        0 <= i < j < sorted.len() ==> not_after(
            #[trigger] sorted[i].span,
            #[trigger] sorted[j].span,
        )
}

proof fn lemma_slot_keeps_order(sorted: Seq<DiagnosticView>, last: DiagnosticView)
    requires
        sorted_by_place(sorted),
    ensures
        sorted_by_place(sorted.insert(slot(sorted, sorted.len() as int, last.span), last)),
{
    let at = slot(sorted, sorted.len() as int, last.span);
    lemma_slot(sorted, sorted.len() as int, last.span);
    let all = sorted.insert(at, last);
    assert forall|i: int, j: int| 0 <= i < j < all.len() implies not_after(
        #[trigger] all[i].span,
        #[trigger] all[j].span,
    ) by {
        let a = if i < at {
            i
        } else {
            i - 1
        };
        let b = if j < at {
            j
        } else {
            j - 1
        };
        if i == at {
            assert(all[j] == sorted[b]);
            assert(!not_after(sorted[b].span, last.span));
        } else if j == at {
            assert(all[i] == sorted[a]);
            if a < at - 1 {
                assert(not_after(sorted[a].span, sorted[at - 1].span));
            }
        } else {
            assert(all[i] == sorted[a]);
            assert(all[j] == sorted[b]);
        }
    }
}

proof fn lemma_slot_keeps_all(
    shorter: Seq<DiagnosticView>,
    sorted: Seq<DiagnosticView>,
    at: int,
    last: DiagnosticView,
)
    requires
        sorted.to_multiset() == shorter.to_multiset(),
        0 <= at <= sorted.len(),
    ensures
        sorted.insert(at, last).to_multiset() == shorter.push(last).to_multiset(),
{
    vstd::seq_lib::to_multiset_insert(sorted, at, last);
    vstd::seq_lib::to_multiset_insert(shorter, shorter.len() as int, last);
    assert(shorter.insert(shorter.len() as int, last) =~= shorter.push(last));
}

/// Putting findings in source order neither adds nor loses any, and none stands behind one that
/// comes later in the source.
pub proof fn source_order_sorts(findings: Seq<DiagnosticView>)
    ensures
        in_source_order(findings).to_multiset() == findings.to_multiset(),
        sorted_by_place(in_source_order(findings)),
    decreases findings.len(),
{
    if findings.len() > 0 {
        let shorter = findings.drop_last();
        let last = findings.last();
        source_order_sorts(shorter);
        let sorted = in_source_order(shorter);
        let at = slot(sorted, sorted.len() as int, last.span);
        lemma_slot(sorted, sorted.len() as int, last.span);
        lemma_slot_keeps_order(sorted, last);
        lemma_slot_keeps_all(shorter, sorted, at, last);
        assert(in_source_order(findings) == sorted.insert(at, last));
        assert(findings =~= shorter.push(last));
    } else {
        assert(in_source_order(findings) =~= findings);
    }
}

} // verus!
