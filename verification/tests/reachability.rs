//! Unreachable code.

use pinp::analysis::cfg::Cfg;
use pinp::analysis::checks::reachability::check;
use pinp::parser::{TopLevel, parse};

/// Every unreachable-code finding in `src`, as the source text it points at.
fn findings(src: &str) -> Vec<String> {
    let ast = parse(src).unwrap();
    let cfg = Cfg::build_entry(&ast);
    check(&ast, &cfg)
        .into_iter()
        .map(|diagnostic| diagnostic.span.text(src).to_string())
        .collect()
}

#[test]
fn a_while_false_body_never_runs() {
    let src = "n = 1\nwhile false\n    n = 2\nn\n";
    assert_eq!(findings(src), vec!["n"], "the body's assignment to `n`");
}

#[test]
fn a_variable_condition_is_never_assumed() {
    // The whole point of the literal-only limit: nothing is folded, so nothing is claimed.
    let src = "c = false\nn = 1\nwhile c\n    n = 2\nn\n";
    assert!(findings(src).is_empty());
}

#[test]
fn an_arithmetic_condition_is_not_folded() {
    // `1 > 2` is constantly false, but recognising that is constant propagation's job.
    let src = "n = 1\nwhile 1 > 2\n    n = 2\nn\n";
    assert!(findings(src).is_empty(), "deliberately not folded");
}

#[test]
fn a_false_if_arm_never_runs() {
    let src = "n = 1\nif false\n    n = 2\nn\n";
    assert_eq!(findings(src), vec!["n"]);
}

#[test]
fn a_true_if_arm_leaves_the_else_unreachable() {
    let src = "n = 1\nif true\n    n = 2\nelse\n    n = 3\nn\n";
    assert_eq!(findings(src), vec!["n"], "only the else arm");
}

#[test]
fn an_empty_literal_range_never_enters_its_body() {
    for source in ["1..<1", "5..1", "1..>5"] {
        let src = format!("total = 0\nfor idx in {source}\n    total += idx\ntotal\n");
        assert_eq!(
            findings(&src).len(),
            1,
            "`{source}` is empty, so the body is dead"
        );
    }
}

#[test]
fn a_non_empty_literal_range_is_fine() {
    for source in ["1..3", "1..<2", "5..>1", "1..1"] {
        let src = format!("total = 0\nfor idx in {source}\n    total += idx\ntotal\n");
        assert!(findings(&src).is_empty(), "`{source}` runs at least once");
    }
}

#[test]
fn a_variable_range_bound_is_never_assumed() {
    let src = "stop = 0\ntotal = 0\nfor idx in 1..stop\n    total += idx\ntotal\n";
    assert!(findings(src).is_empty());
}

#[test]
fn code_after_an_infinite_loop_is_unreachable() {
    // `while true` has no exit — pinp has no `break` — so whatever follows it genuinely cannot
    // run. Looping for ever is the author's business; the dead tail is worth saying.
    let src = "n = 1\nwhile true\n    n = 2\nn\n";
    assert_eq!(findings(src), vec!["n"], "the trailing `n`");
}

#[test]
fn ordinary_code_reports_nothing() {
    let src = "total = 0\nfor idx in 1..5\n    if idx > 2\n        total += idx\n    else\n        total += 1\ntotal\n";
    assert!(findings(src).is_empty());
}

#[test]
fn a_function_body_is_checked_too() {
    let ast = parse("f(n: int): int is\n    m = n\n    if false\n        m = 0\n    m\nf(1)\n")
    .unwrap();
    let TopLevel::Func(func) = &ast.top_level[0] else {
        panic!("Expected a function.");
    };
    let cfg = Cfg::build_function(&ast, func);
    assert_eq!(check(&ast, &cfg).len(), 1);
}

#[test]
fn a_range_runs_in_the_direction_of_its_step() {
    let runs = |range: &str| {
        findings(&format!("total = 0\nfor idx in {range}\n    total += idx\ntotal\n")).is_empty()
    };
    assert!(runs("5..1:-1"));
    assert!(!runs("5..1:2"));
    assert!(runs("1..5:2"));
    assert!(!runs("1..5:-1"));
}
