//! Dead stores and unused bindings.

use pinp::analysis::DiagnosticCode;
use pinp::analysis::cfg::Cfg;
use pinp::analysis::checks::liveness::{check, escaping_symbols};
use pinp::lexer::Span;
use pinp::parser::{TopLevel, parse};

/// Findings for the top-level program, as `(code, source text)` pairs in source order.
fn findings(src: &str) -> Vec<(&'static str, String)> {
    let ast = parse(src).unwrap();
    let cfg = Cfg::build_entry(&ast);
    let escaping = escaping_symbols(&ast);
    let mut found: Vec<(&'static str, String)> = check(&ast, &cfg, &escaping)
        .into_iter()
        .map(|diagnostic| {
            (
                diagnostic.code.name(),
                diagnostic.span.text(src).to_string(),
            )
        })
        .collect();
    found.sort();
    found
}

/// Findings for the first function defined in `src`.
fn function_findings(src: &str) -> Vec<(&'static str, String)> {
    let ast = parse(src).unwrap();
    let TopLevel::Func(func) = &ast.top_level[0] else {
        panic!("Expected a function first.");
    };
    let cfg = Cfg::build_function(&ast, func);
    let escaping = escaping_symbols(&ast);
    check(&ast, &cfg, &escaping)
        .into_iter()
        .map(|diagnostic| {
            (
                diagnostic.code.name(),
                diagnostic.span.text(src).to_string(),
            )
        })
        .collect()
}

#[test]
fn a_value_read_later_is_not_reported() {
    assert!(findings("a = 1\na + 1").is_empty());
}

#[test]
fn an_overwritten_value_is_a_dead_store() {
    assert_eq!(
        findings("a = 1\na = 2\na"),
        vec![("dead-store", "a".to_string())],
        "only the first assignment"
    );
}

#[test]
fn a_binding_nothing_reads_is_unused() {
    assert_eq!(
        findings("a = 1\n0"),
        vec![("unused-binding", "a".to_string())]
    );
}

#[test]
fn an_unused_binding_is_reported_once_however_many_stores() {
    // Three stores, one message: the fix is to the binding, not to each line.
    let found = findings("a = 1\na = 2\na = 3\n0");
    assert_eq!(found.len(), 1);
    assert_eq!(found[0].0, "unused-binding");
}

#[test]
fn a_self_referring_update_keeps_the_binding_live() {
    // `a = a + 1` reads before it writes, so the earlier store is not dead.
    assert!(findings("a = 1\na = a + 1\na").is_empty());
}

#[test]
fn a_value_read_only_inside_a_loop_is_live() {
    // The read is reached through the back edge, which a single pass would miss.
    assert!(
        findings("a = 1\nn = 0\nwhile n < 3\n    n += a\nn\n")
        .is_empty()
    );
}

#[test]
fn a_store_in_a_loop_read_next_iteration_is_live() {
    assert!(
        findings("total = 0\nfor idx in 1..3\n    total += idx\ntotal\n")
        .is_empty()
    );
}

#[test]
fn a_value_read_on_only_one_branch_is_live() {
    // Liveness unions at a merge: a read on any onward path keeps the value needed.
    assert!(
        findings("a = 1\nb = 0\nif b > 0\n    b = a\nb\n")
        .is_empty()
    );
}

#[test]
fn the_dont_care_binder_is_never_reported() {
    // `_` exists to say the value is unwanted.
    assert!(
        findings("m = [1, 2; 3, 4]\ntotal = 0\nfor _, _, val in m\n    total += val\ntotal\n")
        .is_empty()
    );
}

#[test]
fn an_unread_loop_variable_is_not_reported() {
    // Idiomatic "repeat n times"; firing here would make the checker unusable.
    assert!(
        findings("total = 0\nfor idx in 1..3\n    total += 1\ntotal\n")
        .is_empty()
    );
}

#[test]
fn a_global_read_from_a_function_is_not_reported() {
    // The entry cannot see the read, so globals are live wherever a graph ends.
    assert!(
        findings("g = 1\nread(): int is ::g\nread()\n")
        .is_empty()
    );
}

#[test]
fn a_global_written_in_a_function_is_not_a_dead_store() {
    assert!(
        function_findings("bump(): int is\n    ::g = ::g + 1\n    0\ng = 1\nbump()\n")
        .is_empty()
    );
}

#[test]
fn a_function_local_nothing_reads_is_reported() {
    assert_eq!(
        function_findings("f(n: int): int is\n    unused = n * 2\n    n\nf(1)\n"),
        vec![("unused-binding", "unused".to_string())]
    );
}

#[test]
fn a_function_result_counts_as_a_read() {
    // The body's trailing expression is what the function returns — the read that matters most.
    assert!(
        function_findings("f(n: int): int is\n    doubled = n * 2\n    doubled\nf(1)\n")
        .is_empty()
    );
}

#[test]
fn a_read_inside_an_if_expression_counts() {
    // The CFG treats a nested if-expression as atomic, so its reads must still be collected —
    // otherwise `a` would look dead.
    assert!(findings("a = 1\nb = a if a > 0 else 0\nb").is_empty());
}

#[test]
fn a_read_through_interpolation_counts() {
    assert!(findings("name = 'x'\nf'hello {name}'").is_empty());
}

#[test]
fn a_read_through_indexing_counts() {
    assert!(
        findings("idx = 1\narr = [1, 2, 3]\narr[idx]\n")
        .is_empty()
    );
}

#[test]
fn writing_one_element_is_not_a_whole_new_value() {
    // `arr[0] = 9` updates the array in place: it reads `arr` rather than replacing it, so the
    // original binding is not a dead store.
    assert!(
        findings("arr = [1, 2, 3]\narr[0] = 9\narr[0]\n")
        .is_empty()
    );
}

#[test]
fn both_findings_can_appear_in_one_run() {
    // The batch-reporting property: fail-fast sema could never show this.
    let found = findings("dead = 1\ndead = 2\nunread = 3\ndead\n");
    let codes: Vec<&str> = found.iter().map(|(code, _)| *code).collect();
    assert!(codes.contains(&DiagnosticCode::DeadStore.name()));
    assert!(codes.contains(&DiagnosticCode::UnusedBinding.name()));
    assert_eq!(found.len(), 2);
}

#[test]
fn an_unused_binding_is_reported_where_it_is_first_stored() {
    let ast = parse("a = 1\na = 2\na = 3\n0").unwrap();
    let cfg = Cfg::build_entry(&ast);
    let escaping = escaping_symbols(&ast);
    let found = check(&ast, &cfg, &escaping);
    assert_eq!(found.len(), 1);
    assert_eq!(found[0].code, DiagnosticCode::UnusedBinding);
    assert_eq!(found[0].span, Span::new(0, 1));
}

#[test]
fn a_global_read_in_a_string_escapes() {
    let ast = parse("g = 1\nf'{::g}'").unwrap();
    let escaping = escaping_symbols(&ast);
    assert_eq!(escaping.len(), 1);
    assert!(escaping.contains(&0));
}
