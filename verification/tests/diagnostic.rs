//! Diagnostics and how they render.

use pinp::analysis::{Diagnostic, DiagnosticCode, Severity};
use pinp::lexer::{LineIndex, Span};
use rustc_hash::FxHashSet;

#[test]
fn codes_are_unique_and_stable() {
    // The exact strings are the contract: they appear in output and a suppression pragma would
    // key on them, so a change here is a breaking change, not a rename.
    assert_eq!(DiagnosticCode::UnreachableCode.code(), "PINP0101");
    assert_eq!(DiagnosticCode::DeadStore.code(), "PINP0102");
    assert_eq!(DiagnosticCode::UnusedBinding.code(), "PINP0103");

    let codes: FxHashSet<&str> = DiagnosticCode::ALL.iter().map(|code| code.code()).collect();
    assert_eq!(
        codes.len(),
        DiagnosticCode::ALL.len(),
        "a code is duplicated"
    );
    let names: FxHashSet<&str> = DiagnosticCode::ALL.iter().map(|code| code.name()).collect();
    assert_eq!(
        names.len(),
        DiagnosticCode::ALL.len(),
        "a name is duplicated"
    );
}

#[test]
fn all_lists_every_variant() {
    // The match is exhaustive, so a new variant fails to compile until it is added to `ALL`.
    for code in DiagnosticCode::ALL {
        let listed = match code {
            DiagnosticCode::UnreachableCode
            | DiagnosticCode::DeadStore
            | DiagnosticCode::UnusedBinding => true,
        };
        assert!(listed);
    }
    assert_eq!(DiagnosticCode::ALL.len(), 3);
}

#[test]
fn rendering_places_the_finding() {
    let src = "a = 1\nb = 2\n";
    let line_index = LineIndex::new(src);
    let diagnostic = Diagnostic::new(
        DiagnosticCode::DeadStore,
        Span::new(6, 7), // the `b` on line 2
        "Value assigned to `b` is never read.",
    );
    assert_eq!(
        diagnostic.render(&line_index),
        "2:1: warning[PINP0102]: Value assigned to `b` is never read."
    );
}

#[test]
fn an_unknown_span_renders_without_a_position() {
    let line_index = LineIndex::new("a = 1\n");
    let diagnostic = Diagnostic::new(
        DiagnosticCode::UnusedBinding,
        Span::unknown(),
        "Binding `a` is never read.",
    );
    assert_eq!(
        diagnostic.render(&line_index),
        "warning[PINP0103]: Binding `a` is never read."
    );
}

#[test]
fn notes_render_indented_under_the_finding() {
    let src = "a = 1\na = 2\n";
    let line_index = LineIndex::new(src);
    let diagnostic = Diagnostic::new(
        DiagnosticCode::DeadStore,
        Span::new(0, 1),
        "Value assigned to `a` is never read.",
    )
    .with_note("Overwritten here.", Span::new(6, 7));
    assert_eq!(
        diagnostic.render(&line_index),
        "1:1: warning[PINP0102]: Value assigned to `a` is never read.\n  2:1: note: Overwritten here."
    );
}

#[test]
fn severity_comes_from_the_rule() {
    let diagnostic = Diagnostic::new(DiagnosticCode::DeadStore, Span::unknown(), "x");
    assert_eq!(diagnostic.severity, Severity::Warning);
    assert_eq!(Severity::Error.label(), "error");
    assert_eq!(Severity::Warning.label(), "warning");
}
