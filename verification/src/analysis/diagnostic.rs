//! What an analysis reports: a [`Diagnostic`] carrying a stable [`DiagnosticCode`], a
//! [`Severity`], the [`Span`] it is about, and a message.
//!
//! Unlike [`crate::sema`], which is fail-fast and stops at the first error, the analysis layer
//! collects every finding in a run. That difference is the point: a tool that reports one defect
//! and exits is of little use for reviewing a program.

use crate::lexer::{locate_in, no_span, LineIndex, Span};
use crate::text::{decimal, decimal_text, join2, join5};
use vstd::prelude::*;
use vstd::string::*;

verus! {

/// How much a finding matters. Everything the analysis layer produces today is a `Warning` —
/// nothing here can stop a program from compiling — but the distinction exists so `sema`'s errors
/// can move onto this type later without reshaping it.
#[derive(Debug, Clone, Copy, PartialEq, Eq, Structural)]
pub enum Severity {
    Error,
    Warning,
}

pub open spec fn severity_text(severity: Severity) -> Seq<char> {
    match severity {
        Severity::Error => "error"@,
        Severity::Warning => "warning"@,
    }
}

impl Severity {
    pub fn label(self) -> (r: &'static str)
        ensures
            r@ == severity_text(self),
    {
        match self {
            Severity::Error => "error",
            Severity::Warning => "warning",
        }
    }
}

/// A class of finding.
///
/// The numeric code is what appears in output and what a future suppression pragma would key on,
/// so **a code is never reused** — retiring a rule leaves its number spent. The `01xx` band is the
/// dataflow checkers; later bands can group by analysis.
#[derive(Debug, Clone, Copy, PartialEq, Eq, Structural)]
pub enum DiagnosticCode {
    /// A statement that no execution can reach.
    UnreachableCode,
    /// A value written to a binding that nothing reads before it is overwritten or goes out of
    /// scope.
    DeadStore,
    /// A binding that is never read at all.
    UnusedBinding,
}

pub open spec fn code_text(code: DiagnosticCode) -> Seq<char> {
    match code {
        DiagnosticCode::UnreachableCode => "PINP0101"@,
        DiagnosticCode::DeadStore => "PINP0102"@,
        DiagnosticCode::UnusedBinding => "PINP0103"@,
    }
}

pub open spec fn rule_text(code: DiagnosticCode) -> Seq<char> {
    match code {
        DiagnosticCode::UnreachableCode => "unreachable-code"@,
        DiagnosticCode::DeadStore => "dead-store"@,
        DiagnosticCode::UnusedBinding => "unused-binding"@,
    }
}

pub open spec fn description_text(code: DiagnosticCode) -> Seq<char> {
    match code {
        DiagnosticCode::UnreachableCode => "Statements that no execution can reach."@,
        DiagnosticCode::DeadStore => "Values written to a binding that nothing reads."@,
        DiagnosticCode::UnusedBinding => "Bindings that are never read."@,
    }
}

impl DiagnosticCode {
    /// Every code, so an emitter can list the rules it might report and a test can hold the
    /// numbering to account.
    pub const ALL: [DiagnosticCode; 3] = [
        DiagnosticCode::UnreachableCode,
        DiagnosticCode::DeadStore,
        DiagnosticCode::UnusedBinding,
    ];

    /// The stable identifier, e.g. `PINP0101`.
    pub fn code(self) -> (r: &'static str)
        ensures
            r@ == code_text(self),
    {
        match self {
            DiagnosticCode::UnreachableCode => "PINP0101",
            DiagnosticCode::DeadStore => "PINP0102",
            DiagnosticCode::UnusedBinding => "PINP0103",
        }
    }

    /// The rule's short name — kebab-case, the form a suppression pragma would spell.
    pub fn name(self) -> (r: &'static str)
        ensures
            r@ == rule_text(self),
    {
        match self {
            DiagnosticCode::UnreachableCode => "unreachable-code",
            DiagnosticCode::DeadStore => "dead-store",
            DiagnosticCode::UnusedBinding => "unused-binding",
        }
    }

    /// One line describing what the rule looks for, for a rule listing.
    pub fn description(self) -> (r: &'static str)
        ensures
            r@ == description_text(self),
    {
        match self {
            DiagnosticCode::UnreachableCode => "Statements that no execution can reach.",
            DiagnosticCode::DeadStore => "Values written to a binding that nothing reads.",
            DiagnosticCode::UnusedBinding => "Bindings that are never read.",
        }
    }

    /// How severe a finding of this class is. Everything is advisory for now.
    pub fn severity(self) -> (r: Severity)
        ensures
            r == Severity::Warning,
    {
        match self {
            DiagnosticCode::UnreachableCode => Severity::Warning,
            DiagnosticCode::DeadStore => Severity::Warning,
            DiagnosticCode::UnusedBinding => Severity::Warning,
        }
    }
}

/// No two rules share a code or a name.
pub proof fn codes_are_unique(a: DiagnosticCode, b: DiagnosticCode)
    ensures
        code_text(a) == code_text(b) ==> a == b,
        rule_text(a) == rule_text(b) ==> a == b,
{
    reveal_strlit("PINP0101");
    reveal_strlit("PINP0102");
    reveal_strlit("PINP0103");
    reveal_strlit("unreachable-code");
    reveal_strlit("dead-store");
    reveal_strlit("unused-binding");
    assert(code_text(a)[7] == (match a {
        DiagnosticCode::UnreachableCode => '1',
        DiagnosticCode::DeadStore => '2',
        DiagnosticCode::UnusedBinding => '3',
    }));
    assert(code_text(b)[7] == (match b {
        DiagnosticCode::UnreachableCode => '1',
        DiagnosticCode::DeadStore => '2',
        DiagnosticCode::UnusedBinding => '3',
    }));
    assert(rule_text(a).len() == (match a {
        DiagnosticCode::UnreachableCode => 16nat,
        DiagnosticCode::DeadStore => 10,
        DiagnosticCode::UnusedBinding => 14,
    }));
    assert(rule_text(b).len() == (match b {
        DiagnosticCode::UnreachableCode => 16nat,
        DiagnosticCode::DeadStore => 10,
        DiagnosticCode::UnusedBinding => 14,
    }));
}

/// One finding.
#[derive(Debug, Clone, PartialEq)]
pub struct Diagnostic {
    pub code: DiagnosticCode,
    pub severity: Severity,
    pub span: Span,
    pub message: String,
    /// Secondary locations — "first assigned here", "made unreachable by this". Carried and
    /// rendered, but no checker emits them yet.
    pub notes: Vec<(String, Span)>,
}

/// What a [`Diagnostic`] says.
#[verifier::ext_equal]
pub struct DiagnosticView {
    pub code: DiagnosticCode,
    pub severity: Severity,
    pub span: Span,
    pub message: Seq<char>,
    pub notes: Seq<(Seq<char>, Span)>,
}

pub open spec fn note_views(notes: Seq<(String, Span)>) -> Seq<(Seq<char>, Span)> {
    Seq::new(notes.len(), |i: int| (notes[i].0@, notes[i].1))
}

impl View for Diagnostic {
    type V = DiagnosticView;

    open spec fn view(&self) -> DiagnosticView {
        DiagnosticView {
            code: self.code,
            severity: self.severity,
            span: self.span,
            message: self.message@,
            notes: note_views(self.notes@),
        }
    }
}

/// A finding without notes, with the severity of its rule.
pub open spec fn finding(code: DiagnosticCode, span: Span, message: Seq<char>) -> DiagnosticView {
    DiagnosticView { code, severity: Severity::Warning, span, message, notes: Seq::empty() }
}

/// `line:col: ` for a known span, and nothing at all for an unknown one.
pub open spec fn prefix_text(span: Span, starts: Seq<int>) -> Seq<char> {
    if span == no_span() {
        Seq::empty()
    } else {
        let (line, column) = locate_in(starts, span.start as int);
        decimal_text(line as nat) + ":"@ + decimal_text(column as nat) + ": "@
    }
}

/// The lines of the first `count` notes.
pub open spec fn notes_text(
    notes: Seq<(Seq<char>, Span)>,
    count: int,
    starts: Seq<int>,
) -> Seq<char>
    decreases count,
{
    if count <= 0 {
        Seq::empty()
    } else {
        let (note, span) = notes[count - 1];
        notes_text(notes, count - 1, starts) + ("\n  "@ + prefix_text(span, starts) + "note: "@
            + note)
    }
}

/// One line per finding: `line:col: severity[CODE]: message`, then one indented line per note.
pub open spec fn rendered(diagnostic: DiagnosticView, starts: Seq<int>) -> Seq<char> {
    prefix_text(diagnostic.span, starts) + (severity_text(diagnostic.severity) + "["@ + code_text(
        diagnostic.code,
    ) + "]: "@ + diagnostic.message) + notes_text(
        diagnostic.notes,
        diagnostic.notes.len() as int,
        starts,
    )
}

impl Diagnostic {
    /// A finding at `span`, taking its severity from the rule.
    pub fn new(code: DiagnosticCode, span: Span, message: &str) -> (r: Diagnostic)
        ensures
            r@ == finding(code, span, message@),
    {
        let r: Diagnostic = Diagnostic {
            code,
            severity: code.severity(),
            span,
            message: String::from_str(message),
            notes: Vec::new(),
        };
        assert(r@ =~= finding(code, span, message@));
        r
    }

    /// Adds a secondary location.
    pub fn with_note(self, message: &str, span: Span) -> (r: Diagnostic)
        ensures
            r@ == (DiagnosticView { notes: self@.notes.push((message@, span)), ..self@ }),
    {
        let mut notes: Vec<(String, Span)> = self.notes;
        notes.push((String::from_str(message), span));
        let r: Diagnostic = Diagnostic {
            code: self.code,
            severity: self.severity,
            span: self.span,
            message: self.message,
            notes,
        };
        assert(r@.notes =~= self@.notes.push((message@, span)));
        r
    }

    /// One line per finding: `line:col: severity[CODE]: message`, then one indented line per note.
    /// A span that was never recorded prints without a position rather than pointing at byte 0.
    pub fn render(&self, line_index: &LineIndex) -> (r: String)
        requires
            self.span.start < u32::MAX,
            forall|i: int| 0 <= i < self.notes@.len() ==> (#[trigger] self.notes@[i]).1.start
                < u32::MAX,
        ensures
            r@ == rendered(self@, line_index@),
    {
        let head: String = join5(
            self.severity.label(),
            "[",
            self.code.code(),
            "]: ",
            self.message.as_str(),
        );
        let mut out: String = join2(position_prefix(self.span, line_index).as_str(), head.as_str());
        let ghost start = out@;
        let mut index: usize = 0;
        assert(start + notes_text(self@.notes, 0, line_index@) =~= start);
        while index < self.notes.len()
            invariant
                forall|i: int| 0 <= i < self.notes@.len() ==> (#[trigger] self.notes@[i]).1.start
                    < u32::MAX,
                index <= self.notes@.len(),
                out@ == start + notes_text(self@.notes, index as int, line_index@),
            decreases self.notes@.len() - index,
        {
            let prefix: String = position_prefix(self.notes[index].1, line_index);
            assert(self@.notes[index as int] == (
                self.notes@[index as int].0@,
                self.notes@[index as int].1,
            ));
            out = join5(
                out.as_str(),
                "\n  ",
                prefix.as_str(),
                "note: ",
                self.notes[index].0.as_str(),
            );
            assert(out@ =~= start + notes_text(self@.notes, index + 1, line_index@));
            index = index + 1;
        }
        out
    }
}

/// `line:col: ` for a known span, and nothing at all for an unknown one.
fn position_prefix(span: Span, line_index: &LineIndex) -> (r: String)
    requires
        span.start < u32::MAX,
    ensures
        r@ == prefix_text(span, line_index@),
{
    if span.is_unknown() {
        let r: String = String::new();
        assert(r@ =~= Seq::empty());
        return r;
    }
    let (line, column): (u32, u32) = line_index.locate(span.start);
    crate::text::join2(
        crate::text::join3(
            decimal(line as u64).as_str(),
            ":",
            decimal(column as u64).as_str(),
        ).as_str(),
        ": ",
    )
}

} // verus!
