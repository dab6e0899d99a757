use vstd::prelude::*;

use crate::token::Span;

verus! {

/// How serious a diagnostic is.
#[derive(Clone, Copy, Debug, PartialEq, Eq, Structural)]
pub enum Severity {
    Warning,
    Error,
}

/// One finding of a lint rule.
#[derive(Clone, Debug)]
pub struct Diagnostic {
    pub rule: String,
    pub message: String,
    pub severity: Severity,
    pub span: Span,
    pub file: String,
}

/// The content of a diagnostic, with its texts as character sequences.
pub struct DiagView {
    pub rule: Seq<char>,
    pub message: Seq<char>,
    pub severity: Severity,
    pub span: Span,
    pub file: Seq<char>,
}

impl View for Diagnostic {
    type V = DiagView;

    open spec fn view(&self) -> DiagView {
        DiagView {
            rule: self.rule@,
            message: self.message@,
            severity: self.severity,
            span: self.span,
            file: self.file@,
        }
    }
}

/// The views of a sequence of diagnostics.
pub open spec fn diag_views(ds: Seq<Diagnostic>) -> Seq<DiagView> {
    ds.map_values(|d: Diagnostic| d@)
}

/// A warning-level diagnostic with the given content.
pub open spec fn warn_view(rule: Seq<char>, message: Seq<char>, span: Span, file: Seq<char>) -> DiagView {
    DiagView { rule, message, severity: Severity::Warning, span, file }
}

pub proof fn lemma_diag_views_push(ds: Seq<Diagnostic>, d: Diagnostic)
    ensures
        diag_views(ds.push(d)) == diag_views(ds).push(d@),
{
    assert(diag_views(ds.push(d)) =~= diag_views(ds).push(d@));
}

impl Diagnostic {
    /// A warning for `rule` at `span` in `file`.
    pub fn warning(rule: &str, message: String, span: Span, file: &str) -> (d: Diagnostic)
        ensures
            d@ == warn_view(rule@, message@, span, file@),
    {
        Diagnostic {
            rule: rule.to_owned(),
            message,
            severity: Severity::Warning,
            span,
            file: file.to_owned(),
        }
    }

    /// An error for `rule` at `span` in `file`.
    pub fn error(rule: &str, message: String, span: Span, file: &str) -> (d: Diagnostic)
        ensures
            d@ == (DiagView {
                rule: rule@,
                message: message@,
                severity: Severity::Error,
                span,
                file: file@,
            }),
    {
        Diagnostic {
            rule: rule.to_owned(),
            message,
            severity: Severity::Error,
            span,
            file: file.to_owned(),
        }
    }
}

/// Append `d` to `diagnostics`.
pub fn push_diagnostic(diagnostics: &mut Vec<Diagnostic>, d: Diagnostic)
    ensures
        diag_views(final(diagnostics)@) == diag_views(old(diagnostics)@).push(d@),
{
    let ghost before = diagnostics@;
    diagnostics.push(d);
    proof {
        lemma_diag_views_push(before, d);
    }
}

} // verus!
