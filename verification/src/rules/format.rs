//! Line-format rules: trailing whitespace and line length.
use vstd::prelude::*;

use crate::ast::ScriptFile;
use crate::config::Config;
use crate::diagnostic::{diag_views, push_diagnostic, warn_view, DiagView, Diagnostic};
use crate::lexer::MAX_SOURCE_CHARS;
use crate::rules::quality::{concat_idx, count_message, diag_if, line_at, line_span, lines_bounded};
use crate::text::decimal;
use crate::token::Span;

verus! {

/// A line that ends in a space or a tab.
pub open spec fn has_trailing_whitespace(l: Seq<char>) -> bool {
    l.len() > 0 && (l[l.len() - 1] == ' ' || l[l.len() - 1] == '\t')
}

pub open spec fn trailing_whitespace_diag(lines: Seq<String>, i: int, path: Seq<char>) -> Seq<DiagView> {
    diag_if(
        has_trailing_whitespace(lines[i]@),
        warn_view("format/trailing-whitespace"@, "trailing whitespace"@, line_span(i), path),
    )
}

/// The width of a line in columns, a tab counting as four.
pub open spec fn visual_width(s: Seq<char>) -> nat
    decreases s.len(),
{
    if s.len() == 0 {
        0
    } else {
        visual_width(s.drop_last()) + if s.last() == '\t' {
            4nat
        } else {
            1nat
        }
    }
}

fn line_width(l: &[char]) -> (w: usize)
    requires
        l@.len() <= MAX_SOURCE_CHARS,
    ensures
        w == visual_width(l@),
{
    let mut w: usize = 0;
    let mut i: usize = 0;
    while i < l.len()
        invariant
            i <= l@.len() <= MAX_SOURCE_CHARS,
            w == visual_width(l@.take(i as int)),
            w <= 4 * i,
        decreases l@.len() - i,
    {
        assert(l@.take(i + 1).drop_last() == l@.take(i as int));
        if l[i] == '\t' {
            w = w + 4;
        } else {
            w = w + 1;
        }
        i = i + 1;
    }
    assert(l@.take(l@.len() as int) == l@);
    w
}

pub open spec fn line_length_diag(lines: Seq<String>, i: int, max: usize, path: Seq<char>) -> Seq<DiagView> {
    let n = visual_width(lines[i]@);
    diag_if(
        n > max,
        warn_view(
            "format/max-line-length"@,
            "line is "@ + decimal(n) + " columns long (max "@ + decimal(max as nat) + ")"@,
            line_span(i),
            path,
        ),
    )
}

/// Warn about every line that ends in a space or a tab.
pub fn check_trailing_whitespace(file: &ScriptFile, diagnostics: &mut Vec<Diagnostic>)
    ensures
        diag_views(final(diagnostics)@) == diag_views(old(diagnostics)@) + concat_idx(
            file.lines@.len() as int,
            |i: int| trailing_whitespace_diag(file.lines@, i, file.path@),
        ),
{
    let ghost f = |i: int| trailing_whitespace_diag(file.lines@, i, file.path@);
    let n = file.lines.len();
    let mut i: usize = 0;
    while i < n
        invariant
            n == file.lines@.len(),
            i <= n,
            f == (|i: int| trailing_whitespace_diag(file.lines@, i, file.path@)),
            diag_views(diagnostics@) == diag_views(old(diagnostics)@) + concat_idx(i as int, f),
        decreases n - i,
    {
        let ghost before = diag_views(diagnostics@);
        let l = line_at(file, i);
        if l.len() > 0 && (l[l.len() - 1] == ' ' || l[l.len() - 1] == '\t') {
            push_diagnostic(
                diagnostics,
                Diagnostic::warning(
                    "format/trailing-whitespace",
                    "trailing whitespace".to_owned(),
                    Span::new(i + 1, 1, 0, 0),
                    file.path.as_str(),
                ),
            );
        }
        assert(diag_views(diagnostics@) == before + f(i as int));
        i = i + 1;
    }
}

/// Warn about every line wider than `config.max_line_length` columns, a tab
/// counting as four.
pub fn check_max_line_length(file: &ScriptFile, config: &Config, diagnostics: &mut Vec<Diagnostic>)
    requires
        lines_bounded(file.lines@),
    ensures
        diag_views(final(diagnostics)@) == diag_views(old(diagnostics)@) + concat_idx(
            file.lines@.len() as int,
            |i: int| line_length_diag(file.lines@, i, config.max_line_length, file.path@),
        ),
{
    let ghost f = |i: int| line_length_diag(file.lines@, i, config.max_line_length, file.path@);
    let n = file.lines.len();
    let mut i: usize = 0;
    while i < n
        invariant
            n == file.lines@.len(),
            lines_bounded(file.lines@),
            i <= n,
            f == (|i: int| line_length_diag(file.lines@, i, config.max_line_length, file.path@)),
            diag_views(diagnostics@) == diag_views(old(diagnostics)@) + concat_idx(i as int, f),
        decreases n - i,
    {
        let ghost before = diag_views(diagnostics@);
        let l = line_at(file, i);
        let width = line_width(l.as_slice());
        if width > config.max_line_length {
            let msg = count_message("line is ", width, " columns long (max ", config.max_line_length, ")");
            push_diagnostic(
                diagnostics,
                Diagnostic::warning("format/max-line-length", msg, Span::new(i + 1, 1, 0, 0), file.path.as_str()),
            );
        }
        assert(diag_views(diagnostics@) == before + f(i as int));
        i = i + 1;
    }
}

} // verus!
