//! Naming conventions of the Godot style guide for classes, functions and variables.
use vstd::prelude::*;

use crate::ast::{deref_members, flatten, for_each_member, ClassMember, ScriptFile};
use crate::diagnostic::{diag_views, push_diagnostic, warn_view, DiagView, Diagnostic};
use crate::rules::quality::{concat_map, diag_if, lemma_concat_map_step, quote_message};
use crate::text::{chars_of, is_ascii_letter, is_digit};

verus! {

pub open spec fn is_snake_char(c: char) -> bool {
    ('a' <= c && c <= 'z') || is_digit(c) || c == '_'
}

/// `snake_case`: lowercase ASCII letters, digits and underscores (a leading
/// underscore, as in `_ready`, included).
pub open spec fn is_snake_case(n: Seq<char>) -> bool {
    n.len() > 0 && forall|i: int| 0 <= i < n.len() ==> is_snake_char(#[trigger] n[i])
}

/// `PascalCase`: an uppercase ASCII letter followed by ASCII letters and digits.
pub open spec fn is_pascal_case(n: Seq<char>) -> bool {
    &&& n.len() > 0
    &&& 'A' <= n[0] && n[0] <= 'Z'
    &&& forall|i: int| 0 <= i < n.len() ==> is_ascii_letter(#[trigger] n[i]) || is_digit(n[i])
}

pub open spec fn is_screaming_char(c: char) -> bool {
    ('A' <= c && c <= 'Z') || is_digit(c) || c == '_'
}

/// `SCREAMING_SNAKE_CASE`: uppercase ASCII letters, digits and underscores.
pub open spec fn is_screaming_case(n: Seq<char>) -> bool {
    n.len() > 0 && forall|i: int| 0 <= i < n.len() ==> is_screaming_char(#[trigger] n[i])
}

fn screaming_case(n: &[char]) -> (r: bool)
    ensures
        r == is_screaming_case(n@),
{
    if n.len() == 0 {
        return false;
    }
    let mut i: usize = 0;
    while i < n.len()
        invariant
            i <= n@.len(),
            forall|k: int| 0 <= k < i ==> is_screaming_char(#[trigger] n@[k]),
        decreases n@.len() - i,
    {
        let c = n[i];
        if !(('A' <= c && c <= 'Z') || ('0' <= c && c <= '9') || c == '_') {
            return false;
        }
        i = i + 1;
    }
    true
}

fn snake_case(n: &[char]) -> (r: bool)
    ensures
        r == is_snake_case(n@),
{
    if n.len() == 0 {
        return false;
    }
    let mut i: usize = 0;
    while i < n.len()
        invariant
            i <= n@.len(),
            forall|k: int| 0 <= k < i ==> is_snake_char(#[trigger] n@[k]),
        decreases n@.len() - i,
    {
        let c = n[i];
        if !(('a' <= c && c <= 'z') || ('0' <= c && c <= '9') || c == '_') {
            return false;
        }
        i = i + 1;
    }
    true
}

fn pascal_case(n: &[char]) -> (r: bool)
    ensures
        r == is_pascal_case(n@),
{
    if n.len() == 0 || !('A' <= n[0] && n[0] <= 'Z') {
        return false;
    }
    let mut i: usize = 0;
    while i < n.len()
        invariant
            i <= n@.len(),
            forall|k: int| 0 <= k < i ==> is_ascii_letter(#[trigger] n@[k]) || is_digit(n@[k]),
        decreases n@.len() - i,
    {
        let c = n[i];
        if !(('a' <= c && c <= 'z') || ('A' <= c && c <= 'Z') || ('0' <= c && c <= '9')) {
            return false;
        }
        i = i + 1;
    }
    true
}

/// The naming finding for a member: class names (0), function names (1) or
/// variable names (2).
pub open spec fn naming_diag(m: ClassMember, which: u8, path: Seq<char>) -> Seq<DiagView> {
    match m {
        ClassMember::ClassNameDecl { name, name_span, .. } => diag_if(
            which == 0 && !is_pascal_case(name@),
            warn_view(
                "naming/class-name-pascal-case"@,
                "class name '"@ + name@ + "' should be PascalCase"@,
                name_span,
                path,
            ),
        ),
        ClassMember::InnerClass { name, name_span, .. } => diag_if(
            which == 0 && !is_pascal_case(name@),
            warn_view(
                "naming/class-name-pascal-case"@,
                "class name '"@ + name@ + "' should be PascalCase"@,
                name_span,
                path,
            ),
        ),
        ClassMember::Function { name, name_span, .. } => diag_if(
            which == 1 && !is_snake_case(name@),
            warn_view(
                "naming/function-name-snake-case"@,
                "function name '"@ + name@ + "' should be snake_case"@,
                name_span,
                path,
            ),
        ),
        ClassMember::Variable { name, name_span, .. } => diag_if(
            which == 2 && !is_snake_case(name@),
            warn_view(
                "naming/variable-name-snake-case"@,
                "variable name '"@ + name@ + "' should be snake_case"@,
                name_span,
                path,
            ),
        ),
        ClassMember::StaticVariable { name, name_span, .. } => diag_if(
            which == 2 && !is_snake_case(name@) && !is_screaming_case(name@),
            warn_view(
                "naming/variable-name-snake-case"@,
                "variable name '"@ + name@ + "' should be snake_case"@,
                name_span,
                path,
            ),
        ),
        _ => Seq::empty(),
    }
}

fn check_naming(file: &ScriptFile, which: u8, diagnostics: &mut Vec<Diagnostic>)
    ensures
        diag_views(final(diagnostics)@) == diag_views(old(diagnostics)@) + concat_map(
            flatten(file.members@),
            |m: ClassMember| naming_diag(m, which, file.path@),
        ),
{
    let ghost f = |m: ClassMember| naming_diag(m, which, file.path@);
    let visited = for_each_member(file.members.as_slice());
    let ghost all = deref_members(visited@);
    let mut i: usize = 0;
    while i < visited.len()
        invariant
            i <= visited@.len(),
            all == deref_members(visited@),
            f == (|m: ClassMember| naming_diag(m, which, file.path@)),
            diag_views(diagnostics@) == diag_views(old(diagnostics)@) + concat_map(all.take(i as int), f),
        decreases visited@.len() - i,
    {
        let m: &ClassMember = visited[i];
        let ghost before = diag_views(diagnostics@);
        proof {
            lemma_concat_map_step(all, f, i as int);
            assert(all[i as int] == *m);
        }
        match m {
            ClassMember::ClassNameDecl { name, name_span, .. }
            | ClassMember::InnerClass { name, name_span, .. } => {
                if which == 0 && !pascal_case(chars_of(name.as_str()).as_slice()) {
                    let msg = quote_message("class name '", name, "' should be PascalCase");
                    push_diagnostic(
                        diagnostics,
                        Diagnostic::warning("naming/class-name-pascal-case", msg, *name_span, file.path.as_str()),
                    );
                }
            },
            ClassMember::Function { name, name_span, .. } => {
                if which == 1 && !snake_case(chars_of(name.as_str()).as_slice()) {
                    let msg = quote_message("function name '", name, "' should be snake_case");
                    push_diagnostic(
                        diagnostics,
                        Diagnostic::warning("naming/function-name-snake-case", msg, *name_span, file.path.as_str()),
                    );
                }
            },
            ClassMember::Variable { name, name_span, .. } => {
                if which == 2 && !snake_case(chars_of(name.as_str()).as_slice()) {
                    let msg = quote_message("variable name '", name, "' should be snake_case");
                    push_diagnostic(
                        diagnostics,
                        Diagnostic::warning("naming/variable-name-snake-case", msg, *name_span, file.path.as_str()),
                    );
                }
            },
            ClassMember::StaticVariable { name, name_span, .. } => {
                let n = chars_of(name.as_str());
                if which == 2 && !snake_case(n.as_slice()) && !screaming_case(n.as_slice()) {
                    let msg = quote_message("variable name '", name, "' should be snake_case");
                    push_diagnostic(
                        diagnostics,
                        Diagnostic::warning("naming/variable-name-snake-case", msg, *name_span, file.path.as_str()),
                    );
                }
            },
            _ => {},
        }
        assert(diag_views(diagnostics@) == before + f(*m));
        i = i + 1;
    }
    assert(all.take(visited@.len() as int) == all);
}

/// Warn about a `class_name` or inner class whose name is not `PascalCase`.
pub fn check_class_name(file: &ScriptFile, diagnostics: &mut Vec<Diagnostic>)
    ensures
        diag_views(final(diagnostics)@) == diag_views(old(diagnostics)@) + concat_map(
            flatten(file.members@),
            |m: ClassMember| naming_diag(m, 0, file.path@),
        ),
{
    check_naming(file, 0, diagnostics);
}

/// Warn about a function whose name is not `snake_case`.
pub fn check_function_name(file: &ScriptFile, diagnostics: &mut Vec<Diagnostic>)
    ensures
        diag_views(final(diagnostics)@) == diag_views(old(diagnostics)@) + concat_map(
            flatten(file.members@),
            |m: ClassMember| naming_diag(m, 1, file.path@),
        ),
{
    check_naming(file, 1, diagnostics);
}

/// Warn about a class variable whose name is not `snake_case`, or a static
/// variable whose name is neither `snake_case` nor `SCREAMING_SNAKE_CASE`.
pub fn check_variable_name(file: &ScriptFile, diagnostics: &mut Vec<Diagnostic>)
    ensures
        diag_views(final(diagnostics)@) == diag_views(old(diagnostics)@) + concat_map(
            flatten(file.members@),
            |m: ClassMember| naming_diag(m, 2, file.path@),
        ),
{
    check_naming(file, 2, diagnostics);
}

} // verus!
