use vstd::prelude::*;

use crate::ast::{deref_members, flatten, for_each_member, member_span, ClassMember, Parameter, ScriptFile};
use crate::config::Config;
use crate::diagnostic::{diag_views, push_diagnostic, warn_view, DiagView, Diagnostic};
use crate::lexer::{
    char_utf8_len, len_utf8, lemma_utf8_len_take_mono, lemma_utf8_len_take_step, utf8_len,
    MAX_SOURCE_CHARS,
};
use crate::text::{
    ascii_letter, chars_eq, chars_of, chars_range, contains_char, contains_chars, decimal,
    is_ascii_letter, push_chars, seq_contains_seq, seq_starts_with,
    starts_with, string_from_chars, trim, trim_chars, trim_end, trim_end_chars, usize_to_decimal,
};
use crate::token::{Span, Token, TokenKind};

verus! {

// ---------------------------------------------------------------------------
// Specification helpers
// ---------------------------------------------------------------------------

/// The diagnostics `f` gives for each element of `s`, in order, concatenated.
pub open spec fn concat_map<A>(s: Seq<A>, f: spec_fn(A) -> Seq<DiagView>) -> Seq<DiagView>
    decreases s.len(),
{
    if s.len() == 0 {
        Seq::empty()
    } else {
        concat_map(s.subrange(0, s.len() - 1), f) + f(s[s.len() - 1])
    }
}

pub proof fn lemma_concat_map_step<A>(s: Seq<A>, f: spec_fn(A) -> Seq<DiagView>, i: int)
    requires
        0 <= i < s.len(),
    ensures
        concat_map(s.take(i + 1), f) == concat_map(s.take(i), f) + f(s[i]),
{
    assert(s.take(i + 1).subrange(0, i) == s.take(i));
}

/// The diagnostics `f` gives for each index below `n`, in order, concatenated.
pub open spec fn concat_idx(n: int, f: spec_fn(int) -> Seq<DiagView>) -> Seq<DiagView>
    decreases n,
{
    if n <= 0 {
        Seq::empty()
    } else {
        concat_idx(n - 1, f) + f(n - 1)
    }
}

/// One diagnostic when `cond` holds, none otherwise.
pub open spec fn diag_if(cond: bool, d: DiagView) -> Seq<DiagView> {
    if cond {
        seq![d]
    } else {
        Seq::empty()
    }
}

/// The span of a whole-file or whole-class finding: line 1, column 1.
pub open spec fn file_span() -> Span {
    Span { line: 1, column: 1, offset: 0, length: 0 }
}

/// The span of a line-based finding on 0-based line `i`.
pub open spec fn line_span(i: int) -> Span {
    Span { line: (i + 1) as usize, column: 1, offset: 0, length: 0 }
}

/// Append the characters of a string literal.
pub(crate) fn push_lit(v: &mut Vec<char>, s: &str)
    ensures
        final(v)@ == old(v)@ + s@,
{
    let c = chars_of(s);
    push_chars(v, c.as_slice());
}

/// Append the decimal digits of `n`.
pub(crate) fn push_num(v: &mut Vec<char>, n: usize)
    ensures
        final(v)@ == old(v)@ + decimal(n as nat),
{
    let d = usize_to_decimal(n);
    push_chars(v, d.as_slice());
}

/// Append the characters of a `String`.
pub(crate) fn push_string(v: &mut Vec<char>, s: &String)
    ensures
        final(v)@ == old(v)@ + s@,
{
    let c = chars_of(s.as_str());
    push_chars(v, c.as_slice());
}

/// `"<a>'<name>'<b><n><c><max><d>"`: the message shape of the limit rules.
pub(crate) fn limit_message(a: &str, name: &String, b: &str, n: usize, c: &str, max: usize, d: &str) -> (m: String)
    ensures
        m@ == a@ + name@ + b@ + decimal(n as nat) + c@ + decimal(max as nat) + d@,
{
    let mut v = chars_of(a);
    push_string(&mut v, name);
    push_lit(&mut v, b);
    push_num(&mut v, n);
    push_lit(&mut v, c);
    push_num(&mut v, max);
    push_lit(&mut v, d);
    string_from_chars(v.as_slice())
}

/// `"<a><n><c><max><d>"`.
pub(crate) fn count_message(a: &str, n: usize, c: &str, max: usize, d: &str) -> (m: String)
    ensures
        m@ == a@ + decimal(n as nat) + c@ + decimal(max as nat) + d@,
{
    let mut v = chars_of(a);
    push_num(&mut v, n);
    push_lit(&mut v, c);
    push_num(&mut v, max);
    push_lit(&mut v, d);
    string_from_chars(v.as_slice())
}

/// `"<a><x><b>"`.
pub(crate) fn quote_message(a: &str, x: &String, b: &str) -> (m: String)
    ensures
        m@ == a@ + x@ + b@,
{
    let mut v = chars_of(a);
    push_string(&mut v, x);
    push_lit(&mut v, b);
    string_from_chars(v.as_slice())
}

// ---------------------------------------------------------------------------
// max-function-length
// ---------------------------------------------------------------------------

pub open spec fn max_function_length_diag(m: ClassMember, max: usize, path: Seq<char>) -> Seq<DiagView> {
    match m {
        ClassMember::Function { name, body_line_count, span, .. } => diag_if(
            body_line_count > max,
            warn_view(
                "quality/max-function-length"@,
                "function '"@ + name@ + "' is "@ + decimal(body_line_count as nat) + " lines long (max "@
                    + decimal(max as nat) + ")"@,
                span,
                path,
            ),
        ),
        _ => Seq::empty(),
    }
}

/// Warn about every function (inner classes included) whose body is longer
/// than `config.max_function_length` lines.
pub fn check_max_function_length(file: &ScriptFile, config: &Config, diagnostics: &mut Vec<Diagnostic>)
    ensures
        diag_views(final(diagnostics)@) == diag_views(old(diagnostics)@) + concat_map(
            flatten(file.members@),
            |m: ClassMember| max_function_length_diag(m, config.max_function_length, file.path@),
        ),
{
    let ghost f = |m: ClassMember| max_function_length_diag(m, config.max_function_length, file.path@);
    let visited = for_each_member(file.members.as_slice());
    let ghost all = deref_members(visited@);
    let mut i: usize = 0;
    while i < visited.len()
        invariant
            i <= visited@.len(),
            all == deref_members(visited@),
            f == (|m: ClassMember| max_function_length_diag(m, config.max_function_length, file.path@)),
            diag_views(diagnostics@) == diag_views(old(diagnostics)@) + concat_map(all.take(i as int), f),
        decreases visited@.len() - i,
    {
        let m: &ClassMember = visited[i];
        let ghost before = diag_views(diagnostics@);
        proof {
            lemma_concat_map_step(all, f, i as int);
            assert(all[i as int] == *m);
        }
        assert(f(*m) == max_function_length_diag(*m, config.max_function_length, file.path@));
        if let ClassMember::Function { name, body_line_count, span, .. } = m {
            if *body_line_count > config.max_function_length {
                let msg = limit_message(
                    "function '",
                    name,
                    "' is ",
                    *body_line_count,
                    " lines long (max ",
                    config.max_function_length,
                    ")",
                );
                push_diagnostic(
                    diagnostics,
                    Diagnostic::warning("quality/max-function-length", msg, *span, file.path.as_str()),
                );
            }
        }
        assert(diag_views(diagnostics@) == before + f(*m));
        i = i + 1;
    }
    assert(all.take(visited@.len() as int) == all);
}


// ---------------------------------------------------------------------------
// max-file-length, max-parameters
// ---------------------------------------------------------------------------

/// The number of lines of a file split on its newlines: the empty piece after
/// a final newline is no line of its own.
pub open spec fn file_line_count(lines: Seq<String>) -> nat {
    if lines.len() > 0 && lines[lines.len() - 1]@.len() == 0 {
        (lines.len() - 1) as nat
    } else {
        lines.len()
    }
}

pub open spec fn max_file_length_diags(line_count: nat, max: usize, path: Seq<char>) -> Seq<DiagView> {
    diag_if(
        line_count > max,
        warn_view(
            "quality/max-file-length"@,
            "file is "@ + decimal(line_count) + " lines long (max "@ + decimal(max as nat) + ")"@,
            file_span(),
            path,
        ),
    )
}

/// Warn when the file has more than `config.max_file_length` lines (a final
/// newline ends the last line; it does not start another).
pub fn check_max_file_length(file: &ScriptFile, config: &Config, diagnostics: &mut Vec<Diagnostic>)
    ensures
        diag_views(final(diagnostics)@) == diag_views(old(diagnostics)@) + max_file_length_diags(
            file_line_count(file.lines@),
            config.max_file_length,
            file.path@,
        ),
{
    let n = file.lines.len();
    let line_count = if n > 0 && line_at(file, n - 1).len() == 0 {
        n - 1
    } else {
        n
    };
    if line_count > config.max_file_length {
        let msg = count_message("file is ", line_count, " lines long (max ", config.max_file_length, ")");
        push_diagnostic(
            diagnostics,
            Diagnostic::warning("quality/max-file-length", msg, Span::new(1, 1, 0, 0), file.path.as_str()),
        );
    }
}

pub open spec fn max_parameters_diag(m: ClassMember, max: usize, path: Seq<char>) -> Seq<DiagView> {
    match m {
        ClassMember::Function { name, parameters, span, .. } => diag_if(
            parameters@.len() > max,
            warn_view(
                "quality/max-parameters"@,
                "function '"@ + name@ + "' has "@ + decimal(parameters@.len()) + " parameters (max "@
                    + decimal(max as nat) + ")"@,
                span,
                path,
            ),
        ),
        _ => Seq::empty(),
    }
}

/// Warn about every function with more than `config.max_parameters` parameters.
pub fn check_max_parameters(file: &ScriptFile, config: &Config, diagnostics: &mut Vec<Diagnostic>)
    ensures
        diag_views(final(diagnostics)@) == diag_views(old(diagnostics)@) + concat_map(
            flatten(file.members@),
            |m: ClassMember| max_parameters_diag(m, config.max_parameters, file.path@),
        ),
{
    let ghost f = |m: ClassMember| max_parameters_diag(m, config.max_parameters, file.path@);
    let visited = for_each_member(file.members.as_slice());
    let ghost all = deref_members(visited@);
    let mut i: usize = 0;
    while i < visited.len()
        invariant
            i <= visited@.len(),
            all == deref_members(visited@),
            f == (|m: ClassMember| max_parameters_diag(m, config.max_parameters, file.path@)),
            diag_views(diagnostics@) == diag_views(old(diagnostics)@) + concat_map(all.take(i as int), f),
        decreases visited@.len() - i,
    {
        let m: &ClassMember = visited[i];
        let ghost before = diag_views(diagnostics@);
        proof {
            lemma_concat_map_step(all, f, i as int);
            assert(all[i as int] == *m);
        }
        if let ClassMember::Function { name, parameters, span, .. } = m {
            if parameters.len() > config.max_parameters {
                let msg = limit_message(
                    "function '",
                    name,
                    "' has ",
                    parameters.len(),
                    " parameters (max ",
                    config.max_parameters,
                    ")",
                );
                push_diagnostic(
                    diagnostics,
                    Diagnostic::warning("quality/max-parameters", msg, *span, file.path.as_str()),
                );
            }
        }
        assert(diag_views(diagnostics@) == before + f(*m));
        i = i + 1;
    }
    assert(all.take(visited@.len() as int) == all);
}

// ---------------------------------------------------------------------------
// type-hint
// ---------------------------------------------------------------------------

pub open spec fn param_hint_diag(p: Parameter, fname: Seq<char>, path: Seq<char>) -> Seq<DiagView> {
    diag_if(
        p.type_hint is None,
        warn_view(
            "quality/type-hint"@,
            "parameter '"@ + p.name@ + "' in function '"@ + fname + "' has no type hint"@,
            p.span,
            path,
        ),
    )
}

pub open spec fn type_hint_diag(m: ClassMember, path: Seq<char>) -> Seq<DiagView> {
    match m {
        ClassMember::Variable { name, type_hint, name_span, .. } => diag_if(
            type_hint is None,
            warn_view("quality/type-hint"@, "variable '"@ + name@ + "' has no type hint"@, name_span, path),
        ),
        ClassMember::StaticVariable { name, type_hint, name_span, .. } => diag_if(
            type_hint is None,
            warn_view("quality/type-hint"@, "variable '"@ + name@ + "' has no type hint"@, name_span, path),
        ),
        ClassMember::Function { name, parameters, return_type, name_span, .. } => diag_if(
            return_type is None,
            warn_view(
                "quality/type-hint"@,
                "function '"@ + name@ + "' has no return type hint"@,
                name_span,
                path,
            ),
        ) + concat_map(parameters@, |p: Parameter| param_hint_diag(p, name@, path)),
        _ => Seq::empty(),
    }
}

/// Warn about variables without a type hint, functions without a return type,
/// and parameters without a type hint.
pub fn check_type_hint(file: &ScriptFile, diagnostics: &mut Vec<Diagnostic>)
    ensures
        diag_views(final(diagnostics)@) == diag_views(old(diagnostics)@) + concat_map(
            flatten(file.members@),
            |m: ClassMember| type_hint_diag(m, file.path@),
        ),
{
    check_type_hint_recursive(file.members.as_slice(), file.path.as_str(), diagnostics);
}

fn check_type_hint_recursive(members: &[ClassMember], file_path: &str, diagnostics: &mut Vec<Diagnostic>)
    ensures
        diag_views(final(diagnostics)@) == diag_views(old(diagnostics)@) + concat_map(
            flatten(members@),
            |m: ClassMember| type_hint_diag(m, file_path@),
        ),
{
    let ghost f = |m: ClassMember| type_hint_diag(m, file_path@);
    let visited = for_each_member(members);
    let ghost all = deref_members(visited@);
    let mut i: usize = 0;
    while i < visited.len()
        invariant
            i <= visited@.len(),
            all == deref_members(visited@),
            f == (|m: ClassMember| type_hint_diag(m, file_path@)),
            diag_views(diagnostics@) == diag_views(old(diagnostics)@) + concat_map(all.take(i as int), f),
        decreases visited@.len() - i,
    {
        let m: &ClassMember = visited[i];
        let ghost before = diag_views(diagnostics@);
        proof {
            lemma_concat_map_step(all, f, i as int);
            assert(all[i as int] == *m);
        }
        match m {
            ClassMember::Variable { name, type_hint, name_span, .. }
            | ClassMember::StaticVariable { name, type_hint, name_span, .. } => {
                if type_hint.is_none() {
                    let msg = quote_message("variable '", name, "' has no type hint");
                    push_diagnostic(
                        diagnostics,
                        Diagnostic::warning("quality/type-hint", msg, *name_span, file_path),
                    );
                }
            },
            ClassMember::Function { name, parameters, return_type, name_span, .. } => {
                if return_type.is_none() {
                    let msg = quote_message("function '", name, "' has no return type hint");
                    push_diagnostic(
                        diagnostics,
                        Diagnostic::warning("quality/type-hint", msg, *name_span, file_path),
                    );
                }
                let ghost mid = diag_views(diagnostics@);
                let ghost g = |p: Parameter| param_hint_diag(p, name@, file_path@);
                let mut k: usize = 0;
                while k < parameters.len()
                    invariant
                        k <= parameters@.len(),
                        g == (|p: Parameter| param_hint_diag(p, name@, file_path@)),
                        diag_views(diagnostics@) == mid + concat_map(parameters@.take(k as int), g),
                    decreases parameters@.len() - k,
                {
                    let param = &parameters[k];
                    let ghost pre = diag_views(diagnostics@);
                    proof {
                        lemma_concat_map_step(parameters@, g, k as int);
                    }
                    if param.type_hint.is_none() {
                        let mut v = chars_of("parameter '");
                        push_string(&mut v, &param.name);
                        push_lit(&mut v, "' in function '");
                        push_string(&mut v, name);
                        push_lit(&mut v, "' has no type hint");
                        let msg = string_from_chars(v.as_slice());
                        push_diagnostic(
                            diagnostics,
                            Diagnostic::warning("quality/type-hint", msg, param.span, file_path),
                        );
                    }
                    assert(diag_views(diagnostics@) == pre + g(parameters@[k as int]));
                    k = k + 1;
                }
                assert(parameters@.take(parameters@.len() as int) == parameters@);
            },
            _ => {},
        }
        assert(diag_views(diagnostics@) == before + f(*m));
        i = i + 1;
    }
    assert(all.take(visited@.len() as int) == all);
}

// ---------------------------------------------------------------------------
// max-inner-classes, max-class-variables, max-public-methods
// ---------------------------------------------------------------------------

/// The number of members of `ms` that satisfy `p`.
pub open spec fn count_members(ms: Seq<ClassMember>, p: spec_fn(ClassMember) -> bool) -> nat
    decreases ms.len(),
{
    if ms.len() == 0 {
        0
    } else {
        count_members(ms.subrange(0, ms.len() - 1), p) + if p(ms[ms.len() - 1]) {
            1nat
        } else {
            0nat
        }
    }
}

fn count_matching(ms: &[ClassMember], which: u8) -> (n: usize)
    requires
        which <= 2,
    ensures
        n == count_members(ms@, member_pred(which)),
{
    let mut n: usize = 0;
    let mut i: usize = 0;
    while i < ms.len()
        invariant
            i <= ms@.len(),
            which <= 2,
            n == count_members(ms@.take(i as int), member_pred(which)),
            n <= i,
        decreases ms@.len() - i,
    {
        assert(ms@.take(i + 1).subrange(0, i as int) == ms@.take(i as int));
        let hit = match &ms[i] {
            ClassMember::InnerClass { .. } => which == 0,
            ClassMember::Variable { .. } | ClassMember::StaticVariable { .. } => which == 1,
            ClassMember::Function { name, .. } => which == 2 && !starts_with_underscore(name),
            _ => false,
        };
        if hit {
            n = n + 1;
        }
        i = i + 1;
    }
    assert(ms@.take(ms@.len() as int) == ms@);
    n
}

fn starts_with_underscore(s: &String) -> (r: bool)
    ensures
        r == (s@.len() > 0 && s@[0] == '_'),
{
    let c = chars_of(s.as_str());
    c.len() > 0 && c[0] == '_'
}

/// Inner classes (0), class variables (1), or public methods (2).
pub open spec fn member_pred(which: u8) -> spec_fn(ClassMember) -> bool {
    |m: ClassMember| match m {
        ClassMember::InnerClass { .. } => which == 0,
        ClassMember::Variable { .. } => which == 1,
        ClassMember::StaticVariable { .. } => which == 1,
        ClassMember::Function { name, .. } => which == 2 && !(name@.len() > 0 && name@[0] == '_'),
        _ => false,
    }
}

pub open spec fn max_inner_classes_diags(ms: Seq<ClassMember>, max: usize, path: Seq<char>) -> Seq<DiagView> {
    let n = count_members(ms, member_pred(0));
    diag_if(
        n > max,
        warn_view(
            "quality/max-inner-classes"@,
            "file has "@ + decimal(n) + " inner classes (max "@ + decimal(max as nat) + ")"@,
            file_span(),
            path,
        ),
    )
}

/// Warn when the file has more than `config.max_inner_classes` top-level inner classes.
pub fn check_max_inner_classes(file: &ScriptFile, config: &Config, diagnostics: &mut Vec<Diagnostic>)
    ensures
        diag_views(final(diagnostics)@) == diag_views(old(diagnostics)@) + max_inner_classes_diags(
            file.members@,
            config.max_inner_classes,
            file.path@,
        ),
{
    let count = count_matching(file.members.as_slice(), 0);
    if count > config.max_inner_classes {
        let msg = count_message("file has ", count, " inner classes (max ", config.max_inner_classes, ")");
        push_diagnostic(
            diagnostics,
            Diagnostic::warning("quality/max-inner-classes", msg, Span::new(1, 1, 0, 0), file.path.as_str()),
        );
    }
}

/// Where a class-level limit is reported: line 1 for the file's own class,
/// the first member of an inner class otherwise.
pub open spec fn class_span(ms: Seq<ClassMember>, top: bool) -> Span {
    if top || ms.len() == 0 {
        file_span()
    } else {
        member_span(ms[0])
    }
}

fn class_span_exec(ms: &[ClassMember], top: bool) -> (s: Span)
    ensures
        s == class_span(ms@, top),
{
    if top || ms.len() == 0 {
        Span::new(1, 1, 0, 0)
    } else {
        ms[0].span()
    }
}

/// The class-level diagnostics of `ms` (a class body) and of its inner classes, depth first.
/// `which` is 1 for class variables, 2 for public methods.
pub open spec fn class_limit_diags(ms: Seq<ClassMember>, which: u8, max: usize, path: Seq<char>, top: bool) -> Seq<DiagView>
    decreases ms, 1int,
{
    let n = count_members(ms, member_pred(which));
    let own = diag_if(
        n > max,
        if which == 1 {
            warn_view(
                "quality/max-class-variables"@,
                "class has "@ + decimal(n) + " variables (max "@ + decimal(max as nat) + ")"@,
                class_span(ms, top),
                path,
            )
        } else {
            warn_view(
                "quality/max-public-methods"@,
                "class has "@ + decimal(n) + " public methods (max "@ + decimal(max as nat) + ")"@,
                class_span(ms, top),
                path,
            )
        },
    );
    own + class_limit_inner(ms, which, max, path)
}

/// `class_limit_diags` of each inner class among `ms`, in order.
pub open spec fn class_limit_inner(ms: Seq<ClassMember>, which: u8, max: usize, path: Seq<char>) -> Seq<DiagView>
    decreases ms, 0int,
{
    if ms.len() == 0 {
        Seq::empty()
    } else {
        let last = ms[ms.len() - 1];
        class_limit_inner(ms.subrange(0, ms.len() - 1), which, max, path) + match last {
            ClassMember::InnerClass { members, .. } => class_limit_diags(members@, which, max, path, false),
            _ => Seq::empty(),
        }
    }
}

fn check_class_limit_impl(
    members: &[ClassMember],
    file_path: &str,
    which: u8,
    max: usize,
    diagnostics: &mut Vec<Diagnostic>,
    is_top_level: bool,
)
    requires
        which == 1 || which == 2,
    ensures
        diag_views(final(diagnostics)@) == diag_views(old(diagnostics)@) + class_limit_diags(
            members@,
            which,
            max,
            file_path@,
            is_top_level,
        ),
    decreases members@,
{
    let count = count_matching(members, which);
    if count > max {
        let span = class_span_exec(members, is_top_level);
        let msg = if which == 1 {
            count_message("class has ", count, " variables (max ", max, ")")
        } else {
            count_message("class has ", count, " public methods (max ", max, ")")
        };
        let d = if which == 1 {
            Diagnostic::warning("quality/max-class-variables", msg, span, file_path)
        } else {
            Diagnostic::warning("quality/max-public-methods", msg, span, file_path)
        };
        push_diagnostic(diagnostics, d);
    }
    let ghost mid = diag_views(diagnostics@);
    let mut i: usize = 0;
    while i < members.len()
        invariant
            i <= members@.len(),
            which == 1 || which == 2,
            diag_views(diagnostics@) == mid + class_limit_inner(members@.take(i as int), which, max, file_path@),
        decreases members@.len() - i,
    {
        assert(members@.take(i + 1).subrange(0, i as int) == members@.take(i as int));
        let ghost pre = diag_views(diagnostics@);
        if let ClassMember::InnerClass { members: inner, .. } = &members[i] {
            assert(decreases_to!(members@ => inner@));
            check_class_limit_impl(inner.as_slice(), file_path, which, max, diagnostics, false);
        }
        i = i + 1;
    }
    assert(members@.take(members@.len() as int) == members@);
}

/// Warn about every class (the file's and each inner class) with more than
/// `config.max_class_variables` variables.
pub fn check_max_class_variables(file: &ScriptFile, config: &Config, diagnostics: &mut Vec<Diagnostic>)
    ensures
        diag_views(final(diagnostics)@) == diag_views(old(diagnostics)@) + class_limit_diags(
            file.members@,
            1,
            config.max_class_variables,
            file.path@,
            true,
        ),
{
    check_class_limit_impl(file.members.as_slice(), file.path.as_str(), 1, config.max_class_variables, diagnostics, true);
}

/// Warn about every class with more than `config.max_public_methods` methods
/// whose name does not start with `_`.
pub fn check_max_public_methods(file: &ScriptFile, config: &Config, diagnostics: &mut Vec<Diagnostic>)
    ensures
        diag_views(final(diagnostics)@) == diag_views(old(diagnostics)@) + class_limit_diags(
            file.members@,
            2,
            config.max_public_methods,
            file.path@,
            true,
        ),
{
    check_class_limit_impl(file.members.as_slice(), file.path.as_str(), 2, config.max_public_methods, diagnostics, true);
}


// ---------------------------------------------------------------------------
// Line helpers
// ---------------------------------------------------------------------------

pub open spec fn is_indent_char(c: char) -> bool {
    c == '\t' || c == ' '
}

/// The number of leading tabs and spaces of a line.
pub open spec fn indent_of(s: Seq<char>) -> nat
    decreases s.len(),
{
    if s.len() > 0 && is_indent_char(s[0]) {
        1 + indent_of(s.subrange(1, s.len() as int))
    } else {
        0
    }
}

proof fn lemma_indent_of_prefix(s: Seq<char>, k: int)
    requires
        0 <= k <= s.len(),
        forall|j: int| 0 <= j < k ==> is_indent_char(#[trigger] s[j]),
    ensures
        indent_of(s) == k + indent_of(s.subrange(k, s.len() as int)),
    decreases k,
{
    if k > 0 {
        let t = s.subrange(1, s.len() as int);
        assert forall|j: int| 0 <= j < k - 1 implies is_indent_char(#[trigger] t[j]) by {
            assert(t[j] == s[j + 1]);
        }
        assert(is_indent_char(s[0]));
        lemma_indent_of_prefix(t, k - 1);
        assert(t.subrange(k - 1, t.len() as int) == s.subrange(k, s.len() as int));
    } else {
        assert(s.subrange(0, s.len() as int) == s);
    }
}

/// The indentation level (leading tabs and spaces) of a line.
pub(crate) fn indent_level(line: &[char]) -> (n: usize)
    ensures
        n == indent_of(line@),
{
    let mut k: usize = 0;
    while k < line.len() && (line[k] == '\t' || line[k] == ' ')
        invariant
            k <= line@.len(),
            forall|j: int| 0 <= j < k ==> is_indent_char(#[trigger] line@[j]),
        decreases line@.len() - k,
    {
        k = k + 1;
    }
    proof {
        lemma_indent_of_prefix(line@, k as int);
    }
    k
}

/// A trimmed line that holds no code: blank or a comment.
pub open spec fn is_blank_or_comment(t: Seq<char>) -> bool {
    t.len() == 0 || t[0] == '#'
}

fn is_comment_or_blank(trimmed: &[char]) -> (r: bool)
    ensures
        r == is_blank_or_comment(trimmed@),
{
    trimmed.len() == 0 || trimmed[0] == '#'
}

/// The trimmed text of 0-based line `i`.
pub open spec fn tline(lines: Seq<String>, i: int) -> Seq<char> {
    trim(lines[i]@)
}

pub(crate) fn line_at(file: &ScriptFile, i: usize) -> (r: Vec<char>)
    requires
        i < file.lines@.len(),
    ensures
        r@ == file.lines@[i as int]@,
{
    chars_of(file.lines[i].as_str())
}

pub(crate) fn trimmed_line(file: &ScriptFile, i: usize) -> (r: Vec<char>)
    requires
        i < file.lines@.len(),
    ensures
        r@ == tline(file.lines@, i as int),
{
    let l = line_at(file, i);
    trim_chars(l.as_slice())
}

/// The body lines of a function: 0-based indices `span.line .. span.line + count`,
/// cut at the end of the file.
pub open spec fn body_end(line: int, count: int, total: int) -> int {
    if line + count < total {
        line + count
    } else {
        total
    }
}

fn function_body_range(span: &Span, body_line_count: usize, total_lines: usize) -> (r: (usize, usize))
    requires
        span.line + body_line_count <= usize::MAX,
    ensures
        r.0 == span.line,
        r.1 == body_end(span.line as int, body_line_count as int, total_lines as int),
{
    let start = span.line;
    let end = if start + body_line_count < total_lines {
        start + body_line_count
    } else {
        total_lines
    };
    (start, end)
}

/// Every function body can be located: its end does not overflow and it
/// starts within the file (slicing the lines would fail otherwise).
pub open spec fn bodies_in_file(ms: Seq<ClassMember>, total: int) -> bool {
    forall|k: int|
        0 <= k < flatten(ms).len() ==> (#[trigger] flatten(ms)[k] matches ClassMember::Function {
            span,
            body_line_count,
            ..
        } ==> span.line + body_line_count <= usize::MAX && span.line <= total)
}

/// Every non-empty function body can be located.
pub open spec fn nonempty_bodies_in_file(ms: Seq<ClassMember>, total: int) -> bool {
    forall|k: int|
        0 <= k < flatten(ms).len() ==> (#[trigger] flatten(ms)[k] matches ClassMember::Function {
            span,
            body_line_count,
            ..
        } ==> span.line + body_line_count <= usize::MAX && (body_line_count > 0 ==> span.line
            <= total))
}

/// The number of lines in `a..b` whose trimmed text satisfies `p`.
pub open spec fn count_lines(lines: Seq<String>, a: int, b: int, p: spec_fn(Seq<char>) -> bool) -> nat
    decreases b - a,
{
    if b <= a {
        0
    } else {
        count_lines(lines, a, b - 1, p) + if p(tline(lines, b - 1)) {
            1nat
        } else {
            0nat
        }
    }
}

pub open spec fn is_return_line(t: Seq<char>) -> bool {
    t == "return"@ || seq_starts_with(t, "return "@)
}

pub open spec fn is_branch_line(t: Seq<char>) -> bool {
    ||| seq_starts_with(t, "if "@)
    ||| seq_starts_with(t, "if("@)
    ||| seq_starts_with(t, "elif "@)
    ||| seq_starts_with(t, "elif("@)
    ||| seq_starts_with(t, "match "@)
}

pub open spec fn is_local_var_line(t: Seq<char>) -> bool {
    seq_starts_with(t, "var "@)
}

/// Return statements (0), branches (1), or local variable declarations (2).
pub open spec fn line_pred(which: u8) -> spec_fn(Seq<char>) -> bool {
    |t: Seq<char>| if which == 0 {
        is_return_line(t)
    } else if which == 1 {
        is_branch_line(t)
    } else {
        is_local_var_line(t)
    }
}

pub(crate) fn lit_prefix(t: &[char], p: &str) -> (r: bool)
    ensures
        r == seq_starts_with(t@, p@),
{
    let pc = chars_of(p);
    starts_with(t, pc.as_slice())
}

pub(crate) fn lit_eq(t: &[char], p: &str) -> (r: bool)
    ensures
        r == (t@ == p@),
{
    let pc = chars_of(p);
    chars_eq(t, pc.as_slice())
}

fn line_matches(t: &[char], which: u8) -> (r: bool)
    ensures
        r == line_pred(which)(t@),
{
    if which == 0 {
        lit_eq(t, "return") || lit_prefix(t, "return ")
    } else if which == 1 {
        lit_prefix(t, "if ") || lit_prefix(t, "if(") || lit_prefix(t, "elif ") || lit_prefix(t, "elif(")
            || lit_prefix(t, "match ")
    } else {
        lit_prefix(t, "var ")
    }
}

fn count_lines_where(file: &ScriptFile, a: usize, b: usize, which: u8) -> (n: usize)
    requires
        a <= b <= file.lines@.len(),
    ensures
        n == count_lines(file.lines@, a as int, b as int, line_pred(which)),
{
    let mut n: usize = 0;
    let mut k = a;
    while k < b
        invariant
            a <= k <= b <= file.lines@.len(),
            n == count_lines(file.lines@, a as int, k as int, line_pred(which)),
            n <= k - a,
        decreases b - k,
    {
        let t = trimmed_line(file, k);
        if line_matches(t.as_slice(), which) {
            n = n + 1;
        }
        k = k + 1;
    }
    n
}

// ---------------------------------------------------------------------------
// max-returns, max-branches, max-local-variables
// ---------------------------------------------------------------------------

pub open spec fn body_count_diag(m: ClassMember, lines: Seq<String>, which: u8, max: usize, path: Seq<char>) -> Seq<DiagView> {
    match m {
        ClassMember::Function { name, body_line_count, span, .. } => {
            let n = count_lines(
                lines,
                span.line as int,
                body_end(span.line as int, body_line_count as int, lines.len() as int),
                line_pred(which),
            );
            diag_if(
                n > max,
                if which == 0 {
                    warn_view(
                        "quality/max-returns"@,
                        "function '"@ + name@ + "' has "@ + decimal(n) + " return statements (max "@
                            + decimal(max as nat) + ")"@,
                        span,
                        path,
                    )
                } else if which == 1 {
                    warn_view(
                        "quality/max-branches"@,
                        "function '"@ + name@ + "' has "@ + decimal(n) + " branches (max "@
                            + decimal(max as nat) + ")"@,
                        span,
                        path,
                    )
                } else {
                    warn_view(
                        "quality/max-local-variables"@,
                        "function '"@ + name@ + "' has "@ + decimal(n) + " local variables (max "@
                            + decimal(max as nat) + ")"@,
                        span,
                        path,
                    )
                },
            )
        },
        _ => Seq::empty(),
    }
}

fn check_body_counts(file: &ScriptFile, which: u8, max: usize, diagnostics: &mut Vec<Diagnostic>)
    requires
        which <= 2,
        bodies_in_file(file.members@, file.lines@.len() as int),
    ensures
        diag_views(final(diagnostics)@) == diag_views(old(diagnostics)@) + concat_map(
            flatten(file.members@),
            |m: ClassMember| body_count_diag(m, file.lines@, which, max, file.path@),
        ),
{
    let ghost f = |m: ClassMember| body_count_diag(m, file.lines@, which, max, file.path@);
    let visited = for_each_member(file.members.as_slice());
    let ghost all = deref_members(visited@);
    let mut i: usize = 0;
    while i < visited.len()
        invariant
            i <= visited@.len(),
            which <= 2,
            all == deref_members(visited@),
            all == flatten(file.members@),
            bodies_in_file(file.members@, file.lines@.len() as int),
            f == (|m: ClassMember| body_count_diag(m, file.lines@, which, max, file.path@)),
            diag_views(diagnostics@) == diag_views(old(diagnostics)@) + concat_map(all.take(i as int), f),
        decreases visited@.len() - i,
    {
        let m: &ClassMember = visited[i];
        let ghost before = diag_views(diagnostics@);
        proof {
            lemma_concat_map_step(all, f, i as int);
            assert(all[i as int] == *m);
        }
        if let ClassMember::Function { name, body_line_count, span, .. } = m {
            let (a, b) = function_body_range(span, *body_line_count, file.lines.len());
            let n = count_lines_where(file, a, b, which);
            if n > max {
                let msg = if which == 0 {
                    limit_message("function '", name, "' has ", n, " return statements (max ", max, ")")
                } else if which == 1 {
                    limit_message("function '", name, "' has ", n, " branches (max ", max, ")")
                } else {
                    limit_message("function '", name, "' has ", n, " local variables (max ", max, ")")
                };
                let d = if which == 0 {
                    Diagnostic::warning("quality/max-returns", msg, *span, file.path.as_str())
                } else if which == 1 {
                    Diagnostic::warning("quality/max-branches", msg, *span, file.path.as_str())
                } else {
                    Diagnostic::warning("quality/max-local-variables", msg, *span, file.path.as_str())
                };
                push_diagnostic(diagnostics, d);
            }
        }
        assert(diag_views(diagnostics@) == before + f(*m));
        i = i + 1;
    }
    assert(all.take(visited@.len() as int) == all);
}

/// Warn about functions with more than `config.max_returns` lines that are
/// `return` or start with `return `.
pub fn check_max_returns(file: &ScriptFile, config: &Config, diagnostics: &mut Vec<Diagnostic>)
    requires
        bodies_in_file(file.members@, file.lines@.len() as int),
    ensures
        diag_views(final(diagnostics)@) == diag_views(old(diagnostics)@) + concat_map(
            flatten(file.members@),
            |m: ClassMember| body_count_diag(m, file.lines@, 0, config.max_returns, file.path@),
        ),
{
    check_body_counts(file, 0, config.max_returns, diagnostics);
}

/// Warn about functions with more than `config.max_branches` lines starting
/// with `if`, `elif` or `match`.
pub fn check_max_branches(file: &ScriptFile, config: &Config, diagnostics: &mut Vec<Diagnostic>)
    requires
        bodies_in_file(file.members@, file.lines@.len() as int),
    ensures
        diag_views(final(diagnostics)@) == diag_views(old(diagnostics)@) + concat_map(
            flatten(file.members@),
            |m: ClassMember| body_count_diag(m, file.lines@, 1, config.max_branches, file.path@),
        ),
{
    check_body_counts(file, 1, config.max_branches, diagnostics);
}

/// Warn about functions with more than `config.max_local_variables` lines
/// starting with `var `.
pub fn check_max_local_variables(file: &ScriptFile, config: &Config, diagnostics: &mut Vec<Diagnostic>)
    requires
        bodies_in_file(file.members@, file.lines@.len() as int),
    ensures
        diag_views(final(diagnostics)@) == diag_views(old(diagnostics)@) + concat_map(
            flatten(file.members@),
            |m: ClassMember| body_count_diag(m, file.lines@, 2, config.max_local_variables, file.path@),
        ),
{
    check_body_counts(file, 2, config.max_local_variables, diagnostics);
}


// ---------------------------------------------------------------------------
// unreachable-code
// ---------------------------------------------------------------------------

/// No line, and not the number of lines, exceeds the lexer's source limit.
pub open spec fn lines_bounded(lines: Seq<String>) -> bool {
    &&& lines.len() <= MAX_SOURCE_CHARS + 1
    &&& forall|k: int| 0 <= k < lines.len() ==> #[trigger] lines[k]@.len() <= MAX_SOURCE_CHARS
}

pub open spec fn is_quote(c: char) -> bool {
    c == '\u{22}' || c == '\''
}

/// The bracket depth reached after scanning `s` from index `i`, starting at
/// depth `d` inside the string opened by `q` (if any). Brackets inside string
/// literals do not count, a backslash in a string escapes the next character,
/// and a `#` outside strings ends the scan.
pub open spec fn bracket_scan(s: Seq<char>, i: int, q: Option<char>, d: int) -> int
    decreases s.len() + 1 - i,
{
    if i < 0 || i >= s.len() {
        d
    } else {
        let c = s[i];
        match q {
            Some(qc) => if c == '\\' {
                bracket_scan(s, i + 2, q, d)
            } else if c == qc {
                bracket_scan(s, i + 1, None, d)
            } else {
                bracket_scan(s, i + 1, q, d)
            },
            None => if c == '#' {
                d
            } else if is_quote(c) {
                bracket_scan(s, i + 1, Some(c), d)
            } else if c == '\u{28}' || c == '\u{5b}' || c == '\u{7b}' {
                bracket_scan(s, i + 1, None, d + 1)
            } else if c == '\u{29}' || c == '\u{5d}' || c == '\u{7d}' {
                bracket_scan(s, i + 1, None, d - 1)
            } else {
                bracket_scan(s, i + 1, None, d)
            },
        }
    }
}

/// Opening minus closing brackets of a line, outside strings and comments.
pub open spec fn line_delta(s: Seq<char>) -> int {
    bracket_scan(s, 0, None, 0)
}

fn line_bracket_delta(line: &[char]) -> (d: i64)
    requires
        line@.len() <= MAX_SOURCE_CHARS,
    ensures
        d == line_delta(line@),
        -(line@.len() + 1) <= d <= line@.len() + 1,
{
    let n = line.len();
    let mut depth: i64 = 0;
    let mut in_string: Option<char> = None;
    let mut i: usize = 0;
    while i < n
        invariant
            n == line@.len(),
            n <= MAX_SOURCE_CHARS,
            i <= n + 1,
            -(i as int) <= depth <= i,
            bracket_scan(line@, i as int, in_string, depth as int) == line_delta(line@),
        decreases n + 2 - i,
    {
        let ch = line[i];
        match in_string {
            Some(q) => {
                if ch == '\\' {
                    i = i + 2;
                } else {
                    if ch == q {
                        in_string = None;
                    }
                    i = i + 1;
                }
            },
            None => {
                if ch == '#' {
                    return depth;
                } else if ch == '\u{22}' || ch == '\'' {
                    in_string = Some(ch);
                } else if ch == '\u{28}' || ch == '\u{5b}' || ch == '\u{7b}' {
                    depth = depth + 1;
                } else if ch == '\u{29}' || ch == '\u{5d}' || ch == '\u{7d}' {
                    depth = depth - 1;
                }
                i = i + 1;
            },
        }
    }
    depth
}

/// Where the trailing comment of `s` starts (scanning from `i` inside the
/// string opened by `q`, if any), or the length of `s` when it has none.
pub open spec fn comment_scan(s: Seq<char>, i: int, q: Option<char>) -> int
    decreases s.len() + 1 - i,
{
    if i < 0 || i >= s.len() {
        s.len() as int
    } else {
        let c = s[i];
        match q {
            Some(qc) => if c == '\\' {
                comment_scan(s, i + 2, q)
            } else if c == qc {
                comment_scan(s, i + 1, None)
            } else {
                comment_scan(s, i + 1, q)
            },
            None => if c == '#' {
                i
            } else if is_quote(c) {
                comment_scan(s, i + 1, Some(c))
            } else {
                comment_scan(s, i + 1, None)
            },
        }
    }
}

/// `s` without its trailing `#` comment (a `#` inside a string does not count).
pub open spec fn strip_comment(s: Seq<char>) -> Seq<char> {
    s.take(comment_scan(s, 0, None))
}

fn strip_trailing_comment(line: &[char]) -> (r: Vec<char>)
    requires
        line@.len() <= MAX_SOURCE_CHARS,
    ensures
        r@ == strip_comment(line@),
{
    let n = line.len();
    let mut in_string: Option<char> = None;
    let mut i: usize = 0;
    while i < n
        invariant
            n == line@.len(),
            n <= MAX_SOURCE_CHARS,
            i <= n + 1,
            comment_scan(line@, i as int, in_string) == comment_scan(line@, 0, None),
        decreases n + 2 - i,
    {
        let ch = line[i];
        match in_string {
            Some(q) => {
                if ch == '\\' {
                    i = i + 2;
                } else {
                    if ch == q {
                        in_string = None;
                    }
                    i = i + 1;
                }
            },
            None => {
                if ch == '#' {
                    return chars_range(line, 0, i);
                } else if ch == '\u{22}' || ch == '\'' {
                    in_string = Some(ch);
                }
                i = i + 1;
            },
        }
    }
    assert(line@.take(n as int) == line@);
    chars_range(line, 0, n)
}

/// The line, without its comment and trailing whitespace, ends in a backslash.
pub open spec fn ends_with_backslash(s: Seq<char>) -> bool {
    let t = trim_end(strip_comment(s));
    t.len() > 0 && t[t.len() - 1] == '\\'
}

fn ends_with_backslash_continuation(line: &[char]) -> (r: bool)
    requires
        line@.len() <= MAX_SOURCE_CHARS,
    ensures
        r == ends_with_backslash(line@),
{
    let no_comment = strip_trailing_comment(line);
    let t = trim_end_chars(no_comment.as_slice());
    t.len() > 0 && t[t.len() - 1] == '\\'
}

/// The last line of a statement whose line `k` has been read with bracket
/// depth `depth`, `bs` telling whether line `k` ended in a backslash: lines
/// are joined while a bracket is open or a backslash continues the line.
pub open spec fn stmt_end_from(lines: Seq<String>, k: int, depth: int, bs: bool) -> int
    decreases lines.len() - k,
{
    if (depth > 0 || bs) && 0 <= k && k + 1 < lines.len() {
        let cont = lines[k + 1]@;
        stmt_end_from(lines, k + 1, depth + line_delta(cont), ends_with_backslash(cont))
    } else {
        k
    }
}

/// The last line of the statement that starts on line `i`.
pub open spec fn stmt_end(lines: Seq<String>, i: int) -> int {
    stmt_end_from(lines, i, line_delta(lines[i]@), ends_with_backslash(lines[i]@))
}

fn statement_end(file: &ScriptFile, i: usize) -> (e: usize)
    requires
        i < file.lines@.len(),
        lines_bounded(file.lines@),
    ensures
        i <= e < file.lines@.len(),
        e == stmt_end(file.lines@, i as int),
{
    let n = file.lines.len();
    let l = line_at(file, i);
    let mut depth: i64 = line_bracket_delta(l.as_slice());
    let mut prev_backslash = ends_with_backslash_continuation(l.as_slice());
    let mut e = i;
    while (depth > 0 || prev_backslash) && e + 1 < n
        invariant
            n == file.lines@.len(),
            lines_bounded(file.lines@),
            i <= e < n,
            -((e - i + 1) * 0x1000_0000) <= depth <= (e - i + 1) * 0x1000_0000,
            stmt_end_from(file.lines@, e as int, depth as int, prev_backslash) == stmt_end(
                file.lines@,
                i as int,
            ),
        decreases n - e,
    {
        e = e + 1;
        let cont = line_at(file, e);
        assert(cont@.len() <= MAX_SOURCE_CHARS);
        let d = line_bracket_delta(cont.as_slice());
        assert(e - i + 1 <= 0x1000_0000);
        depth = depth + d;
        prev_backslash = ends_with_backslash_continuation(cont.as_slice());
    }
    e
}

/// A trimmed line that is a `return` statement: the word `return` alone,
/// before whitespace, or before `(` (not an identifier such as `return_value`).
pub open spec fn is_return_statement(t: Seq<char>) -> bool {
    seq_starts_with(t, "return"@) && (t.len() <= 6 || t[6] == ' ' || t[6] == '\t' || t[6] == '\u{28}')
}

fn is_return_stmt_exec(t: &[char]) -> (r: bool)
    ensures
        r == is_return_statement(t@),
{
    lit_prefix(t, "return") && (t.len() <= 6 || t[6] == ' ' || t[6] == '\t' || t[6] == '\u{28}')
}

/// A trimmed line that ends the flow of its block: a `return` statement,
/// `break` or `continue`.
pub open spec fn is_terminator(t: Seq<char>) -> bool {
    ||| is_return_statement(t)
    ||| t == "break"@
    ||| t == "continue"@
}

fn is_terminator_line(t: &[char]) -> (r: bool)
    ensures
        r == is_terminator(t@),
{
    is_return_stmt_exec(t) || lit_eq(t, "break") || lit_eq(t, "continue")
}

/// A trimmed line that opens a sibling branch: `elif` or `else:`.
pub open spec fn is_else_line(t: Seq<char>) -> bool {
    ||| seq_starts_with(t, "elif "@)
    ||| seq_starts_with(t, "elif("@)
    ||| t == "else:"@
    ||| seq_starts_with(t, "else:"@)
}

fn is_else_line_exec(t: &[char]) -> (r: bool)
    ensures
        r == is_else_line(t@),
{
    lit_prefix(t, "elif ") || lit_prefix(t, "elif(") || lit_eq(t, "else:") || lit_prefix(t, "else:")
}

/// The line reported as unreachable when scanning from line `j` after a
/// terminator indented by `d`: the first code line at that indentation not yet
/// reported, unless a line indented less (the block ended) or a sibling
/// `elif`/`else` comes first. `rep` marks the lines already reported.
pub open spec fn unreachable_target(lines: Seq<String>, j: int, d: nat, rep: Seq<bool>) -> Option<int>
    decreases lines.len() - j,
{
    if j < 0 || j >= lines.len() {
        None
    } else if is_blank_or_comment(tline(lines, j)) {
        unreachable_target(lines, j + 1, d, rep)
    } else if indent_of(lines[j]@) < d {
        None
    } else if indent_of(lines[j]@) == d && !rep[j] {
        if is_else_line(tline(lines, j)) {
            None
        } else {
            Some(j)
        }
    } else {
        unreachable_target(lines, j + 1, d, rep)
    }
}

fn find_unreachable(file: &ScriptFile, start: usize, d: usize, reported: &Vec<bool>) -> (r: Option<usize>)
    requires
        reported@.len() == file.lines@.len(),
    ensures
        match r {
            Some(j) => j < file.lines@.len() && unreachable_target(
                file.lines@,
                start as int,
                d as nat,
                reported@,
            ) == Some(j as int),
            None => unreachable_target(file.lines@, start as int, d as nat, reported@) is None,
        },
{
    let n = file.lines.len();
    let mut j = start;
    while j < n
        invariant
            n == file.lines@.len(),
            reported@.len() == n,
            start <= j,
            unreachable_target(file.lines@, j as int, d as nat, reported@) == unreachable_target(
                file.lines@,
                start as int,
                d as nat,
                reported@,
            ),
        decreases n - j,
    {
        let t = trimmed_line(file, j);
        if !is_comment_or_blank(t.as_slice()) {
            let l = line_at(file, j);
            let indent = indent_level(l.as_slice());
            if indent < d {
                return None;
            }
            if indent == d && !reported[j] {
                if is_else_line_exec(t.as_slice()) {
                    return None;
                }
                return Some(j);
            }
        }
        j = j + 1;
    }
    None
}

/// The unreachable-code diagnostics of the terminators found scanning from
/// line `i`, `rep` marking the lines already reported. After a terminator the
/// scan resumes on the line following its statement.
pub open spec fn unreachable_from(lines: Seq<String>, i: int, rep: Seq<bool>, path: Seq<char>) -> Seq<DiagView>
    decreases lines.len() - i,
{
    if i < 0 || i >= lines.len() {
        Seq::empty()
    } else if !is_terminator(tline(lines, i)) {
        unreachable_from(lines, i + 1, rep, path)
    } else {
        let e = stmt_end(lines, i);
        if e < i || e >= lines.len() {
            Seq::empty()
        } else {
            match unreachable_target(lines, e + 1, indent_of(lines[i]@), rep) {
                Some(j) => seq![
                    warn_view("quality/unreachable-code"@, "unreachable code"@, line_span(j), path),
                ] + unreachable_from(lines, e + 1, rep.update(j, true), path),
                None => unreachable_from(lines, e + 1, rep, path),
            }
        }
    }
}

/// `n` unset marks.
fn no_marks(n: usize) -> (v: Vec<bool>)
    ensures
        v@ == Seq::new(n as nat, |k: int| false),
{
    let mut v: Vec<bool> = Vec::new();
    while v.len() < n
        invariant
            v@.len() <= n,
            forall|k: int| 0 <= k < v@.len() ==> !v@[k],
        decreases n - v@.len(),
    {
        v.push(false);
    }
    assert(v@ =~= Seq::new(n as nat, |k: int| false));
    v
}

/// Warn about the first line after a `return`, `break` or `continue`
/// statement (which may span several lines) at the statement's indentation,
/// before the block ends or a sibling `elif`/`else` starts.
pub fn check_unreachable_code(file: &ScriptFile, diagnostics: &mut Vec<Diagnostic>)
    requires
        lines_bounded(file.lines@),
    ensures
        diag_views(final(diagnostics)@) == diag_views(old(diagnostics)@) + unreachable_from(
            file.lines@,
            0,
            Seq::new(file.lines@.len(), |k: int| false),
            file.path@,
        ),
{
    let n = file.lines.len();
    let mut reported = no_marks(n);
    let ghost lines = file.lines@;
    let ghost path = file.path@;
    let ghost total = unreachable_from(lines, 0, reported@, path);
    let mut i: usize = 0;
    while i < n
        invariant
            n == lines.len(),
            lines == file.lines@,
            path == file.path@,
            lines_bounded(lines),
            i <= n,
            reported@.len() == n,
            diag_views(diagnostics@) + unreachable_from(lines, i as int, reported@, path) == diag_views(
                old(diagnostics)@,
            ) + total,
        decreases n - i,
    {
        let t = trimmed_line(file, i);
        if !is_terminator_line(t.as_slice()) {
            i = i + 1;
        } else {
            let l = line_at(file, i);
            let stmt_indent = indent_level(l.as_slice());
            let e = statement_end(file, i);
            let ghost before = diag_views(diagnostics@);
            let ghost rep0 = reported@;
            match find_unreachable(file, e + 1, stmt_indent, &reported) {
                Some(j) => {
                    reported.set(j, true);
                    push_diagnostic(
                        diagnostics,
                        Diagnostic::warning(
                            "quality/unreachable-code",
                            "unreachable code".to_owned(),
                            Span::new(j + 1, 1, 0, 0),
                            file.path.as_str(),
                        ),
                    );
                    let ghost d = warn_view(
                        "quality/unreachable-code"@,
                        "unreachable code"@,
                        line_span(j as int),
                        path,
                    );
                    assert(diag_views(diagnostics@) == before.push(d));
                    assert(unreachable_from(lines, i as int, rep0, path) == seq![d] + unreachable_from(
                        lines,
                        e + 1,
                        reported@,
                        path,
                    ));
                    assert(before.push(d) + unreachable_from(lines, e + 1, reported@, path) =~= before
                        + (seq![d] + unreachable_from(lines, e + 1, reported@, path)));
                },
                None => {},
            }
            i = e + 1;
        }
    }
}


// ---------------------------------------------------------------------------
// no-else-return
// ---------------------------------------------------------------------------

/// The nearest code line (neither blank nor a comment) at or before line `j`.
pub open spec fn prev_code_line(lines: Seq<String>, j: int) -> Option<int>
    decreases j + 1,
{
    if j < 0 || j >= lines.len() {
        None
    } else if is_blank_or_comment(tline(lines, j)) {
        prev_code_line(lines, j - 1)
    } else {
        Some(j)
    }
}

/// The finding for line `i`: an `elif`/`else` whose preceding code line is
/// indented deeper and is a `return` statement.
pub open spec fn else_return_diag(lines: Seq<String>, i: int, path: Seq<char>) -> Seq<DiagView> {
    let t = tline(lines, i);
    if is_else_line(t) {
        match prev_code_line(lines, i - 1) {
            Some(j) => diag_if(
                indent_of(lines[j]@) > indent_of(lines[i]@) && is_return_statement(tline(lines, j)),
                warn_view(
                    "quality/no-else-return"@,
                    "unnecessary '"@ + (if seq_starts_with(t, "elif"@) {
                        "elif"@
                    } else {
                        "else"@
                    }) + "' after 'return'"@,
                    line_span(i),
                    path,
                ),
            ),
            None => Seq::empty(),
        }
    } else {
        Seq::empty()
    }
}

fn prev_code(file: &ScriptFile, i: usize) -> (r: Option<usize>)
    requires
        i <= file.lines@.len(),
    ensures
        match r {
            Some(j) => j < i && prev_code_line(file.lines@, i - 1) == Some(j as int),
            None => prev_code_line(file.lines@, i - 1) is None,
        },
{
    let mut j = i;
    while j > 0
        invariant
            j <= i <= file.lines@.len(),
            prev_code_line(file.lines@, j - 1) == prev_code_line(file.lines@, i - 1),
        decreases j,
    {
        j = j - 1;
        let t = trimmed_line(file, j);
        if !is_comment_or_blank(t.as_slice()) {
            return Some(j);
        }
    }
    None
}

/// Warn about an `elif` or `else` that follows a block ending in `return`.
pub fn check_no_else_return(file: &ScriptFile, diagnostics: &mut Vec<Diagnostic>)
    ensures
        diag_views(final(diagnostics)@) == diag_views(old(diagnostics)@) + concat_idx(
            file.lines@.len() as int,
            |i: int| else_return_diag(file.lines@, i, file.path@),
        ),
{
    let ghost f = |i: int| else_return_diag(file.lines@, i, file.path@);
    let n = file.lines.len();
    let mut i: usize = 0;
    while i < n
        invariant
            n == file.lines@.len(),
            i <= n,
            f == (|i: int| else_return_diag(file.lines@, i, file.path@)),
            diag_views(diagnostics@) == diag_views(old(diagnostics)@) + concat_idx(i as int, f),
        decreases n - i,
    {
        let ghost before = diag_views(diagnostics@);
        let t = trimmed_line(file, i);
        if is_else_line_exec(t.as_slice()) {
            let l = line_at(file, i);
            let current_indent = indent_level(l.as_slice());
            match prev_code(file, i) {
                Some(j) => {
                    let pl = line_at(file, j);
                    let pt = trimmed_line(file, j);
                    if indent_level(pl.as_slice()) > current_indent && is_return_stmt_exec(pt.as_slice()) {
                        let msg = if lit_prefix(t.as_slice(), "elif") {
                            string_from_chars(chars_of("unnecessary 'elif' after 'return'").as_slice())
                        } else {
                            string_from_chars(chars_of("unnecessary 'else' after 'return'").as_slice())
                        };
                        proof {
                            reveal_strlit("unnecessary 'elif' after 'return'");
                            reveal_strlit("unnecessary 'else' after 'return'");
                            reveal_strlit("unnecessary '");
                            reveal_strlit("' after 'return'");
                            reveal_strlit("elif");
                            reveal_strlit("else");
                            assert(msg@ == "unnecessary '"@ + (if seq_starts_with(t@, "elif"@) {
                                "elif"@
                            } else {
                                "else"@
                            }) + "' after 'return'"@);
                        }
                        push_diagnostic(
                            diagnostics,
                            Diagnostic::warning(
                                "quality/no-else-return",
                                msg,
                                Span::new(i + 1, 1, 0, 0),
                                file.path.as_str(),
                            ),
                        );
                    }
                },
                None => {},
            }
        }
        assert(diag_views(diagnostics@) == before + f(i as int));
        i = i + 1;
    }
}

// ---------------------------------------------------------------------------
// await-in-loop, allocation-in-loop
// ---------------------------------------------------------------------------

/// `n` spaces.
pub open spec fn spaces(n: int) -> Seq<char> {
    Seq::new(n as nat, |k: int| ' ')
}

/// The blanked text of `s` once `s[..i]` has been read into `out`, inside the
/// string opened by `q` (if any), `esc` telling whether the previous
/// character was an escaping backslash. String contents become spaces (their
/// quotes stay), and a `#` outside strings turns the rest of the line into
/// spaces, as many as keep the blanked text's UTF-8 length that of `s`.
pub open spec fn blank_scan(s: Seq<char>, i: int, out: Seq<char>, q: Option<char>, esc: bool) -> Seq<char>
    decreases s.len() - i,
{
    if i < 0 || i >= s.len() {
        out
    } else {
        let c = s[i];
        match q {
            Some(qc) => if esc {
                blank_scan(s, i + 1, out.push(' '), q, false)
            } else if c == '\\' {
                blank_scan(s, i + 1, out.push(' '), q, true)
            } else if c == qc {
                blank_scan(s, i + 1, out.push(c), None, false)
            } else {
                blank_scan(s, i + 1, out.push(' '), q, false)
            },
            None => if is_quote(c) {
                blank_scan(s, i + 1, out.push(c), Some(c), esc)
            } else if c == '#' {
                out + spaces(utf8_len(s) - utf8_len(out))
            } else {
                blank_scan(s, i + 1, out.push(c), None, esc)
            },
        }
    }
}

/// `s` with string-literal contents and any trailing comment blanked.
pub open spec fn blank_strings(s: Seq<char>) -> Seq<char> {
    blank_scan(s, 0, Seq::empty(), None, false)
}

/// Every character of `s` is ASCII.
pub open spec fn is_ascii_text(s: Seq<char>) -> bool {
    forall|k: int| 0 <= k < s.len() ==> (#[trigger] s[k] as u32) < 0x80
}

proof fn lemma_ascii_utf8_len(s: Seq<char>)
    requires
        is_ascii_text(s),
    ensures
        utf8_len(s) == s.len(),
    decreases s.len(),
{
    if s.len() > 0 {
        let init = s.subrange(0, s.len() - 1);
        assert(is_ascii_text(init)) by {
            assert forall|k: int| 0 <= k < init.len() implies (#[trigger] init[k] as u32) < 0x80 by {
                assert(init[k] == s[k]);
            }
        }
        lemma_ascii_utf8_len(init);
        assert((s[s.len() - 1] as u32) < 0x80);
    }
}

proof fn lemma_blank_scan_length(s: Seq<char>, i: int, out: Seq<char>, q: Option<char>, esc: bool)
    requires
        is_ascii_text(s),
        is_ascii_text(out),
        0 <= i <= s.len(),
        out.len() == i,
    ensures
        blank_scan(s, i, out, q, esc).len() == s.len(),
        is_ascii_text(blank_scan(s, i, out, q, esc)),
    decreases s.len() - i,
{
    if i < s.len() {
        let c = s[i];
        assert((c as u32) < 0x80);
        assert((' ' as u32) < 0x80);
        let pushed_space = out.push(' ');
        let pushed_c = out.push(c);
        assert(is_ascii_text(pushed_space)) by {
            assert forall|k: int| 0 <= k < pushed_space.len() implies (#[trigger] pushed_space[k] as u32) < 0x80 by {
                if k < out.len() {
                    assert(pushed_space[k] == out[k]);
                }
            }
        }
        assert(is_ascii_text(pushed_c)) by {
            assert forall|k: int| 0 <= k < pushed_c.len() implies (#[trigger] pushed_c[k] as u32) < 0x80 by {
                if k < out.len() {
                    assert(pushed_c[k] == out[k]);
                }
            }
        }
        match q {
            Some(qc) => {
                if esc {
                    lemma_blank_scan_length(s, i + 1, pushed_space, q, false);
                } else if c == '\\' {
                    lemma_blank_scan_length(s, i + 1, pushed_space, q, true);
                } else if c == qc {
                    lemma_blank_scan_length(s, i + 1, pushed_c, None, false);
                } else {
                    lemma_blank_scan_length(s, i + 1, pushed_space, q, false);
                }
            },
            None => {
                if is_quote(c) {
                    lemma_blank_scan_length(s, i + 1, pushed_c, Some(c), esc);
                } else if c == '#' {
                    lemma_ascii_utf8_len(s);
                    lemma_ascii_utf8_len(out);
                    let r = out + spaces(utf8_len(s) - utf8_len(out));
                    assert forall|k: int| 0 <= k < r.len() implies (#[trigger] r[k] as u32) < 0x80 by {
                        if k < out.len() {
                            assert(r[k] == out[k]);
                        } else {
                            assert(r[k] == ' ');
                        }
                    }
                } else {
                    lemma_blank_scan_length(s, i + 1, pushed_c, None, esc);
                }
            },
        }
    }
}

/// Blanking string contents and comments keeps an ASCII line's length, in
/// characters and in UTF-8 bytes, so columns found in the blanked text are
/// columns of the line.
pub proof fn lemma_blank_strings_keeps_length(s: Seq<char>)
    requires
        is_ascii_text(s),
    ensures
        blank_strings(s).len() == s.len(),
        utf8_len(blank_strings(s)) == utf8_len(s),
{
    lemma_blank_scan_length(s, 0, Seq::empty(), None, false);
    lemma_ascii_utf8_len(s);
    lemma_ascii_utf8_len(blank_strings(s));
}

proof fn lemma_utf8_push(s: Seq<char>, c: char)
    ensures
        utf8_len(s.push(c)) == utf8_len(s) + char_utf8_len(c),
{
    assert(s.push(c).subrange(0, s.len() as int) == s);
}

fn utf8_length(s: &[char]) -> (n: usize)
    requires
        s@.len() <= MAX_SOURCE_CHARS,
    ensures
        n == utf8_len(s@),
{
    let mut n: usize = 0;
    let mut i: usize = 0;
    while i < s.len()
        invariant
            i <= s@.len() <= MAX_SOURCE_CHARS,
            n == utf8_len(s@.take(i as int)),
            n <= 4 * i,
        decreases s@.len() - i,
    {
        proof {
            lemma_utf8_len_take_step(s@, i as int);
        }
        n = n + len_utf8(s[i]);
        i = i + 1;
    }
    assert(s@.take(s@.len() as int) == s@);
    n
}

fn blank_strings_and_comments(line: &[char]) -> (r: Vec<char>)
    requires
        line@.len() <= MAX_SOURCE_CHARS,
    ensures
        r@ == blank_strings(line@),
{
    let ghost s = line@;
    let n = line.len();
    let line_bytes = utf8_length(line);
    let mut out: Vec<char> = Vec::new();
    let mut out_bytes: usize = 0;
    let mut in_string: Option<char> = None;
    let mut escaped = false;
    let mut i: usize = 0;
    while i < n
        invariant
            s == line@,
            n == s.len(),
            n <= MAX_SOURCE_CHARS,
            line_bytes == utf8_len(s),
            i <= n,
            out_bytes == utf8_len(out@),
            utf8_len(out@) <= utf8_len(s.take(i as int)),
            blank_scan(s, i as int, out@, in_string, escaped) == blank_strings(s),
        decreases n - i,
    {
        let ch = line[i];
        proof {
            lemma_utf8_len_take_step(s, i as int);
            lemma_utf8_push(out@, ' ');
            lemma_utf8_push(out@, ch);
            lemma_utf8_len_take_mono(s, i as int + 1, n as int);
            assert(s.take(n as int) == s);
        }
        match in_string {
            Some(q) => {
                if escaped {
                    escaped = false;
                    out.push(' ');
                    out_bytes = out_bytes + 1;
                } else if ch == '\\' {
                    escaped = true;
                    out.push(' ');
                    out_bytes = out_bytes + 1;
                } else if ch == q {
                    in_string = None;
                    out.push(ch);
                    out_bytes = out_bytes + len_utf8(ch);
                } else {
                    out.push(' ');
                    out_bytes = out_bytes + 1;
                }
            },
            None => {
                if ch == '\u{22}' || ch == '\'' {
                    in_string = Some(ch);
                    out.push(ch);
                    out_bytes = out_bytes + len_utf8(ch);
                } else if ch == '#' {
                    proof {
                        lemma_utf8_len_take_mono(s, i as int, n as int);
                    }
                    let ghost before = out@;
                    let pad = line_bytes - out_bytes;
                    let mut k: usize = 0;
                    while k < pad
                        invariant
                            k <= pad,
                            out@ == before + spaces(k as int),
                        decreases pad - k,
                    {
                        out.push(' ');
                        k = k + 1;
                        assert(out@ =~= before + spaces(k as int));
                    }
                    return out;
                } else {
                    out.push(ch);
                    out_bytes = out_bytes + len_utf8(ch);
                }
            },
        }
        i = i + 1;
    }
    out
}

pub open spec fn is_code_line(lines: Seq<String>, k: int) -> bool {
    !is_blank_or_comment(tline(lines, k))
}

/// A trimmed line that opens a `for` or `while` loop.
pub open spec fn is_loop_header(t: Seq<char>) -> bool {
    seq_starts_with(t, "for "@) || seq_starts_with(t, "while "@) || t == "while true:"@
}

fn is_loop_header_exec(t: &[char]) -> (r: bool)
    ensures
        r == is_loop_header(t@),
{
    lit_prefix(t, "for ") || lit_prefix(t, "while ") || lit_eq(t, "while true:")
}

/// Line `j` opens a loop that is still open before line `i`: it is a loop
/// header and every code line after it, up to line `i` excluded, is indented deeper.
pub open spec fn loop_open(lines: Seq<String>, j: int, i: int) -> bool {
    &&& 0 <= j < i
    &&& is_code_line(lines, j)
    &&& is_loop_header(tline(lines, j))
    &&& forall|k: int|
        j < k < i && #[trigger] is_code_line(lines, k) ==> indent_of(lines[k]@) > indent_of(lines[j]@)
}

/// Line `i` is a code line in the body of a loop (and not itself a loop header).
pub open spec fn in_loop_body(lines: Seq<String>, i: int) -> bool {
    &&& is_code_line(lines, i)
    &&& !is_loop_header(tline(lines, i))
    &&& exists|j: int| j < i && #[trigger] loop_open(lines, j, i + 1)
}

/// For each line, whether it is a code line inside a loop body.
fn loop_body_lines(file: &ScriptFile) -> (v: Vec<bool>)
    ensures
        v@.len() == file.lines@.len(),
        forall|i: int| 0 <= i < v@.len() ==> v@[i] == in_loop_body(file.lines@, i),
{
    let ghost lines = file.lines@;
    let n = file.lines.len();
    let mut flags: Vec<bool> = Vec::new();
    let mut stack: Vec<usize> = Vec::new();
    let ghost mut hs: Seq<int> = Seq::empty();
    let mut i: usize = 0;
    while i < n
        invariant
            lines == file.lines@,
            n == lines.len(),
            i <= n,
            flags@.len() == i,
            forall|k: int| 0 <= k < i ==> flags@[k] == in_loop_body(lines, k),
            forall|m: int| 0 <= m < hs.len() ==> loop_open(lines, #[trigger] hs[m], i as int),
            stack@.len() == hs.len(),
            forall|m: int| 0 <= m < hs.len() ==> 0 <= #[trigger] hs[m] < i,
            forall|m: int| 0 <= m < hs.len() ==> stack@[m] == indent_of(lines[#[trigger] hs[m]]@),
            forall|m1: int, m2: int| 0 <= m1 < m2 < hs.len() ==> hs[m1] < hs[m2],
            forall|j: int| 0 <= j < i ==> (loop_open(lines, j, i as int) <==> hs.contains(j)),
        decreases n - i,
    {
        let t = trimmed_line(file, i);
        if is_comment_or_blank(t.as_slice()) {
            flags.push(false);
            proof {
                assert forall|j: int| 0 <= j < i + 1 implies (loop_open(lines, j, i + 1) <==> hs.contains(j)) by {
                    if j < i {
                        if loop_open(lines, j, i as int) {
                            assert forall|k: int| j < k < i + 1 && #[trigger] is_code_line(lines, k) implies indent_of(lines[k]@) > indent_of(lines[j]@) by {
                                if k < i {
                                    assert(j < k < i && is_code_line(lines, k));
                                }
                            }
                        }
                        if loop_open(lines, j, i + 1) {
                            assert forall|k: int| j < k < i && #[trigger] is_code_line(lines, k) implies indent_of(lines[k]@) > indent_of(lines[j]@) by {
                                assert(j < k < i + 1 && is_code_line(lines, k));
                            }
                        }
                    } else {
                        assert(!is_code_line(lines, j));
                        assert(!hs.contains(j)) by {
                            if hs.contains(j) {
                                let m = choose|m: int| 0 <= m < hs.len() && hs[m] == j;
                                assert(0 <= hs[m] < i);
                            }
                        }
                    }
                }
                assert(!in_loop_body(lines, i as int));
                assert forall|m: int| 0 <= m < hs.len() implies loop_open(lines, #[trigger] hs[m], i + 1) by {
                    assert(hs.contains(hs[m]));
                }
            }
        } else {
            let l = line_at(file, i);
            let d = indent_level(l.as_slice());
            let ghost hs0 = hs;
            while stack.len() > 0 && stack[stack.len() - 1] >= d
                invariant
                    stack@.len() == hs.len(),
                    hs.len() <= hs0.len(),
                    forall|m: int| 0 <= m < hs.len() ==> hs[m] == hs0[m],
                    forall|m: int| 0 <= m < hs.len() ==> stack@[m] == indent_of(lines[#[trigger] hs[m]]@),
                    forall|m: int| hs.len() <= m < hs0.len() ==> indent_of(lines[#[trigger] hs0[m]]@) >= d,
                decreases stack@.len(),
            {
                stack.pop();
                proof {
                    hs = hs.drop_last();
                }
            }
            proof {
                // The loops still open have headers indented less than line `i`.
                assert forall|m: int| 0 <= m < hs.len() implies indent_of(lines[#[trigger] hs[m]]@) < d by {
                    let top = hs.len() - 1;
                    if m < top {
                        assert(hs0.contains(hs0[m]));
                        assert(loop_open(lines, hs0[m], i as int));
                        assert(hs0[m] < hs0[top]);
                        assert(hs0.contains(hs0[top]));
                        assert(is_code_line(lines, hs0[top]));
                        assert(hs0[m] < hs0[top] < i && is_code_line(lines, hs0[top]));
                    }
                }
                assert forall|j: int| 0 <= j < i implies (loop_open(lines, j, i + 1) <==> hs.contains(j)) by {
                    if loop_open(lines, j, i + 1) {
                        assert forall|k: int| j < k < i && #[trigger] is_code_line(lines, k) implies indent_of(lines[k]@) > indent_of(lines[j]@) by {
                            assert(j < k < i + 1 && is_code_line(lines, k));
                        }
                        assert(loop_open(lines, j, i as int));
                        assert(hs0.contains(j));
                        let m = choose|m: int| 0 <= m < hs0.len() && hs0[m] == j;
                        assert(is_code_line(lines, i as int));
                        assert(j < i < i + 1);
                        assert(indent_of(lines[i as int]@) > indent_of(lines[j]@));
                        if m >= hs.len() {
                            assert(indent_of(lines[hs0[m]]@) >= d);
                        }
                        assert(hs[m] == j);
                    }
                    if hs.contains(j) {
                        let m = choose|m: int| 0 <= m < hs.len() && hs[m] == j;
                        assert(hs0[m] == j);
                        assert(hs0.contains(j));
                        assert(loop_open(lines, j, i as int));
                        assert(indent_of(lines[hs[m]]@) < d);
                        assert forall|k: int| j < k < i + 1 && #[trigger] is_code_line(lines, k) implies indent_of(lines[k]@) > indent_of(lines[j]@) by {
                            if k < i {
                                assert(j < k < i && is_code_line(lines, k));
                            }
                        }
                    }
                }
                if hs.len() > 0 {
                    assert(hs.contains(hs[0]));
                    assert(loop_open(lines, hs[0], i + 1));
                }
            }
            let header = is_loop_header_exec(t.as_slice());
            flags.push(!header && stack.len() > 0);
            proof {
                assert(is_code_line(lines, i as int));
                if in_loop_body(lines, i as int) {
                    let j = choose|j: int| j < i && #[trigger] loop_open(lines, j, i + 1);
                    assert(hs.contains(j));
                }
                if !header && stack.len() > 0 {
                    assert(hs[0] < i);
                    assert(loop_open(lines, hs[0], i + 1));
                }
                assert(flags@[i as int] == in_loop_body(lines, i as int));
            }
            let ghost hs1 = hs;
            if header {
                stack.push(d);
                proof {
                    hs = hs.push(i as int);
                    assert(hs.drop_last() =~= hs1);
                    assert forall|j: int| 0 <= j < i + 1 implies (loop_open(lines, j, i + 1) <==> hs.contains(j)) by {
                        if j < i {
                            if hs.drop_last().contains(j) {
                                let m = choose|m: int| 0 <= m < hs.drop_last().len() && hs.drop_last()[m] == j;
                                assert(hs[m] == j);
                            }
                            if hs.contains(j) {
                                let m = choose|m: int| 0 <= m < hs.len() && hs[m] == j;
                                assert(m < hs.len() - 1);
                                assert(hs.drop_last()[m] == j);
                            }
                        } else {
                            assert(hs[hs.len() - 1] == j);
                            assert(loop_open(lines, j, i + 1));
                        }
                    }
                }
            }
            proof {
                assert forall|m: int| 0 <= m < hs.len() implies loop_open(lines, #[trigger] hs[m], i + 1) by {
                    assert(hs.contains(hs[m]));
                }
            }
        }
        i = i + 1;
    }
    flags
}


/// The blanked line holds an `await`.
pub open spec fn has_await(c: Seq<char>) -> bool {
    seq_starts_with(c, "await "@) || seq_contains_seq(c, " await "@) || seq_starts_with(c, "await("@)
}

pub open spec fn await_diag(lines: Seq<String>, i: int, path: Seq<char>) -> Seq<DiagView> {
    diag_if(
        in_loop_body(lines, i) && has_await(trim(blank_strings(lines[i]@))),
        warn_view("quality/await-in-loop"@, "'await' used inside a loop"@, line_span(i), path),
    )
}

pub open spec fn allocation_diag(lines: Seq<String>, i: int, path: Seq<char>) -> Seq<DiagView> {
    diag_if(
        in_loop_body(lines, i) && seq_contains_seq(blank_strings(lines[i]@), ".new("@),
        warn_view(
            "quality/allocation-in-loop"@,
            "object allocation '.new()' inside a loop"@,
            line_span(i),
            path,
        ),
    )
}

/// Warn about `await` (outside strings and comments) on a line inside the
/// body of a `for` or `while` loop.
pub fn check_await_in_loop(file: &ScriptFile, diagnostics: &mut Vec<Diagnostic>)
    requires
        lines_bounded(file.lines@),
    ensures
        diag_views(final(diagnostics)@) == diag_views(old(diagnostics)@) + concat_idx(
            file.lines@.len() as int,
            |i: int| await_diag(file.lines@, i, file.path@),
        ),
{
    let ghost f = |i: int| await_diag(file.lines@, i, file.path@);
    let flags = loop_body_lines(file);
    let n = file.lines.len();
    let mut i: usize = 0;
    while i < n
        invariant
            n == file.lines@.len(),
            lines_bounded(file.lines@),
            flags@.len() == n,
            forall|k: int| 0 <= k < n ==> flags@[k] == in_loop_body(file.lines@, k),
            i <= n,
            f == (|i: int| await_diag(file.lines@, i, file.path@)),
            diag_views(diagnostics@) == diag_views(old(diagnostics)@) + concat_idx(i as int, f),
        decreases n - i,
    {
        let ghost before = diag_views(diagnostics@);
        if flags[i] {
            let l = line_at(file, i);
            let code = blank_strings_and_comments(l.as_slice());
            let c = trim_chars(code.as_slice());
            let space_await = chars_of(" await ");
            if lit_prefix(c.as_slice(), "await ") || contains_chars(c.as_slice(), space_await.as_slice())
                || lit_prefix(c.as_slice(), "await(") {
                push_diagnostic(
                    diagnostics,
                    Diagnostic::warning(
                        "quality/await-in-loop",
                        "'await' used inside a loop".to_owned(),
                        Span::new(i + 1, 1, 0, 0),
                        file.path.as_str(),
                    ),
                );
            }
        }
        assert(diag_views(diagnostics@) == before + f(i as int));
        i = i + 1;
    }
}

/// Warn about `.new(` (outside strings and comments) on a line inside the
/// body of a `for` or `while` loop.
pub fn check_allocation_in_loop(file: &ScriptFile, diagnostics: &mut Vec<Diagnostic>)
    requires
        lines_bounded(file.lines@),
    ensures
        diag_views(final(diagnostics)@) == diag_views(old(diagnostics)@) + concat_idx(
            file.lines@.len() as int,
            |i: int| allocation_diag(file.lines@, i, file.path@),
        ),
{
    let ghost f = |i: int| allocation_diag(file.lines@, i, file.path@);
    let flags = loop_body_lines(file);
    let n = file.lines.len();
    let mut i: usize = 0;
    while i < n
        invariant
            n == file.lines@.len(),
            lines_bounded(file.lines@),
            flags@.len() == n,
            forall|k: int| 0 <= k < n ==> flags@[k] == in_loop_body(file.lines@, k),
            i <= n,
            f == (|i: int| allocation_diag(file.lines@, i, file.path@)),
            diag_views(diagnostics@) == diag_views(old(diagnostics)@) + concat_idx(i as int, f),
        decreases n - i,
    {
        let ghost before = diag_views(diagnostics@);
        if flags[i] {
            let l = line_at(file, i);
            let code = blank_strings_and_comments(l.as_slice());
            let pat = chars_of(".new(");
            if contains_chars(code.as_slice(), pat.as_slice()) {
                push_diagnostic(
                    diagnostics,
                    Diagnostic::warning(
                        "quality/allocation-in-loop",
                        "object allocation '.new()' inside a loop".to_owned(),
                        Span::new(i + 1, 1, 0, 0),
                        file.path.as_str(),
                    ),
                );
            }
        }
        assert(diag_views(diagnostics@) == before + f(i as int));
        i = i + 1;
    }
}


// ---------------------------------------------------------------------------
// empty-function
// ---------------------------------------------------------------------------

/// A trimmed body line that does nothing: blank, `pass`, or a comment.
pub open spec fn is_pass_or_blank(t: Seq<char>) -> bool {
    t.len() == 0 || t == "pass"@ || t[0] == '#'
}

/// Every line in `a..b` does nothing.
pub open spec fn all_pass_or_blank(lines: Seq<String>, a: int, b: int) -> bool {
    forall|k: int| a <= k < b ==> is_pass_or_blank(#[trigger] tline(lines, k))
}

pub open spec fn empty_function_diag(m: ClassMember, lines: Seq<String>, path: Seq<char>) -> Seq<DiagView> {
    match m {
        ClassMember::Function { name, body_line_count, span, .. } => if body_line_count == 0 {
            seq![warn_view("quality/empty-function"@, "function '"@ + name@ + "' is empty"@, span, path)]
        } else {
            diag_if(
                all_pass_or_blank(
                    lines,
                    span.line as int,
                    body_end(span.line as int, body_line_count as int, lines.len() as int),
                ),
                warn_view(
                    "quality/empty-function"@,
                    "function '"@ + name@ + "' only contains 'pass'"@,
                    span,
                    path,
                ),
            )
        },
        _ => Seq::empty(),
    }
}

fn all_pass_or_blank_exec(file: &ScriptFile, a: usize, b: usize) -> (r: bool)
    requires
        a <= b <= file.lines@.len(),
    ensures
        r == all_pass_or_blank(file.lines@, a as int, b as int),
{
    let mut k = a;
    while k < b
        invariant
            a <= k <= b <= file.lines@.len(),
            all_pass_or_blank(file.lines@, a as int, k as int),
        decreases b - k,
    {
        let t = trimmed_line(file, k);
        if !(t.len() == 0 || lit_eq(t.as_slice(), "pass") || t[0] == '#') {
            return false;
        }
        k = k + 1;
    }
    true
}

/// Warn about functions whose body is empty or holds only `pass`, blank
/// lines and comments.
pub fn check_empty_function(file: &ScriptFile, diagnostics: &mut Vec<Diagnostic>)
    requires
        nonempty_bodies_in_file(file.members@, file.lines@.len() as int),
    ensures
        diag_views(final(diagnostics)@) == diag_views(old(diagnostics)@) + concat_map(
            flatten(file.members@),
            |m: ClassMember| empty_function_diag(m, file.lines@, file.path@),
        ),
{
    let ghost f = |m: ClassMember| empty_function_diag(m, file.lines@, file.path@);
    let visited = for_each_member(file.members.as_slice());
    let ghost all = deref_members(visited@);
    let mut i: usize = 0;
    while i < visited.len()
        invariant
            i <= visited@.len(),
            all == deref_members(visited@),
            all == flatten(file.members@),
            nonempty_bodies_in_file(file.members@, file.lines@.len() as int),
            f == (|m: ClassMember| empty_function_diag(m, file.lines@, file.path@)),
            diag_views(diagnostics@) == diag_views(old(diagnostics)@) + concat_map(all.take(i as int), f),
        decreases visited@.len() - i,
    {
        let m: &ClassMember = visited[i];
        let ghost before = diag_views(diagnostics@);
        proof {
            lemma_concat_map_step(all, f, i as int);
            assert(all[i as int] == *m);
        }
        if let ClassMember::Function { name, body_line_count, span, .. } = m {
            if *body_line_count == 0 {
                let msg = quote_message("function '", name, "' is empty");
                push_diagnostic(
                    diagnostics,
                    Diagnostic::warning("quality/empty-function", msg, *span, file.path.as_str()),
                );
            } else {
                let (a, b) = function_body_range(span, *body_line_count, file.lines.len());
                if all_pass_or_blank_exec(file, a, b) {
                    let msg = quote_message("function '", name, "' only contains 'pass'");
                    push_diagnostic(
                        diagnostics,
                        Diagnostic::warning("quality/empty-function", msg, *span, file.path.as_str()),
                    );
                }
            }
        }
        assert(diag_views(diagnostics@) == before + f(*m));
        i = i + 1;
    }
    assert(all.take(visited@.len() as int) == all);
}

// ---------------------------------------------------------------------------
// process-get-node
// ---------------------------------------------------------------------------

/// Every function body's end can be computed without overflow.
pub open spec fn body_ends_fit(ms: Seq<ClassMember>) -> bool {
    forall|k: int|
        0 <= k < flatten(ms).len() ==> (#[trigger] flatten(ms)[k] matches ClassMember::Function {
            span,
            body_line_count,
            ..
        } ==> span.line + body_line_count <= usize::MAX)
}

/// A `%` directly followed by a letter, `_` or a quote: a unique-node
/// reference such as `%Player`, as opposed to the modulo operator.
pub open spec fn has_unique_node(t: Seq<char>) -> bool {
    exists|i: int|
        0 <= i && i + 1 < t.len() && #[trigger] t[i] == '%' && (is_ascii_letter(t[i + 1]) || t[i + 1]
            == '_' || is_quote(t[i + 1]))
}

fn has_unique_node_ref(t: &[char]) -> (r: bool)
    ensures
        r == has_unique_node(t@),
{
    let n = t.len();
    let mut i: usize = 0;
    while i < n && i + 1 < n
        invariant
            n == t@.len(),
            forall|j: int|
                0 <= j < i && j + 1 < n && #[trigger] t@[j] == '%' ==> !(is_ascii_letter(t@[j + 1])
                    || t@[j + 1] == '_' || is_quote(t@[j + 1])),
        decreases n - i,
    {
        if t[i] == '%' {
            let c = t[i + 1];
            if ascii_letter(c) || c == '_' || c == '\u{22}' || c == '\'' {
                return true;
            }
        }
        i = i + 1;
    }
    false
}

/// A trimmed line that looks a node up: `get_node(`, `get_node_or_null(`,
/// `$`, or `%Name`.
pub open spec fn has_node_ref(t: Seq<char>) -> bool {
    ||| seq_contains_seq(t, "get_node("@)
    ||| seq_contains_seq(t, "get_node_or_null("@)
    ||| t.contains('$')
    ||| has_unique_node(t)
}

/// A node lookup on line `k`, outside string literals and comments.
pub open spec fn node_ref_diag(lines: Seq<String>, k: int, name: Seq<char>, path: Seq<char>) -> Seq<DiagView> {
    let t = tline(lines, k);
    diag_if(
        !seq_starts_with(t, "#"@) && has_node_ref(blank_strings(lines[k]@)),
        warn_view(
            "quality/process-get-node"@,
            "node lookup in '"@ + name + "()'; cache the node in '_ready' or use '@onready'"@,
            line_span(k),
            path,
        ),
    )
}

pub open spec fn process_get_node_diag(m: ClassMember, lines: Seq<String>, path: Seq<char>) -> Seq<DiagView> {
    match m {
        ClassMember::Function { name, body_line_count, span, .. } => if name@ == "_process"@
            || name@ == "_physics_process"@ {
            let a = span.line as int;
            let b = body_end(a, body_line_count as int, lines.len() as int);
            concat_idx(b - a, |k: int| node_ref_diag(lines, a + k, name@, path))
        } else {
            Seq::empty()
        },
        _ => Seq::empty(),
    }
}

/// Warn about node lookups on the body lines of `_process` and `_physics_process`.
pub fn check_process_get_node(file: &ScriptFile, diagnostics: &mut Vec<Diagnostic>)
    requires
        body_ends_fit(file.members@),
        lines_bounded(file.lines@),
    ensures
        diag_views(final(diagnostics)@) == diag_views(old(diagnostics)@) + concat_map(
            flatten(file.members@),
            |m: ClassMember| process_get_node_diag(m, file.lines@, file.path@),
        ),
{
    let ghost f = |m: ClassMember| process_get_node_diag(m, file.lines@, file.path@);
    let visited = for_each_member(file.members.as_slice());
    let ghost all = deref_members(visited@);
    let mut i: usize = 0;
    while i < visited.len()
        invariant
            i <= visited@.len(),
            all == deref_members(visited@),
            all == flatten(file.members@),
            body_ends_fit(file.members@),
            lines_bounded(file.lines@),
            f == (|m: ClassMember| process_get_node_diag(m, file.lines@, file.path@)),
            diag_views(diagnostics@) == diag_views(old(diagnostics)@) + concat_map(all.take(i as int), f),
        decreases visited@.len() - i,
    {
        let m: &ClassMember = visited[i];
        let ghost before = diag_views(diagnostics@);
        proof {
            lemma_concat_map_step(all, f, i as int);
            assert(all[i as int] == *m);
        }
        if let ClassMember::Function { name, body_line_count, span, .. } = m {
            let nm = chars_of(name.as_str());
            if lit_eq(nm.as_slice(), "_process") || lit_eq(nm.as_slice(), "_physics_process") {
                let (a, b) = function_body_range(span, *body_line_count, file.lines.len());
                let ghost g = |k: int| node_ref_diag(file.lines@, a + k, name@, file.path@);
                let mut idx = a;
                while idx < b
                    invariant
                        a <= idx,
                        a <= b ==> idx <= b,
                        b < a ==> idx == a,
                        b <= file.lines@.len(),
                        lines_bounded(file.lines@),
                        g == (|k: int| node_ref_diag(file.lines@, a + k, name@, file.path@)),
                        diag_views(diagnostics@) == before + concat_idx(idx - a, g),
                    decreases b - idx,
                {
                    let ghost pre = diag_views(diagnostics@);
                    let t = trimmed_line(file, idx);
                    let raw = line_at(file, idx);
                    let code = blank_strings_and_comments(raw.as_slice());
                    let g1 = chars_of("get_node(");
                    let g2 = chars_of("get_node_or_null(");
                    if !lit_prefix(t.as_slice(), "#") && (contains_chars(code.as_slice(), g1.as_slice())
                        || contains_chars(code.as_slice(), g2.as_slice()) || contains_char(code.as_slice(), '$')
                        || has_unique_node_ref(code.as_slice())) {
                        let msg = quote_message(
                            "node lookup in '",
                            name,
                            "()'; cache the node in '_ready' or use '@onready'",
                        );
                        push_diagnostic(
                            diagnostics,
                            Diagnostic::warning(
                                "quality/process-get-node",
                                msg,
                                Span::new(idx + 1, 1, 0, 0),
                                file.path.as_str(),
                            ),
                        );
                    }
                    assert(diag_views(diagnostics@) == pre + g(idx - a));
                    idx = idx + 1;
                }
                proof {
                    if b < a {
                        assert(concat_idx(b - a, g) == Seq::<DiagView>::empty());
                    }
                    assert(g =~= (|k: int| node_ref_diag(file.lines@, span.line as int + k, name@, file.path@)));
                    assert(diag_views(diagnostics@) == before + concat_idx(b - a, g));
                }
            }
        }
        assert(diag_views(diagnostics@) == before + f(*m));
        i = i + 1;
    }
    assert(all.take(visited@.len() as int) == all);
}


// ---------------------------------------------------------------------------
// max-nesting-depth
// ---------------------------------------------------------------------------

/// The least indentation among the non-blank lines of `a..b` (comments count).
pub open spec fn min_indent(lines: Seq<String>, a: int, b: int) -> Option<nat>
    decreases b - a,
{
    if b <= a {
        None
    } else {
        let rest = min_indent(lines, a, b - 1);
        if tline(lines, b - 1).len() == 0 {
            rest
        } else {
            let d = indent_of(lines[b - 1]@);
            match rest {
                Some(m) => Some(if d < m { d } else { m }),
                None => Some(d),
            }
        }
    }
}

/// The base indentation of a body: its least non-blank indentation, 0 if it has none.
pub open spec fn base_indent(lines: Seq<String>, a: int, b: int) -> nat {
    match min_indent(lines, a, b) {
        Some(m) => m,
        None => 0,
    }
}

/// How much deeper than `base` line `k` is indented (0 when it is not).
pub open spec fn depth_at(lines: Seq<String>, k: int, base: nat) -> nat {
    let d = indent_of(lines[k]@);
    if d >= base {
        (d - base) as nat
    } else {
        0
    }
}

/// The least positive indentation beyond `base` of a code line in `a..b`: the
/// width of one block level, if any line is nested at all.
pub open spec fn min_step(lines: Seq<String>, a: int, b: int, base: nat) -> Option<nat>
    decreases b - a,
{
    if b <= a {
        None
    } else {
        let rest = min_step(lines, a, b - 1, base);
        let d = depth_at(lines, b - 1, base);
        if is_code_line(lines, b - 1) && d > 0 {
            match rest {
                Some(m) => Some(if d < m { d } else { m }),
                None => Some(d),
            }
        } else {
            rest
        }
    }
}

/// The width of one block level in the body `a..b` (1 when nothing is nested).
pub open spec fn level_width(lines: Seq<String>, a: int, b: int, base: nat) -> nat {
    match min_step(lines, a, b, base) {
        Some(w) => w,
        None => 1,
    }
}

/// The number of block levels by which line `k` is nested below `base`.
pub open spec fn level_at(lines: Seq<String>, k: int, base: nat, width: nat) -> nat {
    depth_at(lines, k, base) / width
}

/// The greatest nesting level of a code line in `a..b` and the first code
/// line that reaches it (`a` when no code line is nested).
pub open spec fn deepest(lines: Seq<String>, a: int, b: int, base: nat, width: nat) -> (nat, int)
    decreases b - a,
{
    if b <= a {
        (0, a)
    } else {
        let (m, l) = deepest(lines, a, b - 1, base, width);
        if is_code_line(lines, b - 1) && level_at(lines, b - 1, base, width) > m {
            (level_at(lines, b - 1, base, width), b - 1)
        } else {
            (m, l)
        }
    }
}

pub open spec fn nesting_diag(m: ClassMember, lines: Seq<String>, max: usize, path: Seq<char>) -> Seq<DiagView> {
    match m {
        ClassMember::Function { name, body_line_count, span, .. } => if body_line_count == 0 {
            Seq::empty()
        } else {
            let a = span.line as int;
            let b = body_end(a, body_line_count as int, lines.len() as int);
            let base = base_indent(lines, a, b);
            let (depth, line) = deepest(lines, a, b, base, level_width(lines, a, b, base));
            diag_if(
                depth > max,
                warn_view(
                    "quality/max-nesting-depth"@,
                    "function '"@ + name@ + "' has nesting depth "@ + decimal(depth) + " (max "@
                        + decimal(max as nat) + ")"@,
                    line_span(line),
                    path,
                ),
            )
        },
        _ => Seq::empty(),
    }
}

fn level_width_exec(file: &ScriptFile, a: usize, b: usize, base: usize) -> (r: usize)
    requires
        a <= b <= file.lines@.len(),
    ensures
        r == level_width(file.lines@, a as int, b as int, base as nat),
        r > 0,
{
    let mut found = false;
    let mut m: usize = 0;
    let mut k = a;
    while k < b
        invariant
            a <= k <= b <= file.lines@.len(),
            found == (min_step(file.lines@, a as int, k as int, base as nat) is Some),
            found ==> min_step(file.lines@, a as int, k as int, base as nat) == Some(m as nat) && m > 0,
        decreases b - k,
    {
        let t = trimmed_line(file, k);
        if !is_comment_or_blank(t.as_slice()) {
            let l = line_at(file, k);
            let ind = indent_level(l.as_slice());
            if ind > base {
                let d = ind - base;
                if !found || d < m {
                    m = d;
                }
                found = true;
            }
        }
        k = k + 1;
    }
    if found {
        m
    } else {
        1
    }
}

fn base_indent_exec(file: &ScriptFile, a: usize, b: usize) -> (r: usize)
    requires
        a <= b <= file.lines@.len(),
    ensures
        r == base_indent(file.lines@, a as int, b as int),
{
    let mut found = false;
    let mut m: usize = 0;
    let mut k = a;
    while k < b
        invariant
            a <= k <= b <= file.lines@.len(),
            found == (min_indent(file.lines@, a as int, k as int) is Some),
            found ==> min_indent(file.lines@, a as int, k as int) == Some(m as nat),
        decreases b - k,
    {
        let t = trimmed_line(file, k);
        if t.len() > 0 {
            let l = line_at(file, k);
            let d = indent_level(l.as_slice());
            if !found || d < m {
                m = d;
            }
            found = true;
        }
        k = k + 1;
    }
    if found {
        m
    } else {
        0
    }
}

/// Warn about functions in which a code line is nested more than
/// `config.max_nesting_depth` block levels below the body's base, at the first
/// deepest line. One level is the smallest step of indentation in the body, so
/// tabs and spaces count alike.
pub fn check_max_nesting_depth(file: &ScriptFile, config: &Config, diagnostics: &mut Vec<Diagnostic>)
    requires
        nonempty_bodies_in_file(file.members@, file.lines@.len() as int),
        lines_bounded(file.lines@),
    ensures
        diag_views(final(diagnostics)@) == diag_views(old(diagnostics)@) + concat_map(
            flatten(file.members@),
            |m: ClassMember| nesting_diag(m, file.lines@, config.max_nesting_depth, file.path@),
        ),
{
    let ghost f = |m: ClassMember| nesting_diag(m, file.lines@, config.max_nesting_depth, file.path@);
    let visited = for_each_member(file.members.as_slice());
    let ghost all = deref_members(visited@);
    let mut i: usize = 0;
    while i < visited.len()
        invariant
            i <= visited@.len(),
            all == deref_members(visited@),
            all == flatten(file.members@),
            nonempty_bodies_in_file(file.members@, file.lines@.len() as int),
            lines_bounded(file.lines@),
            f == (|m: ClassMember| nesting_diag(m, file.lines@, config.max_nesting_depth, file.path@)),
            diag_views(diagnostics@) == diag_views(old(diagnostics)@) + concat_map(all.take(i as int), f),
        decreases visited@.len() - i,
    {
        let m: &ClassMember = visited[i];
        let ghost before = diag_views(diagnostics@);
        proof {
            lemma_concat_map_step(all, f, i as int);
            assert(all[i as int] == *m);
        }
        if let ClassMember::Function { name, body_line_count, span, .. } = m {
            if *body_line_count > 0 {
                let (a, b) = function_body_range(span, *body_line_count, file.lines.len());
                let base = base_indent_exec(file, a, b);
                let width = level_width_exec(file, a, b, base);
                let mut max_depth: usize = 0;
                let mut max_line = a;
                let mut k = a;
                while k < b
                    invariant
                        a <= k <= b <= file.lines@.len(),
                        file.lines@.len() <= MAX_SOURCE_CHARS + 1,
                        a <= max_line <= b,
                        width > 0,
                        width == level_width(file.lines@, a as int, b as int, base as nat),
                        deepest(file.lines@, a as int, k as int, base as nat, width as nat) == (
                        max_depth as nat,
                        max_line as int,
                        ),
                    decreases b - k,
                {
                    let t = trimmed_line(file, k);
                    if !is_comment_or_blank(t.as_slice()) {
                        let l = line_at(file, k);
                        let ind = indent_level(l.as_slice());
                        let depth = if ind >= base {
                            (ind - base) / width
                        } else {
                            0
                        };
                        if depth > max_depth {
                            max_depth = depth;
                            max_line = k;
                        }
                    }
                    k = k + 1;
                }
                if max_depth > config.max_nesting_depth {
                    let mut v = chars_of("function '");
                    push_string(&mut v, name);
                    push_lit(&mut v, "' has nesting depth ");
                    push_num(&mut v, max_depth);
                    push_lit(&mut v, " (max ");
                    push_num(&mut v, config.max_nesting_depth);
                    push_lit(&mut v, ")");
                    let msg = string_from_chars(v.as_slice());
                    push_diagnostic(
                        diagnostics,
                        Diagnostic::warning(
                            "quality/max-nesting-depth",
                            msg,
                            Span::new(max_line + 1, 1, 0, 0),
                            file.path.as_str(),
                        ),
                    );
                }
            }
        }
        assert(diag_views(diagnostics@) == before + f(*m));
        i = i + 1;
    }
    assert(all.take(visited@.len() as int) == all);
}

// ---------------------------------------------------------------------------
// unnecessary-pass
// ---------------------------------------------------------------------------

/// The code lines (neither blank nor comments) of `a..b`, in order.
pub open spec fn code_lines(lines: Seq<String>, a: int, b: int) -> Seq<int>
    decreases b - a,
{
    if b <= a {
        Seq::empty()
    } else {
        let r = code_lines(lines, a, b - 1);
        if is_code_line(lines, b - 1) {
            r.push(b - 1)
        } else {
            r
        }
    }
}

/// The indentation of the code line at position `m` of `cs`.
pub open spec fn ind(lines: Seq<String>, cs: Seq<int>, m: int) -> nat {
    indent_of(lines[cs[m]]@)
}

/// The code line at position `pos` of `cs` has a sibling statement: the
/// nearest code line before it, or after it, that is not indented deeper has
/// the same indentation.
#[verifier::opaque]
pub open spec fn has_sibling(lines: Seq<String>, cs: Seq<int>, pos: int) -> bool {
    let p = ind(lines, cs, pos);
    ||| exists|m: int|
        0 <= m < pos && #[trigger] ind(lines, cs, m) == p && forall|m2: int|
            m < m2 < pos ==> #[trigger] ind(lines, cs, m2) > p
    ||| exists|m: int|
        pos < m < cs.len() && #[trigger] ind(lines, cs, m) == p && forall|m2: int|
            pos < m2 < m ==> #[trigger] ind(lines, cs, m2) > p
}

pub open spec fn pass_diag(lines: Seq<String>, cs: Seq<int>, pos: int, path: Seq<char>) -> Seq<DiagView> {
    diag_if(
        tline(lines, cs[pos]) == "pass"@ && has_sibling(lines, cs, pos),
        warn_view(
            "quality/unnecessary-pass"@,
            "unnecessary 'pass' statement"@,
            line_span(cs[pos]),
            path,
        ),
    )
}

/// The unnecessary-pass findings of the body lines `a..b` (none when the
/// body has at most one code line).
pub open spec fn body_pass_diags(lines: Seq<String>, a: int, b: int, path: Seq<char>) -> Seq<DiagView> {
    let cs = code_lines(lines, a, b);
    if cs.len() <= 1 {
        Seq::empty()
    } else {
        concat_idx(cs.len() as int, |pos: int| pass_diag(lines, cs, pos, path))
    }
}

pub open spec fn unnecessary_pass_diag(m: ClassMember, lines: Seq<String>, path: Seq<char>) -> Seq<DiagView> {
    match m {
        ClassMember::Function { body_line_count, span, .. } => body_pass_diags(
            lines,
            span.line as int,
            body_end(span.line as int, body_line_count as int, lines.len() as int),
            path,
        ),
        _ => Seq::empty(),
    }
}

/// The `int` values of a sequence of line indices.
pub open spec fn as_ints(v: Seq<usize>) -> Seq<int> {
    v.map_values(|x: usize| x as int)
}

fn pass_has_sibling_statement(file: &ScriptFile, code: &Vec<usize>, inds: &Vec<usize>, pos: usize) -> (r: bool)
    requires
        pos < code@.len(),
        inds@.len() == code@.len(),
        forall|m: int| 0 <= m < code@.len() ==> #[trigger] code@[m] < file.lines@.len(),
        forall|m: int| 0 <= m < code@.len() ==> inds@[m] == #[trigger] ind(file.lines@, as_ints(code@), m),
    ensures
        r == has_sibling(file.lines@, as_ints(code@), pos as int),
{
    let ghost cs = as_ints(code@);
    let ghost lines = file.lines@;
    reveal(has_sibling);
    let p = inds[pos];
    let mut j = pos;
    while j > 0 && inds[j - 1] > p
        invariant
            j <= pos < inds@.len(),
            inds@.len() == cs.len(),
            p == ind(lines, cs, pos as int),
            forall|m: int| 0 <= m < cs.len() ==> inds@[m] == #[trigger] ind(lines, cs, m),
            forall|m2: int| j <= m2 < pos ==> #[trigger] ind(lines, cs, m2) > p,
        decreases j,
    {
        j = j - 1;
    }
    if j > 0 && inds[j - 1] == p {
        assert(ind(lines, cs, j - 1) == p);
        return true;
    }
    proof {
        assert forall|m: int| 0 <= m < pos && #[trigger] ind(lines, cs, m) == p implies !(forall|m2: int|
            m < m2 < pos ==> #[trigger] ind(lines, cs, m2) > p) by {
            if m >= j {
                assert(ind(lines, cs, m) > p);
            } else {
                assert(inds@[j - 1] < p);
                if m < j - 1 {
                    assert(m < j - 1 < pos);
                    assert(ind(lines, cs, j - 1) < p);
                } else {
                    assert(ind(lines, cs, m) < p);
                }
            }
        }
    }
    let n = code.len();
    let mut j = pos + 1;
    while j < n && inds[j] > p
        invariant
            pos < j <= n,
            n == inds@.len(),
            inds@.len() == cs.len(),
            p == ind(lines, cs, pos as int),
            forall|m: int| 0 <= m < cs.len() ==> inds@[m] == #[trigger] ind(lines, cs, m),
            forall|m2: int| pos < m2 < j ==> #[trigger] ind(lines, cs, m2) > p,
        decreases n - j,
    {
        j = j + 1;
    }
    if j < n && inds[j] == p {
        assert(ind(lines, cs, j as int) == p);
        return true;
    }
    proof {
        assert forall|m: int| pos < m < cs.len() && #[trigger] ind(lines, cs, m) == p implies !(forall|m2: int|
            pos < m2 < m ==> #[trigger] ind(lines, cs, m2) > p) by {
            if m < j {
                assert(ind(lines, cs, m) > p);
            } else if m > j {
                assert(pos < j < m);
                assert(ind(lines, cs, j as int) < p);
            }
        }
    }
    false
}

/// The code lines of `a..b` and their indentations.
fn collect_code_lines(file: &ScriptFile, a: usize, b: usize) -> (r: (Vec<usize>, Vec<usize>))
    requires
        a <= b <= file.lines@.len(),
    ensures
        as_ints(r.0@) == code_lines(file.lines@, a as int, b as int),
        r.1@.len() == r.0@.len(),
        forall|q: int| 0 <= q < r.0@.len() ==> #[trigger] r.0@[q] < file.lines@.len(),
        forall|q: int| 0 <= q < r.0@.len() ==> r.1@[q] == #[trigger] ind(file.lines@, as_ints(r.0@), q),
{
    let ghost lines = file.lines@;
    let mut code: Vec<usize> = Vec::new();
    let mut inds: Vec<usize> = Vec::new();
    let mut k = a;
    while k < b
        invariant
            a <= k <= b <= lines.len(),
            lines == file.lines@,
            inds@.len() == code@.len(),
            as_ints(code@) == code_lines(lines, a as int, k as int),
            forall|q: int| 0 <= q < code@.len() ==> #[trigger] code@[q] < k,
            forall|q: int| 0 <= q < code@.len() ==> inds@[q] == #[trigger] ind(lines, as_ints(code@), q),
        decreases b - k,
    {
        let ghost c0 = code@;
        let ghost i0 = inds@;
        let t = trimmed_line(file, k);
        if !is_comment_or_blank(t.as_slice()) {
            let l = line_at(file, k);
            code.push(k);
            inds.push(indent_level(l.as_slice()));
            proof {
                assert(as_ints(code@) =~= as_ints(c0).push(k as int));
                assert forall|q: int| 0 <= q < code@.len() implies inds@[q] == #[trigger] ind(lines, as_ints(code@), q) by {
                    if q < c0.len() {
                        assert(as_ints(code@)[q] == as_ints(c0)[q]);
                        assert(i0[q] == ind(lines, as_ints(c0), q));
                        assert(inds@[q] == i0[q]);
                    } else {
                        assert(as_ints(code@)[q] == k as int);
                    }
                }
            }
        }
        k = k + 1;
    }
    (code, inds)
}

/// The unnecessary-pass findings of the body `a..b`.
fn check_pass_in_body(file: &ScriptFile, a: usize, b: usize, diagnostics: &mut Vec<Diagnostic>)
    requires
        a <= b <= file.lines@.len(),
    ensures
        diag_views(final(diagnostics)@) == diag_views(old(diagnostics)@) + body_pass_diags(
            file.lines@,
            a as int,
            b as int,
            file.path@,
        ),
{
    let ghost lines = file.lines@;
    let total = file.lines.len();
    let (code, inds) = collect_code_lines(file, a, b);
    let ghost cs = as_ints(code@);
    let ghost g = |pos: int| pass_diag(lines, cs, pos, file.path@);
    let ghost before = diag_views(diagnostics@);
    if code.len() > 1 {
        let mut pos: usize = 0;
        while pos < code.len()
            invariant
                lines == file.lines@,
                total == lines.len(),
                pos <= code@.len(),
                inds@.len() == code@.len(),
                cs == as_ints(code@),
                forall|q: int| 0 <= q < code@.len() ==> #[trigger] code@[q] < lines.len(),
                forall|q: int| 0 <= q < code@.len() ==> inds@[q] == #[trigger] ind(lines, cs, q),
                g == (|pos: int| pass_diag(lines, cs, pos, file.path@)),
                diag_views(diagnostics@) == before + concat_idx(pos as int, g),
            decreases code@.len() - pos,
        {
            let ghost pre = diag_views(diagnostics@);
            let line_idx = code[pos];
            assert(line_idx < total);
            let t = trimmed_line(file, line_idx);
            if lit_eq(t.as_slice(), "pass") && pass_has_sibling_statement(file, &code, &inds, pos) {
                push_diagnostic(
                    diagnostics,
                    Diagnostic::warning(
                        "quality/unnecessary-pass",
                        "unnecessary 'pass' statement".to_owned(),
                        Span::new(line_idx + 1, 1, 0, 0),
                        file.path.as_str(),
                    ),
                );
            }
            assert(cs[pos as int] == line_idx);
            assert(diag_views(diagnostics@) == pre + g(pos as int));
            pos = pos + 1;
        }
    }
}

/// Warn about a `pass` in a function body that has a sibling statement in
/// its block (a `pass` alone in its block is required, not redundant).
pub fn check_unnecessary_pass_in_functions(file: &ScriptFile, diagnostics: &mut Vec<Diagnostic>)
    requires
        bodies_in_file(file.members@, file.lines@.len() as int),
    ensures
        diag_views(final(diagnostics)@) == diag_views(old(diagnostics)@) + concat_map(
            flatten(file.members@),
            |m: ClassMember| unnecessary_pass_diag(m, file.lines@, file.path@),
        ),
{
    let ghost f = |m: ClassMember| unnecessary_pass_diag(m, file.lines@, file.path@);
    let visited = for_each_member(file.members.as_slice());
    let ghost all = deref_members(visited@);
    let mut i: usize = 0;
    while i < visited.len()
        invariant
            i <= visited@.len(),
            all == deref_members(visited@),
            all == flatten(file.members@),
            bodies_in_file(file.members@, file.lines@.len() as int),
            f == (|m: ClassMember| unnecessary_pass_diag(m, file.lines@, file.path@)),
            diag_views(diagnostics@) == diag_views(old(diagnostics)@) + concat_map(all.take(i as int), f),
        decreases visited@.len() - i,
    {
        let m: &ClassMember = visited[i];
        let ghost before = diag_views(diagnostics@);
        proof {
            lemma_concat_map_step(all, f, i as int);
            assert(all[i as int] == *m);
        }
        if let ClassMember::Function { body_line_count, span, .. } = m {
            let (a, b) = function_body_range(span, *body_line_count, file.lines.len());
            check_pass_in_body(file, a, b, diagnostics);
        }
        assert(diag_views(diagnostics@) == before + f(*m));
        i = i + 1;
    }
    assert(all.take(visited@.len() as int) == all);
}


// ---------------------------------------------------------------------------
// no-debug-print
// ---------------------------------------------------------------------------

/// The debug printing functions of Godot.
pub open spec fn is_debug_print_name(n: Seq<char>) -> bool {
    ||| n == "print"@
    ||| n == "prints"@
    ||| n == "printt"@
    ||| n == "printraw"@
    ||| n == "print_debug"@
    ||| n == "print_verbose"@
    ||| n == "print_rich"@
    ||| n == "printerr"@
}

fn is_debug_print_function(n: &[char]) -> (r: bool)
    ensures
        r == is_debug_print_name(n@),
{
    lit_eq(n, "print") || lit_eq(n, "prints") || lit_eq(n, "printt") || lit_eq(n, "printraw")
        || lit_eq(n, "print_debug") || lit_eq(n, "print_verbose") || lit_eq(n, "print_rich")
        || lit_eq(n, "printerr")
}

pub open spec fn debug_print_diag(tokens: Seq<Token>, i: int, path: Seq<char>) -> Seq<DiagView> {
    match tokens[i].kind {
        TokenKind::Identifier(name) => diag_if(
            is_debug_print_name(name@) && i + 1 < tokens.len() && tokens[i + 1].kind is LeftParen,
            warn_view(
                "quality/no-debug-print"@,
                "debug '"@ + name@ + "()' call found"@,
                tokens[i].span,
                path,
            ),
        ),
        _ => Seq::empty(),
    }
}

/// Warn about a call of a debug printing function (`print`, `printerr`, ...):
/// its name directly followed by `(`.
pub fn check_no_debug_print(tokens: &[Token], file: &ScriptFile, diagnostics: &mut Vec<Diagnostic>)
    ensures
        diag_views(final(diagnostics)@) == diag_views(old(diagnostics)@) + concat_idx(
            tokens@.len() as int,
            |i: int| debug_print_diag(tokens@, i, file.path@),
        ),
{
    let ghost f = |i: int| debug_print_diag(tokens@, i, file.path@);
    let n = tokens.len();
    let mut i: usize = 0;
    while i < n
        invariant
            n == tokens@.len(),
            i <= n,
            f == (|i: int| debug_print_diag(tokens@, i, file.path@)),
            diag_views(diagnostics@) == diag_views(old(diagnostics)@) + concat_idx(i as int, f),
        decreases n - i,
    {
        let ghost before = diag_views(diagnostics@);
        if let TokenKind::Identifier(name) = &tokens[i].kind {
            let nm = chars_of(name.as_str());
            if is_debug_print_function(nm.as_slice()) && i + 1 < n && matches!(
                tokens[i + 1].kind,
                TokenKind::LeftParen
            ) {
                let msg = quote_message("debug '", name, "()' call found");
                push_diagnostic(
                    diagnostics,
                    Diagnostic::warning("quality/no-debug-print", msg, tokens[i].span, file.path.as_str()),
                );
            }
        }
        assert(diag_views(diagnostics@) == before + f(i as int));
        i = i + 1;
    }
}

// ---------------------------------------------------------------------------
// self-comparison
// ---------------------------------------------------------------------------

pub open spec fn is_comparison(k: TokenKind) -> bool {
    ||| k is Equal
    ||| k is NotEqual
    ||| k is Less
    ||| k is LessEqual
    ||| k is Greater
    ||| k is GreaterEqual
}

pub open spec fn self_comparison_diag(tokens: Seq<Token>, i: int, path: Seq<char>) -> Seq<DiagView> {
    match (tokens[i].kind, tokens[i + 2].kind) {
        (TokenKind::Identifier(l), TokenKind::Identifier(r)) => diag_if(
            is_comparison(tokens[i + 1].kind) && l@ == r@,
            warn_view(
                "quality/self-comparison"@,
                "comparing '"@ + l@ + "' with itself"@,
                tokens[i + 1].span,
                path,
            ),
        ),
        _ => Seq::empty(),
    }
}

/// The number of three-token windows in `n` tokens.
pub open spec fn windows(n: int) -> int {
    if n >= 2 {
        n - 2
    } else {
        0
    }
}

/// Warn about an identifier compared with itself: `x == x`, `x < x`, ...
pub fn check_self_comparison(tokens: &[Token], file: &ScriptFile, diagnostics: &mut Vec<Diagnostic>)
    ensures
        diag_views(final(diagnostics)@) == diag_views(old(diagnostics)@) + concat_idx(
            windows(tokens@.len() as int),
            |i: int| self_comparison_diag(tokens@, i, file.path@),
        ),
{
    let ghost f = |i: int| self_comparison_diag(tokens@, i, file.path@);
    let n = tokens.len();
    let w = n.saturating_sub(2);
    let mut i: usize = 0;
    while i < w
        invariant
            n == tokens@.len(),
            w == windows(n as int),
            i <= w,
            f == (|i: int| self_comparison_diag(tokens@, i, file.path@)),
            diag_views(diagnostics@) == diag_views(old(diagnostics)@) + concat_idx(i as int, f),
        decreases w - i,
    {
        let ghost before = diag_views(diagnostics@);
        let op = &tokens[i + 1];
        let compares = matches!(
            op.kind,
            TokenKind::Equal | TokenKind::NotEqual | TokenKind::Less | TokenKind::LessEqual
                | TokenKind::Greater | TokenKind::GreaterEqual
        );
        if compares {
            if let (TokenKind::Identifier(lname), TokenKind::Identifier(rname)) = (&tokens[i].kind, &tokens[i + 2].kind) {
                let lc = chars_of(lname.as_str());
                let rc = chars_of(rname.as_str());
                if chars_eq(lc.as_slice(), rc.as_slice()) {
                    let msg = quote_message("comparing '", lname, "' with itself");
                    push_diagnostic(
                        diagnostics,
                        Diagnostic::warning("quality/self-comparison", msg, op.span, file.path.as_str()),
                    );
                }
            }
        }
        assert(diag_views(diagnostics@) == before + f(i as int));
        i = i + 1;
    }
}

// ---------------------------------------------------------------------------
// duplicated-load
// ---------------------------------------------------------------------------

/// The path of a `load("...")` or `preload("...")` call whose name is token
/// `i`, for the calls that begin at least three tokens before the end.
pub open spec fn load_path(tokens: Seq<Token>, i: int) -> Option<Seq<char>> {
    if 0 <= i && i + 2 < tokens.len() && (tokens[i].kind matches TokenKind::Identifier(n) && n@
        == "load"@ || tokens[i].kind is Preload) && tokens[i + 1].kind is LeftParen {
        match tokens[i + 2].kind {
            TokenKind::String(info) => Some(info.value@),
            _ => None,
        }
    } else {
        None
    }
}

/// The first call before token `n` that loads `p`.
pub open spec fn first_load(tokens: Seq<Token>, p: Seq<char>, n: int) -> Option<int>
    decreases n,
{
    if n <= 0 {
        None
    } else {
        match first_load(tokens, p, n - 1) {
            Some(j) => Some(j),
            None => if load_path(tokens, n - 1) == Some(p) {
                Some(n - 1)
            } else {
                None
            },
        }
    }
}

pub open spec fn duplicated_load_diag(tokens: Seq<Token>, i: int, path: Seq<char>) -> Seq<DiagView> {
    match load_path(tokens, i) {
        Some(p) => match first_load(tokens, p, i) {
            Some(j) => seq![
                warn_view(
                    "quality/duplicated-load"@,
                    "duplicated load of '"@ + p + "' (first seen at line "@ + decimal(
                        tokens[j].span.line as nat,
                    ) + ")"@,
                    tokens[i].span,
                    path,
                ),
            ],
            None => Seq::empty(),
        },
        None => Seq::empty(),
    }
}

proof fn lemma_first_load_before(tokens: Seq<Token>, p: Seq<char>, n: int)
    ensures
        match first_load(tokens, p, n) {
            Some(j) => 0 <= j < n && load_path(tokens, j) == Some(p),
            None => forall|j: int| 0 <= j < n ==> load_path(tokens, j) != Some(p),
        },
    decreases n,
{
    if n > 0 {
        lemma_first_load_before(tokens, p, n - 1);
    }
}

/// Warn about a `load` or `preload` of a path that an earlier call loaded,
/// naming the line of the first.
pub fn check_duplicated_load(tokens: &[Token], file: &ScriptFile, diagnostics: &mut Vec<Diagnostic>)
    ensures
        diag_views(final(diagnostics)@) == diag_views(old(diagnostics)@) + concat_idx(
            windows(tokens@.len() as int),
            |i: int| duplicated_load_diag(tokens@, i, file.path@),
        ),
{
    let ghost f = |i: int| duplicated_load_diag(tokens@, i, file.path@);
    let n = tokens.len();
    let w = n.saturating_sub(2);
    // The paths loaded so far, each with the line of its first load.
    let mut seen: Vec<(Vec<char>, usize)> = Vec::new();
    let ghost mut firsts: Seq<int> = Seq::empty();
    let mut i: usize = 0;
    while i < w
        invariant
            n == tokens@.len(),
            w == windows(n as int),
            i <= w,
            f == (|i: int| duplicated_load_diag(tokens@, i, file.path@)),
            diag_views(diagnostics@) == diag_views(old(diagnostics)@) + concat_idx(i as int, f),
            firsts.len() == seen@.len(),
            forall|k: int|
                0 <= k < seen@.len() ==> first_load(tokens@, #[trigger] seen@[k].0@, i as int) == Some(
                    firsts[k],
                ) && seen@[k].1 == tokens@[firsts[k]].span.line,
            forall|p: Seq<char>|
                #[trigger] first_load(tokens@, p, i as int) is Some ==> exists|k: int|
                    0 <= k < seen@.len() && seen@[k].0@ == p,
        decreases w - i,
    {
        let ghost before = diag_views(diagnostics@);
        let is_load = match &tokens[i].kind {
            TokenKind::Identifier(name) => lit_eq(chars_of(name.as_str()).as_slice(), "load"),
            TokenKind::Preload => true,
            _ => false,
        };
        let mut path_chars: Option<Vec<char>> = None;
        if is_load && matches!(tokens[i + 1].kind, TokenKind::LeftParen) {
            if let TokenKind::String(info) = &tokens[i + 2].kind {
                path_chars = Some(chars_of(info.value.as_str()));
            }
        }
        assert(match path_chars {
            Some(pc) => load_path(tokens@, i as int) == Some(pc@),
            None => load_path(tokens@, i as int) is None,
        });
        let ghost seen0 = seen@;
        let ghost firsts0 = firsts;
        match path_chars {
            Some(pc) => {
                let ghost p = pc@;
                let mut k: usize = 0;
                while k < seen.len() && !chars_eq(seen[k].0.as_slice(), pc.as_slice())
                    invariant
                        k <= seen@.len(),
                        p == pc@,
                        forall|q: int| 0 <= q < k ==> seen@[q].0@ != p,
                    decreases seen@.len() - k,
                {
                    k = k + 1;
                }
                if k < seen.len() {
                    assert(seen@[k as int].0@ == p);
                    assert(first_load(tokens@, p, i as int) == Some(firsts[k as int]));
                    let first_line = seen[k].1;
                    let mut v = chars_of("duplicated load of '");
                    push_chars(&mut v, pc.as_slice());
                    push_lit(&mut v, "' (first seen at line ");
                    push_num(&mut v, first_line);
                    push_lit(&mut v, ")");
                    let msg = string_from_chars(v.as_slice());
                    push_diagnostic(
                        diagnostics,
                        Diagnostic::warning("quality/duplicated-load", msg, tokens[i].span, file.path.as_str()),
                    );
                    proof {
                        assert forall|q: Seq<char>| #[trigger] first_load(tokens@, q, i + 1) == first_load(tokens@, q, i as int) by {
                            if q != p {
                                assert(load_path(tokens@, i as int) != Some(q));
                            }
                        }
                    }
                } else {
                    proof {
                        if first_load(tokens@, p, i as int) is Some {
                            let q = choose|q: int| 0 <= q < seen@.len() && seen@[q].0@ == p;
                            assert(seen@[q].0@ != p);
                        }
                        assert(first_load(tokens@, p, i + 1) == Some(i as int));
                        assert forall|q: Seq<char>| q != p implies #[trigger] first_load(tokens@, q, i + 1) == first_load(tokens@, q, i as int) by {
                            assert(load_path(tokens@, i as int) != Some(q));
                        }
                    }
                    seen.push((pc, tokens[i].span.line));
                    proof {
                        firsts = firsts.push(i as int);
                        assert forall|k2: int| 0 <= k2 < seen@.len() implies first_load(tokens@, #[trigger] seen@[k2].0@, i + 1) == Some(
                            firsts[k2],
                        ) && seen@[k2].1 == tokens@[firsts[k2]].span.line by {
                            if k2 < seen0.len() {
                                assert(seen@[k2] == seen0[k2]);
                                assert(first_load(tokens@, seen0[k2].0@, i as int) == Some(firsts0[k2]));
                                assert(seen0[k2].0@ != p);
                            }
                        }
                        assert forall|q: Seq<char>| #[trigger] first_load(tokens@, q, i + 1) is Some implies exists|k2: int|
                            0 <= k2 < seen@.len() && seen@[k2].0@ == q by {
                            if q == p {
                                assert(seen@[seen@.len() - 1].0@ == p);
                            } else {
                                assert(first_load(tokens@, q, i as int) is Some);
                                let k2 = choose|k2: int| 0 <= k2 < seen0.len() && seen0[k2].0@ == q;
                                assert(seen@[k2] == seen0[k2]);
                            }
                        }
                    }
                }
            },
            None => {
                proof {
                    assert forall|q: Seq<char>| #[trigger] first_load(tokens@, q, i + 1) == first_load(tokens@, q, i as int) by {}
                }
            },
        }
        assert(diag_views(diagnostics@) == before + f(i as int));
        i = i + 1;
    }
}


// ---------------------------------------------------------------------------
// duplicate-dict-key
// ---------------------------------------------------------------------------

/// What a dictionary key is compared by: a string's value (so `"a"` and `'a'`
/// are the same key), otherwise the token's text.
pub open spec fn key_text(t: Token) -> Seq<char> {
    match t.kind {
        TokenKind::String(info) => info.value@,
        _ => t.text@,
    }
}

pub open spec fn dict_key_diag(k: Seq<char>, first_line: usize, span: Span, path: Seq<char>) -> DiagView {
    warn_view(
        "quality/duplicate-dict-key"@,
        "duplicate dictionary key '"@ + k + "' (first seen at line "@ + decimal(first_line as nat) + ")"@,
        span,
        path,
    )
}

/// Scanning a dictionary literal from token `j` at brace depth `depth`:
/// `expect` tells whether a key may come next (after `{` or `,`, until the
/// entry's first token, which is its key), `keys` maps each key seen at
/// depth 1 to the line it first appeared on. Gives the findings and the index
/// of the brace that closes the literal (or where the tokens end).
pub open spec fn dict_scan(
    tokens: Seq<Token>,
    j: int,
    depth: int,
    expect: bool,
    keys: Map<Seq<char>, usize>,
    path: Seq<char>,
) -> (Seq<DiagView>, int)
    decreases tokens.len() - j, depth,
{
    if j < 0 || j >= tokens.len() || depth <= 0 {
        (Seq::empty(), j)
    } else {
        let t = tokens[j];
        if t.kind is LeftBrace {
            dict_scan(tokens, j + 1, depth + 1, true, keys, path)
        } else if t.kind is RightBrace {
            if depth == 1 {
                dict_scan(tokens, j, 0, expect, keys, path)
            } else {
                dict_scan(tokens, j + 1, depth - 1, expect, keys, path)
            }
        } else if t.kind is Colon && depth == 1 {
            dict_scan(tokens, j + 1, depth, false, keys, path)
        } else if t.kind is Comma && depth == 1 {
            dict_scan(tokens, j + 1, depth, true, keys, path)
        } else if t.kind is Newline {
            dict_scan(tokens, j + 1, depth, expect, keys, path)
        } else if expect && depth == 1 {
            let k = key_text(t);
            if keys.contains_key(k) {
                let (ds, e) = dict_scan(tokens, j + 1, depth, false, keys, path);
                (seq![dict_key_diag(k, keys[k], t.span, path)] + ds, e)
            } else {
                dict_scan(tokens, j + 1, depth, false, keys.insert(k, t.span.line), path)
            }
        } else {
            dict_scan(tokens, j + 1, depth, expect, keys, path)
        }
    }
}

/// The duplicate-key findings of the dictionary literals opened at or after
/// token `i`, in the order of their opening braces; a literal nested in
/// another is examined on its own as well.
pub open spec fn dict_keys_from(tokens: Seq<Token>, i: int, path: Seq<char>) -> Seq<DiagView>
    decreases tokens.len() - i,
{
    if i < 0 || i >= tokens.len() {
        Seq::empty()
    } else if tokens[i].kind is LeftBrace {
        dict_scan(tokens, i + 1, 1, true, Map::empty(), path).0 + dict_keys_from(tokens, i + 1, path)
    } else {
        dict_keys_from(tokens, i + 1, path)
    }
}

fn key_text_exec(t: &Token) -> (r: Vec<char>)
    ensures
        r@ == key_text(*t),
{
    match &t.kind {
        TokenKind::String(info) => chars_of(info.value.as_str()),
        _ => chars_of(t.text.as_str()),
    }
}

/// Scan the dictionary literal whose first token after `{` is `start`.
fn scan_dict(tokens: &[Token], start: usize, file: &ScriptFile, diagnostics: &mut Vec<Diagnostic>) -> (end: usize)
    requires
        1 <= start <= tokens@.len(),
    ensures
        diag_views(final(diagnostics)@) == diag_views(old(diagnostics)@) + dict_scan(
            tokens@,
            start as int,
            1,
            true,
            Map::empty(),
            file.path@,
        ).0,
        end == dict_scan(tokens@, start as int, 1, true, Map::empty(), file.path@).1,
        start <= end <= tokens@.len(),
{
    let ghost path = file.path@;
    let ghost target = dict_scan(tokens@, start as int, 1, true, Map::empty(), path);
    let n = tokens.len();
    let mut keys: Vec<(Vec<char>, usize)> = Vec::new();
    let ghost mut km: Map<Seq<char>, usize> = Map::empty();
    let mut depth: usize = 1;
    let mut expect_key = true;
    let mut j = start;
    while j < n && depth > 0
        invariant
            n == tokens@.len(),
            path == file.path@,
            1 <= start <= j <= n,
            depth <= j - start + 1,
            diag_views(diagnostics@) + dict_scan(tokens@, j as int, depth as int, expect_key, km, path).0
                == diag_views(old(diagnostics)@) + target.0,
            dict_scan(tokens@, j as int, depth as int, expect_key, km, path).1 == target.1,
            forall|k: int| 0 <= k < keys@.len() ==> km.contains_key(#[trigger] keys@[k].0@) && km[keys@[k].0@]
                == keys@[k].1,
            forall|key: Seq<char>| #[trigger] km.contains_key(key) ==> exists|k: int| 0 <= k < keys@.len() && keys@[k].0@ == key,
        decreases n - j, depth,
    {
        let ghost before = diag_views(diagnostics@);
        let t = &tokens[j];
        match &t.kind {
            TokenKind::LeftBrace => {
                assert(depth < n);
                depth = depth + 1;
                expect_key = true;
                j = j + 1;
            },
            TokenKind::RightBrace => {
                depth = depth - 1;
                if depth > 0 {
                    j = j + 1;
                }
            },
            TokenKind::Colon if depth == 1 => {
                expect_key = false;
                j = j + 1;
            },
            TokenKind::Comma if depth == 1 => {
                expect_key = true;
                j = j + 1;
            },
            TokenKind::Newline => {
                j = j + 1;
            },
            _ if expect_key && depth == 1 => {
                let key = key_text_exec(t);
                let ghost kq = key@;
                let mut k: usize = 0;
                while k < keys.len() && !chars_eq(keys[k].0.as_slice(), key.as_slice())
                    invariant
                        k <= keys@.len(),
                        kq == key@,
                        forall|q: int| 0 <= q < k ==> keys@[q].0@ != kq,
                    decreases keys@.len() - k,
                {
                    k = k + 1;
                }
                if k < keys.len() {
                    assert(keys@[k as int].0@ == kq);
                    assert(km.contains_key(kq));
                    let mut v = chars_of("duplicate dictionary key '");
                    push_chars(&mut v, key.as_slice());
                    push_lit(&mut v, "' (first seen at line ");
                    push_num(&mut v, keys[k].1);
                    push_lit(&mut v, ")");
                    let msg = string_from_chars(v.as_slice());
                    push_diagnostic(
                        diagnostics,
                        Diagnostic::warning("quality/duplicate-dict-key", msg, t.span, file.path.as_str()),
                    );
                    proof {
                        let d = dict_key_diag(kq, km[kq], t.span, path);
                        assert(diag_views(diagnostics@) == before.push(d));
                        let rest = dict_scan(tokens@, j + 1, depth as int, false, km, path);
                        assert(before.push(d) + rest.0 =~= before + (seq![d] + rest.0));
                    }
                } else {
                    proof {
                        if km.contains_key(kq) {
                            let q = choose|q: int| 0 <= q < keys@.len() && keys@[q].0@ == kq;
                            assert(keys@[q].0@ != kq);
                        }
                    }
                    let ghost keys0 = keys@;
                    let ghost km0 = km;
                    keys.push((key, t.span.line));
                    proof {
                        km = km.insert(kq, t.span.line);
                        assert forall|q: int| 0 <= q < keys@.len() implies km.contains_key(#[trigger] keys@[q].0@) && km[keys@[q].0@]
                            == keys@[q].1 by {
                            if q < keys0.len() {
                                assert(keys@[q] == keys0[q]);
                                assert(km0.contains_key(keys0[q].0@));
                                assert(keys0[q].0@ != kq);
                            }
                        }
                        assert forall|key2: Seq<char>| #[trigger] km.contains_key(key2) implies exists|q: int|
                            0 <= q < keys@.len() && keys@[q].0@ == key2 by {
                            if key2 == kq {
                                assert(keys@[keys@.len() - 1].0@ == kq);
                            } else {
                                assert(km0.contains_key(key2));
                                let q = choose|q: int| 0 <= q < keys0.len() && keys0[q].0@ == key2;
                                assert(keys@[q] == keys0[q]);
                            }
                        }
                    }
                }
                expect_key = false;
                j = j + 1;
            },
            _ => {
                j = j + 1;
            },
        }
    }
    j
}

/// Warn about a key that appears twice at the top level of a dictionary
/// literal (nested literals are checked each on its own), naming the line of
/// its first appearance. A key is the first token of an entry.
pub fn check_duplicate_dict_key(tokens: &[Token], file: &ScriptFile, diagnostics: &mut Vec<Diagnostic>)
    ensures
        diag_views(final(diagnostics)@) == diag_views(old(diagnostics)@) + dict_keys_from(
            tokens@,
            0,
            file.path@,
        ),
{
    let ghost path = file.path@;
    let ghost target = dict_keys_from(tokens@, 0, path);
    let n = tokens.len();
    let mut i: usize = 0;
    while i < n
        invariant
            n == tokens@.len(),
            path == file.path@,
            diag_views(diagnostics@) + dict_keys_from(tokens@, i as int, path) == diag_views(
                old(diagnostics)@,
            ) + target,
        decreases n - i,
    {
        if matches!(tokens[i].kind, TokenKind::LeftBrace) {
            let ghost before = diag_views(diagnostics@);
            let _end = scan_dict(tokens, i + 1, file, diagnostics);
            proof {
                let ds = dict_scan(tokens@, i + 1, 1, true, Map::empty(), path).0;
                assert(before + (ds + dict_keys_from(tokens@, i + 1, path)) =~= (before + ds)
                    + dict_keys_from(tokens@, i + 1, path));
            }
            i = i + 1;
        } else {
            i = i + 1;
        }
    }
}


// ---------------------------------------------------------------------------
// no-self-assign
// ---------------------------------------------------------------------------

/// The name a token contributes to a dotted chain: an identifier, `self` or `super`.
pub open spec fn seg_name(k: TokenKind) -> Option<Seq<char>> {
    match k {
        TokenKind::Identifier(n) => Some(n@),
        TokenKind::Self_ => Some("self"@),
        TokenKind::Super => Some("super"@),
        _ => None,
    }
}

/// The dotted chain `(self|super|name) (. name)*` that ends at token `k`,
/// read backwards; empty when token `k` cannot end one.
pub open spec fn lhs_chain_at(tokens: Seq<Token>, k: int) -> Seq<Seq<char>>
    decreases k,
{
    if k < 0 || k >= tokens.len() {
        Seq::empty()
    } else {
        match tokens[k].kind {
            TokenKind::Identifier(n) => if k >= 2 && tokens[k - 1].kind is Dot && seg_name(
                tokens[k - 2].kind,
            ) is Some {
                lhs_chain_at(tokens, k - 2).push(n@)
            } else {
                seq![n@]
            },
            TokenKind::Self_ => seq!["self"@],
            TokenKind::Super => seq!["super"@],
            _ => Seq::empty(),
        }
    }
}

/// The left-hand chain of an assignment whose `=` is token `before`.
pub open spec fn lhs_chain(tokens: Seq<Token>, before: int) -> Seq<Seq<char>> {
    if before <= 0 {
        Seq::empty()
    } else {
        lhs_chain_at(tokens, before - 1)
    }
}

/// The `. name` segments that follow token `i`, and the index just after them.
pub open spec fn rhs_rest(tokens: Seq<Token>, i: int) -> (Seq<Seq<char>>, int)
    decreases tokens.len() - i,
{
    if 0 <= i && i + 2 < tokens.len() && tokens[i + 1].kind is Dot {
        match tokens[i + 2].kind {
            TokenKind::Identifier(n) => {
                let (r, e) = rhs_rest(tokens, i + 2);
                (seq![n@] + r, e)
            },
            _ => (Seq::empty(), i + 1),
        }
    } else {
        (Seq::empty(), i + 1)
    }
}

/// The dotted chain that starts at token `start`, and the index just after it
/// (`start` itself when no chain starts there).
pub open spec fn rhs_chain(tokens: Seq<Token>, start: int) -> (Seq<Seq<char>>, int) {
    if 0 <= start < tokens.len() {
        match seg_name(tokens[start].kind) {
            Some(sname) => {
                let (r, e) = rhs_rest(tokens, start);
                (seq![sname] + r, e)
            },
            None => (Seq::empty(), start),
        }
    } else {
        (Seq::empty(), start)
    }
}

/// Token `e` (or the end of the tokens) ends a statement or an enclosing expression.
pub open spec fn ends_statement(tokens: Seq<Token>, e: int) -> bool {
    e >= tokens.len() || {
        let k = tokens[e].kind;
        ||| k is Newline
        ||| k is Semicolon
        ||| k is Eof
        ||| k is RightParen
        ||| k is RightBracket
        ||| k is RightBrace
        ||| k is Comma
        ||| k is Comment
        ||| k is DocComment
    }
}

/// The segments of a chain joined with dots.
pub open spec fn join_dots(s: Seq<Seq<char>>) -> Seq<char>
    decreases s.len(),
{
    if s.len() == 0 {
        Seq::empty()
    } else if s.len() == 1 {
        s[0]
    } else {
        join_dots(s.drop_last()) + "."@ + s.last()
    }
}

pub open spec fn self_assign_diag(tokens: Seq<Token>, i: int, path: Seq<char>) -> Seq<DiagView> {
    if tokens[i].kind is Assign {
        let lhs = lhs_chain(tokens, i);
        let (rhs, e) = rhs_chain(tokens, i + 1);
        diag_if(
            lhs.len() > 0 && rhs.len() > 0 && ends_statement(tokens, e) && lhs == rhs,
            warn_view(
                "quality/no-self-assign"@,
                "self-assignment of '"@ + join_dots(lhs) + "'"@,
                tokens[i].span,
                path,
            ),
        )
    } else {
        Seq::empty()
    }
}

/// The character sequences of a chain's segments.
pub open spec fn chain_view(v: Seq<Vec<char>>) -> Seq<Seq<char>> {
    v.map_values(|x: Vec<char>| x@)
}

fn seg_name_exec(k: &TokenKind) -> (r: Option<Vec<char>>)
    ensures
        match r {
            Some(v) => seg_name(*k) == Some(v@),
            None => seg_name(*k) is None,
        },
{
    match k {
        TokenKind::Identifier(n) => Some(chars_of(n.as_str())),
        TokenKind::Self_ => Some(chars_of("self")),
        TokenKind::Super => Some(chars_of("super")),
        _ => None,
    }
}

fn lhs_chain_ending_at(tokens: &[Token], k: usize) -> (r: Vec<Vec<char>>)
    requires
        k < tokens@.len(),
    ensures
        chain_view(r@) == lhs_chain_at(tokens@, k as int),
    decreases k,
{
    match &tokens[k].kind {
        TokenKind::Identifier(n) => {
            let name = chars_of(n.as_str());
            if k >= 2 && matches!(tokens[k - 1].kind, TokenKind::Dot) && seg_name_exec(&tokens[k - 2].kind).is_some() {
                let mut chain = lhs_chain_ending_at(tokens, k - 2);
                let ghost c0 = chain@;
                chain.push(name);
                assert(chain_view(chain@) =~= chain_view(c0).push(n@));
                chain
            } else {
                let mut chain: Vec<Vec<char>> = Vec::new();
                chain.push(name);
                assert(chain_view(chain@) =~= seq![n@]);
                chain
            }
        },
        TokenKind::Self_ | TokenKind::Super => {
            let mut chain: Vec<Vec<char>> = Vec::new();
            let ghost head = seg_name(tokens@[k as int].kind);
            match seg_name_exec(&tokens[k].kind) {
                Some(v) => {
                    chain.push(v);
                    assert(chain_view(chain@) =~= seq![head.unwrap()]);
                },
                None => {},
            }
            chain
        },
        _ => {
            let chain: Vec<Vec<char>> = Vec::new();
            assert(chain_view(chain@) =~= Seq::empty());
            chain
        },
    }
}

fn rhs_chain_starting_at(tokens: &[Token], start: usize) -> (r: (Vec<Vec<char>>, usize))
    requires
        start <= tokens@.len(),
    ensures
        chain_view(r.0@) == rhs_chain(tokens@, start as int).0,
        r.1 == rhs_chain(tokens@, start as int).1,
{
    let n = tokens.len();
    let mut chain: Vec<Vec<char>> = Vec::new();
    if start >= n {
        assert(chain_view(chain@) =~= Seq::empty());
        return (chain, start);
    }
    match seg_name_exec(&tokens[start].kind) {
        Some(v) => {
            chain.push(v);
        },
        None => {
            assert(chain_view(chain@) =~= Seq::empty());
            return (chain, start);
        },
    }
    let ghost head = seg_name(tokens@[start as int].kind).unwrap();
    assert(chain_view(chain@) =~= seq![head]);
    let mut i = start;
    while i + 1 < n && i + 2 < n && matches!(tokens[i + 1].kind, TokenKind::Dot) && matches!(
        tokens[i + 2].kind,
        TokenKind::Identifier(_)
    )
        invariant
            n == tokens@.len(),
            start <= i < n,
            chain_view(chain@) + rhs_rest(tokens@, i as int).0 == seq![head] + rhs_rest(
                tokens@,
                start as int,
            ).0,
            rhs_rest(tokens@, i as int).1 == rhs_rest(tokens@, start as int).1,
        decreases n - i,
    {
        if let TokenKind::Identifier(name) = &tokens[i + 2].kind {
            let ghost c0 = chain@;
            chain.push(chars_of(name.as_str()));
            assert(chain_view(chain@) =~= chain_view(c0).push(name@));
            assert(chain_view(chain@) + rhs_rest(tokens@, i + 2).0 =~= chain_view(c0) + (seq![name@]
                + rhs_rest(tokens@, i + 2).0));
        }
        i = i + 2;
    }
    assert(chain_view(chain@) + Seq::<Seq<char>>::empty() == chain_view(chain@));
    (chain, i + 1)
}

fn is_statement_terminator(tokens: &[Token], e: usize) -> (r: bool)
    ensures
        r == ends_statement(tokens@, e as int),
{
    if e >= tokens.len() {
        return true;
    }
    matches!(
        tokens[e].kind,
        TokenKind::Newline | TokenKind::Semicolon | TokenKind::Eof | TokenKind::RightParen
            | TokenKind::RightBracket | TokenKind::RightBrace | TokenKind::Comma | TokenKind::Comment(_)
            | TokenKind::DocComment(_)
    )
}

fn chains_equal(a: &Vec<Vec<char>>, b: &Vec<Vec<char>>) -> (r: bool)
    ensures
        r == (chain_view(a@) == chain_view(b@)),
{
    if a.len() != b.len() {
        assert(chain_view(a@).len() != chain_view(b@).len());
        return false;
    }
    let mut k: usize = 0;
    while k < a.len()
        invariant
            a@.len() == b@.len(),
            k <= a@.len(),
            forall|q: int| 0 <= q < k ==> a@[q]@ == b@[q]@,
        decreases a@.len() - k,
    {
        if !chars_eq(a[k].as_slice(), b[k].as_slice()) {
            assert(chain_view(a@)[k as int] != chain_view(b@)[k as int]);
            return false;
        }
        k = k + 1;
    }
    assert(chain_view(a@) =~= chain_view(b@));
    true
}

fn join_chain(chain: &Vec<Vec<char>>) -> (r: Vec<char>)
    ensures
        r@ == join_dots(chain_view(chain@)),
{
    let mut v: Vec<char> = Vec::new();
    let mut k: usize = 0;
    while k < chain.len()
        invariant
            k <= chain@.len(),
            v@ == join_dots(chain_view(chain@).take(k as int)),
        decreases chain@.len() - k,
    {
        let ghost c = chain_view(chain@);
        if k > 0 {
            push_lit(&mut v, ".");
        }
        push_chars(&mut v, chain[k].as_slice());
        proof {
            assert(c.take(k + 1).drop_last() == c.take(k as int));
            if k == 0 {
                assert(v@ == c.take(1)[0]);
            }
        }
        k = k + 1;
    }
    assert(chain_view(chain@).take(chain@.len() as int) == chain_view(chain@));
    v
}

/// Warn about an assignment whose right side is exactly its left side's
/// dotted chain: `x = x`, `self.a = self.a` (but not `x = x + 1` or `a.b = b`).
pub fn check_no_self_assign(tokens: &[Token], file: &ScriptFile, diagnostics: &mut Vec<Diagnostic>)
    ensures
        diag_views(final(diagnostics)@) == diag_views(old(diagnostics)@) + concat_idx(
            tokens@.len() as int,
            |i: int| self_assign_diag(tokens@, i, file.path@),
        ),
{
    let ghost f = |i: int| self_assign_diag(tokens@, i, file.path@);
    let n = tokens.len();
    let mut i: usize = 0;
    while i < n
        invariant
            n == tokens@.len(),
            i <= n,
            f == (|i: int| self_assign_diag(tokens@, i, file.path@)),
            diag_views(diagnostics@) == diag_views(old(diagnostics)@) + concat_idx(i as int, f),
        decreases n - i,
    {
        let ghost before = diag_views(diagnostics@);
        if matches!(tokens[i].kind, TokenKind::Assign) {
            let lhs = if i == 0 {
                let empty: Vec<Vec<char>> = Vec::new();
                assert(chain_view(empty@) =~= Seq::empty());
                empty
            } else {
                lhs_chain_ending_at(tokens, i - 1)
            };
            if lhs.len() > 0 {
                let (rhs, end) = rhs_chain_starting_at(tokens, i + 1);
                if rhs.len() > 0 && is_statement_terminator(tokens, end) && chains_equal(&lhs, &rhs) {
                    let mut v = chars_of("self-assignment of '");
                    let joined = join_chain(&lhs);
                    push_chars(&mut v, joined.as_slice());
                    push_lit(&mut v, "'");
                    let msg = string_from_chars(v.as_slice());
                    push_diagnostic(
                        diagnostics,
                        Diagnostic::warning("quality/no-self-assign", msg, tokens[i].span, file.path.as_str()),
                    );
                }
            }
        }
        assert(diag_views(diagnostics@) == before + f(i as int));
        i = i + 1;
    }
}


// ---------------------------------------------------------------------------
// Laws of the counting rules
// ---------------------------------------------------------------------------

proof fn lemma_count_lines_split(lines: Seq<String>, a: int, k: int, b: int, p: spec_fn(Seq<char>) -> bool)
    requires
        a <= k < b,
    ensures
        count_lines(lines, a, b, p) == count_lines(lines, a, k, p) + (if p(tline(lines, k)) {
            1nat
        } else {
            0nat
        }) + count_lines(lines, k + 1, b, p),
    decreases b - a,
{
    if b > k + 1 {
        lemma_count_lines_split(lines, a, k, b - 1, p);
    }
}

/// Every line of a function body whose trimmed text opens a branch (`if`,
/// `elif` or `match`, followed by a space or `(` for `if` and `elif`) adds
/// exactly one to the branch count, and any other line adds nothing.
pub proof fn law_branch_lines_each_count_once(lines: Seq<String>, a: int, k: int, b: int)
    requires
        a <= k < b,
    ensures
        ({
            let t = tline(lines, k);
            let opens = seq_starts_with(t, "if "@) || seq_starts_with(t, "if("@) || seq_starts_with(t, "elif "@)
                || seq_starts_with(t, "elif("@) || seq_starts_with(t, "match "@);
            count_lines(lines, a, b, line_pred(1)) == count_lines(lines, a, k, line_pred(1)) + (if opens {
                1nat
            } else {
                0nat
            }) + count_lines(lines, k + 1, b, line_pred(1))
        }),
{
    lemma_count_lines_split(lines, a, k, b, line_pred(1));
}

/// A function is reported under `quality/max-branches` exactly when more
/// lines of its body than the limit open a branch (`if`, `elif`, `match`),
/// and the finding gives that number.
pub proof fn law_max_branches_counts_branch_lines(m: ClassMember, lines: Seq<String>, max: usize, path: Seq<char>)
    requires
        m is Function,
    ensures
        ({
            let opens = |t: Seq<char>|
                seq_starts_with(t, "if "@) || seq_starts_with(t, "if("@) || seq_starts_with(t, "elif "@)
                    || seq_starts_with(t, "elif("@) || seq_starts_with(t, "match "@);
            let s = m->Function_span.line as int;
            let n = count_lines(lines, s, body_end(s, m->Function_body_line_count as int, lines.len() as int), opens);
            body_count_diag(m, lines, 1, max, path) == diag_if(
                n > max,
                warn_view(
                    "quality/max-branches"@,
                    "function '"@ + m->Function_name@ + "' has "@ + decimal(n) + " branches (max "@ + decimal(
                        max as nat,
                    ) + ")"@,
                    m->Function_span,
                    path,
                ),
            )
        }),
{
    let opens = |t: Seq<char>|
        seq_starts_with(t, "if "@) || seq_starts_with(t, "if("@) || seq_starts_with(t, "elif "@)
            || seq_starts_with(t, "elif("@) || seq_starts_with(t, "match "@);
    assert(line_pred(1) =~= opens);
}

/// The debug printers of Godot (`print`, `prints`, `printt`, `printraw`,
/// `print_debug`, `print_verbose`, `print_rich`, `printerr`) are reported
/// exactly where such a name is called (directly followed by `(`), once,
/// under `quality/no-debug-print`; no other identifier is.
pub proof fn law_debug_printers_reported(tokens: Seq<Token>, i: int, path: Seq<char>)
    requires
        0 <= i < tokens.len(),
    ensures
        ({
            let printer = tokens[i].kind matches TokenKind::Identifier(n) && (n@ == "print"@ || n@ == "prints"@
                || n@ == "printt"@ || n@ == "printraw"@ || n@ == "print_debug"@ || n@ == "print_verbose"@
                || n@ == "print_rich"@ || n@ == "printerr"@);
            let called = i + 1 < tokens.len() && tokens[i + 1].kind is LeftParen;
            &&& (printer && called) ==> debug_print_diag(tokens, i, path).len() == 1
                && debug_print_diag(tokens, i, path)[0].rule == "quality/no-debug-print"@
                && debug_print_diag(tokens, i, path)[0].span == tokens[i].span
            &&& !(printer && called) ==> debug_print_diag(tokens, i, path).len() == 0
        }),
{
}

proof fn lemma_count_members_split(ms: Seq<ClassMember>)
    ensures
        count_members(ms, member_pred(1)) == count_members(ms, |m: ClassMember| m is Variable) + count_members(
            ms,
            |m: ClassMember| m is StaticVariable,
        ),
    decreases ms.len(),
{
    if ms.len() > 0 {
        lemma_count_members_split(ms.subrange(0, ms.len() - 1));
    }
}

/// A class has as many class variables as it has `var` members and
/// `static var` members together, and it is reported under
/// `quality/max-class-variables` exactly when that number is over the limit.
pub proof fn law_class_variables_count_plain_and_static(ms: Seq<ClassMember>, max: usize, path: Seq<char>, top: bool)
    ensures
        ({
            let n = count_members(ms, |m: ClassMember| m is Variable) + count_members(
                ms,
                |m: ClassMember| m is StaticVariable,
            );
            class_limit_diags(ms, 1, max, path, top) == (if n > max {
                seq![
                    warn_view(
                        "quality/max-class-variables"@,
                        "class has "@ + decimal(n) + " variables (max "@ + decimal(max as nat) + ")"@,
                        class_span(ms, top),
                        path,
                    ),
                ]
            } else {
                Seq::empty()
            }) + class_limit_inner(ms, 1, max, path)
        }),
{
    lemma_count_members_split(ms);
}

/// A `static var` gets the same type-hint findings as a plain `var` with the
/// same name, hint and span: one `quality/type-hint` warning on its name
/// exactly when it has no type hint.
pub proof fn law_static_variables_need_hints_like_variables(m: ClassMember, path: Seq<char>)
    requires
        m is StaticVariable,
    ensures
        ({
            let v = ClassMember::Variable {
                name: m->StaticVariable_name,
                name_span: m->StaticVariable_name_span,
                type_hint: m->StaticVariable_type_hint,
                annotations: m->StaticVariable_annotations,
                span: m->StaticVariable_span,
            };
            &&& type_hint_diag(m, path) == type_hint_diag(v, path)
            &&& (m->StaticVariable_type_hint is None) ==> type_hint_diag(m, path).len() == 1
                && type_hint_diag(m, path)[0].rule == "quality/type-hint"@
                && type_hint_diag(m, path)[0].span == m->StaticVariable_name_span
            &&& (m->StaticVariable_type_hint is Some) ==> type_hint_diag(m, path).len() == 0
        }),
{
}

} // verus!
