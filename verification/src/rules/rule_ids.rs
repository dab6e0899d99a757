//! Every finding carries the id of the rule that produced it, so a rule the
//! configuration turns off contributes nothing.
use vstd::prelude::*;

use crate::ast::{flatten, ClassMember, Parameter, ScriptFile};
use crate::config::Config;
use crate::diagnostic::DiagView;
use crate::rules::format::{line_length_diag, trailing_whitespace_diag};
use crate::rules::naming::naming_diag;
use crate::rules::quality::{
    allocation_diag, await_diag, body_count_diag, class_limit_diags, class_limit_inner, concat_idx,
    concat_map, debug_print_diag, dict_keys_from, dict_scan, duplicated_load_diag, else_return_diag,
    empty_function_diag, max_file_length_diags, max_function_length_diag, max_inner_classes_diags,
    max_parameters_diag, nesting_diag, param_hint_diag, process_get_node_diag, self_assign_diag,
    self_comparison_diag, stmt_end, type_hint_diag, unnecessary_pass_diag, unreachable_from,
    unreachable_target, windows,
};
use crate::rules::{
    all_rule_diags, enabled, naming_format_diags, quality_diags_1, quality_diags_2, quality_diags_3,
    quality_diags_4, quality_diags_5, when_enabled,
};
use crate::token::Token;

verus! {

/// Every finding of `ds` belongs to `rule`.
pub open spec fn all_of_rule(ds: Seq<DiagView>, rule: Seq<char>) -> bool {
    forall|k: int| 0 <= k < ds.len() ==> (#[trigger] ds[k]).rule == rule
}

/// Every finding of `ds` belongs to a rule the configuration runs.
pub open spec fn all_enabled(ds: Seq<DiagView>, config: Config) -> bool {
    forall|k: int| 0 <= k < ds.len() ==> enabled(config, (#[trigger] ds[k]).rule)
}

proof fn lemma_add_of_rule(a: Seq<DiagView>, b: Seq<DiagView>, rule: Seq<char>)
    requires
        all_of_rule(a, rule),
        all_of_rule(b, rule),
    ensures
        all_of_rule(a + b, rule),
{
    assert forall|k: int| 0 <= k < (a + b).len() implies (#[trigger] (a + b)[k]).rule == rule by {
        if k >= a.len() {
            assert((a + b)[k] == b[k - a.len()]);
        }
    }
}

pub proof fn lemma_add_enabled(a: Seq<DiagView>, b: Seq<DiagView>, config: Config)
    requires
        all_enabled(a, config),
        all_enabled(b, config),
    ensures
        all_enabled(a + b, config),
{
    assert forall|k: int| 0 <= k < (a + b).len() implies enabled(config, (#[trigger] (a + b)[k]).rule) by {
        if k >= a.len() {
            assert((a + b)[k] == b[k - a.len()]);
        }
    }
}

proof fn lemma_concat_map_of_rule<A>(s: Seq<A>, f: spec_fn(A) -> Seq<DiagView>, rule: Seq<char>)
    requires
        forall|x: A| all_of_rule(#[trigger] f(x), rule),
    ensures
        all_of_rule(concat_map(s, f), rule),
    decreases s.len(),
{
    if s.len() > 0 {
        lemma_concat_map_of_rule(s.subrange(0, s.len() - 1), f, rule);
        lemma_add_of_rule(concat_map(s.subrange(0, s.len() - 1), f), f(s[s.len() - 1]), rule);
    }
}

pub proof fn lemma_concat_idx_of_rule(n: int, f: spec_fn(int) -> Seq<DiagView>, rule: Seq<char>)
    requires
        forall|i: int| all_of_rule(#[trigger] f(i), rule),
    ensures
        all_of_rule(concat_idx(n, f), rule),
    decreases n,
{
    if n > 0 {
        lemma_concat_idx_of_rule(n - 1, f, rule);
        lemma_add_of_rule(concat_idx(n - 1, f), f(n - 1), rule);
    }
}

proof fn lemma_unreachable_of_rule(lines: Seq<String>, i: int, rep: Seq<bool>, path: Seq<char>)
    ensures
        all_of_rule(unreachable_from(lines, i, rep, path), "quality/unreachable-code"@),
    decreases lines.len() - i,
{
    if 0 <= i < lines.len() {
        let e = stmt_end(lines, i);
        if i + 1 <= lines.len() {
            lemma_unreachable_of_rule(lines, i + 1, rep, path);
        }
        if i <= e < lines.len() {
            match unreachable_target(lines, e + 1, crate::rules::quality::indent_of(lines[i]@), rep) {
                Some(j) => {
                    lemma_unreachable_of_rule(lines, e + 1, rep.update(j, true), path);
                    let d = crate::diagnostic::warn_view(
                        "quality/unreachable-code"@,
                        "unreachable code"@,
                        crate::rules::quality::line_span(j),
                        path,
                    );
                    lemma_add_of_rule(seq![d], unreachable_from(lines, e + 1, rep.update(j, true), path), "quality/unreachable-code"@);
                },
                None => {
                    lemma_unreachable_of_rule(lines, e + 1, rep, path);
                },
            }
        }
    }
}

proof fn lemma_dict_scan_of_rule(
    tokens: Seq<Token>,
    j: int,
    depth: int,
    expect: bool,
    keys: Map<Seq<char>, usize>,
    path: Seq<char>,
)
    ensures
        all_of_rule(dict_scan(tokens, j, depth, expect, keys, path).0, "quality/duplicate-dict-key"@),
    decreases tokens.len() - j, depth,
{
    if !(j < 0 || j >= tokens.len() || depth <= 0) {
        let t = tokens[j];
        if t.kind is LeftBrace {
            lemma_dict_scan_of_rule(tokens, j + 1, depth + 1, true, keys, path);
        } else if t.kind is RightBrace {
            if depth == 1 {
                lemma_dict_scan_of_rule(tokens, j, 0, expect, keys, path);
            } else {
                lemma_dict_scan_of_rule(tokens, j + 1, depth - 1, expect, keys, path);
            }
        } else if t.kind is Colon && depth == 1 {
            lemma_dict_scan_of_rule(tokens, j + 1, depth, false, keys, path);
        } else if t.kind is Comma && depth == 1 {
            lemma_dict_scan_of_rule(tokens, j + 1, depth, true, keys, path);
        } else if t.kind is Newline {
            lemma_dict_scan_of_rule(tokens, j + 1, depth, expect, keys, path);
        } else if expect && depth == 1 {
            let k = crate::rules::quality::key_text(t);
            if keys.contains_key(k) {
                lemma_dict_scan_of_rule(tokens, j + 1, depth, false, keys, path);
                let d = crate::rules::quality::dict_key_diag(k, keys[k], t.span, path);
                lemma_add_of_rule(seq![d], dict_scan(tokens, j + 1, depth, false, keys, path).0, "quality/duplicate-dict-key"@);
            } else {
                lemma_dict_scan_of_rule(tokens, j + 1, depth, false, keys.insert(k, t.span.line), path);
            }
        } else {
            lemma_dict_scan_of_rule(tokens, j + 1, depth, expect, keys, path);
        }
    }
}

proof fn lemma_dict_keys_of_rule(tokens: Seq<Token>, i: int, path: Seq<char>)
    ensures
        all_of_rule(dict_keys_from(tokens, i, path), "quality/duplicate-dict-key"@),
    decreases tokens.len() - i,
{
    if 0 <= i < tokens.len() {
        if tokens[i].kind is LeftBrace {
            let ds = dict_scan(tokens, i + 1, 1, true, Map::empty(), path).0;
            lemma_dict_scan_of_rule(tokens, i + 1, 1, true, Map::empty(), path);
            lemma_dict_keys_of_rule(tokens, i + 1, path);
            lemma_add_of_rule(ds, dict_keys_from(tokens, i + 1, path), "quality/duplicate-dict-key"@);
        } else {
            lemma_dict_keys_of_rule(tokens, i + 1, path);
        }
    }
}

/// The rule id the class-limit findings of kind `which` carry.
pub open spec fn class_limit_rule(which: u8) -> Seq<char> {
    if which == 1 {
        "quality/max-class-variables"@
    } else {
        "quality/max-public-methods"@
    }
}

proof fn lemma_class_limit_of_rule(ms: Seq<ClassMember>, which: u8, max: usize, path: Seq<char>, top: bool)
    ensures
        all_of_rule(class_limit_diags(ms, which, max, path, top), class_limit_rule(which)),
    decreases ms, 1int,
{
    lemma_class_inner_of_rule(ms, which, max, path);
    let n = crate::rules::quality::count_members(ms, crate::rules::quality::member_pred(which));
    let own = class_limit_diags(ms, which, max, path, top).subrange(0, if n > max { 1int } else { 0int });
    assert(class_limit_diags(ms, which, max, path, top) == own + class_limit_inner(ms, which, max, path));
    lemma_add_of_rule(own, class_limit_inner(ms, which, max, path), class_limit_rule(which));
}

proof fn lemma_class_inner_of_rule(ms: Seq<ClassMember>, which: u8, max: usize, path: Seq<char>)
    ensures
        all_of_rule(class_limit_inner(ms, which, max, path), class_limit_rule(which)),
    decreases ms, 0int,
{
    if ms.len() > 0 {
        let last = ms[ms.len() - 1];
        lemma_class_inner_of_rule(ms.subrange(0, ms.len() - 1), which, max, path);
        match last {
            ClassMember::InnerClass { members, .. } => {
                assert(decreases_to!(ms => last));
                lemma_class_limit_of_rule(members@, which, max, path, false);
                lemma_add_of_rule(
                    class_limit_inner(ms.subrange(0, ms.len() - 1), which, max, path),
                    class_limit_diags(members@, which, max, path, false),
                    class_limit_rule(which),
                );
            },
            _ => {
                assert(class_limit_inner(ms, which, max, path) == class_limit_inner(
                    ms.subrange(0, ms.len() - 1),
                    which,
                    max,
                    path,
                ) + Seq::<DiagView>::empty());
            },
        }
    }
}

proof fn lemma_type_hint_of_rule(m: ClassMember, path: Seq<char>)
    ensures
        all_of_rule(type_hint_diag(m, path), "quality/type-hint"@),
{
    match m {
        ClassMember::Function { name, parameters, return_type, name_span, .. } => {
            let g = |p: Parameter| param_hint_diag(p, name@, path);
            lemma_concat_map_of_rule(parameters@, g, "quality/type-hint"@);
            let head = type_hint_diag(m, path).subrange(0, if return_type is None { 1int } else { 0int });
            assert(type_hint_diag(m, path) == head + concat_map(parameters@, g));
            lemma_add_of_rule(head, concat_map(parameters@, g), "quality/type-hint"@);
        },
        _ => {},
    }
}

/// The rule id of the naming findings of kind `which`.
pub open spec fn naming_rule(which: u8) -> Seq<char> {
    if which == 0 {
        "naming/class-name-pascal-case"@
    } else if which == 1 {
        "naming/function-name-snake-case"@
    } else {
        "naming/variable-name-snake-case"@
    }
}

proof fn lemma_naming_format_enabled(file: ScriptFile, config: Config)
    ensures
        all_enabled(naming_format_diags(file, config), config),
{
    let ms = flatten(file.members@);
    let lines = file.lines@;
    let path = file.path@;
    let n = lines.len() as int;
    let f0 = |m: ClassMember| naming_diag(m, 0, path);
    let f1 = |m: ClassMember| naming_diag(m, 1, path);
    let f2 = |m: ClassMember| naming_diag(m, 2, path);
    let g0 = |i: int| line_length_diag(lines, i, config.max_line_length, path);
    let g1 = |i: int| trailing_whitespace_diag(lines, i, path);
    lemma_concat_map_of_rule(ms, f0, naming_rule(0));
    lemma_concat_map_of_rule(ms, f1, naming_rule(1));
    lemma_concat_map_of_rule(ms, f2, naming_rule(2));
    lemma_concat_idx_of_rule(n, g0, "format/max-line-length"@);
    lemma_concat_idx_of_rule(n, g1, "format/trailing-whitespace"@);
    let a = when_enabled(config, "naming/class-name-pascal-case"@, concat_map(ms, f0));
    let b = when_enabled(config, "naming/function-name-snake-case"@, concat_map(ms, f1));
    let c = when_enabled(config, "naming/variable-name-snake-case"@, concat_map(ms, f2));
    let d = when_enabled(config, "format/max-line-length"@, concat_idx(n, g0));
    let e = when_enabled(config, "format/trailing-whitespace"@, concat_idx(n, g1));
    lemma_add_enabled(Seq::empty(), a, config);
    lemma_add_enabled(Seq::empty() + a, b, config);
    lemma_add_enabled(Seq::empty() + a + b, c, config);
    lemma_add_enabled(Seq::empty() + a + b + c, d, config);
    lemma_add_enabled(Seq::empty() + a + b + c + d, e, config);
}


proof fn lemma_unnecessary_pass_of_rule(m: ClassMember, lines: Seq<String>, path: Seq<char>)
    ensures
        all_of_rule(unnecessary_pass_diag(m, lines, path), "quality/unnecessary-pass"@),
{
    match m {
        ClassMember::Function { body_line_count, span, .. } => {
            let a = span.line as int;
            let cs = crate::rules::quality::code_lines(
                lines,
                a,
                crate::rules::quality::body_end(a, body_line_count as int, lines.len() as int),
            );
            lemma_concat_idx_of_rule(
                cs.len() as int,
                |pos: int| crate::rules::quality::pass_diag(lines, cs, pos, path),
                "quality/unnecessary-pass"@,
            );
        },
        _ => {},
    }
}

proof fn lemma_process_get_node_of_rule(m: ClassMember, lines: Seq<String>, path: Seq<char>)
    ensures
        all_of_rule(process_get_node_diag(m, lines, path), "quality/process-get-node"@),
{
    match m {
        ClassMember::Function { name, body_line_count, span, .. } => {
            let a = span.line as int;
            let b = crate::rules::quality::body_end(a, body_line_count as int, lines.len() as int);
            lemma_concat_idx_of_rule(
                b - a,
                |k: int| crate::rules::quality::node_ref_diag(lines, a + k, name@, path),
                "quality/process-get-node"@,
            );
        },
        _ => {},
    }
}

proof fn lemma_quality_1_enabled(file: ScriptFile, tokens: Seq<Token>, config: Config)
    ensures
        all_enabled(quality_diags_1(file, tokens, config), config),
{
    let ms = flatten(file.members@);
    let lines = file.lines@;
    let path = file.path@;
    let nt = tokens.len() as int;
    let f0 = |m: ClassMember| max_function_length_diag(m, config.max_function_length, path);
    let f2 = |m: ClassMember| max_parameters_diag(m, config.max_parameters, path);
    let f3 = |m: ClassMember| unnecessary_pass_diag(m, lines, path);
    let g4 = |i: int| debug_print_diag(tokens, i, path);
    lemma_concat_map_of_rule(ms, f0, "quality/max-function-length"@);
    lemma_concat_map_of_rule(ms, f2, "quality/max-parameters"@);
    assert forall|m: ClassMember| all_of_rule(#[trigger] f3(m), "quality/unnecessary-pass"@) by {
        lemma_unnecessary_pass_of_rule(m, lines, path);
    }
    lemma_concat_map_of_rule(ms, f3, "quality/unnecessary-pass"@);
    lemma_concat_idx_of_rule(nt, g4, "quality/no-debug-print"@);
    let a = when_enabled(config, "quality/max-function-length"@, concat_map(ms, f0));
    let b = when_enabled(config, "quality/max-file-length"@, max_file_length_diags(crate::rules::quality::file_line_count(lines), config.max_file_length, path));
    let c = when_enabled(config, "quality/max-parameters"@, concat_map(ms, f2));
    let d = when_enabled(config, "quality/unnecessary-pass"@, concat_map(ms, f3));
    let e = when_enabled(config, "quality/no-debug-print"@, concat_idx(nt, g4));
    lemma_add_enabled(Seq::empty(), a, config);
    lemma_add_enabled(Seq::empty() + a, b, config);
    lemma_add_enabled(Seq::empty() + a + b, c, config);
    lemma_add_enabled(Seq::empty() + a + b + c, d, config);
    lemma_add_enabled(Seq::empty() + a + b + c + d, e, config);
}

proof fn lemma_quality_2_enabled(file: ScriptFile, tokens: Seq<Token>, config: Config)
    ensures
        all_enabled(quality_diags_2(file, tokens, config), config),
{
    let ms = flatten(file.members@);
    let path = file.path@;
    let nt = tokens.len() as int;
    let g0 = |i: int| self_comparison_diag(tokens, i, path);
    let g1 = |i: int| self_assign_diag(tokens, i, path);
    let g3 = |i: int| duplicated_load_diag(tokens, i, path);
    let f4 = |m: ClassMember| type_hint_diag(m, path);
    lemma_concat_idx_of_rule(windows(nt), g0, "quality/self-comparison"@);
    lemma_concat_idx_of_rule(nt, g1, "quality/no-self-assign"@);
    lemma_dict_keys_of_rule(tokens, 0, path);
    lemma_concat_idx_of_rule(windows(nt), g3, "quality/duplicated-load"@);
    assert forall|m: ClassMember| all_of_rule(#[trigger] f4(m), "quality/type-hint"@) by {
        lemma_type_hint_of_rule(m, path);
    }
    lemma_concat_map_of_rule(ms, f4, "quality/type-hint"@);
    let a = when_enabled(config, "quality/self-comparison"@, concat_idx(windows(nt), g0));
    let b = when_enabled(config, "quality/no-self-assign"@, concat_idx(nt, g1));
    let c = when_enabled(config, "quality/duplicate-dict-key"@, dict_keys_from(tokens, 0, path));
    let d = when_enabled(config, "quality/duplicated-load"@, concat_idx(windows(nt), g3));
    let e = when_enabled(config, "quality/type-hint"@, concat_map(ms, f4));
    lemma_add_enabled(Seq::empty(), a, config);
    lemma_add_enabled(Seq::empty() + a, b, config);
    lemma_add_enabled(Seq::empty() + a + b, c, config);
    lemma_add_enabled(Seq::empty() + a + b + c, d, config);
    lemma_add_enabled(Seq::empty() + a + b + c + d, e, config);
}

proof fn lemma_quality_3_enabled(file: ScriptFile, config: Config)
    ensures
        all_enabled(quality_diags_3(file, config), config),
{
    let ms = flatten(file.members@);
    let lines = file.lines@;
    let path = file.path@;
    let f0 = |m: ClassMember| empty_function_diag(m, lines, path);
    lemma_concat_map_of_rule(ms, f0, "quality/empty-function"@);
    lemma_class_limit_of_rule(file.members@, 1, config.max_class_variables, path, true);
    lemma_class_limit_of_rule(file.members@, 2, config.max_public_methods, path, true);
    let a = when_enabled(config, "quality/empty-function"@, concat_map(ms, f0));
    let b = when_enabled(config, "quality/max-class-variables"@, class_limit_diags(file.members@, 1, config.max_class_variables, path, true));
    let c = when_enabled(config, "quality/max-public-methods"@, class_limit_diags(file.members@, 2, config.max_public_methods, path, true));
    let d = when_enabled(config, "quality/max-inner-classes"@, max_inner_classes_diags(file.members@, config.max_inner_classes, path));
    lemma_add_enabled(Seq::empty(), a, config);
    lemma_add_enabled(Seq::empty() + a, b, config);
    lemma_add_enabled(Seq::empty() + a + b, c, config);
    lemma_add_enabled(Seq::empty() + a + b + c, d, config);
}

proof fn lemma_quality_4_enabled(file: ScriptFile, config: Config)
    ensures
        all_enabled(quality_diags_4(file, config), config),
{
    let ms = flatten(file.members@);
    let lines = file.lines@;
    let path = file.path@;
    let n = lines.len() as int;
    let g0 = |i: int| else_return_diag(lines, i, path);
    let g2 = |i: int| await_diag(lines, i, path);
    let g3 = |i: int| allocation_diag(lines, i, path);
    let f4 = |m: ClassMember| process_get_node_diag(m, lines, path);
    lemma_concat_idx_of_rule(n, g0, "quality/no-else-return"@);
    lemma_unreachable_of_rule(lines, 0, Seq::new(lines.len(), |k: int| false), path);
    lemma_concat_idx_of_rule(n, g2, "quality/await-in-loop"@);
    lemma_concat_idx_of_rule(n, g3, "quality/allocation-in-loop"@);
    assert forall|m: ClassMember| all_of_rule(#[trigger] f4(m), "quality/process-get-node"@) by {
        lemma_process_get_node_of_rule(m, lines, path);
    }
    lemma_concat_map_of_rule(ms, f4, "quality/process-get-node"@);
    let a = when_enabled(config, "quality/no-else-return"@, concat_idx(n, g0));
    let b = when_enabled(config, "quality/unreachable-code"@, unreachable_from(lines, 0, Seq::new(lines.len(), |k: int| false), path));
    let c = when_enabled(config, "quality/await-in-loop"@, concat_idx(n, g2));
    let d = when_enabled(config, "quality/allocation-in-loop"@, concat_idx(n, g3));
    let e = when_enabled(config, "quality/process-get-node"@, concat_map(ms, f4));
    lemma_add_enabled(Seq::empty(), a, config);
    lemma_add_enabled(Seq::empty() + a, b, config);
    lemma_add_enabled(Seq::empty() + a + b, c, config);
    lemma_add_enabled(Seq::empty() + a + b + c, d, config);
    lemma_add_enabled(Seq::empty() + a + b + c + d, e, config);
}

proof fn lemma_quality_5_enabled(file: ScriptFile, config: Config)
    ensures
        all_enabled(quality_diags_5(file, config), config),
{
    let ms = flatten(file.members@);
    let lines = file.lines@;
    let path = file.path@;
    let f0 = |m: ClassMember| nesting_diag(m, lines, config.max_nesting_depth, path);
    let f1 = |m: ClassMember| body_count_diag(m, lines, 0, config.max_returns, path);
    let f2 = |m: ClassMember| body_count_diag(m, lines, 1, config.max_branches, path);
    let f3 = |m: ClassMember| body_count_diag(m, lines, 2, config.max_local_variables, path);
    lemma_concat_map_of_rule(ms, f0, "quality/max-nesting-depth"@);
    lemma_concat_map_of_rule(ms, f1, "quality/max-returns"@);
    lemma_concat_map_of_rule(ms, f2, "quality/max-branches"@);
    lemma_concat_map_of_rule(ms, f3, "quality/max-local-variables"@);
    let a = when_enabled(config, "quality/max-nesting-depth"@, concat_map(ms, f0));
    let b = when_enabled(config, "quality/max-returns"@, concat_map(ms, f1));
    let c = when_enabled(config, "quality/max-branches"@, concat_map(ms, f2));
    let d = when_enabled(config, "quality/max-local-variables"@, concat_map(ms, f3));
    lemma_add_enabled(Seq::empty(), a, config);
    lemma_add_enabled(Seq::empty() + a, b, config);
    lemma_add_enabled(Seq::empty() + a + b, c, config);
    lemma_add_enabled(Seq::empty() + a + b + c, d, config);
}

/// A rule that the configuration turns off (explicitly, or by default for the
/// advisory rules) contributes no finding: every finding of the rules belongs
/// to an enabled rule.
pub proof fn lemma_only_enabled_rules_report(file: ScriptFile, tokens: Seq<Token>, config: Config)
    ensures
        forall|k: int|
            0 <= k < all_rule_diags(file, tokens, config).len() ==> enabled(
                config,
                (#[trigger] all_rule_diags(file, tokens, config)[k]).rule,
            ),
{
    lemma_naming_format_enabled(file, config);
    lemma_quality_1_enabled(file, tokens, config);
    lemma_quality_2_enabled(file, tokens, config);
    lemma_quality_3_enabled(file, config);
    lemma_quality_4_enabled(file, config);
    lemma_quality_5_enabled(file, config);
    let a = naming_format_diags(file, config);
    let b = quality_diags_1(file, tokens, config);
    let c = quality_diags_2(file, tokens, config);
    let d = quality_diags_3(file, config);
    let e = quality_diags_4(file, config);
    let f = quality_diags_5(file, config);
    lemma_add_enabled(a, b, config);
    lemma_add_enabled(a + b, c, config);
    lemma_add_enabled(a + b + c, d, config);
    lemma_add_enabled(a + b + c + d, e, config);
    lemma_add_enabled(a + b + c + d + e, f, config);
    assert(all_rule_diags(file, tokens, config) == a + b + c + d + e + f);
}

} // verus!
