//! The lint rules, and running every rule the configuration enables.
use vstd::prelude::*;

pub mod format;
pub mod naming;
pub mod quality;
pub mod rule_ids;

use crate::ast::{flatten, ClassMember, ScriptFile};
use crate::config::{rule_enabled, Config, RuleSeverityConfig};
use crate::diagnostic::{diag_views, lemma_diag_views_push, DiagView, Diagnostic, Severity};
use crate::rules::format::{check_max_line_length, check_trailing_whitespace, line_length_diag, trailing_whitespace_diag};
use crate::rules::naming::{check_class_name, check_function_name, check_variable_name, naming_diag};
use crate::rules::quality::{
    allocation_diag, await_diag, bodies_in_file, body_count_diag, body_ends_fit, check_allocation_in_loop,
    check_await_in_loop, check_duplicate_dict_key, check_duplicated_load, check_empty_function,
    check_max_branches, check_max_class_variables, check_max_file_length, check_max_function_length,
    check_max_inner_classes, check_max_local_variables, check_max_nesting_depth, check_max_parameters,
    check_max_public_methods, check_max_returns, check_no_debug_print, check_no_else_return,
    check_no_self_assign, check_process_get_node, check_self_comparison, check_type_hint,
    check_unnecessary_pass_in_functions, check_unreachable_code, class_limit_diags, concat_idx,
    concat_map, debug_print_diag, dict_keys_from, duplicated_load_diag, else_return_diag,
    empty_function_diag, lines_bounded, max_file_length_diags, max_function_length_diag,
    max_inner_classes_diags, max_parameters_diag, nesting_diag, nonempty_bodies_in_file,
    process_get_node_diag, self_assign_diag, self_comparison_diag, type_hint_diag,
    unnecessary_pass_diag, unreachable_from, windows,
};
use crate::text::chars_of;
use crate::token::Token;

verus! {

/// Whether the configuration runs `rule`.
pub open spec fn enabled(config: Config, rule: Seq<char>) -> bool {
    rule_enabled(config.rules.get_spec(rule), rule)
}

/// The findings `ds` of `rule` when the configuration runs it, none otherwise.
pub open spec fn when_enabled(config: Config, rule: Seq<char>, ds: Seq<DiagView>) -> Seq<DiagView> {
    if enabled(config, rule) {
        ds
    } else {
        Seq::empty()
    }
}

/// The naming and format findings, in rule order.
pub open spec fn naming_format_diags(file: ScriptFile, config: Config) -> Seq<DiagView> {
    let ms = flatten(file.members@);
    let lines = file.lines@;
    let path = file.path@;
    let n = lines.len() as int;
    Seq::empty()
        + when_enabled(config, "naming/class-name-pascal-case"@, concat_map(ms, |m: ClassMember| naming_diag(m, 0, path)))
        + when_enabled(config, "naming/function-name-snake-case"@, concat_map(ms, |m: ClassMember| naming_diag(m, 1, path)))
        + when_enabled(config, "naming/variable-name-snake-case"@, concat_map(ms, |m: ClassMember| naming_diag(m, 2, path)))
        + when_enabled(config, "format/max-line-length"@, concat_idx(n, |i: int| line_length_diag(lines, i, config.max_line_length, path)))
        + when_enabled(config, "format/trailing-whitespace"@, concat_idx(n, |i: int| trailing_whitespace_diag(lines, i, path)))
}

/// The findings of the first group of quality rules (limits, `pass`, debug prints).
pub open spec fn quality_diags_1(file: ScriptFile, tokens: Seq<Token>, config: Config) -> Seq<DiagView> {
    let ms = flatten(file.members@);
    let lines = file.lines@;
    let path = file.path@;
    let n = lines.len() as int;
    let nt = tokens.len() as int;
    Seq::empty()
        + when_enabled(config, "quality/max-function-length"@, concat_map(ms, |m: ClassMember| max_function_length_diag(m, config.max_function_length, path)))
        + when_enabled(config, "quality/max-file-length"@, max_file_length_diags(crate::rules::quality::file_line_count(lines), config.max_file_length, path))
        + when_enabled(config, "quality/max-parameters"@, concat_map(ms, |m: ClassMember| max_parameters_diag(m, config.max_parameters, path)))
        + when_enabled(config, "quality/unnecessary-pass"@, concat_map(ms, |m: ClassMember| unnecessary_pass_diag(m, lines, path)))
        + when_enabled(config, "quality/no-debug-print"@, concat_idx(nt, |i: int| debug_print_diag(tokens, i, path)))
}

/// The findings of the second group of quality rules (token patterns, type hints).
pub open spec fn quality_diags_2(file: ScriptFile, tokens: Seq<Token>, config: Config) -> Seq<DiagView> {
    let ms = flatten(file.members@);
    let lines = file.lines@;
    let path = file.path@;
    let n = lines.len() as int;
    let nt = tokens.len() as int;
    Seq::empty()
        + when_enabled(config, "quality/self-comparison"@, concat_idx(windows(nt), |i: int| self_comparison_diag(tokens, i, path)))
        + when_enabled(config, "quality/no-self-assign"@, concat_idx(nt, |i: int| self_assign_diag(tokens, i, path)))
        + when_enabled(config, "quality/duplicate-dict-key"@, dict_keys_from(tokens, 0, path))
        + when_enabled(config, "quality/duplicated-load"@, concat_idx(windows(nt), |i: int| duplicated_load_diag(tokens, i, path)))
        + when_enabled(config, "quality/type-hint"@, concat_map(ms, |m: ClassMember| type_hint_diag(m, path)))
}

/// The findings of the third group of quality rules (empty functions, class limits).
pub open spec fn quality_diags_3(file: ScriptFile, config: Config) -> Seq<DiagView> {
    let ms = flatten(file.members@);
    let lines = file.lines@;
    let path = file.path@;
    let n = lines.len() as int;
    Seq::empty()
        + when_enabled(config, "quality/empty-function"@, concat_map(ms, |m: ClassMember| empty_function_diag(m, lines, path)))
        + when_enabled(config, "quality/max-class-variables"@, class_limit_diags(file.members@, 1, config.max_class_variables, path, true))
        + when_enabled(config, "quality/max-public-methods"@, class_limit_diags(file.members@, 2, config.max_public_methods, path, true))
        + when_enabled(config, "quality/max-inner-classes"@, max_inner_classes_diags(file.members@, config.max_inner_classes, path))
}

/// The findings of the fourth group of quality rules (flow and loops, node lookups).
pub open spec fn quality_diags_4(file: ScriptFile, config: Config) -> Seq<DiagView> {
    let ms = flatten(file.members@);
    let lines = file.lines@;
    let path = file.path@;
    let n = lines.len() as int;
    Seq::empty()
        + when_enabled(config, "quality/no-else-return"@, concat_idx(n, |i: int| else_return_diag(lines, i, path)))
        + when_enabled(config, "quality/unreachable-code"@, unreachable_from(lines, 0, Seq::new(lines.len(), |k: int| false), path))
        + when_enabled(config, "quality/await-in-loop"@, concat_idx(n, |i: int| await_diag(lines, i, path)))
        + when_enabled(config, "quality/allocation-in-loop"@, concat_idx(n, |i: int| allocation_diag(lines, i, path)))
        + when_enabled(config, "quality/process-get-node"@, concat_map(ms, |m: ClassMember| process_get_node_diag(m, lines, path)))
}

/// The findings of the fifth group of quality rules (body complexity).
pub open spec fn quality_diags_5(file: ScriptFile, config: Config) -> Seq<DiagView> {
    let ms = flatten(file.members@);
    let lines = file.lines@;
    let path = file.path@;
    let n = lines.len() as int;
    Seq::empty()
        + when_enabled(config, "quality/max-nesting-depth"@, concat_map(ms, |m: ClassMember| nesting_diag(m, lines, config.max_nesting_depth, path)))
        + when_enabled(config, "quality/max-returns"@, concat_map(ms, |m: ClassMember| body_count_diag(m, lines, 0, config.max_returns, path)))
        + when_enabled(config, "quality/max-branches"@, concat_map(ms, |m: ClassMember| body_count_diag(m, lines, 1, config.max_branches, path)))
        + when_enabled(config, "quality/max-local-variables"@, concat_map(ms, |m: ClassMember| body_count_diag(m, lines, 2, config.max_local_variables, path)))
}

/// Every finding of the enabled rules, before severity overrides.
pub open spec fn all_rule_diags(file: ScriptFile, tokens: Seq<Token>, config: Config) -> Seq<DiagView> {
    naming_format_diags(file, config) + quality_diags_1(file, tokens, config) + quality_diags_2(file, tokens, config)
        + quality_diags_3(file, config) + quality_diags_4(file, config) + quality_diags_5(file, config)
}

/// The severity a finding gets under the override `o` for its rule.
pub open spec fn severity_for(o: Option<RuleSeverityConfig>, s: Severity) -> Severity {
    match o {
        Some(RuleSeverityConfig::Error) => Severity::Error,
        Some(RuleSeverityConfig::Warn) => Severity::Warning,
        _ => s,
    }
}

pub open spec fn with_severity(d: DiagView, config: Config) -> DiagView {
    DiagView {
        rule: d.rule,
        message: d.message,
        severity: severity_for(config.rules.get_spec(d.rule), d.severity),
        span: d.span,
        file: d.file,
    }
}

/// The findings with each rule's configured severity.
pub open spec fn apply_severity(ds: Seq<DiagView>, config: Config) -> Seq<DiagView> {
    ds.map_values(|d: DiagView| with_severity(d, config))
}

/// Every function body can be located (see `bodies_in_file`), which the
/// per-rule conditions require.
proof fn lemma_bodies_conditions(ms: Seq<ClassMember>, total: int)
    requires
        bodies_in_file(ms, total),
    ensures
        nonempty_bodies_in_file(ms, total),
        body_ends_fit(ms),
{
    assert forall|k: int| 0 <= k < flatten(ms).len() implies (#[trigger] flatten(ms)[k] matches ClassMember::Function {
        span,
        body_line_count,
        ..
    } ==> span.line + body_line_count <= usize::MAX && (body_line_count > 0 ==> span.line <= total)) by {
    }
    assert forall|k: int| 0 <= k < flatten(ms).len() implies (#[trigger] flatten(ms)[k] matches ClassMember::Function {
        span,
        body_line_count,
        ..
    } ==> span.line + body_line_count <= usize::MAX) by {
    }
}

#[verifier::rlimit(50)]
#[verifier::spinoff_prover]
fn run_naming_format(file: &ScriptFile, config: &Config, ds: &mut Vec<Diagnostic>)
    requires
        lines_bounded(file.lines@),
    ensures
        diag_views(final(ds)@) == diag_views(old(ds)@) + naming_format_diags(*file, *config),
{
    let ghost start = diag_views(ds@);
    if config.is_rule_enabled("naming/class-name-pascal-case") {
        check_class_name(file, ds);
    }
    let ghost s1 = diag_views(ds@);
    if config.is_rule_enabled("naming/function-name-snake-case") {
        check_function_name(file, ds);
    }
    let ghost s2 = diag_views(ds@);
    if config.is_rule_enabled("naming/variable-name-snake-case") {
        check_variable_name(file, ds);
    }
    let ghost s3 = diag_views(ds@);
    if config.is_rule_enabled("format/max-line-length") {
        check_max_line_length(file, config, ds);
    }
    let ghost s4 = diag_views(ds@);
    if config.is_rule_enabled("format/trailing-whitespace") {
        check_trailing_whitespace(file, ds);
    }
    proof {
        let ms = flatten(file.members@);
        let lines = file.lines@;
        let path = file.path@;
        let n = lines.len() as int;
        let a = when_enabled(*config, "naming/class-name-pascal-case"@, concat_map(ms, |m: ClassMember| naming_diag(m, 0, path)));
        let b = when_enabled(*config, "naming/function-name-snake-case"@, concat_map(ms, |m: ClassMember| naming_diag(m, 1, path)));
        let c = when_enabled(*config, "naming/variable-name-snake-case"@, concat_map(ms, |m: ClassMember| naming_diag(m, 2, path)));
        let d = when_enabled(*config, "format/max-line-length"@, concat_idx(n, |i: int| line_length_diag(lines, i, config.max_line_length, path)));
        let e = when_enabled(*config, "format/trailing-whitespace"@, concat_idx(n, |i: int| trailing_whitespace_diag(lines, i, path)));
        assert(s1 =~= start + a);
        assert(s2 =~= start + a + b);
        assert(s3 =~= start + a + b + c);
        assert(s4 =~= start + a + b + c + d);
        assert(diag_views(ds@) =~= start + a + b + c + d + e);
        assert(naming_format_diags(*file, *config) =~= Seq::empty() + a + b + c + d + e);
        assert(start + (Seq::empty() + a + b + c + d + e) =~= start + a + b + c + d + e);
    }
}

#[verifier::rlimit(50)]
#[verifier::spinoff_prover]
fn run_quality_1(file: &ScriptFile, tokens: &[Token], config: &Config, ds: &mut Vec<Diagnostic>)
    requires
        bodies_in_file(file.members@, file.lines@.len() as int),
    ensures
        diag_views(final(ds)@) == diag_views(old(ds)@) + quality_diags_1(*file, tokens@, *config),
{
    let ghost start = diag_views(ds@);
    proof {
        lemma_bodies_conditions(file.members@, file.lines@.len() as int);
    }
    if config.is_rule_enabled("quality/max-function-length") {
        check_max_function_length(file, config, ds);
    }
    let ghost s0 = diag_views(ds@);
    if config.is_rule_enabled("quality/max-file-length") {
        check_max_file_length(file, config, ds);
    }
    let ghost s1 = diag_views(ds@);
    if config.is_rule_enabled("quality/max-parameters") {
        check_max_parameters(file, config, ds);
    }
    let ghost s2 = diag_views(ds@);
    if config.is_rule_enabled("quality/unnecessary-pass") {
        check_unnecessary_pass_in_functions(file, ds);
    }
    let ghost s3 = diag_views(ds@);
    if config.is_rule_enabled("quality/no-debug-print") {
        check_no_debug_print(tokens, file, ds);
    }
    let ghost s4 = diag_views(ds@);
    proof {
        let ms = flatten(file.members@);
        let lines = file.lines@;
        let path = file.path@;
        let n = lines.len() as int;
        let nt = tokens@.len() as int;
        let r0 = when_enabled(*config, "quality/max-function-length"@, concat_map(ms, |m: ClassMember| max_function_length_diag(m, config.max_function_length, path)));
        assert(s0 =~= start + r0);
        let r1 = when_enabled(*config, "quality/max-file-length"@, max_file_length_diags(crate::rules::quality::file_line_count(lines), config.max_file_length, path));
        assert(s1 =~= start + r0 + r1);
        let r2 = when_enabled(*config, "quality/max-parameters"@, concat_map(ms, |m: ClassMember| max_parameters_diag(m, config.max_parameters, path)));
        assert(s2 =~= start + r0 + r1 + r2);
        let r3 = when_enabled(*config, "quality/unnecessary-pass"@, concat_map(ms, |m: ClassMember| unnecessary_pass_diag(m, lines, path)));
        assert(s3 =~= start + r0 + r1 + r2 + r3);
        let r4 = when_enabled(*config, "quality/no-debug-print"@, concat_idx(nt, |i: int| debug_print_diag(tokens@, i, path)));
        assert(s4 =~= start + r0 + r1 + r2 + r3 + r4);
        assert(quality_diags_1(*file, tokens@, *config) =~= Seq::empty() + r0 + r1 + r2 + r3 + r4);
        assert(start + (Seq::empty() + r0 + r1 + r2 + r3 + r4) =~= start + r0 + r1 + r2 + r3 + r4);
    }
}

#[verifier::rlimit(50)]
#[verifier::spinoff_prover]
fn run_quality_2(file: &ScriptFile, tokens: &[Token], config: &Config, ds: &mut Vec<Diagnostic>)
    ensures
        diag_views(final(ds)@) == diag_views(old(ds)@) + quality_diags_2(*file, tokens@, *config),
{
    let ghost start = diag_views(ds@);
    if config.is_rule_enabled("quality/self-comparison") {
        check_self_comparison(tokens, file, ds);
    }
    let ghost s0 = diag_views(ds@);
    if config.is_rule_enabled("quality/no-self-assign") {
        check_no_self_assign(tokens, file, ds);
    }
    let ghost s1 = diag_views(ds@);
    if config.is_rule_enabled("quality/duplicate-dict-key") {
        check_duplicate_dict_key(tokens, file, ds);
    }
    let ghost s2 = diag_views(ds@);
    if config.is_rule_enabled("quality/duplicated-load") {
        check_duplicated_load(tokens, file, ds);
    }
    let ghost s3 = diag_views(ds@);
    if config.is_rule_enabled("quality/type-hint") {
        check_type_hint(file, ds);
    }
    let ghost s4 = diag_views(ds@);
    proof {
        let ms = flatten(file.members@);
        let lines = file.lines@;
        let path = file.path@;
        let n = lines.len() as int;
        let nt = tokens@.len() as int;
        let r0 = when_enabled(*config, "quality/self-comparison"@, concat_idx(windows(nt), |i: int| self_comparison_diag(tokens@, i, path)));
        assert(s0 =~= start + r0);
        let r1 = when_enabled(*config, "quality/no-self-assign"@, concat_idx(nt, |i: int| self_assign_diag(tokens@, i, path)));
        assert(s1 =~= start + r0 + r1);
        let r2 = when_enabled(*config, "quality/duplicate-dict-key"@, dict_keys_from(tokens@, 0, path));
        assert(s2 =~= start + r0 + r1 + r2);
        let r3 = when_enabled(*config, "quality/duplicated-load"@, concat_idx(windows(nt), |i: int| duplicated_load_diag(tokens@, i, path)));
        assert(s3 =~= start + r0 + r1 + r2 + r3);
        let r4 = when_enabled(*config, "quality/type-hint"@, concat_map(ms, |m: ClassMember| type_hint_diag(m, path)));
        assert(s4 =~= start + r0 + r1 + r2 + r3 + r4);
        assert(quality_diags_2(*file, tokens@, *config) =~= Seq::empty() + r0 + r1 + r2 + r3 + r4);
        assert(start + (Seq::empty() + r0 + r1 + r2 + r3 + r4) =~= start + r0 + r1 + r2 + r3 + r4);
    }
}

#[verifier::rlimit(50)]
#[verifier::spinoff_prover]
fn run_quality_3(file: &ScriptFile, config: &Config, ds: &mut Vec<Diagnostic>)
    requires
        bodies_in_file(file.members@, file.lines@.len() as int),
    ensures
        diag_views(final(ds)@) == diag_views(old(ds)@) + quality_diags_3(*file, *config),
{
    let ghost start = diag_views(ds@);
    proof {
        lemma_bodies_conditions(file.members@, file.lines@.len() as int);
    }
    if config.is_rule_enabled("quality/empty-function") {
        check_empty_function(file, ds);
    }
    let ghost s0 = diag_views(ds@);
    if config.is_rule_enabled("quality/max-class-variables") {
        check_max_class_variables(file, config, ds);
    }
    let ghost s1 = diag_views(ds@);
    if config.is_rule_enabled("quality/max-public-methods") {
        check_max_public_methods(file, config, ds);
    }
    let ghost s2 = diag_views(ds@);
    if config.is_rule_enabled("quality/max-inner-classes") {
        check_max_inner_classes(file, config, ds);
    }
    let ghost s3 = diag_views(ds@);
    proof {
        let ms = flatten(file.members@);
        let lines = file.lines@;
        let path = file.path@;
        let n = lines.len() as int;
        let r0 = when_enabled(*config, "quality/empty-function"@, concat_map(ms, |m: ClassMember| empty_function_diag(m, lines, path)));
        assert(s0 =~= start + r0);
        let r1 = when_enabled(*config, "quality/max-class-variables"@, class_limit_diags(file.members@, 1, config.max_class_variables, path, true));
        assert(s1 =~= start + r0 + r1);
        let r2 = when_enabled(*config, "quality/max-public-methods"@, class_limit_diags(file.members@, 2, config.max_public_methods, path, true));
        assert(s2 =~= start + r0 + r1 + r2);
        let r3 = when_enabled(*config, "quality/max-inner-classes"@, max_inner_classes_diags(file.members@, config.max_inner_classes, path));
        assert(s3 =~= start + r0 + r1 + r2 + r3);
        assert(quality_diags_3(*file, *config) =~= Seq::empty() + r0 + r1 + r2 + r3);
        assert(start + (Seq::empty() + r0 + r1 + r2 + r3) =~= start + r0 + r1 + r2 + r3);
    }
}

#[verifier::rlimit(50)]
#[verifier::spinoff_prover]
fn run_quality_4(file: &ScriptFile, config: &Config, ds: &mut Vec<Diagnostic>)
    requires
        bodies_in_file(file.members@, file.lines@.len() as int),
        lines_bounded(file.lines@),
    ensures
        diag_views(final(ds)@) == diag_views(old(ds)@) + quality_diags_4(*file, *config),
{
    let ghost start = diag_views(ds@);
    proof {
        lemma_bodies_conditions(file.members@, file.lines@.len() as int);
    }
    if config.is_rule_enabled("quality/no-else-return") {
        check_no_else_return(file, ds);
    }
    let ghost s0 = diag_views(ds@);
    if config.is_rule_enabled("quality/unreachable-code") {
        check_unreachable_code(file, ds);
    }
    let ghost s1 = diag_views(ds@);
    if config.is_rule_enabled("quality/await-in-loop") {
        check_await_in_loop(file, ds);
    }
    let ghost s2 = diag_views(ds@);
    if config.is_rule_enabled("quality/allocation-in-loop") {
        check_allocation_in_loop(file, ds);
    }
    let ghost s3 = diag_views(ds@);
    if config.is_rule_enabled("quality/process-get-node") {
        check_process_get_node(file, ds);
    }
    let ghost s4 = diag_views(ds@);
    proof {
        let ms = flatten(file.members@);
        let lines = file.lines@;
        let path = file.path@;
        let n = lines.len() as int;
        let r0 = when_enabled(*config, "quality/no-else-return"@, concat_idx(n, |i: int| else_return_diag(lines, i, path)));
        assert(s0 =~= start + r0);
        let r1 = when_enabled(*config, "quality/unreachable-code"@, unreachable_from(lines, 0, Seq::new(lines.len(), |k: int| false), path));
        assert(s1 =~= start + r0 + r1);
        let r2 = when_enabled(*config, "quality/await-in-loop"@, concat_idx(n, |i: int| await_diag(lines, i, path)));
        assert(s2 =~= start + r0 + r1 + r2);
        let r3 = when_enabled(*config, "quality/allocation-in-loop"@, concat_idx(n, |i: int| allocation_diag(lines, i, path)));
        assert(s3 =~= start + r0 + r1 + r2 + r3);
        let r4 = when_enabled(*config, "quality/process-get-node"@, concat_map(ms, |m: ClassMember| process_get_node_diag(m, lines, path)));
        assert(s4 =~= start + r0 + r1 + r2 + r3 + r4);
        assert(quality_diags_4(*file, *config) =~= Seq::empty() + r0 + r1 + r2 + r3 + r4);
        assert(start + (Seq::empty() + r0 + r1 + r2 + r3 + r4) =~= start + r0 + r1 + r2 + r3 + r4);
    }
}

#[verifier::rlimit(50)]
#[verifier::spinoff_prover]
fn run_quality_5(file: &ScriptFile, config: &Config, ds: &mut Vec<Diagnostic>)
    requires
        bodies_in_file(file.members@, file.lines@.len() as int),
        lines_bounded(file.lines@),
    ensures
        diag_views(final(ds)@) == diag_views(old(ds)@) + quality_diags_5(*file, *config),
{
    let ghost start = diag_views(ds@);
    proof {
        lemma_bodies_conditions(file.members@, file.lines@.len() as int);
    }
    if config.is_rule_enabled("quality/max-nesting-depth") {
        check_max_nesting_depth(file, config, ds);
    }
    let ghost s0 = diag_views(ds@);
    if config.is_rule_enabled("quality/max-returns") {
        check_max_returns(file, config, ds);
    }
    let ghost s1 = diag_views(ds@);
    if config.is_rule_enabled("quality/max-branches") {
        check_max_branches(file, config, ds);
    }
    let ghost s2 = diag_views(ds@);
    if config.is_rule_enabled("quality/max-local-variables") {
        check_max_local_variables(file, config, ds);
    }
    let ghost s3 = diag_views(ds@);
    proof {
        let ms = flatten(file.members@);
        let lines = file.lines@;
        let path = file.path@;
        let n = lines.len() as int;
        let r0 = when_enabled(*config, "quality/max-nesting-depth"@, concat_map(ms, |m: ClassMember| nesting_diag(m, lines, config.max_nesting_depth, path)));
        assert(s0 =~= start + r0);
        let r1 = when_enabled(*config, "quality/max-returns"@, concat_map(ms, |m: ClassMember| body_count_diag(m, lines, 0, config.max_returns, path)));
        assert(s1 =~= start + r0 + r1);
        let r2 = when_enabled(*config, "quality/max-branches"@, concat_map(ms, |m: ClassMember| body_count_diag(m, lines, 1, config.max_branches, path)));
        assert(s2 =~= start + r0 + r1 + r2);
        let r3 = when_enabled(*config, "quality/max-local-variables"@, concat_map(ms, |m: ClassMember| body_count_diag(m, lines, 2, config.max_local_variables, path)));
        assert(s3 =~= start + r0 + r1 + r2 + r3);
        assert(quality_diags_5(*file, *config) =~= Seq::empty() + r0 + r1 + r2 + r3);
        assert(start + (Seq::empty() + r0 + r1 + r2 + r3) =~= start + r0 + r1 + r2 + r3);
    }
}

/// `d` with its rule's configured severity.
fn with_configured_severity(d: &Diagnostic, config: &Config) -> (r: Diagnostic)
    ensures
        r@ == with_severity(d@, *config),
{
    let rule = chars_of(d.rule.as_str());
    let severity = match config.rules.get(rule.as_slice()) {
        Some(RuleSeverityConfig::Error) => Severity::Error,
        Some(RuleSeverityConfig::Warn) => Severity::Warning,
        _ => d.severity,
    };
    Diagnostic {
        rule: d.rule.clone(),
        message: d.message.clone(),
        severity,
        span: d.span,
        file: d.file.clone(),
    }
}

/// Run every rule that the configuration enables on `file`, lexed into
/// `tokens`: naming, format and quality rules in that order, each finding
/// with the severity configured for its rule (`warn` or `error`), if any.
pub fn run_all_rules(file: &ScriptFile, tokens: &[Token], config: &Config) -> (ds: Vec<Diagnostic>)
    requires
        bodies_in_file(file.members@, file.lines@.len() as int),
        lines_bounded(file.lines@),
    ensures
        diag_views(ds@) == apply_severity(all_rule_diags(*file, tokens@, *config), *config),
        forall|k: int|
            0 <= k < ds@.len() && config.rules.get_spec((#[trigger] ds@[k]).rule@) == Some(
                RuleSeverityConfig::Error,
            ) ==> ds@[k].severity == Severity::Error,
        forall|k: int|
            0 <= k < ds@.len() && config.rules.get_spec((#[trigger] ds@[k]).rule@) == Some(
                RuleSeverityConfig::Warn,
            ) ==> ds@[k].severity == Severity::Warning,
{
    let mut found: Vec<Diagnostic> = Vec::new();
    run_naming_format(file, config, &mut found);
    run_quality_1(file, tokens, config, &mut found);
    run_quality_2(file, tokens, config, &mut found);
    run_quality_3(file, config, &mut found);
    run_quality_4(file, config, &mut found);
    run_quality_5(file, config, &mut found);
    let ghost all = diag_views(found@);
    assert(all =~= all_rule_diags(*file, tokens@, *config));
    let mut out: Vec<Diagnostic> = Vec::new();
    let mut i: usize = 0;
    while i < found.len()
        invariant
            i <= found@.len(),
            all == diag_views(found@),
            diag_views(out@) == apply_severity(all.take(i as int), *config),
        decreases found@.len() - i,
    {
        let d = with_configured_severity(&found[i], config);
        let ghost before = out@;
        out.push(d);
        proof {
            lemma_diag_views_push(before, d);
            assert(apply_severity(all.take(i + 1), *config) =~= apply_severity(all.take(i as int), *config).push(
                with_severity(all[i as int], *config),
            ));
        }
        i = i + 1;
    }
    assert(all.take(found@.len() as int) == all);
    assert forall|k: int| 0 <= k < out@.len() implies (#[trigger] out@[k])@ == with_severity(all[k], *config) by {
        assert(diag_views(out@)[k] == out@[k]@);
    }
    out
}

} // verus!
